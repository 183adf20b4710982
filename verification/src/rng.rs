use vstd::prelude::*;

verus! {

use vstd::wrapping::{u32_specs, i32_specs};
use std::collections::HashSet;
use std::sync::Arc;
use vstd::string::StringSliceAdditionalSpecFns;
use crate::unique_seeds::{distinct_state_count, is_first_seed, seen_keys, unique_seed_key, unique_seed_key_of, all_keys, lemma_search_not_exhausted, lemma_seen_within_all, lemma_all_keys_len};

/// One step of the linear congruential generator that seeds the state.
pub open spec fn lcg(x: u32) -> u32 {
    u32_specs::wrapping_add(u32_specs::wrapping_mul(x, 0x343fd), 0x269ec3)
}

/// Seeding step that keeps bits 16..31 of the congruential value, masked to
/// fifteen bits.
pub open spec fn step_15bit(x: u32) -> u32 {
    (lcg(x) >> 16u32) & 0x7fff
}

/// The congruential value read as a signed 32-bit integer and shifted right
/// arithmetically by sixteen bits, as a bit pattern.
pub open spec fn arith_shr16(v: u32) -> u32 {
    if v < 0x8000_0000 {
        v >> 16u32
    } else {
        (v >> 16u32) | 0xffff_0000
    }
}

/// Seeding step of signed arithmetic: arithmetic shift, then the sign bit cleared.
pub open spec fn step_signed(x: u32) -> u32 {
    arith_shr16(lcg(x)) & 0x7fff_ffff
}

/// Seeding step that keeps the upper sixteen bits of the congruential value.
pub open spec fn step_plain(x: u32) -> u32 {
    lcg(x) >> 16u32
}

/// The three seeding steps.
pub enum SeedStep {
    Bits15,
    Signed,
    Plain,
}

/// One seeding step of the given kind.
pub open spec fn seed_step(kind: SeedStep, x: u32) -> u32 {
    match kind {
        SeedStep::Bits15 => step_15bit(x),
        SeedStep::Signed => step_signed(x),
        SeedStep::Plain => step_plain(x),
    }
}

/// The seeding step of the given kind applied `n` times to `x`.
pub open spec fn iterate(kind: SeedStep, x: u32, n: nat) -> u32
    decreases n,
{
    if n == 0 {
        x
    } else {
        seed_step(kind, iterate(kind, x, (n - 1) as nat))
    }
}

/// The sixteen state words that a seed gives, by seeding mode.
pub open spec fn initial_state(seed: u32, seeds_15bit: bool, seeds_signed: bool) -> Seq<u32> {
    if seeds_15bit {
        Seq::new(16, |i: int| iterate(SeedStep::Bits15, seed, (i + 1) as nat))
    } else if seeds_signed {
        Seq::new(16, |i: int| iterate(SeedStep::Signed, seed, (i + 1) as nat))
    } else {
        Seq::new(16, |i: int| iterate(SeedStep::Plain, step_signed(seed), i as nat))
    }
}

/// The seeding step of a seeding mode; `seeds_15bit` takes precedence.
pub open spec fn seeding_kind(seeds_15bit: bool, seeds_signed: bool) -> SeedStep {
    if seeds_15bit {
        SeedStep::Bits15
    } else if seeds_signed {
        SeedStep::Signed
    } else {
        SeedStep::Plain
    }
}

/// Seeding fills the sixteen words in a chain: the first word is one step
/// from the seed (the fifteen-bit step in fifteen-bit mode, the signed step
/// otherwise), and every later word is one step of the mode from the word
/// before it.
pub proof fn lemma_seeding_chain(seed: u32, seeds_15bit: bool, seeds_signed: bool)
    ensures
        initial_state(seed, seeds_15bit, seeds_signed).len() == 16,
        initial_state(seed, seeds_15bit, seeds_signed)[0] == if seeds_15bit {
            step_15bit(seed)
        } else {
            step_signed(seed)
        },
        forall|i: int|
            1 <= i < 16 ==> #[trigger] initial_state(seed, seeds_15bit, seeds_signed)[i] == seed_step(
                seeding_kind(seeds_15bit, seeds_signed),
                initial_state(seed, seeds_15bit, seeds_signed)[i - 1],
            ),
{
    let s = initial_state(seed, seeds_15bit, seeds_signed);
    let kind = seeding_kind(seeds_15bit, seeds_signed);
    if seeds_15bit || seeds_signed {
        assert(iterate(kind, seed, 1) == seed_step(kind, iterate(kind, seed, 0)));
    }
    assert forall|i: int| 1 <= i < 16 implies #[trigger] s[i] == seed_step(kind, s[i - 1]) by {
        if seeds_15bit || seeds_signed {
            assert(iterate(kind, seed, (i + 1) as nat) == seed_step(kind, iterate(kind, seed, i as nat)));
        } else {
            assert(iterate(kind, step_signed(seed), i as nat) == seed_step(
                kind,
                iterate(kind, step_signed(seed), (i - 1) as nat),
            ));
        }
    }
}

/// The tempering polynomial.
pub open spec fn random_poly_for(use_old_random_poly: bool) -> u32 {
    if use_old_random_poly {
        0xda442d20
    } else {
        0xda442d24
    }
}

/// Reading an `i32` bit pattern as a `u32` adds 2^32 to negative values.
proof fn lemma_i32_as_u32(y: i32)
    ensures
        (y as u32) as int == if y < 0 { y as int + 0x1_0000_0000 } else { y as int },
{
    assert(y < 0 ==> (y as u32) as u64 == (y as i64 + 0x1_0000_0000i64) as u64) by (bit_vector);
    assert(y >= 0 ==> (y as u32) as u64 == y as u64) by (bit_vector);
}

/// Signed wrapping arithmetic has the bit pattern of unsigned wrapping
/// arithmetic.
proof fn lemma_i32_lcg(xi: i32)
    ensures
        i32_specs::wrapping_add(i32_specs::wrapping_mul(xi, 0x343fd), 0x269ec3) as u32 == lcg(xi as u32),
{
    let x = xi as int;
    let u = (xi as u32) as int;
    let m: int = 0x1_0000_0000;
    lemma_i32_as_u32(xi);
    let t1 = (x * 0x343fd) % m;
    let t2 = (u * 0x343fd) % m;
    if x < 0 {
        assert(u * 0x343fd == m * 0x343fd + x * 0x343fd) by (nonlinear_arith)
            requires u == x + m;
        vstd::arithmetic::div_mod::lemma_mod_multiples_vanish(0x343fd, x * 0x343fd, m);
    }
    assert(t1 == t2);
    let mi = i32_specs::wrapping_mul(xi, 0x343fd);
    lemma_i32_as_u32(mi);
    assert((mi as u32) as int == t1);
    let ai = i32_specs::wrapping_add(mi, 0x269ec3);
    lemma_i32_as_u32(ai);
    assert(u32_specs::wrapping_mul(xi as u32, 0x343fd) as int == t2);
}

/// A seeding step in signed arithmetic: multiply, add, shift right
/// arithmetically, clear the sign bit.
pub(crate) fn seed_step_signed(signed_seed: i32) -> (r: i32)
    ensures
        r as u32 == step_signed(signed_seed as u32),
{
    proof {
        lemma_i32_lcg(signed_seed);
    }
    let a = i32::wrapping_add(i32::wrapping_mul(signed_seed, 0x343fd), 0x269ec3);
    let r = i32::wrapping_shr(a, 16) & 0x7fffffff;
    assert(((a >> 16u32) & 0x7fff_ffffi32) as u32 == arith_shr16(a as u32) & 0x7fff_ffff) by (bit_vector);
    r
}

/// A seeding step that keeps the upper sixteen bits of the signed
/// congruential value.
pub(crate) fn seed_step_plain(signed_seed: i32) -> (r: i32)
    ensures
        r as u32 == step_plain(signed_seed as u32),
{
    proof {
        lemma_i32_lcg(signed_seed);
    }
    let a = i32::wrapping_add(i32::wrapping_mul(signed_seed, 0x343fd), 0x269ec3);
    let r = u32::wrapping_shr(a as u32, 16) as i32;
    let v = a as u32;
    assert(((v >> 16u32) as i32) as u32 == v >> 16u32) by (bit_vector);
    r
}

/// Number of 32-bit words in the generator's state.
pub const RNG_STATE_SIZE: usize = 16;

/// Abstract state of a [`RNG`].
pub struct RngState {
    pub random_poly: u32,
    pub index: int,
    pub num_calls: nat,
    pub state: Seq<u32>,
}

/// A WELL512-style generator: sixteen words of state, a rotating index and
/// a tempering polynomial.
#[derive(Clone, Copy)]
pub struct RNG {
    random_poly: u32,
    index: usize,
    pub num_calls: usize,
    state: [u32; RNG_STATE_SIZE],
}

impl View for RNG {
    type V = RngState;

    closed spec fn view(&self) -> RngState {
        RngState {
            random_poly: self.random_poly,
            index: self.index as int,
            num_calls: self.num_calls as nat,
            state: self.state@,
        }
    }
}

impl RngState {
    /// The index points into the sixteen words of state.
    pub open spec fn wf(self) -> bool {
        &&& 0 <= self.index < 16
        &&& self.state.len() == 16
    }

    /// The state after one draw.
    pub open spec fn next(self) -> RngState {
        let i = self.index;
        let s = self.state;
        let a = s[i];
        let b = s[(i + 13) % 16];
        let c = a ^ b ^ (a << 16u32) ^ (b << 15u32);
        let b1 = s[(i + 9) % 16];
        let b2 = b1 ^ (b1 >> 11u32);
        let a1 = c ^ b2;
        let s1 = s.update(i, a1);
        let d = a1 ^ ((a1 << 5u32) & self.random_poly);
        let j = (i + 15) % 16;
        let a2 = s1[j];
        RngState {
            random_poly: self.random_poly,
            index: j,
            num_calls: self.num_calls + 1,
            state: s1.update(j, a2 ^ c ^ d ^ (a2 << 2u32) ^ (c << 18u32) ^ (b2 << 28u32)),
        }
    }

    /// The value that one draw returns.
    pub open spec fn output(self) -> u32 {
        self.next().state[self.next().index]
    }

    /// The state after `n` draws.
    pub open spec fn advanced(self, n: nat) -> RngState
        decreases n,
    {
        if n == 0 {
            self
        } else {
            self.advanced((n - 1) as nat).next()
        }
    }

    /// The value returned by the draw that follows `k` draws.
    pub open spec fn nth_output(self, k: nat) -> u32 {
        self.advanced(k).output()
    }

    /// A freshly seeded state.
    pub open spec fn seeded(seed: u32, seeds_15bit: bool, seeds_signed: bool, use_old_random_poly: bool) -> RngState {
        RngState {
            random_poly: random_poly_for(use_old_random_poly),
            index: 0,
            num_calls: 0,
            state: initial_state(seed, seeds_15bit, seeds_signed),
        }
    }

    /// A summary of what the generator will draw: the index and the
    /// exclusive or of the state words. Equal streams have equal fingerprints.
    pub open spec fn fingerprint(self) -> u64 {
        (xor_words(self.state, 16) as u64) | ((self.index as u64) << 32u64)
    }

    /// Two states draw the same values from now on: the draw counter aside,
    /// they agree.
    pub open spec fn same_stream(self, other: RngState) -> bool {
        &&& self.random_poly == other.random_poly
        &&& self.index == other.index
        &&& self.state == other.state
    }
}

/// Exclusive or of the first `n` words of `s`.
pub open spec fn xor_words(s: Seq<u32>, n: nat) -> u32
    decreases n,
{
    if n == 0 {
        0
    } else {
        xor_words(s, (n - 1) as nat) ^ s[n - 1]
    }
}

/// Draws keep the invariant, count one call each and keep the polynomial.
pub proof fn lemma_advanced(r: RngState, n: nat)
    requires
        r.wf(),
    ensures
        r.advanced(n).wf(),
        r.advanced(n).num_calls == r.num_calls + n,
        r.advanced(n).random_poly == r.random_poly,
    decreases n,
{
    if n > 0 {
        lemma_advanced(r, (n - 1) as nat);
    }
}

/// Drawing `m` times and then `n` times is drawing `m + n` times.
pub proof fn lemma_advanced_add(r: RngState, m: nat, n: nat)
    ensures
        r.advanced(m).advanced(n) == r.advanced(m + n),
    decreases n,
{
    if n > 0 {
        lemma_advanced_add(r, m, (n - 1) as nat);
    }
}

/// Two generators that agree but for their draw counters draw the same
/// values forever and keep agreeing.
pub proof fn lemma_same_stream_same_outputs(a: RngState, b: RngState, k: nat)
    requires
        a.wf(),
        a.same_stream(b),
    ensures
        a.advanced(k).same_stream(b.advanced(k)),
        a.nth_output(k) == b.nth_output(k),
    decreases k,
{
    if k > 0 {
        lemma_same_stream_same_outputs(a, b, (k - 1) as nat);
    }
}

/// The generator with its state turned by `k` places: each word moves `k`
/// places up (modulo sixteen), and the index with it.
pub open spec fn rotated(r: RngState, k: int) -> RngState {
    RngState {
        random_poly: r.random_poly,
        index: (r.index + k) % 16,
        num_calls: r.num_calls,
        state: Seq::new(16, |x: int| r.state[(x - k) % 16]),
    }
}

proof fn lemma_turned_indices(i: int, k: int)
    requires
        0 <= i < 16,
        0 <= k < 16,
    ensures
        ({
            let ii = (i + k) % 16;
            &&& 0 <= ii < 16
            &&& (ii - k) % 16 == i
            &&& ((ii + 13) % 16 - k) % 16 == (i + 13) % 16
            &&& ((ii + 9) % 16 - k) % 16 == (i + 9) % 16
            &&& ((ii + 15) % 16 - k) % 16 == (i + 15) % 16
            &&& forall|x: int| 0 <= x < 16 && x != ii ==> #[trigger] ((x - k) % 16) != i
            &&& forall|x: int| 0 <= x < 16 && x != (ii + 15) % 16 ==> #[trigger] ((x - k) % 16) != (i + 15) % 16
        }),
{
    let ii = (i + k) % 16;
    lemma_mod16(i + k);
    lemma_mod16(ii - k);
    lemma_mod16(ii + 13);
    lemma_mod16(i + 13);
    lemma_mod16((ii + 13) % 16 - k);
    lemma_mod16(ii + 9);
    lemma_mod16(i + 9);
    lemma_mod16((ii + 9) % 16 - k);
    lemma_mod16(ii + 15);
    lemma_mod16(i + 15);
    lemma_mod16((ii + 15) % 16 - k);
    assert forall|x: int| 0 <= x < 16 && x != ii implies #[trigger] ((x - k) % 16) != i by {
        lemma_mod16(x - k);
    }
    assert forall|x: int| 0 <= x < 16 && x != (ii + 15) % 16 implies #[trigger] ((x - k) % 16) != (i + 15) % 16 by {
        lemma_mod16(x - k);
    }
}

/// Remainders modulo sixteen of numbers close to the range.
proof fn lemma_mod16(v: int)
    requires
        -16 <= v < 32,
    ensures
        v % 16 == if v < 0 {
            v + 16
        } else if v < 16 {
            v
        } else {
            v - 16
        },
{
    if v < 0 {
        vstd::arithmetic::div_mod::lemma_fundamental_div_mod_converse(v, 16, -1, v + 16);
    } else if v < 16 {
        vstd::arithmetic::div_mod::lemma_fundamental_div_mod_converse(v, 16, 0, v);
    } else {
        vstd::arithmetic::div_mod::lemma_fundamental_div_mod_converse(v, 16, 1, v - 16);
    }
}

/// A draw treats every index alike: turning the state and the index
/// together by any number of places turns the state after the draw by as
/// many places and leaves the drawn value unchanged.
#[verifier::rlimit(60)]
pub proof fn lemma_draw_ignores_position(r: RngState, k: int)
    requires
        r.wf(),
        0 <= k < 16,
    ensures
        rotated(r, k).wf(),
        rotated(r, k).next() == rotated(r.next(), k),
        rotated(r, k).output() == r.output(),
{
    let rr = rotated(r, k);
    let i = r.index;
    let ii = rr.index;
    lemma_turned_indices(i, k);
    let a = r.state[i];
    let b = r.state[(i + 13) % 16];
    let b1 = r.state[(i + 9) % 16];
    assert(rr.state[ii] == a);
    assert(rr.state[(ii + 13) % 16] == b);
    assert(rr.state[(ii + 9) % 16] == b1);
    let c = a ^ b ^ (a << 16u32) ^ (b << 15u32);
    let b2 = b1 ^ (b1 >> 11u32);
    let a1 = c ^ b2;
    let j = (i + 15) % 16;
    let jj = (ii + 15) % 16;
    let s1 = r.state.update(i, a1);
    let ss1 = rr.state.update(ii, a1);
    assert(ss1[jj] == s1[j]);
    let n = r.next();
    let nn = rr.next();
    let target = rotated(n, k);
    assert forall|x: int| 0 <= x < 16 implies #[trigger] nn.state[x] == target.state[x] by {
        let y = (x - k) % 16;
        lemma_mod16(x - k);
        assert(target.state[x] == n.state[y]);
        if x == jj {
            assert(y == j);
        } else if x == ii {
            assert(y == i);
            assert(y != j);
        } else {
            assert(y != i && y != j);
            assert(nn.state[x] == rr.state[x]);
        }
    }
    assert(nn.state =~= target.state);
    assert(nn.index == target.index);
}

/// Two generators that are equal (`==` compares all but the draw counters)
/// draw the same next value and are still equal afterwards: what
/// `RNG::next_u32` returns never depends on the draw counter.
pub proof fn lemma_equal_generators_draw_alike(a: RngState, b: RngState)
    requires
        a.wf(),
        a.same_stream(b),
    ensures
        a.output() == b.output(),
        a.next().same_stream(b.next()),
        a.next().num_calls == a.num_calls + 1,
        b.next().num_calls == b.num_calls + 1,
{
}

/// The byte of `dir` that a drawn value selects is an ASCII `1`.
pub open spec fn selects_one(dir: Seq<u8>, v: u32) -> bool {
    (v % 9) < dir.len() && dir[(v % 9) as int] == 49
}

/// The draws of a movement that starts from `r` end with draw `k`: every
/// earlier draw selects a byte of `dir` that is not `1`, draw `k` selects a `1`.
pub open spec fn move_ends_at(dir: Seq<u8>, r: RngState, k: nat) -> bool {
    &&& forall|j: nat| j < k ==> (#[trigger] r.nth_output(j) % 9) < dir.len() && !selects_one(dir, r.nth_output(j))
    &&& selects_one(dir, r.nth_output(k))
}

/// No draw among the first `j` of a movement from `r` selects a `1` of `dir`.
pub open spec fn no_one_before(dir: Seq<u8>, r: RngState, j: nat) -> bool {
    forall|i: nat| i < j ==> !selects_one(dir, #[trigger] r.nth_output(i))
}

/// Each draw of a movement from `r` along `dir`, up to the first that
/// selects a `1` and while the draw counter has room, selects a byte of
/// `dir`.
pub open spec fn move_in_bounds(dir: Seq<u8>, r: RngState) -> bool {
    !dir.contains(49) || forall|j: nat|
        r.num_calls + j < usize::MAX && no_one_before(dir, r, j) ==> (#[trigger] r.nth_output(j) % 9) < dir.len()
}

/// A movement from `r` along `dir` ends, and before the draw counter runs out.
pub open spec fn move_completes(dir: Seq<u8>, r: RngState) -> bool {
    !dir.contains(49) || exists|k: nat| #[trigger] move_ends_at(dir, r, k) && r.num_calls + k < usize::MAX
}

/// The state after a movement from `r` along `dir`: no draw when `dir`
/// holds no `1`; else the draws up to the first that selects a `1`, or, if
/// none does while the draw counter has room, the draws that fill it.
pub open spec fn moved(dir: Seq<u8>, r: RngState, after: RngState) -> bool {
    if !dir.contains(49) {
        after == r
    } else {
        ||| exists|k: nat| #[trigger] move_ends_at(dir, r, k) && r.num_calls + k < usize::MAX && after == r.advanced(k + 1)
        ||| after == r.advanced((usize::MAX - r.num_calls) as nat) && no_one_before(dir, r, (usize::MAX - r.num_calls) as nat)
    }
}

/// A direction of at least nine bytes is never read past its end.
pub proof fn lemma_long_dir_in_bounds(dir: Seq<u8>, r: RngState)
    requires
        dir.len() >= 9,
    ensures
        move_in_bounds(dir, r),
{
}

/// A movement that ends before the draw counter runs out ends at its first
/// draw that selects a `1`.
pub proof fn lemma_completed_move(dir: Seq<u8>, r: RngState, after: RngState)
    requires
        r.num_calls <= usize::MAX,
        move_completes(dir, r),
        moved(dir, r, after),
        dir.contains(49),
    ensures
        exists|k: nat| #[trigger] move_ends_at(dir, r, k) && r.num_calls + k < usize::MAX && after == r.advanced(k + 1),
{
    let k = choose|k: nat| #[trigger] move_ends_at(dir, r, k) && r.num_calls + k < usize::MAX;
    if !(exists|k: nat| #[trigger] move_ends_at(dir, r, k) && r.num_calls + k < usize::MAX && after == r.advanced(k + 1)) {
        assert(no_one_before(dir, r, (usize::MAX - r.num_calls) as nat));
        assert(!selects_one(dir, r.nth_output(k)));
    }
}

/// Whether `bytes` holds `x`.
pub fn bytes_contain(bytes: &[u8], x: u8) -> (found: bool)
    ensures
        found == bytes@.contains(x),
{
    let mut i: usize = 0;
    while i < bytes.len()
        invariant
            i <= bytes@.len(),
            forall|j: int| 0 <= j < i ==> bytes@[j] != x,
        decreases bytes@.len() - i,
    {
        if bytes[i] == x {
            return true;
        }
        i += 1;
    }
    false
}

impl RNG {
    /// The generator's invariant: its index points into its state.
    pub open spec fn wf(&self) -> bool {
        self@.wf()
    }

    /// Seeds a generator. `seeds_15bit` takes precedence over `seeds_signed`.
    pub fn new(seed: u32, seeds_15bit: bool, seeds_signed: bool, use_old_random_poly: bool) -> (rng: RNG)
        ensures
            rng.wf(),
            rng@ == RngState::seeded(seed, seeds_15bit, seeds_signed, use_old_random_poly),
    {
        let mut rng: RNG = RNG {
            random_poly: if use_old_random_poly {
                0xda442d20
            } else {
                0xda442d24
            },
            index: 0,
            num_calls: 0,
            state: [0u32; 16],
        };
        let ghost seed0 = seed;
        let mut seed = seed;
        rng.index = 0;
        if seeds_15bit {
            for i in 0..RNG_STATE_SIZE
                invariant
                    seed == iterate(SeedStep::Bits15, seed0, i as nat),
                    rng.index == 0,
                    rng.num_calls == 0,
                    rng.random_poly == random_poly_for(use_old_random_poly),
                    rng.state@.len() == 16,
                    forall|j: int| 0 <= j < i ==> rng.state@[j] == iterate(SeedStep::Bits15, seed0, (j + 1) as nat),
            {
                seed = u32::wrapping_shr(u32::wrapping_add(u32::wrapping_mul(seed, 0x343fd), 0x269ec3), 16) & 0x7fff;
                assert(seed == step_15bit(iterate(SeedStep::Bits15, seed0, i as nat)));
                assert(iterate(SeedStep::Bits15, seed0, (i + 1) as nat) == seed_step(SeedStep::Bits15, iterate(SeedStep::Bits15, seed0, i as nat)));
                rng.state[i] = seed;
            }
        } else if seeds_signed {
            let mut signed_seed = seed as i32;
            assert((seed as i32) as u32 == seed) by (bit_vector);
            for i in 0..RNG_STATE_SIZE
                invariant
                    signed_seed as u32 == iterate(SeedStep::Signed, seed0, i as nat),
                    rng.index == 0,
                    rng.num_calls == 0,
                    rng.random_poly == random_poly_for(use_old_random_poly),
                    rng.state@.len() == 16,
                    forall|j: int| 0 <= j < i ==> rng.state@[j] == iterate(SeedStep::Signed, seed0, (j + 1) as nat),
            {
                signed_seed = seed_step_signed(signed_seed);
                assert(iterate(SeedStep::Signed, seed0, (i + 1) as nat) == seed_step(SeedStep::Signed, iterate(SeedStep::Signed, seed0, i as nat)));
                rng.state[i] = signed_seed as u32;
            }
        } else {
            let mut signed_seed = seed as i32;
            assert((seed as i32) as u32 == seed) by (bit_vector);
            signed_seed = seed_step_signed(signed_seed);
            let ghost s0 = signed_seed as u32;
            rng.state[0] = signed_seed as u32;
            for i in 1..RNG_STATE_SIZE
                invariant
                    1 <= i <= 16,
                    s0 == step_signed(seed0),
                    signed_seed as u32 == iterate(SeedStep::Plain, s0, (i - 1) as nat),
                    rng.index == 0,
                    rng.num_calls == 0,
                    rng.random_poly == random_poly_for(use_old_random_poly),
                    rng.state@.len() == 16,
                    forall|j: int| 0 <= j < i ==> rng.state@[j] == iterate(SeedStep::Plain, s0, j as nat),
            {
                signed_seed = seed_step_plain(signed_seed);
                assert(iterate(SeedStep::Plain, s0, i as nat) == seed_step(SeedStep::Plain, iterate(SeedStep::Plain, s0, (i - 1) as nat)));
                rng.state[i] = signed_seed as u32;
            }
        }
        assert(rng@.state =~= initial_state(seed0, seeds_15bit, seeds_signed));
        rng
    }

    /// The number of values drawn so far.
    pub fn num_calls(&self) -> (n: usize)
        ensures
            n == self@.num_calls,
    {
        self.num_calls
    }

    /// Sets the draw counter; the values to come do not change.
    pub fn set_num_calls(&mut self, n: usize)
        ensures
            final(self)@ == (RngState { num_calls: n as nat, ..old(self)@ }),
            final(self)@.same_stream(old(self)@),
    {
        self.num_calls = n;
    }

    /// Draws the next 32-bit value.
    pub fn next_u32(&mut self) -> (r: u32)
        requires
            old(self).wf(),
            old(self)@.num_calls < usize::MAX,
        ensures
            final(self)@ == old(self)@.next(),
            r == old(self)@.output(),
            final(self).wf(),
    {
        let i = self.index;
        assert(((i + 13) as usize) & 15 == (i + 13) % 16 && ((i + 9) as usize) & 15 == (i + 9) % 16
            && ((i + 15) as usize) & 15 == (i + 15) % 16) by (bit_vector)
            requires i < 16usize;
        let mut a: u32 = self.state[i];
        let mut b: u32 = self.state[(i + 13) & 15];
        let c: u32 = a ^ b ^ u32::wrapping_shl(a, 16) ^ u32::wrapping_shl(b, 15);
        b = self.state[(i + 9) & 15];
        b ^= u32::wrapping_shr(b, 11);
        a = c ^ b;
        self.state[i] = a;
        let d: u32 = a ^ (u32::wrapping_shl(a, 5) & self.random_poly);
        self.index = (i + 15) & 15;
        a = self.state[self.index];
        self.state[self.index] = a ^ c ^ d ^ u32::wrapping_shl(a, 2) ^ u32::wrapping_shl(c, 18)
            ^ u32::wrapping_shl(b, 28);
        self.num_calls += 1;
        assert(self.state@ =~= old(self)@.next().state);
        self.state[self.index]
    }

    /// Draws `n` values and drops them.
    pub fn advance(&mut self, n: usize)
        requires
            old(self).wf(),
            old(self)@.num_calls + n <= usize::MAX,
        ensures
            final(self).wf(),
            final(self)@ == old(self)@.advanced(n as nat),
    {
        for i in 0..n
            invariant
                self.wf(),
                self@ == old(self)@.advanced(i as nat),
                old(self).wf(),
                old(self)@.num_calls + n <= usize::MAX,
        {
            proof {
                lemma_advanced(old(self)@, i as nat);
            }
            self.next_u32();
        }
    }

    /// Draws values until one of them, taken modulo nine, selects a `1` byte
    /// of `dir`; draws nothing when `dir` holds no `1`.
    pub fn action_move(&mut self, dir: &str)
        requires
            old(self).wf(),
            move_in_bounds(dir.spec_bytes(), old(self)@),
        ensures
            final(self).wf(),
            moved(dir.spec_bytes(), old(self)@, final(self)@),
    {
        let bytes = dir.as_bytes();
        if bytes_contain(bytes, 49) {
            let ghost start = self@;
            let ghost mut j: nat = 0;
            // Call irandom until it lands on a byte that's '1' rather than '0'
            loop
                invariant_except_break
                    self.wf(),
                    start.wf(),
                    self@ == start.advanced(j),
                    start.num_calls + j <= usize::MAX,
                    no_one_before(bytes@, start, j),
                    move_in_bounds(bytes@, start),
                    bytes@.contains(49),
                    bytes@ == dir.spec_bytes(),
                ensures
                    self.wf(),
                    moved(dir.spec_bytes(), start, self@),
                decreases usize::MAX - self.num_calls,
            {
                proof {
                    lemma_advanced(start, j);
                }
                if self.num_calls == usize::MAX {
                    assert(j == (usize::MAX - start.num_calls) as nat);
                    break;
                }
                let v = self.next_u32();
                assert(v == start.nth_output(j));
                let index = (v % 9) as usize;
                if bytes[index] == 49 {
                    assert forall|i: nat| i < j implies (#[trigger] start.nth_output(i) % 9) < bytes@.len()
                        && !selects_one(bytes@, start.nth_output(i)) by {
                        assert(no_one_before(bytes@, start, i));
                    }
                    assert(move_ends_at(bytes@, start, j));
                    break;
                }
                proof {
                    assert forall|i: nat| i < j + 1 implies !selects_one(bytes@, #[trigger] start.nth_output(i)) by {}
                    j = j + 1;
                }
            }
        }
    }

    /// Lists, in increasing order, every seed whose seeded state differs from
    /// that of all smaller seeds, until one seed of each possible state has
    /// been found.
    pub fn calculate_unique_seeds(seeds_15bit: bool, seeds_signed: bool) -> (seeds: Vec<u32>)
        ensures
            seeds.len() == distinct_state_count(seeds_15bit),
            forall|i: int| 0 <= i < seeds.len() ==> is_first_seed(seeds_15bit, seeds_signed, #[trigger] seeds@[i]),
            forall|i: int, j: int| 0 <= i < j < seeds.len() ==> seeds@[i] < seeds@[j],
            forall|s: u32|
                #[trigger] is_first_seed(seeds_15bit, seeds_signed, s) && s < seeds@.last() ==> seeds@.contains(s),
    {
        broadcast use vstd::std_specs::hash::group_hash_axioms, vstd::set::group_set_axioms;

        let unique_state_count: usize = if seeds_15bit {
            32768
        } else {
            65536
        };
        let mut unique_seeds_list: Vec<u32> = Vec::with_capacity(unique_state_count);
        let mut unique_states: HashSet<u32> = HashSet::with_capacity(unique_state_count);
        let mut curr_seed: u32 = 0;
        proof {
            assert(unique_states@ =~= seen_keys(seeds_15bit, seeds_signed, 0));
        }
        while unique_states.len() < unique_state_count
            invariant
                unique_state_count == distinct_state_count(seeds_15bit),
                unique_states@ == seen_keys(seeds_15bit, seeds_signed, curr_seed as int),
                unique_states@.finite(),
                unique_states@.len() == unique_seeds_list.len(),
                unique_seeds_list.len() <= unique_state_count,
                forall|i: int|
                    0 <= i < unique_seeds_list.len() ==> #[trigger] unique_seeds_list@[i] < curr_seed
                        && is_first_seed(seeds_15bit, seeds_signed, unique_seeds_list@[i]),
                forall|i: int, j: int|
                    0 <= i < j < unique_seeds_list.len() ==> unique_seeds_list@[i] < unique_seeds_list@[j],
                forall|s: u32|
                    s < curr_seed && #[trigger] is_first_seed(seeds_15bit, seeds_signed, s)
                        ==> unique_seeds_list@.contains(s),
            decreases 0xffff_ffff - curr_seed,
        {
            proof {
                lemma_search_not_exhausted(seeds_15bit, seeds_signed, curr_seed as int);
            }
            let ghost before = unique_states@;
            let ghost list_before = unique_seeds_list@;
            let state = unique_seed_key_of(seeds_15bit, seeds_signed, curr_seed);
            let fresh = unique_states.insert(state);
            if fresh {
                unique_seeds_list.push(curr_seed);
            }
            proof {
                let n = curr_seed as int;
                assert(seen_keys(seeds_15bit, seeds_signed, n + 1) =~= before.insert(state)) by {
                    assert forall|v: u32| seen_keys(seeds_15bit, seeds_signed, n + 1).contains(v)
                        implies before.insert(state).contains(v) by {
                        let s = choose|s: u32| s < n + 1 && #[trigger] unique_seed_key(seeds_15bit, seeds_signed, s) == v;
                        if s < n {
                            assert(before.contains(v));
                        }
                    }
                    assert(seen_keys(seeds_15bit, seeds_signed, n + 1).contains(state));
                }
                assert(is_first_seed(seeds_15bit, seeds_signed, curr_seed) == fresh) by {
                    if !fresh {
                        let s = choose|s: u32| s < n && #[trigger] unique_seed_key(seeds_15bit, seeds_signed, s) == state;
                        assert(!is_first_seed(seeds_15bit, seeds_signed, curr_seed));
                    }
                }
                lemma_seen_within_all(seeds_15bit, seeds_signed, n + 1);
                lemma_all_keys_len(seeds_15bit, seeds_signed);
                vstd::set_lib::lemma_len_subset(
                    seen_keys(seeds_15bit, seeds_signed, n + 1),
                    all_keys(seeds_15bit, seeds_signed),
                );
                if fresh {
                    assert(unique_seeds_list@ == list_before.push(curr_seed));
                    assert forall|s: u32|
                        s < n + 1 && #[trigger] is_first_seed(seeds_15bit, seeds_signed, s)
                        implies unique_seeds_list@.contains(s) by {
                        if s < n {
                            let i = choose|i: int| 0 <= i < list_before.len() && list_before[i] == s;
                            assert(unique_seeds_list@[i] == s);
                        } else {
                            assert(unique_seeds_list@[list_before.len() as int] == s);
                        }
                    }
                }
            }
            curr_seed += 1;
        }
        unique_seeds_list
    }
}

impl RNG {
    /// Whether two generators will draw the same values: equal polynomials,
    /// indices and states, whatever their draw counters.
    pub fn same_stream(&self, other: &RNG) -> (r: bool)
        ensures
            r == self@.same_stream(other@),
    {
        if self.random_poly != other.random_poly || self.index != other.index {
            return false;
        }
        let mut i: usize = 0;
        while i < RNG_STATE_SIZE
            invariant
                i <= 16,
                self.state@.len() == 16,
                other.state@.len() == 16,
                forall|j: int| 0 <= j < i ==> self.state@[j] == other.state@[j],
            decreases 16 - i,
        {
            if self.state[i] != other.state[i] {
                return false;
            }
            i += 1;
        }
        assert(self.state@ =~= other.state@);
        true
    }
}

impl RNG {
    /// Computes [`RngState::fingerprint`].
    pub fn fingerprint(&self) -> (h: u64)
        requires
            self.wf(),
        ensures
            h == self@.fingerprint(),
    {
        let mut x: u32 = 0;
        let mut i: usize = 0;
        while i < RNG_STATE_SIZE
            invariant
                i <= 16,
                self.state@.len() == 16,
                x == xor_words(self.state@, i as nat),
            decreases 16 - i,
        {
            x = x ^ self.state[i];
            i += 1;
        }
        (x as u64) | ((self.index as u64) << 32)
    }
}

impl PartialEq for RNG {
    fn eq(&self, other: &Self) -> (r: bool) {
        self.same_stream(other)
    }
}

impl vstd::std_specs::cmp::PartialEqSpecImpl for RNG {
    open spec fn obeys_eq_spec() -> bool {
        true
    }

    open spec fn eq_spec(&self, other: &RNG) -> bool {
        self@.same_stream(other@)
    }
}

impl Eq for RNG {
}

/// Abstract state of a [`PrecomputedRNG`]: the values it hands out, in order,
/// and how many it has handed out.
pub struct PrecomputedState {
    pub values: Seq<u32>,
    pub ptr: int,
}

/// A generator that replays values drawn in advance from a [`RNG`].
pub struct PrecomputedRNG {
    values: Arc<Vec<u32>>,
    pub ptr: usize,
}

impl View for PrecomputedRNG {
    type V = PrecomputedState;

    closed spec fn view(&self) -> PrecomputedState {
        PrecomputedState { values: self.values@, ptr: self.ptr as int }
    }
}

/// The first `n` values that the generator in state `r` draws.
pub open spec fn first_outputs(r: RngState, n: nat) -> Seq<u32> {
    Seq::new(n, |k: int| r.nth_output(k as nat))
}

/// A replay of `values` from position `ptr` along `dir` ends, and ends at
/// position `ptr + k`.
pub open spec fn replay_ends_at(dir: Seq<u8>, values: Seq<u32>, ptr: int, k: int) -> bool {
    &&& 0 <= k
    &&& ptr + k < values.len()
    &&& forall|j: int| 0 <= j < k ==> (#[trigger] values[ptr + j] % 9) < dir.len() && !selects_one(dir, values[ptr + j])
    &&& selects_one(dir, values[ptr + k])
}

/// `Arc::clone`: another handle to the same values, so the same values.
#[verifier::external_body]
fn share_values(values: &Arc<Vec<u32>>) -> (shared: Arc<Vec<u32>>)
    ensures
        shared@ == values@,
{
    Arc::clone(values)
}

impl Clone for PrecomputedRNG {
    /// Another replay of the same values from the same position; the values
    /// themselves are shared, not copied.
    fn clone(&self) -> (c: Self)
        ensures
            c@ == self@,
    {
        PrecomputedRNG { values: share_values(&self.values), ptr: self.ptr }
    }
}

impl PrecomputedRNG {
    /// Draws `num_values` values from a freshly seeded [`RNG`] and keeps them.
    pub fn new(
        seed: u32,
        seeds_15bit: bool,
        seeds_signed: bool,
        use_old_random_poly: bool,
        num_values: usize,
    ) -> (p: Self)
        ensures
            p@.values == first_outputs(RngState::seeded(seed, seeds_15bit, seeds_signed, use_old_random_poly), num_values as nat),
            p@.ptr == 0,
    {
        let mut rng = RNG::new(seed, seeds_15bit, seeds_signed, use_old_random_poly);
        let ghost start = rng@;
        let mut values: Vec<u32> = Vec::with_capacity(num_values);
        for i in 0..num_values
            invariant
                rng.wf(),
                start.wf(),
                start.num_calls == 0,
                rng@ == start.advanced(i as nat),
                values@ =~= first_outputs(start, i as nat),
        {
            proof {
                lemma_advanced(start, i as nat);
            }
            let v = rng.next_u32();
            values.push(v);
        }
        Self { values: Arc::new(values), ptr: 0 }
    }

    /// The number of precomputed values.
    pub fn len(&self) -> (n: usize)
        ensures
            n == self@.values.len(),
    {
        self.values.len()
    }

    /// Hands out the next precomputed value.
    pub fn next_u32(&mut self) -> (r: u32)
        requires
            old(self)@.ptr < old(self)@.values.len(),
        ensures
            r == old(self)@.values[old(self)@.ptr],
            final(self)@.values == old(self)@.values,
            final(self)@.ptr == old(self)@.ptr + 1,
    {
        let values: &Vec<u32> = &*self.values;
        let r = values[self.ptr];
        assert(self.ptr < values.len());
        self.ptr += 1;
        r
    }

    /// Hands out values until one of them, taken modulo nine, selects a `1`
    /// byte of `dir`; hands out nothing when `dir` holds no `1`.
    pub fn action_move(&mut self, dir: &str)
        requires
            dir.spec_bytes().contains(49) ==> exists|k: int|
                #[trigger] replay_ends_at(dir.spec_bytes(), old(self)@.values, old(self)@.ptr, k),
        ensures
            final(self)@.values == old(self)@.values,
            !dir.spec_bytes().contains(49) ==> final(self)@.ptr == old(self)@.ptr,
            dir.spec_bytes().contains(49) ==> replay_ends_at(
                dir.spec_bytes(),
                old(self)@.values,
                old(self)@.ptr,
                final(self)@.ptr - old(self)@.ptr - 1,
            ),
    {
        let bytes = dir.as_bytes();
        if bytes_contain(bytes, 49) {
            let ghost start = self@;
            let ghost k = choose|k: int| #[trigger] replay_ends_at(bytes@, start.values, start.ptr, k);
            loop
                invariant_except_break
                    self@.values == start.values,
                    start.ptr <= self@.ptr <= start.ptr + k,
                    replay_ends_at(bytes@, start.values, start.ptr, k),
                    bytes@ == dir.spec_bytes(),
                ensures
                    self@.values == start.values,
                    self@.ptr == start.ptr + k + 1,
                decreases start.ptr + k - self@.ptr,
            {
                let ghost j = self@.ptr - start.ptr;
                let v = self.next_u32();
                assert(v == start.values[start.ptr + j]);
                let index = (v % 9) as usize;
                if bytes[index] == 49 {
                    assert(j == k);
                    break;
                }
            }
        }
    }
}

/// A replay of the values that a generator draws, started after `j` values,
/// ends after as many values as the movement of the generator itself after
/// `j` draws: the two `action_move`s agree.
pub proof fn lemma_replay_moves_like_generator(dir: Seq<u8>, r: RngState, n: nat, j: nat, k: nat)
    requires
        j + k < n,
    ensures
        replay_ends_at(dir, first_outputs(r, n), j as int, k as int) == move_ends_at(dir, r.advanced(j), k),
{
    let values = first_outputs(r, n);
    assert forall|i: nat| i <= k implies #[trigger] r.advanced(j).nth_output(i) == values[(j + i) as int] by {
        lemma_advanced_add(r, j, i);
    }
    if replay_ends_at(dir, values, j as int, k as int) {
        assert forall|i: nat| i < k implies (#[trigger] r.advanced(j).nth_output(i) % 9) < dir.len()
            && !selects_one(dir, r.advanced(j).nth_output(i)) by {
            assert(values[(j + i) as int] == r.advanced(j).nth_output(i));
        }
    }
    if move_ends_at(dir, r.advanced(j), k) {
        assert forall|i: int| 0 <= i < k implies (#[trigger] values[j + i] % 9) < dir.len()
            && !selects_one(dir, values[j + i]) by {
            assert(values[j + i] == r.advanced(j).nth_output(i as nat));
        }
    }
}

/// A movement ends at one draw only.
pub proof fn lemma_move_ends_once(dir: Seq<u8>, r: RngState, k1: nat, k2: nat)
    requires
        move_ends_at(dir, r, k1),
        move_ends_at(dir, r, k2),
    ensures
        k1 == k2,
{
    if k1 < k2 {
        assert(!selects_one(dir, r.nth_output(k1)));
    } else if k2 < k1 {
        assert(!selects_one(dir, r.nth_output(k2)));
    }
}

/// The first `k` of the values precomputed from `r` are the first `k`
/// values that `r` draws.
pub proof fn lemma_replay_prefix(r: RngState, n: nat, k: nat)
    requires
        k <= n,
    ensures
        first_outputs(r, n).subrange(0, k as int) == first_outputs(r, k),
{
    assert(first_outputs(r, n).subrange(0, k as int) =~= first_outputs(r, k));
}

/// A replay that has handed out `j` values and the generator that has drawn
/// `j` times hand out the same next value, and then stand at `j + 1` each:
/// `k` calls of `PrecomputedRNG::next_u32` and of `RNG::next_u32` return
/// the same values, and leave `ptr` and `num_calls` equal.
pub proof fn lemma_replay_follows_generator(r: RngState, n: nat, j: nat)
    requires
        r.wf(),
        j < n,
    ensures
        first_outputs(r, n)[j as int] == r.advanced(j).output(),
        r.advanced(j).next() == r.advanced(j + 1),
        r.advanced(j).num_calls == r.num_calls + j,
        r.advanced(j).wf(),
{
    lemma_advanced(r, j);
}

/// A replay of `n` values precomputed from a freshly seeded generator and
/// the generator itself, each called `k <= n` times, hand out the same values
/// in the same order, and then stand at `k` each (`ptr` and `num_calls`).
pub proof fn lemma_replay_matches_generator(r: RngState, n: nat, k: nat)
    requires
        r.wf(),
        r.num_calls == 0,
        k <= n,
    ensures
        forall|j: int| 0 <= j < k ==> #[trigger] first_outputs(r, n)[j] == r.advanced(j as nat).output(),
        forall|j: nat| j < k ==> #[trigger] r.advanced(j).next() == r.advanced(j + 1),
        r.advanced(k).num_calls == k,
        r.advanced(k).wf(),
{
    assert forall|j: nat| j < k implies #[trigger] r.advanced(j).next() == r.advanced(j + 1) by {
        lemma_replay_follows_generator(r, n, j);
    }
    lemma_advanced(r, k);
}

/// From equal positions, `PrecomputedRNG::action_move` and
/// `RNG::action_move` along one direction consume the same values: the
/// replay ends at position `j + k + 1` exactly when the generator ends after
/// `j + k + 1` draws.
pub proof fn lemma_moves_agree(dir: Seq<u8>, r: RngState, n: nat, j: nat, k: nat, after: RngState)
    requires
        r.wf(),
        r.num_calls == 0,
        n <= usize::MAX,
        dir.contains(49),
        replay_ends_at(dir, first_outputs(r, n), j as int, k as int),
        moved(dir, r.advanced(j), after),
    ensures
        after == r.advanced(j + k + 1),
        after.num_calls == j + k + 1,
{
    lemma_replay_moves_like_generator(dir, r, n, j, k);
    lemma_advanced(r, j);
    let start = r.advanced(j);
    if exists|k2: nat| #[trigger] move_ends_at(dir, start, k2) && start.num_calls + k2 < usize::MAX && after == start.advanced(k2 + 1) {
        let k2 = choose|k2: nat| #[trigger] move_ends_at(dir, start, k2) && start.num_calls + k2 < usize::MAX && after == start.advanced(k2 + 1);
        lemma_move_ends_once(dir, start, k, k2);
    } else {
        assert(no_one_before(dir, start, (usize::MAX - start.num_calls) as nat));
        assert(!selects_one(dir, start.nth_output(k)));
    }
    lemma_advanced_add(r, j, k + 1);
    lemma_advanced(r, j + k + 1);
}

} // verus!
