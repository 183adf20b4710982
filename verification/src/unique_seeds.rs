use vstd::prelude::*;

verus! {

use vstd::set_lib::{lemma_int_range, lemma_len_subset, lemma_map_size, set_int_range};
use crate::rng::{initial_state, iterate, SeedStep, seed_step, lcg, step_15bit, step_signed, step_plain, arith_shr16, seed_step_signed};

/// The first seeding step of `seed`, on which the whole seeded state
/// depends: what two seeds are compared by when looking for distinct seeds.
pub open spec fn unique_seed_key(seeds_15bit: bool, seeds_signed: bool, seed: u32) -> u32 {
    if seeds_15bit {
        step_15bit(seed)
    } else if seeds_signed {
        step_signed(seed)
    } else {
        step_plain(seed)
    }
}

/// How many distinct keys there are.
pub open spec fn distinct_state_count(seeds_15bit: bool) -> nat {
    if seeds_15bit {
        32768
    } else {
        65536
    }
}

/// No smaller seed has the same key as `seed`.
pub open spec fn is_first_seed(seeds_15bit: bool, seeds_signed: bool, seed: u32) -> bool {
    forall|t: u32|
        t < seed ==> unique_seed_key(seeds_15bit, seeds_signed, t) != unique_seed_key(
            seeds_15bit,
            seeds_signed,
            seed,
        )
}

/// The keys of the seeds below `n`.
pub open spec fn seen_keys(seeds_15bit: bool, seeds_signed: bool, n: int) -> Set<u32> {
    Set::new(|v: u32| exists|s: u32| s < n && #[trigger] unique_seed_key(seeds_15bit, seeds_signed, s) == v)
}

/// Computes [`unique_seed_key`].
pub fn unique_seed_key_of(seeds_15bit: bool, seeds_signed: bool, seed: u32) -> (key: u32)
    ensures
        key == unique_seed_key(seeds_15bit, seeds_signed, seed),
{
    if seeds_15bit {
        u32::wrapping_shr(u32::wrapping_add(u32::wrapping_mul(seed, 0x343fd), 0x269ec3), 16) & 0x7fff
    } else if seeds_signed {
        assert((seed as i32) as u32 == seed) by (bit_vector);
        seed_step_signed(seed as i32) as u32
    } else {
        u32::wrapping_shr(u32::wrapping_add(u32::wrapping_mul(seed, 0x343fd), 0x269ec3), 16)
    }
}

/// The `t`-th possible key.
pub open spec fn key_code(seeds_15bit: bool, seeds_signed: bool, t: u32) -> u32 {
    if !seeds_15bit && seeds_signed && t >= 0x8000 {
        0x7fff_0000 | t
    } else {
        t
    }
}

/// All possible keys.
pub open spec fn all_keys(seeds_15bit: bool, seeds_signed: bool) -> Set<u32> {
    set_int_range(0, distinct_state_count(seeds_15bit) as int).map(
        |t: int| key_code(seeds_15bit, seeds_signed, t as u32),
    )
}

/// A seed whose congruential value is `t * 2^16`: the multiplier's inverse
/// modulo 2^32 undoes the generator.
spec fn key_witness(t: u32) -> u32 {
    ((0xb9b3_3155 * ((t * 0x1_0000 + 0x1_0000_0000 - 0x26_9ec3) % 0x1_0000_0000)) % 0x1_0000_0000) as u32
}

proof fn lemma_lcg_mod(x: u32)
    ensures
        lcg(x) as int == (x * 0x343fd + 0x26_9ec3) % 0x1_0000_0000,
{
    let xx = x as u64;
    let m = (x * 0x343fd) % 0x1_0000_0000;
    assert(vstd::wrapping::u32_specs::wrapping_mul(x, 0x343fd) as int == m);
    assert((if (xx * 0x343fd) % 0x1_0000_0000 + 0x26_9ec3 > 0xffff_ffff {
        (xx * 0x343fd) % 0x1_0000_0000 + 0x26_9ec3 - 0x1_0000_0000
    } else {
        (xx * 0x343fd) % 0x1_0000_0000 + 0x26_9ec3
    }) == (xx * 0x343fd + 0x26_9ec3) % 0x1_0000_0000) by (bit_vector)
        requires xx < 0x1_0000_0000;
}

proof fn lemma_witness_inverts(t: u32)
    requires
        t < 0x1_0000,
    ensures
        lcg(key_witness(t)) == t << 16u32,
        key_witness(t) != 0xffff_ffff,
{
    let tt = t as u64;
    let w = key_witness(t);
    let ww = w as u64;
    lemma_lcg_mod(w);
    assert(ww == (0xb9b3_3155 * ((tt * 0x1_0000 + 0x1_0000_0000 - 0x26_9ec3) % 0x1_0000_0000)) % 0x1_0000_0000);
    assert((ww * 0x343fd + 0x26_9ec3) % 0x1_0000_0000 == tt * 0x1_0000 && ww != 0xffff_ffff) by (bit_vector)
        requires
            tt < 0x1_0000,
            ww == (0xb9b3_3155 * ((tt * 0x1_0000 + 0x1_0000_0000 - 0x26_9ec3) % 0x1_0000_0000)) % 0x1_0000_0000;
    assert(t << 16u32 == t * 0x1_0000) by (bit_vector)
        requires t < 0x1_0000;
}

proof fn lemma_key_of_witness(seeds_15bit: bool, seeds_signed: bool, t: u32)
    requires
        t < distinct_state_count(seeds_15bit),
    ensures
        unique_seed_key(seeds_15bit, seeds_signed, key_witness(t)) == key_code(seeds_15bit, seeds_signed, t),
{
    lemma_witness_inverts(t);
    let v = lcg(key_witness(t));
    if seeds_15bit {
        assert((v >> 16u32) & 0x7fff == t) by (bit_vector)
            requires t < 0x8000, v == t << 16u32;
    } else if seeds_signed {
        let k = key_code(seeds_15bit, seeds_signed, t);
        assert(k == if t >= 0x8000 { 0x7fff_0000 | t } else { t });
        assert((if v < 0x8000_0000 { v >> 16u32 } else { (v >> 16u32) | 0xffff_0000 }) & 0x7fff_ffff
            == if t >= 0x8000 { 0x7fff_0000 | t } else { t }) by (bit_vector)
            requires t < 0x1_0000, v == t << 16u32;
    } else {
        assert(v >> 16u32 == t) by (bit_vector)
            requires t < 0x1_0000, v == t << 16u32;
    }
}

proof fn lemma_key_code_decodes(seeds_15bit: bool, seeds_signed: bool, t: u32)
    requires
        t < 0x1_0000,
    ensures
        key_code(seeds_15bit, seeds_signed, t) & 0xffff == t,
{
    assert((0x7fff_0000u32 | t) & 0xffff == t && t & 0xffff == t) by (bit_vector)
        requires t < 0x1_0000u32;
}

proof fn lemma_key_is_coded(seeds_15bit: bool, seeds_signed: bool, s: u32)
    ensures
        ({
            let k = unique_seed_key(seeds_15bit, seeds_signed, s);
            &&& (k & 0xffff) < distinct_state_count(seeds_15bit)
            &&& key_code(seeds_15bit, seeds_signed, k & 0xffff) == k
        }),
{
    let v = lcg(s);
    let k = unique_seed_key(seeds_15bit, seeds_signed, s);
    if seeds_15bit {
        assert(((v >> 16u32) & 0x7fff) & 0xffff == (v >> 16u32) & 0x7fff
            && (v >> 16u32) & 0x7fff < 0x8000) by (bit_vector);
    } else if seeds_signed {
        let a = arith_shr16(v);
        assert(a == if v < 0x8000_0000 { v >> 16u32 } else { (v >> 16u32) | 0xffff_0000 });
        assert(({
            let k = a & 0x7fff_ffff;
            let t = k & 0xffff;
            (if t >= 0x8000 { 0x7fff_0000 | t } else { t }) == k
        })) by (bit_vector)
            requires a == if v < 0x8000_0000 { v >> 16u32 } else { (v >> 16u32) | 0xffff_0000 };
        assert(k == a & 0x7fff_ffff);
        assert((k & 0xffff) < 0x1_0000) by (bit_vector);
        assert(key_code(seeds_15bit, seeds_signed, k & 0xffff) == k);
    } else {
        assert((v >> 16u32) & 0xffff == v >> 16u32 && v >> 16u32 < 0x1_0000) by (bit_vector);
    }
}

/// There are exactly as many possible keys as the mode's count.
pub proof fn lemma_all_keys_len(seeds_15bit: bool, seeds_signed: bool)
    ensures
        all_keys(seeds_15bit, seeds_signed).finite(),
        all_keys(seeds_15bit, seeds_signed).len() == distinct_state_count(seeds_15bit),
{
    let n = distinct_state_count(seeds_15bit) as int;
    let f = |t: int| key_code(seeds_15bit, seeds_signed, t as u32);
    lemma_int_range(0, n);
    assert forall|a1: int, a2: int|
        set_int_range(0, n).contains(a1) && set_int_range(0, n).contains(a2) && #[trigger] f(a1) == #[trigger] f(a2)
        implies a1 == a2 by {
        lemma_key_code_decodes(seeds_15bit, seeds_signed, a1 as u32);
        lemma_key_code_decodes(seeds_15bit, seeds_signed, a2 as u32);
    }
    lemma_map_size(set_int_range(0, n), all_keys(seeds_15bit, seeds_signed), f);
}

/// Every key of a seed is one of the possible keys.
pub proof fn lemma_seen_within_all(seeds_15bit: bool, seeds_signed: bool, n: int)
    ensures
        seen_keys(seeds_15bit, seeds_signed, n).subset_of(all_keys(seeds_15bit, seeds_signed)),
{
    let range = set_int_range(0, distinct_state_count(seeds_15bit) as int);
    let f = |t: int| key_code(seeds_15bit, seeds_signed, t as u32);
    assert forall|v: u32| seen_keys(seeds_15bit, seeds_signed, n).contains(v) implies all_keys(
        seeds_15bit,
        seeds_signed,
    ).contains(v) by {
        let s = choose|s: u32| s < n && #[trigger] unique_seed_key(seeds_15bit, seeds_signed, s) == v;
        lemma_key_is_coded(seeds_15bit, seeds_signed, s);
        let t = (v & 0xffff) as int;
        assert(range.contains(t) && f(t) == v);
    }
}

/// While some key has not been seen, a seed that gives it lies ahead, so the
/// search has not reached the last seed.
pub proof fn lemma_search_not_exhausted(seeds_15bit: bool, seeds_signed: bool, n: int)
    requires
        0 <= n,
        seen_keys(seeds_15bit, seeds_signed, n).finite(),
        seen_keys(seeds_15bit, seeds_signed, n).len() < distinct_state_count(seeds_15bit),
    ensures
        n < 0xffff_ffff,
{
    let all = all_keys(seeds_15bit, seeds_signed);
    let seen = seen_keys(seeds_15bit, seeds_signed, n);
    lemma_all_keys_len(seeds_15bit, seeds_signed);
    if all.subset_of(seen) {
        lemma_len_subset(all, seen);
        assert(false);
    }
    let v = choose|v: u32| all.contains(v) && !seen.contains(v);
    let t = choose|t: int|
        set_int_range(0, distinct_state_count(seeds_15bit) as int).contains(t) && key_code(
            seeds_15bit,
            seeds_signed,
            t as u32,
        ) == v;
    let w = key_witness(t as u32);
    lemma_key_of_witness(seeds_15bit, seeds_signed, t as u32);
    lemma_witness_inverts(t as u32);
    if w < n {
        assert(seen.contains(v));
    }
}

proof fn lemma_iterate_shift(kind: SeedStep, x: u32, n: nat)
    ensures
        iterate(kind, x, n + 1) == iterate(kind, seed_step(kind, x), n),
    decreases n,
{
    assert(iterate(kind, x, n + 1) == seed_step(kind, iterate(kind, x, n)));
    if n > 0 {
        lemma_iterate_shift(kind, x, (n - 1) as nat);
        assert(iterate(kind, seed_step(kind, x), n) == seed_step(kind, iterate(kind, seed_step(kind, x), (n - 1) as nat)));
    } else {
        assert(iterate(kind, x, 0) == x);
        assert(iterate(kind, seed_step(kind, x), 0) == seed_step(kind, x));
    }
}

/// In the default mode the first state word is the key, coded.
proof fn lemma_plain_first_word(seed: u32)
    ensures
        step_signed(seed) == key_code(false, true, step_plain(seed)),
{
    let v = lcg(seed);
    assert((if v < 0x8000_0000 { v >> 16u32 } else { (v >> 16u32) | 0xffff_0000 }) & 0x7fff_ffff == ({
        let t = v >> 16u32;
        if t >= 0x8000 { 0x7fff_0000 | t } else { t }
    })) by (bit_vector);
}

proof fn lemma_key_decides_state_iterated(kind: SeedStep, seeds_15bit: bool, seeds_signed: bool, s1: u32, s2: u32)
    requires
        seeds_15bit || seeds_signed,
        kind == (if seeds_15bit { SeedStep::Bits15 } else { SeedStep::Signed }),
    ensures
        (initial_state(s1, seeds_15bit, seeds_signed) == initial_state(s2, seeds_15bit, seeds_signed))
            == (unique_seed_key(seeds_15bit, seeds_signed, s1) == unique_seed_key(seeds_15bit, seeds_signed, s2)),
{
    let a = initial_state(s1, seeds_15bit, seeds_signed);
    let b = initial_state(s2, seeds_15bit, seeds_signed);
    let k1 = unique_seed_key(seeds_15bit, seeds_signed, s1);
    let k2 = unique_seed_key(seeds_15bit, seeds_signed, s2);
    assert(a[0] == iterate(kind, s1, 1));
    assert(iterate(kind, s1, 1) == seed_step(kind, iterate(kind, s1, 0)));
    assert(iterate(kind, s2, 1) == seed_step(kind, iterate(kind, s2, 0)));
    assert(a[0] == k1 && b[0] == k2);
    if k1 == k2 {
        assert forall|i: int| 0 <= i < 16 implies a[i] == b[i] by {
            lemma_iterate_shift(kind, s1, i as nat);
            lemma_iterate_shift(kind, s2, i as nat);
        }
        assert(a =~= b);
    }
}

proof fn lemma_key_decides_state_plain(s1: u32, s2: u32)
    ensures
        (initial_state(s1, false, false) == initial_state(s2, false, false))
            == (unique_seed_key(false, false, s1) == unique_seed_key(false, false, s2)),
{
    let a = initial_state(s1, false, false);
    let b = initial_state(s2, false, false);
    let k1 = unique_seed_key(false, false, s1);
    let k2 = unique_seed_key(false, false, s2);
    lemma_plain_first_word(s1);
    lemma_plain_first_word(s2);
    lemma_key_is_coded(false, false, s1);
    lemma_key_is_coded(false, false, s2);
    lemma_key_code_decodes(false, true, k1);
    lemma_key_code_decodes(false, true, k2);
    assert(a[0] == iterate(SeedStep::Plain, step_signed(s1), 0));
    assert(b[0] == iterate(SeedStep::Plain, step_signed(s2), 0));
    if k1 == k2 {
        assert(a =~= b);
    }
}

/// Two seeds give the same seeded state exactly when they have the same key:
/// the key is what seeds are told apart by.
pub proof fn lemma_key_decides_state(seeds_15bit: bool, seeds_signed: bool, s1: u32, s2: u32)
    ensures
        (initial_state(s1, seeds_15bit, seeds_signed) == initial_state(s2, seeds_15bit, seeds_signed))
            == (unique_seed_key(seeds_15bit, seeds_signed, s1) == unique_seed_key(seeds_15bit, seeds_signed, s2)),
{
    if seeds_15bit {
        lemma_key_decides_state_iterated(SeedStep::Bits15, seeds_15bit, seeds_signed, s1, s2);
    } else if seeds_signed {
        lemma_key_decides_state_iterated(SeedStep::Signed, seeds_15bit, seeds_signed, s1, s2);
    } else {
        lemma_key_decides_state_plain(s1, s2);
    }
}

/// The seeds that `calculate_unique_seeds` lists give pairwise different
/// seeded states, and every seed gives the state of one of them.
pub proof fn lemma_unique_seeds_cover(seeds_15bit: bool, seeds_signed: bool, seeds: Seq<u32>, s: u32)
    requires
        seeds.len() == distinct_state_count(seeds_15bit),
        forall|i: int| 0 <= i < seeds.len() ==> is_first_seed(seeds_15bit, seeds_signed, #[trigger] seeds[i]),
        forall|i: int, j: int| 0 <= i < j < seeds.len() ==> seeds[i] < seeds[j],
    ensures
        forall|i: int, j: int|
            0 <= i < j < seeds.len() ==> initial_state(#[trigger] seeds[i], seeds_15bit, seeds_signed)
                != initial_state(#[trigger] seeds[j], seeds_15bit, seeds_signed),
        exists|i: int|
            0 <= i < seeds.len() && initial_state(#[trigger] seeds[i], seeds_15bit, seeds_signed)
                == initial_state(s, seeds_15bit, seeds_signed),
{
    assert forall|i: int, j: int|
        0 <= i < j < seeds.len() implies initial_state(#[trigger] seeds[i], seeds_15bit, seeds_signed)
            != initial_state(#[trigger] seeds[j], seeds_15bit, seeds_signed) by {
        lemma_key_decides_state(seeds_15bit, seeds_signed, seeds[i], seeds[j]);
        assert(is_first_seed(seeds_15bit, seeds_signed, seeds[j]));
    }
    // The keys of the listed seeds are pairwise different and possible keys,
    // and there are as many of them as possible keys: they are all of them.
    let f = |i: int| unique_seed_key(seeds_15bit, seeds_signed, seeds[i]);
    let idx = set_int_range(0, seeds.len() as int);
    let keys = idx.map(f);
    lemma_int_range(0, seeds.len() as int);
    assert forall|i1: int, i2: int| idx.contains(i1) && idx.contains(i2) && #[trigger] f(i1) == #[trigger] f(i2)
        implies i1 == i2 by {
        if i1 < i2 {
            assert(is_first_seed(seeds_15bit, seeds_signed, seeds[i2]));
        } else if i2 < i1 {
            assert(is_first_seed(seeds_15bit, seeds_signed, seeds[i1]));
        }
    }
    lemma_map_size(idx, keys, f);
    let all = all_keys(seeds_15bit, seeds_signed);
    lemma_all_keys_len(seeds_15bit, seeds_signed);
    assert forall|v: u32| keys.contains(v) implies all.contains(v) by {
        let i = choose|i: int| idx.contains(i) && f(i) == v;
        lemma_seen_within_all(seeds_15bit, seeds_signed, seeds[i] as int + 1);
        assert(seen_keys(seeds_15bit, seeds_signed, seeds[i] as int + 1).contains(v));
    }
    let k = unique_seed_key(seeds_15bit, seeds_signed, s);
    lemma_seen_within_all(seeds_15bit, seeds_signed, s as int + 1);
    assert(seen_keys(seeds_15bit, seeds_signed, s as int + 1).contains(k));
    if !keys.contains(k) {
        lemma_len_subset(keys, all.remove(k));
        assert(false);
    }
    let i = choose|i: int| idx.contains(i) && f(i) == k;
    lemma_key_decides_state(seeds_15bit, seeds_signed, seeds[i], s);
}

} // verus!
