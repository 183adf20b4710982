use vstd::prelude::*;

verus! {

use crate::rng::{RNG, RngState, lemma_advanced, lemma_advanced_add};
use itertools::Itertools;

/// A sequence of `k` positions below `n`, in nondecreasing order: a choice of
/// `k` items out of `n`, repetitions allowed.
pub open spec fn is_choice(s: Seq<usize>, n: nat, k: nat) -> bool {
    &&& s.len() == k
    &&& forall|i: int| 0 <= i < k ==> #[trigger] s[i] < n
    &&& forall|i: int, j: int| 0 <= i < j < k ==> s[i] <= s[j]
}

/// `a` comes before `b` in lexicographic order.
pub open spec fn lex_less(a: Seq<usize>, b: Seq<usize>) -> bool {
    exists|i: int|
        0 <= i < a.len() && i < b.len() && a[i] < b[i] && a.subrange(0, i) == b.subrange(0, i)
}

/// Every choice of `k` items out of `n` with repetitions, each once, in
/// lexicographic order.
pub open spec fn all_choices_in_order(r: Seq<Seq<usize>>, n: nat, k: nat) -> bool {
    &&& forall|i: int| 0 <= i < r.len() ==> is_choice(#[trigger] r[i], n, k)
    &&& forall|i: int, j: int| 0 <= i < j < r.len() ==> lex_less(#[trigger] r[i], #[trigger] r[j])
    &&& forall|s: Seq<usize>| #[trigger] is_choice(s, n, k) ==> r.contains(s)
}

/// The view of each vector of a vector of vectors.
pub open spec fn inner_views(v: Seq<Vec<usize>>) -> Seq<Seq<usize>> {
    Seq::new(v.len(), |i: int| v[i]@)
}

/// `itertools::Itertools::combinations_with_replacement` on the positions
/// `0..n`, collected: every choice of `k` positions out of `n`, repetitions
/// allowed, as nondecreasing sequences in lexicographic order. The crate
/// builds them by starting from all zeros and repeatedly raising the
/// rightmost position that can still grow, setting every later position to
/// its new value.
#[verifier::external_body]
fn choices_with_replacement(n: usize, k: usize) -> (r: Vec<Vec<usize>>)
    ensures
        all_choices_in_order(inner_views(r@), n as nat, k as nat),
{
    (0..n).combinations_with_replacement(k).collect()
}

/// The number of draws that a choice of textbox delays costs.
pub open spec fn delay_calls(calls: Seq<usize>, choice: Seq<usize>) -> nat
    decreases choice.len(),
{
    if choice.len() == 0 {
        0
    } else {
        delay_calls(calls, choice.drop_last()) + calls[choice.last() as int] as nat
    }
}

/// The draws of a choice add up over its textboxes: delaying on one more
/// textbox costs that textbox's draws on top, a choice of one textbox costs
/// its draws, and two choices made one after the other cost the sum of
/// their draws.
pub proof fn lemma_delay_calls_add_up(calls: Seq<usize>, a: Seq<usize>, b: Seq<usize>, x: usize)
    ensures
        delay_calls(calls, Seq::empty()) == 0,
        delay_calls(calls, a.push(x)) == delay_calls(calls, a) + calls[x as int],
        delay_calls(calls, seq![x]) == calls[x as int],
        delay_calls(calls, a + b) == delay_calls(calls, a) + delay_calls(calls, b),
    decreases b.len(),
{
    assert(a.push(x).drop_last() =~= a);
    assert(seq![x].drop_last() =~= Seq::<usize>::empty());
    assert(seq![x].last() == x);
    assert(delay_calls(calls, seq![x].drop_last()) == 0);
    if b.len() > 0 {
        lemma_delay_calls_add_up(calls, a, b.drop_last(), x);
        assert((a + b).drop_last() =~= a + b.drop_last());
        assert((a + b).last() == b.last());
    } else {
        assert(a + b =~= a);
    }
}

/// The most draws that any one textbox delay costs.
pub open spec fn max_calls(calls: Seq<usize>) -> nat
    decreases calls.len(),
{
    if calls.len() == 0 {
        0
    } else {
        let m = max_calls(calls.drop_last());
        if calls.last() > m {
            calls.last() as nat
        } else {
            m
        }
    }
}

proof fn lemma_max_calls(calls: Seq<usize>, i: int)
    requires
        0 <= i < calls.len(),
    ensures
        calls[i] <= max_calls(calls),
    decreases calls.len(),
{
    if i < calls.len() - 1 {
        lemma_max_calls(calls.drop_last(), i);
    }
}

proof fn lemma_delay_calls_bound(calls: Seq<usize>, choice: Seq<usize>)
    requires
        forall|i: int| 0 <= i < choice.len() ==> #[trigger] choice[i] < calls.len(),
    ensures
        delay_calls(calls, choice) <= choice.len() * max_calls(calls),
    decreases choice.len(),
{
    if choice.len() > 0 {
        lemma_delay_calls_bound(calls, choice.drop_last());
        lemma_max_calls(calls, choice.last() as int);
        assert(choice.len() * max_calls(calls) == (choice.len() - 1) * max_calls(calls) + max_calls(calls)) by (nonlinear_arith);
    }
}

/// The children of a textbox layer at `delays` delays: for every choice of
/// `delays` textboxes to delay on (`calls[t]` draws each, repetitions
/// allowed), in lexicographic order, the choice and the generator after its
/// draws.
pub fn textbox_delay_children(calls: &[usize], rng: &RNG, delays: usize) -> (children: Vec<(Vec<usize>, RNG)>)
    requires
        rng.wf(),
        rng@.num_calls + delays * max_calls(calls@) <= usize::MAX,
    ensures
        all_choices_in_order(Seq::new(children@.len(), |i: int| children@[i].0@), calls@.len(), delays as nat),
        forall|i: int|
            0 <= i < children@.len() ==> (#[trigger] children@[i]).1.wf() && children@[i].1@ == rng@.advanced(
                delay_calls(calls@, children@[i].0@),
            ),
{
    let choices = choices_with_replacement(calls.len(), delays);
    let ghost chosen = inner_views(choices@);
    let mut children: Vec<(Vec<usize>, RNG)> = Vec::new();
    let mut i: usize = 0;
    while i < choices.len()
        invariant
            i <= choices@.len(),
            chosen == inner_views(choices@),
            all_choices_in_order(chosen, calls@.len(), delays as nat),
            rng.wf(),
            rng@.num_calls + delays * max_calls(calls@) <= usize::MAX,
            children@.len() == i,
            forall|j: int| 0 <= j < i ==> (#[trigger] children@[j]).0@ == chosen[j],
            forall|j: int|
                0 <= j < i ==> (#[trigger] children@[j]).1.wf() && children@[j].1@ == rng@.advanced(
                    delay_calls(calls@, children@[j].0@),
                ),
        decreases choices@.len() - i,
    {
        let choice = &choices[i];
        assert(choice@ == chosen[i as int]);
        assert(is_choice(chosen[i as int], calls@.len(), delays as nat));
        let mut child = *rng;
        let mut t: usize = 0;
        let ghost mut spent: nat = 0;
        while t < choice.len()
            invariant
                t <= choice@.len(),
                is_choice(choice@, calls@.len(), delays as nat),
                rng.wf(),
                rng@.num_calls + delays * max_calls(calls@) <= usize::MAX,
                child.wf(),
                child@ == rng@.advanced(delay_calls(calls@, choice@.subrange(0, t as int))),
            decreases choice@.len() - t,
        {
            proof {
                let prefix = choice@.subrange(0, t as int + 1);
                assert(prefix.drop_last() =~= choice@.subrange(0, t as int));
                lemma_delay_calls_bound(calls@, choice@);
                lemma_delay_calls_bound(calls@, prefix);
                assert(prefix.len() * max_calls(calls@) <= choice@.len() * max_calls(calls@)) by (nonlinear_arith)
                    requires prefix.len() <= choice@.len();
                lemma_advanced(rng@, delay_calls(calls@, choice@.subrange(0, t as int)));
                lemma_advanced_add(rng@, delay_calls(calls@, choice@.subrange(0, t as int)), calls@[choice@[t as int] as int] as nat);
            }
            child.advance(calls[choice[t]]);
            t += 1;
        }
        assert(choice@.subrange(0, choice@.len() as int) =~= choice@);
        children.push((choice.clone(), child));
        i += 1;
    }
    assert(Seq::new(children@.len(), |i: int| children@[i].0@) =~= chosen);
    children
}

/// The two children of an encounter-skip room, from the generator after the
/// step count was drawn. With at least `min_good` steps the room costs
/// nothing, and one may also take `step_count - (min_good - 1)` extra steps
/// to draw the encounter check three draws later; with fewer, the encounter
/// check is drawn and `min_good - 1 - step_count` frames are lost, or one
/// more frame buffers past it without drawing.
pub struct EncounterSkip {
    pub room: RNG,
    pub frames_lost: u32,
    pub alternative: RNG,
    pub alternative_cost: u32,
}

/// Three draws after `r`.
pub open spec fn after_encounter_check(r: RngState) -> RngState {
    r.advanced(3)
}

/// Computes the children of an encounter-skip room. The frames lost are
/// counted modulo 2^32, like the costs of every layer; the one count that
/// leaves no room for the extra buffered frame is left out.
pub fn encounterskip_children(rng: &RNG, step_count: usize, min_good: usize) -> (e: EncounterSkip)
    requires
        rng.wf(),
        rng@.num_calls + 3 <= usize::MAX,
        1 <= min_good,
        step_count < min_good ==> ((min_good - 1 - step_count) as u32) < u32::MAX,
    ensures
        e.room.wf(),
        e.alternative.wf(),
        e.frames_lost <= e.alternative_cost,
        step_count >= min_good ==> {
            &&& e.room@ == rng@
            &&& e.frames_lost == 0
            &&& e.alternative@ == after_encounter_check(rng@)
            &&& e.alternative_cost == (step_count - (min_good - 1)) as u32
        },
        step_count < min_good ==> {
            &&& e.room@ == after_encounter_check(rng@)
            &&& e.frames_lost == (min_good - 1 - step_count) as u32
            &&& e.alternative@ == rng@
            &&& e.alternative_cost == e.frames_lost + 1
        },
{
    let rng_prebl = *rng;
    let mut room = *rng;
    let frames_lost: usize = if step_count >= min_good {
        0
    } else {
        room.next_u32();
        room.next_u32();
        room.next_u32();
        min_good - 1 - step_count
    };
    proof {
        reveal_with_fuel(RngState::advanced, 4);
    }
    let lost: u32 = #[verifier::truncate] (frames_lost as u32);
    if step_count >= min_good {
        let mut alternative = room;
        alternative.next_u32();
        alternative.next_u32();
        alternative.next_u32();
        let frames_to_delay = step_count - (min_good - 1);
        EncounterSkip {
            room,
            frames_lost: lost,
            alternative,
            alternative_cost: #[verifier::truncate] (frames_to_delay as u32),
        }
    } else {
        EncounterSkip { room, frames_lost: lost, alternative: rng_prebl, alternative_cost: lost + 1 }
    }
}

/// The draws as the naming screen opens.
pub const NAMING_SCREEN_OPENING: usize = 751;

/// The draws that each frame of delay on the naming screen costs.
pub const NAMING_SCREEN_FRAME: u32 = 104;

/// The generator after waiting `delay` frames on the naming screen, from
/// the generator before the naming screen opens: 751 draws as it opens,
/// then 104 draws a frame.
pub fn naming_screen_child(rng: &RNG, delay: u32) -> (child: RNG)
    requires
        rng.wf(),
        104 * delay <= u32::MAX,
        rng@.num_calls + 751 + 104 * delay <= usize::MAX,
    ensures
        child.wf(),
        child@ == rng@.advanced((751 + 104 * delay) as nat),
{
    let mut child = *rng;
    child.advance(NAMING_SCREEN_OPENING);
    proof {
        lemma_advanced(rng@, 751);
        lemma_advanced_add(rng@, 751, (104 * delay) as nat);
    }
    child.advance((NAMING_SCREEN_FRAME * delay) as usize);
    child
}

/// The children of a layer where each choice costs nothing and is a number
/// of draws: the generator after each number of draws, in order.
pub fn zero_frame_children(rng: &RNG, calls: &[usize]) -> (children: Vec<RNG>)
    requires
        rng.wf(),
        forall|i: int| 0 <= i < calls@.len() ==> rng@.num_calls + #[trigger] calls@[i] <= usize::MAX,
    ensures
        children@.len() == calls@.len(),
        forall|i: int|
            0 <= i < calls@.len() ==> (#[trigger] children@[i]).wf() && children@[i]@ == rng@.advanced(
                calls@[i] as nat,
            ),
{
    let mut children: Vec<RNG> = Vec::new();
    let mut i: usize = 0;
    while i < calls.len()
        invariant
            i <= calls@.len(),
            rng.wf(),
            forall|j: int| 0 <= j < calls@.len() ==> rng@.num_calls + #[trigger] calls@[j] <= usize::MAX,
            children@.len() == i,
            forall|j: int|
                0 <= j < i ==> (#[trigger] children@[j]).wf() && children@[j]@ == rng@.advanced(calls@[j] as nat),
        decreases calls@.len() - i,
    {
        let mut child = *rng;
        child.advance(calls[i]);
        children.push(child);
        i += 1;
    }
    children
}

/// The children of the naming-screen layer, one at a time: a delay of 0, 1,
/// and so on up to the budget, each costing its number of frames.
pub struct NamingScreenWalk {
    opened: RNG,
    budget: u32,
    next: u64,
}

/// Abstract form of a [`NamingScreenWalk`]: the generator once the screen
/// has opened, the budget, and the next delay.
pub struct NamingScreenView {
    pub opened: RngState,
    pub budget: u32,
    pub next: nat,
}

impl View for NamingScreenWalk {
    type V = NamingScreenView;

    closed spec fn view(&self) -> NamingScreenView {
        NamingScreenView { opened: self.opened@, budget: self.budget, next: self.next as nat }
    }
}

impl NamingScreenWalk {
    pub closed spec fn wf(&self) -> bool {
        &&& self.opened.wf()
        &&& self.next <= self.budget as u64 + 1
    }

    /// Opens the naming screen from the generator before it.
    pub fn new(rng: &RNG, budget: u32) -> (w: Self)
        requires
            rng.wf(),
            rng@.num_calls + 751 <= usize::MAX,
        ensures
            w.wf(),
            w@.opened == rng@.advanced(751),
            w@.budget == budget,
            w@.next == 0,
    {
        let mut opened = *rng;
        opened.advance(NAMING_SCREEN_OPENING);
        NamingScreenWalk { opened, budget, next: 0 }
    }

    /// The next delay.
    pub fn next_delay(&self) -> (d: u64)
        ensures
            d == self@.next,
    {
        self.next
    }

    /// The generator once the screen has opened.
    pub fn opened(&self) -> (r: RNG)
        ensures
            r@ == self@.opened,
    {
        self.opened
    }

    /// The next delay, its cost and the generator after it; `None` past the
    /// budget. Delays, and so costs, come in increasing order.
    pub fn next_child(&mut self) -> (r: Option<(RNG, u32)>)
        requires
            old(self).wf(),
            old(self)@.next <= old(self)@.budget ==> 104 * old(self)@.next <= u32::MAX
                && old(self)@.opened.num_calls + 104 * old(self)@.next <= usize::MAX,
        ensures
            final(self).wf(),
            final(self)@.opened == old(self)@.opened,
            final(self)@.budget == old(self)@.budget,
            old(self)@.next > old(self)@.budget ==> r is None && final(self)@ == old(self)@,
            old(self)@.next <= old(self)@.budget ==> {
                &&& final(self)@.next == old(self)@.next + 1
                &&& r matches Some((child, cost)) && cost == old(self)@.next && child.wf()
                    && child@ == old(self)@.opened.advanced(104 * old(self)@.next)
            },
    {
        if self.next > self.budget as u64 {
            return None;
        }
        let delay = self.next as u32;
        let mut child = self.opened;
        child.advance((NAMING_SCREEN_FRAME * delay) as usize);
        self.next = self.next + 1;
        Some((child, delay))
    }
}

/// The children that a textbox walk holds for one number of delays: every
/// choice in lexicographic order, each with the generator after its draws.
pub open spec fn delay_children_of(
    calls: Seq<usize>,
    opened: RngState,
    delays: nat,
    children: Seq<(Seq<usize>, RngState)>,
) -> bool {
    &&& all_choices_in_order(Seq::new(children.len(), |i: int| children[i].0), calls.len(), delays)
    &&& forall|i: int| 0 <= i < children.len() ==> (#[trigger] children[i]).1 == opened.advanced(
        delay_calls(calls, children[i].0),
    )
}

/// The children of a textbox layer, one at a time: every choice of no
/// delays, then every choice of one delay, and so on, each in lexicographic
/// order and costing its number of delays.
pub struct TextboxWalk {
    calls: Vec<usize>,
    opened: RNG,
    delays: usize,
    children: Vec<(Vec<usize>, RNG)>,
    next: usize,
}

/// Abstract form of a [`TextboxWalk`]: the draws each textbox's delay
/// costs, the generator once the dialogue has opened, the number of delays
/// being walked, its children and the next one.
pub struct TextboxView {
    pub calls: Seq<usize>,
    pub opened: RngState,
    pub delays: nat,
    pub children: Seq<(Seq<usize>, RngState)>,
    pub next: nat,
}

impl View for TextboxWalk {
    type V = TextboxView;

    closed spec fn view(&self) -> TextboxView {
        TextboxView {
            calls: self.calls@,
            opened: self.opened@,
            delays: self.delays as nat,
            children: Seq::new(self.children@.len(), |i: int| (self.children@[i].0@, self.children@[i].1@)),
            next: self.next as nat,
        }
    }
}

impl TextboxWalk {
    pub closed spec fn wf(&self) -> bool {
        &&& self.opened.wf()
        &&& self.next <= self.children@.len()
        &&& forall|i: int| 0 <= i < self.children@.len() ==> (#[trigger] self.children@[i]).1.wf()
        &&& delay_children_of(self@.calls, self@.opened, self@.delays, self@.children)
    }

    /// Opens a dialogue of `base` draws whose textboxes cost `calls` draws
    /// each to delay on.
    pub fn new(calls: Vec<usize>, rng: &RNG, base: u32) -> (w: Self)
        requires
            rng.wf(),
            rng@.num_calls + base <= usize::MAX,
        ensures
            w.wf(),
            w@.calls == calls@,
            w@.opened == rng@.advanced(base as nat),
            w@.delays == 0,
            w@.next == 0,
            delay_children_of(w@.calls, w@.opened, w@.delays, w@.children),
    {
        let mut opened = *rng;
        opened.advance(base as usize);
        proof {
            lemma_advanced(rng@, base as nat);
        }
        let children = textbox_delay_children(calls.as_slice(), &opened, 0);
        let w = TextboxWalk { calls, opened, delays: 0, children, next: 0 };
        proof {
            assert(Seq::new(w@.children.len(), |i: int| w@.children[i].0) =~= Seq::new(
                children@.len(),
                |i: int| children@[i].0@,
            ));
        }
        w
    }

    /// The number of delays being walked.
    pub fn delays(&self) -> (d: usize)
        ensures
            d == self@.delays,
    {
        self.delays
    }

    /// Whether the choices of the current number of delays are used up, so
    /// that the next child opens the next number.
    pub fn exhausted(&self) -> (e: bool)
        ensures
            e == (self@.next == self@.children.len()),
    {
        self.next == self.children.len()
    }

    /// The most draws that one delay costs.
    pub fn max_calls(&self) -> (m: usize)
        ensures
            m == max_calls(self@.calls),
    {
        let mut m: usize = 0;
        let mut i: usize = 0;
        while i < self.calls.len()
            invariant
                i <= self.calls@.len(),
                m == max_calls(self.calls@.subrange(0, i as int)),
            decreases self.calls@.len() - i,
        {
            assert(self.calls@.subrange(0, i + 1).drop_last() =~= self.calls@.subrange(0, i as int));
            if self.calls[i] > m {
                m = self.calls[i];
            }
            i += 1;
        }
        assert(self.calls@.subrange(0, i as int) =~= self.calls@);
        m
    }

    /// The generator once the dialogue has opened.
    pub fn opened(&self) -> (r: RNG)
        ensures
            r@ == self@.opened,
    {
        self.opened
    }

    /// The next child: its choice of delays, the generator after them and
    /// its cost, the number of delays. Costs never decrease.
    pub fn next_child(&mut self) -> (r: (Vec<usize>, RNG, u32))
        requires
            old(self).wf(),
            old(self)@.next == old(self)@.children.len() ==> old(self)@.calls.len() > 0
                && old(self)@.delays < usize::MAX
                && old(self)@.opened.num_calls + (old(self)@.delays + 1) * max_calls(old(self)@.calls)
                <= usize::MAX,
        ensures
            final(self).wf(),
            final(self)@.calls == old(self)@.calls,
            final(self)@.opened == old(self)@.opened,
            final(self)@.delays >= old(self)@.delays,
            r.2 == final(self)@.delays as u32,
            r.1.wf(),
            0 < final(self)@.next <= final(self)@.children.len(),
            delay_children_of(
                final(self)@.calls,
                final(self)@.opened,
                final(self)@.delays,
                final(self)@.children,
            ),
            (r.0@, r.1@) == final(self)@.children[final(self)@.next - 1],
            old(self)@.next < old(self)@.children.len() ==> {
                &&& final(self)@.delays == old(self)@.delays
                &&& final(self)@.children == old(self)@.children
                &&& final(self)@.next == old(self)@.next + 1
            },
            old(self)@.next == old(self)@.children.len() ==> {
                &&& final(self)@.delays == old(self)@.delays + 1
                &&& final(self)@.next == 1
            },
    {
        if self.next == self.children.len() {
            self.delays = self.delays + 1;
            let children = textbox_delay_children(self.calls.as_slice(), &self.opened, self.delays);
            proof {
                // with at least one textbox there is a choice of every size
                let first = Seq::new(self.delays as nat, |i: int| 0usize);
                assert(is_choice(first, self.calls@.len(), self.delays as nat));
                assert(Seq::new(children@.len(), |i: int| children@[i].0@).contains(first));
            }
            self.children = children;
            self.next = 0;
            proof {
                assert(Seq::new(self@.children.len(), |i: int| self@.children[i].0) =~= Seq::new(
                    children@.len(),
                    |i: int| children@[i].0@,
                ));
            }
        }
        let i = self.next;
        let choice = self.children[i].0.clone();
        let child = self.children[i].1;
        self.next = i + 1;
        let cost: u32 = #[verifier::truncate] (self.delays as u32);
        (choice, child, cost)
    }
}

} // verus!
