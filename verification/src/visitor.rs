use vstd::prelude::*;

verus! {

use crate::layer::LayerResult;
use crate::node_heap::{
    CustomDataView, HeapOp, NodeHandle, NodeHeap, NodeView, ValidCustomData, apply_op, identity_of, has_identity,
    fresh_node,
};
use crate::rng::RngState;
use vstd::string::StringSliceAdditionalSpecFns;
use vstd::wrapping::u32_specs;

/// What the driver of a search does next.
pub enum Action {
    /// Open the children of `node` through the layer at `depth`, offering
    /// no more than `budget` in cost.
    Expand { depth: usize, node: NodeHandle, budget: u32 },
    /// Hand over the next child of the layer at `depth`, or report that it
    /// has none left.
    NextChild { depth: usize },
    /// The search is over.
    Done,
}

/// A node past the last layer that the search reports: its cost, the path
/// that reached it, and how many branches had been tested before it.
pub struct FinalNode {
    pub cost: u32,
    pub path: Vec<String>,
    pub branches_tested: u32,
}

/// What one step of the search gives the driver: a final node to report, if
/// any, and the next action.
pub struct Step {
    pub report: Option<FinalNode>,
    pub action: Action,
}

/// A node whose layer's children are being walked through.
struct Frame {
    node: NodeHandle,
    cost: u32,
    path: Vec<String>,
}

/// Abstract form of a frame.
pub struct FrameView {
    pub node: int,
    pub cost: u32,
    pub path: Seq<Seq<char>>,
}

/// Abstract form of a search.
pub struct SearchView {
    pub layer_count: nat,
    pub best_final_node_cost: u32,
    pub doctor_strange_counter: u32,
    pub frames: Seq<FrameView>,
}

/// A depth-first search through the layers: the node at depth `d` is opened
/// by layer `d`, and a node at depth `layer_count` is final. The driver owns
/// the layers and the node heap; the search decides which children to
/// follow, which to skip and when to stop a layer.
pub struct Visitor {
    layer_count: usize,
    best_final_node_cost: u32,
    doctor_strange_counter: u32,
    frames: Vec<Frame>,
}

impl View for Visitor {
    type V = SearchView;

    closed spec fn view(&self) -> SearchView {
        SearchView {
            layer_count: self.layer_count as nat,
            best_final_node_cost: self.best_final_node_cost,
            doctor_strange_counter: self.doctor_strange_counter,
            frames: Seq::new(
                self.frames@.len(),
                |i: int|
                    FrameView {
                        node: self.frames@[i].node@,
                        cost: self.frames@[i].cost,
                        path: self.frames@[i].path.deep_view(),
                    },
            ),
        }
    }
}

/// A final node of this cost is reported.
pub open spec fn reports_final(best: u32, cost: u32) -> bool {
    cost < best || cost == 0 || cost == 1
}

/// A child of this total cost ends its layer instead of being followed.
pub open spec fn ends_layer(best: u32, cost: u32) -> bool {
    cost > best && cost > 1
}

/// A child that was visited before at no higher cost is skipped.
pub open spec fn skips_child(child: NodeView, cost: u32) -> bool {
    child.visited && child.best_cost <= cost
}

/// The action that continues the walk through the deepest open layer, or
/// ends the search when none is open.
pub open spec fn resume(frames: Seq<FrameView>) -> ActionView {
    if frames.len() == 0 {
        ActionView::Done
    } else {
        ActionView::NextChild { depth: frames.len() - 1 }
    }
}

/// Abstract form of an [`Action`].
pub enum ActionView {
    Expand { depth: int, node: int, budget: u32 },
    NextChild { depth: int },
    Done,
}

impl Action {
    pub open spec fn view(&self) -> ActionView {
        match self {
            Action::Expand { depth, node, budget } => ActionView::Expand { depth: *depth as int, node: node@, budget: *budget },
            Action::NextChild { depth } => ActionView::NextChild { depth: *depth as int },
            Action::Done => ActionView::Done,
        }
    }
}

/// The path extended by a step's description, when there is one.
pub open spec fn extend_path(path: Seq<Seq<char>>, step: Option<String>) -> Seq<Seq<char>> {
    match step {
        Some(s) => path.push(s@),
        None => path,
    }
}

/// The node heap with one node marked visited.
pub open spec fn visited_at(heap: Seq<NodeView>, node: int) -> Seq<NodeView> {
    heap.update(node, NodeView { visited: true, ..heap[node] })
}

/// The outcome of entering `node` at cost `cost` along `path`: the heap
/// marks it visited; below the last layer its layer opens, past it the node
/// is final and reported when its cost calls for it.
pub open spec fn entered(
    s: SearchView,
    heap: Seq<NodeView>,
    node: int,
    cost: u32,
    path: Seq<Seq<char>>,
    s2: SearchView,
    heap2: Seq<NodeView>,
    step: Step,
) -> bool {
    &&& heap2 == visited_at(heap, node)
    &&& s2.layer_count == s.layer_count
    &&& if s.frames.len() < s.layer_count {
        &&& s2.frames == s.frames.push(FrameView { node, cost, path })
        &&& s2.best_final_node_cost == s.best_final_node_cost
        &&& s2.doctor_strange_counter == s.doctor_strange_counter
        &&& step.report is None
        &&& step.action.view() == ActionView::Expand {
            depth: s.frames.len() as int,
            node,
            budget: u32_specs::wrapping_sub(s.best_final_node_cost, cost),
        }
    } else {
        &&& s2.frames == s.frames
        &&& step.action.view() == resume(s.frames)
        &&& if reports_final(s.best_final_node_cost, cost) {
            &&& s2.best_final_node_cost == if cost < s.best_final_node_cost {
                cost
            } else {
                s.best_final_node_cost
            }
            &&& s2.doctor_strange_counter == u32_specs::wrapping_add(s.doctor_strange_counter, 1)
            &&& step.report matches Some(r) && r.cost == cost && r.path.deep_view() == path
                && r.branches_tested == s.doctor_strange_counter
        } else {
            &&& s2.best_final_node_cost == s.best_final_node_cost
            &&& s2.doctor_strange_counter == s.doctor_strange_counter
            &&& step.report is None
        }
    }
}

/// The outcome of taking `result` from the deepest open layer of `s`.
pub open spec fn child_taken(
    s: SearchView,
    heap: Seq<NodeView>,
    result: LayerResult,
    s2: SearchView,
    heap2: Seq<NodeView>,
    step: Step,
) -> bool {
    let top = s.frames.last();
    let cost = (top.cost + result.layer_cost) as u32;
    let child = result.child@;
    if skips_child(heap[child], cost) {
        &&& s2 == s
        &&& heap2 == heap
        &&& step.report is None
        &&& step.action.view() == resume(s.frames)
    } else if ends_layer(s.best_final_node_cost, cost) {
        &&& heap2 == visited_at(heap, child)
        &&& s2 == SearchView {
            doctor_strange_counter: u32_specs::wrapping_add(s.doctor_strange_counter, 1),
            frames: s.frames.drop_last(),
            ..s
        }
        &&& step.report is None
        &&& step.action.view() == resume(s.frames.drop_last())
    } else {
        let marked = visited_at(heap, child);
        let recorded = marked.update(top.node, NodeView { best_cost: cost, ..marked[top.node] });
        entered(s, recorded, child, cost, extend_path(top.path, result.layer_path), s2, heap2, step)
    }
}

/// Entering a node never raises the best final cost, and the search goes
/// no deeper than the layers.
pub proof fn lemma_entered_keeps_best(
    s: SearchView,
    heap: Seq<NodeView>,
    node: int,
    cost: u32,
    path: Seq<Seq<char>>,
    s2: SearchView,
    heap2: Seq<NodeView>,
    step: Step,
)
    requires
        s.frames.len() <= s.layer_count,
        entered(s, heap, node, cost, path, s2, heap2, step),
    ensures
        s2.best_final_node_cost <= s.best_final_node_cost,
        s2.frames.len() <= s2.layer_count,
{
}

/// A final node (one entered past the last layer) that costs 0 or 1 is
/// always reported, with its cost, its path and the branches tested before
/// it, whatever the best final cost found so far; so is any final node
/// cheaper than that best cost, which then becomes the best. A final node
/// that costs more than 1 and no less than the best is not reported.
pub proof fn lemma_final_nodes_reported(
    s: SearchView,
    heap: Seq<NodeView>,
    node: int,
    cost: u32,
    path: Seq<Seq<char>>,
    s2: SearchView,
    heap2: Seq<NodeView>,
    step: Step,
)
    requires
        s.frames.len() >= s.layer_count,
        entered(s, heap, node, cost, path, s2, heap2, step),
    ensures
        cost <= 1 || cost < s.best_final_node_cost ==> {
            &&& step.report matches Some(r) && r.cost == cost && r.path.deep_view() == path
                && r.branches_tested == s.doctor_strange_counter
            &&& s2.best_final_node_cost == if cost < s.best_final_node_cost {
                cost
            } else {
                s.best_final_node_cost
            }
        },
        cost > 1 && cost >= s.best_final_node_cost ==> step.report is None && s2.best_final_node_cost
            == s.best_final_node_cost,
{
}

/// A child whose total cost is at most 1, or at most the best final cost,
/// never closes its layer: it is skipped or entered, and the search stays at
/// least as deep. A child that is not skipped and costs more than both
/// closes the layer.
pub proof fn lemma_cheap_children_keep_the_layer(
    s: SearchView,
    heap: Seq<NodeView>,
    result: LayerResult,
    s2: SearchView,
    heap2: Seq<NodeView>,
    step: Step,
)
    requires
        s.frames.len() > 0,
        s.frames.len() <= s.layer_count,
        0 <= result.child@ < heap.len(),
        s.frames.last().cost + result.layer_cost <= u32::MAX,
        child_taken(s, heap, result, s2, heap2, step),
    ensures
        s.frames.last().cost + result.layer_cost <= 1 || s.frames.last().cost + result.layer_cost
            <= s.best_final_node_cost ==> {
            &&& s2.frames.len() >= s.frames.len()
            &&& s2.frames.subrange(0, s.frames.len() as int) == s.frames
            &&& step.action.view() != resume(s.frames.drop_last())
        },
        s.frames.last().cost + result.layer_cost > 1 && s.frames.last().cost + result.layer_cost
            > s.best_final_node_cost && !skips_child(
            heap[result.child@],
            (s.frames.last().cost + result.layer_cost) as u32,
        ) ==> s2.frames == s.frames.drop_last() && step.report is None,
{
    let top = s.frames.last();
    let cost = (top.cost + result.layer_cost) as u32;
    if cost <= 1 || cost <= s.best_final_node_cost {
        if skips_child(heap[result.child@], cost) {
            assert(s2.frames.subrange(0, s.frames.len() as int) =~= s.frames);
        } else {
            assert(s2.frames.subrange(0, s.frames.len() as int) =~= s.frames);
        }
    }
}

/// A search fits a heap: its frames are no deeper than the layers and refer
/// to nodes of the heap.
pub open spec fn search_fits(s: SearchView, heap: Seq<NodeView>) -> bool {
    &&& s.frames.len() <= s.layer_count
    &&& forall|i: int| 0 <= i < s.frames.len() ==> 0 <= #[trigger] s.frames[i].node < heap.len()
}

/// The heap `after` holds the nodes of `before`, unchanged, and maybe more:
/// what the layers' calls of `get_or_construct_node` do between two steps
/// of a search.
pub open spec fn heap_grows(before: Seq<NodeView>, after: Seq<NodeView>) -> bool {
    &&& before.len() <= after.len()
    &&& forall|h: int| 0 <= h < before.len() ==> after[h] == #[trigger] before[h]
}

/// Building a node grows the heap.
pub proof fn lemma_construct_grows(
    nodes: Seq<NodeView>,
    layer_id: Seq<u8>,
    rng: Option<RngState>,
    custom_data: CustomDataView,
)
    ensures
        heap_grows(nodes, apply_op(nodes, HeapOp::Construct { layer_id, rng, custom_data })),
{
}

/// One step of a search: the layers build nodes, then the search takes the
/// child `result` (`Visitor::on_child`) or closes its deepest layer
/// (`Visitor::on_exhausted`).
pub open spec fn search_step(s: SearchView, heap: Seq<NodeView>, s2: SearchView, heap2: Seq<NodeView>) -> bool {
    ||| exists|mid: Seq<NodeView>, result: LayerResult, step: Step|
        {
            &&& heap_grows(heap, mid)
            &&& s.frames.len() > 0
            &&& 0 <= result.child@ < mid.len()
            &&& s.frames.last().cost + result.layer_cost <= u32::MAX
            &&& #[trigger] child_taken(s, mid, result, s2, heap2, step)
        }
    ||| {
        &&& heap_grows(heap, heap2)
        &&& s.frames.len() > 0
        &&& s2 == SearchView { frames: s.frames.drop_last(), ..s }
    }
}

/// The nodes that were visited before are still visited.
pub open spec fn visits_kept(heap: Seq<NodeView>, heap2: Seq<NodeView>) -> bool {
    &&& heap.len() <= heap2.len()
    &&& forall|h: int| 0 <= h < heap.len() && #[trigger] heap[h].visited ==> heap2[h].visited
}

/// One step of a search never raises the best final cost, keeps every
/// visited node visited, counts at most one more branch (the counter wraps
/// at `u32::MAX`), and leaves the child it takes visited.
pub proof fn lemma_search_step(s: SearchView, heap: Seq<NodeView>, s2: SearchView, heap2: Seq<NodeView>)
    requires
        search_fits(s, heap),
        search_step(s, heap, s2, heap2),
    ensures
        search_fits(s2, heap2),
        s2.layer_count == s.layer_count,
        s2.best_final_node_cost <= s.best_final_node_cost,
        visits_kept(heap, heap2),
        s2.doctor_strange_counter == s.doctor_strange_counter || s2.doctor_strange_counter
            == u32_specs::wrapping_add(s.doctor_strange_counter, 1),
        forall|mid: Seq<NodeView>, result: LayerResult, step: Step|
            #[trigger] child_taken(s, mid, result, s2, heap2, step) && heap_grows(heap, mid) && 0 <= result.child@
                < mid.len() ==> heap2[result.child@].visited,
{
    if exists|mid: Seq<NodeView>, result: LayerResult, step: Step|
        {
            &&& heap_grows(heap, mid)
            &&& s.frames.len() > 0
            &&& 0 <= result.child@ < mid.len()
            &&& s.frames.last().cost + result.layer_cost <= u32::MAX
            &&& #[trigger] child_taken(s, mid, result, s2, heap2, step)
        } {
        let (mid, result, step) = choose|mid: Seq<NodeView>, result: LayerResult, step: Step|
            {
                &&& heap_grows(heap, mid)
                &&& s.frames.len() > 0
                &&& 0 <= result.child@ < mid.len()
                &&& s.frames.last().cost + result.layer_cost <= u32::MAX
                &&& #[trigger] child_taken(s, mid, result, s2, heap2, step)
            };
        let top = s.frames.last();
        assert(0 <= top.node < heap.len());
        let cost = (top.cost + result.layer_cost) as u32;
        let child = result.child@;
        if skips_child(mid[child], cost) {
        } else if ends_layer(s.best_final_node_cost, cost) {
            assert forall|i: int| 0 <= i < s2.frames.len() implies 0 <= #[trigger] s2.frames[i].node < heap2.len() by {
                assert(s2.frames[i] == s.frames[i]);
            }
        } else {
            let marked = visited_at(mid, child);
            let recorded = marked.update(top.node, NodeView { best_cost: cost, ..marked[top.node] });
            lemma_entered_keeps_best(s, recorded, child, cost, extend_path(top.path, result.layer_path), s2, heap2, step);
            assert forall|i: int| 0 <= i < s2.frames.len() implies 0 <= #[trigger] s2.frames[i].node < heap2.len() by {
                if i < s.frames.len() {
                    assert(s2.frames[i] == s.frames[i]);
                }
            }
        }
    } else {
        assert forall|i: int| 0 <= i < s2.frames.len() implies 0 <= #[trigger] s2.frames[i].node < heap2.len() by {
            assert(s2.frames[i] == s.frames[i]);
        }
    }
    assert forall|mid: Seq<NodeView>, result: LayerResult, step: Step|
        #[trigger] child_taken(s, mid, result, s2, heap2, step) && heap_grows(heap, mid) && 0 <= result.child@
            < mid.len() implies heap2[result.child@].visited by {
        let top = s.frames.last();
        assert(0 <= top.node < heap.len());
        let cost = (top.cost + result.layer_cost) as u32;
        let child = result.child@;
        if !skips_child(mid[child], cost) && !ends_layer(s.best_final_node_cost, cost) {
            let marked = visited_at(mid, child);
            let recorded = marked.update(top.node, NodeView { best_cost: cost, ..marked[top.node] });
            assert(recorded.len() == mid.len());
        }
    }
}

/// A counter that starts at `start` and has counted `k` times, wrapping at
/// `u32::MAX`.
pub open spec fn wrapped_count(start: u32, k: nat) -> int {
    (start + k) % 0x1_0000_0000
}

/// Over a whole run of a search, step after step, the best final cost never
/// rises, every node visited at the start is visited at the end, and the
/// branch counter has counted at most one branch per step (modulo 2^32).
pub proof fn lemma_search_run(states: Seq<SearchView>, heaps: Seq<Seq<NodeView>>)
    requires
        states.len() == heaps.len(),
        states.len() > 0,
        search_fits(states[0], heaps[0]),
        forall|i: int| 0 <= i < states.len() - 1 ==> #[trigger] search_step(states[i], heaps[i], states[i + 1], heaps[i + 1]),
    ensures
        search_fits(states.last(), heaps.last()),
        states.last().layer_count == states[0].layer_count,
        states.last().best_final_node_cost <= states[0].best_final_node_cost,
        visits_kept(heaps[0], heaps.last()),
        exists|k: nat|
            k < states.len() && states.last().doctor_strange_counter == #[trigger] wrapped_count(
                states[0].doctor_strange_counter,
                k,
            ),
    decreases states.len(),
{
    let n = states.len();
    if n == 1 {
        assert(states.last().doctor_strange_counter == wrapped_count(states[0].doctor_strange_counter, 0));
    } else {
        let s1 = states.drop_last();
        let h1 = heaps.drop_last();
        assert forall|i: int| 0 <= i < s1.len() - 1 implies #[trigger] search_step(s1[i], h1[i], s1[i + 1], h1[i + 1]) by {
            assert(search_step(states[i], heaps[i], states[i + 1], heaps[i + 1]));
        }
        lemma_search_run(s1, h1);
        let i = n - 2;
        assert(search_step(states[i], heaps[i], states[i + 1], heaps[i + 1]));
        lemma_search_step(states[n - 2], heaps[n - 2], states[n - 1], heaps[n - 1]);
        let k = choose|k: nat|
            k < s1.len() && s1.last().doctor_strange_counter == #[trigger] wrapped_count(s1[0].doctor_strange_counter, k);
        let c0 = states[0].doctor_strange_counter;
        let c1 = states[n - 2].doctor_strange_counter;
        if states.last().doctor_strange_counter != c1 {
            assert(states.last().doctor_strange_counter == wrapped_count(c0, k + 1)) by {
                assert(u32_specs::wrapping_add(c1, 1) == (c1 + 1) % 0x1_0000_0000);
                vstd::arithmetic::div_mod::lemma_add_mod_noop(c0 + k, 1, 0x1_0000_0000);
            }
        }
    }
}

impl Visitor {
    /// The search fits the heap: its frames are no deeper than the layers and
    /// refer to nodes of the heap.
    pub open spec fn fits(&self, heap: Seq<NodeView>) -> bool {
        search_fits(self@, heap)
    }

    proof fn lemma_view_frames(&self)
        ensures
            self@.frames.len() == self.frames@.len(),
            forall|i: int|
                0 <= i < self.frames@.len() ==> (#[trigger] self@.frames[i]).node == self.frames@[i].node@
                    && self@.frames[i].cost == self.frames@[i].cost && self@.frames[i].path
                    == self.frames@[i].path.deep_view(),
    {
    }

    fn resume_action(&self) -> (action: Action)
        ensures
            action.view() == resume(self@.frames),
    {
        proof {
            self.lemma_view_frames();
        }
        if self.frames.len() == 0 {
            Action::Done
        } else {
            Action::NextChild { depth: self.frames.len() - 1 }
        }
    }

    /// Enters a node: marks it visited, then opens its layer or, past the
    /// last layer, reports it when its cost calls for it.
    fn enter(&mut self, heap: &mut NodeHeap, node: NodeHandle, cost: u32, path: Vec<String>) -> (step: Step)
        requires
            old(heap).wf(),
            old(self).fits(old(heap)@),
            0 <= node@ < old(heap)@.len(),
        ensures
            final(heap).wf(),
            final(self).fits(final(heap)@),
            entered(old(self)@, old(heap)@, node@, cost, path.deep_view(), final(self)@, final(heap)@, step),
    {
        heap.mark_visited(node);
        proof {
            self.lemma_view_frames();
        }
        if self.frames.len() < self.layer_count {
            let depth = self.frames.len();
            let budget = self.best_final_node_cost.wrapping_sub(cost);
            let ghost old_frames = self@.frames;
            let ghost p = path.deep_view();
            self.frames.push(Frame { node, cost, path });
            proof {
                self.lemma_view_frames();
                assert(self@.frames =~= old_frames.push(FrameView { node: node@, cost, path: p }));
            }
            Step { report: None, action: Action::Expand { depth, node, budget } }
        } else {
            let action = self.resume_action();
            if cost < self.best_final_node_cost || cost == 0 || cost == 1 {
                if cost < self.best_final_node_cost {
                    self.best_final_node_cost = cost;
                }
                let branches_tested = self.doctor_strange_counter;
                self.doctor_strange_counter = self.doctor_strange_counter.wrapping_add(1);
                proof {
                    self.lemma_view_frames();
                }
                Step { report: Some(FinalNode { cost, path, branches_tested }), action }
            } else {
                proof {
                    self.lemma_view_frames();
                }
                Step { report: None, action }
            }
        }
    }

    /// Starts a search through `layer_count` layers from a root node with no
    /// generator, no cost and an empty path: the root is built in the heap
    /// and entered, with no final node found yet.
    pub fn start(heap: &mut NodeHeap, layer_count: usize) -> (result: (Visitor, Step))
        requires
            old(heap).wf(),
        ensures
            final(heap).wf(),
            result.0.fits(final(heap)@),
            result.0@.layer_count == layer_count,
            ({
                let s0 = SearchView {
                    layer_count: layer_count as nat,
                    best_final_node_cost: u32::MAX,
                    doctor_strange_counter: 0,
                    frames: Seq::empty(),
                };
                let root_id = identity_of("root".spec_bytes(), None, ().custom_view());
                exists|root: int, built: Seq<NodeView>|
                    0 <= root < built.len()
                    && #[trigger] built[root].identity() == root_id
                    && (has_identity(old(heap)@, root_id) ==> built == old(heap)@)
                    && (!has_identity(old(heap)@, root_id) ==> built == old(heap)@.push(
                        fresh_node("root".spec_bytes(), None, ().custom_view()),
                    )) && entered(s0, built, root, 0, Seq::empty(), result.0@, final(heap)@, result.1)
            }),
    {
        let root = heap.get_or_construct_node("root", None);
        let ghost built = heap@;
        let mut v = Visitor { layer_count, best_final_node_cost: u32::MAX, doctor_strange_counter: 0, frames: Vec::new() };
        let path: Vec<String> = Vec::new();
        proof {
            v.lemma_view_frames();
            assert(path.deep_view() =~= Seq::<Seq<char>>::empty());
            assert(v@.frames =~= Seq::<FrameView>::empty());
        }
        let step = v.enter(heap, root, 0, path);
        (v, step)
    }

    /// The cost of the node whose layer is the deepest open one.
    pub fn open_cost(&self) -> (cost: u32)
        requires
            self@.frames.len() > 0,
        ensures
            cost == self@.frames.last().cost,
    {
        proof {
            self.lemma_view_frames();
        }
        self.frames[self.frames.len() - 1].cost
    }

    /// The best cost of a final node found so far.
    pub fn best_final_node_cost(&self) -> (cost: u32)
        ensures
            cost == self@.best_final_node_cost,
    {
        self.best_final_node_cost
    }

    /// Takes the next child that the deepest open layer offers. A child
    /// visited before at no higher cost is skipped; a child whose cost
    /// exceeds both the best final cost and 1 ends the layer, since layers
    /// offer their children by increasing cost; any other child is marked
    /// visited, its cost is recorded on the parent, and it is entered.
    pub fn on_child(&mut self, heap: &mut NodeHeap, result: LayerResult) -> (step: Step)
        requires
            old(heap).wf(),
            old(self).fits(old(heap)@),
            old(self)@.frames.len() > 0,
            0 <= result.child@ < old(heap)@.len(),
            old(self)@.frames.last().cost + result.layer_cost <= u32::MAX,
        ensures
            final(heap).wf(),
            final(self).fits(final(heap)@),
            final(self)@.layer_count == old(self)@.layer_count,
            final(self)@.best_final_node_cost <= old(self)@.best_final_node_cost,
            child_taken(old(self)@, old(heap)@, result, final(self)@, final(heap)@, step),
            search_step(old(self)@, old(heap)@, final(self)@, final(heap)@),
    {
        let ghost s0 = self@;
        let ghost h0 = heap@;
        let ghost r0 = result;
        let step = self.take_child(heap, result);
        proof {
            assert(heap_grows(h0, h0));
            assert(child_taken(s0, h0, r0, self@, heap@, step));
        }
        step
    }

    fn take_child(&mut self, heap: &mut NodeHeap, result: LayerResult) -> (step: Step)
        requires
            old(heap).wf(),
            old(self).fits(old(heap)@),
            old(self)@.frames.len() > 0,
            0 <= result.child@ < old(heap)@.len(),
            old(self)@.frames.last().cost + result.layer_cost <= u32::MAX,
        ensures
            final(heap).wf(),
            final(self).fits(final(heap)@),
            final(self)@.layer_count == old(self)@.layer_count,
            final(self)@.best_final_node_cost <= old(self)@.best_final_node_cost,
            child_taken(old(self)@, old(heap)@, result, final(self)@, final(heap)@, step),
    {
        proof {
            self.lemma_view_frames();
        }
        let last = self.frames.len() - 1;
        let parent = self.frames[last].node;
        let cost = self.frames[last].cost + result.layer_cost;
        let child = result.child;
        if heap.is_visited(child) {
            if heap.best_cost(child) <= cost {
                return Step { report: None, action: self.resume_action() };
            }
        }
        heap.mark_visited(child);
        // layers offer their children by increasing cost
        if cost > self.best_final_node_cost && cost > 1 {
            self.doctor_strange_counter = self.doctor_strange_counter.wrapping_add(1);
            let ghost old_frames = self@.frames;
            self.frames.pop();
            proof {
                self.lemma_view_frames();
                assert(self@.frames =~= old_frames.drop_last());
            }
            return Step { report: None, action: self.resume_action() };
        }
        let mut path = self.frames[last].path.clone();
        proof {
            vstd::std_specs::vec::vec_clone_deep_view_proof(self.frames@[last as int].path, path);
        }
        let ghost base = path.deep_view();
        match result.layer_path {
            Some(lp) => {
                path.push(lp);
                proof {
                    assert(path.deep_view() =~= base.push(lp@));
                }
            },
            None => {},
        }
        heap.update_best_cost(parent, cost);
        self.enter(heap, child, cost, path)
    }

    /// The deepest open layer has no children left: it closes.
    pub fn on_exhausted(&mut self) -> (step: Step)
        requires
            old(self)@.frames.len() > 0,
        ensures
            final(self)@ == (SearchView { frames: old(self)@.frames.drop_last(), ..old(self)@ }),
            step.report is None,
            step.action.view() == resume(final(self)@.frames),
            forall|heap: Seq<NodeView>| old(self).fits(heap) ==> #[trigger] final(self).fits(heap),
            forall|heap: Seq<NodeView>| #[trigger] search_step(old(self)@, heap, final(self)@, heap),
    {
        proof {
            self.lemma_view_frames();
        }
        let ghost old_frames = self@.frames;
        self.frames.pop();
        proof {
            self.lemma_view_frames();
            assert(self@.frames =~= old_frames.drop_last());
        }
        Step { report: None, action: self.resume_action() }
    }
}

} // verus!
