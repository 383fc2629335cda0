//! The scheduling state of a workflow run: which nodes wait, run or have
//! completed, what each completed node produced, and how many of each node's
//! incoming edges are still unsatisfied.

use vstd::prelude::*;

use crate::error::{ErrorView, WorkflowError};
use crate::graph::{evaluate, EdgeView, Evaluation, EvaluationView, NodeId, NodeView};
use crate::value::{Value, ValueView};
use crate::workflow::{
    dependencies, dependents, edges_valid, has_node, ids_distinct, is_first_node, take_edge, Workflow,
    WorkflowView,
};

verus! {

/// Where a node stands in a run.
#[derive(Debug, Clone, Copy, PartialEq, Eq, Structural)]
pub enum NodeStatus {
    /// Not handed out for execution yet.
    Waiting,
    /// Handed out for execution, no output reported yet.
    Running,
    /// Its output has been recorded.
    Completed,
}

/// The output that a completed node produced.
#[derive(Debug)]
pub struct NodeOutput {
    pub node_id: NodeId,
    pub value: Value,
}

/// The content of a [`NodeOutput`].
pub struct OutputView {
    pub node_id: Seq<char>,
    pub value: ValueView,
}

impl View for NodeOutput {
    type V = OutputView;

    open spec fn view(&self) -> OutputView {
        OutputView { node_id: self.node_id@, value: self.value@ }
    }
}

impl Clone for NodeOutput {
    fn clone(&self) -> (r: Self)
        ensures
            r@ == self@,
    {
        NodeOutput { node_id: self.node_id.clone(), value: self.value.duplicate() }
    }
}

/// The contents of a list of outputs.
pub open spec fn outputs_view(outs: Seq<NodeOutput>) -> Seq<OutputView> {
    outs.map_values(|o: NodeOutput| o@)
}

/// The value recorded for `id` in `outs`: its latest record, so that a later
/// record for an id replaces an earlier one.
pub open spec fn lookup(outs: Seq<OutputView>, id: Seq<char>) -> Option<ValueView>
    decreases outs.len(),
{
    if outs.len() == 0 {
        None
    } else if outs.last().node_id == id {
        Some(outs.last().value)
    } else {
        lookup(outs.drop_last(), id)
    }
}

/// Records after position `k` for other ids do not change what `id` looks up to.
pub proof fn lemma_lookup_suffix_other(outs: Seq<OutputView>, id: Seq<char>, k: int)
    requires
        0 <= k <= outs.len(),
        forall|j: int| k <= j < outs.len() ==> #[trigger] outs[j].node_id != id,
    ensures
        lookup(outs, id) == lookup(outs.take(k), id),
    decreases outs.len(),
{
    if k < outs.len() {
        assert(outs.drop_last().take(k) =~= outs.take(k));
        assert(outs[outs.len() - 1].node_id != id);
        lemma_lookup_suffix_other(outs.drop_last(), id, k);
    } else {
        assert(outs.take(k) =~= outs);
    }
}

/// The value that `context` records for `id` (its latest record), if any.
pub fn lookup_output<'a>(context: &'a Vec<NodeOutput>, id: &str) -> (r: Option<&'a Value>)
    ensures
        match r {
            Some(v) => lookup(outputs_view(context@), id@) == Some(v@),
            None => lookup(outputs_view(context@), id@) is None,
        },
{
    let ghost ctx = outputs_view(context@);
    let target = id.to_owned();
    let mut i: usize = context.len();
    while i > 0
        invariant
            ctx == outputs_view(context@),
            target@ == id@,
            i <= context.len(),
            forall|j: int| i <= j < ctx.len() ==> #[trigger] ctx[j].node_id != id@,
        decreases i,
    {
        if context[i - 1].node_id == target {
            proof {
                lemma_lookup_suffix_other(ctx, id@, i as int);
                assert(ctx.take(i as int).last() == ctx[i - 1]);
            }
            return Some(&context[i - 1].value);
        }
        i = i - 1;
    }
    proof {
        lemma_lookup_suffix_other(ctx, id@, 0);
    }
    None
}

/// The edge's source has completed and its output lets the edge be followed.
pub open spec fn fired(outs: Seq<OutputView>, e: EdgeView) -> bool {
    match lookup(outs, e.from) {
        Some(v) => take_edge(v, e.condition),
        None => false,
    }
}

/// The number of edges into `id` that have not fired.
pub open spec fn pending(edges: Seq<EdgeView>, outs: Seq<OutputView>, id: Seq<char>) -> nat
    decreases edges.len(),
{
    if edges.len() == 0 {
        0
    } else {
        pending(edges.drop_last(), outs, id) + if edges.last().to == id && !fired(
            outs,
            edges.last(),
        ) {
            1nat
        } else {
            0nat
        }
    }
}

/// The number of times `id` occurs in `s`.
pub open spec fn count_occ(s: Seq<Seq<char>>, id: Seq<char>) -> nat
    decreases s.len(),
{
    if s.len() == 0 {
        0
    } else {
        count_occ(s.drop_last(), id) + if s.last() == id {
            1nat
        } else {
            0nat
        }
    }
}

/// The number of edges from `x` to `y` that are followed after `x` produced `v`.
pub open spec fn taken(edges: Seq<EdgeView>, x: Seq<char>, v: ValueView, y: Seq<char>) -> nat
    decreases edges.len(),
{
    if edges.len() == 0 {
        0
    } else {
        let e = edges.last();
        taken(edges.drop_last(), x, v, y) + if e.from == x && take_edge(v, e.condition) && e.to == y {
            1nat
        } else {
            0nat
        }
    }
}

/// Looking up after appending a record.
pub proof fn lemma_lookup_push(outs: Seq<OutputView>, o: OutputView, u: Seq<char>)
    ensures
        lookup(outs.push(o), u) == if o.node_id == u {
            Some(o.value)
        } else {
            lookup(outs, u)
        },
{
    assert(outs.push(o).drop_last() =~= outs);
}

/// A recorded value comes from some record with that id.
pub proof fn lemma_lookup_found(outs: Seq<OutputView>, u: Seq<char>)
    requires
        lookup(outs, u) is Some,
    ensures
        exists|j: int|
            0 <= j < outs.len() && #[trigger] outs[j].node_id == u && outs[j].value == lookup(
                outs,
                u,
            )->0,
    decreases outs.len(),
{
    let rest = outs.drop_last();
    if lookup(rest, u) is Some {
        lemma_lookup_found(rest, u);
        let j = choose|j: int|
            0 <= j < rest.len() && #[trigger] rest[j].node_id == u && rest[j].value == lookup(rest, u)->0;
        assert(outs[j] == rest[j]);
    } else {
        assert(outs[outs.len() - 1].node_id == u);
    }
}

/// `u` has a value exactly when some record has id `u`, and the value is that
/// of the last such record.
pub proof fn lemma_lookup_latest(outs: Seq<OutputView>, u: Seq<char>)
    ensures
        lookup(outs, u) is Some <==> exists|j: int| 0 <= j < outs.len() && #[trigger] outs[j].node_id == u,
        lookup(outs, u) is Some ==> exists|j: int|
            0 <= j < outs.len() && #[trigger] outs[j].node_id == u && outs[j].value == lookup(outs, u)->0
                && forall|t: int| j < t < outs.len() ==> #[trigger] outs[t].node_id != u,
    decreases outs.len(),
{
    if outs.len() > 0 {
        let rest = outs.drop_last();
        let n = outs.len() - 1;
        lemma_lookup_latest(rest, u);
        assert forall|j: int| 0 <= j < n implies #[trigger] rest[j] == outs[j] by {}
        if outs[n].node_id != u {
            if exists|j: int| 0 <= j < outs.len() && #[trigger] outs[j].node_id == u {
                let j = choose|j: int| 0 <= j < outs.len() && #[trigger] outs[j].node_id == u;
                assert(rest[j].node_id == u);
            }
            if lookup(rest, u) is Some {
                let j = choose|j: int|
                    0 <= j < rest.len() && #[trigger] rest[j].node_id == u && rest[j].value == lookup(rest, u)->0
                        && forall|t: int| j < t < rest.len() ==> #[trigger] rest[t].node_id != u;
                assert(outs[j].node_id == u);
                assert forall|t: int| j < t < outs.len() implies #[trigger] outs[t].node_id != u by {
                    if t < n {
                        assert(rest[t].node_id != u);
                    }
                }
            }
        } else {
            assert(outs.last() == outs[n]);
        }
    }
}

/// No record with id `u` means no value for `u`.
pub proof fn lemma_lookup_absent(outs: Seq<OutputView>, u: Seq<char>)
    requires
        forall|j: int| 0 <= j < outs.len() ==> #[trigger] outs[j].node_id != u,
    ensures
        lookup(outs, u) is None,
    decreases outs.len(),
{
    if outs.len() > 0 {
        let rest = outs.drop_last();
        assert forall|j: int| 0 <= j < rest.len() implies #[trigger] rest[j].node_id != u by {
            assert(rest[j] == outs[j]);
        }
        lemma_lookup_absent(rest, u);
        assert(outs[outs.len() - 1].node_id != u);
    }
}

/// The occurrences of `y` among the dependents of `x` are the edges from `x`
/// to `y` that are followed.
pub proof fn lemma_count_dependents(edges: Seq<EdgeView>, x: Seq<char>, v: ValueView, y: Seq<char>)
    ensures
        count_occ(dependents(edges, x, v), y) == taken(edges, x, v, y),
    decreases edges.len(),
{
    if edges.len() > 0 {
        lemma_count_dependents(edges.drop_last(), x, v, y);
        let e = edges.last();
        if e.from == x && take_edge(v, e.condition) {
            lemma_count_occ_push(dependents(edges.drop_last(), x, v), e.to, y);
        }
    }
}

/// Recording the output `v` of a node `x` without a record fires exactly the
/// followed edges from `x`.
pub proof fn lemma_pending_after(
    edges: Seq<EdgeView>,
    outs: Seq<OutputView>,
    x: Seq<char>,
    v: ValueView,
    y: Seq<char>,
)
    requires
        lookup(outs, x) is None,
    ensures
        pending(edges, outs.push(OutputView { node_id: x, value: v }), y) + taken(edges, x, v, y)
            == pending(edges, outs, y),
    decreases edges.len(),
{
    let o = OutputView { node_id: x, value: v };
    if edges.len() > 0 {
        lemma_pending_after(edges.drop_last(), outs, x, v, y);
        let e = edges.last();
        lemma_lookup_push(outs, o, e.from);
    }
}

/// Without records, every edge into `y` is pending.
pub proof fn lemma_pending_initial(edges: Seq<EdgeView>, y: Seq<char>)
    ensures
        pending(edges, Seq::<OutputView>::empty(), y) == dependencies(edges, y).len(),
    decreases edges.len(),
{
    if edges.len() > 0 {
        lemma_pending_initial(edges.drop_last(), y);
    }
}

/// With nothing pending, every edge into `y` has fired.
pub proof fn lemma_pending_zero(edges: Seq<EdgeView>, outs: Seq<OutputView>, y: Seq<char>)
    requires
        pending(edges, outs, y) == 0,
    ensures
        forall|t: int| 0 <= t < edges.len() && #[trigger] edges[t].to == y ==> fired(outs, edges[t]),
    decreases edges.len(),
{
    if edges.len() > 0 {
        lemma_pending_zero(edges.drop_last(), outs, y);
        assert forall|t: int| 0 <= t < edges.len() && #[trigger] edges[t].to == y implies fired(
            outs,
            edges[t],
        ) by {
            if t < edges.len() - 1 {
                assert(edges.drop_last()[t] == edges[t]);
            }
        }
    }
}

/// Something pending means some edge into `y` has not fired.
pub proof fn lemma_pending_positive(edges: Seq<EdgeView>, outs: Seq<OutputView>, y: Seq<char>)
    requires
        pending(edges, outs, y) > 0,
    ensures
        exists|t: int| 0 <= t < edges.len() && #[trigger] edges[t].to == y && !fired(outs, edges[t]),
    decreases edges.len(),
{
    if pending(edges.drop_last(), outs, y) > 0 {
        lemma_pending_positive(edges.drop_last(), outs, y);
        let t = choose|t: int|
            0 <= t < edges.drop_last().len() && #[trigger] edges.drop_last()[t].to == y && !fired(
                outs,
                edges.drop_last()[t],
            );
        assert(edges[t] == edges.drop_last()[t]);
    } else {
        assert(edges[edges.len() - 1].to == y);
    }
}

/// Two status lists that agree on which nodes wait give the same ready ids.
pub proof fn lemma_ready_ids_agree(
    ids: Seq<Seq<char>>,
    in_degree: Seq<usize>,
    st1: Seq<NodeStatus>,
    st2: Seq<NodeStatus>,
    n: int,
)
    requires
        0 <= n <= st1.len(),
        n <= st2.len(),
        n <= in_degree.len(),
        forall|i: int|
            0 <= i < n ==> (#[trigger] st1[i] == NodeStatus::Waiting) == (st2[i] == NodeStatus::Waiting),
    ensures
        ready_ids(ids, in_degree, st1, n) == ready_ids(ids, in_degree, st2, n),
    decreases n,
{
    if n > 0 {
        lemma_ready_ids_agree(ids, in_degree, st1, st2, n - 1);
        assert((st1[n - 1] == NodeStatus::Waiting) == (st2[n - 1] == NodeStatus::Waiting));
    }
}

/// The ready ids among the first `n` nodes enumerate the ready nodes: the
/// returned positions are ready, strictly increasing, name the listed ids in
/// turn, and every ready node among the first `n` is one of them.
pub proof fn lemma_ready_ids_exact(ids: Seq<Seq<char>>, in_degree: Seq<usize>, status: Seq<NodeStatus>, n: int) -> (idx:
    Seq<int>)
    requires
        0 <= n <= ids.len(),
        n <= in_degree.len(),
        n <= status.len(),
    ensures
        idx.len() == ready_ids(ids, in_degree, status, n).len(),
        forall|j: int|
            0 <= j < idx.len() ==> 0 <= #[trigger] idx[j] < n && is_ready(in_degree, status, idx[j])
                && ready_ids(ids, in_degree, status, n)[j] == ids[idx[j]],
        forall|j1: int, j2: int| 0 <= j1 < j2 < idx.len() ==> #[trigger] idx[j1] < #[trigger] idx[j2],
        forall|i: int|
            0 <= i < n && #[trigger] is_ready(in_degree, status, i) ==> exists|j: int|
                0 <= j < idx.len() && #[trigger] idx[j] == i,
    decreases n,
{
    if n == 0 {
        Seq::empty()
    } else {
        let prev = lemma_ready_ids_exact(ids, in_degree, status, n - 1);
        let rest = ready_ids(ids, in_degree, status, n - 1);
        if is_ready(in_degree, status, n - 1) {
            let idx = prev.push(n - 1);
            assert forall|j: int| 0 <= j < prev.len() implies #[trigger] idx[j] == prev[j] by {}
            assert forall|j: int| 0 <= j < prev.len() implies rest.push(ids[n - 1])[j] == rest[j] by {}
            assert forall|j1: int, j2: int| 0 <= j1 < j2 < idx.len() implies #[trigger] idx[j1] < #[trigger] idx[j2] by {
                assert(idx[j1] == prev[j1]);
                if j2 < prev.len() {
                    assert(idx[j2] == prev[j2]);
                }
            }
            assert forall|i: int| 0 <= i < n && #[trigger] is_ready(in_degree, status, i) implies exists|j: int|
                0 <= j < idx.len() && #[trigger] idx[j] == i by {
                if i < n - 1 {
                    let j = choose|j: int| 0 <= j < prev.len() && #[trigger] prev[j] == i;
                    assert(idx[j] == i);
                } else {
                    assert(idx[prev.len() as int] == i);
                }
            }
            idx
        } else {
            assert forall|i: int| 0 <= i < n && #[trigger] is_ready(in_degree, status, i) implies exists|j: int|
                0 <= j < prev.len() && #[trigger] prev[j] == i by {
                assert(i != n - 1);
            }
            prev
        }
    }
}

/// A node's id is among the ready ids if the node is ready: no ready node is
/// left out. Where no id occurs twice, the converse holds too: a node whose id
/// is among them is ready.
pub proof fn lemma_ready_ids_members(ids: Seq<Seq<char>>, in_degree: Seq<usize>, status: Seq<NodeStatus>, n: int)
    requires
        0 <= n <= ids.len(),
        n <= in_degree.len(),
        n <= status.len(),
    ensures
        forall|i: int|
            0 <= i < n && #[trigger] is_ready(in_degree, status, i) ==> ready_ids(ids, in_degree, status, n).contains(
                ids[i],
            ),
        (forall|a: int, b: int| 0 <= a < b < n ==> #[trigger] ids[a] != #[trigger] ids[b]) ==> forall|i: int|
            0 <= i < n && #[trigger] ready_ids(ids, in_degree, status, n).contains(ids[i]) ==> is_ready(
                in_degree,
                status,
                i,
            ),
{
    let r = ready_ids(ids, in_degree, status, n);
    let idx = lemma_ready_ids_exact(ids, in_degree, status, n);
    assert forall|i: int| 0 <= i < n && #[trigger] is_ready(in_degree, status, i) implies r.contains(ids[i]) by {
        let j = choose|j: int| 0 <= j < idx.len() && #[trigger] idx[j] == i;
        assert(r[j] == ids[i]);
    }
    if forall|a: int, b: int| 0 <= a < b < n ==> #[trigger] ids[a] != #[trigger] ids[b] {
        assert forall|i: int| 0 <= i < n && #[trigger] r.contains(ids[i]) implies is_ready(in_degree, status, i) by {
            let j = choose|j: int| 0 <= j < r.len() && r[j] == ids[i];
            let t = idx[j];
            assert(ids[t] == ids[i]);
            if t < i {
                assert(ids[t] != ids[i]);
            } else if i < t {
                assert(ids[i] != ids[t]);
            }
        }
    }
}

/// [`lemma_ready_ids_members`] for the nodes of a state, under status and
/// dependency counts of the same length.
proof fn lemma_state_ready_members(s: GraphState, in_degree: Seq<usize>, status: Seq<NodeStatus>)
    requires
        in_degree.len() == s.ids@.len(),
        status.len() == s.ids@.len(),
    ensures
        forall|i: int|
            0 <= i < s.ids@.len() && #[trigger] is_ready(in_degree, status, i) ==> ready_ids(
                s.id_seq(),
                in_degree,
                status,
                s.ids@.len() as int,
            ).contains(s.ids@[i]@),
        s.well_formed() ==> forall|i: int|
            0 <= i < s.ids@.len() && #[trigger] ready_ids(s.id_seq(), in_degree, status, s.ids@.len() as int).contains(
                s.ids@[i]@,
            ) ==> is_ready(in_degree, status, i),
{
    let n = s.ids@.len() as int;
    assert forall|i: int| 0 <= i < n implies s.id_seq()[i] == #[trigger] s.ids@[i]@ by {}
    lemma_ready_ids_members(s.id_seq(), in_degree, status, n);
    if s.well_formed() {
        assert forall|a: int, b: int| 0 <= a < b < n implies #[trigger] s.id_seq()[a] != #[trigger] s.id_seq()[b] by {
            assert(s.ids@[a]@ != s.ids@[b]@);
        }
    }
}

/// Each dependent is the target of some edge.
pub proof fn lemma_dependents_are_targets(edges: Seq<EdgeView>, x: Seq<char>, v: ValueView, j: int)
    requires
        0 <= j < dependents(edges, x, v).len(),
    ensures
        exists|t: int| 0 <= t < edges.len() && #[trigger] edges[t].to == dependents(edges, x, v)[j],
    decreases edges.len(),
{
    let rest = dependents(edges.drop_last(), x, v);
    if j < rest.len() {
        lemma_dependents_are_targets(edges.drop_last(), x, v, j);
        let t = choose|t: int| 0 <= t < edges.drop_last().len() && #[trigger] edges.drop_last()[t].to == rest[j];
        assert(edges[t] == edges.drop_last()[t]);
    } else {
        assert(edges[edges.len() - 1].to == dependents(edges, x, v)[j]);
    }
}

/// `m` is the first position in `deps` whose id is not in `ids`.
pub open spec fn is_first_unknown(ids: Seq<Seq<char>>, deps: Seq<Seq<char>>, m: int) -> bool {
    &&& 0 <= m < deps.len()
    &&& !ids.contains(deps[m])
    &&& forall|j: int| 0 <= j < m ==> ids.contains(#[trigger] deps[j])
}

/// The number of leading entries of `deps` whose ids are in `ids`.
pub open spec fn known_prefix(ids: Seq<Seq<char>>, deps: Seq<Seq<char>>) -> int {
    if exists|m: int| is_first_unknown(ids, deps, m) {
        choose|m: int| is_first_unknown(ids, deps, m)
    } else {
        deps.len() as int
    }
}

/// Counting occurrences after appending.
pub proof fn lemma_count_occ_push(s: Seq<Seq<char>>, x: Seq<char>, y: Seq<char>)
    ensures
        count_occ(s.push(x), y) == count_occ(s, y) + if x == y {
            1nat
        } else {
            0nat
        },
{
    assert(s.push(x).drop_last() =~= s);
}

/// A longer prefix holds at least as many occurrences.
pub proof fn lemma_count_occ_prefix_mono(s: Seq<Seq<char>>, a: int, b: int, y: Seq<char>)
    requires
        0 <= a <= b <= s.len(),
    ensures
        count_occ(s.take(a), y) <= count_occ(s.take(b), y),
    decreases b - a,
{
    if a < b {
        lemma_count_occ_prefix_mono(s, a, b - 1, y);
        assert(s.take(b) =~= s.take(b - 1).push(s[b - 1]));
        lemma_count_occ_push(s.take(b - 1), s[b - 1], y);
    }
}

/// The position of the id `id` in `ids`, if it is there.
pub fn find_id(ids: &Vec<NodeId>, id: &str) -> (r: Option<usize>)
    ensures
        match r {
            Some(k) => k < ids@.len() && ids@[k as int]@ == id@ && forall|j: int|
                0 <= j < k ==> #[trigger] ids@[j]@ != id@,
            None => !ids.deep_view().contains(id@),
        },
{
    let target = id.to_owned();
    let mut k: usize = 0;
    while k < ids.len()
        invariant
            k <= ids.len(),
            target@ == id@,
            forall|j: int| 0 <= j < k ==> #[trigger] ids@[j]@ != id@,
        decreases ids.len() - k,
    {
        if ids[k] == target {
            return Some(k);
        }
        k = k + 1;
    }
    proof {
        if ids.deep_view().contains(id@) {
            let j = choose|j: int| 0 <= j < ids.deep_view().len() && ids.deep_view()[j] == id@;
            assert(ids@[j]@ == id@);
        }
    }
    None
}

/// Key components of a workflow run. Position `i` of `ids`, `in_degree` and
/// `status` describes one node.
#[derive(Debug)]
pub struct GraphState {
    /// The node ids, in workflow order
    pub ids: Vec<NodeId>,
    /// Number of unsatisfied dependencies of each node
    pub in_degree: Vec<usize>,
    /// Where each node stands
    pub status: Vec<NodeStatus>,
    /// Output of each completed node, in completion order
    pub outputs: Vec<NodeOutput>,
    /// Order in which nodes completed
    pub execution_order: Vec<NodeId>,
}

/// Node `i` has no unsatisfied dependency and has not been handed out.
pub open spec fn is_ready(in_degree: Seq<usize>, status: Seq<NodeStatus>, i: int) -> bool {
    in_degree[i] == 0 && status[i] == NodeStatus::Waiting
}

/// The ids of the ready nodes among the first `n`, in node order.
pub open spec fn ready_ids(ids: Seq<Seq<char>>, in_degree: Seq<usize>, status: Seq<NodeStatus>, n: int) -> Seq<
    Seq<char>,
>
    decreases n,
{
    if n <= 0 {
        Seq::empty()
    } else {
        let rest = ready_ids(ids, in_degree, status, n - 1);
        if is_ready(in_degree, status, n - 1) {
            rest.push(ids[n - 1])
        } else {
            rest
        }
    }
}

impl GraphState {
    /// The recorded outputs.
    pub open spec fn outs(&self) -> Seq<OutputView> {
        outputs_view(self.outputs@)
    }

    /// The execution order.
    pub open spec fn order(&self) -> Seq<Seq<char>> {
        self.execution_order.deep_view()
    }

    /// The node ids.
    pub open spec fn id_seq(&self) -> Seq<Seq<char>> {
        self.ids.deep_view()
    }

    /// The ids of the nodes that are ready to run, in node order.
    pub open spec fn ready(&self) -> Seq<Seq<char>> {
        ready_ids(self.id_seq(), self.in_degree@, self.status@, self.ids@.len() as int)
    }

    /// The per-node vectors agree in length.
    pub open spec fn aligned(&self) -> bool {
        &&& self.in_degree@.len() == self.ids@.len()
        &&& self.status@.len() == self.ids@.len()
    }

    /// The per-node vectors agree in length and no id occurs twice.
    pub open spec fn well_formed(&self) -> bool {
        &&& self.aligned()
        &&& forall|i: int, j: int|
            0 <= i < j < self.ids@.len() ==> #[trigger] self.ids@[i]@ != #[trigger] self.ids@[j]@
    }

    /// The state a run of `w` starts in: every node waits for all of its
    /// incoming edges, and nothing has run.
    pub open spec fn is_initial(&self, w: WorkflowView) -> bool {
        &&& self.ids@.len() == w.nodes.len()
        &&& self.in_degree@.len() == w.nodes.len()
        &&& self.status@.len() == w.nodes.len()
        &&& forall|i: int| 0 <= i < w.nodes.len() ==> #[trigger] self.ids@[i]@ == w.nodes[i].id
        &&& forall|i: int|
            0 <= i < w.nodes.len() ==> #[trigger] self.in_degree@[i] == dependencies(
                w.edges,
                w.nodes[i].id,
            ).len()
        &&& forall|i: int| 0 <= i < w.nodes.len() ==> #[trigger] self.status@[i] == NodeStatus::Waiting
        &&& self.outputs@.len() == 0
        &&& self.execution_order@.len() == 0
    }

    /// The state is one that a run of `w` reaches: position `i` describes node
    /// `i` of `w`; each completed node occurs once in the execution order, with
    /// its output at the same position; each node's in-degree counts its
    /// incoming edges that have not fired; a node that has been handed out has
    /// no such edge; and every edge into a completed node comes from a node that
    /// completed before it, with an output that lets the edge be followed.
    pub open spec fn is_run_of(&self, w: WorkflowView) -> bool {
        &&& ids_distinct(w.nodes)
        &&& edges_valid(w)
        &&& self.well_formed()
        &&& self.ids@.len() == w.nodes.len()
        &&& forall|i: int| 0 <= i < w.nodes.len() ==> #[trigger] self.ids@[i]@ == w.nodes[i].id
        &&& self.outputs@.len() == self.execution_order@.len()
        &&& forall|k: int|
            0 <= k < self.outputs@.len() ==> #[trigger] self.outs()[k].node_id == self.order()[k]
        &&& forall|a: int, b: int|
            0 <= a < b < self.execution_order@.len() ==> #[trigger] self.order()[a]
                != #[trigger] self.order()[b]
        &&& forall|i: int|
            0 <= i < w.nodes.len() ==> (#[trigger] self.status@[i] == NodeStatus::Completed)
                == self.order().contains(self.ids@[i]@)
        &&& forall|k: int|
            0 <= k < self.execution_order@.len() ==> has_node(w.nodes, #[trigger] self.order()[k])
        &&& forall|i: int|
            0 <= i < w.nodes.len() ==> #[trigger] self.in_degree@[i] == pending(
                w.edges,
                self.outs(),
                self.ids@[i]@,
            )
        &&& forall|i: int|
            0 <= i < w.nodes.len() && #[trigger] self.status@[i] != NodeStatus::Waiting
                ==> self.in_degree@[i] == 0
        &&& forall|k: int, t: int|
            #![trigger w.edges[t], self.order()[k]]
            0 <= k < self.execution_order@.len() && 0 <= t < w.edges.len() && w.edges[t].to
                == self.order()[k] ==> exists|j: int|
                0 <= j < k && #[trigger] self.order()[j] == w.edges[t].from && take_edge(
                    self.outs()[j].value,
                    w.edges[t].condition,
                )
    }

    /// No node is ready: every waiting node still has an unsatisfied dependency.
    pub open spec fn all_started(&self) -> bool {
        forall|i: int| 0 <= i < self.ids@.len() ==> !#[trigger] is_ready(self.in_degree@, self.status@, i)
    }

    /// The state in which a run of `workflow` starts.
    pub fn new(workflow: &Workflow) -> (r: GraphState)
        ensures
            r.is_initial(workflow@),
    {
        let ghost w = workflow@;
        let mut ids: Vec<NodeId> = Vec::new();
        let mut in_degree: Vec<usize> = Vec::new();
        let mut status: Vec<NodeStatus> = Vec::new();
        let mut i: usize = 0;
        while i < workflow.nodes.len()
            invariant
                w == workflow@,
                i <= workflow.nodes.len(),
                ids@.len() == i,
                in_degree@.len() == i,
                status@.len() == i,
                forall|k: int| 0 <= k < i ==> #[trigger] ids@[k]@ == w.nodes[k].id,
                forall|k: int|
                    0 <= k < i ==> #[trigger] in_degree@[k] == dependencies(w.edges, w.nodes[k].id).len(),
                forall|k: int| 0 <= k < i ==> #[trigger] status@[k] == NodeStatus::Waiting,
            decreases workflow.nodes.len() - i,
        {
            let id = &workflow.nodes[i].id;
            let deps = workflow.get_dependencies(id.as_str());
            assert(w.nodes[i as int].id == id@);
            assert(deps.deep_view().len() == deps@.len());
            let ghost ids0 = ids@;
            let ghost deg0 = in_degree@;
            let ghost st0 = status@;
            ids.push(id.clone());
            in_degree.push(deps.len());
            status.push(NodeStatus::Waiting);
            i = i + 1;
        }
        let outputs: Vec<NodeOutput> = Vec::new();
        let execution_order: Vec<NodeId> = Vec::new();
        GraphState { ids, in_degree, status, outputs, execution_order }
    }

    /// Get all nodes that have no remaining dependencies and have not been
    /// handed out yet, so that they can be executed.
    pub fn get_ready_nodes(&self) -> (r: Vec<NodeId>)
        requires
            self.aligned(),
        ensures
            r.deep_view() == self.ready(),
            forall|i: int|
                0 <= i < self.ids@.len() && #[trigger] is_ready(self.in_degree@, self.status@, i)
                    ==> r.deep_view().contains(self.ids@[i]@),
            self.well_formed() ==> forall|i: int|
                0 <= i < self.ids@.len() && #[trigger] r.deep_view().contains(self.ids@[i]@) ==> is_ready(
                    self.in_degree@,
                    self.status@,
                    i,
                ),
    {
        proof {
            lemma_state_ready_members(*self, self.in_degree@, self.status@);
        }
        let mut out: Vec<NodeId> = Vec::new();
        let mut i: usize = 0;
        while i < self.ids.len()
            invariant
                self.aligned(),
                i <= self.ids.len(),
                out.deep_view() == ready_ids(self.id_seq(), self.in_degree@, self.status@, i as int),
            decreases self.ids.len() - i,
        {
            if self.in_degree[i] == 0 && self.status[i] == NodeStatus::Waiting {
                let ghost before = out.deep_view();
                out.push(self.ids[i].clone());
                assert(out.deep_view() =~= before.push(self.id_seq()[i as int]));
            }
            i = i + 1;
        }
        out
    }

    /// Update state after a job is completed: record its output (which
    /// replaces any earlier output of the node in lookups), mark it
    /// completed, and take one dependency off each node in `deps` (a node once
    /// per occurrence). An id in `deps` that names no node stops the update
    /// with an error; the dependencies before it have been taken off.
    pub fn update(&mut self, node_id: NodeId, output: Value, deps: &Vec<NodeId>) -> (r: Result<
        (),
        WorkflowError,
    >)
        requires
            old(self).well_formed(),
            forall|i: int|
                0 <= i < old(self).ids@.len() ==> count_occ(
                    deps.deep_view().take(known_prefix(old(self).id_seq(), deps.deep_view())),
                    #[trigger] old(self).ids@[i]@,
                ) <= old(self).in_degree@[i],
        ensures
            final(self).well_formed(),
            final(self).ids == old(self).ids,
            final(self).outs() == old(self).outs().push(OutputView { node_id: node_id@, value: output@ }),
            forall|u: Seq<char>|
                #[trigger] lookup(final(self).outs(), u) == if u == node_id@ {
                    Some(output@)
                } else {
                    lookup(old(self).outs(), u)
                },
            final(self).order() == old(self).order().push(node_id@),
            final(self).status@.len() == old(self).status@.len(),
            forall|i: int|
                0 <= i < old(self).status@.len() ==> #[trigger] final(self).status@[i] == if old(self).ids@[i]@ == node_id@ {
                    NodeStatus::Completed
                } else {
                    old(self).status@[i]
                },
            final(self).in_degree@.len() == old(self).in_degree@.len(),
            forall|i: int|
                0 <= i < old(self).in_degree@.len() ==> #[trigger] final(self).in_degree@[i]
                    == old(self).in_degree@[i] - count_occ(
                    deps.deep_view().take(known_prefix(old(self).id_seq(), deps.deep_view())),
                    old(self).ids@[i]@,
                ),
            match r {
                Ok(()) => known_prefix(old(self).id_seq(), deps.deep_view()) == deps@.len(),
                Err(e) => known_prefix(old(self).id_seq(), deps.deep_view()) < deps@.len() && e@
                    == ErrorView::UnknownUpdateNode,
            },
    {
        let ghost ids = self.id_seq();
        let ghost d = deps.deep_view();
        let ghost m = known_prefix(ids, d);
        let ghost deg0 = self.in_degree@;
        let ghost outs0 = self.outs();
        let ghost order0 = self.order();
        let ghost status0 = self.status@;
        let ghost out_view = OutputView { node_id: node_id@, value: output@ };
        self.outputs.push(NodeOutput { node_id: node_id.clone(), value: output });
        assert(self.outs() =~= outs0.push(out_view));
        assert forall|u: Seq<char>| #[trigger] lookup(self.outs(), u) == if u == out_view.node_id {
            Some(out_view.value)
        } else {
            lookup(outs0, u)
        } by {
            lemma_lookup_push(outs0, out_view, u);
        }
        match find_id(&self.ids, node_id.as_str()) {
            Some(k) => {
                self.status.set(k, NodeStatus::Completed);
                assert forall|i: int| 0 <= i < status0.len() implies #[trigger] self.status@[i]
                    == if self.ids@[i]@ == node_id@ {
                    NodeStatus::Completed
                } else {
                    status0[i]
                } by {
                    if i != k && self.ids@[i]@ == node_id@ {
                        if i < k {
                            assert(self.ids@[i]@ != self.ids@[k as int]@);
                        } else {
                            assert(self.ids@[k as int]@ != self.ids@[i]@);
                        }
                    }
                }
            },
            None => {
                assert forall|i: int| 0 <= i < status0.len() implies self.ids@[i]@ != node_id@ by {
                    assert(ids[i] == self.ids@[i]@);
                }
            },
        }
        let ghost status1 = self.status@;
        self.execution_order.push(node_id);
        assert(self.order() =~= order0.push(node_id@));
        let mut j: usize = 0;
        while j < deps.len()
            invariant
                self.well_formed(),
                ids == self.id_seq(),
                d == deps.deep_view(),
                m == known_prefix(ids, d),
                deg0.len() == self.in_degree@.len(),
                forall|i: int| 0 <= i < deg0.len() ==> count_occ(d.take(m), #[trigger] self.ids@[i]@) <= deg0[i],
                j <= deps@.len(),
                forall|t: int| 0 <= t < j ==> ids.contains(#[trigger] d[t]),
                forall|i: int|
                    0 <= i < deg0.len() ==> #[trigger] self.in_degree@[i] == deg0[i] - count_occ(
                        d.take(j as int),
                        self.ids@[i]@,
                    ),
                self.outs() == outs0.push(out_view),
                forall|u: Seq<char>| #[trigger] lookup(self.outs(), u) == if u == out_view.node_id {
                    Some(out_view.value)
                } else {
                    lookup(outs0, u)
                },
                self.order() == order0.push(node_id@),
                self.status@ == status1,
                self.ids == old(self).ids,
                deg0 == old(self).in_degree@,
                outs0 == old(self).outs(),
                order0 == old(self).order(),
                status0 == old(self).status@,
                out_view == (OutputView { node_id: node_id@, value: output@ }),
                status1.len() == status0.len(),
                forall|i: int|
                    0 <= i < status0.len() ==> #[trigger] status1[i] == if self.ids@[i]@ == node_id@ {
                        NodeStatus::Completed
                    } else {
                        status0[i]
                    },
            decreases deps@.len() - j,
        {
            proof {
                assert(d.take(j + 1) =~= d.take(j as int).push(d[j as int]));
            }
            match find_id(&self.ids, deps[j].as_str()) {
                None => {
                    proof {
                        assert(is_first_unknown(ids, d, j as int));
                        let m2 = choose|m2: int| is_first_unknown(ids, d, m2);
                        if m2 < j {
                            assert(ids.contains(d[m2]));
                        }
                        if m2 > j {
                            assert(ids.contains(d[j as int]));
                        }
                        assert(m == j);
                    }
                    return Err(WorkflowError::UnknownUpdateNode);
                },
                Some(k) => {
                    proof {
                        assert(ids[k as int] == d[j as int]);
                        assert(ids.contains(d[j as int]));
                        assert(m >= j + 1) by {
                            if exists|m2: int| is_first_unknown(ids, d, m2) {
                                let m2 = choose|m2: int| is_first_unknown(ids, d, m2);
                                if m2 <= j {
                                    assert(ids.contains(d[m2]));
                                }
                            }
                        }
                        lemma_count_occ_prefix_mono(d, j + 1, m, self.ids@[k as int]@);
                        lemma_count_occ_push(d.take(j as int), d[j as int], self.ids@[k as int]@);
                        assert(count_occ(d.take(m), self.ids@[k as int]@) <= deg0[k as int]);
                    }
                    let cur = self.in_degree[k];
                    self.in_degree.set(k, cur - 1);
                    proof {
                        assert forall|i: int| 0 <= i < deg0.len() implies #[trigger] self.in_degree@[i]
                            == deg0[i] - count_occ(d.take(j + 1), self.ids@[i]@) by {
                            lemma_count_occ_push(d.take(j as int), d[j as int], self.ids@[i]@);
                            if i != k {
                                if self.ids@[i]@ == d[j as int] {
                                    if i < k {
                                        assert(self.ids@[i]@ != self.ids@[k as int]@);
                                    } else {
                                        assert(self.ids@[k as int]@ != self.ids@[i]@);
                                    }
                                }
                            }
                        }
                    }
                },
            }
            j = j + 1;
        }
        proof {
            if exists|m2: int| is_first_unknown(ids, d, m2) {
                let m2 = choose|m2: int| is_first_unknown(ids, d, m2);
                assert(ids.contains(d[m2]));
            }
            assert(m == deps@.len());
        }
        Ok(())
    }

    /// Take the report that the running node `node_id` produced `output`:
    /// record it, take a dependency off each node that a followed edge from it
    /// leads to, and hand out the nodes that became ready (returned in node
    /// order). A report for a node that is not running changes nothing and is
    /// refused.
    pub fn complete(&mut self, workflow: &Workflow, node_id: &NodeId, output: Value) -> (r: Result<
        Vec<NodeId>,
        WorkflowError,
    >)
        requires
            old(self).is_run_of(workflow@),
        ensures
            final(self).is_run_of(workflow@),
            match r {
                Err(e) => {
                    &&& e@ == ErrorView::NodeNotRunning
                    &&& *final(self) == *old(self)
                    &&& forall|i: int|
                        0 <= i < old(self).ids@.len() && #[trigger] old(self).ids@[i]@ == node_id@
                            ==> old(self).status@[i] != NodeStatus::Running
                },
                Ok(started) => {
                    &&& exists|i: int|
                        0 <= i < old(self).ids@.len() && #[trigger] old(self).ids@[i]@ == node_id@
                            && old(self).status@[i] == NodeStatus::Running
                    &&& final(self).ids == old(self).ids
                    &&& final(self).outs() == old(self).outs().push(
                        OutputView { node_id: node_id@, value: output@ },
                    )
                    &&& forall|u: Seq<char>|
                        #[trigger] lookup(final(self).outs(), u) == if u == node_id@ {
                            Some(output@)
                        } else {
                            lookup(old(self).outs(), u)
                        }
                    &&& final(self).order() == old(self).order().push(node_id@)
                    &&& final(self).all_started()
                    &&& final(self).status@.len() == old(self).status@.len()
                    &&& forall|i: int|
                        0 <= i < old(self).status@.len() ==> #[trigger] final(self).status@[i] == if old(self).ids@[i]@ == node_id@ {
                            NodeStatus::Completed
                        } else if old(self).status@[i] == NodeStatus::Waiting && final(self).in_degree@[i] == 0 {
                            NodeStatus::Running
                        } else {
                            old(self).status@[i]
                        }
                    &&& started.deep_view() == ready_ids(
                        old(self).id_seq(),
                        final(self).in_degree@,
                        old(self).status@,
                        old(self).ids@.len() as int,
                    )
                    &&& forall|i: int|
                        0 <= i < old(self).ids@.len() && #[trigger] is_ready(
                            final(self).in_degree@,
                            old(self).status@,
                            i,
                        ) ==> started.deep_view().contains(old(self).ids@[i]@)
                    &&& forall|i: int|
                        0 <= i < old(self).ids@.len() && #[trigger] started.deep_view().contains(old(self).ids@[i]@)
                            ==> is_ready(final(self).in_degree@, old(self).status@, i)
                },
            },
    {
        let ghost w = workflow@;
        let k = match find_id(&self.ids, node_id.as_str()) {
            Some(k) => k,
            None => {
                proof {
                    assert forall|i: int| 0 <= i < self.ids@.len() implies #[trigger] self.ids@[i]@ != node_id@ by {
                        assert(self.id_seq()[i] == self.ids@[i]@);
                    }
                }
                return Err(WorkflowError::NodeNotRunning);
            },
        };
        if self.status[k] != NodeStatus::Running {
            proof {
                assert forall|i: int| 0 <= i < self.ids@.len() && #[trigger] self.ids@[i]@ == node_id@ implies self.status@[i]
                    != NodeStatus::Running by {
                    if i < k {
                        assert(self.ids@[i]@ != self.ids@[k as int]@);
                    } else if i > k {
                        assert(self.ids@[k as int]@ != self.ids@[i]@);
                    }
                }
            }
            return Err(WorkflowError::NodeNotRunning);
        }
        let deps = workflow.get_dependents(node_id.as_str(), &output);
        let ghost s0 = *self;
        let ghost x = node_id@;
        let ghost v = output@;
        proof {
            let d = deps.deep_view();
            // Every dependent is the target of an edge, hence a node.
            assert forall|j: int| 0 <= j < d.len() implies s0.id_seq().contains(#[trigger] d[j]) by {
                lemma_dependents_are_targets(w.edges, x, v, j);
                let t = choose|t: int| 0 <= t < w.edges.len() && #[trigger] w.edges[t].to == d[j];
                assert(has_node(w.nodes, w.edges[t].to));
                let a = choose|a: int| #![trigger w.nodes[a]] 0 <= a < w.nodes.len() && w.nodes[a].id == d[j];
                assert(s0.id_seq()[a] == s0.ids@[a]@);
            }
            if exists|m: int| is_first_unknown(s0.id_seq(), d, m) {
                let m = choose|m: int| is_first_unknown(s0.id_seq(), d, m);
                assert(s0.id_seq().contains(d[m]));
            }
            assert(d.take(d.len() as int) =~= d);
            // x has not completed, so it has no record yet.
            assert(!s0.order().contains(x)) by {
                assert((s0.status@[k as int] == NodeStatus::Completed) == s0.order().contains(s0.ids@[k as int]@));
            }
            assert forall|j: int| 0 <= j < s0.outs().len() implies #[trigger] s0.outs()[j].node_id != x by {
                assert(s0.outs()[j].node_id == s0.order()[j]);
            }
            lemma_lookup_absent(s0.outs(), x);
            assert forall|i: int| 0 <= i < s0.ids@.len() implies count_occ(
                d.take(known_prefix(s0.id_seq(), d)),
                #[trigger] s0.ids@[i]@,
            ) <= s0.in_degree@[i] by {
                let y = s0.ids@[i]@;
                lemma_count_dependents(w.edges, x, v, y);
                lemma_pending_after(w.edges, s0.outs(), x, v, y);
            }
        }
        let res = self.update(node_id.clone(), output, &deps);
        proof {
            assert(deps.deep_view().take(deps@.len() as int) =~= deps.deep_view());
            assert(self.outs().len() == self.outputs@.len());
            assert(s0.outs().len() == s0.outputs@.len());
            assert(self.order().len() == self.execution_order@.len());
            assert(s0.order().len() == s0.execution_order@.len());
            lemma_update_preserves(w, s0, *self, x, v, k as int);
        }
        let ghost s1 = *self;
        assert(res is Ok);
        let started = self.start_ready_nodes();
        proof {
            lemma_ready_ids_agree(s0.id_seq(), s1.in_degree@, s1.status@, s0.status@, s0.ids@.len() as int);
            lemma_state_ready_members(s0, s1.in_degree@, s0.status@);
            lemma_start_preserves(w, s1, *self);
            assert(self.order() == s1.order());
            assert(self.outs() == s1.outs());
        }
        Ok(started)
    }

    /// Hand out every ready node of a run of `workflow`, keeping the run
    /// invariant: each ready node is marked as running, and their ids are
    /// returned in node order. Afterwards no node is ready.
    pub fn start(&mut self, workflow: &Workflow) -> (r: Vec<NodeId>)
        requires
            old(self).is_run_of(workflow@),
        ensures
            final(self).is_run_of(workflow@),
            final(self).all_started(),
            r.deep_view() == old(self).ready(),
            forall|i: int|
                0 <= i < old(self).ids@.len() && #[trigger] is_ready(old(self).in_degree@, old(self).status@, i)
                    ==> r.deep_view().contains(old(self).ids@[i]@),
            forall|i: int|
                0 <= i < old(self).ids@.len() && #[trigger] r.deep_view().contains(old(self).ids@[i]@) ==> is_ready(
                    old(self).in_degree@,
                    old(self).status@,
                    i,
                ),
            final(self).ids == old(self).ids,
            final(self).in_degree == old(self).in_degree,
            final(self).outputs == old(self).outputs,
            final(self).execution_order == old(self).execution_order,
            final(self).status@.len() == old(self).status@.len(),
            forall|i: int|
                0 <= i < old(self).status@.len() ==> #[trigger] final(self).status@[i] == if is_ready(
                    old(self).in_degree@,
                    old(self).status@,
                    i,
                ) {
                    NodeStatus::Running
                } else {
                    old(self).status@[i]
                },
    {
        let ghost s0 = *self;
        let started = self.start_ready_nodes();
        proof {
            lemma_start_preserves(workflow@, s0, *self);
        }
        started
    }

    /// Evaluate node `node_id` of `workflow` in the outputs recorded so far.
    pub fn evaluate_node(&self, workflow: &Workflow, node_id: &str) -> (r: Result<Evaluation, WorkflowError>)
        ensures
            match r {
                Ok(ev) => exists|k: int|
                    is_first_node(workflow@.nodes, node_id@, k) && evaluate(#[trigger] workflow@.nodes[k], self.outs())
                        == Ok::<EvaluationView, ErrorView>(ev@),
                Err(e) => {
                    ||| (!has_node(workflow@.nodes, node_id@) && e@ == ErrorView::NodeNotFound)
                    ||| exists|k: int|
                        is_first_node(workflow@.nodes, node_id@, k) && evaluate(#[trigger] workflow@.nodes[k], self.outs())
                            == Err::<EvaluationView, ErrorView>(e@)
                },
            },
    {
        let node = workflow.get_node(node_id)?;
        node.execute_with_context(&self.outputs)
    }

    /// Hand out every ready node: each is marked as running, and their ids are
    /// returned in node order.
    pub fn start_ready_nodes(&mut self) -> (r: Vec<NodeId>)
        requires
            old(self).aligned(),
        ensures
            r.deep_view() == old(self).ready(),
            forall|i: int|
                0 <= i < old(self).ids@.len() && #[trigger] is_ready(old(self).in_degree@, old(self).status@, i)
                    ==> r.deep_view().contains(old(self).ids@[i]@),
            old(self).well_formed() ==> forall|i: int|
                0 <= i < old(self).ids@.len() && #[trigger] r.deep_view().contains(old(self).ids@[i]@) ==> is_ready(
                    old(self).in_degree@,
                    old(self).status@,
                    i,
                ),
            final(self).ids == old(self).ids,
            final(self).in_degree == old(self).in_degree,
            final(self).outputs == old(self).outputs,
            final(self).execution_order == old(self).execution_order,
            final(self).status@.len() == old(self).status@.len(),
            forall|i: int|
                0 <= i < old(self).status@.len() ==> #[trigger] final(self).status@[i] == if is_ready(
                    old(self).in_degree@,
                    old(self).status@,
                    i,
                ) {
                    NodeStatus::Running
                } else {
                    old(self).status@[i]
                },
    {
        let ghost old_status = self.status@;
        proof {
            lemma_state_ready_members(*self, self.in_degree@, self.status@);
        }
        let mut out: Vec<NodeId> = Vec::new();
        let mut i: usize = 0;
        while i < self.ids.len()
            invariant
                self.aligned(),
                self.ids == old(self).ids,
                self.in_degree == old(self).in_degree,
                self.outputs == old(self).outputs,
                self.execution_order == old(self).execution_order,
                old_status == old(self).status@,
                i <= self.ids.len(),
                self.status@.len() == old_status.len(),
                forall|k: int|
                    0 <= k < i ==> #[trigger] self.status@[k] == if is_ready(
                        self.in_degree@,
                        old_status,
                        k,
                    ) {
                        NodeStatus::Running
                    } else {
                        old_status[k]
                    },
                forall|k: int| i <= k < self.status@.len() ==> #[trigger] self.status@[k] == old_status[k],
                out.deep_view() == ready_ids(self.id_seq(), self.in_degree@, old_status, i as int),
            decreases self.ids.len() - i,
        {
            if self.in_degree[i] == 0 && self.status[i] == NodeStatus::Waiting {
                let ghost before = out.deep_view();
                out.push(self.ids[i].clone());
                assert(out.deep_view() =~= before.push(self.id_seq()[i as int]));
                self.status.set(i, NodeStatus::Running);
            }
            i = i + 1;
        }
        out
    }
}


/// A run starts in a state that satisfies the run invariant.
pub proof fn lemma_initial_is_run(w: WorkflowView, s: GraphState)
    requires
        ids_distinct(w.nodes),
        edges_valid(w),
        s.is_initial(w),
    ensures
        s.is_run_of(w),
{
    assert(s.outs() =~= Seq::<OutputView>::empty());
    assert forall|i: int| 0 <= i < w.nodes.len() implies #[trigger] s.in_degree@[i] == pending(
        w.edges,
        s.outs(),
        s.ids@[i]@,
    ) by {
        lemma_pending_initial(w.edges, w.nodes[i].id);
        assert(s.ids@[i]@ == w.nodes[i].id);
    }
    assert forall|i: int, j: int| 0 <= i < j < s.ids@.len() implies #[trigger] s.ids@[i]@
        != #[trigger] s.ids@[j]@ by {
        assert(s.ids@[i]@ == w.nodes[i].id);
        assert(s.ids@[j]@ == w.nodes[j].id);
    }
    assert forall|i: int| 0 <= i < w.nodes.len() implies (#[trigger] s.status@[i]
        == NodeStatus::Completed) == s.order().contains(s.ids@[i]@) by {
        assert(s.order().len() == 0);
    }
}

/// Handing out the ready nodes keeps the run invariant, and leaves no node ready.
pub proof fn lemma_start_preserves(w: WorkflowView, s0: GraphState, s1: GraphState)
    requires
        s0.is_run_of(w),
        s1.ids == s0.ids,
        s1.in_degree == s0.in_degree,
        s1.outputs == s0.outputs,
        s1.execution_order == s0.execution_order,
        s1.status@.len() == s0.status@.len(),
        forall|i: int|
            0 <= i < s0.status@.len() ==> #[trigger] s1.status@[i] == if is_ready(
                s0.in_degree@,
                s0.status@,
                i,
            ) {
                NodeStatus::Running
            } else {
                s0.status@[i]
            },
    ensures
        s1.is_run_of(w),
        s1.all_started(),
{
    assert(s1.order() == s0.order());
    assert(s1.outs() == s0.outs());
    assert forall|i: int| 0 <= i < w.nodes.len() implies (#[trigger] s1.status@[i]
        == NodeStatus::Completed) == s1.order().contains(s1.ids@[i]@) by {
        assert((s0.status@[i] == NodeStatus::Completed) == s0.order().contains(s0.ids@[i]@));
    }
    assert forall|i: int| 0 <= i < w.nodes.len() && #[trigger] s1.status@[i] != NodeStatus::Waiting
        implies s1.in_degree@[i] == 0 by {
        if !is_ready(s0.in_degree@, s0.status@, i) {
            assert(s0.status@[i] != NodeStatus::Waiting);
        }
    }
    assert forall|i: int| 0 <= i < s1.ids@.len() implies !#[trigger] is_ready(
        s1.in_degree@,
        s1.status@,
        i,
    ) by {
        assert(s1.status@[i] == if is_ready(s0.in_degree@, s0.status@, i) {
            NodeStatus::Running
        } else {
            s0.status@[i]
        });
    }
}

/// Recording the output `v` of the running node `x` and taking one dependency
/// off each of its followed dependents keeps the run invariant.
pub proof fn lemma_update_preserves(
    w: WorkflowView,
    s0: GraphState,
    s1: GraphState,
    x: Seq<char>,
    v: ValueView,
    kx: int,
)
    requires
        s0.is_run_of(w),
        0 <= kx < s0.ids@.len(),
        s0.ids@[kx]@ == x,
        s0.status@[kx] == NodeStatus::Running,
        s1.well_formed(),
        s1.ids == s0.ids,
        s1.outputs@.len() == s0.outputs@.len() + 1,
        s1.execution_order@.len() == s0.execution_order@.len() + 1,
        s1.outs() == s0.outs().push(OutputView { node_id: x, value: v }),
        s1.order() == s0.order().push(x),
        s1.status@.len() == s0.status@.len(),
        forall|i: int|
            0 <= i < s0.status@.len() ==> #[trigger] s1.status@[i] == if s0.ids@[i]@ == x {
                NodeStatus::Completed
            } else {
                s0.status@[i]
            },
        s1.in_degree@.len() == s0.in_degree@.len(),
        forall|i: int|
            0 <= i < s0.in_degree@.len() ==> #[trigger] s1.in_degree@[i] == s0.in_degree@[i]
                - count_occ(dependents(w.edges, x, v), s0.ids@[i]@),
    ensures
        s1.is_run_of(w),
{
    let n = w.nodes.len();
    let len0 = s0.execution_order@.len() as int;
    let outs0 = s0.outs();
    let outs1 = s1.outs();
    let o = OutputView { node_id: x, value: v };
    // x has not completed, so it has no record yet.
    assert(!s0.order().contains(x)) by {
        assert((s0.status@[kx] == NodeStatus::Completed) == s0.order().contains(s0.ids@[kx]@));
    }
    assert forall|j: int| 0 <= j < outs0.len() implies #[trigger] outs0[j].node_id != x by {
        assert(outs0[j].node_id == s0.order()[j]);
    }
    lemma_lookup_absent(outs0, x);
    // In-degrees track the pending edges.
    assert forall|i: int| 0 <= i < n implies #[trigger] s1.in_degree@[i] == pending(
        w.edges,
        outs1,
        s1.ids@[i]@,
    ) by {
        let y = s0.ids@[i]@;
        lemma_count_dependents(w.edges, x, v, y);
        lemma_pending_after(w.edges, outs0, x, v, y);
        assert(s0.in_degree@[i] == pending(w.edges, outs0, y));
    }
    // Handed-out nodes keep a zero in-degree.
    assert forall|i: int| 0 <= i < n && #[trigger] s1.status@[i] != NodeStatus::Waiting implies s1.in_degree@[i]
        == 0 by {
        let y = s0.ids@[i]@;
        lemma_count_dependents(w.edges, x, v, y);
        lemma_pending_after(w.edges, outs0, x, v, y);
        if s0.ids@[i]@ == x {
            assert(i == kx) by {
                if i < kx {
                    assert(s0.ids@[i]@ != s0.ids@[kx]@);
                } else if i > kx {
                    assert(s0.ids@[kx]@ != s0.ids@[i]@);
                }
            }
        }
        assert(s0.status@[i] != NodeStatus::Waiting);
    }
    // Records and order stay aligned.
    assert forall|k: int| 0 <= k < s1.outputs@.len() implies #[trigger] outs1[k].node_id == s1.order()[k] by {
        if k < len0 {
            assert(outs1[k] == outs0[k]);
            assert(outs0[k].node_id == s0.order()[k]);
        }
    }
    // The order never repeats a node.
    assert forall|a: int, b: int| 0 <= a < b < s1.execution_order@.len() implies #[trigger] s1.order()[a]
        != #[trigger] s1.order()[b] by {
        if b < len0 {
            assert(s0.order()[a] != s0.order()[b]);
        } else {
            assert(s1.order()[a] == s0.order()[a]);
            assert(s0.order().contains(s0.order()[a]));
        }
    }
    // Completed nodes are exactly those in the order.
    assert forall|i: int| 0 <= i < n implies (#[trigger] s1.status@[i] == NodeStatus::Completed)
        == s1.order().contains(s1.ids@[i]@) by {
        let y = s0.ids@[i]@;
        assert((s0.status@[i] == NodeStatus::Completed) == s0.order().contains(y));
        if y == x {
            assert(s1.order()[len0] == x);
        } else {
            if s1.order().contains(y) {
                let k = choose|k: int| 0 <= k < s1.order().len() && s1.order()[k] == y;
                assert(k < len0);
                assert(s0.order()[k] == y);
            }
            if s0.order().contains(y) {
                let k = choose|k: int| 0 <= k < s0.order().len() && s0.order()[k] == y;
                assert(s1.order()[k] == y);
            }
        }
    }
    // Every ordered node is a node of the workflow.
    assert forall|k: int| 0 <= k < s1.execution_order@.len() implies has_node(w.nodes, #[trigger] s1.order()[k]) by {
        if k < len0 {
            assert(s1.order()[k] == s0.order()[k]);
        } else {
            assert(w.nodes[kx].id == x);
        }
    }
    // Every edge into an ordered node was followed from an earlier node.
    assert(s0.in_degree@[kx] == 0);
    assert(pending(w.edges, outs0, x) == 0);
    lemma_pending_zero(w.edges, outs0, x);
    assert forall|k: int, t: int|
        #![trigger w.edges[t], s1.order()[k]]
        0 <= k < s1.execution_order@.len() && 0 <= t < w.edges.len() && w.edges[t].to == s1.order()[k]
            implies exists|j: int|
        0 <= j < k && #[trigger] s1.order()[j] == w.edges[t].from && take_edge(
            outs1[j].value,
            w.edges[t].condition,
        ) by {
        if k < len0 {
            assert(s1.order()[k] == s0.order()[k]);
            assert(w.edges[t].to == s0.order()[k]);
            let j = choose|j: int|
                0 <= j < k && #[trigger] s0.order()[j] == w.edges[t].from && take_edge(
                    outs0[j].value,
                    w.edges[t].condition,
                );
            assert(s1.order()[j] == s0.order()[j]);
            assert(outs1[j] == outs0[j]);
        } else {
            assert(s1.order()[k] == x);
            assert(fired(outs0, w.edges[t]));
            let u = w.edges[t].from;
            lemma_lookup_found(outs0, u);
            let j = choose|j: int|
                0 <= j < outs0.len() && #[trigger] outs0[j].node_id == u && outs0[j].value == lookup(
                    outs0,
                    u,
                )->0;
            assert(outs0[j].node_id == s0.order()[j]);
            assert(s1.order()[j] == s0.order()[j]);
            assert(outs1[j] == outs0[j]);
        }
    }
}


/// A node that has been handed out (running or completed) had every one of its
/// incoming edges followed: the edge's source completed with an output that
/// lets the edge be taken. So only the matching branch of a condition runs.
pub proof fn lemma_started_nodes_followed(w: WorkflowView, s: GraphState, i: int)
    requires
        s.is_run_of(w),
        0 <= i < w.nodes.len(),
        s.status@[i] != NodeStatus::Waiting,
    ensures
        forall|t: int| 0 <= t < w.edges.len() && #[trigger] w.edges[t].to == w.nodes[i].id ==> fired(s.outs(), w.edges[t]),
{
    assert(s.in_degree@[i] == 0);
    assert(s.ids@[i]@ == w.nodes[i].id);
    lemma_pending_zero(w.edges, s.outs(), w.nodes[i].id);
}

/// Once the ready nodes have been handed out, a node that still waits has an
/// incoming edge that has not been followed: nothing that could run is left
/// waiting.
pub proof fn lemma_waiting_nodes_blocked(w: WorkflowView, s: GraphState, i: int)
    requires
        s.is_run_of(w),
        s.all_started(),
        0 <= i < w.nodes.len(),
        s.status@[i] == NodeStatus::Waiting,
    ensures
        exists|t: int| 0 <= t < w.edges.len() && #[trigger] w.edges[t].to == w.nodes[i].id && !fired(s.outs(), w.edges[t]),
{
    assert(!is_ready(s.in_degree@, s.status@, i));
    assert(s.ids@[i]@ == w.nodes[i].id);
    lemma_pending_positive(w.edges, s.outs(), w.nodes[i].id);
}

/// Nodes execute in topological order, each at most once: no node occurs twice
/// in the execution order, and each edge into an executed node comes from a
/// node executed before it.
pub proof fn lemma_execution_order_topological(w: WorkflowView, s: GraphState, k: int, t: int)
    requires
        s.is_run_of(w),
        0 <= k < s.execution_order@.len(),
        0 <= t < w.edges.len(),
        w.edges[t].to == s.order()[k],
    ensures
        exists|j: int| 0 <= j < k && #[trigger] s.order()[j] == w.edges[t].from,
        forall|j: int| 0 <= j < s.execution_order@.len() && j != k ==> #[trigger] s.order()[j] != s.order()[k],
{
    let j = choose|j: int|
        0 <= j < k && #[trigger] s.order()[j] == w.edges[t].from && take_edge(s.outs()[j].value, w.edges[t].condition);
    assert(s.order()[j] == w.edges[t].from);
    assert forall|j: int| 0 <= j < s.execution_order@.len() && j != k implies #[trigger] s.order()[j] != s.order()[k] by {
        if j < k {
            assert(s.order()[j] != s.order()[k]);
        } else {
            assert(s.order()[k] != s.order()[j]);
        }
    }
}


/// A run completes at most one node per node of the workflow: the execution
/// order never grows longer than the workflow, so a run ends.
pub proof fn lemma_run_length_bounded(w: WorkflowView, s: GraphState)
    requires
        s.is_run_of(w),
    ensures
        s.execution_order@.len() <= w.nodes.len(),
{
    broadcast use vstd::seq_lib::seq_to_set_is_finite;

    let order = s.order();
    let ids = w.nodes.map_values(|n: NodeView| n.id);
    assert(order.no_duplicates()) by {
        assert forall|a: int, b: int| 0 <= a < order.len() && 0 <= b < order.len() && a != b implies order[a]
            != order[b] by {
            if a < b {
                assert(s.order()[a] != s.order()[b]);
            } else {
                assert(s.order()[b] != s.order()[a]);
            }
        }
    }
    order.unique_seq_to_set();
    assert(order.to_set().subset_of(ids.to_set())) by {
        assert forall|x: Seq<char>| order.to_set().contains(x) implies ids.to_set().contains(x) by {
            let k = choose|k: int| 0 <= k < order.len() && order[k] == x;
            assert(has_node(w.nodes, s.order()[k]));
            let a = choose|a: int| #![trigger w.nodes[a]] 0 <= a < w.nodes.len() && w.nodes[a].id == x;
            assert(ids[a] == x);
        }
    }
    vstd::set_lib::lemma_len_subset(order.to_set(), ids.to_set());
    ids.lemma_cardinality_of_set();
}

/// The number of edges from `u` to `v`.
pub open spec fn edge_count(edges: Seq<EdgeView>, u: Seq<char>, v: Seq<char>) -> nat
    decreases edges.len(),
{
    if edges.len() == 0 {
        0
    } else {
        edge_count(edges.drop_last(), u, v) + if edges.last().from == u && edges.last().to == v {
            1nat
        } else {
            0nat
        }
    }
}

/// `u` occurs among the dependencies of `v` once per edge from `u` to `v`.
pub proof fn lemma_count_dependencies(edges: Seq<EdgeView>, u: Seq<char>, v: Seq<char>)
    ensures
        count_occ(dependencies(edges, v), u) == edge_count(edges, u, v),
    decreases edges.len(),
{
    if edges.len() > 0 {
        lemma_count_dependencies(edges.drop_last(), u, v);
        let e = edges.last();
        if e.to == v {
            lemma_count_occ_push(dependencies(edges.drop_last(), v), e.from, u);
        }
    }
}

/// Followed edges are among all edges; when no edge from `u` to `v` has a
/// condition, all of them are followed.
pub proof fn lemma_taken_within_edges(edges: Seq<EdgeView>, u: Seq<char>, out: ValueView, v: Seq<char>)
    ensures
        taken(edges, u, out, v) <= edge_count(edges, u, v),
        (forall|t: int|
            0 <= t < edges.len() && #[trigger] edges[t].from == u && edges[t].to == v
                ==> edges[t].condition is None) ==> taken(edges, u, out, v) == edge_count(edges, u, v),
    decreases edges.len(),
{
    if edges.len() > 0 {
        lemma_taken_within_edges(edges.drop_last(), u, out, v);
        if forall|t: int|
            0 <= t < edges.len() && #[trigger] edges[t].from == u && edges[t].to == v
                ==> edges[t].condition is None {
            assert forall|t: int|
                0 <= t < edges.drop_last().len() && #[trigger] edges.drop_last()[t].from == u
                    && edges.drop_last()[t].to == v implies edges.drop_last()[t].condition is None by {
                assert(edges.drop_last()[t] == edges[t]);
            }
            assert(edges[edges.len() - 1] == edges.last());
        }
    }
}

/// A node `v` follows `u` as a dependent at most as often as `u` precedes `v`
/// as a dependency, and exactly as often when no edge from `u` to `v` has a
/// condition.
pub proof fn lemma_dependents_within_dependencies(w: WorkflowView, u: Seq<char>, out: ValueView, v: Seq<char>)
    ensures
        count_occ(dependents(w.edges, u, out), v) <= count_occ(dependencies(w.edges, v), u),
        (forall|t: int|
            0 <= t < w.edges.len() && #[trigger] w.edges[t].from == u && w.edges[t].to == v
                ==> w.edges[t].condition is None) ==> count_occ(dependents(w.edges, u, out), v)
            == count_occ(dependencies(w.edges, v), u),
{
    lemma_count_dependents(w.edges, u, out, v);
    lemma_count_dependencies(w.edges, u, v);
    lemma_taken_within_edges(w.edges, u, out, v);
}

} // verus!
