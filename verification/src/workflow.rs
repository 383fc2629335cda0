//! Workflows: nodes and edges, input references, and validation.

use vstd::prelude::*;
use vstd::hash_map::StringHashMap;
use vstd::hash_set::StringHashSet;
use vstd::string::*;

use crate::error::{ErrorView, WorkflowError};
use crate::graph::{copy_strings, Edge, EdgeView, Node, NodeId, NodeView};
use crate::paths::{
    closed, cycle_free, has_cycle, has_repeat, is_path, lemma_back_edge, lemma_cycle_iff_repeat,
    lemma_no_cycle_from_new, lemma_reach_closed, lemma_reaches_prepend, lemma_reaches_self,
    reach_set, reaches_cycle, steps_at,
};
use crate::state::{lemma_initial_is_run, GraphState};
use crate::value::{Value, ValueView};

verus! {

/// Represents a complete workflow with nodes and edges.
///
/// A node's id is its key: the ids of a well-formed workflow are distinct.
#[derive(Debug)]
pub struct Workflow {
    /// Node definitions
    pub nodes: Vec<Node>,
    /// Edges connecting nodes (defines execution order)
    pub edges: Vec<Edge>,
}

/// The content of a [`Workflow`].
pub struct WorkflowView {
    pub nodes: Seq<NodeView>,
    pub edges: Seq<EdgeView>,
}

impl View for Workflow {
    type V = WorkflowView;

    open spec fn view(&self) -> WorkflowView {
        WorkflowView {
            nodes: nodes_view(self.nodes@),
            edges: self.edges@.map_values(|e: Edge| e@),
        }
    }
}

/// The contents of a list of nodes.
pub open spec fn nodes_view(nodes: Seq<Node>) -> Seq<NodeView> {
    nodes.map_values(|n: Node| n@)
}

/// Some node has the id `id`.
pub open spec fn has_node(nodes: Seq<NodeView>, id: Seq<char>) -> bool {
    exists|i: int| #![trigger nodes[i]] 0 <= i < nodes.len() && nodes[i].id == id
}

/// `k` is the first position of a node with id `id`.
pub open spec fn is_first_node(nodes: Seq<NodeView>, id: Seq<char>, k: int) -> bool {
    &&& 0 <= k < nodes.len()
    &&& nodes[k].id == id
    &&& forall|j: int| 0 <= j < k ==> #[trigger] nodes[j].id != id
}

/// The sources of the edges that lead to `id`, in edge order.
pub open spec fn dependencies(edges: Seq<EdgeView>, id: Seq<char>) -> Seq<Seq<char>>
    decreases edges.len(),
{
    if edges.len() == 0 {
        Seq::empty()
    } else {
        let rest = dependencies(edges.drop_last(), id);
        if edges.last().to == id {
            rest.push(edges.last().from)
        } else {
            rest
        }
    }
}

/// An edge with this condition is followed after a node produced `output`:
/// an unconditional edge always; a conditional one when the output is a
/// boolean equal to whether the condition reads "true".
pub open spec fn take_edge(output: ValueView, condition: Option<Seq<char>>) -> bool {
    match condition {
        None => true,
        Some(expected) => match output {
            ValueView::Bool(b) => b == (expected == "true"@),
            _ => false,
        },
    }
}

/// The targets of the edges that leave `id` and are followed after it produced
/// `output`, in edge order.
pub open spec fn dependents(edges: Seq<EdgeView>, id: Seq<char>, output: ValueView) -> Seq<
    Seq<char>,
>
    decreases edges.len(),
{
    if edges.len() == 0 {
        Seq::empty()
    } else {
        let rest = dependents(edges.drop_last(), id, output);
        let e = edges.last();
        if e.from == id && take_edge(output, e.condition) {
            rest.push(e.to)
        } else {
            rest
        }
    }
}

/// What is wrong with one input reference, if anything.
pub open spec fn reference_error(nodes: Seq<NodeView>, r: Seq<char>) -> Option<ErrorView> {
    match parse_reference(r) {
        None => Some(ErrorView::InvalidInputReference(r)),
        Some((id, _)) => if has_node(nodes, id) {
            None
        } else {
            Some(ErrorView::InvalidInputNode)
        },
    }
}

/// What is wrong with the first faulty reference in `inputs`, if any.
pub open spec fn inputs_error(nodes: Seq<NodeView>, inputs: Seq<Seq<char>>) -> Option<ErrorView>
    decreases inputs.len(),
{
    if inputs.len() == 0 {
        None
    } else {
        match inputs_error(nodes, inputs.drop_last()) {
            Some(e) => Some(e),
            None => reference_error(nodes, inputs.last()),
        }
    }
}

/// Once a prefix of the inputs holds a faulty reference, the whole list
/// reports that reference.
pub proof fn lemma_inputs_error_prefix(nodes: Seq<NodeView>, inputs: Seq<Seq<char>>, k: int)
    requires
        0 <= k <= inputs.len(),
        inputs_error(nodes, inputs.take(k)) is Some,
    ensures
        inputs_error(nodes, inputs) == inputs_error(nodes, inputs.take(k)),
    decreases inputs.len(),
{
    if k < inputs.len() {
        assert(inputs.drop_last().take(k) =~= inputs.take(k));
        lemma_inputs_error_prefix(nodes, inputs.drop_last(), k);
    } else {
        assert(inputs.take(k) =~= inputs);
    }
}

/// A list of input references is accepted exactly when each of its references
/// is; when it is refused, the fault reported is that of its first faulty
/// reference.
pub proof fn lemma_inputs_error_exact(nodes: Seq<NodeView>, inputs: Seq<Seq<char>>)
    ensures
        inputs_error(nodes, inputs) is None <==> forall|k: int|
            0 <= k < inputs.len() ==> #[trigger] reference_error(nodes, inputs[k]) is None,
        inputs_error(nodes, inputs) is Some ==> exists|k: int|
            0 <= k < inputs.len() && #[trigger] reference_error(nodes, inputs[k]) == inputs_error(nodes, inputs)
                && forall|j: int| 0 <= j < k ==> #[trigger] reference_error(nodes, inputs[j]) is None,
    decreases inputs.len(),
{
    if inputs.len() > 0 {
        let init = inputs.drop_last();
        let n = inputs.len() - 1;
        lemma_inputs_error_exact(nodes, init);
        assert forall|k: int| 0 <= k < n implies init[k] == inputs[k] by {}
        match inputs_error(nodes, init) {
            Some(e) => {
                let k = choose|k: int|
                    0 <= k < init.len() && #[trigger] reference_error(nodes, init[k]) == inputs_error(nodes, init)
                        && forall|j: int| 0 <= j < k ==> #[trigger] reference_error(nodes, init[j]) is None;
                assert(reference_error(nodes, inputs[k]) == inputs_error(nodes, inputs));
                assert forall|j: int| 0 <= j < k implies #[trigger] reference_error(nodes, inputs[j]) is None by {
                    assert(reference_error(nodes, init[j]) is None);
                }
            },
            None => {
                assert forall|j: int| 0 <= j < n implies #[trigger] reference_error(nodes, inputs[j]) is None by {
                    assert(reference_error(nodes, init[j]) is None);
                }
                assert(inputs.last() == inputs[n]);
            },
        }
    }
}

/// Check if an edge should be taken based on node output and edge condition.
pub fn should_take_edge(node_output: &Value, edge_condition: &Option<String>) -> (r: bool)
    ensures
        r == take_edge(node_output@, edge_condition.deep_view()),
{
    match edge_condition {
        None => true,
        Some(expected) => match node_output {
            Value::Bool(b) => {
                let t = "true".to_owned();
                let expected_bool = *expected == t;
                *b == expected_bool
            },
            _ => false,
        },
    }
}

/// The position of the first node with id `id`, if any.
pub fn find_node(nodes: &Vec<Node>, id: &str) -> (r: Option<usize>)
    ensures
        match r {
            Some(k) => is_first_node(nodes_view(nodes@), id@, k as int),
            None => !has_node(nodes_view(nodes@), id@),
        },
{
    let ghost view = nodes_view(nodes@);
    let target = id.to_owned();
    let mut k: usize = 0;
    while k < nodes.len()
        invariant
            k <= nodes.len(),
            view == nodes_view(nodes@),
            target@ == id@,
            forall|j: int| 0 <= j < k ==> #[trigger] view[j].id != id@,
        decreases nodes.len() - k,
    {
        if nodes[k].id == target {
            return Some(k);
        }
        k = k + 1;
    }
    None
}

/// No two nodes share an id.
pub open spec fn ids_distinct(nodes: Seq<NodeView>) -> bool {
    forall|i: int, j: int| 0 <= i < j < nodes.len() ==> #[trigger] nodes[i].id != #[trigger] nodes[j].id
}

/// Every edge joins two nodes of the workflow.
pub open spec fn edges_valid(w: WorkflowView) -> bool {
    &&& forall|k: int| 0 <= k < w.edges.len() ==> has_node(w.nodes, #[trigger] w.edges[k].from)
    &&& forall|k: int| 0 <= k < w.edges.len() ==> has_node(w.nodes, #[trigger] w.edges[k].to)
}

/// Some edge leads from `u` to `v`.
pub open spec fn edge_between(edges: Seq<EdgeView>, u: Seq<char>, v: Seq<char>) -> bool {
    exists|k: int| 0 <= k < edges.len() && #[trigger] edges[k].from == u && edges[k].to == v
}

/// The step relation of a list of edges.
pub open spec fn edge_step(edges: Seq<EdgeView>) -> spec_fn(Seq<char>, Seq<char>) -> bool {
    |u: Seq<char>, v: Seq<char>| edge_between(edges, u, v)
}

/// Node `j` has a faulty input reference, or a cycle can be reached from it.
pub open spec fn node_fails(w: WorkflowView, j: int) -> bool {
    inputs_error(w.nodes, w.nodes[j].inputs) is Some || reaches_cycle(
        edge_step(w.edges),
        w.nodes[j].id,
    )
}

/// Node `j` is the first node that fails.
pub open spec fn is_first_failure(w: WorkflowView, j: int) -> bool {
    &&& 0 <= j < w.nodes.len()
    &&& node_fails(w, j)
    &&& forall|t: int| 0 <= t < j ==> !#[trigger] node_fails(w, t)
}

/// Why `w` is rejected, if it is: two nodes share an id; an edge names a
/// missing node; or, at the first node (in node order) that has a faulty input
/// reference or from which a cycle can be reached, its first faulty reference,
/// or else the cycle.
pub open spec fn validation_error(w: WorkflowView) -> Option<ErrorView> {
    if !ids_distinct(w.nodes) {
        Some(ErrorView::DuplicateNode)
    } else if !edges_valid(w) {
        Some(ErrorView::MissingEdgeNode)
    } else if exists|j: int| is_first_failure(w, j) {
        let j = choose|j: int| is_first_failure(w, j);
        match inputs_error(w.nodes, w.nodes[j].inputs) {
            Some(e) => Some(e),
            None => Some(ErrorView::CycleDetected),
        }
    } else {
        None
    }
}

/// Adding the target of edge `k` to its source's successor list extends the
/// successor relation from the first `k` edges to the first `k + 1`.
pub proof fn lemma_adj_insert_edge(
    before: Map<Seq<char>, Vec<String>>,
    after: Map<Seq<char>, Vec<String>>,
    edges: Seq<EdgeView>,
    k: int,
    prior: Seq<Seq<char>>,
)
    requires
        0 <= k < edges.len(),
        forall|u: Seq<char>, v: Seq<char>|
            #![trigger adj_has(before, u, v)]
            #![trigger edge_between(edges.take(k), u, v)]
            adj_has(before, u, v) == edge_between(edges.take(k), u, v),
        before.contains_key(edges[k].from) ==> prior == before[edges[k].from].deep_view(),
        !before.contains_key(edges[k].from) ==> prior.len() == 0,
        after.dom() == before.dom().insert(edges[k].from),
        after[edges[k].from].deep_view() == prior.push(edges[k].to),
        forall|u: Seq<char>| u != edges[k].from && before.contains_key(u) ==> #[trigger] after[u] == before[u],
    ensures
        forall|u: Seq<char>, v: Seq<char>|
            #![trigger adj_has(after, u, v)]
            #![trigger edge_between(edges.take(k + 1), u, v)]
            adj_has(after, u, v) == edge_between(edges.take(k + 1), u, v),
{
    let e = edges[k];
    let small = edges.take(k);
    let big = edges.take(k + 1);
    assert forall|u: Seq<char>, v: Seq<char>| adj_has(after, u, v) == edge_between(big, u, v) by {
        assert(adj_has(before, u, v) == edge_between(small, u, v));
        if edge_between(big, u, v) {
            let t = choose|t: int| 0 <= t < big.len() && #[trigger] big[t].from == u && big[t].to == v;
            if t < k {
                assert(small[t] == big[t]);
                assert(edge_between(small, u, v));
            } else {
                assert(big[t] == e);
            }
        }
        if edge_between(small, u, v) {
            let t = choose|t: int| 0 <= t < small.len() && #[trigger] small[t].from == u && small[t].to == v;
            assert(big[t] == small[t]);
            assert(edge_between(big, u, v));
        }
        if u == e.from {
            assert(big[k] == e);
            let p = after[u].deep_view();
            if adj_has(after, u, v) {
                let q = choose|q: int| 0 <= q < p.len() && p[q] == v;
                if q < prior.len() {
                    assert(prior[q] == v);
                    assert(adj_has(before, u, v));
                } else {
                    assert(v == e.to);
                    assert(edge_between(big, u, v));
                }
            }
            if adj_has(before, u, v) {
                let q = choose|q: int| 0 <= q < prior.len() && prior[q] == v;
                assert(p[q] == v);
            }
            if v == e.to {
                assert(p[prior.len() as int] == v);
            }
        } else {
            if after.contains_key(u) {
                assert(before.contains_key(u));
                assert(after[u] == before[u]);
            }
            if edge_between(big, u, v) {
                let t = choose|t: int| 0 <= t < big.len() && #[trigger] big[t].from == u && big[t].to == v;
                if t == k {
                    assert(big[t] == e);
                }
            }
        }
    }
}

/// Some node fails whenever a node fails: the first failing node exists.
pub proof fn lemma_first_failure_exists(w: WorkflowView, j: int)
    requires
        0 <= j < w.nodes.len(),
        node_fails(w, j),
    ensures
        exists|t: int| is_first_failure(w, t),
    decreases j,
{
    if exists|t: int| 0 <= t < j && #[trigger] node_fails(w, t) {
        let t = choose|t: int| 0 <= t < j && #[trigger] node_fails(w, t);
        lemma_first_failure_exists(w, t);
    } else {
        assert(is_first_failure(w, j));
    }
}

/// Validation accepts exactly the workflows whose node ids are distinct,
/// whose edges join existing nodes, whose input references are all valid, and
/// whose edges form no cycle.
pub proof fn lemma_validation_accepts_exactly(w: WorkflowView)
    ensures
        validation_error(w) is None <==> {
            &&& ids_distinct(w.nodes)
            &&& edges_valid(w)
            &&& forall|j: int| 0 <= j < w.nodes.len() ==> #[trigger] inputs_error(w.nodes, w.nodes[j].inputs) is None
            &&& !has_cycle(edge_step(w.edges))
        },
{
    lemma_cycle_iff_repeat(edge_step(w.edges));
    if validation_error(w) is None {
        assert forall|j: int| 0 <= j < w.nodes.len() implies !#[trigger] node_fails(w, j) by {
            if node_fails(w, j) {
                lemma_first_failure_exists(w, j);
            }
        }
        assert forall|j: int| 0 <= j < w.nodes.len() implies #[trigger] inputs_error(w.nodes, w.nodes[j].inputs) is None by {
            assert(!node_fails(w, j));
        }
        if has_cycle(edge_step(w.edges)) {
            let n = choose|n: Seq<char>| #[trigger] reaches_cycle(edge_step(w.edges), n);
            let p = choose|p: Seq<Seq<char>>| #[trigger] is_path(edge_step(w.edges), p) && p[0] == n && has_repeat(p);
            assert(steps_at(edge_step(w.edges), p, 0));
            let t = choose|t: int| 0 <= t < w.edges.len() && #[trigger] w.edges[t].from == n && w.edges[t].to == p[1];
            assert(has_node(w.nodes, w.edges[t].from));
            let a = choose|a: int| #![trigger w.nodes[a]] 0 <= a < w.nodes.len() && w.nodes[a].id == n;
            assert(node_fails(w, a));
        }
    }
    if ids_distinct(w.nodes) && edges_valid(w) && (forall|j: int| 0 <= j < w.nodes.len() ==> #[trigger] inputs_error(w.nodes, w.nodes[j].inputs) is None) && !has_cycle(edge_step(w.edges)) {
        if exists|t: int| is_first_failure(w, t) {
            let t = choose|t: int| is_first_failure(w, t);
            assert(inputs_error(w.nodes, w.nodes[t].inputs) is None);
            assert(reaches_cycle(edge_step(w.edges), w.nodes[t].id));
        }
    }
}

/// There is only one first failing node.
pub proof fn lemma_first_failure_unique(w: WorkflowView, j: int)
    requires
        is_first_failure(w, j),
    ensures
        (choose|t: int| is_first_failure(w, t)) == j,
{
    let t = choose|t: int| is_first_failure(w, t);
    if t < j {
        assert(!node_fails(w, t));
    }
    if t > j {
        assert(!node_fails(w, j));
    }
}

/// Successor lists: each node id maps to the targets of its outgoing edges.
pub type AdjList = StringHashMap<Vec<NodeId>>;

/// The step relation of an adjacency list.
pub open spec fn adj_step(adj: Map<Seq<char>, Vec<String>>) -> spec_fn(Seq<char>, Seq<char>) -> bool {
    |u: Seq<char>, v: Seq<char>| adj.contains_key(u) && adj[u].deep_view().contains(v)
}

/// The successor list of `u` holds `v`.
pub open spec fn adj_has(adj: Map<Seq<char>, Vec<String>>, u: Seq<char>, v: Seq<char>) -> bool {
    adj.contains_key(u) && adj[u].deep_view().contains(v)
}

/// The nodes of the adjacency list that are neither on the search path nor known safe.
pub open spec fn unvisited(adj: Map<Seq<char>, Vec<String>>, hot: Set<Seq<char>>, safe: Set<Seq<char>>) -> Set<
    Seq<char>,
> {
    adj.dom().difference(hot.union(safe))
}

impl Workflow {
    /// Check that each input is a dot separated reference `id.field` whose id
    /// names a node.
    pub fn check_inputs(inputs: &[String], nodes: &Vec<Node>) -> (r: Result<(), WorkflowError>)
        ensures
            match r {
                Ok(()) => inputs_error(nodes_view(nodes@), inputs.deep_view()) is None,
                Err(e) => inputs_error(nodes_view(nodes@), inputs.deep_view()) == Some(e@),
            },
            r is Ok ==> forall|k: int|
                0 <= k < inputs@.len() ==> parse_reference(#[trigger] inputs@[k]@) is Some && has_node(
                    nodes_view(nodes@),
                    (parse_reference(inputs@[k]@)->0).0,
                ),
    {
        let ghost view = nodes_view(nodes@);
        proof {
            lemma_inputs_error_exact(view, inputs.deep_view());
        }
        let mut i: usize = 0;
        while i < inputs.len()
            invariant
                i <= inputs.len(),
                view == nodes_view(nodes@),
                inputs_error(view, inputs.deep_view().take(i as int)) is None,
            decreases inputs.len() - i,
        {
            proof {
                assert(inputs.deep_view().take(i + 1).drop_last() =~= inputs.deep_view().take(i as int));
            }
            let parsed = parse_input_reference(inputs[i].as_str());
            match parsed {
                Err(e) => {
                    proof {
                        lemma_inputs_error_prefix(view, inputs.deep_view(), i + 1);
                    }
                    return Err(e);
                },
                Ok((id, _field)) => {
                    if find_node(nodes, id.as_str()).is_none() {
                        proof {
                            lemma_inputs_error_prefix(view, inputs.deep_view(), i + 1);
                        }
                        return Err(WorkflowError::InvalidInputNode);
                    }
                },
            }
            i = i + 1;
        }
        assert(inputs.deep_view().take(i as int) =~= inputs.deep_view());
        assert forall|k: int| 0 <= k < inputs@.len() implies parse_reference(#[trigger] inputs@[k]@) is Some
            && has_node(view, (parse_reference(inputs@[k]@)->0).0) by {
            assert(reference_error(view, inputs.deep_view()[k]) is None);
        }
        Ok(())
    }

    /// Depth-first search from `n`. `stack` is the search path that led to `n`;
    /// `hot` holds its nodes, and `safe` the nodes already known to reach no cycle.
    fn visit(
        safe: &mut StringHashSet,
        hot: &mut StringHashSet,
        adj_list: &AdjList,
        n: &NodeId,
        Ghost(stack): Ghost<Seq<Seq<char>>>,
    ) -> (r: Result<(), WorkflowError>)
        requires
            adj_list@.dom().finite(),
            closed(adj_step(adj_list@), old(safe)@),
            cycle_free(adj_step(adj_list@), old(safe)@),
            old(hot)@ == stack.to_set(),
            forall|k: int| 0 <= k < stack.len() ==> !old(safe)@.contains(#[trigger] stack[k]),
            !old(hot)@.contains(n@),
            stack.len() > 0 ==> is_path(adj_step(adj_list@), stack.push(n@)) && !old(safe)@.contains(
                n@,
            ),
        ensures
            old(safe)@.subset_of(final(safe)@),
            final(safe)@.subset_of(old(safe)@ + reach_set(adj_step(adj_list@), n@)),
            forall|v: Seq<char>|
                #[trigger] final(safe)@.contains(v) && !old(safe)@.contains(v) ==> !old(hot)@.contains(v),
            final(hot)@.subset_of(old(hot)@ + reach_set(adj_step(adj_list@), n@)),
            match r {
                Ok(()) => {
                    &&& final(hot)@ == old(hot)@
                    &&& final(safe)@ == old(safe)@ + reach_set(adj_step(adj_list@), n@)
                    &&& closed(adj_step(adj_list@), final(safe)@)
                    &&& cycle_free(adj_step(adj_list@), final(safe)@)
                },
                Err(e) => e@ == ErrorView::CycleDetected && reaches_cycle(
                    adj_step(adj_list@),
                    stack.push(n@)[0],
                ),
            },
        decreases unvisited(adj_list@, old(hot)@, old(safe)@).len(),
    {
        let ghost step = adj_step(adj_list@);
        let ghost safe0 = safe@;
        let ghost hot0 = hot@;
        let ghost path = stack.push(n@);
        proof {
            lemma_reaches_self(step, n@);
            assert(path.to_set() == hot0.insert(n@)) by {
                assert forall|x: Seq<char>| path.to_set().contains(x) <==> hot0.insert(n@).contains(x) by {
                    if path.to_set().contains(x) {
                        let k = choose|k: int| 0 <= k < path.len() && path[k] == x;
                        if k < stack.len() {
                            assert(stack.contains(x));
                        }
                    }
                    if hot0.contains(x) {
                        let k = choose|k: int| 0 <= k < stack.len() && stack[k] == x;
                        assert(path[k] == x);
                    }
                    if x == n@ {
                        assert(path[stack.len() as int] == x);
                    }
                }
            }
            if stack.len() == 0 {
                assert(is_path(step, path));
            }
        }
        hot.insert(n.clone());
        match adj_list.get(n.as_str()) {
            None => {},
            Some(list) => {
                let mut i: usize = 0;
                while i < list.len()
                    invariant
                        step == adj_step(adj_list@),
                        safe0 == old(safe)@,
                        hot0 == old(hot)@,
                        hot0 == stack.to_set(),
                        reach_set(step, n@).contains(n@),
                        adj_list@.dom().finite(),
                        adj_list@.contains_key(n@),
                        *list == adj_list@[n@],
                        path == stack.push(n@),
                        is_path(step, path),
                        path.to_set() == hot0.insert(n@),
                        i <= list.len(),
                        hot@ == hot0.insert(n@),
                        !hot0.contains(n@),
                        stack.len() > 0 ==> !safe0.contains(n@),
                        forall|k: int| 0 <= k < stack.len() ==> !safe0.contains(#[trigger] stack[k]),
                        safe0.subset_of(safe@),
                        safe@.subset_of(safe0 + reach_set(step, n@)),
                        forall|v: Seq<char>|
                            #[trigger] safe@.contains(v) && !safe0.contains(v) ==> !hot0.contains(v) && v != n@,
                        closed(step, safe0),
                        cycle_free(step, safe0),
                        closed(step, safe@),
                        cycle_free(step, safe@),
                        forall|k: int| 0 <= k < i ==> safe@.contains(#[trigger] list@[k]@),
                        unvisited(adj_list@, hot0, safe0).finite(),
                    decreases list.len() - i,
                {
                    let nprime = &list[i];
                    proof {
                        assert(list.deep_view()[i as int] == nprime@);
                        assert(step(n@, nprime@));
                    }
                    if hot.contains(nprime.as_str()) {
                        proof {
                            let k = choose|k: int| 0 <= k < path.len() && path[k] == nprime@;
                            assert(path.last() == n@);
                            lemma_back_edge(step, path, k);
                        }
                        return Err(WorkflowError::CycleDetected);
                    }
                    if !safe.contains(nprime.as_str()) {
                        proof {
                            if safe0.contains(n@) {
                                assert(safe0.contains(nprime@));
                            }
                            assert(!safe0.contains(n@));
                            let before = unvisited(adj_list@, hot0, safe0);
                            let now = unvisited(adj_list@, hot@, safe@);
                            assert(now.subset_of(before));
                            assert(before.contains(n@));
                            now.lemma_subset_not_in_lt(before, n@);
                            assert forall|k: int| 0 <= k < path.len() implies !safe@.contains(
                                #[trigger] path[k],
                            ) by {
                                if k < stack.len() {
                                    assert(path[k] == stack[k]);
                                    if safe@.contains(path[k]) {
                                        assert(hot0.contains(stack[k])) by {
                                            assert(stack.contains(stack[k]));
                                        }
                                    }
                                }
                            }
                            assert(is_path(step, path.push(nprime@))) by {
                                let q = path.push(nprime@);
                                assert forall|k: int| 0 <= k < q.len() - 1 implies #[trigger] steps_at(
                                    step,
                                    q,
                                    k,
                                ) by {
                                    if k < path.len() - 1 {
                                        assert(steps_at(step, path, k));
                                    }
                                }
                            }
                        }
                        let ghost safe1 = safe@;
                        let ghost hot1 = hot@;
                        let res = Self::visit(safe, hot, adj_list, nprime, Ghost(path));
                        proof {
                            assert(path.push(nprime@)[0] == path[0]);
                            assert(path[0] == stack.push(n@)[0]);
                            assert(reach_set(step, nprime@).subset_of(reach_set(step, n@))) by {
                                assert forall|w: Seq<char>| reach_set(step, nprime@).contains(w) implies reach_set(
                                    step,
                                    n@,
                                ).contains(w) by {
                                    lemma_reaches_prepend(step, n@, nprime@, w);
                                }
                            }
                        }
                        match res {
                            Err(e) => {
                                return Err(e);
                            },
                            Ok(()) => {
                                proof {
                                    lemma_reaches_self(step, nprime@);
                                }
                            },
                        }
                    }
                    i = i + 1;
                }
            },
        }
        proof {
            assert forall|v: Seq<char>| #[trigger] step(n@, v) implies safe@.contains(v) by {
                let list = adj_list@[n@];
                let k = choose|k: int| 0 <= k < list.deep_view().len() && list.deep_view()[k] == v;
                assert(list@[k]@ == v);
            }
            if !safe@.contains(n@) {
                lemma_no_cycle_from_new(step, safe@, n@);
            }
        }
        hot.remove(n.as_str());
        safe.insert(n.clone());
        proof {
            assert(hot@ =~= hot0);
            assert(closed(step, safe@));
            assert forall|u: Seq<char>| safe@.contains(u) implies !#[trigger] reaches_cycle(step, u) by {
                if u != n@ {
                    assert(old(safe)@.contains(u) || safe@.contains(u));
                }
            }
            lemma_reach_closed(step, safe@, n@);
            assert(safe@ =~= safe0 + reach_set(step, n@));
        }
        Ok(())
    }

    /// Check for cycles from the given node: the search fails exactly when a
    /// cycle can be reached from `n`. `safe` holds nodes known to reach no
    /// cycle; on success it grows by every node reachable from `n`. The
    /// adjacency list must hold finitely many keys, as every map in memory
    /// does; the search's termination is measured on them.
    pub fn check_cycle(
        safe: &mut StringHashSet,
        hot: &mut StringHashSet,
        adj_list: &AdjList,
        n: &NodeId,
    ) -> (r: Result<(), WorkflowError>)
        requires
            adj_list@.dom().finite(),
            old(hot)@ == Set::<Seq<char>>::empty(),
            closed(adj_step(adj_list@), old(safe)@),
            cycle_free(adj_step(adj_list@), old(safe)@),
        ensures
            old(safe)@.subset_of(final(safe)@),
            final(safe)@.subset_of(old(safe)@ + reach_set(adj_step(adj_list@), n@)),
            final(hot)@.subset_of(reach_set(adj_step(adj_list@), n@)),
            match r {
                Ok(()) => {
                    &&& !reaches_cycle(adj_step(adj_list@), n@)
                    &&& final(hot)@ == Set::<Seq<char>>::empty()
                    &&& final(safe)@ == old(safe)@ + reach_set(adj_step(adj_list@), n@)
                    &&& closed(adj_step(adj_list@), final(safe)@)
                    &&& cycle_free(adj_step(adj_list@), final(safe)@)
                },
                Err(e) => e@ == ErrorView::CycleDetected && reaches_cycle(adj_step(adj_list@), n@),
            },
    {
        proof {
            assert(old(hot)@ == Seq::<Seq<char>>::empty().to_set());
        }
        let r = Self::visit(safe, hot, adj_list, n, Ghost(Seq::empty()));
        proof {
            assert(Seq::<Seq<char>>::empty().push(n@)[0] == n@);
            if r is Ok {
                lemma_reaches_self(adj_step(adj_list@), n@);
            }
            assert(final(hot)@ =~= Set::<Seq<char>>::empty() + final(hot)@);
        }
        r
    }

    /// Validate that this workflow is well-formed: node ids are distinct, edges
    /// name existing nodes, input references are `node.field` with an existing
    /// node, and no cycle can be reached from any node. On success, the state
    /// in which a run of the workflow starts.
    pub fn validate(&self) -> (r: Result<GraphState, WorkflowError>)
        ensures
            match r {
                Ok(s) => validation_error(self@) is None && s.is_initial(self@) && s.is_run_of(self@),
                Err(e) => validation_error(self@) == Some(e@),
            },
            r is Ok ==> forall|j: int, k: int|
                0 <= j < self@.nodes.len() && 0 <= k < self@.nodes[j].inputs.len() ==> parse_reference(
                    #[trigger] self@.nodes[j].inputs[k],
                ) is Some && has_node(self@.nodes, (parse_reference(self@.nodes[j].inputs[k])->0).0),
    {
        let ghost w = self@;
        // Node ids are the keys of the workflow: they must be distinct.
        let mut i: usize = 0;
        while i < self.nodes.len()
            invariant
                w == self@,
                i <= self.nodes.len(),
                forall|a: int, b: int|
                    0 <= a < b < i ==> #[trigger] w.nodes[a].id != #[trigger] w.nodes[b].id,
            decreases self.nodes.len() - i,
        {
            let found = find_node(&self.nodes, self.nodes[i].id.as_str());
            match found {
                Some(k) => {
                    if k != i {
                        proof {
                            assert(w.nodes[k as int].id == w.nodes[i as int].id);
                            assert(!ids_distinct(w.nodes));
                        }
                        return Err(WorkflowError::DuplicateNode);
                    }
                },
                None => {
                    proof {
                        assert(w.nodes[i as int].id == self.nodes@[i as int].id@);
                        assert(has_node(w.nodes, self.nodes@[i as int].id@));
                    }
                },
            }
            i = i + 1;
        }
        assert(ids_distinct(w.nodes));
        // Edges must name existing nodes; collect the successor lists.
        let mut adj_list: AdjList = StringHashMap::new();
        let mut k: usize = 0;
        while k < self.edges.len()
            invariant
                w == self@,
                ids_distinct(w.nodes),
                k <= self.edges.len(),
                adj_list@.dom().finite(),
                forall|t: int| 0 <= t < k ==> has_node(w.nodes, #[trigger] w.edges[t].from),
                forall|t: int| 0 <= t < k ==> has_node(w.nodes, #[trigger] w.edges[t].to),
                forall|u: Seq<char>, v: Seq<char>|
                    #![trigger adj_has(adj_list@, u, v)]
                    #![trigger edge_between(w.edges.take(k as int), u, v)]
                    adj_has(adj_list@, u, v) == edge_between(w.edges.take(k as int), u, v),
            decreases self.edges.len() - k,
        {
            let e = &self.edges[k];
            assert(w.edges[k as int] == e@);
            let from_found = find_node(&self.nodes, e.from.as_str());
            let to_found = find_node(&self.nodes, e.to.as_str());
            if from_found.is_none() || to_found.is_none() {
                proof {
                    assert(!has_node(w.nodes, w.edges[k as int].from) || !has_node(
                        w.nodes,
                        w.edges[k as int].to,
                    ));
                    assert(!edges_valid(w));
                }
                return Err(WorkflowError::MissingEdgeNode);
            }
            proof {
                let a = from_found->0 as int;
                let b = to_found->0 as int;
                assert(w.nodes[a].id == w.edges[k as int].from);
                assert(w.nodes[b].id == w.edges[k as int].to);
                assert(has_node(w.nodes, w.edges[k as int].from));
                assert(has_node(w.nodes, w.edges[k as int].to));
            }
            let ghost before = adj_list@;
            let mut list: Vec<NodeId> = match adj_list.get(e.from.as_str()) {
                Some(l) => copy_strings(l),
                None => Vec::new(),
            };
            let ghost prior = list.deep_view();
            proof {
                if before.contains_key(e.from@) {
                    assert(prior == before[e.from@].deep_view());
                } else {
                    assert(prior =~= Seq::<Seq<char>>::empty());
                }
            }
            list.push(e.to.clone());
            let ghost newlist = list.deep_view();
            assert(newlist =~= prior.push(e.to@));
            adj_list.insert(e.from.clone(), list);
            proof {
                lemma_adj_insert_edge(before, adj_list@, w.edges, k as int, prior);
            }
            k = k + 1;
        }
        assert(w.edges.take(k as int) =~= w.edges);
        assert(adj_step(adj_list@) =~= edge_step(w.edges)) by {
            assert forall|u: Seq<char>, v: Seq<char>| #[trigger] adj_step(adj_list@)(u, v) == edge_step(w.edges)(u, v) by {
                assert(adj_has(adj_list@, u, v) == edge_between(w.edges.take(k as int), u, v));
            }
        }
        assert(edges_valid(w));
        // Inputs must be valid, and no cycle may be reachable from any node.
        let mut safe = StringHashSet::new();
        let mut hot = StringHashSet::new();
        let mut j: usize = 0;
        while j < self.nodes.len()
            invariant
                w == self@,
                ids_distinct(w.nodes),
                edges_valid(w),
                adj_list@.dom().finite(),
                adj_step(adj_list@) == edge_step(w.edges),
                j <= self.nodes.len(),
                hot@ == Set::<Seq<char>>::empty(),
                closed(adj_step(adj_list@), safe@),
                cycle_free(adj_step(adj_list@), safe@),
                forall|t: int| 0 <= t < j ==> !#[trigger] node_fails(w, t),
            decreases self.nodes.len() - j,
        {
            let n = &self.nodes[j];
            assert(w.nodes[j as int] == n@);
            let inputs = n.inputs.as_slice();
            let checked = Self::check_inputs(inputs, &self.nodes);
            assert(inputs.deep_view() =~= n.inputs.deep_view());
            match checked {
                Err(e) => {
                    proof {
                        assert(is_first_failure(w, j as int));
                        lemma_first_failure_unique(w, j as int);
                    }
                    return Err(e);
                },
                Ok(()) => {},
            }
            if !safe.contains(n.id.as_str()) {
                let found = Self::check_cycle(&mut safe, &mut hot, &adj_list, &n.id);
                match found {
                    Err(e) => {
                        proof {
                            assert(is_first_failure(w, j as int));
                            lemma_first_failure_unique(w, j as int);
                        }
                        return Err(e);
                    },
                    Ok(()) => {},
                }
            }
            assert(!node_fails(w, j as int));
            j = j + 1;
        }
        proof {
            if exists|t: int| is_first_failure(w, t) {
                let t = choose|t: int| is_first_failure(w, t);
                assert(!node_fails(w, t));
            }
            assert forall|t: int, k: int|
                0 <= t < w.nodes.len() && 0 <= k < w.nodes[t].inputs.len() implies parse_reference(
                #[trigger] w.nodes[t].inputs[k],
            ) is Some && has_node(w.nodes, (parse_reference(w.nodes[t].inputs[k])->0).0) by {
                assert(!node_fails(w, t));
                lemma_inputs_error_exact(w.nodes, w.nodes[t].inputs);
                assert(reference_error(w.nodes, w.nodes[t].inputs[k]) is None);
            }
        }
        let state = GraphState::new(self);
        proof {
            lemma_initial_is_run(w, state);
        }
        Ok(state)
    }

    /// Get all nodes that this node depends on (incoming edges).
    pub fn get_dependencies(&self, node_id: &str) -> (r: Vec<String>)
        ensures
            r.deep_view() == dependencies(self@.edges, node_id@),
    {
        let target = node_id.to_owned();
        let mut out: Vec<String> = Vec::new();
        let mut i: usize = 0;
        while i < self.edges.len()
            invariant
                i <= self.edges.len(),
                target@ == node_id@,
                out.deep_view() == dependencies(self@.edges.take(i as int), node_id@),
            decreases self.edges.len() - i,
        {
            proof {
                assert(self@.edges.take(i + 1).drop_last() =~= self@.edges.take(i as int));
            }
            if self.edges[i].to == target {
                let ghost before = out.deep_view();
                out.push(self.edges[i].from.clone());
                assert(out.deep_view() =~= before.push(self@.edges[i as int].from));
            }
            i = i + 1;
        }
        assert(self@.edges.take(i as int) =~= self@.edges);
        out
    }

    /// Get all nodes that depend on the given node (outgoing edges), filtered by
    /// edge conditions.
    pub fn get_dependents(&self, node_id: &str, output: &Value) -> (r: Vec<String>)
        ensures
            r.deep_view() == dependents(self@.edges, node_id@, output@),
    {
        let source = node_id.to_owned();
        let mut out: Vec<String> = Vec::new();
        let mut i: usize = 0;
        while i < self.edges.len()
            invariant
                i <= self.edges.len(),
                source@ == node_id@,
                out.deep_view() == dependents(self@.edges.take(i as int), node_id@, output@),
            decreases self.edges.len() - i,
        {
            proof {
                assert(self@.edges.take(i + 1).drop_last() =~= self@.edges.take(i as int));
            }
            let e = &self.edges[i];
            if e.from == source && should_take_edge(output, &e.condition) {
                let ghost before = out.deep_view();
                out.push(e.to.clone());
                assert(out.deep_view() =~= before.push(self@.edges[i as int].to));
            }
            i = i + 1;
        }
        assert(self@.edges.take(i as int) =~= self@.edges);
        out
    }

    /// The node with id `node_id`.
    pub fn get_node(&self, node_id: &str) -> (r: Result<Node, WorkflowError>)
        ensures
            match r {
                Ok(n) => exists|k: int|
                    is_first_node(self@.nodes, node_id@, k) && n@ == #[trigger] self@.nodes[k],
                Err(e) => !has_node(self@.nodes, node_id@) && e@ == ErrorView::NodeNotFound,
            },
    {
        match find_node(&self.nodes, node_id) {
            Some(k) => {
                let n = self.nodes[k].duplicate();
                assert(n@ == self@.nodes[k as int]);
                Ok(n)
            },
            None => Err(WorkflowError::NodeNotFound),
        }
    }
}

/// `k` is the position of the only `.` in `r`.
pub open spec fn is_sole_dot(r: Seq<char>, k: int) -> bool {
    &&& 0 <= k < r.len()
    &&& r[k] == '.'
    &&& forall|j: int| 0 <= j < r.len() && j != k ==> r[j] != '.'
}

/// The two parts of an input reference `node.field`: a reference has parts
/// exactly when it holds one `.`, which separates them.
pub open spec fn parse_reference(r: Seq<char>) -> Option<(Seq<char>, Seq<char>)> {
    if exists|k: int| is_sole_dot(r, k) {
        let k = choose|k: int| is_sole_dot(r, k);
        Some((r.subrange(0, k), r.subrange(k + 1, r.len() as int)))
    } else {
        None
    }
}

/// Joining two dot-free parts with a `.` gives a reference that parses back
/// into the same two parts.
pub proof fn lemma_parse_reference_join(id: Seq<char>, field: Seq<char>)
    requires
        !id.contains('.'),
        !field.contains('.'),
    ensures
        parse_reference(id + seq!['.'] + field) == Some((id, field)),
{
    let r = id + seq!['.'] + field;
    let k = id.len() as int;
    assert forall|j: int| 0 <= j < r.len() && j != k implies r[j] != '.' by {
        if j < k {
            assert(r[j] == id[j]);
        } else {
            assert(r[j] == field[j - k - 1]);
        }
    }
    assert(is_sole_dot(r, k));
    let c = choose|c: int| is_sole_dot(r, c);
    assert(c == k);
    assert(r.subrange(0, k) =~= id);
    assert(r.subrange(k + 1, r.len() as int) =~= field);
}

/// A reference that parses is its two parts joined by a `.`, and neither part
/// holds a `.`; one that holds no `.`, or more than one, does not parse.
pub proof fn lemma_parse_reference_split(r: Seq<char>)
    ensures
        parse_reference(r) matches Some((id, field)) ==> r == id + seq!['.'] + field && !id.contains('.')
            && !field.contains('.'),
        parse_reference(r) is None <==> forall|k: int| 0 <= k < r.len() && r[k] == '.' ==> exists|q: int|
            0 <= q < r.len() && q != k && #[trigger] r[q] == '.',
        !r.contains('.') ==> parse_reference(r) is None,
{
    if exists|k: int| is_sole_dot(r, k) {
        let k = choose|k: int| is_sole_dot(r, k);
        let id = r.subrange(0, k);
        let field = r.subrange(k + 1, r.len() as int);
        assert(r =~= id + seq!['.'] + field);
        assert(!id.contains('.')) by {
            if id.contains('.') {
                let j = choose|j: int| 0 <= j < id.len() && id[j] == '.';
                assert(r[j] == '.');
            }
        }
        assert(!field.contains('.')) by {
            if field.contains('.') {
                let j = choose|j: int| 0 <= j < field.len() && field[j] == '.';
                assert(r[k + 1 + j] == '.');
            }
        }
        assert(r[k] == '.');
        assert(r.contains('.'));
    } else {
        assert forall|k: int| 0 <= k < r.len() && r[k] == '.' implies exists|q: int|
            0 <= q < r.len() && q != k && #[trigger] r[q] == '.' by {
            assert(!is_sole_dot(r, k));
        }
    }
}

/// Parse an input reference like "node1.output" into (node_id, field).
pub fn parse_input_reference(reference: &str) -> (r: Result<(String, String), WorkflowError>)
    ensures
        match r {
            Ok((id, field)) => parse_reference(reference@) == Some((id@, field@)),
            Err(e) => parse_reference(reference@) is None && e@ == ErrorView::InvalidInputReference(
                reference@,
            ),
        },
{
    let len = reference.unicode_len();
    let mut first: Option<usize> = None;
    let mut second = false;
    let mut i: usize = 0;
    while i < len
        invariant
            len == reference@.len(),
            i <= len,
            !second ==> match first {
                None => forall|j: int| 0 <= j < i ==> reference@[j] != '.',
                Some(p) => p < i && reference@[p as int] == '.' && forall|j: int|
                    0 <= j < i && j != p ==> reference@[j] != '.',
            },
            second ==> first is Some && first->0 < len && reference@[first->0 as int] == '.'
                && exists|q: int| 0 <= q < len && q != first->0 && reference@[q] == '.',
        ensures
            !second ==> i == len,
        decreases len - i,
    {
        let c = reference.get_char(i);
        if c == '.' {
            match first {
                None => {
                    first = Some(i);
                },
                Some(p) => {
                    second = true;
                    break ;
                },
            }
        }
        i = i + 1;
    }
    match first {
        Some(p) => {
            if second {
                proof {
                    if exists|k: int| is_sole_dot(reference@, k) {
                        let k = choose|k: int| is_sole_dot(reference@, k);
                        let q = choose|q: int|
                            0 <= q < len && q != p && reference@[q] == '.';
                        assert(reference@[p as int] == '.');
                    }
                }
                Err(WorkflowError::InvalidInputReference(reference.to_owned()))
            } else {
                assert(is_sole_dot(reference@, p as int));
                let id = reference.substring_char(0, p).to_owned();
                let field = reference.substring_char(p + 1, len).to_owned();
                Ok((id, field))
            }
        },
        None => {
            Err(WorkflowError::InvalidInputReference(reference.to_owned()))
        },
    }
}

} // verus!
