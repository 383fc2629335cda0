//! Paths and cycles in a directed graph over node ids, given by its step
//! relation (`step(u, v)`: there is an edge from `u` to `v`).

use vstd::prelude::*;

verus! {

/// The `k`-th and `k + 1`-th elements of `p` are joined by a step.
pub open spec fn steps_at(step: spec_fn(Seq<char>, Seq<char>) -> bool, p: Seq<Seq<char>>, k: int) -> bool {
    step(p[k], p[k + 1])
}

/// `p` is a non-empty sequence of nodes, each joined to the next by a step.
pub open spec fn is_path(step: spec_fn(Seq<char>, Seq<char>) -> bool, p: Seq<Seq<char>>) -> bool {
    &&& p.len() >= 1
    &&& forall|k: int| 0 <= k < p.len() - 1 ==> #[trigger] steps_at(step, p, k)
}

/// Some node occurs twice in `p`.
pub open spec fn has_repeat(p: Seq<Seq<char>>) -> bool {
    exists|i: int, j: int| 0 <= i < j < p.len() && p[i] == p[j]
}

/// A path that starts at `n` visits some node twice: a cycle can be reached from `n`.
pub open spec fn reaches_cycle(step: spec_fn(Seq<char>, Seq<char>) -> bool, n: Seq<char>) -> bool {
    exists|p: Seq<Seq<char>>| #[trigger] is_path(step, p) && p[0] == n && has_repeat(p)
}

/// A path leads from `u` to `v`.
pub open spec fn reaches(step: spec_fn(Seq<char>, Seq<char>) -> bool, u: Seq<char>, v: Seq<char>) -> bool {
    exists|p: Seq<Seq<char>>| #[trigger] is_path(step, p) && p[0] == u && p.last() == v
}

/// The nodes that can be reached from `u` (`u` included).
pub open spec fn reach_set(step: spec_fn(Seq<char>, Seq<char>) -> bool, u: Seq<char>) -> Set<Seq<char>> {
    Set::new(|v: Seq<char>| reaches(step, u, v))
}

/// A path of at least one step that returns to where it started.
pub open spec fn is_cycle(step: spec_fn(Seq<char>, Seq<char>) -> bool, p: Seq<Seq<char>>) -> bool {
    &&& is_path(step, p)
    &&& p.len() >= 2
    &&& p[0] == p.last()
}

/// The graph has a cycle.
pub open spec fn has_cycle(step: spec_fn(Seq<char>, Seq<char>) -> bool) -> bool {
    exists|p: Seq<Seq<char>>| #[trigger] is_cycle(step, p)
}

/// Every step from a node of `s` ends in `s`.
pub open spec fn closed(step: spec_fn(Seq<char>, Seq<char>) -> bool, s: Set<Seq<char>>) -> bool {
    forall|u: Seq<char>, v: Seq<char>| s.contains(u) && #[trigger] step(u, v) ==> s.contains(v)
}

/// No cycle can be reached from a node of `s`.
pub open spec fn cycle_free(step: spec_fn(Seq<char>, Seq<char>) -> bool, s: Set<Seq<char>>) -> bool {
    forall|u: Seq<char>| s.contains(u) ==> !#[trigger] reaches_cycle(step, u)
}

/// The suffix of a path is a path.
pub proof fn lemma_path_suffix(step: spec_fn(Seq<char>, Seq<char>) -> bool, p: Seq<Seq<char>>, m: int)
    requires
        is_path(step, p),
        0 <= m < p.len(),
    ensures
        is_path(step, p.subrange(m, p.len() as int)),
{
    let q = p.subrange(m, p.len() as int);
    assert forall|k: int| 0 <= k < q.len() - 1 implies #[trigger] steps_at(step, q, k) by {
        assert(steps_at(step, p, k + m));
    }
}

/// A path that leaves a closed set's node stays in the set.
pub proof fn lemma_path_stays(step: spec_fn(Seq<char>, Seq<char>) -> bool, s: Set<Seq<char>>, p: Seq<Seq<char>>)
    requires
        closed(step, s),
        is_path(step, p),
        s.contains(p[0]),
    ensures
        forall|k: int| 0 <= k < p.len() ==> s.contains(#[trigger] p[k]),
    decreases p.len(),
{
    if p.len() > 1 {
        let q = p.drop_last();
        assert forall|k: int| 0 <= k < q.len() - 1 implies #[trigger] steps_at(step, q, k) by {
            assert(steps_at(step, p, k));
        }
        lemma_path_stays(step, s, q);
        assert(steps_at(step, p, p.len() - 2));
        assert(q[p.len() - 2] == p[p.len() - 2]);
        assert(s.contains(p[p.len() - 2]));
        assert forall|k: int| 0 <= k < p.len() implies s.contains(#[trigger] p[k]) by {
            if k < p.len() - 1 {
                assert(p[k] == q[k]);
            }
        }
    }
}

/// What can be reached from a node of a closed set lies in the set.
pub proof fn lemma_reach_closed(step: spec_fn(Seq<char>, Seq<char>) -> bool, s: Set<Seq<char>>, u: Seq<char>)
    requires
        closed(step, s),
        s.contains(u),
    ensures
        reach_set(step, u).subset_of(s),
{
    assert forall|v: Seq<char>| reach_set(step, u).contains(v) implies s.contains(v) by {
        let p = choose|p: Seq<Seq<char>>| #[trigger] is_path(step, p) && p[0] == u && p.last() == v;
        lemma_path_stays(step, s, p);
        assert(s.contains(p[p.len() - 1]));
    }
}

/// Every node reaches itself.
pub proof fn lemma_reaches_self(step: spec_fn(Seq<char>, Seq<char>) -> bool, u: Seq<char>)
    ensures
        reaches(step, u, u),
{
    let p = seq![u];
    assert(is_path(step, p));
}

/// A step followed by a path is a path.
pub proof fn lemma_reaches_prepend(step: spec_fn(Seq<char>, Seq<char>) -> bool, u: Seq<char>, v: Seq<char>, w: Seq<char>)
    requires
        step(u, v),
        reaches(step, v, w),
    ensures
        reaches(step, u, w),
{
    let p = choose|p: Seq<Seq<char>>| #[trigger] is_path(step, p) && p[0] == v && p.last() == w;
    let q = seq![u] + p;
    assert forall|k: int| 0 <= k < q.len() - 1 implies #[trigger] steps_at(step, q, k) by {
        if k > 0 {
            assert(steps_at(step, p, k - 1));
        }
    }
    assert(is_path(step, q));
    assert(q.last() == w);
}

/// A node outside a closed, cycle-free set whose steps all end in the set
/// reaches no cycle.
pub proof fn lemma_no_cycle_from_new(step: spec_fn(Seq<char>, Seq<char>) -> bool, s: Set<Seq<char>>, n: Seq<char>)
    requires
        closed(step, s),
        cycle_free(step, s),
        !s.contains(n),
        forall|v: Seq<char>| #[trigger] step(n, v) ==> s.contains(v),
    ensures
        !reaches_cycle(step, n),
{
    if reaches_cycle(step, n) {
        let p = choose|p: Seq<Seq<char>>| #[trigger] is_path(step, p) && p[0] == n && has_repeat(p);
        let (i, j) = choose|i: int, j: int| 0 <= i < j < p.len() && p[i] == p[j];
        assert(steps_at(step, p, 0));
        assert(s.contains(p[1]));
        lemma_path_suffix(step, p, 1);
        let q = p.subrange(1, p.len() as int);
        if i >= 1 {
            assert(q[i - 1] == q[j - 1]);
            assert(has_repeat(q));
            assert(reaches_cycle(step, p[1]));
        } else {
            lemma_path_stays(step, s, q);
            assert(s.contains(q[j - 1]));
        }
    }
}

/// A path that ends with a step back to one of its own nodes reaches a cycle
/// from its start.
pub proof fn lemma_back_edge(step: spec_fn(Seq<char>, Seq<char>) -> bool, p: Seq<Seq<char>>, j: int)
    requires
        is_path(step, p),
        0 <= j < p.len(),
        step(p.last(), p[j]),
    ensures
        reaches_cycle(step, p[0]),
{
    let q = p.push(p[j]);
    assert forall|k: int| 0 <= k < q.len() - 1 implies #[trigger] steps_at(step, q, k) by {
        if k < p.len() - 1 {
            assert(steps_at(step, p, k));
        }
    }
    assert(is_path(step, q));
    assert(q[j] == q[q.len() - 1]);
    assert(has_repeat(q));
}

/// A graph has a cycle exactly when some path repeats a node.
pub proof fn lemma_cycle_iff_repeat(step: spec_fn(Seq<char>, Seq<char>) -> bool)
    ensures
        has_cycle(step) <==> exists|n: Seq<char>| #[trigger] reaches_cycle(step, n),
{
    if has_cycle(step) {
        let p = choose|p: Seq<Seq<char>>| #[trigger] is_cycle(step, p);
        assert(p[0] == p[p.len() - 1]);
        assert(has_repeat(p));
        assert(reaches_cycle(step, p[0]));
    }
    if exists|n: Seq<char>| #[trigger] reaches_cycle(step, n) {
        let n = choose|n: Seq<char>| #[trigger] reaches_cycle(step, n);
        let p = choose|p: Seq<Seq<char>>| #[trigger] is_path(step, p) && p[0] == n && has_repeat(p);
        let (i, j) = choose|i: int, j: int| 0 <= i < j < p.len() && p[i] == p[j];
        let c = p.subrange(i, j + 1);
        assert forall|k: int| 0 <= k < c.len() - 1 implies #[trigger] steps_at(step, c, k) by {
            assert(steps_at(step, p, k + i));
        }
        assert(is_cycle(step, c));
    }
}

} // verus!
