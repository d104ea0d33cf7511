//! What can be reached along the edges of a graph.

use vstd::prelude::*;

verus! {

/// Each step of `p` follows an edge.
pub open spec fn is_path<N>(edge: spec_fn(N, N) -> bool, p: Seq<N>) -> bool {
    &&& p.len() > 0
    &&& forall|i: int| 0 <= i < p.len() - 1 ==> #[trigger] edge(p[i], p[i + 1])
}

pub open spec fn is_path_to<N>(
    edge: spec_fn(N, N) -> bool,
    roots: Set<N>,
    p: Seq<N>,
    n: N,
) -> bool {
    is_path(edge, p) && roots.contains(p[0]) && p.last() == n
}

/// Some path leads from one of the roots to `n`. A root reaches itself.
pub open spec fn reaches<N>(edge: spec_fn(N, N) -> bool, roots: Set<N>, n: N) -> bool {
    exists|p: Seq<N>| is_path_to(edge, roots, p, n)
}

pub(crate) proof fn root_is_reached<N>(edge: spec_fn(N, N) -> bool, roots: Set<N>, n: N)
    requires
        roots.contains(n),
    ensures
        reaches(edge, roots, n),
{
    let p = seq![n];
    assert(is_path_to(edge, roots, p, n));
}

pub(crate) proof fn next_is_reached<N>(edge: spec_fn(N, N) -> bool, roots: Set<N>, a: N, b: N)
    requires
        reaches(edge, roots, a),
        edge(a, b),
    ensures
        reaches(edge, roots, b),
{
    let p = choose|p: Seq<N>| is_path_to(edge, roots, p, a);
    let q = p.push(b);
    assert forall|i: int| 0 <= i < q.len() - 1 implies #[trigger] edge(q[i], q[i + 1]) by {
        if i < p.len() - 1 {
            assert(edge(p[i], p[i + 1]));
        }
    }
    assert(is_path_to(edge, roots, q, b));
}

/// What holds the roots and every successor of what it holds, holds everything
/// that can be reached.
pub(crate) proof fn closed_set_holds_all<N>(
    edge: spec_fn(N, N) -> bool,
    roots: Set<N>,
    s: Set<N>,
    n: N,
)
    requires
        forall|r: N| #[trigger] roots.contains(r) ==> s.contains(r),
        forall|a: N, b: N| s.contains(a) && #[trigger] edge(a, b) ==> s.contains(b),
        reaches(edge, roots, n),
    ensures
        s.contains(n),
{
    let p = choose|p: Seq<N>| is_path_to(edge, roots, p, n);
    path_stays_inside(edge, roots, s, p, p.len() - 1);
}

proof fn path_stays_inside<N>(
    edge: spec_fn(N, N) -> bool,
    roots: Set<N>,
    s: Set<N>,
    p: Seq<N>,
    i: int,
)
    requires
        forall|r: N| #[trigger] roots.contains(r) ==> s.contains(r),
        forall|a: N, b: N| s.contains(a) && #[trigger] edge(a, b) ==> s.contains(b),
        is_path(edge, p),
        roots.contains(p[0]),
        0 <= i < p.len(),
    ensures
        s.contains(p[i]),
    decreases i,
{
    if i > 0 {
        path_stays_inside(edge, roots, s, p, i - 1);
        assert(edge(p[i - 1], p[i - 1 + 1]));
    }
}

} // verus!
