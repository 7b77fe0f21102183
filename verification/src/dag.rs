//! Cycle detection on directed graphs given as edge lists.

use vstd::prelude::*;

use crate::fst::phonrule::directed_replace::{count_true, lemma_count_true, lemma_count_zero};
use crate::text::{str_eq, str_to_owned};

verus! {

/// A graph node: nodes are told apart by their view.
pub trait DagNode: View + Sized {
    /// Whether two nodes are the same node.
    fn same_node(&self, other: &Self) -> (b: bool)
        ensures
            b == (self@ == other@);

    /// A copy of the node.
    fn copy_node(&self) -> (c: Self)
        ensures
            c@ == self@;
}

impl DagNode for i32 {
    fn same_node(&self, other: &Self) -> (b: bool) {
        *self == *other
    }

    fn copy_node(&self) -> (c: Self) {
        *self
    }
}

impl DagNode for u32 {
    fn same_node(&self, other: &Self) -> (b: bool) {
        *self == *other
    }

    fn copy_node(&self) -> (c: Self) {
        *self
    }
}

impl DagNode for usize {
    fn same_node(&self, other: &Self) -> (b: bool) {
        *self == *other
    }

    fn copy_node(&self) -> (c: Self) {
        *self
    }
}

impl<'a> DagNode for &'a str {
    fn same_node(&self, other: &Self) -> (b: bool) {
        str_eq(*self, *other)
    }

    fn copy_node(&self) -> (c: Self) {
        *self
    }
}

impl DagNode for String {
    fn same_node(&self, other: &Self) -> (b: bool) {
        str_eq(self.as_str(), other.as_str())
    }

    fn copy_node(&self) -> (c: Self) {
        str_to_owned(self.as_str())
    }
}

/// The edges, each endpoint taken by its view.
pub open spec fn edge_views<T: View>(edges: Seq<(T, T)>) -> Seq<(T::V, T::V)> {
    edges.map_values(|e: (T, T)| (e.0@, e.1@))
}

/// The views of a sequence of nodes.
pub open spec fn node_views<T: View>(s: Seq<T>) -> Seq<T::V> {
    s.map_values(|t: T| t@)
}

/// `x` is an endpoint of edge `e`.
pub open spec fn endpoint_of<V>(e: (V, V), x: V) -> bool {
    e.0 == x || e.1 == x
}

/// `x` is an endpoint of some edge.
pub open spec fn is_node<V>(edges: Seq<(V, V)>, x: V) -> bool {
    exists|k: int| 0 <= k < edges.len() && #[trigger] endpoint_of(edges[k], x)
}

/// `x` occurs in `ord` before position `i`.
pub open spec fn listed_before<V>(ord: Seq<V>, i: int, x: V) -> bool {
    exists|j: int| 0 <= j < i && ord[j] == x
}

/// Some edge into `z` starts in `rest`.
pub open spec fn has_pred_in<V>(edges: Seq<(V, V)>, rest: Seq<V>, z: V) -> bool {
    exists|k: int| 0 <= k < edges.len() && edges[k].1 == z && rest.contains(#[trigger] edges[k].0)
}

/// `ord` lists distinct nodes, and every predecessor of a listed node is
/// listed before it.
pub open spec fn ordered_prefix<V>(edges: Seq<(V, V)>, ord: Seq<V>) -> bool {
    &&& ord.no_duplicates()
    &&& forall|i: int| 0 <= i < ord.len() ==> is_node(edges, #[trigger] ord[i])
    &&& forall|i: int, k: int|
        0 <= i < ord.len() && 0 <= k < edges.len() && #[trigger] edges[k].1 == #[trigger] ord[i]
            ==> listed_before(ord, i, edges[k].0)
}

/// `ord` is a topological order of the graph: it lists every node once, each
/// after all of its predecessors.
pub open spec fn is_topological_order<V>(edges: Seq<(V, V)>, ord: Seq<V>) -> bool {
    &&& ordered_prefix(edges, ord)
    &&& forall|x: V| is_node(edges, x) ==> ord.contains(x)
}

/// `rest` is a non-empty set of distinct nodes, each with a predecessor in
/// `rest`: following predecessors inside it never ends, so the graph has a
/// cycle.
pub open spec fn is_stuck_set<V>(edges: Seq<(V, V)>, rest: Seq<V>) -> bool {
    &&& rest.len() > 0
    &&& rest.no_duplicates()
    &&& forall|i: int| 0 <= i < rest.len() ==> is_node(edges, #[trigger] rest[i])
    &&& forall|i: int| 0 <= i < rest.len() ==> has_pred_in(edges, rest, #[trigger] rest[i])
}

/// A graph with a topological order has no stuck set: the stuck node that
/// comes first in the order would need a stuck predecessor before it.
pub proof fn lemma_order_excludes_stuck<V>(edges: Seq<(V, V)>, ord: Seq<V>, rest: Seq<V>)
    requires
        is_topological_order(edges, ord),
    ensures
        !is_stuck_set(edges, rest),
{
    if is_stuck_set(edges, rest) {
        assert(is_node(edges, rest[0]));
        assert(ord.contains(rest[0]));
        let i = choose|i: int| 0 <= i < ord.len() && ord[i] == rest[0];
        lemma_descend(edges, ord, rest, i);
    }
}

proof fn lemma_descend<V>(edges: Seq<(V, V)>, ord: Seq<V>, rest: Seq<V>, i: int)
    requires
        is_topological_order(edges, ord),
        is_stuck_set(edges, rest),
        0 <= i < ord.len(),
    ensures
        !rest.contains(ord[i]),
    decreases i,
{
    if rest.contains(ord[i]) {
        let r = choose|r: int| 0 <= r < rest.len() && rest[r] == ord[i];
        assert(has_pred_in(edges, rest, rest[r]));
        let k = choose|k: int| 0 <= k < edges.len() && edges[k].1 == rest[r] && rest.contains(#[trigger] edges[k].0);
        assert(edges[k].1 == ord[i]);
        assert(listed_before(ord, i, edges[k].0));
        let j = choose|j: int| 0 <= j < i && ord[j] == edges[k].0;
        lemma_descend(edges, ord, rest, j);
    }
}

proof fn lemma_is_node_push<V>(edges: Seq<(V, V)>, e: (V, V), x: V)
    ensures
        is_node(edges.push(e), x) == (is_node(edges, x) || e.0 == x || e.1 == x),
{
    let t = edges.push(e);
    if is_node(edges, x) {
        let k = choose|k: int| 0 <= k < edges.len() && #[trigger] endpoint_of(edges[k], x);
        assert(t[k] == edges[k]);
        assert(endpoint_of(t[k], x));
    }
    if e.0 == x || e.1 == x {
        assert(t[edges.len() as int] == e);
        assert(endpoint_of(t[edges.len() as int], x));
    }
    if is_node(t, x) {
        let k = choose|k: int| 0 <= k < t.len() && #[trigger] endpoint_of(t[k], x);
        if k < edges.len() {
            assert(t[k] == edges[k]);
            assert(endpoint_of(edges[k], x));
        }
    }
}

/// Position of the node with view `x` in `nodes`, appending a copy of `x`
/// when it is not there yet.
fn find_or_add<T: DagNode>(nodes: &mut Vec<T>, x: &T) -> (i: usize)
    requires
        node_views(old(nodes)@).no_duplicates(),
        old(nodes)@.len() < usize::MAX,
    ensures
        node_views(final(nodes)@).no_duplicates(),
        i < final(nodes)@.len(),
        final(nodes)@[i as int]@ == x@,
        final(nodes)@.len() == old(nodes)@.len() || final(nodes)@.len() == old(nodes)@.len() + 1,
        forall|q: int| 0 <= q < old(nodes)@.len() ==> (#[trigger] final(nodes)@[q])@ == old(nodes)@[q]@,
        forall|q: int| old(nodes)@.len() <= q < final(nodes)@.len() ==> (#[trigger] final(nodes)@[q])@ == x@,
{
    let mut j: usize = 0;
    while j < nodes.len()
        invariant
            j <= nodes@.len(),
            nodes@ == old(nodes)@,
            node_views(old(nodes)@).no_duplicates(),
            forall|q: int| 0 <= q < j ==> (#[trigger] nodes@[q])@ != x@,
        decreases nodes@.len() - j,
    {
        if nodes[j].same_node(x) {
            return j;
        }
        j = j + 1;
    }
    let ghost before = node_views(nodes@);
    proof {
        assert forall|q: int| 0 <= q < before.len() implies before[q] != x@ by {
            assert(before[q] == nodes@[q]@);
        }
    }
    nodes.push(x.copy_node());
    proof {
        assert(node_views(nodes@) =~= before.push(x@));
    }
    nodes.len() - 1
}

/// Whether every edge into node `v` comes from a node marked in `done`.
fn preds_done(eidx: &Vec<(usize, usize)>, done: &Vec<bool>, v: usize) -> (b: bool)
    requires
        forall|k: int| 0 <= k < eidx@.len() ==> (#[trigger] eidx@[k]).0 < done@.len(),
    ensures
        b == forall|k: int| 0 <= k < eidx@.len() && (#[trigger] eidx@[k]).1 == v ==> done@[eidx@[k].0 as int],
{
    let mut k: usize = 0;
    while k < eidx.len()
        invariant
            k <= eidx@.len(),
            forall|q: int| 0 <= q < eidx@.len() ==> (#[trigger] eidx@[q]).0 < done@.len(),
            forall|q: int| 0 <= q < k && (#[trigger] eidx@[q]).1 == v ==> done@[eidx@[q].0 as int],
        decreases eidx@.len() - k,
    {
        let (u, w) = eidx[k];
        if w == v && !done[u] {
            return false;
        }
        k = k + 1;
    }
    true
}

/// Some edge leads from `a` to `b`.
pub open spec fn has_edge<V>(edges: Seq<(V, V)>, a: V, b: V) -> bool {
    exists|k: int| 0 <= k < edges.len() && #[trigger] edges[k] == (a, b)
}

/// Step `i` of `p`, from `p[i]` to `p[i + 1]`, follows an edge.
pub open spec fn walk_step<V>(edges: Seq<(V, V)>, p: Seq<V>, i: int) -> bool {
    has_edge(edges, p[i], p[i + 1])
}

/// `p` is a walk over at least one edge: each node is followed by a
/// successor.
pub open spec fn is_walk<V>(edges: Seq<(V, V)>, p: Seq<V>) -> bool {
    &&& p.len() >= 2
    &&& forall|i: int| 0 <= i < p.len() - 1 ==> #[trigger] walk_step(edges, p, i)
}

/// Some walk over at least one edge leads from `a` to `b`.
pub open spec fn leads_to<V>(edges: Seq<(V, V)>, a: V, b: V) -> bool {
    exists|p: Seq<V>| #[trigger] is_walk(edges, p) && p[0] == a && p.last() == b
}

/// `x` lies on a cycle: some walk over at least one edge leads from `x`
/// back to `x`.
pub open spec fn on_cycle<V>(edges: Seq<(V, V)>, x: V) -> bool {
    leads_to(edges, x, x)
}

proof fn lemma_walk_push<V>(edges: Seq<(V, V)>, p: Seq<V>, b: V)
    requires
        is_walk(edges, p),
        has_edge(edges, p.last(), b),
    ensures
        is_walk(edges, p.push(b)),
        p.push(b)[0] == p[0],
        p.push(b).last() == b,
{
    let q = p.push(b);
    assert forall|i: int| 0 <= i < q.len() - 1 implies #[trigger] walk_step(edges, q, i) by {
        if i < p.len() - 1 {
            assert(walk_step(edges, p, i));
            assert(q[i] == p[i] && q[i + 1] == p[i + 1]);
        } else {
            assert(q[i] == p.last());
            assert(q[i + 1] == b);
        }
    }
}

/// A node on a cycle is an endpoint of an edge.
proof fn lemma_cycle_member_is_node<V>(edges: Seq<(V, V)>, x: V)
    requires
        on_cycle(edges, x),
    ensures
        is_node(edges, x),
{
    let p = choose|p: Seq<V>| #[trigger] is_walk(edges, p) && p[0] == x && p.last() == x;
    assert(walk_step(edges, p, 0));
    let k = choose|k: int| 0 <= k < edges.len() && #[trigger] edges[k] == (p[0], p[1]);
    assert(endpoint_of(edges[k], x));
}

/// Going back along a walk whose node `p[i]` is listed at `pos` in an
/// ordered prefix, the first node is listed at least `i` places earlier.
proof fn lemma_walk_back<V>(edges: Seq<(V, V)>, ord: Seq<V>, p: Seq<V>, i: int, pos: int)
    requires
        ordered_prefix(edges, ord),
        is_walk(edges, p),
        0 <= i < p.len(),
        0 <= pos < ord.len(),
        ord[pos] == p[i],
    ensures
        exists|q: int| 0 <= q <= pos - i && ord[q] == p[0],
    decreases i,
{
    if i > 0 {
        assert(walk_step(edges, p, i - 1));
        let k = choose|k: int| 0 <= k < edges.len() && #[trigger] edges[k] == (p[i - 1], p[i]);
        assert(edges[k].1 == ord[pos]);
        assert(listed_before(ord, pos, edges[k].0));
        let q = choose|q: int| 0 <= q < pos && ord[q] == edges[k].0;
        lemma_walk_back(edges, ord, p, i - 1, q);
    } else {
        assert(ord[pos] == p[0]);
    }
}

/// A node listed in an ordered prefix lies on no cycle.
proof fn lemma_ordered_not_on_cycle<V>(edges: Seq<(V, V)>, ord: Seq<V>, x: V)
    requires
        ordered_prefix(edges, ord),
        ord.contains(x),
    ensures
        !on_cycle(edges, x),
{
    if on_cycle(edges, x) {
        let p = choose|p: Seq<V>| #[trigger] is_walk(edges, p) && p[0] == x && p.last() == x;
        let px = choose|px: int| 0 <= px < ord.len() && ord[px] == x;
        lemma_walk_back(edges, ord, p, p.len() - 1, px);
        let q = choose|q: int| 0 <= q <= px - (p.len() - 1) && ord[q] == p[0];
        assert(ord[q] == ord[px] && q != px);
    }
}

/// Every node that a walk from `x` reaches is marked, when the marks hold
/// the successors of `x` and are closed under edges.
proof fn lemma_closed_walk<V>(
    ev: Seq<(V, V)>,
    nv: Seq<V>,
    eidx: Seq<(usize, usize)>,
    mark: Seq<bool>,
    x: int,
    p: Seq<V>,
    i: int,
)
    requires
        nv.no_duplicates(),
        mark.len() == nv.len(),
        0 <= x < nv.len(),
        eidx.len() == ev.len(),
        forall|q: int| 0 <= q < eidx.len() ==> (#[trigger] eidx[q]).0 < nv.len() && eidx[q].1 < nv.len(),
        forall|q: int| 0 <= q < eidx.len() ==> nv[(#[trigger] eidx[q]).0 as int] == ev[q].0 && nv[eidx[q].1 as int] == ev[q].1,
        forall|q: int| 0 <= q < eidx.len() && (#[trigger] eidx[q]).0 == x ==> mark[eidx[q].1 as int],
        forall|q: int| 0 <= q < eidx.len() && mark[(#[trigger] eidx[q]).0 as int] ==> mark[eidx[q].1 as int],
        is_walk(ev, p),
        p[0] == nv[x],
        1 <= i < p.len(),
    ensures
        exists|j: int| 0 <= j < nv.len() && nv[j] == p[i] && mark[j],
    decreases i,
{
    assert(walk_step(ev, p, i - 1));
    let k = choose|k: int| 0 <= k < ev.len() && #[trigger] ev[k] == (p[i - 1], p[i]);
    let e = eidx[k];
    assert(nv[e.1 as int] == p[i]);
    if i == 1 {
        assert(nv[e.0 as int] == nv[x]);
        assert(e.0 == x);
    } else {
        lemma_closed_walk(ev, nv, eidx, mark, x, p, i - 1);
        let j = choose|j: int| 0 <= j < nv.len() && nv[j] == p[i - 1] && mark[j];
        assert(nv[e.0 as int] == nv[j]);
        assert(e.0 == j);
    }
    assert(mark[e.1 as int]);
}

/// Whether node `x` lies on a cycle: marks the nodes that walks from `x`
/// reach, until no edge leads from a marked node to an unmarked one, and
/// looks whether `x` is marked.
fn on_cycle_at<V>(
    eidx: &Vec<(usize, usize)>,
    n: usize,
    x: usize,
    Ghost(ev): Ghost<Seq<(V, V)>>,
    Ghost(nv): Ghost<Seq<V>>,
) -> (b: bool)
    requires
        nv.len() == n,
        nv.no_duplicates(),
        x < n,
        eidx@.len() == ev.len(),
        forall|q: int| 0 <= q < eidx@.len() ==> (#[trigger] eidx@[q]).0 < n && eidx@[q].1 < n,
        forall|q: int| 0 <= q < eidx@.len() ==> nv[(#[trigger] eidx@[q]).0 as int] == ev[q].0 && nv[eidx@[q].1 as int] == ev[q].1,
    ensures
        b == on_cycle(ev, nv[x as int]),
{
    let mut mark: Vec<bool> = Vec::new();
    let mut i: usize = 0;
    while i < n
        invariant
            i <= n,
            mark@.len() == i,
            forall|j: int| 0 <= j < i ==> !#[trigger] mark@[j],
        decreases n - i,
    {
        mark.push(false);
        i = i + 1;
    }
    proof {
        assert forall|m: int| 0 <= m <= mark@.len() implies count_true(#[trigger] mark@.take(m)) == 0 by {
            lemma_count_zero(mark@, m);
        }
        assert(mark@.take(mark@.len() as int) =~= mark@);
    }
    let ghost a = nv[x as int];
    let mut count: usize = 0;
    let mut k: usize = 0;
    while k < eidx.len()
        invariant
            nv.len() == n,
            x < n,
            a == nv[x as int],
            eidx@.len() == ev.len(),
            forall|q: int| 0 <= q < eidx@.len() ==> (#[trigger] eidx@[q]).0 < n && eidx@[q].1 < n,
            forall|q: int| 0 <= q < eidx@.len() ==> nv[(#[trigger] eidx@[q]).0 as int] == ev[q].0 && nv[eidx@[q].1 as int] == ev[q].1,
            k <= eidx@.len(),
            mark@.len() == n,
            count == count_true(mark@),
            forall|w: int| 0 <= w < n && #[trigger] mark@[w] ==> leads_to(ev, a, nv[w]),
            forall|q: int| 0 <= q < k && (#[trigger] eidx@[q]).0 == x ==> mark@[eidx@[q].1 as int],
        decreases eidx@.len() - k,
    {
        let (u, w) = eidx[k];
        if u == x && !mark[w] {
            proof {
                lemma_count_true(mark@, w as int);
                let p = seq![a, nv[w as int]];
                assert(ev[k as int] == (a, nv[w as int]));
                assert(walk_step(ev, p, 0));
                assert(is_walk(ev, p));
            }
            mark.set(w, true);
            count = count + 1;
        }
        k = k + 1;
    }
    let mut changed = true;
    while changed
        invariant
            nv.len() == n,
            nv.no_duplicates(),
            x < n,
            a == nv[x as int],
            eidx@.len() == ev.len(),
            forall|q: int| 0 <= q < eidx@.len() ==> (#[trigger] eidx@[q]).0 < n && eidx@[q].1 < n,
            forall|q: int| 0 <= q < eidx@.len() ==> nv[(#[trigger] eidx@[q]).0 as int] == ev[q].0 && nv[eidx@[q].1 as int] == ev[q].1,
            mark@.len() == n,
            count == count_true(mark@),
            forall|w: int| 0 <= w < n && #[trigger] mark@[w] ==> leads_to(ev, a, nv[w]),
            forall|q: int| 0 <= q < eidx@.len() && (#[trigger] eidx@[q]).0 == x ==> mark@[eidx@[q].1 as int],
            !changed ==> forall|q: int| 0 <= q < eidx@.len() && mark@[(#[trigger] eidx@[q]).0 as int] ==> mark@[eidx@[q].1 as int],
        decreases 2 * (n - count) + (if changed { 1int } else { 0int }),
    {
        proof {
            lemma_count_true(mark@, 0);
        }
        changed = false;
        let ghost c0 = count;
        let mut k: usize = 0;
        while k < eidx.len()
            invariant
                nv.len() == n,
                x < n,
                a == nv[x as int],
                eidx@.len() == ev.len(),
                forall|q: int| 0 <= q < eidx@.len() ==> (#[trigger] eidx@[q]).0 < n && eidx@[q].1 < n,
                forall|q: int| 0 <= q < eidx@.len() ==> nv[(#[trigger] eidx@[q]).0 as int] == ev[q].0 && nv[eidx@[q].1 as int] == ev[q].1,
                k <= eidx@.len(),
                mark@.len() == n,
                count == count_true(mark@),
                count >= c0,
                c0 <= n,
                changed <==> count > c0,
                forall|w: int| 0 <= w < n && #[trigger] mark@[w] ==> leads_to(ev, a, nv[w]),
                forall|q: int| 0 <= q < eidx@.len() && (#[trigger] eidx@[q]).0 == x ==> mark@[eidx@[q].1 as int],
                !changed ==> forall|q: int| 0 <= q < k && mark@[(#[trigger] eidx@[q]).0 as int] ==> mark@[eidx@[q].1 as int],
            decreases eidx@.len() - k,
        {
            let (u, w) = eidx[k];
            if mark[u] && !mark[w] {
                proof {
                    lemma_count_true(mark@, w as int);
                    let p = choose|p: Seq<V>| #[trigger] is_walk(ev, p) && p[0] == a && p.last() == nv[u as int];
                    assert(ev[k as int] == (nv[u as int], nv[w as int]));
                    lemma_walk_push(ev, p, nv[w as int]);
                }
                mark.set(w, true);
                count = count + 1;
                changed = true;
            }
            k = k + 1;
        }
        proof {
            lemma_count_true(mark@, 0);
        }
    }
    proof {
        if on_cycle(ev, a) {
            let p = choose|p: Seq<V>| #[trigger] is_walk(ev, p) && p[0] == a && p.last() == a;
            lemma_closed_walk(ev, nv, eidx@, mark@, x as int, p, p.len() - 1);
            let j = choose|j: int| 0 <= j < nv.len() && nv[j] == p[p.len() - 1] && mark@[j];
            assert(nv[j] == nv[x as int]);
        }
    }
    mark[x]
}

/// Check that the graph given by `edges` has no cycle.
///
/// Returns `Ok` with every node, each after all of its predecessors, when
/// the graph is acyclic. Otherwise returns `Err` with the cycle members:
/// each node that some walk leads from back to itself, listed once.
pub fn check_dag<T: DagNode>(edges: &[(T, T)]) -> (r: Result<Vec<T>, Vec<T>>)
    requires
        2 * edges@.len() < usize::MAX,
    ensures
        match r {
            Ok(ord) => is_topological_order(edge_views(edges@), node_views(ord@)),
            Err(cyc) => {
                &&& node_views(cyc@).no_duplicates()
                &&& forall|x: T::V| node_views(cyc@).contains(x) <==> on_cycle(edge_views(edges@), x)
            },
        },
        r is Ok <==> exists|ord: Seq<T::V>| is_topological_order(edge_views(edges@), ord),
{
    let ghost ev = edge_views(edges@);
    // Number the nodes.
    let mut nodes: Vec<T> = Vec::new();
    let mut eidx: Vec<(usize, usize)> = Vec::new();
    let mut k: usize = 0;
    while k < edges.len()
        invariant
            2 * edges@.len() < usize::MAX,
            ev == edge_views(edges@),
            k <= edges@.len(),
            eidx@.len() == k,
            nodes@.len() <= 2 * k,
            node_views(nodes@).no_duplicates(),
            forall|q: int| 0 <= q < k ==> (#[trigger] eidx@[q]).0 < nodes@.len() && eidx@[q].1 < nodes@.len(),
            forall|q: int| 0 <= q < k ==> nodes@[(#[trigger] eidx@[q]).0 as int]@ == ev[q].0 && nodes@[eidx@[q].1 as int]@ == ev[q].1,
            forall|x: T::V| node_views(nodes@).contains(x) <==> is_node(ev.take(k as int), x),
        decreases edges@.len() - k,
    {
        let ghost n0 = nodes@;
        let a = find_or_add(&mut nodes, &edges[k].0);
        let ghost n1 = nodes@;
        let b = find_or_add(&mut nodes, &edges[k].1);
        proof {
            let xa = edges@[k as int].0@;
            let xb = edges@[k as int].1@;
            assert(ev[k as int] == (xa, xb));
            assert forall|q: int| 0 <= q < n0.len() implies #[trigger] nodes@[q]@ == n0[q]@ by {
                assert(n1[q]@ == n0[q]@);
            }
            assert(nodes@[a as int]@ == xa);
            let t0 = ev.take(k as int);
            let t1 = ev.take(k + 1);
            assert(ev.len() == edges@.len());
            assert(t0.len() == k);
            assert(t1 == t0.push(ev[k as int]));
            assert forall|e: int| 0 <= e < k implies #[trigger] t1[e] == t0[e] by {}
            assert forall|x: T::V| node_views(nodes@).contains(x) <==> is_node(t1, x) by {
                lemma_is_node_push(t0, ev[k as int], x);
                if node_views(nodes@).contains(x) {
                    let p = choose|p: int| 0 <= p < node_views(nodes@).len() && node_views(nodes@)[p] == x;
                    assert(nodes@[p]@ == x);
                    if p < n0.len() {
                        assert(n0[p]@ == x);
                        assert(node_views(n0)[p] == x);
                        assert(node_views(n0).contains(x));
                    } else if p < n1.len() {
                        assert(n1[p]@ == xa);
                    }
                } else if is_node(t1, x) {
                    if x == xa {
                        assert(node_views(nodes@)[a as int] == x);
                    } else if x == xb {
                        assert(node_views(nodes@)[b as int] == x);
                    } else {
                        assert(node_views(n0).contains(x));
                        let p = choose|p: int| 0 <= p < node_views(n0).len() && node_views(n0)[p] == x;
                        assert(nodes@[p]@ == n0[p]@);
                        assert(node_views(nodes@)[p] == x);
                    }
                }
            }
        }
        eidx.push((a, b));
        proof {
            assert forall|q: int| 0 <= q < k + 1 implies nodes@[(#[trigger] eidx@[q]).0 as int]@ == ev[q].0 && nodes@[eidx@[q].1 as int]@ == ev[q].1 by {
                if q < k {
                    assert(nodes@[eidx@[q].0 as int]@ == n0[eidx@[q].0 as int]@);
                    assert(nodes@[eidx@[q].1 as int]@ == n0[eidx@[q].1 as int]@);
                }
            }
        }
        k = k + 1;
    }
    proof {
        assert(ev.take(edges@.len() as int) == ev);
    }
    let n = nodes.len();
    let ghost nv = node_views(nodes@);
    // Repeatedly take every node whose predecessors are all taken.
    let mut done: Vec<bool> = Vec::new();
    let mut i: usize = 0;
    while i < n
        invariant
            i <= n,
            n == nodes@.len(),
            done@.len() == i,
            forall|q: int| 0 <= q < i ==> !#[trigger] done@[q],
        decreases n - i,
    {
        done.push(false);
        i = i + 1;
    }
    let mut order: Vec<usize> = Vec::new();
    let mut progress = true;
    while progress
        invariant
            !progress ==> forall|w: int| 0 <= w < n && !(#[trigger] done@[w]) ==> exists|q: int|
                0 <= q < eidx@.len() && eidx@[q].1 == w && !done@[eidx@[q].0 as int],
            n == nodes@.len(),
            nv == node_views(nodes@),
            nv.no_duplicates(),
            ev == edge_views(edges@),
            eidx@.len() == edges@.len(),
            done@.len() == n,
            order@.len() <= n,
            order@.no_duplicates(),
            forall|q: int| 0 <= q < eidx@.len() ==> (#[trigger] eidx@[q]).0 < n && eidx@[q].1 < n,
            forall|q: int| 0 <= q < eidx@.len() ==> nv[(#[trigger] eidx@[q]).0 as int] == ev[q].0 && nv[eidx@[q].1 as int] == ev[q].1,
            forall|x: T::V| nv.contains(x) <==> is_node(ev, x),
            forall|p: int| 0 <= p < order@.len() ==> (#[trigger] order@[p]) < n,
            forall|v: int| 0 <= v < n ==> (#[trigger] done@[v] <==> order@.contains(v as usize)),
            forall|p: int, q: int|
                0 <= p < order@.len() && 0 <= q < eidx@.len() && #[trigger] eidx@[q].1 == #[trigger] order@[p]
                    ==> listed_before(order@, p, eidx@[q].0),
        decreases 2 * (n - order@.len()) + (if progress { 1int } else { 0int }),
    {
        progress = false;
        let ghost len0 = order@.len();
        let mut v: usize = 0;
        while v < n
            invariant
                n == nodes@.len(),
                done@.len() == n,
                order@.len() <= n,
                order@.len() >= len0,
                progress <==> order@.len() > len0,
                order@.no_duplicates(),
                v <= n,
                forall|q: int| 0 <= q < eidx@.len() ==> (#[trigger] eidx@[q]).0 < n && eidx@[q].1 < n,
                forall|p: int| 0 <= p < order@.len() ==> (#[trigger] order@[p]) < n,
                forall|w: int| 0 <= w < n ==> (#[trigger] done@[w] <==> order@.contains(w as usize)),
                forall|p: int, q: int|
                    0 <= p < order@.len() && 0 <= q < eidx@.len() && #[trigger] eidx@[q].1 == #[trigger] order@[p]
                        ==> listed_before(order@, p, eidx@[q].0),
                !progress ==> forall|w: int| 0 <= w < v && !(#[trigger] done@[w]) ==> exists|q: int|
                    0 <= q < eidx@.len() && eidx@[q].1 == w && !done@[eidx@[q].0 as int],
            decreases n - v,
        {
            if !done[v] && preds_done(&eidx, &done, v) {
                let ghost o0 = order@;
                let ghost d0 = done@;
                proof {
                    assert(!o0.contains(v));
                    assert forall|q: int| 0 <= q < eidx@.len() && (#[trigger] eidx@[q]).1 == v implies exists|p2: int| 0 <= p2 < o0.len() && o0[p2] == eidx@[q].0 by {
                        assert(d0[eidx@[q].0 as int]);
                        assert(o0.contains(eidx@[q].0));
                    }
                }
                done.set(v, true);
                order.push(v);
                progress = true;
                proof {
                    assert forall|w: int| 0 <= w < n implies (#[trigger] done@[w] <==> order@.contains(w as usize)) by {
                        if w == v as int {
                            assert(order@[o0.len() as int] == v);
                        } else {
                            if order@.contains(w as usize) {
                                let p = choose|p: int| 0 <= p < order@.len() && order@[p] == w as usize;
                                assert(p < o0.len());
                                assert(o0[p] == w as usize);
                            }
                            if o0.contains(w as usize) {
                                let p = choose|p: int| 0 <= p < o0.len() && o0[p] == w as usize;
                                assert(order@[p] == w as usize);
                            }
                        }
                    }
                    assert forall|p: int, q: int|
                        0 <= p < order@.len() && 0 <= q < eidx@.len() && #[trigger] eidx@[q].1 == #[trigger] order@[p]
                        implies listed_before(order@, p, eidx@[q].0) by {
                        if p < o0.len() {
                            assert(o0[p] == order@[p]);
                            let p2 = choose|p2: int| 0 <= p2 < p && o0[p2] == eidx@[q].0;
                            assert(order@[p2] == o0[p2]);
                        } else {
                            assert(order@[p] == v);
                            let p2 = choose|p2: int| 0 <= p2 < o0.len() && o0[p2] == eidx@[q].0;
                            assert(order@[p2] == o0[p2]);
                        }
                    }
                    assert(order@.no_duplicates()) by {
                        assert forall|p: int, p2: int| 0 <= p < order@.len() && 0 <= p2 < order@.len() && p != p2 implies order@[p] != order@[p2] by {
                            if p < o0.len() && p2 < o0.len() {
                                assert(order@[p] == o0[p] && order@[p2] == o0[p2]);
                            } else if p < o0.len() {
                                assert(order@[p] == o0[p]);
                            } else if p2 < o0.len() {
                                assert(order@[p2] == o0[p2]);
                            }
                        }
                    }
                    assert(order@.len() <= n) by {
                        // all entries are distinct indices below n
                        let s = order@.to_set();
                        order@.unique_seq_to_set();
                        assert(s.subset_of(Set::new(|w: usize| w < n)));
                        lemma_usize_range_len(n);
                        vstd::set_lib::lemma_len_subset(s, Set::new(|w: usize| w < n));
                    }
                }
            } else {
                proof {
                    if !progress && !done@[v as int] {
                        let q = choose|q: int| 0 <= q < eidx@.len() && (#[trigger] eidx@[q]).1 == v && !done@[eidx@[q].0 as int];
                    }
                }
            }
            v = v + 1;
        }
    }
    // Views of the ordered nodes.
    let mut ord: Vec<T> = Vec::new();
    let mut p: usize = 0;
    while p < order.len()
        invariant
            p <= order@.len(),
            ord@.len() == p,
            forall|q: int| 0 <= q < order@.len() ==> (#[trigger] order@[q]) < nodes@.len(),
            forall|q: int| 0 <= q < p ==> (#[trigger] ord@[q])@ == nodes@[order@[q] as int]@,
        decreases order@.len() - p,
    {
        ord.push(nodes[order[p]].copy_node());
        p = p + 1;
    }
    let ghost ordv = node_views(ord@);
    proof {
        assert forall|q: int| 0 <= q < ordv.len() implies #[trigger] ordv[q] == nv[order@[q] as int] by {
            assert(ordv[q] == ord@[q]@);
        }
        lemma_ordered(ev, nv, eidx@, order@, ordv);
    }
    if order.len() == n {
        proof {
            assert forall|x: T::V| is_node(ev, x) implies ordv.contains(x) by {
                let w = choose|w: int| 0 <= w < nv.len() && nv[w] == x;
                lemma_index_in_full_order(order@, n, w);
                let p = choose|p: int| 0 <= p < order@.len() && order@[p] == w as usize;
                assert(ordv[p] == x);
            }
            assert(is_topological_order(ev, ordv));
        }
        Ok(ord)
    } else {
        proof {
            assert forall|w: int| 0 <= w < n && #[trigger] done@[w] implies !on_cycle(ev, nv[w]) by {
                let p = choose|p: int| 0 <= p < order@.len() && order@[p] == w as usize;
                assert(ordv[p] == nv[w]);
                lemma_ordered_not_on_cycle(ev, ordv, nv[w]);
            }
        }
        // The nodes that cannot be ordered; among them, those on a cycle.
        let mut cyc: Vec<T> = Vec::new();
        let ghost mut ridx: Seq<usize> = seq![];
        let ghost mut cidx: Seq<usize> = seq![];
        let mut v: usize = 0;
        while v < n
            invariant
                v <= n,
                n == nodes@.len(),
                nv == node_views(nodes@),
                nv.no_duplicates(),
                ev == edge_views(edges@),
                done@.len() == n,
                eidx@.len() == ev.len(),
                forall|q: int| 0 <= q < eidx@.len() ==> (#[trigger] eidx@[q]).0 < n && eidx@[q].1 < n,
                forall|q: int| 0 <= q < eidx@.len() ==> nv[(#[trigger] eidx@[q]).0 as int] == ev[q].0 && nv[eidx@[q].1 as int] == ev[q].1,
                forall|w: int| 0 <= w < n && #[trigger] done@[w] ==> !on_cycle(ev, nv[w]),
                forall|q: int| 0 <= q < ridx.len() ==> (#[trigger] ridx[q]) < v && !done@[ridx[q] as int],
                forall|w: int| 0 <= w < v && !done@[w] ==> ridx.contains(w as usize),
                ridx.no_duplicates(),
                cyc@.len() == cidx.len(),
                forall|q: int| 0 <= q < cidx.len() ==> (#[trigger] cidx[q]) < v && on_cycle(ev, nv[cidx[q] as int]),
                forall|q: int| 0 <= q < cidx.len() ==> (#[trigger] cyc@[q])@ == nv[cidx[q] as int],
                forall|w: int| 0 <= w < v && on_cycle(ev, #[trigger] nv[w]) ==> cidx.contains(w as usize),
                cidx.no_duplicates(),
            decreases n - v,
        {
            if !done[v] {
                let ghost r0 = ridx;
                proof {
                    ridx = ridx.push(v);
                    assert forall|w: int| 0 <= w < v + 1 && !done@[w] implies ridx.contains(w as usize) by {
                        if w == v as int {
                            assert(ridx[r0.len() as int] == v);
                        } else {
                            let q = choose|q: int| 0 <= q < r0.len() && r0[q] == w as usize;
                            assert(ridx[q] == w as usize);
                        }
                    }
                }
                let ghost c0 = cidx;
                if on_cycle_at::<T::V>(&eidx, n, v, Ghost(ev), Ghost(nv)) {
                    cyc.push(nodes[v].copy_node());
                    proof {
                        cidx = cidx.push(v);
                        assert(cidx[c0.len() as int] == v);
                    }
                }
                proof {
                    assert forall|w: int| 0 <= w < v + 1 && on_cycle(ev, #[trigger] nv[w]) implies cidx.contains(w as usize) by {
                        if w == v as int {
                            assert(cidx[c0.len() as int] == v);
                        } else {
                            let q = choose|q: int| 0 <= q < c0.len() && c0[q] == w as usize;
                            assert(cidx[q] == w as usize);
                        }
                    }
                }
            } else {
                proof {
                    assert(!on_cycle(ev, nv[v as int]));
                }
            }
            v = v + 1;
        }
        let ghost stuck = Seq::new(ridx.len(), |q: int| nv[ridx[q] as int]);
        let ghost cycv = node_views(cyc@);
        proof {
            assert forall|q: int| 0 <= q < cycv.len() implies #[trigger] cycv[q] == nv[cidx[q] as int] by {
                assert(cycv[q] == cyc@[q]@);
            }
            assert(cycv.no_duplicates()) by {
                assert forall|a: int, b: int| 0 <= a < cycv.len() && 0 <= b < cycv.len() && a != b implies cycv[a] != cycv[b] by {
                    assert(cidx[a] != cidx[b]);
                    assert(nv[cidx[a] as int] != nv[cidx[b] as int]);
                }
            }
            assert forall|x: T::V| cycv.contains(x) <==> on_cycle(ev, x) by {
                if cycv.contains(x) {
                    let q = choose|q: int| 0 <= q < cycv.len() && cycv[q] == x;
                    assert(on_cycle(ev, nv[cidx[q] as int]));
                }
                if on_cycle(ev, x) {
                    lemma_cycle_member_is_node(ev, x);
                    let w = choose|w: int| 0 <= w < nv.len() && nv[w] == x;
                    assert(cidx.contains(w as usize));
                    let q = choose|q: int| 0 <= q < cidx.len() && cidx[q] == w as usize;
                    assert(cycv[q] == x);
                }
            }
            // some node is not done
            assert(exists|w: int| 0 <= w < n && !done@[w]) by {
                if forall|w: int| 0 <= w < n ==> done@[w] {
                    assert forall|w: usize| w < n implies order@.contains(w) by {
                        assert(done@[w as int]);
                    }
                    lemma_full_order_len(order@, n);
                }
            }
            let w0 = choose|w: int| 0 <= w < n && !done@[w];
            assert(ridx.contains(w0 as usize));
            assert(stuck.len() > 0);
            assert(stuck.no_duplicates()) by {
                assert forall|a: int, b: int| 0 <= a < stuck.len() && 0 <= b < stuck.len() && a != b implies stuck[a] != stuck[b] by {
                    assert(ridx[a] != ridx[b]);
                    assert(nv[ridx[a] as int] != nv[ridx[b] as int]);
                }
            }
            assert forall|q: int| 0 <= q < stuck.len() implies is_node(ev, #[trigger] stuck[q]) by {
                assert(nv.contains(nv[ridx[q] as int]));
            }
            assert forall|q: int| 0 <= q < stuck.len() implies has_pred_in(ev, stuck, #[trigger] stuck[q]) by {
                let w = ridx[q];
                assert(!done@[w as int]);
                let e = choose|e: int| 0 <= e < eidx@.len() && eidx@[e].1 == w && !done@[eidx@[e].0 as int];
                let u = eidx@[e].0;
                assert(ridx.contains(u));
                let qu = choose|qu: int| 0 <= qu < ridx.len() && ridx[qu] == u;
                assert(stuck[qu] == ev[e].0);
                assert(ev[e].1 == nv[w as int]);
            }
            assert(is_stuck_set(ev, stuck));
            if exists|o: Seq<T::V>| is_topological_order(ev, o) {
                let o = choose|o: Seq<T::V>| is_topological_order(ev, o);
                lemma_order_excludes_stuck(ev, o, stuck);
            }
        }
        Err(cyc)
    }
}

proof fn lemma_usize_range_len(n: usize)
    ensures
        Set::new(|w: usize| w < n).finite(),
        Set::new(|w: usize| w < n).len() == n,
    decreases n,
{
    if n == 0 {
        assert(Set::new(|w: usize| w < n) =~= Set::<usize>::empty());
    } else {
        let m = (n - 1) as usize;
        lemma_usize_range_len(m);
        assert(Set::new(|w: usize| w < n) =~= Set::new(|w: usize| w < m).insert(m));
    }
}

proof fn lemma_full_order_len(order: Seq<usize>, n: usize)
    requires
        order.no_duplicates(),
        forall|w: usize| w < n ==> order.contains(w),
    ensures
        order.len() >= n,
{
    let s = order.to_set();
    order.unique_seq_to_set();
    lemma_usize_range_len(n);
    assert(Set::new(|w: usize| w < n).subset_of(s)) by {
        assert forall|w: usize| Set::new(|w: usize| w < n).contains(w) implies s.contains(w) by {
            assert(order.contains(w));
        }
    }
    vstd::set_lib::lemma_len_subset(Set::new(|w: usize| w < n), s);
}

proof fn lemma_index_in_full_order(order: Seq<usize>, n: usize, w: int)
    requires
        order.no_duplicates(),
        order.len() == n,
        forall|p: int| 0 <= p < order.len() ==> (#[trigger] order[p]) < n,
        0 <= w < n,
    ensures
        order.contains(w as usize),
{
    if !order.contains(w as usize) {
        let s = order.to_set();
        order.unique_seq_to_set();
        lemma_usize_range_len(n);
        let full = Set::new(|x: usize| x < n);
        assert(s.subset_of(full.remove(w as usize)));
        assert(full.remove(w as usize).len() == n - 1);
        vstd::set_lib::lemma_len_subset(s, full.remove(w as usize));
    }
}

proof fn lemma_ordered<V>(ev: Seq<(V, V)>, nv: Seq<V>, eidx: Seq<(usize, usize)>, order: Seq<usize>, ordv: Seq<V>)
    requires
        nv.no_duplicates(),
        eidx.len() == ev.len(),
        order.no_duplicates(),
        forall|q: int| 0 <= q < eidx.len() ==> (#[trigger] eidx[q]).0 < nv.len() && eidx[q].1 < nv.len(),
        forall|q: int| 0 <= q < eidx.len() ==> nv[(#[trigger] eidx[q]).0 as int] == ev[q].0 && nv[eidx[q].1 as int] == ev[q].1,
        forall|x: V| nv.contains(x) <==> is_node(ev, x),
        forall|p: int| 0 <= p < order.len() ==> (#[trigger] order[p]) < nv.len(),
        forall|p: int, q: int|
            0 <= p < order.len() && 0 <= q < eidx.len() && #[trigger] eidx[q].1 == #[trigger] order[p]
                ==> listed_before(order, p, eidx[q].0),
        ordv.len() == order.len(),
        forall|q: int| 0 <= q < ordv.len() ==> #[trigger] ordv[q] == nv[order[q] as int],
    ensures
        ordered_prefix(ev, ordv),
{
    assert forall|a: int, b: int| 0 <= a < ordv.len() && 0 <= b < ordv.len() && a != b implies ordv[a] != ordv[b] by {
        assert(order[a] != order[b]);
        assert(nv[order[a] as int] != nv[order[b] as int]);
    }
    assert forall|i: int| 0 <= i < ordv.len() implies is_node(ev, #[trigger] ordv[i]) by {
        assert(nv.contains(nv[order[i] as int]));
    }
    assert forall|i: int, k: int|
        0 <= i < ordv.len() && 0 <= k < ev.len() && #[trigger] ev[k].1 == #[trigger] ordv[i]
        implies listed_before(ordv, i, ev[k].0) by {
        assert(nv[eidx[k].1 as int] == nv[order[i] as int]);
        assert(eidx[k].1 == order[i]);
        let p2 = choose|p2: int| 0 <= p2 < i && order[p2] == eidx[k].0;
        assert(ordv[p2] == ev[k].0);
    }
}

} // verus!
