use crate::connectivity::{
    lemma_class_count_mono, lemma_forest_class_count,
    class_count, conn, forest, lemma_conn_edge, lemma_conn_equiv, lemma_conn_mono,
    lemma_conn_same_edges, lemma_spanning_forest_edge_count,
};
use crate::edge::Edge;
use crate::union_find::UnionFind;
use vstd::multiset::Multiset;
use vstd::prelude::*;

verus! {

broadcast use vstd::multiset::group_multiset_axioms;

/// Upper bound on node identifiers: the minimum-spanning-tree construction
/// sizes its scratch union-find structure to this many elements.
pub const MAX_NODE_INDEX: usize = 1000;

/// An undirected weighted multigraph: an insertion-ordered sequence of
/// distinct node identifiers and a bag of edges whose endpoints are present
/// among the nodes.
pub struct Graph {
    pub edges: Vec<Edge>,
    pub nodes: Vec<usize>,
}

/// What `add_node` does to the node sequence: append the identifier unless
/// it is already present.
pub open spec fn add_node_spec(nodes: Seq<usize>, id: usize) -> Seq<usize> {
    if nodes.contains(id) {
        nodes
    } else {
        nodes.push(id)
    }
}

/// What `remove_node` leaves of the node sequence.
pub open spec fn remove_node_nodes_spec(nodes: Seq<usize>, id: usize) -> Seq<usize> {
    nodes.filter(|n: usize| n != id)
}

/// What `remove_node` leaves of the edge sequence: every edge touching the
/// identifier is cascaded away.
pub open spec fn remove_node_edges_spec(es: Seq<Edge>, id: usize) -> Seq<Edge> {
    es.filter(|e: Edge| e.u != id && e.v != id)
}

/// What `add_edge` does to the edge sequence: append the triple when both
/// endpoints are present, silently reject it otherwise.
pub open spec fn add_edge_spec(es: Seq<Edge>, nodes: Seq<usize>, u: usize, v: usize, w: i32) -> Seq<
    Edge,
> {
    if nodes.contains(u) && nodes.contains(v) {
        es.push(Edge { u, v, w })
    } else {
        es
    }
}

/// What `remove_edge` leaves: every structurally matching triple is gone;
/// the reverse orientation does not match.
pub open spec fn remove_edge_spec(es: Seq<Edge>, u: usize, v: usize, w: i32) -> Seq<Edge> {
    es.filter(|e: Edge| !(e.u == u && e.v == v && e.w == w))
}

/// Whether every node of `g` is an endpoint of some edge of `g`: the
/// minimum-spanning-forest construction admits a node only together with
/// an admitted edge.
#[verifier::opaque]
pub open spec fn nodes_are_endpoints(g: Graph) -> bool {
    forall|i: int|
        0 <= i < g.nodes@.len() ==> exists|k: int|
            0 <= k < g.edges@.len() && ((#[trigger] g.nodes@[i]) == g.edges@[k].u || g.nodes@[i]
                == g.edges@[k].v)
}

/// Admitting an edge together with its two endpoints keeps every node an
/// endpoint of some edge.
proof fn lemma_endpoints_extend(pre: Graph, post: Graph, e: Edge)
    requires
        nodes_are_endpoints(pre),
        post.edges@ == pre.edges@.push(e),
        post.nodes@ == add_node_spec(add_node_spec(pre.nodes@, e.u), e.v),
    ensures
        nodes_are_endpoints(post),
{
    reveal(nodes_are_endpoints);
    let last = post.edges@.len() - 1;
    assert(post.edges@[last] == e);
    assert forall|i: int| 0 <= i < post.nodes@.len() implies exists|k: int|
        0 <= k < post.edges@.len() && ((#[trigger] post.nodes@[i]) == post.edges@[k].u
            || post.nodes@[i] == post.edges@[k].v) by {
        if i < pre.nodes@.len() {
            assert(post.nodes@[i] == pre.nodes@[i]);
            let k2 = choose|k2: int|
                0 <= k2 < pre.edges@.len() && (pre.nodes@[i] == pre.edges@[k2].u || pre.nodes@[i]
                    == pre.edges@[k2].v);
            assert(post.edges@[k2] == pre.edges@[k2]);
        } else {
            assert(post.nodes@[i] == e.u || post.nodes@[i] == e.v);
        }
    }
}

/// Whether the edge weights appear in ascending order.
pub open spec fn sorted_by_w(es: Seq<Edge>) -> bool {
    forall|i: int, j: int| 0 <= i <= j < es.len() ==> es[i].w <= es[j].w
}

/// The edges of `es` whose weight is at most `w`.
pub open spec fn light_edges(es: Seq<Edge>, w: i32) -> Seq<Edge> {
    es.filter(|x: Edge| x.w <= w)
}

/// Keeping the light edges commutes with appending one more edge.
proof fn lemma_light_push(es: Seq<Edge>, x: Edge, w: i32)
    ensures
        light_edges(es.push(x), w) == if x.w <= w {
            light_edges(es, w).push(x)
        } else {
            light_edges(es, w)
        },
{
    reveal(Seq::filter);
    assert(es.push(x).drop_last() =~= es);
    assert(es.push(x).last() == x);
}

/// A sequence whose weights all lie at or below `w` keeps every edge.
proof fn lemma_light_all(es: Seq<Edge>, w: i32)
    requires
        forall|i: int| 0 <= i < es.len() ==> (#[trigger] es[i]).w <= w,
    ensures
        light_edges(es, w) == es,
    decreases es.len(),
{
    reveal(Seq::filter);
    if es.len() > 0 {
        let r = es.drop_last();
        assert(forall|i: int| 0 <= i < r.len() ==> (#[trigger] r[i]).w <= w) by {
            assert(forall|i: int| 0 <= i < r.len() ==> r[i] == es[i]);
        }
        lemma_light_all(r, w);
        assert(es[es.len() - 1].w <= w);
        assert(light_edges(es, w) =~= es);
    }
}

/// The total weight of a sequence of edges.
pub open spec fn sum_w(es: Seq<Edge>) -> int
    decreases es.len(),
{
    if es.len() == 0 {
        0
    } else {
        sum_w(es.drop_last()) + es.last().w
    }
}

/// Every light edge is an edge of the input with weight at most `w`.
proof fn lemma_light_contains(es: Seq<Edge>, w: i32)
    ensures
        forall|x: Edge| #[trigger]
            light_edges(es, w).contains(x) ==> es.contains(x) && x.w <= w,
    decreases es.len(),
{
    reveal(Seq::filter);
    if es.len() > 0 {
        let r = es.drop_last();
        lemma_light_contains(r, w);
        let fr = light_edges(r, w);
        let fs = light_edges(es, w);
        assert forall|x: Edge| fs.contains(x) implies es.contains(x) && x.w <= w by {
            let i = choose|i: int| 0 <= i < fs.len() && fs[i] == x;
            if es.last().w <= w && i == fs.len() - 1 {
                assert(es[es.len() - 1] == x);
            } else {
                assert(fr[i] == x);
                assert(fr.contains(x));
                assert(r.contains(x) && x.w <= w);
                let j = choose|j: int| 0 <= j < r.len() && r[j] == x;
                assert(r[j] == es[j]);
            }
        }
    }
}

/// Every input edge with weight at most `w` stays among the light edges.
proof fn lemma_light_contains_rev(es: Seq<Edge>, w: i32, i: int)
    requires
        0 <= i < es.len(),
        es[i].w <= w,
    ensures
        light_edges(es, w).contains(es[i]),
    decreases es.len(),
{
    reveal(Seq::filter);
    if i == es.len() - 1 {
        assert(es[i] == es.last());
        assert(light_edges(es, w).last() == es[i]);
    } else {
        let r = es.drop_last();
        assert(r[i] == es[i]);
        lemma_light_contains_rev(r, w, i);
        let fr = light_edges(r, w);
        let j = choose|j: int| 0 <= j < fr.len() && fr[j] == es[i];
        if es.last().w <= w {
            assert(light_edges(es, w)[j] == es[i]);
        }
    }
}

/// There are no more light edges than edges.
proof fn lemma_light_len(es: Seq<Edge>, w: i32)
    ensures
        light_edges(es, w).len() <= es.len(),
    decreases es.len(),
{
    reveal(Seq::filter);
    if es.len() > 0 {
        lemma_light_len(es.drop_last(), w);
    }
}

/// Keeping the light edges commutes with extending a prefix by one edge.
proof fn lemma_light_take_step(es: Seq<Edge>, w: i32, k: int)
    requires
        0 <= k < es.len(),
    ensures
        light_edges(es.take(k + 1), w) == if es[k].w <= w {
            light_edges(es.take(k), w).push(es[k])
        } else {
            light_edges(es.take(k), w)
        },
{
    reveal(Seq::filter);
    assert(es.take(k + 1).drop_last() =~= es.take(k));
    assert(es.take(k + 1).last() == es[k]);
}

/// The light edges of a prefix are no more numerous than those of the
/// whole; and when everything past the prefix is heavier than `w`, they
/// are the same.
proof fn lemma_light_grow(es: Seq<Edge>, w: i32, i: int)
    requires
        0 <= i <= es.len(),
    ensures
        light_edges(es.take(i), w).len() <= light_edges(es, w).len(),
        (forall|j: int| i <= j < es.len() ==> (#[trigger] es[j]).w > w) ==> light_edges(es, w)
            == light_edges(es.take(i), w),
    decreases es.len() - i,
{
    if i == es.len() {
        assert(es.take(i) =~= es);
    } else {
        lemma_light_take_step(es, w, i);
        lemma_light_grow(es, w, i + 1);
    }
}

/// Dropping edges from a forest leaves a forest: keeping only the light
/// edges never creates a cycle.
proof fn lemma_forest_light(es: Seq<Edge>, w: i32)
    requires
        forest(es),
    ensures
        forest(light_edges(es, w)),
    decreases es.len(),
{
    reveal(Seq::filter);
    if es.len() > 0 {
        let r = es.drop_last();
        let e = es.last();
        lemma_forest_light(r, w);
        lemma_light_contains(r, w);
        let fr = light_edges(r, w);
        if e.w <= w {
            assert(light_edges(es, w) == fr.push(e));
            assert forall|i: int| 0 <= i < fr.len() implies conn(
                r,
                #[trigger] fr[i].u as int,
                fr[i].v as int,
            ) by {
                assert(fr.contains(fr[i]));
                assert(r.contains(fr[i]));
                let j = choose|j: int| 0 <= j < r.len() && r[j] == fr[i];
                lemma_conn_edge(r, j);
            }
            lemma_conn_mono(fr, r);
            assert(!conn(fr, e.u as int, e.v as int));
            assert(fr.push(e).drop_last() =~= fr);
            assert(fr.push(e).last() == e);
            assert(forest(fr.push(e)));
        } else {
            assert(light_edges(es, w) == fr);
        }
    }
}

/// With edge weights pointwise at most those of an equally long
/// sequence, the total weight is at most as large too.
proof fn lemma_sum_pointwise(t: Seq<Edge>, f: Seq<Edge>)
    requires
        t.len() == f.len(),
        forall|i: int| 0 <= i < t.len() ==> (#[trigger] t[i]).w <= f[i].w,
    ensures
        sum_w(t) <= sum_w(f),
    decreases t.len(),
{
    if t.len() > 0 {
        let rt = t.drop_last();
        let rf = f.drop_last();
        assert(forall|i: int| 0 <= i < rt.len() ==> (#[trigger] rt[i]).w <= rf[i].w) by {
            assert(forall|i: int| 0 <= i < rt.len() ==> rt[i] == t[i] && rf[i] == f[i]);
        }
        lemma_sum_pointwise(rt, rf);
        assert(t[t.len() - 1].w <= f[f.len() - 1].w);
    }
}

/// At every weight threshold the greedy forest `t` holds at least as many
/// edges as any competing forest `f` drawn from the same input `ges`,
/// thanks to the greedy certificate: each competitor edge's endpoints are
/// joined by greedy edges no heavier than it.
proof fn lemma_light_dominance(t: Seq<Edge>, f: Seq<Edge>, ges: Seq<Edge>, vs: Seq<usize>, w: i32)
    requires
        forest(t),
        forest(f),
        forall|i: int, j: int| 0 <= i < j < vs.len() ==> vs[i] != vs[j],
        forall|k: int| 0 <= k < t.len() ==> vs.contains((#[trigger] t[k]).u) && vs.contains(t[k].v),
        forall|k: int| 0 <= k < f.len() ==> vs.contains((#[trigger] f[k]).u) && vs.contains(f[k].v),
        forall|k: int| 0 <= k < f.len() ==> ges.contains(#[trigger] f[k]),
        forall|j: int|
            0 <= j < ges.len() ==> conn(
                light_edges(t, (#[trigger] ges[j]).w),
                ges[j].u as int,
                ges[j].v as int,
            ),
    ensures
        light_edges(f, w).len() <= light_edges(t, w).len(),
{
    lemma_forest_light(t, w);
    lemma_forest_light(f, w);
    lemma_light_contains(t, w);
    lemma_light_contains(f, w);
    let lt = light_edges(t, w);
    let lf = light_edges(f, w);
    assert forall|k: int| 0 <= k < lt.len() implies vs.contains((#[trigger] lt[k]).u)
        && vs.contains(lt[k].v) by {
        assert(lt.contains(lt[k]));
        assert(t.contains(lt[k]));
        let j = choose|j: int| 0 <= j < t.len() && t[j] == lt[k];
        assert(vs.contains(t[j].u) && vs.contains(t[j].v));
    }
    assert forall|k: int| 0 <= k < lf.len() implies vs.contains((#[trigger] lf[k]).u)
        && vs.contains(lf[k].v) by {
        assert(lf.contains(lf[k]));
        assert(f.contains(lf[k]));
        let j = choose|j: int| 0 <= j < f.len() && f[j] == lf[k];
        assert(vs.contains(f[j].u) && vs.contains(f[j].v));
    }
    lemma_forest_class_count(lt, vs);
    lemma_forest_class_count(lf, vs);
    assert forall|i: int| 0 <= i < lf.len() implies conn(
        lt,
        (#[trigger] lf[i]).u as int,
        lf[i].v as int,
    ) by {
        let e = lf[i];
        assert(lf.contains(e));
        assert(f.contains(e) && e.w <= w);
        let j0 = choose|j0: int| 0 <= j0 < f.len() && f[j0] == e;
        assert(ges.contains(e));
        let j = choose|j: int| 0 <= j < ges.len() && ges[j] == e;
        assert(conn(light_edges(t, e.w), e.u as int, e.v as int));
        let lte = light_edges(t, e.w);
        lemma_light_contains(t, e.w);
        assert forall|m: int| 0 <= m < lte.len() implies conn(
            lt,
            (#[trigger] lte[m]).u as int,
            lte[m].v as int,
        ) by {
            assert(lte.contains(lte[m]));
            assert(t.contains(lte[m]) && lte[m].w <= e.w);
            let p = choose|p: int| 0 <= p < t.len() && t[p] == lte[m];
            lemma_light_contains_rev(t, w, p);
            assert(lt.contains(t[p]));
            let q = choose|q: int| 0 <= q < lt.len() && lt[q] == t[p];
            lemma_conn_edge(lt, q);
        }
        lemma_conn_mono(lte, lt);
    }
    lemma_conn_mono(lf, lt);
    lemma_class_count_mono(lt, lf, vs);
}

/// Minimum-spanning-forest optimality: the forest that `kruskal` returns
/// weighs no more than any competing spanning forest of the same input,
/// the competitor listed in ascending weight order. The hypotheses on `t`
/// are what `kruskal` ensures of its result for input edges `ges` over
/// the distinct identifiers `vs`.
pub proof fn lemma_kruskal_minimal(t: Seq<Edge>, f: Seq<Edge>, ges: Seq<Edge>, vs: Seq<usize>)
    requires
        sorted_by_w(t),
        forest(t),
        forall|k: int| 0 <= k < t.len() ==> vs.contains((#[trigger] t[k]).u) && vs.contains(t[k].v),
        forall|i: int, j: int|
            0 <= i < vs.len() && 0 <= j < vs.len() ==> (conn(
                t,
                #[trigger] vs[i] as int,
                #[trigger] vs[j] as int,
            ) <==> conn(ges, vs[i] as int, vs[j] as int)),
        forall|j: int|
            0 <= j < ges.len() ==> conn(
                light_edges(t, (#[trigger] ges[j]).w),
                ges[j].u as int,
                ges[j].v as int,
            ),
        sorted_by_w(f),
        forest(f),
        forall|k: int| 0 <= k < f.len() ==> ges.contains(#[trigger] f[k]),
        forall|k: int| 0 <= k < f.len() ==> vs.contains((#[trigger] f[k]).u) && vs.contains(f[k].v),
        forall|i: int, j: int|
            0 <= i < vs.len() && 0 <= j < vs.len() ==> (conn(
                f,
                #[trigger] vs[i] as int,
                #[trigger] vs[j] as int,
            ) <==> conn(ges, vs[i] as int, vs[j] as int)),
        forall|i: int, j: int| 0 <= i < j < vs.len() ==> vs[i] != vs[j],
    ensures
        sum_w(t) <= sum_w(f),
{
    lemma_spanning_forest_edge_count(t, ges, vs);
    lemma_spanning_forest_edge_count(f, ges, vs);
    assert(t.len() == f.len());
    assert forall|i: int| 0 <= i < t.len() implies (#[trigger] t[i]).w <= f[i].w by {
        if t[i].w > f[i].w {
            let w = f[i].w;
            // at least `i + 1` competitor edges weigh at most `w` ...
            assert(forall|j: int| 0 <= j < i + 1 ==> (#[trigger] f.take(i + 1)[j]).w <= w) by {
                assert(forall|j: int| 0 <= j < i + 1 ==> f.take(i + 1)[j] == f[j]);
            }
            lemma_light_all(f.take(i + 1), w);
            lemma_light_grow(f, w, i + 1);
            assert(light_edges(f, w).len() >= i + 1);
            // ... but at most `i` greedy edges do
            assert(forall|j: int| i <= j < t.len() ==> (#[trigger] t[j]).w > w);
            lemma_light_grow(t, w, i);
            lemma_light_len(t.take(i), w);
            assert(light_edges(t, w).len() <= i);
            lemma_light_dominance(t, f, ges, vs, w);
            assert(false);
        }
    }
    lemma_sum_pointwise(t, f);
}

/// Admitting the edge at position `k` of the sorted run keeps the greedy
/// certificate: each earlier edge's endpoints stay joined by admitted
/// edges no heavier than it, and the admitted edge now joins its own.
proof fn lemma_cert_extend(es: Seq<Edge>, e: Edge, sorted: Seq<Edge>, k: int)
    requires
        sorted_by_w(sorted),
        0 <= k < sorted.len(),
        sorted[k] == e,
        forall|j: int|
            0 <= j < k ==> conn(
                light_edges(es, (#[trigger] sorted[j]).w),
                sorted[j].u as int,
                sorted[j].v as int,
            ),
    ensures
        forall|j: int|
            0 <= j < k + 1 ==> conn(
                light_edges(es.push(e), (#[trigger] sorted[j]).w),
                sorted[j].u as int,
                sorted[j].v as int,
            ),
{
    assert forall|j: int| 0 <= j < k + 1 implies conn(
        light_edges(es.push(e), (#[trigger] sorted[j]).w),
        sorted[j].u as int,
        sorted[j].v as int,
    ) by {
        let wj = sorted[j].w;
        lemma_light_push(es, e, wj);
        if j < k {
            assert(conn(light_edges(es, wj), sorted[j].u as int, sorted[j].v as int));
            if e.w <= wj {
                assert(light_edges(es.push(e), wj) == light_edges(es, wj).push(e));
                let lx = light_edges(es, wj);
                assert(lx.push(e).drop_last() =~= lx);
                assert(lx.push(e).last() == e);
                assert(conn(light_edges(es.push(e), wj), sorted[j].u as int, sorted[j].v as int));
            } else {
                assert(light_edges(es.push(e), wj) == light_edges(es, wj));
            }
        } else {
            assert(e.w <= wj);
            assert(light_edges(es.push(e), wj) == light_edges(es, wj).push(e));
            let lx = light_edges(es, wj);
            lemma_conn_equiv(lx);
            assert(lx.push(e).drop_last() =~= lx);
            assert(lx.push(e).last() == e);
            assert(conn(lx, e.u as int, e.u as int));
            assert(conn(lx, e.v as int, e.v as int));
            assert(conn(light_edges(es.push(e), wj), e.u as int, e.v as int));
        }
    }
}

/// Rejecting the edge at position `k` keeps the greedy certificate: its
/// endpoints are already joined by the admitted edges, all no heavier.
proof fn lemma_cert_reject(es: Seq<Edge>, e: Edge, sorted: Seq<Edge>, k: int)
    requires
        0 <= k < sorted.len(),
        sorted[k] == e,
        forall|i: int| 0 <= i < es.len() ==> (#[trigger] es[i]).w <= e.w,
        conn(es, e.u as int, e.v as int),
        forall|j: int|
            0 <= j < k ==> conn(
                light_edges(es, (#[trigger] sorted[j]).w),
                sorted[j].u as int,
                sorted[j].v as int,
            ),
    ensures
        forall|j: int|
            0 <= j < k + 1 ==> conn(
                light_edges(es, (#[trigger] sorted[j]).w),
                sorted[j].u as int,
                sorted[j].v as int,
            ),
{
    lemma_light_all(es, e.w);
    assert forall|j: int| 0 <= j < k + 1 implies conn(
        light_edges(es, (#[trigger] sorted[j]).w),
        sorted[j].u as int,
        sorted[j].v as int,
    ) by {
        if j == k {
            assert(light_edges(es, sorted[j].w) == es);
        }
    }
}

impl Graph {
    /// The graph's invariant: no node identifier repeats, and both
    /// endpoints of every edge are present among the nodes.
    pub open spec fn wf(self) -> bool {
        &&& forall|i: int, j: int|
            0 <= i < j < self.nodes@.len() ==> self.nodes@[i] != self.nodes@[j]
        &&& forall|k: int|
            0 <= k < self.edges@.len() ==> self.nodes@.contains(
                (#[trigger] self.edges@[k]).u,
            ) && self.nodes@.contains(self.edges@[k].v)
    }

    /// An empty graph.
    pub fn new() -> (g: Graph)
        ensures
            g.wf(),
            g.nodes@.len() == 0,
            g.edges@.len() == 0,
    {
        Graph { edges: Vec::new(), nodes: Vec::new() }
    }

    /// Appends `id` unless it is already present; the order of appearance
    /// of the nodes is preserved.
    pub fn add_node(&mut self, id: usize)
        requires
            old(self).wf(),
        ensures
            final(self).wf(),
            final(self).nodes@ == add_node_spec(old(self).nodes@, id),
            final(self).edges@ == old(self).edges@,
    {
        if !contains_id(&self.nodes, id) {
            let ghost pre = *self;
            self.nodes.push(id);
            proof {
                assert(self.nodes@[pre.nodes@.len() as int] == id);
                assert forall|k: int| 0 <= k < self.edges@.len() implies self.nodes@.contains(
                    (#[trigger] self.edges@[k]).u,
                ) && self.nodes@.contains(self.edges@[k].v) by {
                    let x = self.edges@[k].u;
                    let y = self.edges@[k].v;
                    let xi = choose|i: int| 0 <= i < pre.nodes@.len() && pre.nodes@[i] == x;
                    let yi = choose|i: int| 0 <= i < pre.nodes@.len() && pre.nodes@[i] == y;
                    assert(self.nodes@[xi] == x);
                    assert(self.nodes@[yi] == y);
                }
            }
        }
    }

    /// Removes `id` if present and cascades away every edge that touches
    /// it, so no edge with endpoint `id` survives.
    pub fn remove_node(&mut self, id: usize)
        requires
            old(self).wf(),
        ensures
            final(self).wf(),
            final(self).nodes@ == remove_node_nodes_spec(old(self).nodes@, id),
            final(self).edges@ == remove_node_edges_spec(old(self).edges@, id),
            forall|k: int|
                0 <= k < final(self).edges@.len() ==> (#[trigger] final(self).edges@[k]).u != id
                    && final(self).edges@[k].v != id,
    {
        let ghost pre = *self;
        let kept_edges = edges_without_node(&self.edges, id);
        let kept_nodes = ids_without(&self.nodes, id);
        self.edges = kept_edges;
        self.nodes = kept_nodes;
        proof {
            lemma_remove_node_nodes_props(pre.nodes@, id);
            lemma_remove_node_edges_props(pre.edges@, id);
            assert forall|k: int| 0 <= k < self.edges@.len() implies {
                let e = #[trigger] self.edges@[k];
                e.u != id && e.v != id && self.nodes@.contains(e.u) && self.nodes@.contains(e.v)
            } by {
                let e = self.edges@[k];
                assert(self.edges@.contains(e));
                assert(pre.edges@.contains(e) && e.u != id && e.v != id);
                let j = choose|j: int| 0 <= j < pre.edges@.len() && pre.edges@[j] == e;
                assert(pre.nodes@.contains(e.u) && pre.nodes@.contains(e.v));
            }
        }
    }

    /// Appends the edge `(u, v, w)` when both endpoints are present;
    /// otherwise the call is a silent no-op. Parallel and duplicate edges
    /// are allowed.
    pub fn add_edge(&mut self, u: usize, v: usize, w: i32)
        requires
            old(self).wf(),
        ensures
            final(self).wf(),
            final(self).edges@ == add_edge_spec(old(self).edges@, old(self).nodes@, u, v, w),
            final(self).nodes@ == old(self).nodes@,
    {
        if contains_id(&self.nodes, u) && contains_id(&self.nodes, v) {
            self.edges.push(Edge::new(u, v, w));
        }
    }

    /// Deletes every edge whose triple matches `(u, v, w)` exactly; the
    /// reverse orientation `(v, u, w)` is not touched.
    pub fn remove_edge(&mut self, u: usize, v: usize, w: i32)
        requires
            old(self).wf(),
        ensures
            final(self).wf(),
            final(self).edges@ == remove_edge_spec(old(self).edges@, u, v, w),
            final(self).nodes@ == old(self).nodes@,
    {
        let ghost pre = *self;
        let kept = edges_without_triple(&self.edges, u, v, w);
        self.edges = kept;
        proof {
            lemma_remove_edge_props(pre.edges@, u, v, w);
            assert forall|k: int| 0 <= k < self.edges@.len() implies self.nodes@.contains(
                (#[trigger] self.edges@[k]).u,
            ) && self.nodes@.contains(self.edges@[k].v) by {
                let e = self.edges@[k];
                assert(self.edges@.contains(e));
                assert(pre.edges@.contains(e));
                let j = choose|j: int| 0 <= j < pre.edges@.len() && pre.edges@[j] == e;
            }
        }
    }

    /// Whether every node lies in one connected component under the
    /// current edge set; the graph must hold at least one node.
    #[verifier::loop_isolation(false)]
    pub fn is_connected(&self) -> (r: bool)
        requires
            self.wf(),
            self.nodes@.len() > 0,
            forall|i: int| 0 <= i < self.nodes@.len() ==> (#[trigger] self.nodes@[i]) < usize::MAX,
        ensures
            r == (forall|i: int, j: int|
                0 <= i < self.nodes@.len() && 0 <= j < self.nodes@.len() ==> conn(
                    self.edges@,
                    #[trigger] self.nodes@[i as int] as int,
                    #[trigger] self.nodes@[j] as int,
                )),
    {
        let m = self.node_max_id();
        proof {
            let wi = choose|i: int| 0 <= i < self.nodes@.len() && self.nodes@[i] == m;
        }
        let ghost bound = (m + 1) as int;
        let mut uf = UnionFind::new(m + 1);
        let es = &self.edges;
        let mut k: usize = 0;
        while k < es.len()
            invariant
                k <= es@.len(),
                uf.wf(),
                uf.size() == bound,
                forall|a: int, b: int|
                    0 <= a < bound && 0 <= b < bound ==> (#[trigger] uf.same_set(a, b) <==> conn(
                        es@.take(k as int),
                        a,
                        b,
                    )),
            decreases es@.len() - k,
        {
            let e = es[k];
            proof {
                assert(self.nodes@.contains(e.u) && self.nodes@.contains(e.v));
                let xi = choose|i: int| 0 <= i < self.nodes@.len() && self.nodes@[i] == e.u;
                let yi = choose|i: int| 0 <= i < self.nodes@.len() && self.nodes@[i] == e.v;
            }
            let ghost pre_uf = uf;
            uf.union(e.u, e.v);
            proof {
                assert(es@.take(k + 1).drop_last() =~= es@.take(k as int));
                assert(es@.take(k + 1).last() == es@[k as int]);
                assert forall|a: int, b: int| 0 <= a < bound && 0 <= b < bound implies (
                #[trigger] uf.same_set(a, b) <==> conn(es@.take(k + 1), a, b)) by {
                    assert(pre_uf.same_set(a, b) <==> conn(es@.take(k as int), a, b));
                    assert(pre_uf.same_set(a, e.u as int) <==> conn(
                        es@.take(k as int),
                        a,
                        e.u as int,
                    ));
                    assert(pre_uf.same_set(e.v as int, b) <==> conn(
                        es@.take(k as int),
                        e.v as int,
                        b,
                    ));
                    assert(pre_uf.same_set(a, e.v as int) <==> conn(
                        es@.take(k as int),
                        a,
                        e.v as int,
                    ));
                    assert(pre_uf.same_set(e.u as int, b) <==> conn(
                        es@.take(k as int),
                        e.u as int,
                        b,
                    ));
                }
            }
            k = k + 1;
        }
        proof {
            assert(es@.take(es@.len() as int) =~= es@);
        }
        let first = self.nodes[0];
        let ghost pre_find = uf;
        let id = uf.find(first);
        proof {
            assert forall|a: int, b: int| 0 <= a < bound && 0 <= b < bound implies (
            #[trigger] uf.same_set(a, b) <==> conn(self.edges@, a, b)) by {
                assert(uf.rep_of(a) == pre_find.rep_of(a));
                assert(uf.rep_of(b) == pre_find.rep_of(b));
                assert(pre_find.same_set(a, b) <==> conn(self.edges@, a, b));
            }
        }
        let mut i: usize = 0;
        let mut all = true;
        while i < self.nodes.len()
            invariant
                i <= self.nodes@.len(),
                uf.wf(),
                uf.size() == bound,
                forall|a: int, b: int|
                    0 <= a < bound && 0 <= b < bound ==> (#[trigger] uf.same_set(a, b) <==> conn(
                        self.edges@,
                        a,
                        b,
                    )),
                id as int == uf.rep_of(self.nodes@[0] as int),
                all == (forall|a: int, b: int|
                    0 <= a < i && 0 <= b < i ==> conn(
                        self.edges@,
                        #[trigger] self.nodes@[a] as int,
                        #[trigger] self.nodes@[b] as int,
                    )),
            decreases self.nodes@.len() - i,
        {
            let node = self.nodes[i];
            let ghost pre_uf = uf;
            let cid = uf.find(node);
            proof {
                assert forall|a: int, b: int| 0 <= a < bound && 0 <= b < bound implies (
                #[trigger] uf.same_set(a, b) <==> conn(self.edges@, a, b)) by {
                    assert(uf.rep_of(a) == pre_uf.rep_of(a));
                    assert(uf.rep_of(b) == pre_uf.rep_of(b));
                    assert(pre_uf.same_set(a, b) <==> conn(self.edges@, a, b));
                }
                assert(uf.rep_of(self.nodes@[0] as int) == pre_uf.rep_of(self.nodes@[0] as int));
                assert(cid as int == uf.rep_of(self.nodes@[i as int] as int));
            }
            if cid != id {
                proof {
                    assert(!uf.same_set(self.nodes@[0] as int, self.nodes@[i as int] as int));
                    assert(!conn(self.edges@, self.nodes@[0] as int, self.nodes@[i as int] as int));
                }
                return false;
            }
            proof {
                assert(uf.same_set(self.nodes@[i as int] as int, self.nodes@[0] as int));
                assert forall|a: int, b: int| 0 <= a < i + 1 && 0 <= b < i + 1 implies conn(
                    self.edges@,
                    #[trigger] self.nodes@[a] as int,
                    #[trigger] self.nodes@[b] as int,
                ) by {
                    assert(uf.same_set(self.nodes@[a] as int, self.nodes@[0] as int));
                    assert(uf.same_set(self.nodes@[b] as int, self.nodes@[0] as int));
                    assert(uf.same_set(self.nodes@[a] as int, self.nodes@[b] as int));
                }
            }
            i = i + 1;
        }
        all
    }

    /// Builds a minimum spanning forest of the graph with Kruskal's
    /// algorithm: the edges, taken in ascending weight order, are admitted
    /// exactly when they join two components still apart. The result is a
    /// graph over the admitted edges' endpoints that connects the same
    /// identifiers as the input without ever closing a cycle.
    #[verifier::loop_isolation(false)]
    #[verifier::rlimit(100)]
    #[verifier::spinoff_prover]
    pub fn kruskal(&self) -> (mst: Graph)
        requires
            self.wf(),
            forall|i: int|
                0 <= i < self.nodes@.len() ==> (#[trigger] self.nodes@[i]) < MAX_NODE_INDEX,
        ensures
            mst.wf(),
            sorted_by_w(mst.edges@),
            forest(mst.edges@),
            forall|i: int| 0 <= i < mst.edges@.len() ==> self.edges@.contains(#[trigger] mst.edges@[i]),
            forall|a: int, b: int|
                0 <= a < MAX_NODE_INDEX && 0 <= b < MAX_NODE_INDEX ==> (#[trigger] conn(
                    mst.edges@,
                    a,
                    b,
                ) <==> conn(self.edges@, a, b)),
            nodes_are_endpoints(mst),
            // the greedy certificate: every input edge's endpoints are
            // already joined by result edges no heavier than it
            forall|j: int|
                0 <= j < self.edges@.len() ==> conn(
                    light_edges(mst.edges@, (#[trigger] self.edges@[j]).w),
                    self.edges@[j].u as int,
                    self.edges@[j].v as int,
                ),
    {
        let sorted = sorted_by_weight(&self.edges);
        let ghost bound = MAX_NODE_INDEX as int;
        proof {
            self.edges@.to_multiset_ensures();
            sorted@.to_multiset_ensures();
            assert forall|i: int| 0 <= i < sorted@.len() implies self.edges@.contains(
                #[trigger] sorted@[i],
            ) by {
                assert(sorted@.contains(sorted@[i]));
                assert(sorted@.to_multiset().count(sorted@[i]) > 0);
                assert(self.edges@.to_multiset().count(sorted@[i]) > 0);
            }
            assert forall|i: int| 0 <= i < self.edges@.len() implies sorted@.contains(
                #[trigger] self.edges@[i],
            ) by {
                assert(self.edges@.contains(self.edges@[i]));
                assert(self.edges@.to_multiset().count(self.edges@[i]) > 0);
                assert(sorted@.to_multiset().count(self.edges@[i]) > 0);
            }
            lemma_conn_same_edges(sorted@, self.edges@);
            assert forall|i: int| 0 <= i < sorted@.len() implies (#[trigger] sorted@[i]).u < bound
                && sorted@[i].v < bound by {
                let e = sorted@[i];
                let j = choose|j: int| 0 <= j < self.edges@.len() && self.edges@[j] == e;
                assert(self.nodes@.contains(e.u) && self.nodes@.contains(e.v));
                let xi = choose|t: int| 0 <= t < self.nodes@.len() && self.nodes@[t] == e.u;
                let yi = choose|t: int| 0 <= t < self.nodes@.len() && self.nodes@[t] == e.v;
            }
        }
        let mut uf = UnionFind::new(MAX_NODE_INDEX);
        let mut mst = Graph::new();
        proof {
            reveal(nodes_are_endpoints);
            assert(nodes_are_endpoints(mst));
        }
        let mut k: usize = 0;
        while k < sorted.len()
            invariant
                k <= sorted@.len(),
                uf.wf(),
                uf.size() == bound,
                mst.wf(),
                sorted_by_w(sorted@),
                sorted_by_w(mst.edges@),
                forest(mst.edges@),
                forall|i: int|
                    0 <= i < sorted@.len() ==> (#[trigger] sorted@[i]).u < bound && sorted@[i].v
                        < bound,
                forall|i: int|
                    0 <= i < mst.edges@.len() ==> sorted@.contains(#[trigger] mst.edges@[i]),
                forall|i: int, j: int|
                    0 <= i < mst.edges@.len() && k <= j < sorted@.len() ==> (
                    #[trigger] mst.edges@[i]).w <= (#[trigger] sorted@[j]).w,
                forall|a: int, b: int|
                    0 <= a < bound && 0 <= b < bound ==> (#[trigger] uf.same_set(a, b) <==> conn(
                        sorted@.take(k as int),
                        a,
                        b,
                    )),
                forall|a: int, b: int|
                    0 <= a < bound && 0 <= b < bound ==> (uf.same_set(a, b) <==> #[trigger] conn(
                        mst.edges@,
                        a,
                        b,
                    )),
                nodes_are_endpoints(mst),
                forall|j: int|
                    0 <= j < k ==> conn(
                        light_edges(mst.edges@, (#[trigger] sorted@[j]).w),
                        sorted@[j].u as int,
                        sorted@[j].v as int,
                    ),
            decreases sorted@.len() - k,
        {
            let e = sorted[k];
            let ghost pre_uf = uf;
            let ghost pre_mst = mst;
            let merged = uf.union(e.u, e.v);
            proof {
                assert(sorted@.take(k + 1).drop_last() =~= sorted@.take(k as int));
                assert(sorted@.take(k + 1).last() == sorted@[k as int]);
                assert forall|a: int, b: int| 0 <= a < bound && 0 <= b < bound implies (
                #[trigger] uf.same_set(a, b) <==> conn(sorted@.take(k + 1), a, b)) by {
                    assert(pre_uf.same_set(a, b) <==> conn(sorted@.take(k as int), a, b));
                    assert(pre_uf.same_set(a, e.u as int) <==> conn(
                        sorted@.take(k as int),
                        a,
                        e.u as int,
                    ));
                    assert(pre_uf.same_set(e.v as int, b) <==> conn(
                        sorted@.take(k as int),
                        e.v as int,
                        b,
                    ));
                    assert(pre_uf.same_set(a, e.v as int) <==> conn(
                        sorted@.take(k as int),
                        a,
                        e.v as int,
                    ));
                    assert(pre_uf.same_set(e.u as int, b) <==> conn(
                        sorted@.take(k as int),
                        e.u as int,
                        b,
                    ));
                }
            }
            if merged {
                mst.add_node(e.u);
                mst.add_node(e.v);
                mst.add_edge(e.u, e.v, e.w);
                proof {
                    lemma_add_node_spec_contains(pre_mst.nodes@, e.u, e.u);
                    lemma_add_node_spec_contains(add_node_spec(pre_mst.nodes@, e.u), e.v, e.u);
                    assert(mst.nodes@.contains(e.u));
                    assert(mst.nodes@.contains(e.v));
                    assert(mst.edges@ == pre_mst.edges@.push(Edge { u: e.u, v: e.v, w: e.w }));
                    assert(Edge { u: e.u, v: e.v, w: e.w } == e);
                    assert(mst.edges@ == pre_mst.edges@.push(e));
                    assert(mst.edges@.drop_last() =~= pre_mst.edges@);
                    assert(mst.edges@.last() == e);
                    // the admitted edge joined two separate components
                    assert(!pre_uf.same_set(e.u as int, e.v as int));
                    assert(!conn(pre_mst.edges@, e.u as int, e.v as int));
                    assert(forest(mst.edges@));
                    assert forall|a: int, b: int| 0 <= a < bound && 0 <= b < bound implies (
                    uf.same_set(a, b) <==> #[trigger] conn(mst.edges@, a, b)) by {
                        assert(pre_uf.same_set(a, b) <==> conn(pre_mst.edges@, a, b));
                        assert(pre_uf.same_set(a, e.u as int) <==> conn(
                            pre_mst.edges@,
                            a,
                            e.u as int,
                        ));
                        assert(pre_uf.same_set(e.v as int, b) <==> conn(
                            pre_mst.edges@,
                            e.v as int,
                            b,
                        ));
                        assert(pre_uf.same_set(a, e.v as int) <==> conn(
                            pre_mst.edges@,
                            a,
                            e.v as int,
                        ));
                        assert(pre_uf.same_set(e.u as int, b) <==> conn(
                            pre_mst.edges@,
                            e.u as int,
                            b,
                        ));
                    }
                    assert(sorted@.contains(e)) by {
                        assert(sorted@[k as int] == e);
                    }
                    lemma_endpoints_extend(pre_mst, mst, e);
                    lemma_cert_extend(pre_mst.edges@, e, sorted@, k as int);
                }
            } else {
                proof {
                    assert forall|a: int, b: int| 0 <= a < bound && 0 <= b < bound implies (
                    uf.same_set(a, b) <==> #[trigger] conn(mst.edges@, a, b)) by {
                        assert(uf.same_set(a, b) <==> pre_uf.same_set(a, b));
                        assert(pre_uf.same_set(a, b) <==> conn(mst.edges@, a, b));
                    }
                    assert(forall|i: int|
                        0 <= i < mst.edges@.len() ==> (#[trigger] mst.edges@[i]).w <= e.w);
                    assert(pre_uf.same_set(e.u as int, e.v as int));
                    assert(conn(mst.edges@, e.u as int, e.v as int));
                    lemma_cert_reject(mst.edges@, e, sorted@, k as int);
                }
            }
            k = k + 1;
        }
        proof {
            assert(sorted@.take(sorted@.len() as int) =~= sorted@);
            assert forall|a: int, b: int| 0 <= a < bound && 0 <= b < bound implies (#[trigger] conn(
                mst.edges@,
                a,
                b,
            ) <==> conn(self.edges@, a, b)) by {
                assert(uf.same_set(a, b) <==> conn(mst.edges@, a, b));
                assert(uf.same_set(a, b) <==> conn(sorted@, a, b));
                assert(conn(sorted@, a, b) == conn(self.edges@, a, b));
            }
            self.edges@.to_multiset_ensures();
            sorted@.to_multiset_ensures();
            assert forall|i: int| 0 <= i < mst.edges@.len() implies self.edges@.contains(
                #[trigger] mst.edges@[i],
            ) by {
                assert(sorted@.contains(mst.edges@[i]));
                assert(sorted@.to_multiset().count(mst.edges@[i]) > 0);
                assert(self.edges@.to_multiset().count(mst.edges@[i]) > 0);
            }
            assert forall|j: int| 0 <= j < self.edges@.len() implies conn(
                light_edges(mst.edges@, (#[trigger] self.edges@[j]).w),
                self.edges@[j].u as int,
                self.edges@[j].v as int,
            ) by {
                assert(sorted@.contains(self.edges@[j]));
                let t = choose|t: int| 0 <= t < sorted@.len() && sorted@[t] == self.edges@[j];
                assert(conn(
                    light_edges(mst.edges@, sorted@[t].w),
                    sorted@[t].u as int,
                    sorted@[t].v as int,
                ));
            }
        }
        mst
    }

    /// The largest node identifier; the graph must hold at least one node.
    pub fn node_max_id(&self) -> (r: usize)
        requires
            self.nodes@.len() > 0,
        ensures
            self.nodes@.contains(r),
            forall|i: int| 0 <= i < self.nodes@.len() ==> (#[trigger] self.nodes@[i]) <= r,
    {
        let mut best = self.nodes[0];
        let mut i: usize = 1;
        while i < self.nodes.len()
            invariant
                1 <= i <= self.nodes@.len(),
                self.nodes@.contains(best),
                forall|j: int| 0 <= j < i ==> (#[trigger] self.nodes@[j]) <= best,
            decreases self.nodes@.len() - i,
        {
            if self.nodes[i] > best {
                best = self.nodes[i];
            }
            i = i + 1;
        }
        best
    }
}

impl Default for Graph {
    /// The default graph is empty.
    fn default() -> (g: Graph)
        ensures
            g.wf(),
            g.nodes@.len() == 0,
            g.edges@.len() == 0,
    {
        Graph { edges: Vec::new(), nodes: Vec::new() }
    }
}

/// Whether `list` holds `id`.
fn contains_id(list: &Vec<usize>, id: usize) -> (b: bool)
    ensures
        b == list@.contains(id),
{
    let mut i: usize = 0;
    while i < list.len()
        invariant
            i <= list@.len(),
            forall|j: int| 0 <= j < i ==> list@[j] != id,
        decreases list@.len() - i,
    {
        if list[i] == id {
            return true;
        }
        i = i + 1;
    }
    false
}

/// The edges of `list` that do not touch `id`, in order.
fn edges_without_node(list: &Vec<Edge>, id: usize) -> (out: Vec<Edge>)
    ensures
        out@ == remove_node_edges_spec(list@, id),
{
    let mut out: Vec<Edge> = Vec::new();
    let mut i: usize = 0;
    while i < list.len()
        invariant
            i <= list@.len(),
            out@ == remove_node_edges_spec(list@.take(i as int), id),
        decreases list@.len() - i,
    {
        proof {
            lemma_remove_node_edges_step(list@, id, i as int);
        }
        let e = list[i];
        if e.u != id && e.v != id {
            out.push(e);
        }
        i = i + 1;
    }
    proof {
        assert(list@.take(list@.len() as int) =~= list@);
    }
    out
}

/// The edges of `list` whose triple differs from `(u, v, w)`, in order.
fn edges_without_triple(list: &Vec<Edge>, u: usize, v: usize, w: i32) -> (out: Vec<Edge>)
    ensures
        out@ == remove_edge_spec(list@, u, v, w),
{
    let mut out: Vec<Edge> = Vec::new();
    let mut i: usize = 0;
    while i < list.len()
        invariant
            i <= list@.len(),
            out@ == remove_edge_spec(list@.take(i as int), u, v, w),
        decreases list@.len() - i,
    {
        proof {
            lemma_remove_edge_step(list@, u, v, w, i as int);
        }
        let e = list[i];
        if !(e.u == u && e.v == v && e.w == w) {
            out.push(e);
        }
        i = i + 1;
    }
    proof {
        assert(list@.take(list@.len() as int) =~= list@);
    }
    out
}

/// The identifiers of `list` other than `id`, in order.
fn ids_without(list: &Vec<usize>, id: usize) -> (out: Vec<usize>)
    ensures
        out@ == remove_node_nodes_spec(list@, id),
{
    let mut out: Vec<usize> = Vec::new();
    let mut i: usize = 0;
    while i < list.len()
        invariant
            i <= list@.len(),
            out@ == remove_node_nodes_spec(list@.take(i as int), id),
        decreases list@.len() - i,
    {
        proof {
            lemma_remove_node_nodes_step(list@, id, i as int);
        }
        let n = list[i];
        if n != id {
            out.push(n);
        }
        i = i + 1;
    }
    proof {
        assert(list@.take(list@.len() as int) =~= list@);
    }
    out
}

/// The edges of `src`, reordered so that weights ascend; the multiset of
/// edges is preserved.
#[verifier::loop_isolation(false)]
fn sorted_by_weight(src: &Vec<Edge>) -> (out: Vec<Edge>)
    ensures
        sorted_by_w(out@),
        out@.to_multiset() == src@.to_multiset(),
{
    let mut rem: Vec<Edge> = Vec::new();
    let mut i: usize = 0;
    while i < src.len()
        invariant
            i <= src@.len(),
            rem@ == src@.take(i as int),
        decreases src@.len() - i,
    {
        rem.push(src[i]);
        i = i + 1;
    }
    proof {
        assert(src@.take(src@.len() as int) =~= src@);
    }
    let mut out: Vec<Edge> = Vec::new();
    proof {
        out@.to_multiset_ensures();
        vstd::multiset::lemma_multiset_empty_len(out@.to_multiset());
        assert(out@.to_multiset().add(rem@.to_multiset()) =~= src@.to_multiset());
    }
    while rem.len() > 0
        invariant
            out@.to_multiset().add(rem@.to_multiset()) == src@.to_multiset(),
            sorted_by_w(out@),
            forall|a: int, b: int|
                0 <= a < out@.len() && 0 <= b < rem@.len() ==> (#[trigger] out@[a]).w <= (
                #[trigger] rem@[b]).w,
        decreases rem@.len(),
    {
        let mut best: usize = 0;
        let mut t: usize = 1;
        while t < rem.len()
            invariant
                best < t <= rem@.len(),
                rem@.len() > 0,
                forall|j: int| 0 <= j < t ==> rem@[best as int].w <= (#[trigger] rem@[j]).w,
            decreases rem@.len() - t,
        {
            if rem[t].w < rem[best].w {
                best = t;
            }
            t = t + 1;
        }
        let ghost old_rem = rem@;
        let ghost old_out = out@;
        let e = rem.remove(best);
        out.push(e);
        proof {
            old_rem.to_multiset_ensures();
            old_out.to_multiset_ensures();
            assert(old_rem.contains(e)) by {
                assert(old_rem[best as int] == e);
            }
            assert(old_rem.to_multiset().count(e) > 0);
            assert(rem@.to_multiset() =~= old_rem.to_multiset().remove(e));
            assert(out@.to_multiset() =~= old_out.to_multiset().insert(e));
            assert(out@.to_multiset().add(rem@.to_multiset()) =~= src@.to_multiset());
            old_rem.remove_ensures(best as int);
            assert forall|a: int, b: int|
                0 <= a < out@.len() && 0 <= b < rem@.len() implies (#[trigger] out@[a]).w <= (
            #[trigger] rem@[b]).w by {
                assert(rem@[b] == if b < best as int {
                    old_rem[b]
                } else {
                    old_rem[b + 1]
                });
                if a < out@.len() - 1 {
                    assert(out@[a] == old_out[a]);
                } else {
                    assert(out@[a] == e);
                }
            }
        }
    }
    proof {
        rem@.to_multiset_ensures();
        vstd::multiset::lemma_multiset_empty_len(rem@.to_multiset());
        assert(rem@.to_multiset() =~= Multiset::<Edge>::empty());
        assert(out@.to_multiset() =~= src@.to_multiset());
    }
    out
}

/// The spanning forest that `kruskal` returns holds exactly
/// `n - k` edges, where `n` is the number of nodes of the input graph and
/// `k` the number of connected components they form under its edges; on a
/// connected input that is `n - 1`. The hypotheses are what `kruskal`
/// ensures of its result.
pub proof fn lemma_kruskal_edge_count(g: Graph, mst: Graph)
    requires
        g.wf(),
        forall|i: int| 0 <= i < g.nodes@.len() ==> (#[trigger] g.nodes@[i]) < MAX_NODE_INDEX,
        forest(mst.edges@),
        forall|i: int| 0 <= i < mst.edges@.len() ==> g.edges@.contains(#[trigger] mst.edges@[i]),
        forall|a: int, b: int|
            0 <= a < MAX_NODE_INDEX && 0 <= b < MAX_NODE_INDEX ==> (#[trigger] conn(
                mst.edges@,
                a,
                b,
            ) <==> conn(g.edges@, a, b)),
    ensures
        mst.edges@.len() + class_count(g.edges@, g.nodes@) == g.nodes@.len(),
{
    assert forall|k: int| 0 <= k < mst.edges@.len() implies g.nodes@.contains(
        (#[trigger] mst.edges@[k]).u,
    ) && g.nodes@.contains(mst.edges@[k].v) by {
        let e = mst.edges@[k];
        assert(g.edges@.contains(e));
        let j = choose|j: int| 0 <= j < g.edges@.len() && g.edges@[j] == e;
        assert(g.nodes@.contains(e.u) && g.nodes@.contains(e.v));
    }
    assert forall|i: int, j: int| 0 <= i < g.nodes@.len() && 0 <= j < g.nodes@.len() implies (conn(
        mst.edges@,
        #[trigger] g.nodes@[i] as int,
        #[trigger] g.nodes@[j] as int,
    ) <==> conn(g.edges@, g.nodes@[i] as int, g.nodes@[j] as int)) by {
        assert(0 <= g.nodes@[i] < MAX_NODE_INDEX && 0 <= g.nodes@[j] < MAX_NODE_INDEX);
    }
    lemma_spanning_forest_edge_count(mst.edges@, g.edges@, g.nodes@);
}

/// Minimum-spanning-forest optimality, at the level of graphs: the forest
/// `kruskal` returns for `g` weighs no more than any competing spanning
/// forest of `g`'s edges, the competitor listed in ascending weight
/// order. The hypotheses on `mst` are what `kruskal` ensures.
pub proof fn lemma_kruskal_minimal_for(g: Graph, mst: Graph, f: Seq<Edge>)
    requires
        g.wf(),
        forall|i: int| 0 <= i < g.nodes@.len() ==> (#[trigger] g.nodes@[i]) < MAX_NODE_INDEX,
        sorted_by_w(mst.edges@),
        forest(mst.edges@),
        forall|i: int| 0 <= i < mst.edges@.len() ==> g.edges@.contains(#[trigger] mst.edges@[i]),
        forall|a: int, b: int|
            0 <= a < MAX_NODE_INDEX && 0 <= b < MAX_NODE_INDEX ==> (#[trigger] conn(
                mst.edges@,
                a,
                b,
            ) <==> conn(g.edges@, a, b)),
        forall|j: int|
            0 <= j < g.edges@.len() ==> conn(
                light_edges(mst.edges@, (#[trigger] g.edges@[j]).w),
                g.edges@[j].u as int,
                g.edges@[j].v as int,
            ),
        sorted_by_w(f),
        forest(f),
        forall|k: int| 0 <= k < f.len() ==> g.edges@.contains(#[trigger] f[k]),
        forall|a: int, b: int|
            0 <= a < MAX_NODE_INDEX && 0 <= b < MAX_NODE_INDEX ==> (#[trigger] conn(f, a, b)
                <==> conn(g.edges@, a, b)),
    ensures
        sum_w(mst.edges@) <= sum_w(f),
{
    assert forall|k: int| 0 <= k < mst.edges@.len() implies g.nodes@.contains(
        (#[trigger] mst.edges@[k]).u,
    ) && g.nodes@.contains(mst.edges@[k].v) by {
        let e = mst.edges@[k];
        assert(g.edges@.contains(e));
        let j = choose|j: int| 0 <= j < g.edges@.len() && g.edges@[j] == e;
        assert(g.nodes@.contains(e.u) && g.nodes@.contains(e.v));
    }
    assert forall|k: int| 0 <= k < f.len() implies g.nodes@.contains((#[trigger] f[k]).u)
        && g.nodes@.contains(f[k].v) by {
        let e = f[k];
        assert(g.edges@.contains(e));
        let j = choose|j: int| 0 <= j < g.edges@.len() && g.edges@[j] == e;
        assert(g.nodes@.contains(e.u) && g.nodes@.contains(e.v));
    }
    assert forall|i: int, j: int| 0 <= i < g.nodes@.len() && 0 <= j < g.nodes@.len() implies (conn(
        mst.edges@,
        #[trigger] g.nodes@[i] as int,
        #[trigger] g.nodes@[j] as int,
    ) <==> conn(g.edges@, g.nodes@[i] as int, g.nodes@[j] as int)) && (conn(
        f,
        g.nodes@[i] as int,
        g.nodes@[j] as int,
    ) <==> conn(g.edges@, g.nodes@[i] as int, g.nodes@[j] as int)) by {
        assert(0 <= g.nodes@[i] < MAX_NODE_INDEX && 0 <= g.nodes@[j] < MAX_NODE_INDEX);
    }
    lemma_kruskal_minimal(mst.edges@, f, g.edges@, g.nodes@);
}

/// `add_node` leaves the identifier present and keeps every identifier
/// that was present before.
proof fn lemma_add_node_spec_contains(nodes: Seq<usize>, id: usize, x: usize)
    ensures
        add_node_spec(nodes, id).contains(id),
        nodes.contains(x) ==> add_node_spec(nodes, id).contains(x),
{
    if !nodes.contains(id) {
        assert(nodes.push(id)[nodes.len() as int] == id);
    }
    if nodes.contains(x) && !nodes.contains(id) {
        let i = choose|i: int| 0 <= i < nodes.len() && nodes[i] == x;
        assert(nodes.push(id)[i] == x);
    }
}

/// Adding a node twice is the same as adding it once.
pub proof fn lemma_add_node_idempotent(nodes: Seq<usize>, id: usize)
    ensures
        add_node_spec(add_node_spec(nodes, id), id) == add_node_spec(nodes, id),
{
    if !nodes.contains(id) {
        assert(nodes.push(id)[nodes.len() as int] == id);
        assert(add_node_spec(nodes, id).contains(id));
    }
}

/// Removing an edge triple twice is the same as removing it once.
pub proof fn lemma_remove_edge_idempotent(es: Seq<Edge>, u: usize, v: usize, w: i32)
    ensures
        remove_edge_spec(remove_edge_spec(es, u, v, w), u, v, w) == remove_edge_spec(es, u, v, w),
    decreases es.len(),
{
    reveal(Seq::filter);
    if es.len() > 0 {
        let r = es.drop_last();
        lemma_remove_edge_idempotent(r, u, v, w);
        let fr = remove_edge_spec(r, u, v, w);
        let le = es.last();
        if !(le.u == u && le.v == v && le.w == w) {
            let fs = fr.push(le);
            assert(fs.drop_last() =~= fr);
            assert(fs.last() == le);
        }
    }
}

/// Cascading an identifier out of a one-longer prefix keeps or drops
/// exactly the newly exposed edge.
proof fn lemma_remove_node_edges_step(s: Seq<Edge>, id: usize, k: int)
    requires
        0 <= k < s.len(),
    ensures
        remove_node_edges_spec(s.take(k + 1), id) == if s[k].u != id && s[k].v != id {
            remove_node_edges_spec(s.take(k), id).push(s[k])
        } else {
            remove_node_edges_spec(s.take(k), id)
        },
{
    reveal(Seq::filter);
    assert(s.take(k + 1).drop_last() =~= s.take(k));
    assert(s.take(k + 1).last() == s[k]);
}

/// Removing a triple from a one-longer prefix keeps or drops exactly the
/// newly exposed edge.
proof fn lemma_remove_edge_step(s: Seq<Edge>, u: usize, v: usize, w: i32, k: int)
    requires
        0 <= k < s.len(),
    ensures
        remove_edge_spec(s.take(k + 1), u, v, w) == if !(s[k].u == u && s[k].v == v && s[k].w == w) {
            remove_edge_spec(s.take(k), u, v, w).push(s[k])
        } else {
            remove_edge_spec(s.take(k), u, v, w)
        },
{
    reveal(Seq::filter);
    assert(s.take(k + 1).drop_last() =~= s.take(k));
    assert(s.take(k + 1).last() == s[k]);
}

/// Removing an identifier from a one-longer prefix keeps or drops exactly
/// the newly exposed element.
proof fn lemma_remove_node_nodes_step(s: Seq<usize>, id: usize, k: int)
    requires
        0 <= k < s.len(),
    ensures
        remove_node_nodes_spec(s.take(k + 1), id) == if s[k] != id {
            remove_node_nodes_spec(s.take(k), id).push(s[k])
        } else {
            remove_node_nodes_spec(s.take(k), id)
        },
{
    reveal(Seq::filter);
    assert(s.take(k + 1).drop_last() =~= s.take(k));
    assert(s.take(k + 1).last() == s[k]);
}

/// What survives `remove_node` on the node side: exactly the identifiers
/// other than `id`, each at most once, in their old order.
proof fn lemma_remove_node_nodes_props(s: Seq<usize>, id: usize)
    requires
        forall|i: int, j: int| 0 <= i < j < s.len() ==> s[i] != s[j],
    ensures
        forall|x: usize| remove_node_nodes_spec(s, id).contains(x) ==> s.contains(x) && x != id,
        forall|x: usize| s.contains(x) && x != id ==> remove_node_nodes_spec(s, id).contains(x),
        forall|i: int, j: int|
            0 <= i < j < remove_node_nodes_spec(s, id).len() ==> remove_node_nodes_spec(s, id)[i]
                != remove_node_nodes_spec(s, id)[j],
    decreases s.len(),
{
    reveal(Seq::filter);
    if s.len() > 0 {
        let r = s.drop_last();
        let last = s.last();
        assert(forall|i: int, j: int| 0 <= i < j < r.len() ==> r[i] != r[j]);
        lemma_remove_node_nodes_props(r, id);
        let fr = remove_node_nodes_spec(r, id);
        let fs = remove_node_nodes_spec(s, id);
        assert forall|x: usize| fs.contains(x) implies s.contains(x) && x != id by {
            let i = choose|i: int| 0 <= i < fs.len() && fs[i] == x;
            if last != id && i == fs.len() - 1 {
                assert(s[s.len() - 1] == x);
            } else {
                assert(fr[i] == x);
                assert(fr.contains(x));
                assert(r.contains(x) && x != id);
                let j = choose|j: int| 0 <= j < r.len() && r[j] == x;
                assert(r[j] == s[j]);
            }
        }
        assert forall|x: usize| s.contains(x) && x != id implies fs.contains(x) by {
            let i = choose|i: int| 0 <= i < s.len() && s[i] == x;
            if i == s.len() - 1 {
                assert(fs[fs.len() - 1] == x);
            } else {
                assert(r[i] == x);
                assert(fr.contains(x));
                let j = choose|j: int| 0 <= j < fr.len() && fr[j] == x;
                assert(fs[j] == x);
            }
        }
        if last != id {
            assert forall|i: int, j: int| 0 <= i < j < fs.len() implies fs[i] != fs[j] by {
                if j == fs.len() - 1 {
                    assert(fs[i] == fr[i]);
                    assert(fr.contains(fr[i]));
                    if fs[i] == last {
                        assert(r.contains(last));
                        let t = choose|t: int| 0 <= t < r.len() && r[t] == last;
                        assert(s[t] == s[s.len() - 1]);
                    }
                } else {
                    assert(fs[i] == fr[i] && fs[j] == fr[j]);
                }
            }
        }
    }
}

/// Every edge surviving `remove_node` is an edge of the input that avoids `id`.
proof fn lemma_remove_node_edges_props(s: Seq<Edge>, id: usize)
    ensures
        forall|e: Edge| #[trigger]
            remove_node_edges_spec(s, id).contains(e) ==> s.contains(e) && e.u != id && e.v != id,
    decreases s.len(),
{
    reveal(Seq::filter);
    if s.len() > 0 {
        let r = s.drop_last();
        lemma_remove_node_edges_props(r, id);
        let fr = remove_node_edges_spec(r, id);
        let fs = remove_node_edges_spec(s, id);
        assert forall|e: Edge| fs.contains(e) implies s.contains(e) && e.u != id && e.v != id by {
            let i = choose|i: int| 0 <= i < fs.len() && fs[i] == e;
            if s.last().u != id && s.last().v != id && i == fs.len() - 1 {
                assert(s[s.len() - 1] == e);
            } else {
                assert(fr[i] == e);
                assert(fr.contains(e));
                assert(r.contains(e) && e.u != id && e.v != id);
                let j = choose|j: int| 0 <= j < r.len() && r[j] == e;
                assert(r[j] == s[j]);
            }
        }
    }
}

/// Every edge surviving `remove_edge` is an edge of the input and not the
/// removed triple.
proof fn lemma_remove_edge_props(s: Seq<Edge>, u: usize, v: usize, w: i32)
    ensures
        forall|e: Edge| #[trigger]
            remove_edge_spec(s, u, v, w).contains(e) ==> s.contains(e) && !(e.u == u && e.v == v
                && e.w == w),
    decreases s.len(),
{
    reveal(Seq::filter);
    if s.len() > 0 {
        let r = s.drop_last();
        lemma_remove_edge_props(r, u, v, w);
        let fr = remove_edge_spec(r, u, v, w);
        let fs = remove_edge_spec(s, u, v, w);
        assert forall|e: Edge| fs.contains(e) implies s.contains(e) && !(e.u == u && e.v == v
            && e.w == w) by {
            let le = s.last();
            let i = choose|i: int| 0 <= i < fs.len() && fs[i] == e;
            if !(le.u == u && le.v == v && le.w == w) && i == fs.len() - 1 {
                assert(s[s.len() - 1] == e);
            } else {
                assert(fr[i] == e);
                assert(fr.contains(e));
                assert(r.contains(e) && !(e.u == u && e.v == v && e.w == w));
                let j = choose|j: int| 0 <= j < r.len() && r[j] == e;
                assert(r[j] == s[j]);
            }
        }
    }
}

} // verus!
