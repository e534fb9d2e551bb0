use crate::edge::Edge;
use vstd::prelude::*;
use vstd::set::{axiom_set_remove_finite, axiom_set_remove_len};
use vstd::set_lib::{lemma_int_range, lemma_len_subset, set_int_range};

verus! {

/// Whether the edges of `es`, read as an undirected relation, connect `a`
/// to `b`: the equivalence closure of the edge set, built one edge at a time.
pub open spec fn conn(es: Seq<Edge>, a: int, b: int) -> bool
    decreases es.len(),
{
    if es.len() == 0 {
        a == b
    } else {
        let e = es.last();
        let r = es.drop_last();
        conn(r, a, b) || (conn(r, a, e.u as int) && conn(r, e.v as int, b)) || (conn(
            r,
            a,
            e.v as int,
        ) && conn(r, e.u as int, b))
    }
}

/// Whether the edges of `es`, in the order given, build a forest: each edge
/// joins two identifiers that the edges before it leave in different
/// components, so no edge ever closes a cycle.
pub open spec fn forest(es: Seq<Edge>) -> bool
    decreases es.len(),
{
    es.len() == 0 || {
        let e = es.last();
        let r = es.drop_last();
        forest(r) && !conn(r, e.u as int, e.v as int)
    }
}

/// `conn` is an equivalence relation: reflexive, symmetric and transitive.
pub proof fn lemma_conn_equiv(es: Seq<Edge>)
    ensures
        forall|a: int| conn(es, a, a),
        forall|a: int, b: int| conn(es, a, b) == conn(es, b, a),
        forall|a: int, b: int, c: int| conn(es, a, b) && conn(es, b, c) ==> conn(es, a, c),
    decreases es.len(),
{
    if es.len() > 0 {
        let r = es.drop_last();
        let e = es.last();
        lemma_conn_equiv(r);
        assert forall|a: int| conn(es, a, a) by {
            assert(conn(r, a, a));
        }
        assert forall|a: int, b: int| conn(es, a, b) == conn(es, b, a) by {
            assert(conn(r, a, b) == conn(r, b, a));
            assert(conn(r, a, e.u as int) == conn(r, e.u as int, a));
            assert(conn(r, a, e.v as int) == conn(r, e.v as int, a));
            assert(conn(r, b, e.u as int) == conn(r, e.u as int, b));
            assert(conn(r, b, e.v as int) == conn(r, e.v as int, b));
        }
        assert forall|a: int, b: int, c: int|
            conn(es, a, b) && conn(es, b, c) implies conn(es, a, c) by {
            let u = e.u as int;
            let v = e.v as int;
            if conn(r, a, b) {
                if conn(r, b, c) {
                    assert(conn(r, a, c));
                } else if conn(r, b, u) && conn(r, v, c) {
                    assert(conn(r, a, u) && conn(r, v, c));
                } else {
                    assert(conn(r, a, v) && conn(r, u, c));
                }
            } else if conn(r, a, u) && conn(r, v, b) {
                if conn(r, b, c) {
                    assert(conn(r, a, u) && conn(r, v, c));
                } else if conn(r, b, u) && conn(r, v, c) {
                    // b links v to u, so the whole edge collapses into one class
                    assert(conn(r, v, u));
                    assert(conn(r, a, c));
                } else {
                    assert(conn(r, b, v) && conn(r, u, c));
                    assert(conn(r, a, c));
                }
            } else {
                assert(conn(r, a, v) && conn(r, u, b));
                if conn(r, b, c) {
                    assert(conn(r, a, v) && conn(r, u, c));
                } else if conn(r, b, u) && conn(r, v, c) {
                    assert(conn(r, a, c));
                } else {
                    assert(conn(r, b, v) && conn(r, u, c));
                    assert(conn(r, u, v));
                    assert(conn(r, a, c));
                }
            }
        }
    }
}

/// The two endpoints of any edge of `es` are connected by `es`.
pub proof fn lemma_conn_edge(es: Seq<Edge>, i: int)
    requires
        0 <= i < es.len(),
    ensures
        conn(es, es[i].u as int, es[i].v as int),
    decreases es.len(),
{
    let r = es.drop_last();
    lemma_conn_equiv(r);
    if i < es.len() - 1 {
        lemma_conn_edge(r, i);
        assert(es[i] == r[i]);
        assert(conn(es, es[i].u as int, es[i].v as int));
    } else {
        assert(es[i] == es.last());
        assert(conn(r, es[i].u as int, es[i].u as int));
        assert(conn(r, es[i].v as int, es[i].v as int));
        assert(conn(es, es[i].u as int, es[i].v as int));
    }
}

/// Connectivity is monotone: a sequence whose every edge already links
/// connected endpoints of `es2` cannot connect more than `es2` does.
pub proof fn lemma_conn_mono(es1: Seq<Edge>, es2: Seq<Edge>)
    requires
        forall|i: int|
            0 <= i < es1.len() ==> conn(es2, #[trigger] es1[i].u as int, es1[i].v as int),
    ensures
        forall|a: int, b: int| conn(es1, a, b) ==> conn(es2, a, b),
    decreases es1.len(),
{
    lemma_conn_equiv(es2);
    if es1.len() > 0 {
        let r = es1.drop_last();
        let e = es1.last();
        let u = e.u as int;
        let v = e.v as int;
        assert(forall|i: int|
            0 <= i < r.len() ==> conn(es2, #[trigger] r[i].u as int, r[i].v as int));
        lemma_conn_mono(r, es2);
        assert(es1[es1.len() - 1] == e);
        assert(conn(es2, u, v));
        assert forall|a: int, b: int| conn(es1, a, b) implies conn(es2, a, b) by {
            if conn(r, a, b) {
                assert(conn(es2, a, b));
            } else if conn(r, a, u) && conn(r, v, b) {
                assert(conn(es2, a, u) && conn(es2, v, b));
                assert(conn(es2, a, v));
                assert(conn(es2, a, b));
            } else {
                assert(conn(r, a, v) && conn(r, u, b));
                assert(conn(es2, a, v) && conn(es2, u, b));
                assert(conn(es2, a, u));
                assert(conn(es2, a, b));
            }
        }
    }
}

/// The positions of `vs` that open a new connected component under `es`:
/// position `i` is kept when no earlier position holds an identifier
/// connected to `vs[i]`, so each component is counted at its first
/// appearance.
pub open spec fn first_reps(es: Seq<Edge>, vs: Seq<usize>) -> Set<int> {
    Set::new(
        |i: int|
            0 <= i < vs.len() && forall|j: int|
                0 <= j < i ==> !conn(es, #[trigger] vs[j] as int, vs[i] as int),
    )
}

/// The number of connected components that the identifiers of `vs` form
/// under the edges `es`.
pub open spec fn class_count(es: Seq<Edge>, vs: Seq<usize>) -> nat {
    first_reps(es, vs).len()
}

/// Every position of `vs` has a first representative: an earlier-or-equal
/// kept position holding a connected identifier.
proof fn lemma_first_rep(es: Seq<Edge>, vs: Seq<usize>, t: int) -> (i: int)
    requires
        0 <= t < vs.len(),
    ensures
        first_reps(es, vs).contains(i),
        conn(es, vs[i] as int, vs[t] as int),
        0 <= i <= t,
    decreases t,
{
    lemma_conn_equiv(es);
    if forall|j: int| 0 <= j < t ==> !conn(es, #[trigger] vs[j] as int, vs[t] as int) {
        t
    } else {
        let j = choose|j: int| 0 <= j < t && conn(es, vs[j] as int, vs[t] as int);
        let i = lemma_first_rep(es, vs, j);
        i
    }
}

/// The kept positions are finite: there are at most `vs.len()` of them.
proof fn lemma_first_reps_finite(es: Seq<Edge>, vs: Seq<usize>)
    ensures
        first_reps(es, vs).finite(),
        first_reps(es, vs).len() <= vs.len(),
{
    lemma_int_range(0, vs.len() as int);
    lemma_len_subset(first_reps(es, vs), set_int_range(0, vs.len() as int));
}

/// A sequence that connects at least as much as another leaves at most as
/// many components.
pub proof fn lemma_class_count_mono(more: Seq<Edge>, less: Seq<Edge>, vs: Seq<usize>)
    requires
        forall|i: int, j: int|
            0 <= i < vs.len() && 0 <= j < vs.len() && conn(
                less,
                #[trigger] vs[i] as int,
                #[trigger] vs[j] as int,
            ) ==> conn(more, vs[i] as int, vs[j] as int),
    ensures
        class_count(more, vs) <= class_count(less, vs),
{
    lemma_first_reps_finite(more, vs);
    lemma_first_reps_finite(less, vs);
    assert forall|i: int| first_reps(more, vs).contains(i) implies first_reps(less, vs).contains(
        i,
    ) by {
        assert forall|j: int| 0 <= j < i implies !conn(
            less,
            #[trigger] vs[j] as int,
            vs[i] as int,
        ) by {
            assert(!conn(more, vs[j] as int, vs[i] as int));
        }
    }
    lemma_len_subset(first_reps(more, vs), first_reps(less, vs));
}

/// A forest over distinct identifiers `vs` leaves exactly
/// `vs.len() - es.len()` connected components: every edge of the forest
/// joins two components that were apart.
pub proof fn lemma_forest_class_count(es: Seq<Edge>, vs: Seq<usize>)
    requires
        forest(es),
        forall|i: int, j: int| 0 <= i < j < vs.len() ==> vs[i] != vs[j],
        forall|k: int| 0 <= k < es.len() ==> vs.contains((#[trigger] es[k]).u) && vs.contains(es[k].v),
    ensures
        es.len() + class_count(es, vs) == vs.len(),
    decreases es.len(),
{
    lemma_first_reps_finite(es, vs);
    if es.len() == 0 {
        assert forall|i: int| 0 <= i < vs.len() implies first_reps(es, vs).contains(i) by {
            assert(forall|j: int| 0 <= j < i ==> !conn(es, #[trigger] vs[j] as int, vs[i] as int));
        }
        assert(first_reps(es, vs) =~= set_int_range(0, vs.len() as int));
        lemma_int_range(0, vs.len() as int);
    } else {
        let r = es.drop_last();
        let e = es.last();
        let u = e.u as int;
        let v = e.v as int;
        lemma_conn_equiv(r);
        assert(forall|k: int|
            0 <= k < r.len() ==> vs.contains((#[trigger] r[k]).u) && vs.contains(r[k].v)) by {
            assert(forall|k: int| 0 <= k < r.len() ==> r[k] == es[k]);
        }
        lemma_forest_class_count(r, vs);
        lemma_first_reps_finite(r, vs);
        assert(vs.contains(e.u) && vs.contains(e.v)) by {
            assert(es[es.len() - 1] == e);
        }
        let tu = choose|t: int| 0 <= t < vs.len() && vs[t] == e.u;
        let tv = choose|t: int| 0 <= t < vs.len() && vs[t] == e.v;
        let iu = lemma_first_rep(r, vs, tu);
        let iv = lemma_first_rep(r, vs, tv);
        assert(conn(r, vs[iu] as int, u));
        assert(conn(r, vs[iv] as int, v));
        // the two endpoints sat in different components, so their first
        // representatives differ
        assert(iu != iv) by {
            if iu == iv {
                assert(conn(r, u, v));
            }
        }
        let lo = if iu < iv {
            iu
        } else {
            iv
        };
        let hi = if iu < iv {
            iv
        } else {
            iu
        };
        // every pair connected under the longer sequence was connected
        // before, or runs through the new edge
        assert forall|a: int, b: int| conn(r, a, b) implies conn(es, a, b) by {}
        assert(conn(es, vs[lo] as int, vs[hi] as int)) by {
            assert(conn(r, vs[iu] as int, u) && conn(r, v, vs[iv] as int));
            assert(conn(r, vs[iv] as int, v) && conn(r, u, vs[iu] as int));
        }
        assert(first_reps(es, vs) =~= first_reps(r, vs).remove(hi)) by {
            assert forall|i: int| first_reps(es, vs).contains(i) implies first_reps(
                r,
                vs,
            ).remove(hi).contains(i) by {
                assert(forall|j: int|
                    0 <= j < i ==> !conn(es, #[trigger] vs[j] as int, vs[i] as int));
                assert(forall|j: int| 0 <= j < i ==> !conn(r, #[trigger] vs[j] as int, vs[i] as int));
                assert(first_reps(r, vs).contains(i));
                assert(i != hi) by {
                    if i == hi {
                        assert(conn(es, vs[lo] as int, vs[hi] as int));
                    }
                }
            }
            assert forall|i: int| first_reps(r, vs).remove(hi).contains(i) implies first_reps(
                es,
                vs,
            ).contains(i) by {
                assert forall|j: int| 0 <= j < i implies !conn(
                    es,
                    vs[j] as int,
                    #[trigger] vs[i] as int,
                ) by {
                    if conn(es, vs[j] as int, vs[i] as int) {
                        if conn(r, vs[j] as int, vs[i] as int) {
                            assert(!first_reps(r, vs).contains(i));
                        } else if conn(r, vs[j] as int, u) && conn(r, v, vs[i] as int) {
                            // `vs[i]` then heads `v`'s component: it equals `iv`,
                            // and `u`'s component starts even earlier, so `i`
                            // is the later of the two heads
                            assert(conn(r, vs[iv] as int, vs[i] as int));
                            assert(i == iv) by {
                                if i < iv {
                                    assert(!first_reps(r, vs).contains(iv));
                                } else if iv < i {
                                    assert(!first_reps(r, vs).contains(i));
                                }
                            }
                            let ju = lemma_first_rep(r, vs, j);
                            assert(conn(r, vs[ju] as int, u));
                            assert(ju == iu) by {
                                if ju < iu {
                                    assert(conn(r, vs[ju] as int, vs[iu] as int));
                                    assert(!first_reps(r, vs).contains(iu));
                                } else if iu < ju {
                                    assert(conn(r, vs[iu] as int, vs[ju] as int));
                                    assert(!first_reps(r, vs).contains(ju));
                                }
                            }
                            assert(iu <= j < i);
                            assert(i == hi);
                            assert(false);
                        } else {
                            assert(conn(r, vs[j] as int, v) && conn(r, u, vs[i] as int));
                            assert(conn(r, vs[iu] as int, vs[i] as int));
                            assert(i == iu) by {
                                if i < iu {
                                    assert(!first_reps(r, vs).contains(iu));
                                } else if iu < i {
                                    assert(!first_reps(r, vs).contains(i));
                                }
                            }
                            let jv = lemma_first_rep(r, vs, j);
                            assert(conn(r, vs[jv] as int, v));
                            assert(jv == iv) by {
                                if jv < iv {
                                    assert(conn(r, vs[jv] as int, vs[iv] as int));
                                    assert(!first_reps(r, vs).contains(iv));
                                } else if iv < jv {
                                    assert(conn(r, vs[iv] as int, vs[jv] as int));
                                    assert(!first_reps(r, vs).contains(jv));
                                }
                            }
                            assert(iv <= j < i);
                            assert(i == hi);
                            assert(false);
                        }
                    }
                }
            }
        }
        assert(first_reps(r, vs).contains(hi));
        axiom_set_remove_len(first_reps(r, vs), hi);
    }
}

/// A forest that connects the identifiers of `vs` exactly as `ges` does
/// holds `vs.len() - k` edges, where `k` is the number of connected
/// components that `vs` forms under `ges`.
pub proof fn lemma_spanning_forest_edge_count(fes: Seq<Edge>, ges: Seq<Edge>, vs: Seq<usize>)
    requires
        forest(fes),
        forall|i: int, j: int| 0 <= i < j < vs.len() ==> vs[i] != vs[j],
        forall|k: int|
            0 <= k < fes.len() ==> vs.contains((#[trigger] fes[k]).u) && vs.contains(fes[k].v),
        forall|i: int, j: int|
            0 <= i < vs.len() && 0 <= j < vs.len() ==> (conn(
                fes,
                #[trigger] vs[i] as int,
                #[trigger] vs[j] as int,
            ) <==> conn(ges, vs[i] as int, vs[j] as int)),
    ensures
        fes.len() + class_count(ges, vs) == vs.len(),
{
    lemma_forest_class_count(fes, vs);
    assert(first_reps(fes, vs) =~= first_reps(ges, vs)) by {
        assert forall|i: int| first_reps(fes, vs).contains(i) implies first_reps(ges, vs).contains(
            i,
        ) by {
            assert forall|j: int| 0 <= j < i implies !conn(
                ges,
                vs[j] as int,
                #[trigger] vs[i] as int,
            ) by {
                assert(!conn(fes, vs[j] as int, vs[i] as int));
            }
        }
        assert forall|i: int| first_reps(ges, vs).contains(i) implies first_reps(fes, vs).contains(
            i,
        ) by {
            assert forall|j: int| 0 <= j < i implies !conn(
                fes,
                vs[j] as int,
                #[trigger] vs[i] as int,
            ) by {
                assert(!conn(ges, vs[j] as int, vs[i] as int));
            }
        }
    }
}

/// Two sequences that hold the same edges, in whatever order and
/// multiplicity, connect exactly the same pairs.
pub proof fn lemma_conn_same_edges(es1: Seq<Edge>, es2: Seq<Edge>)
    requires
        forall|i: int| 0 <= i < es1.len() ==> es2.contains(#[trigger] es1[i]),
        forall|i: int| 0 <= i < es2.len() ==> es1.contains(#[trigger] es2[i]),
    ensures
        forall|a: int, b: int| conn(es1, a, b) == conn(es2, a, b),
{
    assert forall|i: int| 0 <= i < es1.len() implies conn(
        es2,
        #[trigger] es1[i].u as int,
        es1[i].v as int,
    ) by {
        let j = choose|j: int| 0 <= j < es2.len() && es2[j] == es1[i];
        lemma_conn_edge(es2, j);
    }
    assert forall|i: int| 0 <= i < es2.len() implies conn(
        es1,
        #[trigger] es2[i].u as int,
        es2[i].v as int,
    ) by {
        let j = choose|j: int| 0 <= j < es1.len() && es1[j] == es2[i];
        lemma_conn_edge(es1, j);
    }
    lemma_conn_mono(es1, es2);
    lemma_conn_mono(es2, es1);
}

} // verus!
