//! Kahn's topological sort over a well-formed constraint graph: a complete
//! ordering when the graph is acyclic, otherwise the degree-based cycle
//! diagnosis.

use crate::count::{
    in_from_rows, lemma_distinct_bounded_len, lemma_distinct_full_range, lemma_in_from_rows_push,
    lemma_occ_contains, lemma_occ_push, lemma_occ_take_le, lemma_pigeonhole,
    lemma_push_keeps_distinct, lemma_selected_ge_first, lemma_selected_le_first,
    lemma_take_keeps_distinct, occ, total_in,
};
use crate::graph::{
    build_graph, edge_count_to, has_pair, lemma_node_order_mentions, lemma_succs_of_has_pair,
    mentions, names_view, node_order, pairs_view, succs_of, Graph,
};
use vstd::pervasive::VecAdditionalExecFns;
use vstd::prelude::*;
use vstd::seq_lib::*;
use vstd::set_lib::*;

verus! {

/// Within `q`, every edge into a listed node leaves from an earlier listed
/// node.
pub open spec fn respects_edges(g: Graph, q: Seq<usize>) -> bool {
    forall|j: int, a: int| #![trigger g.edge(a, q[j] as int)]
        0 <= j < q.len() && g.edge(a, q[j] as int) ==> exists|i: int|
            0 <= i < j && (#[trigger] q[i]) as int == a
}

/// A node whose incoming edges are all accounted for by the processed
/// prefix has all its predecessors in that prefix.
proof fn lemma_new_zero_respects(g: Graph, q0: Seq<usize>, h: int, k: int, t: usize)
    requires
        g.wf(),
        g.n() <= usize::MAX,
        q0.no_duplicates(),
        forall|i: int| 0 <= i < q0.len() ==> ((#[trigger] q0[i]) as int) < g.n(),
        1 <= h <= q0.len(),
        0 <= k < g.succ_ids()[q0[h - 1] as int].len(),
        (t as int) < g.n(),
        total_in(g.succ_ids(), t as int) == in_from_rows(g.succ_ids(), q0.take(h - 1), t as int)
            + occ(g.succ_ids()[q0[h - 1] as int].take(k + 1), t as int),
    ensures
        forall|a: int|
            g.edge(a, t as int) ==> exists|i: int| 0 <= i < h && (#[trigger] q0[i]) as int == a,
{
    let rows = g.succ_ids();
    let n = g.n();
    let u = q0[h - 1];
    let qh = q0.take(h - 1);
    lemma_take_keeps_distinct(q0, h - 1);
    assert(!qh.contains(u)) by {
        if qh.contains(u) {
            let m = choose|m: int| 0 <= m < qh.len() && qh[m] == u;
            assert(q0[m] == q0[h - 1]);
        }
    }
    assert forall|a: int| g.edge(a, t as int) implies exists|i: int|
        0 <= i < h && (#[trigger] q0[i]) as int == a by {
        lemma_occ_contains(rows[a], t as int);
        assert(occ(rows[a], t as int) > 0);
        if a == u as int {
            assert(q0[h - 1] as int == a);
        } else if !qh.contains(a as usize) {
            let s1 = qh.push(u);
            lemma_push_keeps_distinct(qh, u);
            assert(!s1.contains(a as usize)) by {
                if s1.contains(a as usize) {
                    let m = choose|m: int| 0 <= m < s1.len() && s1[m] == a as usize;
                    if m < qh.len() {
                        assert(qh.contains(a as usize));
                    } else {
                        assert(s1[m] == u);
                        assert((a as usize) as int == a);
                    }
                }
            }
            let s2 = s1.push(a as usize);
            lemma_push_keeps_distinct(s1, a as usize);
            assert(forall|i: int| 0 <= i < s2.len() ==> ((#[trigger] s2[i]) as int) < n);
            lemma_selected_le_first(rows, s2, n, t as int);
            lemma_in_from_rows_push(rows, s1, a as usize, t as int);
            lemma_in_from_rows_push(rows, qh, u, t as int);
            lemma_occ_take_le(rows[u as int], k + 1, t as int);
            assert(in_from_rows(rows, s2, t as int) >= total_in(rows, t as int) + occ(
                rows[a],
                t as int,
            ));
            assert(false);
        } else {
            let m = choose|m: int| 0 <= m < qh.len() && qh[m] == a as usize;
            assert(q0[m] as int == a);
        }
    }
}

/// Kahn's traversal: repeatedly take a node with no unprocessed incoming
/// edge. The result lists a prefix of the nodes in a valid order; a node is
/// left out exactly when, at the end, it still has an incoming edge from
/// another left-out node.
fn kahn_ids(g: &Graph) -> (q: Vec<usize>)
    requires
        g.wf(),
    ensures
        q@.no_duplicates(),
        forall|i: int| 0 <= i < q@.len() ==> ((#[trigger] q@[i]) as int) < g.n(),
        q@.len() <= g.n(),
        respects_edges(*g, q@),
        forall|v: int|
            0 <= v < g.n() && !q@.contains(v as usize) ==> in_from_rows(g.succ_ids(), q@, v)
                < total_in(g.succ_ids(), v),
{
    let n = g.node_count();
    let mut indeg_w: Vec<usize> = Vec::new();
    let mut i: usize = 0;
    while i < n
        invariant
            g.wf(),
            n as int == g.n(),
            i <= n,
            indeg_w@.len() == i as int,
            forall|v: int| 0 <= v < i ==> indeg_w@[v] == g.indegs()[v],
        decreases n - i,
    {
        indeg_w.push(g.indeg_at(i));
        i += 1;
    }
    let mut q: Vec<usize> = Vec::new();
    let mut v: usize = 0;
    while v < n
        invariant
            g.wf(),
            n as int == g.n(),
            v <= n,
            indeg_w@.len() == n as int,
            forall|u: int| 0 <= u < n ==> indeg_w@[u] == g.indegs()[u],
            q@.no_duplicates(),
            forall|i: int| 0 <= i < q@.len() ==> ((#[trigger] q@[i]) as int) < v as int,
            forall|u: int| 0 <= u < v ==> (q@.contains(u as usize) <==> g.indegs()[u] == 0),
        decreases n - v,
    {
        let ghost q_old = q@;
        if indeg_w[v] == 0 {
            proof {
                assert(!q@.contains(v)) by {
                    if q@.contains(v) {
                        let m = choose|m: int| 0 <= m < q@.len() && q@[m] == v;
                        assert(((q@[m]) as int) < v as int);
                    }
                }
                lemma_push_keeps_distinct(q@, v);
            }
            q.push(v);
        }
        proof {
            assert forall|u: int| 0 <= u < v as int + 1 implies (q@.contains(u as usize)
                <==> g.indegs()[u] == 0) by {
                if u < v as int {
                    assert(q_old.contains(u as usize) <==> g.indegs()[u] == 0);
                    if q_old.contains(u as usize) {
                        let m = choose|m: int| 0 <= m < q_old.len() && q_old[m] == u as usize;
                        assert(q@[m] == u as usize);
                    }
                    if q@.contains(u as usize) && !q_old.contains(u as usize) {
                        let m = choose|m: int| 0 <= m < q@.len() && q@[m] == u as usize;
                        assert(m == q_old.len());
                        assert(u == v as int);
                    }
                } else {
                    if g.indegs()[u] == 0 {
                        assert(q@[q@.len() - 1] == v);
                    }
                    if q@.contains(u as usize) {
                        let m = choose|m: int| 0 <= m < q@.len() && q@[m] == u as usize;
                        if m < q_old.len() {
                            assert(((q_old[m]) as int) < v as int);
                        }
                    }
                }
            }
        }
        v += 1;
    }
    proof {
        lemma_distinct_bounded_len(q@, n as int);
        assert forall|w: int| 0 <= w < n implies (#[trigger] indeg_w@[w]) as int == total_in(
            g.succ_ids(),
            w,
        ) - in_from_rows(g.succ_ids(), q@.take(0), w) by {
            assert(q@.take(0).len() == 0);
        }
        assert(respects_edges(*g, q@)) by {
            assert forall|j: int, a: int|
                0 <= j < q@.len() && g.edge(a, q@[j] as int) implies exists|i: int|
                0 <= i < j && (#[trigger] q@[i]) as int == a by {
                let b = q@[j] as int;
                g.lemma_n_fits();
                assert((a as usize) as int == a);
                lemma_occ_contains(g.succ_ids()[a], b);
                let s1 = seq![a as usize];
                assert(s1.no_duplicates());
                assert(s1.drop_last() =~= Seq::<usize>::empty());
                assert(in_from_rows(g.succ_ids(), Seq::<usize>::empty(), b) == 0);
                assert(s1.last() == a as usize);
                assert(in_from_rows(g.succ_ids(), s1, b) == occ(g.succ_ids()[a], b));
                lemma_selected_le_first(g.succ_ids(), s1, n as int, b);
                assert(g.indegs()[b] == 0);
                assert(false);
            }
        }
    }
    let mut head: usize = 0;
    while head < q.len()
        invariant
            g.wf(),
            n as int == g.n(),
            indeg_w@.len() == n as int,
            head <= q@.len(),
            q@.len() <= n as int,
            q@.no_duplicates(),
            forall|i: int| 0 <= i < q@.len() ==> ((#[trigger] q@[i]) as int) < n as int,
            forall|w: int|
                0 <= w < n ==> (#[trigger] indeg_w@[w]) as int == total_in(g.succ_ids(), w)
                    - in_from_rows(g.succ_ids(), q@.take(head as int), w),
            forall|w: int| 0 <= w < n ==> ((#[trigger] indeg_w@[w]) == 0 <==> q@.contains(w as usize)),
            respects_edges(*g, q@),
        decreases n - head,
    {
        let u = q[head];
        let ghost qh = q@.take(head as int);
        head += 1;
        proof {
            assert(q@[head as int - 1] == u);
            lemma_take_keeps_distinct(q@, head as int - 1);
            assert(!qh.contains(u)) by {
                if qh.contains(u) {
                    let m = choose|m: int| 0 <= m < qh.len() && qh[m] == u;
                    assert(q@[m] == q@[head as int - 1]);
                }
            }
            assert forall|w: int| 0 <= w < n implies (#[trigger] indeg_w@[w]) as int == total_in(
                g.succ_ids(),
                w,
            ) - in_from_rows(g.succ_ids(), qh, w) - occ(
                g.succ_ids()[u as int].take(0),
                w,
            ) by {
                assert(g.succ_ids()[u as int].take(0).len() == 0);
            }
        }
        let deg = g.out_count(u);
        let mut k: usize = 0;
        while k < deg
            invariant
                g.wf(),
                n as int == g.n(),
                indeg_w@.len() == n as int,
                (u as int) < n as int,
                deg as int == g.succ_ids()[u as int].len(),
                k <= deg,
                1 <= head as int,
                head as int <= q@.len(),
                q@.len() <= n as int,
                q@[head as int - 1] == u,
                qh == q@.take(head as int - 1),
                !qh.contains(u),
                q@.no_duplicates(),
                forall|i: int| 0 <= i < q@.len() ==> ((#[trigger] q@[i]) as int) < n as int,
                forall|w: int|
                    0 <= w < n ==> (#[trigger] indeg_w@[w]) as int == total_in(g.succ_ids(), w)
                        - in_from_rows(g.succ_ids(), qh, w) - occ(
                        g.succ_ids()[u as int].take(k as int),
                        w,
                    ),
                forall|w: int|
                    0 <= w < n ==> ((#[trigger] indeg_w@[w]) == 0 <==> q@.contains(w as usize)),
                respects_edges(*g, q@),
            decreases deg - k,
        {
            let ghost rows = g.succ_ids();
            let ghost row_u = rows[u as int];
            let t = g.succ_at(u, k);
            proof {
                assert(row_u.take(k as int + 1) =~= row_u.take(k as int).push(row_u[k as int]));
                lemma_occ_push(row_u.take(k as int), row_u[k as int], t as int);
                lemma_occ_take_le(row_u, k as int + 1, t as int);
                let s1 = qh.push(u);
                lemma_push_keeps_distinct(qh, u);
                lemma_in_from_rows_push(rows, qh, u, t as int);
                lemma_selected_le_first(rows, s1, n as int, t as int);
                assert((indeg_w@[t as int]) as int >= 1);
            }
            let d = indeg_w[t];
            indeg_w.set(t, d - 1);
            let ghost q_old = q@;
            let ghost w_old = indeg_w@;
            if d == 1 {
                proof {
                    assert(!q@.contains(t));
                    lemma_push_keeps_distinct(q@, t);
                }
                q.push(t);
                proof {
                    lemma_distinct_bounded_len(q@, n as int);
                    assert(q@.take(head as int - 1) =~= q_old.take(head as int - 1));
                    g.lemma_n_fits();
                    lemma_new_zero_respects(*g, q_old, head as int, k as int, t);
                    assert forall|j: int, a: int|
                        0 <= j < q@.len() && g.edge(a, q@[j] as int) implies exists|i: int|
                        0 <= i < j && (#[trigger] q@[i]) as int == a by {
                        if j < q_old.len() {
                            assert(q_old[j] == q@[j]);
                            assert(g.edge(a, q_old[j] as int));
                            let i = choose|i: int| 0 <= i < j && (#[trigger] q_old[i]) as int == a;
                            assert(q@[i] as int == a);
                        } else {
                            assert(q@[j] == t);
                            let i = choose|i: int|
                                0 <= i < head as int && (#[trigger] q_old[i]) as int == a;
                            assert(q@[i] as int == a);
                        }
                    }
                }
            }
            proof {
                assert forall|w: int|
                    0 <= w < n implies (#[trigger] indeg_w@[w]) as int == total_in(
                    g.succ_ids(),
                    w,
                ) - in_from_rows(g.succ_ids(), qh, w) - occ(
                    g.succ_ids()[u as int].take(k as int + 1),
                    w,
                ) by {
                    assert(row_u.take(k as int + 1) =~= row_u.take(k as int).push(
                        row_u[k as int],
                    ));
                    lemma_occ_push(row_u.take(k as int), row_u[k as int], w);
                    if w == t as int {
                        assert(indeg_w@[w] == d - 1);
                    } else {
                        assert(indeg_w@[w] == w_old[w]);
                        assert(row_u[k as int] as int != w);
                    }
                }
                assert forall|w: int|
                    0 <= w < n implies ((#[trigger] indeg_w@[w]) == 0 <==> q@.contains(
                    w as usize,
                )) by {
                    if w == t as int {
                        if d == 1 {
                            assert(q@[q@.len() - 1] == t);
                        } else {
                            if q@.contains(w as usize) {
                                let m = choose|m: int| 0 <= m < q@.len() && q@[m] == w as usize;
                                assert(q_old[m] == w as usize);
                            }
                        }
                    } else {
                        if d == 1 {
                            if q@.contains(w as usize) && !q_old.contains(w as usize) {
                                let m = choose|m: int| 0 <= m < q@.len() && q@[m] == w as usize;
                                assert(m == q_old.len());
                            }
                            if q_old.contains(w as usize) {
                                let m = choose|m: int| 0 <= m < q_old.len() && q_old[m] == w
                                    as usize;
                                assert(q@[m] == w as usize);
                            }
                        }
                    }
                }
            }
            k += 1;
        }
        proof {
            let ghost rows = g.succ_ids();
            let ghost row_u = rows[u as int];
            assert(row_u.take(deg as int) =~= row_u);
            assert(q@.take(head as int) =~= qh.push(u));
            assert forall|w: int| 0 <= w < n implies (#[trigger] indeg_w@[w]) as int == total_in(
                rows,
                w,
            ) - in_from_rows(rows, q@.take(head as int), w) by {
                lemma_in_from_rows_push(rows, qh, u, w);
            }
        }
    }
    proof {
        assert(q@.take(q@.len() as int) =~= q@);
        assert forall|v: int| 0 <= v < g.n() && !q@.contains(v as usize) implies in_from_rows(
            g.succ_ids(),
            q@,
            v,
        ) < total_in(g.succ_ids(), v) by {
            assert(indeg_w@[v] != 0);
        }
    }
    q
}

/// `p` is a walk of length `m + 1` inside `stuck`, ending at `v0`.
spec fn stuck_walk(g: Graph, stuck: Set<int>, v0: int, m: nat, p: Seq<int>) -> bool {
    &&& p.len() == m + 1
    &&& p[p.len() - 1] == v0
    &&& (forall|i: int| 0 <= i < p.len() ==> stuck.contains(#[trigger] p[i]))
    &&& (forall|i: int| 0 <= i < p.len() - 1 ==> g.edge(#[trigger] p[i], p[i + 1]))
}

/// When every stuck node has a stuck predecessor, walks of any length end
/// at a chosen stuck node.
proof fn lemma_stuck_walk(g: Graph, stuck: Set<int>, v0: int, m: nat)
    requires
        stuck.contains(v0),
        forall|v: int| #[trigger] stuck.contains(v) ==> exists|u: int|
            #[trigger] stuck.contains(u) && g.edge(u, v),
    ensures
        exists|p: Seq<int>| #[trigger] stuck_walk(g, stuck, v0, m, p),
    decreases m,
{
    if m == 0 {
        let p = seq![v0];
        assert(stuck_walk(g, stuck, v0, m, p));
    } else {
        lemma_stuck_walk(g, stuck, v0, (m - 1) as nat);
        let p0 = choose|p: Seq<int>| #[trigger] stuck_walk(g, stuck, v0, (m - 1) as nat, p);
        let w = p0[0];
        assert(stuck.contains(w));
        let u = choose|u: int| #[trigger] stuck.contains(u) && g.edge(u, w);
        let p = seq![u] + p0;
        assert(stuck_walk(g, stuck, v0, m, p)) by {
            assert(p[0] == u);
            assert forall|i: int| 0 <= i < p.len() implies stuck.contains(#[trigger] p[i]) by {
                if i > 0 {
                    assert(p[i] == p0[i - 1]);
                }
            }
            assert forall|i: int| 0 <= i < p.len() - 1 implies g.edge(
                #[trigger] p[i],
                p[i + 1],
            ) by {
                if i == 0 {
                    assert(p[1] == p0[0]);
                } else {
                    assert(p[i] == p0[i - 1]);
                    assert(p[i + 1] == p0[i]);
                }
            }
            assert(p[p.len() - 1] == p0[p0.len() - 1]);
        }
    }
}

/// A nonempty set of nodes in which every node has a predecessor from the
/// same set yields a directed cycle.
#[verifier::rlimit(60)]
proof fn lemma_stuck_cycle(g: Graph, stuck: Set<int>, v0: int)
    requires
        g.wf(),
        stuck.contains(v0),
        forall|v: int| #[trigger] stuck.contains(v) ==> 0 <= v < g.n(),
        forall|v: int| #[trigger] stuck.contains(v) ==> exists|u: int|
            #[trigger] stuck.contains(u) && g.edge(u, v),
    ensures
        g.has_cycle(),
{
    let n = g.n();
    lemma_stuck_walk(g, stuck, v0, n as nat);
    let p = choose|p: Seq<int>| #[trigger] stuck_walk(g, stuck, v0, n as nat, p);
    lemma_pigeonhole(p, n);
    let (i, j) = choose|i: int, j: int| 0 <= i < j < p.len() && p[i] == p[j];
    let c = p.subrange(i, j + 1);
    assert(g.is_cycle(c)) by {
        assert(c.len() == j + 1 - i);
        assert(c[0] == p[i]);
        assert(c[c.len() - 1] == p[j]);
        assert forall|m: int| 0 <= m < c.len() - 1 implies g.edge(#[trigger] c[m], c[m + 1]) by {
            assert(c[m] == p[i + m]);
            assert(c[m + 1] == p[i + m + 1]);
        }
    }
    assert(g.has_cycle());
}

/// The index at which `q` lists node `v`.
spec fn pos_in(q: Seq<usize>, v: int) -> int {
    choose|i: int| 0 <= i < q.len() && (#[trigger] q[i]) as int == v
}

/// Along a chain of edges inside a complete edge-respecting order, the
/// position grows by at least one per step.
proof fn lemma_chain_pos(g: Graph, q: Seq<usize>, c: Seq<int>, m: int)
    requires
        g.wf(),
        g.n() <= usize::MAX,
        q.no_duplicates(),
        forall|i: int| 0 <= i < q.len() ==> ((#[trigger] q[i]) as int) < g.n(),
        q.len() == g.n(),
        respects_edges(g, q),
        forall|i: int| 0 <= i < c.len() ==> 0 <= #[trigger] c[i] < g.n(),
        forall|i: int| 0 <= i < c.len() - 1 ==> g.edge(#[trigger] c[i], c[i + 1]),
        0 <= m < c.len(),
    ensures
        0 <= pos_in(q, c[m]) < q.len(),
        q[pos_in(q, c[m])] as int == c[m],
        pos_in(q, c[m]) >= pos_in(q, c[0]) + m,
    decreases m,
{
    lemma_distinct_full_range(q, g.n());
    assert(q.contains((c[m]) as usize));
    let w = choose|i: int| 0 <= i < q.len() && q[i] == (c[m]) as usize;
    assert((q[w]) as int == c[m]);
    assert(0 <= pos_in(q, c[m]) < q.len() && q[pos_in(q, c[m])] as int == c[m]);
    if m > 0 {
        lemma_chain_pos(g, q, c, m - 1);
        let pm1 = pos_in(q, c[m - 1]);
        let pm = pos_in(q, c[m]);
        assert(g.edge(c[m - 1], c[m]));
        assert(g.edge(c[m - 1], q[pm] as int));
        let i = choose|i: int| 0 <= i < pm && (#[trigger] q[i]) as int == c[m - 1];
        assert(q[i] == q[pm1]);
        assert(i == pm1);
    }
}

/// A complete duplicate-free order in which every edge goes forward rules
/// out any directed cycle.
proof fn lemma_order_acyclic(g: Graph, q: Seq<usize>)
    requires
        g.wf(),
        q.no_duplicates(),
        forall|i: int| 0 <= i < q.len() ==> ((#[trigger] q[i]) as int) < g.n(),
        q.len() == g.n(),
        respects_edges(g, q),
    ensures
        !g.has_cycle(),
{
    g.lemma_n_fits();
    if g.has_cycle() {
        let c = choose|p: Seq<int>| g.is_cycle(p);
        assert forall|i: int| 0 <= i < c.len() implies 0 <= #[trigger] c[i] < g.n() by {
            if i < c.len() - 1 {
                assert(g.edge(c[i], c[i + 1]));
            } else {
                assert(c[i] == c[0]);
                assert(g.edge(c[0], c[1int]));
            }
        }
        lemma_chain_pos(g, q, c, 0);
        lemma_chain_pos(g, q, c, c.len() - 1);
        assert(c[c.len() - 1] == c[0]);
        assert(false);
    }
}

/// The winner of the out-degree scan over the first `i` nodes: the name
/// with the most successors, earlier nodes winning ties, starting from the
/// empty name with a count that any node beats by exceeding zero.
pub open spec fn mo_rec(g: Graph, i: int) -> (Seq<char>, nat)
    decreases i,
{
    if i <= 0 {
        (Seq::<char>::empty(), 0)
    } else {
        let prev = mo_rec(g, i - 1);
        if g.succ_ids()[i - 1].len() > prev.1 {
            (g.names()[i - 1], g.succ_ids()[i - 1].len())
        } else {
            prev
        }
    }
}

/// The node with the most outgoing edges, first encountered winning ties.
pub open spec fn most_outgoing(g: Graph) -> Seq<char> {
    mo_rec(g, g.n()).0
}

/// The winner of the in-degree scan over the first `i` nodes: the name
/// with the smallest stored in-degree, earlier nodes winning ties, starting
/// from the empty name with the largest possible count.
pub open spec fn li_rec(g: Graph, i: int) -> (Seq<char>, nat)
    decreases i,
{
    if i <= 0 {
        (Seq::<char>::empty(), usize::MAX as nat)
    } else {
        let prev = li_rec(g, i - 1);
        if (g.indegs()[i - 1] as nat) < prev.1 {
            (g.names()[i - 1], g.indegs()[i - 1] as nat)
        } else {
            prev
        }
    }
}

/// The node with the fewest incoming edges, first encountered winning ties.
pub open spec fn least_incoming(g: Graph) -> Seq<char> {
    li_rec(g, g.n()).0
}

/// One pass over the nodes, in order: the most-outgoing and the
/// least-incoming node, as the cycle diagnosis reports them.
fn diagnostic(g: &Graph) -> (d: (String, String))
    requires
        g.wf(),
    ensures
        d.0@ == most_outgoing(*g),
        d.1@ == least_incoming(*g),
{
    let n = g.node_count();
    let mut mo_name = String::new();
    let mut mo_deg: usize = 0;
    let mut li_name = String::new();
    let mut li_deg: usize = usize::MAX;
    let mut i: usize = 0;
    while i < n
        invariant
            g.wf(),
            n as int == g.n(),
            i <= n,
            mo_name@ == mo_rec(*g, i as int).0,
            mo_deg as nat == mo_rec(*g, i as int).1,
            li_name@ == li_rec(*g, i as int).0,
            li_deg as nat == li_rec(*g, i as int).1,
        decreases n - i,
    {
        let od = g.out_count(i);
        if od > mo_deg {
            mo_name = g.name_at(i);
            mo_deg = od;
        }
        let idg = g.indeg_at(i);
        if idg < li_deg {
            li_name = g.name_at(i);
            li_deg = idg;
        }
        i += 1;
    }
    (mo_name, li_name)
}

/// `sv` is a valid topological ordering of `g`'s nodes: each node's name
/// once, and every edge's source strictly before its target.
pub open spec fn valid_ordering(g: Graph, sv: Seq<Seq<char>>) -> bool {
    &&& sv.len() == g.n()
    &&& sv.no_duplicates()
    &&& (forall|x: Seq<char>|
        #![trigger sv.contains(x)]
        #![trigger g.names().contains(x)]
        sv.contains(x) <==> g.names().contains(x))
    &&& (forall|a: Seq<char>, b: Seq<char>, i: int, j: int|
        #![trigger g.edge_n(a, b), sv[i], sv[j]]
        g.edge_n(a, b) && 0 <= i < sv.len() && 0 <= j < sv.len() && sv[i] == a && sv[j] == b
            ==> i < j)
}

/// Kahn's algorithm over a built graph. Succeeds with a valid complete
/// ordering exactly when the graph has no directed cycle; otherwise reports
/// the diagnostic pair (most outgoing node, least incoming node).
pub fn topological_sort(g: &Graph) -> (r: Result<Vec<String>, (String, String)>)
    requires
        g.wf(),
    ensures
        (r is Ok) <==> !g.has_cycle(),
        r matches Ok(sorted) ==> valid_ordering(*g, names_view(sorted@)),
        r matches Err(d) ==> d.0@ == most_outgoing(*g) && d.1@ == least_incoming(*g),
{
    let q = kahn_ids(g);
    let n = g.node_count();
    proof {
        g.lemma_n_fits();
    }
    if q.len() == n {
        let mut out: Vec<String> = Vec::new();
        let mut i: usize = 0;
        while i < n
            invariant
                g.wf(),
                n as int == g.n(),
                q@.len() == n as int,
                q@.no_duplicates(),
                forall|m: int| 0 <= m < q@.len() ==> ((#[trigger] q@[m]) as int) < g.n(),
                respects_edges(*g, q@),
                i <= n,
                out@.len() == i as int,
                forall|m: int| 0 <= m < i ==> (#[trigger] out@[m])@ == g.names()[q@[m] as int],
            decreases n - i,
        {
            let id = q[i];
            out.push(g.name_at(id));
            i += 1;
        }
        proof {
            let sv = names_view(out@);
            assert forall|m: int| 0 <= m < n implies #[trigger] sv[m] == g.names()[q@[m] as int] by {
                assert(sv[m] == out@[m]@);
            }
            assert(sv.no_duplicates()) by {
                assert forall|i1: int, j1: int|
                    0 <= i1 < sv.len() && 0 <= j1 < sv.len() && i1 != j1 implies sv[i1]
                    != sv[j1] by {
                    assert(q@[i1] != q@[j1]);
                    if (q@[i1] as int) < (q@[j1] as int) {
                        assert(g.names()[q@[i1] as int] != g.names()[q@[j1] as int]);
                    } else {
                        assert(g.names()[q@[j1] as int] != g.names()[q@[i1] as int]);
                    }
                }
            }
            lemma_distinct_full_range(q@, n as int);
            assert forall|x: Seq<char>| #[trigger] sv.contains(x) implies g.names().contains(
                x,
            ) by {
                let m = choose|m: int| 0 <= m < sv.len() && sv[m] == x;
                assert(g.names()[q@[m] as int] == x);
            }
            assert forall|x: Seq<char>| #[trigger] g.names().contains(x) implies sv.contains(
                x,
            ) by {
                let vi = choose|vi: int| 0 <= vi < g.names().len() && g.names()[vi] == x;
                assert(q@.contains(vi as usize));
                let m = choose|m: int| 0 <= m < q@.len() && q@[m] == vi as usize;
                assert((vi as usize) as int == vi);
                assert(sv[m] == x);
            }
            assert forall|a: Seq<char>, b: Seq<char>, i1: int, j1: int|
                g.edge_n(a, b) && 0 <= i1 < sv.len() && 0 <= j1 < sv.len() && (#[trigger] sv[i1])
                    == a && #[trigger] sv[j1] == b && #[trigger] g.edge_n(a, b) implies i1
                < j1 by {
                let (ia, jb) = choose|ia: int, jb: int|
                    0 <= ia < g.n() && 0 <= jb < g.n() && #[trigger] g.names()[ia] == a
                        && #[trigger] g.names()[jb] == b && g.edge(ia, jb);
                assert(q@[i1] as int == ia) by {
                    if (q@[i1] as int) != ia {
                        if (q@[i1] as int) < ia {
                            assert(g.names()[q@[i1] as int] != g.names()[ia]);
                        } else {
                            assert(g.names()[ia] != g.names()[q@[i1] as int]);
                        }
                    }
                }
                assert(q@[j1] as int == jb) by {
                    if (q@[j1] as int) != jb {
                        if (q@[j1] as int) < jb {
                            assert(g.names()[q@[j1] as int] != g.names()[jb]);
                        } else {
                            assert(g.names()[jb] != g.names()[q@[j1] as int]);
                        }
                    }
                }
                assert(g.edge(ia, q@[j1] as int));
                let i2 = choose|i2: int| 0 <= i2 < j1 && (#[trigger] q@[i2]) as int == ia;
                assert(q@[i2] == q@[i1]);
                assert(i2 == i1);
            }
            lemma_order_acyclic(*g, q@);
            assert(valid_ordering(*g, sv));
        }
        Ok(out)
    } else {
        proof {
            let rows = g.succ_ids();
            let nn = g.n();
            let stuck = Set::new(|v: int| 0 <= v < nn && !q@.contains(v as usize));
            assert(exists|v: int| #[trigger] stuck.contains(v)) by {
                if forall|v: int| 0 <= v < nn ==> q@.contains(#[trigger] (v as usize)) {
                    let qi = q@.map_values(|x: usize| x as int);
                    assert(qi.no_duplicates()) by {
                        assert forall|i1: int, j1: int|
                            0 <= i1 < qi.len() && 0 <= j1 < qi.len() && i1 != j1 implies qi[i1]
                            != qi[j1] by {
                            assert(q@[i1] != q@[j1]);
                        }
                    }
                    qi.unique_seq_to_set();
                    vstd::set_lib::lemma_int_range(0, nn);
                    assert(set_int_range(0, nn).subset_of(qi.to_set())) by {
                        assert forall|x: int| set_int_range(0, nn).contains(x) implies qi
                            .to_set().contains(x) by {
                            assert(q@.contains(x as usize));
                            let m = choose|m: int| 0 <= m < q@.len() && q@[m] == x as usize;
                            assert(qi[m] == x);
                            assert(qi.contains(x));
                        }
                    }
                    lemma_len_subset(set_int_range(0, nn), qi.to_set());
                    qi.lemma_cardinality_of_set();
                    assert(false);
                } else {
                    let v0 = choose|v: int| 0 <= v < nn && !q@.contains(#[trigger] (v as usize))
                    ;
                    assert(stuck.contains(v0));
                }
            }
            let v0 = choose|v: int| #[trigger] stuck.contains(v);
            assert forall|v: int| #[trigger] stuck.contains(v) implies exists|u: int|
                #[trigger] stuck.contains(u) && g.edge(u, v) by {
                assert(in_from_rows(rows, q@, v) < total_in(rows, v));
                if forall|u: int| 0 <= u < nn && !q@.contains(#[trigger] (u as usize)) ==> occ(
                    rows[u],
                    v,
                ) == 0 {
                    assert forall|u: int|
                        0 <= u < nn && !q@.contains(u as usize) implies occ(
                        #[trigger] rows[u],
                        v,
                    ) == 0 by {
                        assert(!q@.contains((u as usize)));
                    }
                    lemma_selected_ge_first(rows, q@, nn, v);
                    assert(false);
                } else {
                    let u = choose|u: int|
                        0 <= u < nn && !q@.contains(#[trigger] (u as usize)) && occ(rows[u], v)
                            != 0;
                    lemma_occ_contains(rows[u], v);
                    assert(g.edge(u, v));
                    assert(stuck.contains(u));
                }
            }
            lemma_stuck_cycle(*g, stuck, v0);
        }
        let d = diagnostic(g);
        Err(d)
    }
}

/// In a built graph the edges are exactly the submitted pairs.
pub proof fn lemma_built_edge_n(g: Graph, pv: Seq<(Seq<char>, Seq<char>)>)
    requires
        g.wf(),
        g.built_from(pv),
    ensures
        forall|a: Seq<char>, b: Seq<char>| #[trigger] g.edge_n(a, b) <==> has_pair(pv, a, b),
{
    assert forall|a: Seq<char>, b: Seq<char>| #[trigger] g.edge_n(a, b) implies has_pair(
        pv,
        a,
        b,
    ) by {
        let (ia, jb) = choose|ia: int, jb: int|
            0 <= ia < g.n() && 0 <= jb < g.n() && #[trigger] g.names()[ia] == a
                && #[trigger] g.names()[jb] == b && g.edge(ia, jb);
        let k = choose|k: int|
            0 <= k < g.succ_ids()[ia].len() && (#[trigger] g.succ_ids()[ia][k]) as int == jb;
        assert(g.succ_names(ia)[k] == g.names()[jb]);
        assert(succs_of(pv, a).contains(b));
        lemma_succs_of_has_pair(pv, a, b);
    }
    assert forall|a: Seq<char>, b: Seq<char>| has_pair(pv, a, b) implies #[trigger] g.edge_n(
        a,
        b,
    ) by {
        let m = choose|m: int| 0 <= m < pv.len() && (#[trigger] pv[m]).0 == a && pv[m].1 == b;
        lemma_node_order_mentions(pv, a);
        assert(mentions(pv, a));
        assert(g.names().contains(a));
        let ia = choose|ia: int| 0 <= ia < g.names().len() && g.names()[ia] == a;
        lemma_succs_of_has_pair(pv, a, b);
        assert(succs_of(pv, a).contains(b));
        assert(g.succ_names(ia).contains(b));
        let k = choose|k: int| 0 <= k < g.succ_names(ia).len() && g.succ_names(ia)[k] == b;
        let jb = g.succ_ids()[ia][k] as int;
        assert(g.names()[jb] == b);
        assert(g.edge(ia, jb));
    }
}

/// `c` walks the submitted pairs in a loop: consecutive entries are pairs
/// and the two ends are the same name.
pub open spec fn is_pairs_cycle(pv: Seq<(Seq<char>, Seq<char>)>, c: Seq<Seq<char>>) -> bool {
    &&& c.len() >= 2
    &&& c[0] == c[c.len() - 1]
    &&& forall|i: int| 0 <= i < c.len() - 1 ==> has_pair(pv, #[trigger] c[i], c[i + 1])
}

/// The submitted pairs close a directed cycle of names.
pub open spec fn pairs_cycle(pv: Seq<(Seq<char>, Seq<char>)>) -> bool {
    exists|c: Seq<Seq<char>>| #[trigger] is_pairs_cycle(pv, c)
}

/// The index of the node named `x`.
spec fn name_id(g: Graph, x: Seq<char>) -> int {
    choose|ia: int| 0 <= ia < g.n() && g.names()[ia] == x
}

/// A built graph has a cycle exactly when the pairs close one.
#[verifier::rlimit(60)]
pub proof fn lemma_built_cycle(g: Graph, pv: Seq<(Seq<char>, Seq<char>)>)
    requires
        g.wf(),
        g.built_from(pv),
    ensures
        g.has_cycle() <==> pairs_cycle(pv),
{
    lemma_built_edge_n(g, pv);
    if g.has_cycle() {
        let p = choose|p: Seq<int>| #[trigger] g.is_cycle(p);
        assert forall|i: int| 0 <= i < p.len() implies 0 <= #[trigger] p[i] < g.n() by {
            if i < p.len() - 1 {
                assert(g.edge(p[i], p[i + 1]));
            } else {
                assert(p[i] == p[0]);
                assert(g.edge(p[0], p[1int]));
            }
        }
        let c = Seq::new(p.len(), |i: int| g.names()[p[i]]);
        assert(is_pairs_cycle(pv, c)) by {
            assert(c[0] == c[c.len() - 1]);
            assert forall|i: int| 0 <= i < c.len() - 1 implies has_pair(
                pv,
                #[trigger] c[i],
                c[i + 1],
            ) by {
                assert(g.edge(p[i], p[i + 1]));
                assert(g.edge_n(c[i], c[i + 1]));
            }
        }
        assert(pairs_cycle(pv));
    }
    if pairs_cycle(pv) {
        let c = choose|c: Seq<Seq<char>>| #[trigger] is_pairs_cycle(pv, c);
        assert forall|i: int| 0 <= i < c.len() implies g.names().contains(#[trigger] c[i]) by {
            lemma_node_order_mentions(pv, c[i]);
            if i < c.len() - 1 {
                assert(has_pair(pv, c[i], c[i + 1]));
                let m = choose|m: int|
                    0 <= m < pv.len() && (#[trigger] pv[m]).0 == c[i] && pv[m].1 == c[i + 1];
                assert(mentions(pv, c[i]));
            } else {
                assert(c[i] == c[0]);
                assert(has_pair(pv, c[0], c[1int]));
                let m = choose|m: int|
                    0 <= m < pv.len() && (#[trigger] pv[m]).0 == c[0] && pv[m].1 == c[1int];
                assert(mentions(pv, c[0]));
            }
        }
        let p = Seq::new(c.len(), |i: int| name_id(g, c[i]));
        assert(g.is_cycle(p)) by {
            assert forall|i: int| 0 <= i < p.len() implies 0 <= #[trigger] p[i] < g.n()
                && g.names()[p[i]] == c[i] by {
                assert(g.names().contains(c[i]));
                let w = choose|w: int| 0 <= w < g.names().len() && g.names()[w] == c[i];
                assert(0 <= name_id(g, c[i]) < g.n() && g.names()[name_id(g, c[i])] == c[i]);
            }
            assert(p[0] == p[p.len() - 1]);
            assert forall|i: int| 0 <= i < p.len() - 1 implies g.edge(
                #[trigger] p[i],
                p[i + 1],
            ) by {
                assert(has_pair(pv, c[i], c[i + 1]));
                assert(g.edge_n(c[i], c[i + 1]));
                let (ia, jb) = choose|ia: int, jb: int|
                    0 <= ia < g.n() && 0 <= jb < g.n() && #[trigger] g.names()[ia] == c[i]
                        && #[trigger] g.names()[jb] == c[i + 1] && g.edge(ia, jb);
                assert(p[i] == ia) by {
                    if p[i] != ia {
                        if p[i] < ia {
                            assert(g.names()[p[i]] != g.names()[ia]);
                        } else {
                            assert(g.names()[ia] != g.names()[p[i]]);
                        }
                    }
                }
                assert(p[i + 1] == jb) by {
                    if p[i + 1] != jb {
                        if p[i + 1] < jb {
                            assert(g.names()[p[i + 1]] != g.names()[jb]);
                        } else {
                            assert(g.names()[jb] != g.names()[p[i + 1]]);
                        }
                    }
                }
            }
        }
        assert(g.has_cycle());
    }
}

/// The out-degree scan over the first `i` names of the pair list's node
/// order, mirroring the graph-level scan.
pub open spec fn mo_rec_p(pv: Seq<(Seq<char>, Seq<char>)>, i: int) -> (Seq<char>, nat)
    decreases i,
{
    if i <= 0 {
        (Seq::<char>::empty(), 0)
    } else {
        let prev = mo_rec_p(pv, i - 1);
        let nd = node_order(pv)[i - 1];
        if succs_of(pv, nd).len() > prev.1 {
            (nd, succs_of(pv, nd).len())
        } else {
            prev
        }
    }
}

/// The name with the most outgoing pairs, first encountered winning ties.
pub open spec fn most_outgoing_of(pv: Seq<(Seq<char>, Seq<char>)>) -> Seq<char> {
    mo_rec_p(pv, node_order(pv).len() as int).0
}

/// The in-degree scan over the first `i` names of the pair list's node
/// order, mirroring the graph-level scan.
pub open spec fn li_rec_p(pv: Seq<(Seq<char>, Seq<char>)>, i: int) -> (Seq<char>, nat)
    decreases i,
{
    if i <= 0 {
        (Seq::<char>::empty(), usize::MAX as nat)
    } else {
        let prev = li_rec_p(pv, i - 1);
        let nd = node_order(pv)[i - 1];
        if edge_count_to(pv, nd) < prev.1 {
            (nd, edge_count_to(pv, nd))
        } else {
            prev
        }
    }
}

/// The name with the fewest incoming pairs, first encountered winning ties.
pub open spec fn least_incoming_of(pv: Seq<(Seq<char>, Seq<char>)>) -> Seq<char> {
    li_rec_p(pv, node_order(pv).len() as int).0
}

/// On a built graph the two degree scans agree with the pair-level ones.
proof fn lemma_diag_built(g: Graph, pv: Seq<(Seq<char>, Seq<char>)>, i: int)
    requires
        g.wf(),
        g.built_from(pv),
        0 <= i <= g.n(),
    ensures
        mo_rec(g, i) == mo_rec_p(pv, i),
        li_rec(g, i) == li_rec_p(pv, i),
    decreases i,
{
    if i > 0 {
        lemma_diag_built(g, pv, i - 1);
        assert(g.names()[i - 1] == node_order(pv)[i - 1]);
        assert(g.succ_names(i - 1) == succs_of(pv, g.names()[i - 1]));
        assert(g.succ_ids()[i - 1].len() == g.succ_names(i - 1).len());
        assert(g.indegs()[i - 1] as nat == edge_count_to(pv, g.names()[i - 1]));
    }
}

/// `sv` lists each name the pairs mention exactly once, with every pair's
/// source strictly before its target.
pub open spec fn sorted_matches_pairs(pv: Seq<(Seq<char>, Seq<char>)>, sv: Seq<Seq<char>>) -> bool {
    &&& sv.no_duplicates()
    &&& sv.len() == node_order(pv).len()
    &&& (forall|x: Seq<char>|
        #![trigger sv.contains(x)]
        #![trigger mentions(pv, x)]
        sv.contains(x) <==> mentions(pv, x))
    &&& (forall|m: int, i: int, j: int|
        #![trigger pv[m], sv[i], sv[j]]
        0 <= m < pv.len() && 0 <= i < sv.len() && 0 <= j < sv.len() && sv[i] == pv[m].0 && sv[j]
            == pv[m].1 ==> i < j)
}

/// Two runs over the same pair list succeed or fail together: the outcome
/// class of `sort_pairs` is `!pairs_cycle` of the input, so it depends on
/// nothing but the submitted pairs.
pub proof fn lemma_outcome_deterministic(
    pv: Seq<(Seq<char>, Seq<char>)>,
    first_ok: bool,
    second_ok: bool,
)
    requires
        first_ok == !pairs_cycle(pv),
        second_ok == !pairs_cycle(pv),
    ensures
        first_ok == second_ok,
{
}

/// Build the graph from the submitted pairs and order it: the whole
/// computation behind one request. Succeeds with a valid complete ordering
/// exactly when the pairs close no cycle; otherwise reports the pair of the
/// most-outgoing and the least-incoming node.
pub fn sort_pairs(pairs: &Vec<(String, String)>) -> (r: Result<Vec<String>, (String, String)>)
    ensures
        (r is Ok) <==> !pairs_cycle(pairs_view(pairs@)),
        r matches Ok(sorted) ==> sorted_matches_pairs(pairs_view(pairs@), names_view(sorted@)),
        r matches Err(d) ==> d.0@ == most_outgoing_of(pairs_view(pairs@)) && d.1@
            == least_incoming_of(pairs_view(pairs@)),
{
    let ghost pv = pairs_view(pairs@);
    let g = build_graph(pairs);
    let r = topological_sort(&g);
    proof {
        lemma_built_cycle(g, pv);
        lemma_built_edge_n(g, pv);
        lemma_diag_built(g, pv, g.n());
        assert(g.names().len() == node_order(pv).len());
        match &r {
            Ok(sorted) => {
                let sv = names_view(sorted@);
                assert(sorted_matches_pairs(pv, sv)) by {
                    assert forall|x: Seq<char>| #[trigger] sv.contains(x) implies mentions(
                        pv,
                        x,
                    ) by {
                        lemma_node_order_mentions(pv, x);
                    }
                    assert forall|x: Seq<char>| #[trigger] mentions(pv, x) implies sv.contains(
                        x,
                    ) by {
                        lemma_node_order_mentions(pv, x);
                    }
                    assert forall|m: int, i: int, j: int|
                        0 <= m < pv.len() && 0 <= i < sv.len() && 0 <= j < sv.len() && sv[i]
                            == (#[trigger] pv[m]).0 && #[trigger] sv[j] == pv[m].1
                            && #[trigger] sv[i] == pv[m].0 implies i < j by {
                        assert(has_pair(pv, pv[m].0, pv[m].1));
                        assert(g.edge_n(pv[m].0, pv[m].1));
                        assert(g.edge_n(sv[i], sv[j]));
                    }
                }
            },
            Err(_) => {
            },
        }
    }
    r
}

} // verus!
