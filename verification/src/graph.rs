//! The constraint graph. Nodes are string names, kept in first-encounter
//! order; adjacency rows hold node indices in submission order, duplicates
//! kept; each node carries its in-degree count.

use crate::count::{
    in_from_first, lemma_in_from_first_congruence, lemma_in_from_first_update_push,
    lemma_in_from_first_zero, lemma_occ_out_of_range, occ, total_in,
};
use vstd::pervasive::VecAdditionalExecFns;
use vstd::prelude::*;
use vstd::seq_lib::*;

verus! {

/// The names a vector of strings holds, as a sequence of views.
pub open spec fn names_view(ss: Seq<String>) -> Seq<Seq<char>> {
    ss.map_values(|s: String| s@)
}

/// The view of a pair list: each constraint as a pair of node names.
pub open spec fn pairs_view(pairs: Seq<(String, String)>) -> Seq<(Seq<char>, Seq<char>)> {
    pairs.map_values(|p: (String, String)| (p.0@, p.1@))
}

/// Some pair of `pv` is exactly (`a`, `b`).
pub open spec fn has_pair(pv: Seq<(Seq<char>, Seq<char>)>, a: Seq<char>, b: Seq<char>) -> bool {
    exists|m: int| 0 <= m < pv.len() && (#[trigger] pv[m]).0 == a && pv[m].1 == b
}

/// Some pair of `pv` names `x`, as source or as target.
pub open spec fn mentions(pv: Seq<(Seq<char>, Seq<char>)>, x: Seq<char>) -> bool {
    exists|m: int| 0 <= m < pv.len() && ((#[trigger] pv[m]).0 == x || pv[m].1 == x)
}

/// Every node mentioned in `pv`, each exactly once, in first-encounter
/// order; within one pair the target is recorded before the source, in the
/// order the builder touches the in-degree counts.
pub open spec fn node_order(pv: Seq<(Seq<char>, Seq<char>)>) -> Seq<Seq<char>>
    decreases pv.len(),
{
    if pv.len() == 0 {
        Seq::empty()
    } else {
        let prev = node_order(pv.drop_last());
        let withto = if prev.contains(pv.last().1) {
            prev
        } else {
            prev.push(pv.last().1)
        };
        if withto.contains(pv.last().0) {
            withto
        } else {
            withto.push(pv.last().0)
        }
    }
}

/// The successors of `a`: the targets of the pairs whose source is `a`, in
/// submission order, duplicates kept.
pub open spec fn succs_of(pv: Seq<(Seq<char>, Seq<char>)>, a: Seq<char>) -> Seq<Seq<char>>
    decreases pv.len(),
{
    if pv.len() == 0 {
        Seq::empty()
    } else {
        let prev = succs_of(pv.drop_last(), a);
        if pv.last().0 == a {
            prev.push(pv.last().1)
        } else {
            prev
        }
    }
}

/// The in-degree of `b`: how many pairs of `pv` target it.
pub open spec fn edge_count_to(pv: Seq<(Seq<char>, Seq<char>)>, b: Seq<char>) -> nat
    decreases pv.len(),
{
    if pv.len() == 0 {
        0
    } else {
        edge_count_to(pv.drop_last(), b) + if pv.last().1 == b {
            1nat
        } else {
            0nat
        }
    }
}

/// `node_order` lists exactly the mentioned names.
pub proof fn lemma_node_order_mentions(pv: Seq<(Seq<char>, Seq<char>)>, x: Seq<char>)
    ensures
        node_order(pv).contains(x) <==> mentions(pv, x),
    decreases pv.len(),
{
    broadcast use group_seq_properties;

    if pv.len() > 0 {
        lemma_node_order_mentions(pv.drop_last(), x);
        if mentions(pv, x) {
            let m = choose|m: int|
                0 <= m < pv.len() && ((#[trigger] pv[m]).0 == x || pv[m].1 == x);
            if m < pv.len() - 1 {
                assert(pv.drop_last()[m] == pv[m]);
                assert(mentions(pv.drop_last(), x));
            }
            assert(node_order(pv).contains(x));
        }
        if node_order(pv).contains(x) {
            if !mentions(pv, x) {
                assert(pv.last().0 != x && pv.last().1 != x);
                assert(!mentions(pv.drop_last(), x)) by {
                    if mentions(pv.drop_last(), x) {
                        let m = choose|m: int|
                            0 <= m < pv.drop_last().len() && ((#[trigger] pv.drop_last()[m]).0 == x
                                || pv.drop_last()[m].1 == x);
                        assert(pv[m] == pv.drop_last()[m]);
                    }
                }
                assert(!node_order(pv.drop_last()).contains(x));
                assert(false);
            }
        }
    }
}

/// A name that no pair of `pv` uses as a source has no successors.
pub proof fn lemma_succs_of_unmentioned(pv: Seq<(Seq<char>, Seq<char>)>, x: Seq<char>)
    requires
        !mentions(pv, x),
    ensures
        succs_of(pv, x) == Seq::<Seq<char>>::empty(),
    decreases pv.len(),
{
    if pv.len() > 0 {
        assert(!mentions(pv.drop_last(), x)) by {
            if mentions(pv.drop_last(), x) {
                let m = choose|m: int|
                    0 <= m < pv.drop_last().len() && ((#[trigger] pv.drop_last()[m]).0 == x
                        || pv.drop_last()[m].1 == x);
                assert(pv[m] == pv.drop_last()[m]);
            }
        }
        lemma_succs_of_unmentioned(pv.drop_last(), x);
        assert(pv.last().0 != x) by {
            if pv.last().0 == x {
                assert((pv[pv.len() - 1]).0 == x);
            }
        }
    }
}

/// A name that no pair of `pv` targets has in-degree zero.
pub proof fn lemma_count_unmentioned(pv: Seq<(Seq<char>, Seq<char>)>, x: Seq<char>)
    requires
        !mentions(pv, x),
    ensures
        edge_count_to(pv, x) == 0,
    decreases pv.len(),
{
    if pv.len() > 0 {
        assert(!mentions(pv.drop_last(), x)) by {
            if mentions(pv.drop_last(), x) {
                let m = choose|m: int|
                    0 <= m < pv.drop_last().len() && ((#[trigger] pv.drop_last()[m]).0 == x
                        || pv.drop_last()[m].1 == x);
                assert(pv[m] == pv.drop_last()[m]);
            }
        }
        lemma_count_unmentioned(pv.drop_last(), x);
        assert(pv.last().1 != x) by {
            if pv.last().1 == x {
                assert((pv[pv.len() - 1]).1 == x);
            }
        }
    }
}

/// `a` has successor `b` exactly when some pair is (`a`, `b`).
pub proof fn lemma_succs_of_has_pair(pv: Seq<(Seq<char>, Seq<char>)>, a: Seq<char>, b: Seq<char>)
    ensures
        succs_of(pv, a).contains(b) <==> has_pair(pv, a, b),
    decreases pv.len(),
{
    broadcast use group_seq_properties;

    if pv.len() > 0 {
        lemma_succs_of_has_pair(pv.drop_last(), a, b);
        if has_pair(pv, a, b) {
            let m = choose|m: int|
                0 <= m < pv.len() && (#[trigger] pv[m]).0 == a && pv[m].1 == b;
            if m < pv.len() - 1 {
                assert(pv.drop_last()[m] == pv[m]);
                assert(has_pair(pv.drop_last(), a, b));
            }
            assert(succs_of(pv, a).contains(b));
        }
        if succs_of(pv, a).contains(b) && !has_pair(pv, a, b) {
            assert(!(pv.last().0 == a && pv.last().1 == b)) by {
                if pv.last().0 == a && pv.last().1 == b {
                    assert((pv[pv.len() - 1]).0 == a && (pv[pv.len() - 1]).1 == b);
                }
            }
            assert(!has_pair(pv.drop_last(), a, b)) by {
                if has_pair(pv.drop_last(), a, b) {
                    let m = choose|m: int|
                        0 <= m < pv.drop_last().len() && (#[trigger] pv.drop_last()[m]).0 == a
                            && pv.drop_last()[m].1 == b;
                    assert(pv[m] == pv.drop_last()[m]);
                }
            }
            if pv.last().0 == a {
                assert(succs_of(pv, a) == succs_of(pv.drop_last(), a).push(pv.last().1));
                let i = choose|i: int|
                    0 <= i < succs_of(pv, a).len() && succs_of(pv, a)[i] == b;
                if i < succs_of(pv, a).len() - 1 {
                    assert(succs_of(pv.drop_last(), a)[i] == b);
                }
                assert(false);
            }
            assert(false);
        }
    }
}

/// A constraint graph over named nodes.
pub struct Graph {
    nodes: Vec<String>,
    succs: Vec<Vec<usize>>,
    indeg: Vec<usize>,
}

impl Graph {
    /// The node names, in first-encounter order.
    pub closed spec fn names(self) -> Seq<Seq<char>> {
        self.nodes@.map_values(|s: String| s@)
    }

    /// The adjacency rows: row `i` lists the indices of node `i`'s
    /// successors, in submission order, duplicates kept.
    pub closed spec fn succ_ids(self) -> Seq<Seq<usize>> {
        self.succs@.map_values(|r: Vec<usize>| r@)
    }

    /// The stored in-degree counts.
    pub closed spec fn indegs(self) -> Seq<usize> {
        self.indeg@
    }

    /// The number of nodes.
    pub open spec fn n(self) -> int {
        self.names().len() as int
    }

    /// Well-formed: three parallel columns, distinct names, adjacency
    /// entries in range, and every stored in-degree equal to the number of
    /// adjacency entries that point at the node.
    pub open spec fn wf(self) -> bool {
        &&& self.succ_ids().len() == self.n()
        &&& self.indegs().len() == self.n()
        &&& (forall|i: int, j: int|
            0 <= i < j < self.n() ==> #[trigger] self.names()[i] != #[trigger] self.names()[j])
        &&& (forall|i: int, k: int|
            0 <= i < self.n() && 0 <= k < self.succ_ids()[i].len() ==> ((
            #[trigger] self.succ_ids()[i][k]) as int) < self.n())
        &&& (forall|i: int|
            0 <= i < self.n() ==> (#[trigger] self.indegs()[i]) as nat == total_in(
                self.succ_ids(),
                i,
            ))
    }

    /// Node `b` is a direct successor of node `a` (by index).
    pub open spec fn edge(self, a: int, b: int) -> bool {
        &&& 0 <= a < self.n()
        &&& exists|k: int|
            0 <= k < self.succ_ids()[a].len() && (#[trigger] self.succ_ids()[a][k]) as int == b
    }

    /// There is an edge from the node named `a` to the node named `b`.
    pub open spec fn edge_n(self, a: Seq<char>, b: Seq<char>) -> bool {
        exists|i: int, j: int|
            0 <= i < self.n() && 0 <= j < self.n() && #[trigger] self.names()[i] == a
                && #[trigger] self.names()[j] == b && self.edge(i, j)
    }

    /// `p` is a directed cycle: consecutive entries are edges, and the two
    /// ends are the same node.
    pub open spec fn is_cycle(self, p: Seq<int>) -> bool {
        &&& p.len() >= 2
        &&& p[0] == p[p.len() - 1]
        &&& forall|i: int| 0 <= i < p.len() - 1 ==> self.edge(#[trigger] p[i], p[i + 1])
    }

    pub open spec fn has_cycle(self) -> bool {
        exists|p: Seq<int>| #[trigger] self.is_cycle(p)
    }

    /// The names of node `i`'s successors, in submission order.
    pub open spec fn succ_names(self, i: int) -> Seq<Seq<char>> {
        self.succ_ids()[i].map_values(|j: usize| self.names()[j as int])
    }

    /// Every node's successors and in-degree are the ones the pair list
    /// `pv` gives it.
    pub open spec fn rows_match(self, pv: Seq<(Seq<char>, Seq<char>)>) -> bool {
        &&& (forall|i: int|
            0 <= i < self.n() ==> #[trigger] self.succ_names(i) == succs_of(pv, self.names()[i]))
        &&& (forall|i: int|
            0 <= i < self.n() ==> (#[trigger] self.indegs()[i]) as nat == edge_count_to(
                pv,
                self.names()[i],
            ))
    }

    /// The graph is exactly what the builder makes of the pair list `pv`.
    pub open spec fn built_from(self, pv: Seq<(Seq<char>, Seq<char>)>) -> bool {
        &&& self.names() == node_order(pv)
        &&& self.rows_match(pv)
    }

    /// The node count fits in a machine word: the names live in a vector.
    pub proof fn lemma_n_fits(self)
        ensures
            self.n() <= usize::MAX,
    {
        broadcast use vstd::std_specs::vec::axiom_spec_len;

        assert(self.nodes@.len() == vstd::std_specs::vec::spec_vec_len(&self.nodes));
    }

    pub fn node_count(&self) -> (c: usize)
        ensures
            c as int == self.n(),
    {
        self.nodes.len()
    }

    pub fn name_at(&self, i: usize) -> (s: String)
        requires
            (i as int) < self.n(),
        ensures
            s@ == self.names()[i as int],
    {
        self.nodes[i].clone()
    }

    pub fn indeg_at(&self, i: usize) -> (d: usize)
        requires
            self.wf(),
            (i as int) < self.n(),
        ensures
            d == self.indegs()[i as int],
    {
        self.indeg[i]
    }

    pub fn out_count(&self, i: usize) -> (c: usize)
        requires
            self.wf(),
            (i as int) < self.n(),
        ensures
            c as int == self.succ_ids()[i as int].len(),
    {
        self.succs[i].len()
    }

    /// Find the node named `name`, or append it with an empty adjacency row
    /// and in-degree zero.
    fn ensure_node(&mut self, name: &String) -> (id: usize)
        requires
            old(self).wf(),
        ensures
            final(self).wf(),
            (id as int) < final(self).n(),
            final(self).names()[id as int] == name@,
            old(self).names().contains(name@) ==> *final(self) == *old(self),
            !old(self).names().contains(name@) ==> final(self).names() == old(self).names().push(
                name@,
            ),
            !old(self).names().contains(name@) ==> final(self).succ_ids() == old(
                self,
            ).succ_ids().push(Seq::<usize>::empty()),
            !old(self).names().contains(name@) ==> final(self).indegs() == old(
                self,
            ).indegs().push(0usize),
            !old(self).names().contains(name@) ==> id as int == old(self).n(),
            old(self).n() <= final(self).n(),
    {
        let n = self.nodes.len();
        let mut i: usize = 0;
        while i < n
            invariant
                old(self).wf(),
                *self == *old(self),
                n == self.nodes.len(),
                i <= n,
                forall|k: int| 0 <= k < i ==> self.names()[k] != name@,
            decreases n - i,
        {
            if self.nodes[i] == *name {
                assert(self.names()[i as int] == name@);
                return i;
            }
            assert(self.names()[i as int] != name@);
            i += 1;
        }
        assert(!self.names().contains(name@));
        let ghost g0 = *self;
        self.nodes.push(name.clone());
        self.succs.push(Vec::new());
        self.indeg.push(0);
        proof {
            assert(self.names() =~= g0.names().push(name@));
            assert(self.succ_ids() =~= g0.succ_ids().push(Seq::<usize>::empty()));
            assert(self.indegs() =~= g0.indegs().push(0usize));
            lemma_wf_after_push_node(g0, *self, name@);
        }
        n
    }

    /// Record one constraint: append `t` to `f`'s adjacency row and count
    /// one more incoming edge at `t`.
    fn add_edge(&mut self, f: usize, t: usize)
        requires
            old(self).wf(),
            (f as int) < old(self).n(),
            (t as int) < old(self).n(),
            old(self).indegs()[t as int] < usize::MAX,
        ensures
            final(self).wf(),
            final(self).names() == old(self).names(),
            final(self).succ_ids() == old(self).succ_ids().update(
                f as int,
                old(self).succ_ids()[f as int].push(t),
            ),
            final(self).indegs() == old(self).indegs().update(
                t as int,
                (old(self).indegs()[t as int] + 1) as usize,
            ),
    {
        let ghost g0 = *self;
        let mut row: Vec<usize> = Vec::new();
        self.succs.set_and_swap(f, &mut row);
        row.push(t);
        self.succs.set_and_swap(f, &mut row);
        let d = self.indeg[t];
        self.indeg.set(t, d + 1);
        proof {
            assert(self.succ_ids() =~= g0.succ_ids().update(
                f as int,
                g0.succ_ids()[f as int].push(t),
            ));
            assert(self.names() == g0.names());
            assert(self.indegs() =~= g0.indegs().update(
                t as int,
                (g0.indegs()[t as int] + 1) as usize,
            ));
            lemma_wf_after_add_edge(g0, *self, f, t);
        }
    }

    pub fn succ_at(&self, i: usize, k: usize) -> (t: usize)
        requires
            self.wf(),
            (i as int) < self.n(),
            (k as int) < self.succ_ids()[i as int].len(),
        ensures
            t == self.succ_ids()[i as int][k as int],
            (t as int) < self.n(),
    {
        self.succs[i][k]
    }
}

/// Building from the same pair list always yields the same graph: the same
/// node order, the same successor lists, and the same in-degree counts.
pub proof fn lemma_build_deterministic(g1: Graph, g2: Graph, pv: Seq<(Seq<char>, Seq<char>)>)
    requires
        g1.built_from(pv),
        g2.built_from(pv),
    ensures
        g1.names() == g2.names(),
        forall|i: int| 0 <= i < g1.n() ==> #[trigger] g1.succ_names(i) == g2.succ_names(i),
        forall|i: int| 0 <= i < g1.n() ==> #[trigger] g1.indegs()[i] == g2.indegs()[i],
{
    assert forall|i: int| 0 <= i < g1.n() implies #[trigger] g1.succ_names(i) == g2.succ_names(
        i,
    ) by {
        assert(g1.succ_names(i) == succs_of(pv, g1.names()[i]));
        assert(g2.succ_names(i) == succs_of(pv, g2.names()[i]));
    }
    assert forall|i: int| 0 <= i < g1.n() implies #[trigger] g1.indegs()[i] == g2.indegs()[i] by {
        assert(g1.indegs()[i] as nat == edge_count_to(pv, g1.names()[i]));
        assert(g2.indegs()[i] as nat == edge_count_to(pv, g2.names()[i]));
    }
}

/// Appending a fresh node keeps a graph well-formed.
proof fn lemma_wf_after_push_node(g0: Graph, g1: Graph, x: Seq<char>)
    requires
        g0.wf(),
        !g0.names().contains(x),
        g1.names() == g0.names().push(x),
        g1.succ_ids() == g0.succ_ids().push(Seq::<usize>::empty()),
        g1.indegs() == g0.indegs().push(0usize),
    ensures
        g1.wf(),
{
    let n = g0.n();
    assert forall|i: int, j: int| 0 <= i < j < g1.n() implies #[trigger] g1.names()[i]
        != #[trigger] g1.names()[j] by {
        if j < n {
            assert(g1.names()[i] == g0.names()[i]);
            assert(g1.names()[j] == g0.names()[j]);
        } else {
            assert(g1.names()[j] == x);
            assert(g1.names()[i] == g0.names()[i]);
            assert(g0.names().contains(g0.names()[i]));
        }
    }
    assert forall|i: int, k: int|
        0 <= i < g1.n() && 0 <= k < g1.succ_ids()[i].len() implies ((
    #[trigger] g1.succ_ids()[i][k]) as int) < g1.n() by {
        if i < n {
            assert(g1.succ_ids()[i] == g0.succ_ids()[i]);
        }
    }
    assert forall|i: int| 0 <= i < g1.n() implies (#[trigger] g1.indegs()[i]) as nat == total_in(
        g1.succ_ids(),
        i,
    ) by {
        if i < n {
            lemma_in_from_first_congruence(g1.succ_ids(), g0.succ_ids(), n, i);
            assert(g1.succ_ids()[n] == Seq::<usize>::empty());
            assert(occ(g1.succ_ids()[n], i) == 0);
            assert(total_in(g1.succ_ids(), i) == in_from_first(g1.succ_ids(), n, i));
            assert(g1.indegs()[i] == g0.indegs()[i]);
        } else {
            assert forall|j: int| 0 <= j < g1.n() implies occ(
                #[trigger] g1.succ_ids()[j],
                i,
            ) == 0 by {
                if j < n {
                    assert(g1.succ_ids()[j] == g0.succ_ids()[j]);
                    lemma_occ_out_of_range(g0.succ_ids()[j], n, i);
                } else {
                    assert(g1.succ_ids()[j] == Seq::<usize>::empty());
                }
            }
            lemma_in_from_first_zero(g1.succ_ids(), g1.n(), i);
            assert(g1.indegs()[i] == 0usize);
        }
    }
}

/// Recording one more edge keeps a graph well-formed.
proof fn lemma_wf_after_add_edge(g0: Graph, g1: Graph, f: usize, t: usize)
    requires
        g0.wf(),
        (f as int) < g0.n(),
        (t as int) < g0.n(),
        g0.indegs()[t as int] < usize::MAX,
        g1.names() == g0.names(),
        g1.succ_ids() == g0.succ_ids().update(f as int, g0.succ_ids()[f as int].push(t)),
        g1.indegs() == g0.indegs().update(t as int, (g0.indegs()[t as int] + 1) as usize),
    ensures
        g1.wf(),
{
    let n = g0.n();
    assert forall|i: int, k: int|
        0 <= i < g1.n() && 0 <= k < g1.succ_ids()[i].len() implies ((
    #[trigger] g1.succ_ids()[i][k]) as int) < g1.n() by {
        if i == f as int {
            assert(g1.succ_ids()[i] == g0.succ_ids()[f as int].push(t));
            if k < g0.succ_ids()[f as int].len() {
                assert(g1.succ_ids()[i][k] == g0.succ_ids()[f as int][k]);
            } else {
                assert(g1.succ_ids()[i][k] == t);
            }
        } else {
            assert(g1.succ_ids()[i] == g0.succ_ids()[i]);
        }
    }
    assert forall|i: int| 0 <= i < g1.n() implies (#[trigger] g1.indegs()[i]) as nat == total_in(
        g1.succ_ids(),
        i,
    ) by {
        lemma_in_from_first_update_push(g0.succ_ids(), f as int, t, n, i);
        assert(total_in(g1.succ_ids(), i) == in_from_first(g1.succ_ids(), n, i));
    }
}

/// A node that `pv` never mentions can join the graph: the rows still match.
proof fn lemma_extend_node_rows(g0: Graph, g1: Graph, pv: Seq<(Seq<char>, Seq<char>)>, x: Seq<char>)
    requires
        g0.wf(),
        g1.wf(),
        g0.rows_match(pv),
        !mentions(pv, x),
        !g0.names().contains(x),
        g1.names() == g0.names().push(x),
        g1.succ_ids() == g0.succ_ids().push(Seq::<usize>::empty()),
        g1.indegs() == g0.indegs().push(0usize),
    ensures
        g1.rows_match(pv),
{
    let n = g0.n();
    assert forall|i: int| 0 <= i < g1.n() implies #[trigger] g1.succ_names(i) == succs_of(
        pv,
        g1.names()[i],
    ) by {
        if i < n {
            assert(g1.succ_ids()[i] == g0.succ_ids()[i]);
            assert(g1.names()[i] == g0.names()[i]);
            assert(g1.succ_names(i) =~= g0.succ_names(i)) by {
                assert forall|k: int| 0 <= k < g0.succ_ids()[i].len() implies g1.succ_names(
                    i,
                )[k] == g0.succ_names(i)[k] by {
                    assert(((g0.succ_ids()[i][k]) as int) < n);
                    assert(g1.names()[g0.succ_ids()[i][k] as int] == g0.names()[g0.succ_ids(
                    )[i][k] as int]);
                }
            }
        } else {
            assert(g1.succ_ids()[i] == Seq::<usize>::empty());
            assert(g1.names()[i] == x);
            lemma_succs_of_unmentioned(pv, x);
            assert(g1.succ_names(i) =~= Seq::<Seq<char>>::empty());
        }
    }
    assert forall|i: int| 0 <= i < g1.n() implies (#[trigger] g1.indegs()[i]) as nat
        == edge_count_to(pv, g1.names()[i]) by {
        if i < n {
            assert(g1.indegs()[i] == g0.indegs()[i]);
            assert(g1.names()[i] == g0.names()[i]);
        } else {
            assert(g1.indegs()[i] == 0usize);
            assert(g1.names()[i] == x);
            lemma_count_unmentioned(pv, x);
        }
    }
}

/// Recording the pair (`from`, `to`) takes matching rows one step forward.
proof fn lemma_add_edge_rows(
    g0: Graph,
    g1: Graph,
    pv: Seq<(Seq<char>, Seq<char>)>,
    from: Seq<char>,
    to: Seq<char>,
    f: usize,
    t: usize,
)
    requires
        g0.wf(),
        g1.wf(),
        g0.rows_match(pv),
        0 <= (f as int) < g0.n(),
        0 <= (t as int) < g0.n(),
        g0.names()[f as int] == from,
        g0.names()[t as int] == to,
        g0.indegs()[t as int] < usize::MAX,
        g1.names() == g0.names(),
        g1.succ_ids() == g0.succ_ids().update(f as int, g0.succ_ids()[f as int].push(t)),
        g1.indegs() == g0.indegs().update(t as int, (g0.indegs()[t as int] + 1) as usize),
    ensures
        g1.rows_match(pv.push((from, to))),
{
    let n = g0.n();
    let pv2 = pv.push((from, to));
    assert(pv2.drop_last() =~= pv);
    assert(pv2.last() == (from, to));
    assert forall|i: int| 0 <= i < g1.n() implies #[trigger] g1.succ_names(i) == succs_of(
        pv2,
        g1.names()[i],
    ) by {
        if i == f as int {
            assert(g1.succ_ids()[i] == g0.succ_ids()[f as int].push(t));
            assert(succs_of(pv2, from) == succs_of(pv, from).push(to));
            assert(g1.succ_names(i) =~= g0.succ_names(i).push(to)) by {
                assert forall|k: int| 0 <= k < g1.succ_ids()[i].len() implies g1.succ_names(
                    i,
                )[k] == g0.succ_names(i).push(to)[k] by {
                    if k < g0.succ_ids()[f as int].len() {
                        assert(g1.succ_ids()[i][k] == g0.succ_ids()[f as int][k]);
                    } else {
                        assert(g1.succ_ids()[i][k] == t);
                        assert(g1.names()[t as int] == to);
                    }
                }
            }
        } else {
            assert(g1.succ_ids()[i] == g0.succ_ids()[i]);
            assert(g1.names()[i] != from) by {
                assert(g1.names()[i] == g0.names()[i]);
                if i < f as int {
                    assert(g0.names()[i] != g0.names()[f as int]);
                } else {
                    assert(g0.names()[f as int] != g0.names()[i]);
                }
            }
            assert(succs_of(pv2, g1.names()[i]) == succs_of(pv, g1.names()[i]));
            assert(g1.succ_names(i) =~= g0.succ_names(i)) by {
                assert forall|k: int| 0 <= k < g0.succ_ids()[i].len() implies g1.succ_names(
                    i,
                )[k] == g0.succ_names(i)[k] by {
                    assert(((g0.succ_ids()[i][k]) as int) < n);
                }
            }
        }
    }
    assert forall|i: int| 0 <= i < g1.n() implies (#[trigger] g1.indegs()[i]) as nat
        == edge_count_to(pv2, g1.names()[i]) by {
        if i == t as int {
            assert(g1.indegs()[i] == (g0.indegs()[t as int] + 1) as usize);
            assert(edge_count_to(pv2, to) == edge_count_to(pv, to) + 1);
        } else {
            assert(g1.indegs()[i] == g0.indegs()[i]);
            assert(g1.names()[i] != to) by {
                if i < t as int {
                    assert(g0.names()[i] != g0.names()[t as int]);
                } else {
                    assert(g0.names()[t as int] != g0.names()[i]);
                }
            }
            assert(edge_count_to(pv2, g1.names()[i]) == edge_count_to(pv, g1.names()[i]));
        }
    }
}

/// Build the constraint graph from the submitted pairs. For each pair the
/// target joins the node set first, then the source; the target's in-degree
/// grows by one and the target joins the source's adjacency row.
pub fn build_graph(pairs: &Vec<(String, String)>) -> (g: Graph)
    ensures
        g.wf(),
        g.built_from(pairs_view(pairs@)),
{
    let ghost pv = pairs_view(pairs@);
    let mut g = Graph { nodes: Vec::new(), succs: Vec::new(), indeg: Vec::new() };
    proof {
        assert(g.names() =~= node_order(pv.take(0)));
        assert(g.succ_ids().len() == 0);
    }
    let mut k: usize = 0;
    let n_pairs = pairs.len();
    while k < n_pairs
        invariant
            n_pairs == pairs.len(),
            pv == pairs_view(pairs@),
            k <= n_pairs,
            g.wf(),
            g.built_from(pv.take(k as int)),
            forall|i: int| 0 <= i < g.n() ==> (#[trigger] g.indegs()[i]) as int <= k as int,
        decreases n_pairs - k,
    {
        let ghost pvk = pv.take(k as int);
        let ghost pvk1 = pv.take(k as int + 1);
        proof {
            assert(pvk1.drop_last() =~= pvk);
            assert(pv[k as int] == (pairs@[k as int].0@, pairs@[k as int].1@));
            assert(pvk1.last() == pv[k as int]);
            assert(pvk1 =~= pvk.push(pv[k as int]));
        }
        let pr = &pairs[k];
        let ghost from = pr.0@;
        let ghost to = pr.1@;
        let ghost g0 = g;
        let t = g.ensure_node(&pr.1);
        let ghost g1 = g;
        proof {
            lemma_node_order_mentions(pvk, to);
            if !g0.names().contains(to) {
                lemma_extend_node_rows(g0, g1, pvk, to);
            }
            assert(g1.rows_match(pvk));
        }
        let f = g.ensure_node(&pr.0);
        let ghost g2 = g;
        proof {
            lemma_node_order_mentions(pvk, from);
            if !g1.names().contains(from) {
                assert(!node_order(pvk).contains(from)) by {
                    if node_order(pvk).contains(from) {
                        let m = choose|m: int|
                            0 <= m < node_order(pvk).len() && node_order(pvk)[m] == from;
                        assert(g0.names()[m] == from);
                        assert(g1.names()[m] == from);
                        assert(g1.names().contains(from));
                    }
                }
                lemma_extend_node_rows(g1, g2, pvk, from);
            }
            assert(g2.rows_match(pvk));
            assert(g2.names() == node_order(pvk1));
            assert(g2.names()[t as int] == to);
            assert((g2.indegs()[t as int] as int) <= k as int) by {
                if (t as int) < g0.n() {
                } else {
                }
            }
        }
        g.add_edge(f, t);
        proof {
            lemma_add_edge_rows(g2, g, pvk, from, to, f, t);
            assert(g.built_from(pvk1));
            assert forall|i: int| 0 <= i < g.n() implies (#[trigger] g.indegs()[i]) as int <= k
                as int + 1 by {
                if i == t as int {
                } else {
                    assert(g.indegs()[i] == g2.indegs()[i]);
                }
            }
        }
        k += 1;
    }
    proof {
        assert(pv.take(n_pairs as int) =~= pv);
    }
    g
}

} // verus!
