//! Counting occurrences of a node index across adjacency rows, together
//! with the facts about sums over selected rows and about sequences of
//! distinct bounded indices that the sorter's proof rests on.

use vstd::prelude::*;
use vstd::seq_lib::*;
use vstd::set_lib::*;

verus! {

/// Number of entries of `s` equal to `v`.
pub open spec fn occ(s: Seq<usize>, v: int) -> nat
    decreases s.len(),
{
    if s.len() == 0 {
        0
    } else {
        occ(s.drop_last(), v) + if s.last() as int == v {
            1nat
        } else {
            0nat
        }
    }
}

pub proof fn lemma_occ_push(s: Seq<usize>, t: usize, v: int)
    ensures
        occ(s.push(t), v) == occ(s, v) + if t as int == v {
            1nat
        } else {
            0nat
        },
{
    assert(s.push(t).drop_last() =~= s);
}

/// `occ` is positive exactly when some entry equals `v`.
pub proof fn lemma_occ_contains(s: Seq<usize>, v: int)
    ensures
        occ(s, v) > 0 <==> exists|k: int| 0 <= k < s.len() && s[k] as int == v,
    decreases s.len(),
{
    if s.len() > 0 {
        lemma_occ_contains(s.drop_last(), v);
        if s.last() as int == v {
            assert(s[s.len() - 1] as int == v);
        } else {
            if occ(s, v) > 0 {
                let k = choose|k: int|
                    0 <= k < s.drop_last().len() && s.drop_last()[k] as int == v;
                assert(s[k] as int == v);
            }
            if exists|k: int| 0 <= k < s.len() && s[k] as int == v {
                let k = choose|k: int| 0 <= k < s.len() && s[k] as int == v;
                assert(s.drop_last()[k] as int == v);
            }
        }
    }
}

/// Occurrences of `v` in rows `0..j` of `rows`.
pub open spec fn in_from_first(rows: Seq<Seq<usize>>, j: int, v: int) -> nat
    decreases j,
{
    if j <= 0 {
        0
    } else {
        in_from_first(rows, j - 1, v) + occ(rows[j - 1], v)
    }
}

/// Occurrences of `v` across all rows: the total in-degree of node `v`.
pub open spec fn total_in(rows: Seq<Seq<usize>>, v: int) -> nat {
    in_from_first(rows, rows.len() as int, v)
}

/// Occurrences of `v` in the rows selected by `procd`.
pub open spec fn in_from_rows(rows: Seq<Seq<usize>>, procd: Seq<usize>, v: int) -> nat
    decreases procd.len(),
{
    if procd.len() == 0 {
        0
    } else {
        in_from_rows(rows, procd.drop_last(), v) + occ(rows[procd.last() as int], v)
    }
}

pub proof fn lemma_in_from_rows_push(rows: Seq<Seq<usize>>, procd: Seq<usize>, u: usize, v: int)
    ensures
        in_from_rows(rows, procd.push(u), v) == in_from_rows(rows, procd, v) + occ(
            rows[u as int],
            v,
        ),
{
    assert(procd.push(u).drop_last() =~= procd);
}

/// `in_from_first` only reads the first `j` rows.
pub proof fn lemma_in_from_first_congruence(
    rows1: Seq<Seq<usize>>,
    rows2: Seq<Seq<usize>>,
    j: int,
    v: int,
)
    requires
        forall|i: int| 0 <= i < j ==> rows1[i] == rows2[i],
    ensures
        in_from_first(rows1, j, v) == in_from_first(rows2, j, v),
    decreases j,
{
    if j > 0 {
        lemma_in_from_first_congruence(rows1, rows2, j - 1, v);
    }
}

/// Appending `t` to row `f` adds one occurrence of `t` to the prefix sums
/// that cover row `f`, and changes nothing else.
pub proof fn lemma_in_from_first_update_push(
    rows: Seq<Seq<usize>>,
    f: int,
    t: usize,
    j: int,
    v: int,
)
    requires
        0 <= f < rows.len(),
        j <= rows.len(),
    ensures
        in_from_first(rows.update(f, rows[f].push(t)), j, v) == in_from_first(rows, j, v) + if f
            < j && t as int == v {
            1nat
        } else {
            0nat
        },
    decreases j,
{
    let rows2 = rows.update(f, rows[f].push(t));
    if j > 0 {
        lemma_in_from_first_update_push(rows, f, t, j - 1, v);
        if j - 1 == f {
            lemma_occ_push(rows[f], t, v);
        } else {
            assert(rows2[j - 1] == rows[j - 1]);
        }
    }
}

/// A prefix of a row holds no more occurrences than the whole row.
pub proof fn lemma_occ_take_le(s: Seq<usize>, j: int, v: int)
    requires
        0 <= j <= s.len(),
    ensures
        occ(s.take(j), v) <= occ(s, v),
    decreases s.len(),
{
    if j == s.len() {
        assert(s.take(j) =~= s);
    } else {
        assert(s.take(j) =~= s.drop_last().take(j));
        lemma_occ_take_le(s.drop_last(), j, v);
    }
}

/// A prefix of rows without any occurrence of `v` sums to zero.
pub proof fn lemma_in_from_first_zero(rows: Seq<Seq<usize>>, j: int, v: int)
    requires
        forall|i: int| 0 <= i < j ==> occ(#[trigger] rows[i], v) == 0,
    ensures
        in_from_first(rows, j, v) == 0,
    decreases j,
{
    if j > 0 {
        lemma_in_from_first_zero(rows, j - 1, v);
    }
}

/// A row whose entries are all below `b` holds no occurrence of a value
/// at or above `b`.
pub proof fn lemma_occ_out_of_range(s: Seq<usize>, b: int, v: int)
    requires
        forall|k: int| 0 <= k < s.len() ==> ((#[trigger] s[k]) as int) < b,
        v >= b,
    ensures
        occ(s, v) == 0,
    decreases s.len(),
{
    if s.len() > 0 {
        assert((s[s.len() - 1] as int) < b);
        lemma_occ_out_of_range(s.drop_last(), b, v);
    }
}

/// Removing the selected row at position `m` removes exactly its occurrences.
pub proof fn lemma_in_from_rows_remove(rows: Seq<Seq<usize>>, procd: Seq<usize>, m: int, v: int)
    requires
        0 <= m < procd.len(),
    ensures
        in_from_rows(rows, procd, v) == in_from_rows(rows, procd.remove(m), v) + occ(
            rows[procd[m] as int],
            v,
        ),
    decreases procd.len(),
{
    procd.remove_ensures(m);
    if m == procd.len() - 1 {
        assert(procd.remove(m) =~= procd.drop_last());
    } else {
        lemma_in_from_rows_remove(rows, procd.drop_last(), m, v);
        procd.drop_last().remove_ensures(m);
        assert(procd.remove(m).drop_last() =~= procd.drop_last().remove(m));
        assert(procd.remove(m).last() == procd.last());
    }
}

/// Removing an element keeps a sequence free of duplicates.
pub proof fn lemma_no_duplicates_remove(s: Seq<usize>, m: int)
    requires
        s.no_duplicates(),
        0 <= m < s.len(),
    ensures
        s.remove(m).no_duplicates(),
        forall|i: int| 0 <= i < s.remove(m).len() ==> s.contains(#[trigger] s.remove(m)[i]),
        forall|i: int| 0 <= i < s.remove(m).len() ==> #[trigger] s.remove(m)[i] != s[m],
{
    s.remove_ensures(m);
}

/// Distinct selected rows never account for more than the total across the
/// first `n` rows.
pub proof fn lemma_selected_le_first(rows: Seq<Seq<usize>>, procd: Seq<usize>, n: int, v: int)
    requires
        n <= usize::MAX,
        procd.no_duplicates(),
        forall|i: int| 0 <= i < procd.len() ==> ((#[trigger] procd[i]) as int) < n,
        0 <= n <= rows.len(),
    ensures
        in_from_rows(rows, procd, v) <= in_from_first(rows, n, v),
    decreases n,
{
    if n == 0 {
        if procd.len() > 0 {
            assert(((procd[0]) as int) < n);
        }
        assert(procd.len() == 0);
    } else if procd.contains((n - 1) as usize) {
        let m = choose|m: int| 0 <= m < procd.len() && procd[m] == (n - 1) as usize;
        lemma_in_from_rows_remove(rows, procd, m, v);
        lemma_no_duplicates_remove(procd, m);
        let rest = procd.remove(m);
        assert forall|i: int| 0 <= i < rest.len() implies ((#[trigger] rest[i]) as int) < n - 1 by {
            assert(rest[i] != procd[m]);
        }
        lemma_selected_le_first(rows, rest, n - 1, v);
    } else {
        assert forall|i: int| 0 <= i < procd.len() implies ((#[trigger] procd[i]) as int) < n - 1 by {
            assert(procd[i] != (n - 1) as usize);
        }
        lemma_selected_le_first(rows, procd, n - 1, v);
    }
}

/// If every unselected row among the first `n` holds no occurrence of `v`,
/// the selected rows account for the whole prefix total.
pub proof fn lemma_selected_ge_first(rows: Seq<Seq<usize>>, procd: Seq<usize>, n: int, v: int)
    requires
        n <= usize::MAX,
        procd.no_duplicates(),
        forall|i: int| 0 <= i < procd.len() ==> ((#[trigger] procd[i]) as int) < n,
        0 <= n <= rows.len(),
        forall|u: int| 0 <= u < n && !procd.contains(u as usize) ==> occ(#[trigger] rows[u], v)
            == 0,
    ensures
        in_from_first(rows, n, v) <= in_from_rows(rows, procd, v),
    decreases n,
{
    if n == 0 {
        if procd.len() > 0 {
            assert(((procd[0]) as int) < n);
        }
        assert(procd.len() == 0);
    } else if procd.contains((n - 1) as usize) {
        let m = choose|m: int| 0 <= m < procd.len() && procd[m] == (n - 1) as usize;
        lemma_in_from_rows_remove(rows, procd, m, v);
        lemma_no_duplicates_remove(procd, m);
        let rest = procd.remove(m);
        assert forall|i: int| 0 <= i < rest.len() implies ((#[trigger] rest[i]) as int) < n - 1 by {
            assert(rest[i] != procd[m]);
        }
        assert forall|u: int| 0 <= u < n - 1 && !rest.contains(u as usize) implies occ(
            #[trigger] rows[u],
            v,
        ) == 0 by {
            if procd.contains(u as usize) {
                let mm = choose|mm: int| 0 <= mm < procd.len() && procd[mm] == u as usize;
                assert(mm != m);
                procd.remove_ensures(m);
                if mm < m {
                    assert(rest[mm] == procd[mm]);
                } else {
                    assert(rest[mm - 1] == procd[mm]);
                }
                assert(rest.contains(u as usize));
            }
        }
        lemma_selected_ge_first(rows, rest, n - 1, v);
    } else {
        assert forall|i: int| 0 <= i < procd.len() implies ((#[trigger] procd[i]) as int) < n - 1 by {
            assert(procd[i] != (n - 1) as usize);
        }
        assert(occ(rows[n - 1], v) == 0);
        lemma_selected_ge_first(rows, procd, n - 1, v);
    }
}

/// Appending a fresh element keeps a sequence duplicate-free.
pub proof fn lemma_push_keeps_distinct(s: Seq<usize>, x: usize)
    requires
        s.no_duplicates(),
        !s.contains(x),
    ensures
        s.push(x).no_duplicates(),
{
    assert forall|i: int, j: int|
        0 <= i < s.push(x).len() && 0 <= j < s.push(x).len() && i != j implies s.push(x)[i]
        != s.push(x)[j] by {
        if i < s.len() && j < s.len() {
        } else if j == s.len() {
            assert(s.push(x)[i] == s[i]);
            assert(s.contains(s[i]));
        } else {
            assert(s.push(x)[j] == s[j]);
            assert(s.contains(s[j]));
        }
    }
}

/// A prefix of a duplicate-free sequence is duplicate-free.
pub proof fn lemma_take_keeps_distinct(s: Seq<usize>, j: int)
    requires
        s.no_duplicates(),
        0 <= j <= s.len(),
    ensures
        s.take(j).no_duplicates(),
{
    assert forall|a: int, b: int|
        0 <= a < s.take(j).len() && 0 <= b < s.take(j).len() && a != b implies s.take(j)[a]
        != s.take(j)[b] by {
        assert(s.take(j)[a] == s[a]);
        assert(s.take(j)[b] == s[b]);
    }
}

/// A duplicate-free sequence of indices below `n` has at most `n` entries.
pub proof fn lemma_distinct_bounded_len(s: Seq<usize>, n: int)
    requires
        s.no_duplicates(),
        forall|i: int| 0 <= i < s.len() ==> ((#[trigger] s[i]) as int) < n,
        0 <= n,
    ensures
        s.len() <= n,
{
    let si = s.map_values(|x: usize| x as int);
    assert(si.no_duplicates());
    si.unique_seq_to_set();
    assert(si.to_set().subset_of(set_int_range(0, n))) by {
        assert forall|x: int| si.to_set().contains(x) implies set_int_range(0, n).contains(x) by {
            let i = choose|i: int| 0 <= i < si.len() && si[i] == x;
            assert((s[i] as int) < n);
        }
    }
    lemma_int_range(0, n);
    lemma_len_subset(si.to_set(), set_int_range(0, n));
}

/// A duplicate-free sequence of `n` indices below `n` contains every one.
pub proof fn lemma_distinct_full_range(s: Seq<usize>, n: int)
    requires
        n <= usize::MAX,
        s.no_duplicates(),
        forall|i: int| 0 <= i < s.len() ==> ((#[trigger] s[i]) as int) < n,
        s.len() == n,
    ensures
        forall|v: int| 0 <= v < n ==> s.contains(#[trigger] (v as usize)),
{
    let si = s.map_values(|x: usize| x as int);
    assert(si.no_duplicates());
    si.unique_seq_to_set();
    lemma_int_range(0, n);
    assert forall|v: int| 0 <= v < n implies s.contains(#[trigger] (v as usize)) by {
        if !s.contains(v as usize) {
            let shrunk = set_int_range(0, n).remove(v);
            assert(si.to_set().subset_of(shrunk)) by {
                assert forall|x: int| si.to_set().contains(x) implies shrunk.contains(x) by {
                    let i = choose|i: int| 0 <= i < si.len() && si[i] == x;
                    assert((s[i] as int) < n);
                    assert(s[i] != v as usize);
                }
            }
            assert(shrunk.len() == n - 1);
            lemma_len_subset(si.to_set(), shrunk);
        }
    }
}

/// A sequence of more than `n` values drawn from `0..n` repeats a value.
pub proof fn lemma_pigeonhole(s: Seq<int>, n: int)
    requires
        0 <= n,
        forall|i: int| 0 <= i < s.len() ==> 0 <= #[trigger] s[i] < n,
        s.len() > n,
    ensures
        exists|i: int, j: int| 0 <= i < j < s.len() && s[i] == s[j],
{
    if !(exists|i: int, j: int| 0 <= i < j < s.len() && s[i] == s[j]) {
        assert(s.no_duplicates()) by {
            assert forall|i: int, j: int| 0 <= i < s.len() && 0 <= j < s.len() && i != j implies s[i]
                != s[j] by {
                if i < j {
                    assert(!(0 <= i < j < s.len() && s[i] == s[j]));
                } else {
                    assert(!(0 <= j < i < s.len() && s[j] == s[i]));
                }
            }
        }
        s.unique_seq_to_set();
        assert(s.to_set().subset_of(set_int_range(0, n))) by {
            assert forall|x: int| s.to_set().contains(x) implies set_int_range(0, n).contains(
                x,
            ) by {
                let i = choose|i: int| 0 <= i < s.len() && s[i] == x;
            }
        }
        lemma_int_range(0, n);
        lemma_len_subset(s.to_set(), set_int_range(0, n));
    }
}

} // verus!
