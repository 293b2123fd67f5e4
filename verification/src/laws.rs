use vstd::prelude::*;
use vstd::multiset::Multiset;
use vstd::set_lib::{lemma_int_range, lemma_len_subset, set_int_range};
use crate::board::{cell_index, col_of, consistent, full, grid_wf, row_of, same_unit};
use crate::checker::{lemma_cell_index_decode, lemma_index_decode};
use crate::search::completes;

verus! {

/// The nine cells of row `r`, left to right.
pub open spec fn row_seq(g: Seq<u8>, r: int) -> Seq<u8> {
    Seq::new(9, |c: int| g[cell_index(r, c)])
}

/// The nine cells of column `c`, top to bottom.
pub open spec fn col_seq(g: Seq<u8>, c: int) -> Seq<u8> {
    Seq::new(9, |r: int| g[cell_index(r, c)])
}

/// The nine cells of the box whose corner is (3*br, 3*bc), row-major.
pub open spec fn box_seq(g: Seq<u8>, br: int, bc: int) -> Seq<u8> {
    Seq::new(9, |k: int| g[cell_index(3 * br + k / 3, 3 * bc + k % 3)])
}

/// Nine pairwise-distinct values drawn from 1..9 hold each digit of 1..9
/// exactly once: an injection from nine cells into nine digits is onto.
proof fn lemma_nine_distinct(s: Seq<u8>)
    requires
        s.len() == 9,
        forall|k: int| 0 <= k < 9 ==> 1 <= #[trigger] s[k] <= 9,
        s.no_duplicates(),
    ensures
        forall|d: u8| 1 <= d <= 9 ==> #[trigger] s.to_multiset().count(d) == 1,
{
    broadcast use vstd::set::group_set_axioms;

    let f = |x: u8| x as int;
    let vals = s.map_values(f);
    assert(vstd::relations::injective(f));
    s.lemma_no_duplicates_injective(f);
    vals.unique_seq_to_set();
    lemma_int_range(1, 10);
    s.to_multiset_ensures();
    s.lemma_multiset_has_no_duplicates();
    assert forall|d: u8| 1 <= d <= 9 implies #[trigger] s.to_multiset().count(d) == 1 by {
        if !s.contains(d) {
            let small = set_int_range(1, 10).remove(d as int);
            assert forall|y: int| vals.to_set().contains(y) implies small.contains(y) by {
                assert(vals.contains(y));
                let k = choose|k: int| 0 <= k < vals.len() && vals[k] == y;
                assert(vals[k] == s[k] as int);
                assert(s[k] != d);
            }
            lemma_len_subset(vals.to_set(), small);
            assert(small.len() == 8);
            assert(false);
        }
        assert(s.to_multiset().count(d) > 0);
    }
}

/// The sudoku law of solved grids: a full, consistent grid holds each digit
/// 1..9 exactly once in every row, every column, and every 3x3 box.
pub proof fn lemma_solved_grid_complete(g: Seq<u8>)
    requires
        grid_wf(g),
        full(g),
        consistent(g),
    ensures
        forall|r: int, d: u8|
            0 <= r < 9 && 1 <= d <= 9 ==> #[trigger] row_seq(g, r).to_multiset().count(d) == 1,
        forall|c: int, d: u8|
            0 <= c < 9 && 1 <= d <= 9 ==> #[trigger] col_seq(g, c).to_multiset().count(d) == 1,
        forall|br: int, bc: int, d: u8|
            0 <= br < 3 && 0 <= bc < 3 && 1 <= d <= 9 ==> #[trigger] box_seq(
                g,
                br,
                bc,
            ).to_multiset().count(d) == 1,
{
    assert forall|r: int, d: u8|
        0 <= r < 9 && 1 <= d <= 9 implies #[trigger] row_seq(g, r).to_multiset().count(d) == 1 by {
        let s = row_seq(g, r);
        assert forall|k: int| 0 <= k < 9 implies 1 <= #[trigger] s[k] <= 9 by {
            lemma_cell_index_decode(r, k);
        }
        assert forall|k1: int, k2: int| 0 <= k1 < k2 < 9 implies s[k1] != s[k2] by {
            lemma_cell_index_decode(r, k1);
            lemma_cell_index_decode(r, k2);
            assert(g[cell_index(r, k1)] != 0 && g[cell_index(r, k2)] != 0);
        }
        lemma_nine_distinct(s);
    }
    assert forall|c: int, d: u8|
        0 <= c < 9 && 1 <= d <= 9 implies #[trigger] col_seq(g, c).to_multiset().count(d) == 1 by {
        let s = col_seq(g, c);
        assert forall|k: int| 0 <= k < 9 implies 1 <= #[trigger] s[k] <= 9 by {
            lemma_cell_index_decode(k, c);
        }
        assert forall|k1: int, k2: int| 0 <= k1 < k2 < 9 implies s[k1] != s[k2] by {
            lemma_cell_index_decode(k1, c);
            lemma_cell_index_decode(k2, c);
            assert(g[cell_index(k1, c)] != 0 && g[cell_index(k2, c)] != 0);
        }
        lemma_nine_distinct(s);
    }
    assert forall|br: int, bc: int, d: u8|
        0 <= br < 3 && 0 <= bc < 3 && 1 <= d <= 9 implies #[trigger] box_seq(
        g,
        br,
        bc,
    ).to_multiset().count(d) == 1 by {
        let s = box_seq(g, br, bc);
        assert forall|k: int| 0 <= k < 9 implies 1 <= #[trigger] s[k] <= 9 by {
            lemma_cell_index_decode(3 * br + k / 3, 3 * bc + k % 3);
        }
        assert forall|k1: int, k2: int| 0 <= k1 < k2 < 9 implies s[k1] != s[k2] by {
            lemma_cell_index_decode(3 * br + k1 / 3, 3 * bc + k1 % 3);
            lemma_cell_index_decode(3 * br + k2 / 3, 3 * bc + k2 % 3);
            let i1 = cell_index(3 * br + k1 / 3, 3 * bc + k1 % 3);
            let i2 = cell_index(3 * br + k2 / 3, 3 * bc + k2 % 3);
            assert(i1 != i2);
            assert(g[i1] != 0 && g[i2] != 0);
        }
        lemma_nine_distinct(s);
    }
}

/// Count of `d` among the first `k` entries of `s`.
spec fn count_pref(s: Seq<u8>, d: u8, k: int) -> int
    decreases k,
{
    if k <= 0 {
        0
    } else {
        count_pref(s, d, k - 1) + if s[k - 1] == d {
            1int
        } else {
            0int
        }
    }
}

/// Counting over a longer prefix never counts less.
proof fn lemma_count_pref_mono(s: Seq<u8>, d: u8, k1: int, k2: int)
    requires
        0 <= k1 <= k2,
    ensures
        count_pref(s, d, k1) <= count_pref(s, d, k2),
    decreases k2,
{
    if k2 > k1 {
        lemma_count_pref_mono(s, d, k1, k2 - 1);
    }
}

/// A matching entry within the prefix makes the count at least one.
proof fn lemma_count_pref_one(s: Seq<u8>, d: u8, p: int, k: int)
    requires
        0 <= p < k,
        s[p] == d,
    ensures
        count_pref(s, d, k) >= 1,
    decreases k,
{
    if k - 1 == p {
        lemma_count_pref_mono(s, d, 0, k - 1);
    } else {
        lemma_count_pref_one(s, d, p, k - 1);
    }
}

/// Two matching entries within the prefix make the count at least two.
proof fn lemma_count_pref_pair(s: Seq<u8>, d: u8, p1: int, p2: int, k: int)
    requires
        0 <= p1 < p2 < k,
        s[p1] == d,
        s[p2] == d,
    ensures
        count_pref(s, d, k) >= 2,
    decreases k,
{
    if k - 1 == p2 {
        lemma_count_pref_one(s, d, p1, k - 1);
    } else {
        lemma_count_pref_pair(s, d, p1, p2, k - 1);
    }
}

/// The count over a prefix reads only that prefix.
proof fn lemma_count_pref_agree(t: Seq<u8>, s: Seq<u8>, d: u8, k: int)
    requires
        0 <= k,
        k <= t.len(),
        k <= s.len(),
        forall|p: int| 0 <= p < k ==> t[p] == s[p],
    ensures
        count_pref(t, d, k) == count_pref(s, d, k),
    decreases k,
{
    if k > 0 {
        lemma_count_pref_agree(t, s, d, k - 1);
    }
}

/// The count over the whole sequence is its multiset count.
proof fn lemma_count_pref_is_multiset_count(s: Seq<u8>, d: u8)
    ensures
        count_pref(s, d, s.len() as int) == s.to_multiset().count(d),
    decreases s.len(),
{
    broadcast use vstd::multiset::group_multiset_axioms;

    if s.len() == 0 {
        s.to_multiset_ensures();
        vstd::multiset::lemma_multiset_empty_len::<u8>(s.to_multiset());
        assert(s.to_multiset() =~= Multiset::<u8>::empty());
    } else {
        let t = s.drop_last();
        lemma_count_pref_is_multiset_count(t, d);
        lemma_count_pref_agree(t, s, d, t.len() as int);
        t.to_multiset_ensures();
        assert(t.push(s.last()) =~= s);
        assert(t.push(s.last()).to_multiset() =~= t.to_multiset().insert(s.last()));
    }
}

/// A unit holding nine distinct digits of 1..9 counts each digit once.
proof fn lemma_count_pref_unit(s: Seq<u8>, d: u8)
    requires
        s.len() == 9,
        forall|k: int| 0 <= k < 9 ==> 1 <= #[trigger] s[k] <= 9,
        s.no_duplicates(),
        1 <= d <= 9,
    ensures
        count_pref(s, d, 9) == 1,
{
    lemma_nine_distinct(s);
    lemma_count_pref_is_multiset_count(s, d);
}

/// Count of `d` in row `r` of the grid.
spec fn row_count(g: Seq<u8>, r: int, d: u8) -> int {
    count_pref(row_seq(g, r), d, 9)
}

/// Count of `d` over the first `n` whole rows.
spec fn rowsum(g: Seq<u8>, d: u8, n: int) -> int
    decreases n,
{
    if n <= 0 {
        0
    } else {
        rowsum(g, d, n - 1) + row_count(g, n - 1, d)
    }
}

/// Count of `d` over the first `m` columns, each cut off after `k` cells.
spec fn colsum_depth(g: Seq<u8>, d: u8, k: int, m: int) -> int
    decreases m,
{
    if m <= 0 {
        0
    } else {
        colsum_depth(g, d, k, m - 1) + count_pref(col_seq(g, m - 1), d, k)
    }
}

/// Deepening every column cut by one row adds exactly that row's count.
proof fn lemma_colsum_step(g: Seq<u8>, d: u8, k: int, m: int)
    requires
        0 <= k < 9,
        0 <= m <= 9,
    ensures
        colsum_depth(g, d, k + 1, m) == colsum_depth(g, d, k, m) + count_pref(
            row_seq(g, k),
            d,
            m,
        ),
    decreases m,
{
    if m > 0 {
        lemma_colsum_step(g, d, k, m - 1);
        assert(col_seq(g, m - 1)[k] == row_seq(g, k)[m - 1]);
    }
}

/// Columns cut off before the first row count nothing.
proof fn lemma_colsum_zero(g: Seq<u8>, d: u8, m: int)
    requires
        0 <= m <= 9,
    ensures
        colsum_depth(g, d, 0, m) == 0,
    decreases m,
{
    if m > 0 {
        lemma_colsum_zero(g, d, m - 1);
    }
}

/// Double counting: summing `d` over the first `k` rows equals summing it
/// down all nine columns cut off after `k` cells.
proof fn lemma_rowsum_colsum(g: Seq<u8>, d: u8, k: int)
    requires
        0 <= k <= 9,
    ensures
        colsum_depth(g, d, k, 9) == rowsum(g, d, k),
    decreases k,
{
    if k == 0 {
        lemma_colsum_zero(g, d, 9);
    } else {
        lemma_rowsum_colsum(g, d, k - 1);
        lemma_colsum_step(g, d, k - 1, 9);
    }
}

/// Columns that each count `d` once sum to the number of columns.
proof fn lemma_colsum_all_one(g: Seq<u8>, d: u8, m: int)
    requires
        0 <= m <= 9,
        forall|c: int| 0 <= c < 9 ==> #[trigger] count_pref(col_seq(g, c), d, 9) == 1,
    ensures
        colsum_depth(g, d, 9, m) == m,
    decreases m,
{
    if m > 0 {
        lemma_colsum_all_one(g, d, m - 1);
    }
}

/// Rows that each count `d` once, except one that counts it at least twice,
/// sum to more than the number of rows.
proof fn lemma_rowsum_overfull(g: Seq<u8>, d: u8, n: int, rr: int)
    requires
        0 <= n <= 9,
        0 <= rr < 9,
        row_count(g, rr, d) >= 2,
        forall|r: int| 0 <= r < 9 && r != rr ==> #[trigger] row_count(g, r, d) == 1,
    ensures
        rowsum(g, d, n) >= n + if rr < n {
            1int
        } else {
            0int
        },
    decreases n,
{
    if n > 0 {
        lemma_rowsum_overfull(g, d, n - 1, rr);
    }
}

/// The unsolvability law: a grid holding the same digit twice in one row,
/// and otherwise free of conflicts, has no completion along any traversal
/// order that visits every cell — so the solver reports it unsolvable. The
/// duplicated digit would have to appear in all nine columns but could reach
/// at most eight rows.
pub proof fn lemma_row_duplicate_unsolvable(g: Seq<u8>, s: Seq<u8>, i: int, j: int, g2: Seq<u8>)
    requires
        grid_wf(g),
        0 <= i < 81,
        0 <= j < 81,
        i != j,
        row_of(i) == row_of(j),
        g[i] != 0,
        g[j] == g[i],
        forall|a: int, b: int|
            0 <= a < 81 && 0 <= b < 81 && a != b && same_unit(a, b) && #[trigger] g[a] != 0
                && #[trigger] g[b] != 0 && !(a == i && b == j) && !(a == j && b == i) ==> g[a]
                != g[b],
        forall|x: u8| x < 81 ==> s.contains(x),
    ensures
        !completes(g, s, g2),
{
    if completes(g, s, g2) {
        assert forall|x: int| 0 <= x < 81 implies 1 <= #[trigger] g2[x] <= 9 by {
            assert(s.contains(x as u8));
        }
        let v = g[i];
        let rr = row_of(i);
        let ci = col_of(i);
        let cj = col_of(j);
        lemma_index_decode(i);
        lemma_index_decode(j);
        assert(ci != cj);
        // Every column of the completion holds each digit at most once, so
        // exactly once; in particular it holds v exactly once.
        assert forall|c: int| 0 <= c < 9 implies #[trigger] count_pref(col_seq(g2, c), v, 9)
            == 1 by {
            let sc = col_seq(g2, c);
            assert forall|k: int| 0 <= k < 9 implies 1 <= #[trigger] sc[k] <= 9 by {
                lemma_cell_index_decode(k, c);
            }
            assert forall|k1: int, k2: int| 0 <= k1 < k2 < 9 implies sc[k1] != sc[k2] by {
                lemma_cell_index_decode(k1, c);
                lemma_cell_index_decode(k2, c);
                let a = cell_index(k1, c);
                let b = cell_index(k2, c);
                assert(!(a == i && b == j) && !(a == j && b == i));
                assert(g2[a] != 0 && g2[b] != 0);
            }
            lemma_count_pref_unit(sc, v);
        }
        // Every row other than the duplicated one holds v exactly once.
        assert forall|r: int| 0 <= r < 9 && r != rr implies #[trigger] row_count(g2, r, v)
            == 1 by {
            let sr = row_seq(g2, r);
            assert forall|k: int| 0 <= k < 9 implies 1 <= #[trigger] sr[k] <= 9 by {
                lemma_cell_index_decode(r, k);
            }
            assert forall|k1: int, k2: int| 0 <= k1 < k2 < 9 implies sr[k1] != sr[k2] by {
                lemma_cell_index_decode(r, k1);
                lemma_cell_index_decode(r, k2);
                let a = cell_index(r, k1);
                let b = cell_index(r, k2);
                assert(!(a == i && b == j) && !(a == j && b == i));
                assert(g2[a] != 0 && g2[b] != 0);
            }
            lemma_count_pref_unit(sr, v);
        }
        // The duplicated row holds v at least twice.
        let sr = row_seq(g2, rr);
        assert(g2[i] == v && g2[j] == v);
        assert(sr[ci] == v && sr[cj] == v);
        if ci < cj {
            lemma_count_pref_pair(sr, v, ci, cj, 9);
        } else {
            lemma_count_pref_pair(sr, v, cj, ci, 9);
        }
        // Double counting: nine occurrences by columns, at least ten by rows.
        lemma_rowsum_colsum(g2, v, 9);
        lemma_colsum_all_one(g2, v, 9);
        lemma_rowsum_overfull(g2, v, 9, rr);
        assert(false);
    }
}

} // verus!
