use vstd::prelude::*;
use rand::seq::SliceRandom;
use rand::RngExt;
use crate::board::{
    blanks_upto, cell_index, col_of, consistent, full, grid_wf, lemma_blanks_full,
    lemma_blanks_update_zero, num_blanks, row_of, Sudoku,
};
use crate::checker::{lemma_cell_index_decode, lemma_index_decode};
use crate::search::{completes, lemma_completion_consistent, lemma_completion_full, solve};

verus! {

/// Cells of the three diagonal 3x3 boxes: row block equals column block.
pub open spec fn on_diagonal(i: int) -> bool {
    row_of(i) / 3 == col_of(i) / 3
}

/// Cell `i` lies in the diagonal box `b` (rows and columns 3b..3b+3).
pub open spec fn in_diag_box(i: int, b: int) -> bool {
    row_of(i) / 3 == b && col_of(i) / 3 == b
}

/// Row-major position (0..9) of cell `i` inside diagonal box `b`.
pub open spec fn box_slot(i: int, b: int) -> int {
    (row_of(i) - 3 * b) * 3 + (col_of(i) - 3 * b)
}

/// An explicit solved grid, used as a witness that the empty grid always
/// admits a completion: cell (r, c) holds ((3*(r%3) + r/3 + c) % 9) + 1.
spec fn cyclic_value(i: int) -> u8 {
    (((3 * (row_of(i) % 3) + row_of(i) / 3 + col_of(i)) % 9) + 1) as u8
}

/// The grid of `cyclic_value` cells.
spec fn cyclic_grid() -> Seq<u8> {
    Seq::new(81, |i: int| cyclic_value(i))
}

/// Two nonnegative numbers less than 9 apart with equal residues are equal.
proof fn lemma_mod9_unique(a: int, b: int)
    requires
        a >= 0,
        b >= 0,
        a % 9 == b % 9,
        -9 < a - b < 9,
    ensures
        a == b,
{
    vstd::arithmetic::div_mod::lemma_fundamental_div_mod(a, 9);
    vstd::arithmetic::div_mod::lemma_fundamental_div_mod(b, 9);
}

/// The cyclic grid is a valid solved sudoku.
proof fn lemma_cyclic_grid_valid()
    ensures
        grid_wf(cyclic_grid()),
        full(cyclic_grid()),
        consistent(cyclic_grid()),
{
    let w = cyclic_grid();
    assert forall|i: int| 0 <= i < 81 implies 1 <= #[trigger] w[i] <= 9 by {
        lemma_index_decode(i);
    }
    assert forall|i: int, j: int|
        0 <= i < 81 && 0 <= j < 81 && i != j && crate::board::same_unit(i, j) && #[trigger] w[i]
            != 0 && #[trigger] w[j] != 0 implies w[i] != w[j] by {
        lemma_index_decode(i);
        lemma_index_decode(j);
        let r1 = row_of(i);
        let c1 = col_of(i);
        let r2 = row_of(j);
        let c2 = col_of(j);
        let k1 = 3 * (r1 % 3) + r1 / 3 + c1;
        let k2 = 3 * (r2 % 3) + r2 / 3 + c2;
        if w[i] == w[j] {
            assert(k1 % 9 == k2 % 9);
            if r1 == r2 {
                lemma_mod9_unique(k1, k2);
            } else if c1 == c2 {
                lemma_mod9_unique(k1, k2);
                assert(3 * (r1 % 3) + r1 / 3 == 3 * (r2 % 3) + r2 / 3);
                assert(r1 % 3 == r2 % 3 && r1 / 3 == r2 / 3);
                vstd::arithmetic::div_mod::lemma_fundamental_div_mod(r1, 3);
                vstd::arithmetic::div_mod::lemma_fundamental_div_mod(r2, 3);
            } else {
                assert(r1 / 3 == r2 / 3 && c1 / 3 == c2 / 3);
                vstd::arithmetic::div_mod::lemma_fundamental_div_mod(c1, 3);
                vstd::arithmetic::div_mod::lemma_fundamental_div_mod(c2, 3);
                assert(-9 < k1 - k2 < 9);
                lemma_mod9_unique(k1, k2);
                assert(3 * (r1 % 3) + c1 == 3 * (r2 % 3) + c2);
                assert(-3 < c1 - c2 < 3);
                assert(r1 % 3 == r2 % 3 && c1 == c2);
                vstd::arithmetic::div_mod::lemma_fundamental_div_mod(r1, 3);
                vstd::arithmetic::div_mod::lemma_fundamental_div_mod(r2, 3);
            }
        }
    }
}

/// Relies on rand's `SliceRandom::shuffle`: it reorders the slice in place,
/// so the elements afterwards are exactly the elements before.
#[verifier::external_body]
fn shuffle_vec(v: &mut Vec<u8>)
    ensures
        final(v)@.to_multiset() == old(v)@.to_multiset(),
{
    v.shuffle(&mut rand::rng());
}

/// Relies on rand's `RngExt::random_range`: the result lies in the given
/// (nonempty) range.
#[verifier::external_body]
fn random_removal_count() -> (n: u8)
    ensures
        27 <= n <= 45,
{
    rand::rng().random_range(27..=45)
}

/// Two sequences with the same multiset of elements have the same length and
/// the same members, and freedom from duplicates carries over.
pub proof fn lemma_permutation_preserves(a: Seq<u8>, b: Seq<u8>)
    requires
        a.to_multiset() == b.to_multiset(),
    ensures
        a.len() == b.len(),
        forall|x: u8| a.contains(x) <==> b.contains(x),
        a.no_duplicates() ==> b.no_duplicates(),
{
    a.to_multiset_ensures();
    b.to_multiset_ensures();
    assert(a.len() == a.to_multiset().len());
    assert(b.len() == b.to_multiset().len());
    assert forall|x: u8| a.contains(x) <==> b.contains(x) by {
        assert(a.contains(x) <==> a.to_multiset().count(x) > 0);
        assert(b.contains(x) <==> b.to_multiset().count(x) > 0);
    }
    if a.no_duplicates() {
        a.lemma_multiset_has_no_duplicates();
        b.lemma_multiset_has_no_duplicates_conv();
    }
}

/// Membership after a push is membership before, or equality with the new
/// element.
proof fn lemma_push_contains(s: Seq<u8>, y: u8, x: u8)
    ensures
        s.push(y).contains(x) <==> (s.contains(x) || x == y),
{
    let sp = s.push(y);
    if sp.contains(x) {
        let i = choose|i: int| 0 <= i < sp.len() && sp[i] == x;
        if i < s.len() {
            assert(s[i] == x);
        }
    }
    if s.contains(x) {
        let i = choose|i: int| 0 <= i < s.len() && s[i] == x;
        assert(sp[i] == x);
    }
    assert(sp[s.len() as int] == y);
}

/// A uniformly random permutation of the digits 1..9.
fn random_digit_permutation() -> (v: Vec<u8>)
    ensures
        v@.len() == 9,
        forall|k: int| 0 <= k < 9 ==> 1 <= #[trigger] v@[k] <= 9,
        v@.no_duplicates(),
{
    let mut v: Vec<u8> = Vec::new();
    let mut i: u8 = 1;
    while i <= 9
        invariant
            1 <= i <= 10,
            v@.len() == i - 1,
            forall|k: int| 0 <= k < i - 1 ==> #[trigger] v@[k] == k + 1,
        decreases 10 - i,
    {
        v.push(i);
        i += 1;
    }
    let ghost base = v@;
    proof {
        assert(base.no_duplicates());
    }
    shuffle_vec(&mut v);
    proof {
        lemma_permutation_preserves(base, v@);
        assert forall|k: int| 0 <= k < 9 implies 1 <= #[trigger] v@[k] <= 9 by {
            assert(v@.contains(v@[k]));
            let p = choose|p: int| 0 <= p < base.len() && base[p] == v@[k];
            assert(base[p] == p + 1);
        }
    }
    v
}

/// Writes a permutation of 1..9 into diagonal box `b`, leaving every other
/// cell as it was.
fn seed_box(grid: &mut Sudoku, b: u8, perm: &Vec<u8>)
    requires
        old(grid).wf(),
        b < 3,
        perm@.len() == 9,
        forall|k: int| 0 <= k < 9 ==> 1 <= #[trigger] perm@[k] <= 9,
    ensures
        final(grid).wf(),
        forall|i: int|
            0 <= i < 81 && in_diag_box(i, b as int) ==> #[trigger] final(grid)@[i] == perm@[box_slot(
                i,
                b as int,
            )],
        forall|i: int|
            0 <= i < 81 && !in_diag_box(i, b as int) ==> #[trigger] final(grid)@[i] == old(
                grid,
            )@[i],
{
    let ghost g0 = grid@;
    let mut k: u8 = 0;
    while k < 9
        invariant
            grid.wf(),
            g0 == old(grid)@,
            g0.len() == 81,
            b < 3,
            k <= 9,
            perm@.len() == 9,
            forall|q: int| 0 <= q < 9 ==> 1 <= #[trigger] perm@[q] <= 9,
            forall|i: int|
                0 <= i < 81 && in_diag_box(i, b as int) && box_slot(i, b as int) < k
                    ==> #[trigger] grid@[i] == perm@[box_slot(i, b as int)],
            forall|i: int|
                0 <= i < 81 && (!in_diag_box(i, b as int) || box_slot(i, b as int) >= k)
                    ==> #[trigger] grid@[i] == g0[i],
        decreases 9 - k,
    {
        let r: u8 = 3 * b + k / 3;
        let c: u8 = 3 * b + k % 3;
        proof {
            lemma_cell_index_decode(r as int, c as int);
            assert(in_diag_box(cell_index(r as int, c as int), b as int));
            assert(box_slot(cell_index(r as int, c as int), b as int) == k);
        }
        grid.set_element(r, c, perm[k as usize]);
        proof {
            let idx = cell_index(r as int, c as int);
            assert forall|i: int|
                0 <= i < 81 && in_diag_box(i, b as int) && box_slot(i, b as int) < k + 1
                    implies #[trigger] grid@[i] == perm@[box_slot(i, b as int)] by {
                if i != idx {
                    assert(grid@[i] == g0[i] || grid@[i] == perm@[box_slot(i, b as int)]);
                }
            }
            assert forall|i: int|
                0 <= i < 81 && (!in_diag_box(i, b as int) || box_slot(i, b as int) >= k + 1)
                    implies #[trigger] grid@[i] == g0[i] by {
                lemma_index_decode(i);
                if i == idx {
                    assert(in_diag_box(i, b as int) && box_slot(i, b as int) == k);
                }
            }
        }
        k += 1;
    }
}

/// The traversal order that generation starts from: the 54 cell indices not
/// fixed by the diagonal seeding, ascending.
pub fn remaining_order() -> (v: Vec<u8>)
    ensures
        v@.no_duplicates(),
        forall|x: u8| v@.contains(x) <==> (x < 81 && !on_diagonal(x as int)),
        forall|k: int| 0 <= k < v@.len() ==> #[trigger] v@[k] < 81,
{
    let mut v: Vec<u8> = Vec::new();
    let mut i: u8 = 0;
    while i < 81
        invariant
            i <= 81,
            v@.no_duplicates(),
            forall|x: u8| #![trigger v@.contains(x)] v@.contains(x) <==> (x < i && !on_diagonal(x as int)),
        decreases 81 - i,
    {
        let r: u8 = i / 9;
        let c: u8 = i % 9;
        proof {
            lemma_index_decode(i as int);
        }
        if r / 3 != c / 3 {
            let ghost old_v = v@;
            proof {
                assert(!old_v.contains(i));
            }
            v.push(i);
            proof {
                assert forall|x: u8|
                    #![trigger v@.contains(x)]
                    v@.contains(x) <==> (x < i + 1 && !on_diagonal(x as int)) by {
                    lemma_push_contains(old_v, i, x);
                }
                assert forall|p: int, q: int| 0 <= p < q < v@.len() implies v@[p] != v@[q] by {
                    if q < v@.len() - 1 {
                        assert(old_v[p] != old_v[q]);
                    } else {
                        assert(old_v.contains(old_v[p]));
                    }
                }
            }
        } else {
            proof {
                assert(on_diagonal(i as int));
                assert forall|x: u8|
                    #![trigger v@.contains(x)]
                    v@.contains(x) <==> (x < i + 1 && !on_diagonal(x as int)) by {
                    if v@.contains(x) {
                        assert(x < i && !on_diagonal(x as int));
                    }
                    if x < i + 1 && !on_diagonal(x as int) {
                        assert(x != i);
                        assert(x < i);
                        assert(v@.contains(x));
                    }
                }
            }
        }
        i += 1;
    }
    proof {
        assert forall|k: int| 0 <= k < v@.len() implies #[trigger] v@[k] < 81 by {
            assert(v@.contains(v@[k]));
        }
    }
    v
}

/// The generation traversal order: the 54 indices left open by the diagonal
/// seeding, uniformly shuffled. It holds each such index exactly once and
/// none of the seeded ones.
pub fn generation_order() -> (v: Vec<u8>)
    ensures
        v@.no_duplicates(),
        forall|x: u8| v@.contains(x) <==> (x < 81 && !on_diagonal(x as int)),
        forall|k: int| 0 <= k < v@.len() ==> #[trigger] v@[k] < 81,
{
    let mut v = remaining_order();
    let ghost base = v@;
    shuffle_vec(&mut v);
    proof {
        lemma_permutation_preserves(base, v@);
        assert forall|k: int| 0 <= k < v@.len() implies #[trigger] v@[k] < 81 by {
            assert(v@.contains(v@[k]));
        }
    }
    v
}

/// Generates a complete solved grid, full and satisfying every row, column
/// and box constraint: seeds the three diagonal boxes with random digit
/// permutations and fills the rest by backtracking over a shuffled traversal
/// order. It always succeeds: the seeded search runs first, and should it
/// ever come back empty (the seeding in fact always admits a completion,
/// though that is not proved here), a fresh search over the whole grid takes
/// its place, whose success follows from an explicit witness.
pub fn generate_solved() -> (g: Sudoku)
    ensures
        g.wf(),
        full(g@),
        consistent(g@),
{
    let mut start = Sudoku::new();
    let p0 = random_digit_permutation();
    seed_box(&mut start, 0, &p0);
    let p1 = random_digit_permutation();
    seed_box(&mut start, 1, &p1);
    let p2 = random_digit_permutation();
    seed_box(&mut start, 2, &p2);
    proof {
        assert forall|i: int| 0 <= i < 81 && !on_diagonal(i) implies start@[i] == 0 by {
            lemma_index_decode(i);
        }
        assert forall|i: int| 0 <= i < 81 && on_diagonal(i) implies 1 <= start@[i] <= 9 by {
            lemma_index_decode(i);
            let b = row_of(i) / 3;
            assert(in_diag_box(i, b));
            assert(0 <= box_slot(i, b) < 9);
        }
        lemma_seeded_consistent(start@, p0@, p1@, p2@);
    }
    let order = generation_order();
    let ghost s0 = start@;
    let ghost ord = order@;
    let r = solve(start, Some(order));
    proof {
        if r is Some {
            let g = r->0;
            assert(completes(s0, ord, g@));
            assert forall|i: int| 0 <= i < 81 && s0[i] == 0 implies ord.contains(i as u8) by {
                assert(!on_diagonal(i));
            }
            lemma_completion_full(s0, ord, g@);
            lemma_completion_consistent(s0, ord, g@);
        }
    }
    match r {
        Some(g) => g,
        None => search_from_empty(),
    }
}

/// Fills the empty grid along a freshly shuffled order covering all 81
/// cells. This always succeeds: the cyclic grid witnesses that a completion
/// exists, so the solver cannot report failure.
fn search_from_empty() -> (g: Sudoku)
    ensures
        g.wf(),
        full(g@),
        consistent(g@),
{
    let mut order = crate::search::default_order();
    let ghost base = order@;
    shuffle_vec(&mut order);
    proof {
        lemma_permutation_preserves(base, order@);
        assert forall|q: int| 0 <= q < order@.len() implies #[trigger] order@[q] < 81 by {
            assert(order@.contains(order@[q]));
            let p = choose|p: int| 0 <= p < base.len() && base[p] == order@[q];
            assert(base[p] == p);
        }
    }
    let empty = Sudoku::new();
    let ghost e0 = empty@;
    let ghost ord = order@;
    let seq_arg: Option<Vec<u8>> = Some(order);
    proof {
        assert(crate::search::solve_order(seq_arg) == ord);
    }
    let r = solve(empty, seq_arg);
    proof {
        lemma_cyclic_grid_valid();
        let w = cyclic_grid();
        assert forall|x: u8| x < 81 implies ord.contains(x) by {
            assert(base[x as int] == x);
            assert(base.contains(x));
        }
        assert(completes(e0, ord, w));
        assert(r is Some) by {
            if r is None {
                assert(!completes(e0, ord, w));
            }
        }
        let g = r->0;
        assert(completes(e0, ord, g@));
        lemma_completion_full(e0, ord, g@);
        lemma_completion_consistent(e0, ord, g@);
    }
    match r {
        Some(g) => g,
        None => {
            proof {
                assert(false);
            }
            Sudoku::new()
        },
    }
}

/// A grid whose diagonal boxes hold digit permutations and whose other cells
/// are empty is consistent: the three boxes share no row, column or box.
proof fn lemma_seeded_consistent(g: Seq<u8>, p0: Seq<u8>, p1: Seq<u8>, p2: Seq<u8>)
    requires
        g.len() == 81,
        p0.len() == 9 && p0.no_duplicates(),
        p1.len() == 9 && p1.no_duplicates(),
        p2.len() == 9 && p2.no_duplicates(),
        forall|i: int| 0 <= i < 81 && !on_diagonal(i) ==> #[trigger] g[i] == 0,
        forall|i: int| 0 <= i < 81 && in_diag_box(i, 0) ==> #[trigger] g[i] == p0[box_slot(i, 0)],
        forall|i: int| 0 <= i < 81 && in_diag_box(i, 1) ==> #[trigger] g[i] == p1[box_slot(i, 1)],
        forall|i: int| 0 <= i < 81 && in_diag_box(i, 2) ==> #[trigger] g[i] == p2[box_slot(i, 2)],
    ensures
        consistent(g),
{
    assert forall|i: int, j: int|
        0 <= i < 81 && 0 <= j < 81 && i != j && crate::board::same_unit(i, j) && #[trigger] g[i]
            != 0 && #[trigger] g[j] != 0 implies g[i] != g[j] by {
        lemma_index_decode(i);
        lemma_index_decode(j);
        assert(on_diagonal(i) && on_diagonal(j));
        let bi = row_of(i) / 3;
        let bj = row_of(j) / 3;
        assert(bi == bj);
        let b = bi;
        assert(0 <= b < 3);
        assert(in_diag_box(i, b) && in_diag_box(j, b));
        assert(box_slot(i, b) != box_slot(j, b)) by {
            if box_slot(i, b) == box_slot(j, b) {
                assert(row_of(i) == row_of(j) && col_of(i) == col_of(j));
                assert(i == cell_index(row_of(i), col_of(i)));
                assert(j == cell_index(row_of(j), col_of(j)));
            }
        }
        assert(0 <= box_slot(i, b) < 9 && 0 <= box_slot(j, b) < 9);
    }
}

/// Resets the cells listed in the first `count` entries of `order` (distinct
/// indices) to empty, turning a full grid into a puzzle with exactly `count`
/// blanks.
pub fn remove_cells(grid: &mut Sudoku, order: &Vec<u8>, count: u8)
    requires
        old(grid).wf(),
        full(old(grid)@),
        order@.no_duplicates(),
        forall|k: int| 0 <= k < order@.len() ==> #[trigger] order@[k] < 81,
        count as int <= order@.len(),
    ensures
        final(grid).wf(),
        forall|i: int|
            0 <= i < 81 ==> #[trigger] final(grid)@[i] == (if order@.take(count as int).contains(
                i as u8,
            ) {
                0u8
            } else {
                old(grid)@[i]
            }),
        num_blanks(final(grid)@) == count as int,
{
    let ghost g0 = grid@;
    proof {
        lemma_blanks_full(g0, 81);
        assert(g0.take(0) =~= Seq::<u8>::empty());
    }
    let mut k: u8 = 0;
    while k < count
        invariant
            grid.wf(),
            g0 == old(grid)@,
            g0.len() == 81,
            full(g0),
            k <= count,
            count as int <= order@.len(),
            order@.no_duplicates(),
            forall|q: int| 0 <= q < order@.len() ==> #[trigger] order@[q] < 81,
            forall|i: int|
                0 <= i < 81 ==> #[trigger] grid@[i] == (if order@.take(k as int).contains(i as u8) {
                    0u8
                } else {
                    g0[i]
                }),
            blanks_upto(grid@, 81) == k as int,
        decreases count - k,
    {
        let idx = order[k as usize];
        let c: u8 = idx % 9;
        let r: u8 = (idx - c) / 9;
        let ghost before = grid@;
        proof {
            lemma_index_decode(idx as int);
            assert(cell_index(r as int, c as int) == idx as int);
            assert(!order@.take(k as int).contains(idx)) by {
                if order@.take(k as int).contains(idx) {
                    let p = choose|p: int|
                        0 <= p < order@.take(k as int).len() && order@.take(k as int)[p] == idx;
                    assert(order@[p] == order@[k as int]);
                }
            }
            assert(before[idx as int] == g0[idx as int]);
            assert(g0[idx as int] != 0);
        }
        grid.set_element(r, c, 0);
        proof {
            lemma_blanks_update_zero(before, idx as int, 81);
            assert forall|x: u8|
                order@.take(k + 1).contains(x) <==> (order@.take(k as int).contains(x) || x
                    == idx) by {
                lemma_take_contains(order@, k as int, x);
            }
            assert forall|i: int|
                0 <= i < 81 implies #[trigger] grid@[i] == (if order@.take(k + 1).contains(
                i as u8,
            ) {
                0u8
            } else {
                g0[i]
            }) by {
                if i == idx as int {
                    assert(order@.take(k + 1).contains(idx));
                } else {
                    assert(grid@[i] == before[i]);
                }
            }
        }
        k += 1;
    }
    proof {
        assert(grid@.len() == 81);
    }
}

/// Membership in a longer prefix is membership in the shorter one, or
/// equality with the newly covered element.
proof fn lemma_take_contains(s: Seq<u8>, k: int, x: u8)
    requires
        0 <= k < s.len(),
    ensures
        s.take(k + 1).contains(x) <==> (s.take(k).contains(x) || x == s[k]),
{
    let t = s.take(k);
    let t1 = s.take(k + 1);
    if t1.contains(x) {
        let i = choose|i: int| 0 <= i < t1.len() && t1[i] == x;
        if i < k {
            assert(t[i] == x);
        }
    }
    if t.contains(x) {
        let i = choose|i: int| 0 <= i < t.len() && t[i] == x;
        assert(t1[i] == x);
    }
    assert(t1[k] == s[k]);
}

/// `p` is a puzzle cut from some fully solved grid: its filled cells agree
/// with a complete, consistent grid.
pub open spec fn puzzle_of(p: Seq<u8>, g: Seq<u8>) -> bool {
    &&& grid_wf(g)
    &&& full(g)
    &&& consistent(g)
    &&& p.len() == 81
    &&& forall|i: int| 0 <= i < 81 && #[trigger] p[i] != 0 ==> p[i] == g[i]
}

/// Cuts a puzzle from a solved grid: resets a uniformly chosen number of
/// cells, between 27 and 45, to empty at distinct random positions. The
/// surviving cells keep their digits.
pub fn make_puzzle(grid: &mut Sudoku)
    requires
        old(grid).wf(),
        full(old(grid)@),
    ensures
        final(grid).wf(),
        27 <= num_blanks(final(grid)@) <= 45,
        forall|i: int|
            0 <= i < 81 && #[trigger] final(grid)@[i] != 0 ==> final(grid)@[i] == old(grid)@[i],
{
    let count = random_removal_count();
    let mut order = crate::search::default_order();
    proof {
        assert(order@.no_duplicates());
    }
    let ghost base = order@;
    shuffle_vec(&mut order);
    proof {
        lemma_permutation_preserves(base, order@);
        assert forall|q: int| 0 <= q < order@.len() implies #[trigger] order@[q] < 81 by {
            assert(order@.contains(order@[q]));
            let p = choose|p: int| 0 <= p < base.len() && base[p] == order@[q];
            assert(base[p] == p);
        }
    }
    remove_cells(grid, &order, count);
}

/// Generates a sudoku puzzle, always succeeding: a solved grid with 27 to 45
/// cells reset to empty at distinct random positions, so its filled cells
/// agree with a complete valid grid.
pub fn generate() -> (p: Sudoku)
    ensures
        p.wf(),
        27 <= num_blanks(p@) <= 45,
        exists|g: Seq<u8>| #[trigger] puzzle_of(p@, g),
{
    let mut s = generate_solved();
    let ghost gs = s@;
    make_puzzle(&mut s);
    proof {
        assert(puzzle_of(s@, gs));
    }
    s
}

} // verus!
