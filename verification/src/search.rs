use vstd::prelude::*;
use crate::board::{cell_index, col_of, consistent, full, grid_wf, row_of, same_unit, Sudoku};
use crate::checker::{
    check_validity, digit_ok, lemma_cell_index_decode, lemma_digit_blocked_witness,
    lemma_digit_ok_covers_unit, lemma_index_decode,
};

verus! {

/// Filling `g` never creates a fresh conflict: any two distinct cells of the
/// same row, column or box that both end up nonzero in `g2` hold different
/// digits, unless both were already filled in `g` (an inherited conflict is
/// not the search's doing).
pub open spec fn no_new_conflict(g: Seq<u8>, g2: Seq<u8>) -> bool {
    forall|i: int, j: int|
        0 <= i < 81 && 0 <= j < 81 && i != j && same_unit(i, j) && (g[i] == 0 || g[j] == 0)
            && #[trigger] g2[i] != 0 && #[trigger] g2[j] != 0 ==> g2[i] != g2[j]
}

/// `g2` is exactly what a successful search over traversal order `s` may turn
/// `g` into: filled cells are kept, cells visited by `s` end up holding a
/// digit 1..9, unvisited empty cells stay empty, and no new conflict appears.
pub open spec fn completes(g: Seq<u8>, s: Seq<u8>, g2: Seq<u8>) -> bool {
    &&& g2.len() == 81
    &&& forall|i: int| 0 <= i < 81 && g[i] != 0 ==> #[trigger] g2[i] == g[i]
    &&& forall|i: int| 0 <= i < 81 && g[i] == 0 && !s.contains(i as u8) ==> #[trigger] g2[i] == 0
    &&& forall|i: int| 0 <= i < 81 && s.contains(i as u8) ==> 1 <= #[trigger] g2[i] <= 9
    &&& no_new_conflict(g, g2)
}

/// A grid with no empty cell completes itself, whatever the traversal order.
proof fn lemma_full_completes_self(g: Seq<u8>, s: Seq<u8>)
    requires
        grid_wf(g),
        full(g),
    ensures
        completes(g, s, g),
{
}

/// Every completion of a grid with no empty cell is that grid itself.
proof fn lemma_full_completion_unique(g: Seq<u8>, s: Seq<u8>, g2: Seq<u8>)
    requires
        grid_wf(g),
        full(g),
        completes(g, s, g2),
    ensures
        g2 == g,
{
    assert(g2 =~= g);
}

/// Membership in the tail at `pos` is membership at `pos + 1` or equality
/// with the element at `pos`.
proof fn lemma_skip_contains(s: Seq<u8>, pos: int, x: u8)
    requires
        0 <= pos < s.len(),
    ensures
        s.skip(pos).contains(x) <==> (x == s[pos] || s.skip(pos + 1).contains(x)),
{
    let t = s.skip(pos);
    let t2 = s.skip(pos + 1);
    if t.contains(x) {
        let i = choose|i: int| 0 <= i < t.len() && t[i] == x;
        if i > 0 {
            assert(t2[i - 1] == x);
        }
    }
    if x == s[pos] {
        assert(t[0] == x);
    }
    if t2.contains(x) {
        let i = choose|i: int| 0 <= i < t2.len() && t2[i] == x;
        assert(t[i + 1] == x);
    }
}

/// When the cell visited at `pos` is already filled, skipping it changes
/// nothing about which grids complete `g`.
proof fn lemma_completes_skip_prefilled(g: Seq<u8>, s: Seq<u8>, pos: int, g2: Seq<u8>)
    requires
        grid_wf(g),
        0 <= pos < s.len(),
        s[pos] < 81,
        g[s[pos] as int] != 0,
    ensures
        completes(g, s.skip(pos), g2) <==> completes(g, s.skip(pos + 1), g2),
{
    assert forall|x: u8| s.skip(pos).contains(x) <==> (x == s[pos] || s.skip(pos + 1).contains(
        x,
    )) by {
        lemma_skip_contains(s, pos, x);
    }
}

/// Placing an acceptable digit and completing the rest of the order is one
/// way of completing the original grid over the whole order.
proof fn lemma_completes_place(g: Seq<u8>, s: Seq<u8>, pos: int, d: u8, g2: Seq<u8>)
    requires
        grid_wf(g),
        0 <= pos < s.len(),
        s[pos] < 81,
        g[s[pos] as int] == 0,
        1 <= d <= 9,
        digit_ok(g, row_of(s[pos] as int), col_of(s[pos] as int), d),
        completes(g.update(s[pos] as int, d), s.skip(pos + 1), g2),
    ensures
        completes(g, s.skip(pos), g2),
{
    let cell = s[pos] as int;
    let gd = g.update(cell, d);
    lemma_index_decode(cell);
    assert forall|x: u8| s.skip(pos).contains(x) <==> (x == s[pos] || s.skip(pos + 1).contains(
        x,
    )) by {
        lemma_skip_contains(s, pos, x);
    }
    assert forall|i: int, j: int|
        0 <= i < 81 && 0 <= j < 81 && i != j && same_unit(i, j) && (g[i] == 0 || g[j] == 0)
            && #[trigger] g2[i] != 0 && #[trigger] g2[j] != 0 implies g2[i] != g2[j] by {
        if i != cell && j != cell {
            assert(gd[i] == g[i] && gd[j] == g[j]);
        } else if i == cell {
            if g[j] != 0 {
                lemma_digit_ok_covers_unit(g, row_of(cell), col_of(cell), d, j);
                assert(g2[j] == g[j]);
                assert(g2[i] == gd[i]);
            } else {
                assert(gd[j] == 0);
            }
        } else {
            if g[i] != 0 {
                lemma_digit_ok_covers_unit(g, row_of(cell), col_of(cell), d, i);
                assert(g2[i] == g[i]);
                assert(g2[j] == gd[j]);
            } else {
                assert(gd[i] == 0);
            }
        }
    }
}

/// Conversely, a completion of the original grid that places `d` at the cell
/// visited at `pos` also completes the grid with `d` already placed there.
proof fn lemma_completes_unplace(g: Seq<u8>, s: Seq<u8>, pos: int, d: u8, g2: Seq<u8>)
    requires
        grid_wf(g),
        0 <= pos < s.len(),
        s[pos] < 81,
        g[s[pos] as int] == 0,
        1 <= d <= 9,
        completes(g, s.skip(pos), g2),
        g2[s[pos] as int] == d,
    ensures
        completes(g.update(s[pos] as int, d), s.skip(pos + 1), g2),
{
    let cell = s[pos] as int;
    let gd = g.update(cell, d);
    assert forall|x: u8| s.skip(pos).contains(x) <==> (x == s[pos] || s.skip(pos + 1).contains(
        x,
    )) by {
        lemma_skip_contains(s, pos, x);
    }
    assert(s.skip(pos).contains(s[pos])) by {
        assert(s.skip(pos)[0] == s[pos]);
    }
}

/// `ga` precedes `gb` (or equals it) lexicographically along the cells the
/// traversal order visits from position `pos` on: at the first visited cell
/// where they differ, `ga` holds the smaller digit.
pub open spec fn lex_leq(ga: Seq<u8>, gb: Seq<u8>, s: Seq<u8>, pos: int) -> bool
    decreases s.len() - pos,
{
    if pos < 0 || pos >= s.len() {
        true
    } else {
        ga[s[pos] as int] < gb[s[pos] as int] || (ga[s[pos] as int] == gb[s[pos] as int]
            && lex_leq(ga, gb, s, pos + 1))
    }
}

/// Two grids that each precede the other agree on every visited cell.
proof fn lemma_lex_antisym(a: Seq<u8>, b: Seq<u8>, s: Seq<u8>, pos: int)
    requires
        0 <= pos,
        lex_leq(a, b, s, pos),
        lex_leq(b, a, s, pos),
    ensures
        forall|p: int|
            #![trigger s[p]]
            pos <= p < s.len() ==> a[s[p] as int] == b[s[p] as int],
    decreases s.len() - pos,
{
    if pos < s.len() {
        lemma_lex_antisym(a, b, s, pos + 1);
    }
}

/// The solver is a function of its input: a completion that is
/// lexicographically least along the traversal order is unique, so two runs
/// on equal inputs return the same grid.
pub proof fn lemma_least_completion_unique(g: Seq<u8>, s: Seq<u8>, a: Seq<u8>, b: Seq<u8>)
    requires
        g.len() == 81,
        forall|k: int| 0 <= k < s.len() ==> s[k] < 81,
        completes(g, s, a),
        completes(g, s, b),
        lex_leq(a, b, s, 0),
        lex_leq(b, a, s, 0),
    ensures
        a == b,
{
    lemma_lex_antisym(a, b, s, 0);
    assert forall|i: int| 0 <= i < 81 implies a[i] == b[i] by {
        if g[i] != 0 {
            assert(a[i] == g[i] && b[i] == g[i]);
        } else if s.contains(i as u8) {
            let p = choose|p: int| 0 <= p < s.len() && s[p] == i as u8;
            assert(a[s[p] as int] == b[s[p] as int]);
        } else {
            assert(a[i] == 0 && b[i] == 0);
        }
    }
    assert(a =~= b);
}

/// A digit that the checker refuses at an empty cell still to be visited is
/// placed there by no completion.
proof fn lemma_completes_cell_blocked(g: Seq<u8>, t: Seq<u8>, c: u8, d: u8, g2: Seq<u8>)
    requires
        grid_wf(g),
        c < 81,
        t.contains(c),
        g[c as int] == 0,
        1 <= d <= 9,
        !digit_ok(g, row_of(c as int), col_of(c as int), d),
        completes(g, t, g2),
    ensures
        g2[c as int] != d,
{
    let cell = c as int;
    lemma_index_decode(cell);
    let j = lemma_digit_blocked_witness(g, row_of(cell), col_of(cell), d);
    assert(g[cell] == 0);
    assert(j != cell);
    assert(g[j] == d && d != 0);
    assert(g2[j] == g[j]);
    assert(1 <= g2[cell] <= 9);
    if g2[cell] == d {
        assert(g2[cell] != g2[j]);
    }
}

/// A digit that the checker refuses at the cell visited at `pos` is placed
/// there by no completion.
proof fn lemma_completes_digit_blocked(g: Seq<u8>, s: Seq<u8>, pos: int, d: u8, g2: Seq<u8>)
    requires
        grid_wf(g),
        0 <= pos < s.len(),
        s[pos] < 81,
        g[s[pos] as int] == 0,
        1 <= d <= 9,
        !digit_ok(g, row_of(s[pos] as int), col_of(s[pos] as int), d),
        completes(g, s.skip(pos), g2),
    ensures
        g2[s[pos] as int] != d,
{
    assert(s.skip(pos).contains(s[pos])) by {
        assert(s.skip(pos)[0] == s[pos]);
    }
    lemma_completes_cell_blocked(g, s.skip(pos), s[pos], d, g2);
}

/// Backtracking search: visits the cells listed in `order` from position
/// `pos` on, skips filled cells, tries digits 1..9 ascending at empty ones,
/// and undoes a placement whose branch fails. Returns true exactly when some
/// completion of the grid along the remaining order exists; the grid then
/// holds one such completion, and is otherwise left unchanged.
pub fn search(grid: &mut Sudoku, order: &Vec<u8>, pos: usize) -> (found: bool)
    requires
        old(grid).wf(),
        pos <= order@.len(),
        forall|k: int| pos <= k < order@.len() ==> order@[k] < 81,
    ensures
        final(grid).wf(),
        found ==> completes(old(grid)@, order@.skip(pos as int), final(grid)@),
        found ==> forall|g2: Seq<u8>|
            #[trigger] completes(old(grid)@, order@.skip(pos as int), g2) ==> lex_leq(
                final(grid)@,
                g2,
                order@,
                pos as int,
            ),
        !found ==> final(grid)@ == old(grid)@,
        !found ==> forall|g2: Seq<u8>| !completes(old(grid)@, order@.skip(pos as int), g2),
    decreases order@.len() - pos,
{
    let ghost g0 = grid@;
    let ghost tail = order@.skip(pos as int);
    if pos >= order.len() {
        proof {
            assert(tail =~= Seq::<u8>::empty());
            assert forall|x: u8| !tail.contains(x) by {
                assert(tail.len() == 0);
            }
        }
        return true;
    }
    // Forward check: a still-unvisited empty cell that admits no digit at
    // all kills the whole branch, since no completion could fill it. This
    // prunes only branches without completions, so the result is unchanged.
    let mut q = pos;
    while q < order.len()
        invariant
            grid.wf(),
            grid@ == old(grid)@,
            pos <= q <= order@.len(),
            order@.len() <= usize::MAX,
            forall|k: int| pos <= k < order@.len() ==> order@[k] < 81,
            tail == order@.skip(pos as int),
        decreases order@.len() - q,
    {
        let cidx = order[q];
        let ccol: u8 = cidx % 9;
        let crow: u8 = (cidx - ccol) / 9;
        proof {
            lemma_index_decode(cidx as int);
        }
        if grid.get(crow, ccol) == 0 {
            let mut any = false;
            let mut d: u8 = 1;
            while !any && d <= 9
                invariant
                    grid.wf(),
                    grid@ == old(grid)@,
                    crow == row_of(cidx as int),
                    ccol == col_of(cidx as int),
                    crow < 9,
                    ccol < 9,
                    1 <= d <= 10,
                    !any ==> forall|dd: u8|
                        1 <= dd < d ==> !digit_ok(grid@, crow as int, ccol as int, dd),
                decreases 10 - d,
            {
                if check_validity(grid, crow, ccol, d) {
                    any = true;
                }
                d += 1;
            }
            if !any {
                proof {
                    assert(tail.contains(cidx)) by {
                        assert(tail[q - pos as int] == cidx);
                    }
                    assert forall|g2: Seq<u8>| !completes(grid@, tail, g2) by {
                        if completes(grid@, tail, g2) {
                            assert(1 <= g2[cidx as int] <= 9);
                            lemma_completes_cell_blocked(
                                grid@,
                                tail,
                                cidx,
                                g2[cidx as int],
                                g2,
                            );
                        }
                    }
                }
                return false;
            }
        }
        q += 1;
    }
    let idx = order[pos];
    let col: u8 = idx % 9;
    let row: u8 = (idx - col) / 9;
    proof {
        lemma_index_decode(idx as int);
        assert(row == row_of(idx as int) && col == col_of(idx as int));
        assert(cell_index(row as int, col as int) == idx as int);
    }
    // Skip cells that are already filled
    if grid.get(row, col) != 0 {
        let found = search(grid, order, pos + 1);
        proof {
            assert forall|g2: Seq<u8>|
                completes(g0, tail, g2) <==> completes(g0, order@.skip(pos + 1), g2) by {
                lemma_completes_skip_prefilled(g0, order@, pos as int, g2);
            }
            if found {
                assert forall|g2: Seq<u8>| #[trigger] completes(g0, tail, g2) implies lex_leq(
                    grid@,
                    g2,
                    order@,
                    pos as int,
                ) by {
                    assert(completes(g0, order@.skip(pos as int + 1), g2));
                    assert(lex_leq(grid@, g2, order@, pos as int + 1));
                    assert(grid@[idx as int] == g0[idx as int]);
                    assert(g2[idx as int] == g0[idx as int]);
                }
            }
        }
        return found;
    }
    // Try each candidate digit in ascending order
    proof {
        assert(tail[0] == idx);
        assert(tail.contains(idx));
        assert forall|g2: Seq<u8>| #[trigger] completes(g0, tail, g2) implies g2[idx as int]
            >= 1 by {
            assert(1 <= g2[idx as int] <= 9);
        }
    }
    let mut d: u8 = 1;
    while d <= 9
        invariant
            grid.wf(),
            grid@ == g0,
            g0 == old(grid)@,
            1 <= d <= 10,
            pos < order@.len(),
            order@.len() <= usize::MAX,
            forall|k: int| pos <= k < order@.len() ==> order@[k] < 81,
            idx == order@[pos as int],
            row == row_of(idx as int),
            col == col_of(idx as int),
            row < 9,
            col < 9,
            g0[idx as int] == 0,
            tail == order@.skip(pos as int),
            forall|g2: Seq<u8>| #[trigger] completes(g0, tail, g2) ==> g2[idx as int] >= d,
        decreases 10 - d,
    {
        if check_validity(grid, row, col, d) {
            grid.set_element(row, col, d);
            let found = search(grid, order, pos + 1);
            if found {
                proof {
                    lemma_completes_place(g0, order@, pos as int, d, grid@);
                    assert(grid@[idx as int] == d);
                    assert forall|g2: Seq<u8>| #[trigger] completes(g0, tail, g2) implies lex_leq(
                        grid@,
                        g2,
                        order@,
                        pos as int,
                    ) by {
                        assert(g2[idx as int] >= d);
                        if g2[idx as int] == d {
                            lemma_completes_unplace(g0, order@, pos as int, d, g2);
                            assert(completes(
                                g0.update(idx as int, d),
                                order@.skip(pos as int + 1),
                                g2,
                            ));
                            assert(lex_leq(grid@, g2, order@, pos as int + 1));
                        }
                    }
                }
                return true;
            }
            grid.set_element(row, col, 0);
            proof {
                assert(grid@ =~= g0);
                assert forall|g2: Seq<u8>| #[trigger] completes(g0, tail, g2) implies g2[idx as int]
                    >= d + 1 by {
                    if g2[idx as int] == d {
                        lemma_completes_unplace(g0, order@, pos as int, d, g2);
                        assert(!completes(g0.update(idx as int, d), order@.skip(pos + 1), g2));
                    }
                }
            }
        } else {
            proof {
                assert forall|g2: Seq<u8>| #[trigger] completes(g0, tail, g2) implies g2[idx as int]
                    >= d + 1 by {
                    lemma_completes_digit_blocked(g0, order@, pos as int, d, g2);
                }
            }
        }
        d += 1;
    }
    proof {
        assert forall|g2: Seq<u8>| !completes(g0, tail, g2) by {
            if completes(g0, tail, g2) {
                assert(tail.contains(idx)) by {
                    assert(tail[0] == idx);
                }
                assert(1 <= g2[idx as int] <= 9);
            }
        }
    }
    false
}

/// The identity traversal order: the 81 linear cell indices in sequence.
pub fn default_order() -> (v: Vec<u8>)
    ensures
        v@.len() == 81,
        forall|k: int| 0 <= k < 81 ==> v@[k] == k,
{
    let mut v: Vec<u8> = Vec::new();
    let mut i: u8 = 0;
    while i < 81
        invariant
            i <= 81,
            v@.len() == i as int,
            forall|k: int| 0 <= k < i ==> v@[k] == k,
        decreases 81 - i,
    {
        v.push(i);
        i += 1;
    }
    v
}

/// The traversal order that `solve` uses: the given one, or the identity
/// order over all 81 cells when none is given.
pub open spec fn solve_order(seq: Option<Vec<u8>>) -> Seq<u8> {
    match seq {
        Some(v) => v@,
        None => Seq::new(81, |i: int| i as u8),
    }
}

/// Solves the sudoku by backtracking over the traversal order (all 81 cells
/// in row-major sequence when `seq` is `None`). Returns a completion of the
/// grid exactly when one exists along that order, and then the first one the
/// ascending digit order finds: the completion that is lexicographically
/// least along the traversal order, which pins the result uniquely (see
/// `lemma_least_completion_unique`). A grid that is already full comes back
/// unchanged.
pub fn solve(grid: Sudoku, seq: Option<Vec<u8>>) -> (r: Option<Sudoku>)
    requires
        grid.wf(),
        seq matches Some(v) ==> forall|k: int| 0 <= k < v@.len() ==> v@[k] < 81,
    ensures
        r matches Some(g) ==> g.wf() && completes(grid@, solve_order(seq), g@),
        r matches Some(g) ==> forall|g2: Seq<u8>|
            #[trigger] completes(grid@, solve_order(seq), g2) ==> lex_leq(
                g@,
                g2,
                solve_order(seq),
                0,
            ),
        r is None ==> forall|g2: Seq<u8>| !completes(grid@, solve_order(seq), g2),
        full(grid@) ==> (r matches Some(g) && g@ == grid@),
{
    let ghost g0 = grid@;
    let ghost ord = solve_order(seq);
    let order: Vec<u8> = match seq {
        Some(v) => v,
        None => default_order(),
    };
    proof {
        assert(order@ =~= ord);
    }
    let mut g = grid;
    let found = search(&mut g, &order, 0);
    proof {
        assert(order@.skip(0) =~= order@);
        if full(g0) {
            lemma_full_completes_self(g0, ord);
            assert(found);
            lemma_full_completion_unique(g0, ord, g@);
        }
    }
    if found {
        Some(g)
    } else {
        None
    }
}

/// A completion of a consistent grid is consistent: the inherited pairs were
/// already distinct, and the search adds no new conflict.
pub proof fn lemma_completion_consistent(g: Seq<u8>, s: Seq<u8>, g2: Seq<u8>)
    requires
        g.len() == 81,
        consistent(g),
        completes(g, s, g2),
    ensures
        consistent(g2),
{
    assert forall|i: int, j: int|
        0 <= i < 81 && 0 <= j < 81 && i != j && same_unit(i, j) && #[trigger] g2[i] != 0
            && #[trigger] g2[j] != 0 implies g2[i] != g2[j] by {
        if g[i] != 0 && g[j] != 0 {
            assert(g2[i] == g[i] && g2[j] == g[j]);
        }
    }
}

/// A completion along an order that visits every empty cell is full.
pub proof fn lemma_completion_full(g: Seq<u8>, s: Seq<u8>, g2: Seq<u8>)
    requires
        g.len() == 81,
        completes(g, s, g2),
        forall|i: int| 0 <= i < 81 && g[i] == 0 ==> s.contains(i as u8),
    ensures
        full(g2),
{
    assert forall|i: int| 0 <= i < 81 implies g2[i] != 0 by {
        if g[i] == 0 {
            assert(1 <= g2[i] <= 9);
        } else {
            assert(g2[i] == g[i]);
        }
    }
}

} // verus!
