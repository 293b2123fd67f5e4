use vstd::prelude::*;
use vstd::string::StringExecFns;
use crate::board::{cell_index, Sudoku};
use crate::checker::lemma_index_decode;

verus! {

/// Text of one cell: the digit and a space, or two spaces for an empty cell.
pub open spec fn digit_text(v: u8) -> Seq<char> {
    if v == 1 {
        "1 "@
    } else if v == 2 {
        "2 "@
    } else if v == 3 {
        "3 "@
    } else if v == 4 {
        "4 "@
    } else if v == 5 {
        "5 "@
    } else if v == 6 {
        "6 "@
    } else if v == 7 {
        "7 "@
    } else if v == 8 {
        "8 "@
    } else if v == 9 {
        "9 "@
    } else {
        "  "@
    }
}

/// The horizontal rule between 3-row blocks.
pub open spec fn line_text() -> Seq<char> {
    " ------- ------- ------- \n"@
}

/// What precedes cell `j` in the rendered table: the closing bar of the
/// previous row, the rule above each 3-row block, and the bar before each
/// 3-cell block.
pub open spec fn cell_prefix(j: int) -> Seq<char> {
    (if j % 9 == 0 && j != 0 {
        "|\n"@
    } else {
        Seq::<char>::empty()
    }) + (if j % 27 == 0 {
        line_text()
    } else {
        Seq::<char>::empty()
    }) + (if j % 3 == 0 {
        "| "@
    } else {
        Seq::<char>::empty()
    })
}

/// The rendered text of the first `j` cells.
pub open spec fn render_upto(g: Seq<u8>, j: int) -> Seq<char>
    decreases j,
{
    if j <= 0 {
        Seq::empty()
    } else {
        render_upto(g, j - 1) + cell_prefix(j - 1) + digit_text(g[j - 1])
    }
}

/// The full bordered text table of a grid: all 81 cells with their block
/// separators, closed by a final bar and rule.
pub open spec fn render_text(g: Seq<u8>) -> Seq<char> {
    render_upto(g, 81) + "|\n"@ + line_text()
}

/// Renders the sudoku as a bordered text table, 3x3 blocks separated by
/// horizontal and vertical rules; empty cells show as blanks.
pub fn render_grid(grid: &Sudoku) -> (out: String)
    requires
        grid.wf(),
    ensures
        out@ == render_text(grid@),
{
    let mut out = String::new();
    let mut j: u8 = 0;
    while j < 81
        invariant
            grid.wf(),
            j <= 81,
            out@ == render_upto(grid@, j as int),
        decreases 81 - j,
    {
        if j % 9 == 0 && j != 0 {
            out.append("|\n");
        }
        if j % 27 == 0 {
            out.append(" ------- ------- ------- \n");
        }
        if j % 3 == 0 {
            out.append("| ");
        }
        proof {
            lemma_index_decode(j as int);
        }
        let v = grid.get(j / 9, j % 9);
        match v {
            1 => out.append("1 "),
            2 => out.append("2 "),
            3 => out.append("3 "),
            4 => out.append("4 "),
            5 => out.append("5 "),
            6 => out.append("6 "),
            7 => out.append("7 "),
            8 => out.append("8 "),
            9 => out.append("9 "),
            _ => out.append("  "),
        }
        proof {
            assert(out@ =~= render_upto(grid@, j as int) + cell_prefix(j as int) + digit_text(
                grid@[j as int],
            ));
            assert(out@ =~= render_upto(grid@, j + 1));
        }
        j += 1;
    }
    out.append("|\n");
    out.append(" ------- ------- ------- \n");
    proof {
        assert(out@ =~= render_text(grid@));
    }
    out
}

} // verus!
