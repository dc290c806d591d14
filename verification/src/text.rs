//! The plain-text puzzle convention: 81 characters per puzzle, digits for
//! fixed cells and a blank marker (space or period) for unknowns, applied in
//! row-major order; and the 9x9 text rendering with its box separators.

use crate::cell::{
    lemma_mask_remove, lemma_mask_wf_ops, mask_has, mask_wf, val_bit, SCell, FULL_MASK,
};
use crate::grid::{
    all_fixed, cells_wf, grid_narrows, no_conflict, spec_assigned, spec_set_cell, SGrid,
};
use crate::rules::{grid_pos, sees_rel};
use crate::types::SResult;
use vstd::prelude::*;
use vstd::string::StrSliceExecFns;
use vstd::string::StringExecFns;

verus! {

/// A blank marker: the cell is unknown.
pub open spec fn blank_char(c: char) -> bool {
    c == ' ' || c == '.'
}

/// The digit value a puzzle character stands for; 0 for a blank.
pub open spec fn char_val(c: char) -> u8 {
    if c == '1' {
        1
    } else if c == '2' {
        2
    } else if c == '3' {
        3
    } else if c == '4' {
        4
    } else if c == '5' {
        5
    } else if c == '6' {
        6
    } else if c == '7' {
        7
    } else if c == '8' {
        8
    } else if c == '9' {
        9
    } else {
        0
    }
}

/// A character a puzzle line may hold once comments are filtered out.
pub open spec fn allowed_char(c: char) -> bool {
    blank_char(c) || 1 <= char_val(c) <= 9
}

/// The meaning of applying characters `i..` of an 81-character puzzle to a
/// board: blanks are skipped, digits are assigned through `set_cell`, and
/// the first non-`Continue` answer stops the run.
pub open spec fn spec_apply_from(cells: Seq<SCell>, s: Seq<char>, i: int) -> (SResult, Seq<SCell>)
    decreases 81 - i,
{
    if i < 0 || i >= 81 {
        (SResult::Continue, cells)
    } else if char_val(s[i]) == 0 {
        spec_apply_from(cells, s, i + 1)
    } else {
        let step = spec_set_cell(cells, i / 9, i % 9, char_val(s[i]));
        if step.0 is Continue {
            spec_apply_from(step.1, s, i + 1)
        } else {
            step
        }
    }
}

/// The meaning of ingesting a whole 81-character puzzle.
pub open spec fn spec_apply(cells: Seq<SCell>, s: Seq<char>) -> (SResult, Seq<SCell>) {
    spec_apply_from(cells, s, 0)
}

/// Ingest an 81-character puzzle into a board, row-major.  Returns
/// `Continue` when every assignment was accepted; any other answer reports
/// the assignment that failed, leaving later characters unapplied.
pub fn apply(grid: &mut SGrid, input: &str) -> (r: SResult)
    requires
        old(grid).wf(),
        input@.len() == 81,
        forall|i: int| 0 <= i < 81 ==> allowed_char(#[trigger] input@[i]),
    ensures
        final(grid).wf(),
        r == spec_apply(old(grid)@, input@).0,
        final(grid)@ == spec_apply(old(grid)@, input@).1,
        grid_narrows(old(grid)@, final(grid)@),
{
    let mut idx: usize = 0;
    while idx < 81
        invariant
            idx <= 81,
            grid.wf(),
            input@.len() == 81,
            forall|i: int| 0 <= i < 81 ==> allowed_char(#[trigger] input@[i]),
            grid_narrows(old(grid)@, grid@),
            spec_apply_from(old(grid)@, input@, 0) == spec_apply_from(grid@, input@, idx as int),
        decreases 81 - idx,
    {
        let ch = input.get_char(idx);
        let val: u8 = match ch {
            '1' => 1,
            '2' => 2,
            '3' => 3,
            '4' => 4,
            '5' => 5,
            '6' => 6,
            '7' => 7,
            '8' => 8,
            '9' => 9,
            _ => 0,
        };
        if val != 0 {
            let res = grid.set_cell(idx / 9, idx % 9, val);
            match res {
                SResult::Continue => {},
                v => {
                    return v;
                },
            }
        }
        idx = idx + 1;
    }
    SResult::Continue
}

/// The character a cell renders to: its digit once fixed, else a blank.
pub open spec fn cell_char(c: SCell) -> char {
    match c {
        SCell::Fixed(v) => {
            if v == 1 {
                '1'
            } else if v == 2 {
                '2'
            } else if v == 3 {
                '3'
            } else if v == 4 {
                '4'
            } else if v == 5 {
                '5'
            } else if v == 6 {
                '6'
            } else if v == 7 {
                '7'
            } else if v == 8 {
                '8'
            } else if v == 9 {
                '9'
            } else {
                ' '
            }
        },
        SCell::Possible(_) => ' ',
    }
}

/// One rendered row: nine cell characters with `|` after columns 2 and 5,
/// ending in a newline.
pub open spec fn render_row(cells: Seq<SCell>, r: int) -> Seq<char> {
    seq![
        cell_char(cells[r * 9 + 0]),
        cell_char(cells[r * 9 + 1]),
        cell_char(cells[r * 9 + 2]),
        '|',
        cell_char(cells[r * 9 + 3]),
        cell_char(cells[r * 9 + 4]),
        cell_char(cells[r * 9 + 5]),
        '|',
        cell_char(cells[r * 9 + 6]),
        cell_char(cells[r * 9 + 7]),
        cell_char(cells[r * 9 + 8]),
        '\n',
    ]
}

/// The `---+---+---` separator printed after rows 2 and 5.
pub open spec fn sep_line() -> Seq<char> {
    seq!['-', '-', '-', '+', '-', '-', '-', '+', '-', '-', '-', '\n']
}

/// The rendering of the first `r` rows.
pub open spec fn render_upto(cells: Seq<SCell>, r: int) -> Seq<char>
    decreases r,
{
    if r <= 0 {
        Seq::<char>::empty()
    } else {
        render_upto(cells, r - 1) + render_row(cells, r - 1) + (if r - 1 == 2 || r - 1 == 5 {
            sep_line()
        } else {
            Seq::<char>::empty()
        })
    }
}

/// The full text rendering of a board.
pub open spec fn render_spec(cells: Seq<SCell>) -> Seq<char> {
    render_upto(cells, 9)
}

/// A board with every cell still open.
pub open spec fn fresh_cells() -> Seq<SCell> {
    Seq::new(81, |i: int| SCell::Possible(FULL_MASK))
}

/// The candidate mask of position `p` after the first `i` cells of a
/// fully fixed board have been re-ingested: the full set minus the values of
/// the already assigned cells that `p` sees.
pub open spec fn open_mask(cells: Seq<SCell>, p: int, i: int) -> u16
    decreases i,
{
    if i <= 0 {
        FULL_MASK
    } else if sees_rel((i - 1) / 9, (i - 1) % 9, p / 9, p % 9) {
        open_mask(cells, p, i - 1) & !val_bit(cells[i - 1]->Fixed_0)
    } else {
        open_mask(cells, p, i - 1)
    }
}

/// The board state after the first `i` cells of a fully fixed board have
/// been re-ingested in row-major order.
pub open spec fn reingest_state(cells: Seq<SCell>, i: int) -> Seq<SCell> {
    Seq::new(
        81,
        |p: int|
            if p < i {
                cells[p]
            } else {
                SCell::Possible(open_mask(cells, p, i))
            },
    )
}

/// What `open_mask` holds: exactly the values not yet struck by an assigned
/// cell that `p` sees.
proof fn lemma_open_mask(cells: Seq<SCell>, p: int, i: int)
    requires
        cells.len() == 81,
        cells_wf(cells),
        all_fixed(cells),
        0 <= i <= 81,
        0 <= p < 81,
    ensures
        mask_wf(open_mask(cells, p, i)),
        forall|w: u8|
            1 <= w <= 9 ==> (#[trigger] mask_has(open_mask(cells, p, i), w) <==> !(exists|q: int|
                0 <= q < i && sees_rel(q / 9, q % 9, p / 9, p % 9) && cells[q]->Fixed_0 == w)),
    decreases i,
{
    crate::cell::lemma_full_mask(1);
    assert forall|w: u8| 1 <= w <= 9 implies #[trigger] mask_has(FULL_MASK, w) by {
        crate::cell::lemma_full_mask(w);
    }
    if i > 0 {
        lemma_open_mask(cells, p, i - 1);
        let prev = open_mask(cells, p, i - 1);
        if sees_rel((i - 1) / 9, (i - 1) % 9, p / 9, p % 9) {
            let v = cells[i - 1]->Fixed_0;
            lemma_mask_wf_ops(prev, val_bit(v));
            assert(cells[i - 1].wf());
            assert forall|w: u8| 1 <= w <= 9 implies (#[trigger] mask_has(
                open_mask(cells, p, i),
                w,
            ) <==> !(exists|q: int|
                0 <= q < i && sees_rel(q / 9, q % 9, p / 9, p % 9) && cells[q]->Fixed_0 == w)) by {
                lemma_mask_remove(prev, v, w);
                if mask_has(open_mask(cells, p, i), w) {
                    if (exists|q: int|
                        0 <= q < i && sees_rel(q / 9, q % 9, p / 9, p % 9) && cells[q]->Fixed_0
                            == w) {
                        let q = choose|q: int|
                            0 <= q < i && sees_rel(q / 9, q % 9, p / 9, p % 9) && cells[q]->Fixed_0
                                == w;
                        assert(q < i - 1 || q == i - 1);
                        assert(false);
                    }
                } else {
                    if !mask_has(prev, w) {
                        let q = choose|q: int|
                            0 <= q < i - 1 && sees_rel(q / 9, q % 9, p / 9, p % 9)
                                && cells[q]->Fixed_0 == w;
                        assert(0 <= q < i && sees_rel(q / 9, q % 9, p / 9, p % 9)
                            && cells[q]->Fixed_0 == w);
                    } else {
                        assert(w == v);
                        assert(0 <= i - 1 < i && sees_rel(
                            (i - 1) / 9,
                            (i - 1) % 9,
                            p / 9,
                            p % 9,
                        ) && cells[i - 1]->Fixed_0 == w);
                    }
                }
            }
        } else {
            assert forall|w: u8| 1 <= w <= 9 implies (#[trigger] mask_has(
                open_mask(cells, p, i),
                w,
            ) <==> !(exists|q: int|
                0 <= q < i && sees_rel(q / 9, q % 9, p / 9, p % 9) && cells[q]->Fixed_0 == w)) by {
                if mask_has(open_mask(cells, p, i), w) {
                    if (exists|q: int|
                        0 <= q < i && sees_rel(q / 9, q % 9, p / 9, p % 9) && cells[q]->Fixed_0
                            == w) {
                        let q = choose|q: int|
                            0 <= q < i && sees_rel(q / 9, q % 9, p / 9, p % 9) && cells[q]->Fixed_0
                                == w;
                        assert(q < i - 1);
                        assert(false);
                    }
                } else {
                    let q = choose|q: int|
                        0 <= q < i - 1 && sees_rel(q / 9, q % 9, p / 9, p % 9) && cells[q]->Fixed_0
                            == w;
                    assert(0 <= q < i && sees_rel(q / 9, q % 9, p / 9, p % 9) && cells[q]->Fixed_0
                        == w);
                }
            }
        }
    }
}

/// Re-ingesting cells `i..` of a fully fixed, consistent board finishes it
/// and reproduces it exactly.
proof fn lemma_reingest_from(cells: Seq<SCell>, digits: Seq<char>, i: int)
    requires
        cells.len() == 81,
        cells_wf(cells),
        no_conflict(cells),
        all_fixed(cells),
        digits.len() == 81,
        forall|j: int| 0 <= j < 81 ==> #[trigger] digits[j] == cell_char(cells[j]),
        0 <= i < 81,
    ensures
        spec_apply_from(reingest_state(cells, i), digits, i) == (SResult::Finished, cells),
    decreases 81 - i,
{
    let state = reingest_state(cells, i);
    let v = cells[i]->Fixed_0;
    assert(cells[i] is Fixed && cells[i].wf());
    assert(1 <= v <= 9);
    assert(digits[i] == cell_char(cells[i]));
    assert(char_val(digits[i]) == v);
    let cur = state[grid_pos(i / 9, i % 9)];
    assert(grid_pos(i / 9, i % 9) == i);
    assert(cur == SCell::Possible(open_mask(cells, i, i)));
    lemma_open_mask(cells, i, i);
    assert forall|q: int|
        0 <= q < i && sees_rel(q / 9, q % 9, i / 9, i % 9) implies cells[q]->Fixed_0 != v by {
        assert(!cells[i].spec_has(cells[q]->Fixed_0));
    }
    assert(cur.spec_has(v));
    let ncells = spec_assigned(state, i / 9, i % 9, v);
    assert forall|p: int| 0 <= p < 81 implies ncells[p] == reingest_state(cells, i + 1)[p] by {
        if p == i {
        } else if p < i {
        } else {
            if sees_rel(i / 9, i % 9, p / 9, p % 9) {
                assert(state[p] == SCell::Possible(open_mask(cells, p, i)));
                assert(open_mask(cells, p, i + 1) == open_mask(cells, p, i) & !val_bit(v));
            } else {
                assert(open_mask(cells, p, i + 1) == open_mask(cells, p, i));
            }
        }
    }
    assert(ncells =~= reingest_state(cells, i + 1));
    if i == 80 {
        assert(all_fixed(reingest_state(cells, 81)));
        assert(reingest_state(cells, 81) =~= cells);
    } else {
        assert(reingest_state(cells, i + 1)[80] is Possible);
        assert(!all_fixed(reingest_state(cells, i + 1)));
        lemma_reingest_from(cells, digits, i + 1);
    }
}

/// The 81 cell characters of a board, in row-major order: what filtering a
/// rendering back to the puzzle alphabet leaves.
pub open spec fn board_chars(cells: Seq<SCell>) -> Seq<char> {
    Seq::new(81, |i: int| cell_char(cells[i]))
}

/// Filtering one rendered row keeps exactly its nine cell characters.
proof fn lemma_filter_row(cells: Seq<SCell>, r: int)
    requires
        cells.len() == 81,
        cells_wf(cells),
        all_fixed(cells),
        0 <= r < 9,
    ensures
        render_row(cells, r).filter(|c: char| allowed_char(c)) =~= Seq::new(
            9,
            |k: int| cell_char(cells[r * 9 + k]),
        ),
{
    reveal(Seq::filter);
    let p = |c: char| allowed_char(c);
    assert forall|k: int| 0 <= k < 9 implies #[trigger] p(cell_char(cells[r * 9 + k])) by {
        assert(cells[r * 9 + k].wf() && cells[r * 9 + k] is Fixed);
    }
    let e = Seq::<char>::empty();
    let row = render_row(cells, r);
    let s1 = e.push(row[0]);
    let s2 = s1.push(row[1]);
    let s3 = s2.push(row[2]);
    let s4 = s3.push('|');
    let s5 = s4.push(row[4]);
    let s6 = s5.push(row[5]);
    let s7 = s6.push(row[6]);
    let s8 = s7.push('|');
    let s9 = s8.push(row[8]);
    let s10 = s9.push(row[9]);
    let s11 = s10.push(row[10]);
    let s12 = s11.push('\n');
    assert(row =~= s12);
    assert(e.filter(p) =~= e);
    assert(s1.drop_last() =~= e);
    assert(s1.filter(p) =~= e.filter(p).push(row[0]));
    assert(s2.drop_last() =~= s1);
    assert(s2.filter(p) =~= s1.filter(p).push(row[1]));
    assert(s3.drop_last() =~= s2);
    assert(s3.filter(p) =~= s2.filter(p).push(row[2]));
    assert(s4.drop_last() =~= s3);
    assert(s4.filter(p) =~= s3.filter(p));
    assert(s5.drop_last() =~= s4);
    assert(s5.filter(p) =~= s4.filter(p).push(row[4]));
    assert(s6.drop_last() =~= s5);
    assert(s6.filter(p) =~= s5.filter(p).push(row[5]));
    assert(s7.drop_last() =~= s6);
    assert(s7.filter(p) =~= s6.filter(p).push(row[6]));
    assert(s8.drop_last() =~= s7);
    assert(s8.filter(p) =~= s7.filter(p));
    assert(s9.drop_last() =~= s8);
    assert(s9.filter(p) =~= s8.filter(p).push(row[8]));
    assert(s10.drop_last() =~= s9);
    assert(s10.filter(p) =~= s9.filter(p).push(row[9]));
    assert(s11.drop_last() =~= s10);
    assert(s11.filter(p) =~= s10.filter(p).push(row[10]));
    assert(s12.drop_last() =~= s11);
    assert(s12.filter(p) =~= s11.filter(p));
}

/// Filtering the separator line leaves nothing.
proof fn lemma_filter_sep()
    ensures
        sep_line().filter(|c: char| allowed_char(c)) =~= Seq::<char>::empty(),
{
    reveal(Seq::filter);
    let p = |c: char| allowed_char(c);
    let e = Seq::<char>::empty();
    let s = sep_line();
    let s1 = e.push('-');
    let s2 = s1.push('-');
    let s3 = s2.push('-');
    let s4 = s3.push('+');
    let s5 = s4.push('-');
    let s6 = s5.push('-');
    let s7 = s6.push('-');
    let s8 = s7.push('+');
    let s9 = s8.push('-');
    let s10 = s9.push('-');
    let s11 = s10.push('-');
    let s12 = s11.push('\n');
    assert(s =~= s12);
    assert(e.filter(p) =~= e);
    assert(s1.drop_last() =~= e);
    assert(s1.filter(p) =~= e.filter(p));
    assert(s2.drop_last() =~= s1);
    assert(s2.filter(p) =~= s1.filter(p));
    assert(s3.drop_last() =~= s2);
    assert(s3.filter(p) =~= s2.filter(p));
    assert(s4.drop_last() =~= s3);
    assert(s4.filter(p) =~= s3.filter(p));
    assert(s5.drop_last() =~= s4);
    assert(s5.filter(p) =~= s4.filter(p));
    assert(s6.drop_last() =~= s5);
    assert(s6.filter(p) =~= s5.filter(p));
    assert(s7.drop_last() =~= s6);
    assert(s7.filter(p) =~= s6.filter(p));
    assert(s8.drop_last() =~= s7);
    assert(s8.filter(p) =~= s7.filter(p));
    assert(s9.drop_last() =~= s8);
    assert(s9.filter(p) =~= s8.filter(p));
    assert(s10.drop_last() =~= s9);
    assert(s10.filter(p) =~= s9.filter(p));
    assert(s11.drop_last() =~= s10);
    assert(s11.filter(p) =~= s10.filter(p));
    assert(s12.drop_last() =~= s11);
    assert(s12.filter(p) =~= s11.filter(p));
}

/// Filtering the rendering of the first `r` rows keeps exactly their cell
/// characters.
proof fn lemma_filter_upto(cells: Seq<SCell>, r: int)
    requires
        cells.len() == 81,
        cells_wf(cells),
        all_fixed(cells),
        0 <= r <= 9,
    ensures
        render_upto(cells, r).filter(|c: char| allowed_char(c)) =~= board_chars(cells).take(r * 9),
    decreases r,
{
    reveal(Seq::filter);
    let p = |c: char| allowed_char(c);
    if r == 0 {
        assert(render_upto(cells, 0).filter(p) =~= Seq::<char>::empty());
    } else {
        lemma_filter_upto(cells, r - 1);
        lemma_filter_row(cells, r - 1);
        let prev = render_upto(cells, r - 1);
        let row = render_row(cells, r - 1);
        Seq::<char>::filter_distributes_over_add(prev, row, p);
        if r - 1 == 2 || r - 1 == 5 {
            lemma_filter_sep();
            Seq::<char>::filter_distributes_over_add(prev + row, sep_line(), p);
        } else {
            Seq::<char>::filter_distributes_over_add(prev + row, Seq::<char>::empty(), p);
            assert((prev + row + Seq::<char>::empty()) =~= (prev + row));
        }
        assert(render_upto(cells, r).filter(p) =~= board_chars(cells).take((r - 1) * 9) + Seq::new(
            9,
            |k: int| cell_char(cells[(r - 1) * 9 + k]),
        ));
    }
}

/// Filtering the full rendering of a board back to the puzzle alphabet
/// leaves exactly its 81 cell characters.
pub proof fn lemma_render_filter(cells: Seq<SCell>)
    requires
        cells.len() == 81,
        cells_wf(cells),
        all_fixed(cells),
    ensures
        render_spec(cells).filter(|c: char| allowed_char(c)) == board_chars(cells),
{
    lemma_filter_upto(cells, 9);
    assert(board_chars(cells).take(81) =~= board_chars(cells));
}

/// The round-trip law: rendering a fully fixed, consistent board, filtering
/// the text back to the puzzle alphabet and ingesting it into a fresh board
/// rebuilds exactly that board; the final assignment reports `Finished`.
pub proof fn lemma_round_trip(cells: Seq<SCell>)
    requires
        cells.len() == 81,
        cells_wf(cells),
        no_conflict(cells),
        all_fixed(cells),
    ensures
        ({
            let digits = render_spec(cells).filter(|c: char| allowed_char(c));
            &&& digits.len() == 81
            &&& spec_apply(fresh_cells(), digits) == (SResult::Finished, cells)
        }),
{
    lemma_render_filter(cells);
    lemma_render_reingest(cells, board_chars(cells));
}

/// Ingesting the 81 cell characters of a fully fixed, consistent board into
/// a fresh board rebuilds exactly that board.
pub proof fn lemma_render_reingest(cells: Seq<SCell>, digits: Seq<char>)
    requires
        cells.len() == 81,
        cells_wf(cells),
        no_conflict(cells),
        all_fixed(cells),
        digits.len() == 81,
        forall|j: int| 0 <= j < 81 ==> #[trigger] digits[j] == cell_char(cells[j]),
    ensures
        spec_apply(fresh_cells(), digits) == (SResult::Finished, cells),
{
    assert(reingest_state(cells, 0) =~= fresh_cells());
    lemma_reingest_from(cells, digits, 0);
}

/// The one-character rendering of a cell.
fn cell_str(c: SCell) -> (s: &'static str)
    requires
        c.wf(),
    ensures
        s@ == seq![cell_char(c)],
{
    proof {
        reveal_strlit("1");
        reveal_strlit("2");
        reveal_strlit("3");
        reveal_strlit("4");
        reveal_strlit("5");
        reveal_strlit("6");
        reveal_strlit("7");
        reveal_strlit("8");
        reveal_strlit("9");
        reveal_strlit(" ");
    }
    match c {
        SCell::Fixed(v) => {
            if v == 1 {
                "1"
            } else if v == 2 {
                "2"
            } else if v == 3 {
                "3"
            } else if v == 4 {
                "4"
            } else if v == 5 {
                "5"
            } else if v == 6 {
                "6"
            } else if v == 7 {
                "7"
            } else if v == 8 {
                "8"
            } else {
                "9"
            }
        },
        SCell::Possible(_) => " ",
    }
}

/// Render a board as text: digits for fixed cells, blanks for open ones,
/// `|` after columns 2 and 5 and a separator line after rows 2 and 5.
pub fn render(grid: &SGrid) -> (out: String)
    requires
        grid.wf(),
    ensures
        out@ == render_spec(grid@),
{
    proof {
        reveal_strlit("|");
        reveal_strlit("\n");
        reveal_strlit("---+---+---\n");
    }
    let mut out = String::new();
    let mut row: usize = 0;
    while row < 9
        invariant
            row <= 9,
            grid.wf(),
            out@ == render_upto(grid@, row as int),
        decreases 9 - row,
    {
        proof {
            reveal_strlit("|");
            reveal_strlit("\n");
            reveal_strlit("---+---+---\n");
        }
        let ghost before = out@;
        out.append(cell_str(grid.cell(row, 0)));
        out.append(cell_str(grid.cell(row, 1)));
        out.append(cell_str(grid.cell(row, 2)));
        out.append("|");
        out.append(cell_str(grid.cell(row, 3)));
        out.append(cell_str(grid.cell(row, 4)));
        out.append(cell_str(grid.cell(row, 5)));
        out.append("|");
        out.append(cell_str(grid.cell(row, 6)));
        out.append(cell_str(grid.cell(row, 7)));
        out.append(cell_str(grid.cell(row, 8)));
        out.append("\n");
        proof {
            assert(out@ =~= before + render_row(grid@, row as int));
        }
        if row == 2 || row == 5 {
            out.append("---+---+---\n");
        }
        proof {
            assert(out@ =~= render_upto(grid@, row as int + 1));
        }
        row = row + 1;
    }
    out
}

} // verus!
