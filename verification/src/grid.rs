//! The 81-cell board and its single mutation entry point.

use crate::cell::{
    cell_narrows, lemma_count_pos, lemma_count_submask_strict, lemma_full_mask,
    lemma_spec_removed, lemma_spec_removed_all, lemma_spec_removed_idem, lemma_submask_of_bits,
    mask_has, SCell, FULL_MASK,
};
use crate::rules::{
    cell_in_range, grid_pos, house_pos, lemma_sees_symmetric, overlaps_spec, sees_rel, Normal,
    Ruleset,
};
use crate::types::SResult;
use vstd::prelude::*;

verus! {

/// Every cell of the board is settled.
pub open spec fn all_fixed(cells: Seq<SCell>) -> bool {
    forall|i: int| 0 <= i < cells.len() ==> (#[trigger] cells[i]) is Fixed
}

/// The answer `done` gives for a board.
pub open spec fn done_result(cells: Seq<SCell>) -> SResult {
    if all_fixed(cells) {
        SResult::Finished
    } else {
        SResult::Continue
    }
}

/// Every cell of the board is well formed.
pub open spec fn cells_wf(cells: Seq<SCell>) -> bool {
    forall|i: int| 0 <= i < cells.len() ==> (#[trigger] cells[i]).wf()
}

/// No two cells that see each other are both fixed, or fixable, to the same
/// value: whenever a cell is fixed, the value has been struck everywhere the
/// cell sees.
pub open spec fn no_conflict(cells: Seq<SCell>) -> bool {
    forall|r1: int, c1: int, r2: int, c2: int|
        #[trigger] sees_rel(r1, c1, r2, c2) && cells[grid_pos(r1, c1)] is Fixed
            ==> !cells[grid_pos(r2, c2)].spec_has(cells[grid_pos(r1, c1)]->Fixed_0)
}

/// Monotonic narrowing between two boards: no cell ever regains a candidate.
pub open spec fn grid_narrows(before: Seq<SCell>, after: Seq<SCell>) -> bool {
    &&& after.len() == before.len()
    &&& forall|i: int| 0 <= i < before.len() ==> cell_narrows(before[i], #[trigger] after[i])
}

/// Narrowing is transitive: over any run of mutations, a cell only ever
/// loses candidates.
pub proof fn lemma_grid_narrows_trans(a: Seq<SCell>, b: Seq<SCell>, c: Seq<SCell>)
    requires
        grid_narrows(a, b),
        grid_narrows(b, c),
    ensures
        grid_narrows(a, c),
{
    assert forall|i: int| 0 <= i < a.len() implies cell_narrows(a[i], #[trigger] c[i]) by {
        assert(cell_narrows(a[i], b[i]));
        assert(cell_narrows(b[i], c[i]));
    }
}

/// The total number of candidates still on the board from position `i` on:
/// the solver's progress measure.
pub open spec fn grid_measure_from(cells: Seq<SCell>, i: int) -> int
    decreases 81 - i,
{
    if i < 0 || i >= 81 {
        0
    } else {
        cells[i].count() + grid_measure_from(cells, i + 1)
    }
}

/// The total number of candidates still on the board.  Every acting step of a
/// technique strictly lowers it, which bounds a solve run.
pub open spec fn grid_measure(cells: Seq<SCell>) -> int {
    grid_measure_from(cells, 0)
}

/// The measure is a sum of candidate counts, so it is never negative.
pub proof fn lemma_measure_nonneg(cells: Seq<SCell>, i: int)
    ensures
        grid_measure_from(cells, i) >= 0,
    decreases
            if i < 81 {
                81 - i
            } else {
                0
            },
{
    if 0 <= i < 81 {
        lemma_measure_nonneg(cells, i + 1);
    }
}

/// Replacing one cell moves the measure by exactly the difference in counts.
proof fn lemma_measure_update_from(cells: Seq<SCell>, p: int, nc: SCell, i: int)
    requires
        cells.len() == 81,
        0 <= p < 81,
        0 <= i <= 81,
    ensures
        grid_measure_from(cells.update(p, nc), i) == if i <= p {
            grid_measure_from(cells, i) - cells[p].count() + nc.count()
        } else {
            grid_measure_from(cells, i)
        },
    decreases 81 - i,
{
    if i < 81 {
        lemma_measure_update_from(cells, p, nc, i + 1);
    }
}

/// A pointwise bound on counts bounds the measure.
proof fn lemma_measure_pointwise(a: Seq<SCell>, b: Seq<SCell>, i: int)
    requires
        a.len() == 81,
        b.len() == 81,
        0 <= i <= 81,
        forall|j: int| 0 <= j < 81 ==> (#[trigger] b[j]).count() <= a[j].count(),
    ensures
        grid_measure_from(b, i) <= grid_measure_from(a, i),
    decreases 81 - i,
{
    if i < 81 {
        lemma_measure_pointwise(a, b, i + 1);
    }
}

/// One strictly smaller cell makes the whole measure strictly smaller.
proof fn lemma_measure_pointwise_strict(a: Seq<SCell>, b: Seq<SCell>, w: int, i: int)
    requires
        a.len() == 81,
        b.len() == 81,
        0 <= i <= 81,
        0 <= w < 81,
        forall|j: int| 0 <= j < 81 ==> (#[trigger] b[j]).count() <= a[j].count(),
        b[w].count() < a[w].count(),
    ensures
        i <= w ==> grid_measure_from(b, i) < grid_measure_from(a, i),
        grid_measure_from(b, i) <= grid_measure_from(a, i),
    decreases 81 - i,
{
    if i < 81 {
        lemma_measure_pointwise_strict(a, b, w, i + 1);
    }
}

/// The board after `val` is assigned at (row, col): that cell is fixed and
/// the value is struck from every cell it sees.
pub open spec fn spec_assigned(cells: Seq<SCell>, row: int, col: int, val: u8) -> Seq<SCell> {
    Seq::new(
        81,
        |i: int|
            if i == grid_pos(row, col) {
                SCell::Fixed(val)
            } else if sees_rel(row, col, i / 9, i % 9) {
                cells[i].spec_removed(val)
            } else {
                cells[i]
            },
    )
}

/// The exact meaning of `set_cell`: the result it reports and the board it
/// leaves behind.
pub open spec fn spec_set_cell(cells: Seq<SCell>, row: int, col: int, val: u8) -> (SResult, Seq<
    SCell,
>) {
    let cur = cells[grid_pos(row, col)];
    if cur is Fixed {
        if cur->Fixed_0 == val {
            (done_result(cells), cells)
        } else {
            (SResult::Conflict(row as usize, col as usize), cells)
        }
    } else if !cur.spec_has(val) {
        (SResult::Conflict(row as usize, col as usize), cells)
    } else {
        let ncells = spec_assigned(cells, row, col, val);
        (done_result(ncells), ncells)
    }
}

/// Assigning a viable value to an open cell of a consistent board keeps the
/// board well formed and consistent, and only narrows it.
proof fn lemma_assigned_ok(cells: Seq<SCell>, row: int, col: int, val: u8)
    requires
        cells.len() == 81,
        cells_wf(cells),
        no_conflict(cells),
        cell_in_range(row, col),
        1 <= val <= 9,
        cells[grid_pos(row, col)] is Possible,
        cells[grid_pos(row, col)].spec_has(val),
    ensures
        cells_wf(spec_assigned(cells, row, col, val)),
        no_conflict(spec_assigned(cells, row, col, val)),
        grid_narrows(cells, spec_assigned(cells, row, col, val)),
        grid_measure(spec_assigned(cells, row, col, val)) < grid_measure(cells),
{
    let ncells = spec_assigned(cells, row, col, val);
    let p0 = grid_pos(row, col);
    assert forall|i: int| 0 <= i < ncells.len() implies (#[trigger] ncells[i]).wf() by {
        lemma_spec_removed(cells[i], val);
    }
    assert forall|j: int| 0 <= j < 81 implies (#[trigger] ncells[j]).count() <= cells[j].count() by {
        lemma_spec_removed(cells[j], val);
    }
    match cells[p0] {
        SCell::Possible(m) => {
            lemma_count_pos(m, 1, val);
        },
        SCell::Fixed(_) => {},
    }
    lemma_measure_pointwise_strict(cells, ncells, p0, 0);
    assert forall|i: int| 0 <= i < cells.len() implies cell_narrows(cells[i], #[trigger] ncells[i]) by {
        lemma_spec_removed(cells[i], val);
    }
    assert forall|r1: int, c1: int, r2: int, c2: int| #[trigger]
        sees_rel(r1, c1, r2, c2) && ncells[grid_pos(r1, c1)] is Fixed implies !ncells[grid_pos(
        r2,
        c2,
    )].spec_has(ncells[grid_pos(r1, c1)]->Fixed_0) by {
        let p1 = grid_pos(r1, c1);
        let p2 = grid_pos(r2, c2);
        lemma_spec_removed(cells[p1], val);
        lemma_spec_removed(cells[p2], val);
        let f = ncells[p1]->Fixed_0;
        if p1 == p0 {
            // The freshly assigned cell: everything it sees lost `val`, and a
            // cell it sees that was already fixed cannot have held `val`.
            if cells[p2] is Fixed {
                lemma_sees_symmetric(r1, c1, r2, c2);
                assert(!cells[p1].spec_has(cells[p2]->Fixed_0));
            }
        } else {
            // A cell fixed before the assignment; its peers had `f` struck
            // already, and the newly fixed cell could still hold `val`, so
            // `val` differs from `f`.
            assert(cells[p1] is Fixed && cells[p1]->Fixed_0 == f);
            assert(1 <= f <= 9);
            assert(!cells[p2].spec_has(f));
        }
    }
}

/// Replacing one cell by a narrowing of itself (never a fresh fixing) keeps
/// the board well formed and consistent.
proof fn lemma_narrowed_update_ok(cells: Seq<SCell>, p: int, nc: SCell)
    requires
        cells.len() == 81,
        cells_wf(cells),
        no_conflict(cells),
        0 <= p < 81,
        nc.wf(),
        cell_narrows(cells[p], nc),
        nc is Fixed ==> nc == cells[p],
        nc.count() <= cells[p].count(),
    ensures
        cells_wf(cells.update(p, nc)),
        no_conflict(cells.update(p, nc)),
        grid_narrows(cells, cells.update(p, nc)),
        grid_measure(cells.update(p, nc)) <= grid_measure(cells),
        nc.count() < cells[p].count() ==> grid_measure(cells.update(p, nc)) < grid_measure(cells),
{
    let ncells = cells.update(p, nc);
    lemma_measure_update_from(cells, p, nc, 0);
    assert forall|r1: int, c1: int, r2: int, c2: int| #[trigger]
        sees_rel(r1, c1, r2, c2) && ncells[grid_pos(r1, c1)] is Fixed implies !ncells[grid_pos(
        r2,
        c2,
    )].spec_has(ncells[grid_pos(r1, c1)]->Fixed_0) by {
        let p1 = grid_pos(r1, c1);
        let p2 = grid_pos(r2, c2);
        let f = ncells[p1]->Fixed_0;
        assert(cells[p1] is Fixed && cells[p1]->Fixed_0 == f);
        assert(1 <= f <= 9);
        assert(!cells[p2].spec_has(f));
    }
}

/// The board: 81 cells in row-major order plus the visibility rules it was
/// created with.  All mutation funnels through `set_cell`, `alter_cell` and
/// `remove_from_cell`, which preserve well-formedness.
pub struct SGrid {
    cells: Vec<SCell>,
    rules: Normal,
}

impl View for SGrid {
    type V = Seq<SCell>;

    closed spec fn view(&self) -> Seq<SCell> {
        self.cells@
    }
}

impl SGrid {
    /// The ruleset is fully built.
    pub closed spec fn rules_valid(&self) -> bool {
        self.rules.valid()
    }

    /// Well-formedness: 81 well-formed cells, a usable ruleset, and the
    /// no-conflict invariant.
    pub open spec fn wf(&self) -> bool {
        &&& self@.len() == 81
        &&& self.rules_valid()
        &&& cells_wf(self@)
        &&& no_conflict(self@)
    }

    /// A fresh board: every cell open with all nine candidates.
    pub fn new(rules: Normal) -> (r: SGrid)
        requires
            rules.valid(),
        ensures
            r.wf(),
            forall|i: int| 0 <= i < 81 ==> #[trigger] r@[i] == SCell::Possible(FULL_MASK),
    {
        let mut cells: Vec<SCell> = Vec::new();
        let mut i: usize = 0;
        while i < 81
            invariant
                i <= 81,
                cells@.len() == i,
                forall|j: int| 0 <= j < i ==> #[trigger] cells@[j] == SCell::Possible(FULL_MASK),
            decreases 81 - i,
        {
            cells.push(SCell::default());
            i = i + 1;
        }
        proof {
            lemma_full_mask(1);
            assert(cells_wf(cells@));
            assert forall|r1: int, c1: int, r2: int, c2: int| #[trigger]
                sees_rel(r1, c1, r2, c2) && cells@[grid_pos(r1, c1)] is Fixed implies !cells@[
            grid_pos(r2, c2)].spec_has(cells@[grid_pos(r1, c1)]->Fixed_0) by {
                assert(cells@[grid_pos(r1, c1)] == SCell::Possible(FULL_MASK));
            }
        }
        SGrid { cells, rules }
    }

    /// Read the cell at (row, col).
    pub fn cell(&self, row: usize, col: usize) -> (r: SCell)
        requires
            self.wf(),
            row < 9,
            col < 9,
        ensures
            r == self@[grid_pos(row as int, col as int)],
    {
        self.cells[row * 9 + col]
    }

    /// `Finished` when every cell is fixed, else `Continue`.
    pub fn done(&self) -> (r: SResult)
        requires
            self.wf(),
        ensures
            r == done_result(self@),
    {
        let mut i: usize = 0;
        while i < 81
            invariant
                self.wf(),
                i <= 81,
                forall|j: int| 0 <= j < i ==> (#[trigger] self@[j]) is Fixed,
            decreases 81 - i,
        {
            match self.cells[i] {
                SCell::Fixed(_) => {},
                SCell::Possible(_) => {
                    return SResult::Continue;
                },
            }
            i = i + 1;
        }
        SResult::Finished
    }

    /// Assign `val` at (row, col): the one state-mutating entry point.
    ///
    /// Reports `Conflict` when the cell cannot hold `val`; otherwise fixes
    /// the cell and strikes `val` from every cell it sees, then reports
    /// whether the whole board is now settled.
    #[verifier::rlimit(100)]
    pub fn set_cell(&mut self, row: usize, col: usize, val: u8) -> (r: SResult)
        requires
            old(self).wf(),
            row < 9,
            col < 9,
            1 <= val <= 9,
        ensures
            final(self).wf(),
            final(self)@ == spec_set_cell(old(self)@, row as int, col as int, val).1,
            r == spec_set_cell(old(self)@, row as int, col as int, val).0,
            grid_narrows(old(self)@, final(self)@),
            grid_measure(final(self)@) <= grid_measure(old(self)@),
            final(self)@ != old(self)@ ==> grid_measure(final(self)@) < grid_measure(old(self)@),
    {
        let idx = row * 9 + col;
        let cur = self.cells[idx];
        match cur {
            SCell::Fixed(v) => {
                if v == val {
                    self.done()
                } else {
                    SResult::Conflict(row, col)
                }
            },
            SCell::Possible(_) => {
                if !cur.has(val) {
                    SResult::Conflict(row, col)
                } else {
                    self.cells[idx] = SCell::Fixed(val);
                    let seen = self.rules.sees(row, col);
                    let mut k: usize = 0;
                    while k < seen.len()
                        invariant
                            k <= seen@.len(),
                            row < 9,
                            col < 9,
                            1 <= val <= 9,
                            self.rules == old(self).rules,
                            old(self).wf(),
                            self@.len() == 81,
                            forall|p: (usize, usize)| #[trigger]
                                seen@.contains(p) <==> sees_rel(
                                    row as int,
                                    col as int,
                                    p.0 as int,
                                    p.1 as int,
                                ),
                            forall|i: int|
                                0 <= i < seen@.len() ==> (#[trigger] seen@[i]).0 < 9
                                    && seen@[i].1 < 9,
                            self@[grid_pos(row as int, col as int)] == SCell::Fixed(val),
                            forall|i: int|
                                0 <= i < 81 && i != grid_pos(row as int, col as int)
                                    ==> #[trigger] self@[i] == (if (exists|j: int|
                                    0 <= j < k && grid_pos(
                                        (#[trigger] seen@[j]).0 as int,
                                        seen@[j].1 as int,
                                    ) == i) {
                                    old(self)@[i].spec_removed(val)
                                } else {
                                    old(self)@[i]
                                }),
                        decreases seen@.len() - k,
                    {
                        let p = seen[k];
                        let pidx = p.0 * 9 + p.1;
                        proof {
                            assert(seen@.contains(seen@[k as int]));
                            assert(pidx as int != grid_pos(row as int, col as int));
                        }
                        let ghost prev = self@;
                        match self.cells[pidx] {
                            SCell::Fixed(_) => {},
                            _ => {
                                let mut t = self.cells[pidx];
                                let ok = t.remove(val);
                                self.cells[pidx] = t;
                                if !ok {
                                    return SResult::Insoluable(p.0, p.1);
                                }
                            },
                        }
                        proof {
                            lemma_spec_removed(old(self)@[pidx as int], val);
                            lemma_spec_removed_idem(old(self)@[pidx as int], val);
                            assert(self@[pidx as int] == old(self)@[pidx as int].spec_removed(
                                val,
                            ));
                            assert forall|i: int|
                                0 <= i < 81 && i != grid_pos(row as int, col as int)
                                    implies #[trigger] self@[i] == (if (exists|j: int|
                                0 <= j < k + 1 && grid_pos(
                                    (#[trigger] seen@[j]).0 as int,
                                    seen@[j].1 as int,
                                ) == i) {
                                old(self)@[i].spec_removed(val)
                            } else {
                                old(self)@[i]
                            }) by {
                                if i == pidx as int {
                                    assert(grid_pos(
                                        (seen@[k as int]).0 as int,
                                        (seen@[k as int]).1 as int,
                                    ) == i);
                                } else {
                                    assert(self@[i] == prev[i]);
                                    if (exists|j: int|
                                        0 <= j < k + 1 && grid_pos(
                                            (#[trigger] seen@[j]).0 as int,
                                            seen@[j].1 as int,
                                        ) == i) {
                                        let j = choose|j: int|
                                            0 <= j < k + 1 && grid_pos(
                                                (#[trigger] seen@[j]).0 as int,
                                                seen@[j].1 as int,
                                            ) == i;
                                        assert(j < k);
                                    }
                                }
                            }
                        }
                        k = k + 1;
                    }
                    proof {
                        let gcells = old(self)@;
                        let ncells = spec_assigned(gcells, row as int, col as int, val);
                        assert forall|i: int| 0 <= i < 81 implies self@[i] == ncells[i] by {
                            let p0 = grid_pos(row as int, col as int);
                            if i != p0 {
                                if (exists|j: int|
                                    0 <= j < seen@.len() && grid_pos(
                                        (#[trigger] seen@[j]).0 as int,
                                        seen@[j].1 as int,
                                    ) == i) {
                                    let j = choose|j: int|
                                        0 <= j < seen@.len() && grid_pos(
                                            (#[trigger] seen@[j]).0 as int,
                                            seen@[j].1 as int,
                                        ) == i;
                                    assert(seen@.contains(seen@[j]));
                                    assert(sees_rel(row as int, col as int, i / 9, i % 9));
                                } else {
                                    if sees_rel(row as int, col as int, i / 9, i % 9) {
                                        let p = (((i / 9) as usize), ((i % 9) as usize));
                                        assert(seen@.contains(p));
                                        let j = choose|j: int|
                                            0 <= j < seen@.len() && seen@[j] == p;
                                        assert(grid_pos(
                                            (seen@[j]).0 as int,
                                            (seen@[j]).1 as int,
                                        ) == i);
                                        assert(false);
                                    }
                                }
                            }
                        }
                        assert(self@ =~= ncells);
                        lemma_assigned_ok(gcells, row as int, col as int, val);
                    }
                    self.done()
                }
            },
        }
    }

    /// Strike `val` from the cell at (row, col); no-op on a fixed cell.
    pub fn remove_from_cell(&mut self, row: usize, col: usize, val: u8) -> (r: bool)
        requires
            old(self).wf(),
            row < 9,
            col < 9,
            1 <= val <= 9,
        ensures
            final(self).wf(),
            r == !(old(self)@[grid_pos(row as int, col as int)] is Fixed),
            final(self)@ == old(self)@.update(
                grid_pos(row as int, col as int),
                old(self)@[grid_pos(row as int, col as int)].spec_removed(val),
            ),
            grid_narrows(old(self)@, final(self)@),
            grid_measure(final(self)@) <= grid_measure(old(self)@),
            final(self)@ != old(self)@ ==> grid_measure(final(self)@) < grid_measure(old(self)@),
    {
        let idx = row * 9 + col;
        let mut t = self.cells[idx];
        let r = t.remove(val);
        self.cells[idx] = t;
        proof {
            lemma_spec_removed(old(self)@[idx as int], val);
            lemma_narrowed_update_ok(old(self)@, idx as int, t);
            if t == old(self)@[idx as int] {
                assert(old(self)@ =~= old(self)@.update(idx as int, t));
            }
        }
        r
    }

    /// Strike every value of `other` from the cell at a house offset; no-op
    /// on a fixed cell.  Reports whether the cell actually changed.
    pub fn remove_all_house_cell(&mut self, house: usize, cellno: usize, other: SCell) -> (r: bool)
        requires
            old(self).wf(),
            house < 27,
            cellno < 9,
            other.wf(),
        ensures
            final(self).wf(),
            final(self)@ == old(self)@.update(
                house_pos(house as int, cellno as int),
                old(self)@[house_pos(house as int, cellno as int)].spec_removed_all(other),
            ),
            r == (final(self)@[house_pos(house as int, cellno as int)] != old(self)@[house_pos(
                house as int,
                cellno as int,
            )]),
            !r ==> final(self)@ == old(self)@,
            grid_narrows(old(self)@, final(self)@),
            grid_measure(final(self)@) <= grid_measure(old(self)@),
            final(self)@ != old(self)@ ==> grid_measure(final(self)@) < grid_measure(old(self)@),
    {
        let rc = Self::house_cell_to_row_col(house, cellno);
        let idx = rc.0 * 9 + rc.1;
        let mut t = self.cells[idx];
        let r = t.remove_all(other);
        self.cells[idx] = t;
        proof {
            lemma_spec_removed_all(old(self)@[idx as int], other);
            lemma_narrowed_update_ok(old(self)@, idx as int, t);
            if t == old(self)@[idx as int] {
                assert(old(self)@ =~= old(self)@.update(idx as int, t));
            }
        }
        r
    }

    /// Replace the open cell at (row, col) by a reduction of itself, as a
    /// technique computes it; reports whether anything changed.
    pub fn alter_cell(&mut self, row: usize, col: usize, ncell: SCell) -> (r: bool)
        requires
            old(self).wf(),
            row < 9,
            col < 9,
            ncell.wf(),
            old(self)@[grid_pos(row as int, col as int)] is Possible,
            ncell is Possible,
            forall|w: u8|
                w <= 9 && #[trigger] ncell.spec_has(w) ==> old(self)@[grid_pos(
                    row as int,
                    col as int,
                )].spec_has(w),
        ensures
            final(self).wf(),
            r == (ncell != old(self)@[grid_pos(row as int, col as int)]),
            final(self)@ == old(self)@.update(grid_pos(row as int, col as int), ncell),
            !r ==> final(self)@ == old(self)@,
            grid_narrows(old(self)@, final(self)@),
            grid_measure(final(self)@) <= grid_measure(old(self)@),
            final(self)@ != old(self)@ ==> grid_measure(final(self)@) < grid_measure(old(self)@),
    {
        let idx = row * 9 + col;
        let cur = self.cells[idx];
        proof {
            let cm = cur->Possible_0;
            let nm = ncell->Possible_0;
            assert forall|b: u8| b <= 9 && mask_has(nm, b) implies mask_has(cm, b) by {
                assert(ncell.spec_has(b) == mask_has(nm, b));
                assert(cur.spec_has(b) == mask_has(cm, b));
            }
            lemma_submask_of_bits(cm, nm);
            if nm != cm {
                lemma_count_submask_strict(cm, nm);
            }
            lemma_narrowed_update_ok(old(self)@, idx as int, ncell);
        }
        if cur != ncell {
            self.cells[idx] = ncell;
            true
        } else {
            proof {
                assert(old(self)@ =~= old(self)@.update(idx as int, ncell));
            }
            false
        }
    }

    /// The 9 cells of row house `row`, in column order.
    pub fn row_house(&self, row: usize) -> (r: Vec<SCell>)
        requires
            self.wf(),
            row < 9,
        ensures
            r@.len() == 9,
            forall|k: int| 0 <= k < 9 ==> #[trigger] r@[k] == self@[house_pos(row as int, k)],
    {
        let mut ret: Vec<SCell> = Vec::new();
        let mut col: usize = 0;
        while col < 9
            invariant
                self.wf(),
                row < 9,
                col <= 9,
                ret@.len() == col,
                forall|k: int| 0 <= k < col ==> #[trigger] ret@[k] == self@[house_pos(row as int, k)],
            decreases 9 - col,
        {
            ret.push(self.cell(row, col));
            col = col + 1;
        }
        ret
    }

    /// The 9 cells of column house `col`, in row order.
    pub fn col_house(&self, col: usize) -> (r: Vec<SCell>)
        requires
            self.wf(),
            col < 9,
        ensures
            r@.len() == 9,
            forall|k: int| 0 <= k < 9 ==> #[trigger] r@[k] == self@[house_pos(9 + col as int, k)],
    {
        let mut ret: Vec<SCell> = Vec::new();
        let mut row: usize = 0;
        while row < 9
            invariant
                self.wf(),
                col < 9,
                row <= 9,
                ret@.len() == row,
                forall|k: int|
                    0 <= k < row ==> #[trigger] ret@[k] == self@[house_pos(9 + col as int, k)],
            decreases 9 - row,
        {
            ret.push(self.cell(row, col));
            row = row + 1;
        }
        ret
    }

    /// The 9 cells of box house `boxno`, in the fixed 3x3 block order.
    pub fn box_house(&self, boxno: usize) -> (r: Vec<SCell>)
        requires
            self.wf(),
            boxno < 9,
        ensures
            r@.len() == 9,
            forall|k: int| 0 <= k < 9 ==> #[trigger] r@[k] == self@[house_pos(18 + boxno as int, k)],
    {
        let mut ret: Vec<SCell> = Vec::new();
        let mut k: usize = 0;
        while k < 9
            invariant
                self.wf(),
                boxno < 9,
                k <= 9,
                ret@.len() == k,
                forall|j: int|
                    0 <= j < k ==> #[trigger] ret@[j] == self@[house_pos(18 + boxno as int, j)],
            decreases 9 - k,
        {
            let rc = Self::house_cell_to_row_col(18 + boxno, k);
            ret.push(self.cell(rc.0, rc.1));
            k = k + 1;
        }
        ret
    }

    /// The 9 cells of any house, in its canonical offset order.
    pub fn house(&self, house: usize) -> (r: Vec<SCell>)
        requires
            self.wf(),
            house < 27,
        ensures
            r@.len() == 9,
            forall|k: int| 0 <= k < 9 ==> #[trigger] r@[k] == self@[house_pos(house as int, k)],
    {
        if house < 9 {
            self.row_house(house)
        } else if house < 18 {
            self.col_house(house - 9)
        } else {
            self.box_house(house - 18)
        }
    }

    /// The (row, col) of offset `cellno` within house `house`: rows map
    /// directly, columns swap the axes, boxes follow the 3x3 block layout.
    pub fn house_cell_to_row_col(house: usize, cellno: usize) -> (r: (usize, usize))
        requires
            house < 27,
            cellno < 9,
        ensures
            r.0 < 9,
            r.1 < 9,
            grid_pos(r.0 as int, r.1 as int) == house_pos(house as int, cellno as int),
    {
        if house < 9 {
            (house, cellno)
        } else if house < 18 {
            (cellno, house - 9)
        } else {
            let b = house - 18;
            ((b / 3) * 3 + cellno / 3, (b % 3) * 3 + cellno % 3)
        }
    }

    /// Assign through house coordinates; same meaning as `set_cell`.
    #[verifier::rlimit(100)]
    pub fn set_house(&mut self, house: usize, cellno: usize, val: u8) -> (r: SResult)
        requires
            old(self).wf(),
            house < 27,
            cellno < 9,
            1 <= val <= 9,
        ensures
            final(self).wf(),
            final(self)@ == spec_set_cell(
                old(self)@,
                house_pos(house as int, cellno as int) / 9,
                house_pos(house as int, cellno as int) % 9,
                val,
            ).1,
            r == spec_set_cell(
                old(self)@,
                house_pos(house as int, cellno as int) / 9,
                house_pos(house as int, cellno as int) % 9,
                val,
            ).0,
            grid_narrows(old(self)@, final(self)@),
            grid_measure(final(self)@) <= grid_measure(old(self)@),
            final(self)@ != old(self)@ ==> grid_measure(final(self)@) < grid_measure(old(self)@),
    {
        let rc = Self::house_cell_to_row_col(house, cellno);
        self.set_cell(rc.0, rc.1, val)
    }

    /// The ids of the houses overlapping the given house: exactly the
    /// overlap table of the classic rules.
    pub fn overlapping_houses(&self, house: usize) -> (v: Vec<usize>)
        requires
            self.wf(),
            house < 27,
        ensures
            v@ == overlaps_spec(house as int),
            forall|i: int| 0 <= i < v@.len() ==> #[trigger] v@[i] < 27,
    {
        self.rules.overlapping_houses(house)
    }

    /// Read a cell through house coordinates.
    pub fn house_cell(&self, house: usize, cellno: usize) -> (r: SCell)
        requires
            self.wf(),
            house < 27,
            cellno < 9,
        ensures
            r == self@[house_pos(house as int, cellno as int)],
    {
        let rc = Self::house_cell_to_row_col(house, cellno);
        self.cell(rc.0, rc.1)
    }

    /// Replace the open cell at a house offset by a reduction of itself.
    pub fn alter_house(&mut self, house: usize, cellno: usize, ncell: SCell) -> (r: bool)
        requires
            old(self).wf(),
            house < 27,
            cellno < 9,
            ncell.wf(),
            old(self)@[house_pos(house as int, cellno as int)] is Possible,
            ncell is Possible,
            forall|w: u8|
                w <= 9 && #[trigger] ncell.spec_has(w) ==> old(self)@[house_pos(
                    house as int,
                    cellno as int,
                )].spec_has(w),
        ensures
            final(self).wf(),
            r == (ncell != old(self)@[house_pos(house as int, cellno as int)]),
            final(self)@ == old(self)@.update(house_pos(house as int, cellno as int), ncell),
            !r ==> final(self)@ == old(self)@,
            grid_narrows(old(self)@, final(self)@),
            grid_measure(final(self)@) <= grid_measure(old(self)@),
            final(self)@ != old(self)@ ==> grid_measure(final(self)@) < grid_measure(old(self)@),
    {
        let rc = Self::house_cell_to_row_col(house, cellno);
        self.alter_cell(rc.0, rc.1, ncell)
    }
}

/// The no-conflict law: in a well-formed board, two cells that see each
/// other are never both fixed to the same value.
pub proof fn lemma_no_conflict(g: &SGrid, r1: int, c1: int, r2: int, c2: int, v: u8)
    requires
        g.wf(),
        sees_rel(r1, c1, r2, c2),
        g@[grid_pos(r1, c1)] == SCell::Fixed(v),
    ensures
        g@[grid_pos(r2, c2)] != SCell::Fixed(v),
{
    assert(!g@[grid_pos(r2, c2)].spec_has(v));
}

} // verus!
