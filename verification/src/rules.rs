//! Board geometry and the visibility rules of classic Sudoku.
//!
//! Houses 0..=8 are the rows, 9..=17 the columns and 18..=26 the 3x3 boxes.

use vstd::prelude::*;

verus! {

broadcast use vstd::seq_lib::lemma_seq_contains_after_push;

/// Both coordinates of a cell lie on the board.
pub open spec fn cell_in_range(r: int, c: int) -> bool {
    0 <= r < 9 && 0 <= c < 9
}

/// The visibility relation of classic Sudoku: two distinct cells see each
/// other when they share a row, a column or a 3x3 box.
pub open spec fn sees_rel(r1: int, c1: int, r2: int, c2: int) -> bool {
    &&& cell_in_range(r1, c1)
    &&& cell_in_range(r2, c2)
    &&& !(r1 == r2 && c1 == c2)
    &&& (r1 == r2 || c1 == c2 || (r1 / 3 == r2 / 3 && c1 / 3 == c2 / 3))
}

/// Visibility is symmetric.
pub proof fn lemma_sees_symmetric(r1: int, c1: int, r2: int, c2: int)
    ensures
        sees_rel(r1, c1, r2, c2) == sees_rel(r2, c2, r1, c1),
{
}

/// The row-major board position of the cell at (r, c).
pub open spec fn grid_pos(r: int, c: int) -> int {
    r * 9 + c
}

/// The board position of offset `k` within house `h`.
pub open spec fn house_pos(h: int, k: int) -> int {
    if h < 9 {
        h * 9 + k
    } else if h < 18 {
        k * 9 + (h - 9)
    } else {
        ((h - 18) / 3 * 3 + k / 3) * 9 + ((h - 18) % 3 * 3 + k % 3)
    }
}

/// Every house offset names a board position.
pub proof fn lemma_house_pos_range(h: int, k: int)
    requires
        0 <= h < 27,
        0 <= k < 9,
    ensures
        0 <= house_pos(h, k) < 81,
        cell_in_range(house_pos(h, k) / 9, house_pos(h, k) % 9),
{
}

/// Within one house, distinct offsets name distinct board positions.
pub proof fn lemma_house_pos_inj(h: int, k1: int, k2: int)
    requires
        0 <= h < 27,
        0 <= k1 < 9,
        0 <= k2 < 9,
        house_pos(h, k1) == house_pos(h, k2),
    ensures
        k1 == k2,
{
}

/// The overlap table: the houses whose cell sets share cells with house `h`.
/// A band of rows overlaps the three boxes crossing it, a stack of columns
/// likewise, and a box overlaps its three rows and three columns.
pub open spec fn overlaps_spec(h: int) -> Seq<usize> {
    if h < 9 {
        let b = (h / 3) * 3;
        seq![(18 + b) as usize, (19 + b) as usize, (20 + b) as usize]
    } else if h < 18 {
        let b = (h - 9) / 3;
        seq![(18 + b) as usize, (21 + b) as usize, (24 + b) as usize]
    } else {
        let b = h - 18;
        let r = (b / 3) * 3;
        let c = (b % 3) * 3;
        seq![
            r as usize,
            (r + 1) as usize,
            (r + 2) as usize,
            (9 + c) as usize,
            (10 + c) as usize,
            (11 + c) as usize,
        ]
    }
}

/// The overlap relation is symmetric: a house lists exactly the houses that
/// list it.
#[verifier::rlimit(100)]
pub proof fn lemma_overlaps_symmetric(h1: int, h2: int)
    requires
        0 <= h1 < 27,
        0 <= h2 < 27,
    ensures
        overlaps_spec(h1).contains((h2 as usize)) == overlaps_spec(h2).contains((h1 as usize)),
{
    if overlaps_spec(h1).contains((h2 as usize)) {
        let x = choose|x: int|
            0 <= x < overlaps_spec(h1).len() && overlaps_spec(h1)[x] == (h2 as usize);
        assert(overlaps_spec(h2).contains((h1 as usize))) by {
            if h1 < 9 {
                assert(overlaps_spec(h2)[h1 % 3] == (h1 as usize));
            } else if h1 < 18 {
                assert(overlaps_spec(h2)[3 + (h1 - 9) % 3] == (h1 as usize));
            } else {
                if h2 < 9 {
                    assert(overlaps_spec(h2)[(h1 - 18) % 3] == (h1 as usize));
                } else {
                    assert(overlaps_spec(h2)[(h1 - 18) / 3] == (h1 as usize));
                }
            }
        }
    }
    if overlaps_spec(h2).contains((h1 as usize)) {
        let x = choose|x: int|
            0 <= x < overlaps_spec(h2).len() && overlaps_spec(h2)[x] == (h1 as usize);
        assert(overlaps_spec(h1).contains((h2 as usize))) by {
            if h2 < 9 {
                assert(overlaps_spec(h1)[h2 % 3] == (h2 as usize));
            } else if h2 < 18 {
                assert(overlaps_spec(h1)[3 + (h2 - 9) % 3] == (h2 as usize));
            } else {
                if h1 < 9 {
                    assert(overlaps_spec(h1)[(h2 - 18) % 3] == (h2 as usize));
                } else {
                    assert(overlaps_spec(h1)[(h2 - 18) / 3] == (h2 as usize));
                }
            }
        }
    }
}

/// Every house of the overlap table shares at least three cells with the
/// house that lists it.
#[verifier::rlimit(100)]
pub proof fn lemma_overlaps_share_cells(h: int, x: int)
    requires
        0 <= h < 27,
        0 <= x < overlaps_spec(h).len(),
    ensures
        ({
            let oh = overlaps_spec(h)[x] as int;
            exists|k1: int, k2: int, k3: int, j1: int, j2: int, j3: int|
                0 <= k1 < k2 < k3 < 9 && 0 <= j1 < 9 && 0 <= j2 < 9 && 0 <= j3 < 9 && house_pos(
                    h,
                    k1,
                ) == house_pos(oh, j1) && house_pos(h, k2) == house_pos(oh, j2) && house_pos(h, k3)
                    == house_pos(oh, j3) && house_pos(oh, j1) != house_pos(oh, j2) && house_pos(
                    oh,
                    j2,
                ) != house_pos(oh, j3) && house_pos(oh, j1) != house_pos(oh, j3)
        }),
{
    let oh = overlaps_spec(h)[x] as int;
    if h < 9 {
        // A row meets each box of its band in three columns.
        let c0 = x * 3;
        let j0 = (h % 3) * 3;
        assert(house_pos(h, c0) == house_pos(oh, j0) && house_pos(h, c0 + 1) == house_pos(
            oh,
            j0 + 1,
        ) && house_pos(h, c0 + 2) == house_pos(oh, j0 + 2));
    } else if h < 18 {
        // A column meets each box of its stack in three rows.
        let col = h - 9;
        let j0 = col % 3;
        let k0 = x * 3;
        assert(house_pos(h, k0) == house_pos(oh, j0) && house_pos(h, k0 + 1) == house_pos(
            oh,
            j0 + 3,
        ) && house_pos(h, k0 + 2) == house_pos(oh, j0 + 6));
    } else if x < 3 {
        // A box meets each of its three rows in three cells.
        let b = h - 18;
        let k0 = x * 3;
        let j0 = (b % 3) * 3;
        assert(house_pos(h, k0) == house_pos(oh, j0) && house_pos(h, k0 + 1) == house_pos(
            oh,
            j0 + 1,
        ) && house_pos(h, k0 + 2) == house_pos(oh, j0 + 2));
    } else {
        // A box meets each of its three columns in three cells.
        let b = h - 18;
        let k0 = x - 3;
        let j0 = (b / 3) * 3;
        assert(house_pos(h, k0) == house_pos(oh, j0) && house_pos(h, k0 + 3) == house_pos(
            oh,
            j0 + 1,
        ) && house_pos(h, k0 + 6) == house_pos(oh, j0 + 2));
    }
}

/// A correct visibility list for the cell at (r, c): it holds exactly the
/// cells that (r, c) sees, every entry is on the board, and the entries come
/// in strictly ascending row-major order (so none repeats).
pub open spec fn see_list_ok(l: Seq<(usize, usize)>, r: int, c: int) -> bool {
    &&& forall|p: (usize, usize)| #[trigger] l.contains(p) <==> sees_rel(r, c, p.0 as int, p.1 as int)
    &&& forall|i: int| 0 <= i < l.len() ==> (#[trigger] l[i]).0 < 9 && l[i].1 < 9
    &&& forall|i: int, j: int|
        0 <= i < j < l.len() ==> grid_pos((#[trigger] l[i]).0 as int, l[i].1 as int) < grid_pos(
            (#[trigger] l[j]).0 as int,
            l[j].1 as int,
        )
}

/// A pluggable visibility rule: which cells constrain each other, and which
/// houses overlap.  `Normal` implements the classic rules; the solver only
/// relies on this contract.
pub trait Ruleset: Sized {
    /// Whether the ruleset is fully built and usable.
    spec fn valid(&self) -> bool;

    /// The visibility relation this ruleset implements.
    spec fn spec_sees(&self, r1: int, c1: int, r2: int, c2: int) -> bool;

    /// The houses whose cell sets overlap a given house.
    spec fn spec_overlaps(&self, house: int) -> Seq<usize>;

    /// The cells that the cell at (row, col) sees, each exactly once, in
    /// strictly ascending row-major order.
    fn sees(&self, row: usize, col: usize) -> (v: Vec<(usize, usize)>)
        requires
            self.valid(),
            row < 9,
            col < 9,
        ensures
            forall|p: (usize, usize)| #[trigger]
                v@.contains(p) <==> self.spec_sees(row as int, col as int, p.0 as int, p.1 as int),
            forall|i: int| 0 <= i < v@.len() ==> (#[trigger] v@[i]).0 < 9 && v@[i].1 < 9,
            forall|i: int, j: int|
                0 <= i < j < v@.len() ==> grid_pos((#[trigger] v@[i]).0 as int, v@[i].1 as int)
                    < grid_pos((#[trigger] v@[j]).0 as int, v@[j].1 as int),
            v@.no_duplicates(),
    ;

    /// The ids of the houses whose cell sets overlap the given house.
    fn overlapping_houses(&self, house: usize) -> (v: Vec<usize>)
        requires
            self.valid(),
            house < 27,
        ensures
            v@ == self.spec_overlaps(house as int),
            forall|i: int| 0 <= i < v@.len() ==> #[trigger] v@[i] < 27,
    ;
}

/// The classic Sudoku rules: cells see their row, column and box.  The
/// visibility lists are computed once at construction and never change.
pub struct Normal {
    sees: Vec<Vec<(usize, usize)>>,
}

/// Whether the cells at (row, col) and (r2, c2) see each other.
fn sees_cell(row: usize, col: usize, r2: usize, c2: usize) -> (b: bool)
    requires
        row < 9,
        col < 9,
        r2 < 9,
        c2 < 9,
    ensures
        b == sees_rel(row as int, col as int, r2 as int, c2 as int),
{
    if row == r2 && col == c2 {
        false
    } else {
        row == r2 || col == c2 || (row / 3 == r2 / 3 && col / 3 == c2 / 3)
    }
}

impl Normal {
    /// Build the visibility list of every cell, in row-major order.
    pub fn new() -> (r: Normal)
        ensures
            r.valid(),
    {
        let mut sees: Vec<Vec<(usize, usize)>> = Vec::new();
        let mut idx: usize = 0;
        while idx < 81
            invariant
                idx <= 81,
                sees@.len() == idx,
                forall|i: int| 0 <= i < idx ==> see_list_ok((#[trigger] sees@[i])@, i / 9, i % 9),
            decreases 81 - idx,
        {
            let row = idx / 9;
            let col = idx % 9;
            let mut seen: Vec<(usize, usize)> = Vec::new();
            let mut q: usize = 0;
            while q < 81
                invariant
                    q <= 81,
                    row == idx / 9,
                    col == idx % 9,
                    idx < 81,
                    forall|p: (usize, usize)| #[trigger]
                        seen@.contains(p) <==> (sees_rel(
                            row as int,
                            col as int,
                            p.0 as int,
                            p.1 as int,
                        ) && p.0 * 9 + p.1 < q),
                    forall|i: int|
                        0 <= i < seen@.len() ==> (#[trigger] seen@[i]).0 < 9 && seen@[i].1 < 9,
                    forall|i: int|
                        0 <= i < seen@.len() ==> grid_pos(
                            (#[trigger] seen@[i]).0 as int,
                            seen@[i].1 as int,
                        ) < q,
                    forall|i: int, j: int|
                        0 <= i < j < seen@.len() ==> grid_pos(
                            (#[trigger] seen@[i]).0 as int,
                            seen@[i].1 as int,
                        ) < grid_pos((#[trigger] seen@[j]).0 as int, seen@[j].1 as int),
                decreases 81 - q,
            {
                let r2 = q / 9;
                let c2 = q % 9;
                if sees_cell(row, col, r2, c2) {
                    seen.push((r2, c2));
                }
                q = q + 1;
            }
            sees.push(seen);
            idx = idx + 1;
        }
        Normal { sees }
    }
}

impl Ruleset for Normal {
    closed spec fn valid(&self) -> bool {
        &&& self.sees@.len() == 81
        &&& forall|i: int| 0 <= i < 81 ==> see_list_ok((#[trigger] self.sees@[i])@, i / 9, i % 9)
    }

    open spec fn spec_sees(&self, r1: int, c1: int, r2: int, c2: int) -> bool {
        sees_rel(r1, c1, r2, c2)
    }

    open spec fn spec_overlaps(&self, house: int) -> Seq<usize> {
        overlaps_spec(house)
    }

    fn sees(&self, row: usize, col: usize) -> (v: Vec<(usize, usize)>) {
        let idx = row * 9 + col;
        proof {
            assert(idx as int / 9 == row as int && idx as int % 9 == col as int);
        }
        let v = vstd::slice::slice_to_vec(self.sees[idx].as_slice());
        proof {
            assert forall|i: int, j: int|
                0 <= i < v@.len() && 0 <= j < v@.len() && i != j implies v@[i] != v@[j] by {
                if i < j {
                    assert(grid_pos(v@[i].0 as int, v@[i].1 as int) < grid_pos(
                        v@[j].0 as int,
                        v@[j].1 as int,
                    ));
                } else {
                    assert(grid_pos(v@[j].0 as int, v@[j].1 as int) < grid_pos(
                        v@[i].0 as int,
                        v@[i].1 as int,
                    ));
                }
            }
        }
        v
    }

    fn overlapping_houses(&self, house: usize) -> (v: Vec<usize>) {
        let mut v: Vec<usize> = Vec::new();
        if house < 9 {
            // A band of rows overlaps the three boxes crossing those rows.
            let b = (house / 3) * 3;
            v.push(18 + b);
            v.push(19 + b);
            v.push(20 + b);
        } else if house < 18 {
            // A stack of columns overlaps the three boxes crossing those columns.
            let b = (house - 9) / 3;
            v.push(18 + b);
            v.push(21 + b);
            v.push(24 + b);
        } else {
            // A box overlaps the three rows and three columns crossing it.
            let b = house - 18;
            let r = (b / 3) * 3;
            let c = (b % 3) * 3;
            v.push(r);
            v.push(r + 1);
            v.push(r + 2);
            v.push(9 + c);
            v.push(10 + c);
            v.push(11 + c);
        }
        proof {
            assert(v@ =~= overlaps_spec(house as int));
        }
        v
    }
}

} // verus!
