//! Deduction techniques and the solver that sequences them.
//!
//! Each technique scans the board in a fixed order, performs at most one
//! mutation and returns at once; a technique that finds nothing reports
//! `Stuck`.  The solver tries techniques in priority order and restarts from
//! the cheapest one after every action.

use crate::cell::{
    first_cand_from, lemma_count_none, lemma_count_single, lemma_count_two, lemma_first_cand,
    lemma_mask_set, lemma_spec_removed, mask_count_from, mask_has, SCell,
};
use crate::grid::{
    all_fixed, grid_measure, grid_narrows, lemma_measure_nonneg, spec_assigned, spec_set_cell,
    SGrid,
};
use crate::rules::{
    grid_pos, house_pos, lemma_house_pos_inj, lemma_house_pos_range, overlaps_spec,
};
use crate::types::SResult;
use vstd::prelude::*;

verus! {

/// What one technique step reports: it acted once, found nothing, saw a
/// finished board, or had its mutation rejected by the grid.
#[derive(Copy, Clone, PartialEq, Eq, Debug, Structural)]
pub enum SolveStepResult {
    Stuck,
    Acted,
    Finished,
    Failed(SResult),
}

/// A deduction technique: a name and one scanning step over the board.
pub trait Technique: Sized {
    /// The technique's name, as contracts see it.
    spec fn spec_name(&self) -> Seq<char>;

    fn name(&self) -> (r: &'static str)
        ensures
            r@ == self.spec_name(),
    ;

    fn step(&mut self, grid: &mut SGrid) -> (r: SolveStepResult)
        requires
            old(grid).wf(),
        ensures
            final(grid).wf(),
            grid_narrows(old(grid)@, final(grid)@),
            grid_measure(final(grid)@) <= grid_measure(old(grid)@),
            r is Acted ==> grid_measure(final(grid)@) < grid_measure(old(grid)@),
            r is Stuck ==> final(grid)@ == old(grid)@,
            r is Finished ==> all_fixed(final(grid)@),
    ;
}

/// Position `i` holds an open cell with exactly one candidate left.
pub open spec fn is_naked_single(cells: Seq<SCell>, i: int) -> bool {
    &&& 0 <= i < 81
    &&& cells[i] is Possible
    &&& cells[i].count() == 1
}

/// The first naked single at or past position `i`, in row-major order.
pub open spec fn find_naked_single(cells: Seq<SCell>, i: int) -> Option<int>
    decreases 81 - i,
{
    if i < 0 || i >= 81 {
        None
    } else if is_naked_single(cells, i) {
        Some(i)
    } else {
        find_naked_single(cells, i + 1)
    }
}

/// The value a naked single is fixed to: its sole remaining candidate.
pub open spec fn naked_single_value(c: SCell) -> u8 {
    first_cand_from(c.mask(), 1)->Some_0
}

proof fn lemma_find_naked_some(cells: Seq<SCell>, i: int, k: int)
    requires
        0 <= i <= k < 81,
        is_naked_single(cells, k),
        forall|p: int| i <= p < k ==> !is_naked_single(cells, p),
    ensures
        find_naked_single(cells, i) == Some(k),
    decreases k - i,
{
    if i < k {
        lemma_find_naked_some(cells, i + 1, k);
    }
}

proof fn lemma_find_naked_none(cells: Seq<SCell>, i: int)
    requires
        forall|p: int| i <= p < 81 ==> !is_naked_single(cells, p),
    ensures
        find_naked_single(cells, i) is None,
    decreases 81 - i,
{
    if 0 <= i < 81 {
        lemma_find_naked_none(cells, i + 1);
    }
}

/// The Naked Single technique: a cell with one remaining candidate is fixed
/// to that candidate.
#[derive(Copy, Clone, PartialEq, Eq, Debug, Structural)]
pub struct NakedSingle;

impl NakedSingle {
    /// Scan rows then columns; fix the first naked single found.
    pub fn scan(&self, grid: &mut SGrid) -> (r: SolveStepResult)
        requires
            old(grid).wf(),
        ensures
            final(grid).wf(),
            grid_narrows(old(grid)@, final(grid)@),
            grid_measure(final(grid)@) <= grid_measure(old(grid)@),
            !(r is Failed),
            !(r is Finished),
            match find_naked_single(old(grid)@, 0) {
                None => r is Stuck && final(grid)@ == old(grid)@,
                Some(i) => {
                    &&& r is Acted
                    &&& final(grid)@ == spec_assigned(
                        old(grid)@,
                        i / 9,
                        i % 9,
                        naked_single_value(old(grid)@[i]),
                    )
                    &&& grid_measure(final(grid)@) < grid_measure(old(grid)@)
                },
            },
    {
        let mut idx: usize = 0;
        while idx < 81
            invariant
                idx <= 81,
                grid.wf(),
                grid@ == old(grid)@,
                forall|p: int| 0 <= p < idx ==> !is_naked_single(old(grid)@, p),
            decreases 81 - idx,
        {
            let row = idx / 9;
            let col = idx % 9;
            let c = grid.cell(row, col);
            match c {
                SCell::Fixed(_) => {},
                SCell::Possible(_) => {
                    if c.possibilities() == 1 {
                        let mut vals = c.values();
                        match vals.next() {
                            Some(val) => {
                                proof {
                                    lemma_first_cand(c.mask(), 1, val);
                                    lemma_find_naked_some(old(grid)@, 0, idx as int);
                                }
                                match grid.set_cell(row, col, val) {
                                    SResult::Continue | SResult::Finished => {
                                        return SolveStepResult::Acted;
                                    },
                                    res => {
                                        return SolveStepResult::Failed(res);
                                    },
                                }
                            },
                            None => {
                                proof {
                                    lemma_count_none(c->Possible_0, 1);
                                }
                                return SolveStepResult::Stuck;
                            },
                        }
                    }
                },
            }
            idx = idx + 1;
        }
        proof {
            lemma_find_naked_none(old(grid)@, 0);
        }
        SolveStepResult::Stuck
    }
}

impl Technique for NakedSingle {
    open spec fn spec_name(&self) -> Seq<char> {
        "naked single"@
    }

    fn name(&self) -> (r: &'static str) {
        "naked single"
    }

    fn step(&mut self, grid: &mut SGrid) -> (r: SolveStepResult) {
        self.scan(grid)
    }
}

/// Offset `k` of house `h` holds an open cell that can still be `v`.
pub open spec fn hs_cand(cells: Seq<SCell>, h: int, v: u8, k: int) -> bool {
    &&& cells[house_pos(h, k)] is Possible
    &&& cells[house_pos(h, k)].spec_has(v)
}

/// Within house `h`, offset `k` is the only place value `v` can still go.
pub open spec fn hidden_single_at(cells: Seq<SCell>, h: int, v: u8, k: int) -> bool {
    &&& 0 <= k < 9
    &&& hs_cand(cells, h, v, k)
    &&& forall|j: int| 0 <= j < 9 && j != k ==> !hs_cand(cells, h, v, j)
}

/// House `h` has a hidden single for value `v`.
pub open spec fn house_has_hidden_single(cells: Seq<SCell>, h: int, v: u8) -> bool {
    exists|k: int| hidden_single_at(cells, h, v, k)
}

/// The offset of a hidden single is uniquely determined.
pub proof fn lemma_hidden_single_unique(cells: Seq<SCell>, h: int, v: u8, k1: int, k2: int)
    requires
        hidden_single_at(cells, h, v, k1),
        hidden_single_at(cells, h, v, k2),
    ensures
        k1 == k2,
{
}

/// The smallest value at or past `v` for which house `h` has a hidden single.
pub open spec fn find_hs_value(cells: Seq<SCell>, h: int, v: u8) -> Option<u8>
    decreases 10 - v,
{
    if v > 9 {
        None
    } else if house_has_hidden_single(cells, h, v) {
        Some(v)
    } else {
        find_hs_value(cells, h, (v + 1) as u8)
    }
}

/// The first house at or past `h` holding a hidden single, with its smallest
/// such value: the scan order of the Hidden Single technique.
pub open spec fn find_hidden_single(cells: Seq<SCell>, h: int) -> Option<(int, u8)>
    decreases 27 - h,
{
    if h < 0 || h >= 27 {
        None
    } else {
        match find_hs_value(cells, h, 1) {
            Some(v) => Some((h, v)),
            None => find_hidden_single(cells, h + 1),
        }
    }
}

proof fn lemma_find_hsv_some(cells: Seq<SCell>, h: int, v0: u8, v: u8)
    requires
        1 <= v0 <= v <= 9,
        house_has_hidden_single(cells, h, v),
        forall|w: u8| v0 <= w < v ==> !house_has_hidden_single(cells, h, w),
    ensures
        find_hs_value(cells, h, v0) == Some(v),
    decreases v - v0,
{
    if v0 < v {
        lemma_find_hsv_some(cells, h, (v0 + 1) as u8, v);
    }
}

proof fn lemma_find_hsv_none(cells: Seq<SCell>, h: int, v0: u8)
    requires
        forall|w: u8| v0 <= w <= 9 ==> !house_has_hidden_single(cells, h, w),
    ensures
        find_hs_value(cells, h, v0) is None,
    decreases 10 - v0,
{
    if v0 <= 9 {
        lemma_find_hsv_none(cells, h, (v0 + 1) as u8);
    }
}

proof fn lemma_find_hs_some(cells: Seq<SCell>, h0: int, h: int, v: u8)
    requires
        0 <= h0 <= h < 27,
        find_hs_value(cells, h, 1) == Some(v),
        forall|g: int| h0 <= g < h ==> find_hs_value(cells, g, 1) is None,
    ensures
        find_hidden_single(cells, h0) == Some((h, v)),
    decreases h - h0,
{
    if h0 < h {
        lemma_find_hs_some(cells, h0 + 1, h, v);
    }
}

proof fn lemma_find_hs_none(cells: Seq<SCell>, h0: int)
    requires
        forall|g: int, w: u8|
            h0 <= g < 27 && 1 <= w <= 9 ==> !house_has_hidden_single(cells, g, w),
    ensures
        find_hidden_single(cells, h0) is None,
    decreases 27 - h0,
{
    if 0 <= h0 < 27 {
        lemma_find_hsv_none(cells, h0, 1);
        lemma_find_hs_none(cells, h0 + 1);
    }
}

/// For each value, the mask of house offsets whose open cell can still hold
/// it.  Entry 0 is unused.
fn value_offsets(content: &Vec<SCell>) -> (found: Vec<u16>)
    requires
        content@.len() == 9,
    ensures
        found@.len() == 10,
        forall|v: u8, k: u8|
            1 <= v <= 9 && k <= 9 ==> (#[trigger] mask_has(found@[v as int], k) <==> (k < 9
                && content@[k as int] is Possible && content@[k as int].spec_has(v))),
        forall|v: int| 0 <= v < 10 ==> (#[trigger] found@[v]) & 0x01FF == found@[v],
{
    let mut found: Vec<u16> = Vec::new();
    let mut z: usize = 0;
    while z < 10
        invariant
            z <= 10,
            found@.len() == z,
            forall|j: int| 0 <= j < z ==> found@[j] == 0u16,
        decreases 10 - z,
    {
        found.push(0);
        z = z + 1;
    }
    proof {
        assert forall|v: u8, k: u8| 1 <= v <= 9 && k <= 9 implies !(#[trigger] mask_has(
            found@[v as int],
            k,
        )) by {
            assert(found@[v as int] == 0u16);
            assert(!mask_has(0u16, k)) by (bit_vector)
                requires
                    k <= 9,
            ;
        }
        assert(0u16 & 0x01FF == 0u16) by (bit_vector);
    }
    let mut n: usize = 0;
    while n < 9
        invariant
            n <= 9,
            content@.len() == 9,
            found@.len() == 10,
            forall|v: u8, k: u8|
                1 <= v <= 9 && k <= 9 ==> (#[trigger] mask_has(found@[v as int], k) <==> (k < n
                    && content@[k as int] is Possible && content@[k as int].spec_has(v))),
            forall|v: int| 0 <= v < 10 ==> (#[trigger] found@[v]) & 0x01FF == found@[v],
        decreases 9 - n,
    {
        let c = content[n];
        match c {
            SCell::Fixed(_) => {},
            SCell::Possible(_) => {
                let mut v: u8 = 1;
                while v <= 9
                    invariant
                        1 <= v <= 10,
                        n < 9,
                        content@.len() == 9,
                        found@.len() == 10,
                        c == content@[n as int],
                        c is Possible,
                        forall|vv: u8, k: u8|
                            1 <= vv <= 9 && k <= 9 ==> (#[trigger] mask_has(
                                found@[vv as int],
                                k,
                            ) <==> ((k < n || (k == n && vv < v && content@[n as int].spec_has(
                                vv,
                            ))) && content@[k as int] is Possible && content@[k as int].spec_has(
                                vv,
                            ))),
                        forall|vv: int|
                            0 <= vv < 10 ==> (#[trigger] found@[vv]) & 0x01FF == found@[vv],
                    decreases 10 - v,
                {
                    if c.has(v) {
                        let cur = found[v as usize];
                        proof {
                            crate::cell::lemma_mask_or_low(cur, n as u8);
                        }
                        found[v as usize] = cur | (1u16 << (n as u16));
                        proof {
                            assert forall|vv: u8, k: u8| 1 <= vv <= 9 && k <= 9 implies (
                            #[trigger] mask_has(found@[vv as int], k) <==> ((k < n || (k == n && vv
                                < v + 1 && content@[n as int].spec_has(vv))) && content@[k as int]
                                is Possible && content@[k as int].spec_has(vv))) by {
                                if vv == v {
                                    lemma_mask_set(cur, n as u8, k);
                                }
                            }
                        }
                    }
                    v = v + 1;
                }
            },
        }
        n = n + 1;
    }
    found
}

/// The smallest offset at or past `from` present in `m`.
fn offset_from(m: u16, from: u8) -> (r: Option<u8>)
    requires
        from <= 10,
    ensures
        match r {
            Some(k) => {
                &&& from <= k <= 9
                &&& mask_has(m, k)
                &&& forall|j: u8| from <= j < k ==> !mask_has(m, j)
            },
            None => forall|j: u8| from <= j <= 9 ==> !mask_has(m, j),
        },
{
    let mut k: u8 = from;
    while k <= 9
        invariant
            from <= k <= 10,
            forall|j: u8| from <= j < k ==> !mask_has(m, j),
        decreases 10 - k,
    {
        if (m & (1u16 << (k as u16))) != 0 {
            return Some(k);
        }
        k = k + 1;
    }
    None
}

/// How many offsets 0..=9 are present in `m`.
fn offset_count(m: u16) -> (n: usize)
    ensures
        n == mask_count_from(m, 0),
{
    let mut n: usize = 0;
    let mut k: u8 = 0;
    while k <= 9
        invariant
            k <= 10,
            n + mask_count_from(m, k) == mask_count_from(m, 0),
            n <= k,
        decreases 10 - k,
    {
        proof {
            crate::cell::lemma_count_bound(m, (k + 1) as u8);
        }
        if (m & (1u16 << (k as u16))) != 0 {
            n = n + 1;
        }
        k = k + 1;
    }
    n
}

/// The Hidden Single technique: within a house, a value that only one open
/// cell can still hold is fixed there.
#[derive(Copy, Clone, PartialEq, Eq, Debug, Structural)]
pub struct HiddenSingle;

impl HiddenSingle {
    /// Scan houses 0..27, then values 1..=9; fix the first hidden single.
    pub fn scan(&self, grid: &mut SGrid) -> (r: SolveStepResult)
        requires
            old(grid).wf(),
        ensures
            final(grid).wf(),
            grid_narrows(old(grid)@, final(grid)@),
            grid_measure(final(grid)@) <= grid_measure(old(grid)@),
            !(r is Failed),
            !(r is Finished),
            r is Stuck ==> final(grid)@ == old(grid)@ && forall|h: int, v: u8|
                0 <= h < 27 && 1 <= v <= 9 ==> !house_has_hidden_single(old(grid)@, h, v),
            match find_hidden_single(old(grid)@, 0) {
                None => r is Stuck,
                Some(hv) => {
                    &&& r is Acted
                    &&& grid_measure(final(grid)@) < grid_measure(old(grid)@)
                    &&& exists|k: int|
                        hidden_single_at(old(grid)@, hv.0, hv.1, k) && final(grid)@
                            == spec_assigned(
                            old(grid)@,
                            house_pos(hv.0, k) / 9,
                            house_pos(hv.0, k) % 9,
                            hv.1,
                        )
                },
            },
    {
        let mut house: usize = 0;
        while house < 27
            invariant
                house <= 27,
                grid.wf(),
                grid@ == old(grid)@,
                forall|h: int, v: u8|
                    0 <= h < house && 1 <= v <= 9 ==> !house_has_hidden_single(old(grid)@, h, v),
            decreases 27 - house,
        {
            let content = grid.house(house);
            let found = value_offsets(&content);
            let mut v: u8 = 1;
            while v <= 9
                invariant
                    1 <= v <= 10,
                    house < 27,
                    grid.wf(),
                    grid@ == old(grid)@,
                    content@.len() == 9,
                    forall|k: int| 0 <= k < 9 ==> #[trigger] content@[k] == grid@[house_pos(
                        house as int,
                        k,
                    )],
                    found@.len() == 10,
                    forall|vv: u8, k: u8|
                        1 <= vv <= 9 && k <= 9 ==> (#[trigger] mask_has(found@[vv as int], k) <==> (
                        k < 9 && content@[k as int] is Possible && content@[k as int].spec_has(
                            vv,
                        ))),
                    forall|h: int, w: u8|
                        0 <= h < house && 1 <= w <= 9 ==> !house_has_hidden_single(old(grid)@, h, w),
                    forall|w: u8|
                        1 <= w < v ==> !house_has_hidden_single(old(grid)@, house as int, w),
                decreases 10 - v,
            {
                let fmask = found[v as usize];
                if offset_count(fmask) == 1 {
                    match offset_from(fmask, 0) {
                        Some(k) => {
                            proof {
                                assert(k < 9);
                                assert forall|j: int| 0 <= j < 9 && j != k implies !hs_cand(
                                    old(grid)@,
                                    house as int,
                                    v,
                                    j,
                                ) by {
                                    if hs_cand(old(grid)@, house as int, v, j) {
                                        assert(mask_has(fmask, j as u8));
                                        if j < k {
                                            lemma_count_two(fmask, 0, j as u8, k);
                                        } else {
                                            lemma_count_two(fmask, 0, k, j as u8);
                                        }
                                    }
                                }
                                assert(hidden_single_at(old(grid)@, house as int, v, k as int));
                                lemma_find_hsv_some(old(grid)@, house as int, 1, v);
                                assert forall|g: int| 0 <= g < house implies find_hs_value(
                                    old(grid)@,
                                    g,
                                    1,
                                ) is None by {
                                    lemma_find_hsv_none(old(grid)@, g, 1);
                                }
                                lemma_find_hs_some(old(grid)@, 0, house as int, v);
                            }
                            match grid.set_house(house, k as usize, v) {
                                SResult::Continue | SResult::Finished => {
                                    proof {
                                        lemma_house_pos_range(house as int, k as int);
                                        let hp = house_pos(house as int, k as int);
                                        assert(find_hidden_single(old(grid)@, 0) == Some(
                                            (house as int, v),
                                        ));
                                        let hv = find_hidden_single(old(grid)@, 0)->Some_0;
                                        assert(hidden_single_at(old(grid)@, hv.0, hv.1, k as int)
                                            && grid@ == spec_assigned(
                                            old(grid)@,
                                            house_pos(hv.0, k as int) / 9,
                                            house_pos(hv.0, k as int) % 9,
                                            hv.1,
                                        ));
                                        assert(grid@[hp] == SCell::Fixed(v));
                                        assert(old(grid)@[hp] is Possible);
                                        assert(grid_measure(grid@) < grid_measure(old(grid)@));
                                    }
                                    return SolveStepResult::Acted;
                                },
                                res => {
                                    return SolveStepResult::Failed(res);
                                },
                            }
                        },
                        None => {
                            proof {
                                lemma_count_none(fmask, 0);
                            }
                        },
                    }
                } else {
                    proof {
                        if house_has_hidden_single(old(grid)@, house as int, v) {
                            let k = choose|k: int|
                                hidden_single_at(old(grid)@, house as int, v, k);
                            assert(mask_has(fmask, k as u8));
                            assert forall|j: u8| j <= 9 && j != k implies !mask_has(fmask, j) by {
                                if mask_has(fmask, j) {
                                    assert(hs_cand(old(grid)@, house as int, v, j as int));
                                }
                            }
                            lemma_count_single(fmask, 0, k as u8);
                        }
                    }
                }
                v = v + 1;
            }
            house = house + 1;
        }
        proof {
            lemma_find_hs_none(old(grid)@, 0);
        }
        SolveStepResult::Stuck
    }
}

impl Technique for HiddenSingle {
    open spec fn spec_name(&self) -> Seq<char> {
        "hidden single"@
    }

    fn name(&self) -> (r: &'static str) {
        "hidden single"
    }

    fn step(&mut self, grid: &mut SGrid) -> (r: SolveStepResult) {
        self.scan(grid)
    }
}

/// Offsets `a < b` of house `h` hold two open cells with the same two-value
/// candidate set.
pub open spec fn naked_pair_at(cells: Seq<SCell>, h: int, a: int, b: int) -> bool {
    &&& 0 <= a < b < 9
    &&& cells[house_pos(h, a)] is Possible
    &&& cells[house_pos(h, a)].count() == 2
    &&& cells[house_pos(h, b)] == cells[house_pos(h, a)]
}

/// The board after the pair's two values are struck from every other cell of
/// house `h`.
pub open spec fn spec_pair_reduced(cells: Seq<SCell>, h: int, a: int, b: int) -> Seq<SCell> {
    Seq::new(
        81,
        |i: int|
            if (exists|k: int| 0 <= k < 9 && k != a && k != b && house_pos(h, k) == i) {
                cells[i].spec_removed_all(cells[house_pos(h, a)])
            } else {
                cells[i]
            },
    )
}

/// A naked pair whose reduction would actually change the board: the
/// condition on which the scan acts.
pub open spec fn np_effective(cells: Seq<SCell>, h: int, a: int, b: int) -> bool {
    naked_pair_at(cells, h, a, b) && spec_pair_reduced(cells, h, a, b) != cells
}

/// The smallest partner offset at or past `b` making an effective naked pair
/// with offset `a` in house `h`.
pub open spec fn find_np_b(cells: Seq<SCell>, h: int, a: int, b: int) -> Option<int>
    decreases 9 - b,
{
    if b >= 9 {
        None
    } else if np_effective(cells, h, a, b) {
        Some(b)
    } else {
        find_np_b(cells, h, a, b + 1)
    }
}

/// Offset `a` of house `h` forms no effective pair with any later offset.
pub open spec fn np_none_at(cells: Seq<SCell>, h: int, a: int) -> bool {
    find_np_b(cells, h, a, a + 1) is None
}

/// The first effective naked pair of house `h` at or past offset `a`, in the
/// scan's (a, b) order.
pub open spec fn find_np_in_house(cells: Seq<SCell>, h: int, a: int) -> Option<(int, int)>
    decreases 8 - a,
{
    if a >= 8 {
        None
    } else {
        match find_np_b(cells, h, a, a + 1) {
            Some(b) => Some((a, b)),
            None => find_np_in_house(cells, h, a + 1),
        }
    }
}

/// The first effective naked pair at or past house `h`: the scan order of
/// the Naked Pair technique.
pub open spec fn find_naked_pair(cells: Seq<SCell>, h: int) -> Option<(int, int, int)>
    decreases 27 - h,
{
    if h < 0 || h >= 27 {
        None
    } else {
        match find_np_in_house(cells, h, 0) {
            Some(ab) => Some((h, ab.0, ab.1)),
            None => find_naked_pair(cells, h + 1),
        }
    }
}

proof fn lemma_find_npb_some(cells: Seq<SCell>, h: int, a: int, b0: int, b: int)
    requires
        b0 <= b < 9,
        np_effective(cells, h, a, b),
        forall|x: int| b0 <= x < b ==> !np_effective(cells, h, a, x),
    ensures
        find_np_b(cells, h, a, b0) == Some(b),
    decreases b - b0,
{
    if b0 < b {
        lemma_find_npb_some(cells, h, a, b0 + 1, b);
    }
}

proof fn lemma_find_npb_none(cells: Seq<SCell>, h: int, a: int, b0: int)
    requires
        forall|x: int| b0 <= x < 9 ==> !np_effective(cells, h, a, x),
    ensures
        find_np_b(cells, h, a, b0) is None,
    decreases 9 - b0,
{
    if b0 < 9 {
        lemma_find_npb_none(cells, h, a, b0 + 1);
    }
}

proof fn lemma_find_npa_some(cells: Seq<SCell>, h: int, a0: int, a: int, b: int)
    requires
        0 <= a0 <= a < 8,
        find_np_b(cells, h, a, a + 1) == Some(b),
        forall|x: int| a0 <= x < a ==> #[trigger] np_none_at(cells, h, x),
    ensures
        find_np_in_house(cells, h, a0) == Some((a, b)),
    decreases a - a0,
{
    if a0 < a {
        assert(np_none_at(cells, h, a0));
        lemma_find_npa_some(cells, h, a0 + 1, a, b);
    }
}

proof fn lemma_find_npa_none(cells: Seq<SCell>, h: int, a0: int)
    requires
        forall|x: int| a0 <= x < 8 ==> #[trigger] np_none_at(cells, h, x),
    ensures
        find_np_in_house(cells, h, a0) is None,
    decreases 8 - a0,
{
    if a0 < 8 {
        assert(np_none_at(cells, h, a0));
        lemma_find_npa_none(cells, h, a0 + 1);
    }
}

proof fn lemma_find_np_some(cells: Seq<SCell>, h0: int, h: int, a: int, b: int)
    requires
        0 <= h0 <= h < 27,
        find_np_in_house(cells, h, 0) == Some((a, b)),
        forall|g: int| h0 <= g < h ==> find_np_in_house(cells, g, 0) is None,
    ensures
        find_naked_pair(cells, h0) == Some((h, a, b)),
    decreases h - h0,
{
    if h0 < h {
        lemma_find_np_some(cells, h0 + 1, h, a, b);
    }
}

proof fn lemma_find_np_none(cells: Seq<SCell>, h0: int)
    requires
        forall|g: int| h0 <= g < 27 ==> find_np_in_house(cells, g, 0) is None,
    ensures
        find_naked_pair(cells, h0) is None,
    decreases 27 - h0,
{
    if 0 <= h0 < 27 {
        lemma_find_np_none(cells, h0 + 1);
    }
}

/// The Naked Pair technique: two cells of a house with the same two
/// candidates license removing both values from the rest of the house.
#[derive(Copy, Clone, PartialEq, Eq, Debug, Structural)]
pub struct NakedPair;

impl NakedPair {
    /// Scan houses 0..27 and offset pairs a < b; act on the first pair whose
    /// reduction changes the board.
    pub fn scan(&self, grid: &mut SGrid) -> (r: SolveStepResult)
        requires
            old(grid).wf(),
        ensures
            final(grid).wf(),
            grid_narrows(old(grid)@, final(grid)@),
            grid_measure(final(grid)@) <= grid_measure(old(grid)@),
            !(r is Failed),
            !(r is Finished),
            r is Stuck ==> final(grid)@ == old(grid)@ && (forall|h: int, a: int, b: int|
                0 <= h < 27 && #[trigger] naked_pair_at(old(grid)@, h, a, b) ==> spec_pair_reduced(
                    old(grid)@,
                    h,
                    a,
                    b,
                ) == old(grid)@),
            match find_naked_pair(old(grid)@, 0) {
                None => r is Stuck,
                Some(t) => {
                    &&& r is Acted
                    &&& grid_measure(final(grid)@) < grid_measure(old(grid)@)
                    &&& np_effective(old(grid)@, t.0, t.1, t.2)
                    &&& final(grid)@ == spec_pair_reduced(old(grid)@, t.0, t.1, t.2)
                },
            },
    {
        let mut house: usize = 0;
        while house < 27
            invariant
                house <= 27,
                grid.wf(),
                grid@ == old(grid)@,
                forall|h: int, a: int, b: int|
                    0 <= h < house && #[trigger] naked_pair_at(old(grid)@, h, a, b)
                        ==> spec_pair_reduced(old(grid)@, h, a, b) == old(grid)@,
            decreases 27 - house,
        {
            let content = grid.house(house);
            let mut a: usize = 0;
            while a < 8
                invariant
                    a <= 8,
                    house < 27,
                    grid.wf(),
                    grid@ == old(grid)@,
                    content@.len() == 9,
                    forall|k: int| 0 <= k < 9 ==> #[trigger] content@[k] == grid@[house_pos(
                        house as int,
                        k,
                    )],
                    forall|h: int, aa: int, b: int|
                        0 <= h < house && #[trigger] naked_pair_at(old(grid)@, h, aa, b)
                            ==> spec_pair_reduced(old(grid)@, h, aa, b) == old(grid)@,
                    forall|aa: int, b: int|
                        0 <= aa < a && #[trigger] naked_pair_at(old(grid)@, house as int, aa, b)
                            ==> spec_pair_reduced(old(grid)@, house as int, aa, b) == old(grid)@,
                decreases 8 - a,
            {
                if content[a].possibilities() == 2 {
                    let mut b: usize = a + 1;
                    while b < 9
                        invariant
                            a < b <= 9,
                            a < 8,
                            house < 27,
                            grid.wf(),
                            grid@ == old(grid)@,
                            content@.len() == 9,
                            forall|k: int| 0 <= k < 9 ==> #[trigger] content@[k] == grid@[house_pos(
                                house as int,
                                k,
                            )],
                            content@[a as int].count() == 2,
                            forall|h: int, aa: int, bb: int|
                                0 <= h < house && #[trigger] naked_pair_at(old(grid)@, h, aa, bb)
                                    ==> spec_pair_reduced(old(grid)@, h, aa, bb) == old(grid)@,
                            forall|aa: int, bb: int|
                                0 <= aa < a && #[trigger] naked_pair_at(
                                    old(grid)@,
                                    house as int,
                                    aa,
                                    bb,
                                ) ==> spec_pair_reduced(old(grid)@, house as int, aa, bb)
                                    == old(grid)@,
                            forall|bb: int|
                                a < bb < b && #[trigger] naked_pair_at(
                                    old(grid)@,
                                    house as int,
                                    a as int,
                                    bb,
                                ) ==> spec_pair_reduced(old(grid)@, house as int, a as int, bb)
                                    == old(grid)@,
                        decreases 9 - b,
                    {
                        let ca = content[a];
                        let cb = content[b];
                        if ca == cb {
                            // A naked pair: strike its two values from the
                            // rest of the house.
                            let ghost start = grid@;
                            proof {
                                lemma_house_pos_range(house as int, a as int);
                                lemma_house_pos_range(house as int, b as int);
                            }
                            let mut changed = false;
                            let mut j: usize = 0;
                            while j < 9
                                invariant
                                    j <= 9,
                                    a < b < 9,
                                    house < 27,
                                    grid.wf(),
                                    start == old(grid)@,
                                    ca == start[house_pos(house as int, a as int)],
                                    cb == start[house_pos(house as int, b as int)],
                                    ca == cb,
                                    ca.count() == 2,
                                    ca.wf(),
                                    grid_narrows(start, grid@),
                                    grid_measure(grid@) <= grid_measure(start),
                                    changed ==> grid_measure(grid@) < grid_measure(start),
                                    !changed ==> grid@ == start,
                                    grid@.len() == 81,
                                    forall|i: int|
                                        0 <= i < 81 ==> #[trigger] grid@[i] == (if (exists|k: int|
                                            0 <= k < j && k != a && k != b && house_pos(
                                                house as int,
                                                k,
                                            ) == i) {
                                            start[i].spec_removed_all(ca)
                                        } else {
                                            start[i]
                                        }),
                                decreases 9 - j,
                            {
                                if j != a && j != b {
                                    let ghost pre = grid@;
                                    let ghost pj = house_pos(house as int, j as int);
                                    proof {
                                        lemma_house_pos_range(house as int, j as int);
                                        assert forall|k: int|
                                            0 <= k < j && k != a && k != b implies house_pos(
                                            house as int,
                                            k,
                                        ) != pj by {
                                            if house_pos(house as int, k) == pj {
                                                lemma_house_pos_inj(house as int, k, j as int);
                                            }
                                        }
                                        assert(pre[pj] == start[pj]);
                                    }
                                    let ch = grid.remove_all_house_cell(house, j, ca);
                                    changed = changed || ch;
                                    proof {
                                        assert forall|i: int| 0 <= i < 81 implies #[trigger] grid@[i]
                                            == (if (exists|k: int|
                                            0 <= k < j + 1 && k != a && k != b && house_pos(
                                                house as int,
                                                k,
                                            ) == i) {
                                            start[i].spec_removed_all(ca)
                                        } else {
                                            start[i]
                                        }) by {
                                            if i == pj {
                                                assert(0 <= (j as int) < j + 1 && j != a && j != b
                                                    && house_pos(house as int, j as int) == i);
                                            } else {
                                                assert(grid@[i] == pre[i]);
                                                if (exists|k: int|
                                                    0 <= k < j + 1 && k != a && k != b && house_pos(
                                                        house as int,
                                                        k,
                                                    ) == i) {
                                                    let k = choose|k: int|
                                                        0 <= k < j + 1 && k != a && k != b
                                                            && house_pos(house as int, k) == i;
                                                    assert(k < j);
                                                }
                                            }
                                        }
                                    }
                                }
                                j = j + 1;
                            }
                            if changed {
                                proof {
                                    assert(grid@ =~= spec_pair_reduced(
                                        start,
                                        house as int,
                                        a as int,
                                        b as int,
                                    ));
                                    assert(naked_pair_at(start, house as int, a as int, b as int));
                                    assert(np_effective(start, house as int, a as int, b as int));
                                    lemma_find_npb_some(
                                        start,
                                        house as int,
                                        a as int,
                                        a as int + 1,
                                        b as int,
                                    );
                                    assert forall|x: int| 0 <= x < a implies #[trigger] np_none_at(
                                        start,
                                        house as int,
                                        x,
                                    ) by {
                                        lemma_find_npb_none(start, house as int, x, x + 1);
                                    }
                                    lemma_find_npa_some(start, house as int, 0, a as int, b as int);
                                    assert forall|g: int| 0 <= g < house implies find_np_in_house(
                                        start,
                                        g,
                                        0,
                                    ) is None by {
                                        assert forall|x: int| 0 <= x < 8 implies #[trigger] np_none_at(
                                            start,
                                            g,
                                            x,
                                        ) by {
                                            lemma_find_npb_none(start, g, x, x + 1);
                                        }
                                        lemma_find_npa_none(start, g, 0);
                                    }
                                    lemma_find_np_some(
                                        start,
                                        0,
                                        house as int,
                                        a as int,
                                        b as int,
                                    );
                                    let t = find_naked_pair(old(grid)@, 0)->Some_0;
                                    assert(grid@ == spec_pair_reduced(old(grid)@, t.0, t.1, t.2));
                                }
                                return SolveStepResult::Acted;
                            }
                            proof {
                                assert(spec_pair_reduced(start, house as int, a as int, b as int)
                                    =~= start);
                            }
                        }
                        b = b + 1;
                    }
                }
                a = a + 1;
            }
            house = house + 1;
        }
        proof {
            assert forall|g: int| 0 <= g < 27 implies find_np_in_house(old(grid)@, g, 0) is None by {
                assert forall|x: int| 0 <= x < 8 implies #[trigger] np_none_at(
                    old(grid)@,
                    g,
                    x,
                ) by {
                    lemma_find_npb_none(old(grid)@, g, x, x + 1);
                }
                lemma_find_npa_none(old(grid)@, g, 0);
            }
            lemma_find_np_none(old(grid)@, 0);
        }
        SolveStepResult::Stuck
    }
}

impl Technique for NakedPair {
    open spec fn spec_name(&self) -> Seq<char> {
        "naked pair"@
    }

    fn name(&self) -> (r: &'static str) {
        "naked pair"
    }

    fn step(&mut self, grid: &mut SGrid) -> (r: SolveStepResult) {
        self.scan(grid)
    }
}

/// Values `a < b` of house `h` are confined to exactly the two offsets
/// `k1 < k2`: a hidden pair.
pub open spec fn hidden_pair_at(
    cells: Seq<SCell>,
    h: int,
    a: u8,
    b: u8,
    k1: int,
    k2: int,
) -> bool {
    &&& 1 <= a < b <= 9
    &&& 0 <= k1 < k2 < 9
    &&& hs_cand(cells, h, a, k1) && hs_cand(cells, h, a, k2)
    &&& hs_cand(cells, h, b, k1) && hs_cand(cells, h, b, k2)
    &&& forall|j: int|
        0 <= j < 9 && j != k1 && j != k2 ==> !hs_cand(cells, h, a, j) && !hs_cand(cells, h, b, j)
}

/// The shared candidates of the two cells of a hidden pair.
pub open spec fn spec_hidden_pair_cell(cells: Seq<SCell>, h: int, k1: int, k2: int) -> SCell {
    SCell::Possible(cells[house_pos(h, k1)].mask() & cells[house_pos(h, k2)].mask())
}

/// The board after the two cells of a hidden pair are reduced to their
/// shared candidates.
pub open spec fn spec_hidden_pair_reduced(cells: Seq<SCell>, h: int, k1: int, k2: int) -> Seq<
    SCell,
> {
    cells.update(house_pos(h, k1), spec_hidden_pair_cell(cells, h, k1, k2)).update(
        house_pos(h, k2),
        spec_hidden_pair_cell(cells, h, k1, k2),
    )
}

/// Every hidden pair of house `h` at values (a, b) is spent: applying its
/// reduction would change nothing.
pub open spec fn hidden_pair_spent(cells: Seq<SCell>, h: int, a: u8, b: u8) -> bool {
    forall|k1: int, k2: int|
        #[trigger] hidden_pair_at(cells, h, a, b, k1, k2) ==> spec_hidden_pair_reduced(
            cells,
            h,
            k1,
            k2,
        ) == cells
}

/// The smallest partner value at or past `b` forming, with value `a`, a
/// hidden pair of house `h` whose reduction changes the board.
pub open spec fn find_hp_b(cells: Seq<SCell>, h: int, a: u8, b: u8) -> Option<u8>
    decreases 10 - b,
{
    if b > 9 {
        None
    } else if !hidden_pair_spent(cells, h, a, b) {
        Some(b)
    } else {
        find_hp_b(cells, h, a, (b + 1) as u8)
    }
}

/// The first effective hidden pair of house `h` at or past value `a`, in the
/// scan's (a, b) order.
pub open spec fn find_hp_a(cells: Seq<SCell>, h: int, a: u8) -> Option<(u8, u8)>
    decreases 9 - a,
{
    if a > 8 {
        None
    } else {
        match find_hp_b(cells, h, a, (a + 1) as u8) {
            Some(b) => Some((a, b)),
            None => find_hp_a(cells, h, (a + 1) as u8),
        }
    }
}

/// The first effective hidden pair at or past house `h`: the scan order of
/// the Hidden Pair technique.
pub open spec fn find_hidden_pair(cells: Seq<SCell>, h: int) -> Option<(int, u8, u8)>
    decreases 27 - h,
{
    if h < 0 || h >= 27 {
        None
    } else {
        match find_hp_a(cells, h, 1) {
            Some(ab) => Some((h, ab.0, ab.1)),
            None => find_hidden_pair(cells, h + 1),
        }
    }
}

proof fn lemma_find_hpb_some(cells: Seq<SCell>, h: int, a: u8, b0: u8, b: u8)
    requires
        b0 <= b <= 9,
        !hidden_pair_spent(cells, h, a, b),
        forall|x: u8| b0 <= x < b ==> #[trigger] hidden_pair_spent(cells, h, a, x),
    ensures
        find_hp_b(cells, h, a, b0) == Some(b),
    decreases b - b0,
{
    if b0 < b {
        lemma_find_hpb_some(cells, h, a, (b0 + 1) as u8, b);
    }
}

proof fn lemma_find_hpb_none(cells: Seq<SCell>, h: int, a: u8, b0: u8)
    requires
        forall|x: u8| b0 <= x <= 9 ==> #[trigger] hidden_pair_spent(cells, h, a, x),
    ensures
        find_hp_b(cells, h, a, b0) is None,
    decreases 10 - b0,
{
    if b0 <= 9 {
        lemma_find_hpb_none(cells, h, a, (b0 + 1) as u8);
    }
}

proof fn lemma_find_hpa_some(cells: Seq<SCell>, h: int, a0: u8, a: u8, b: u8)
    requires
        1 <= a0 <= a <= 8,
        find_hp_b(cells, h, a, (a + 1) as u8) == Some(b),
        forall|x: u8| a0 <= x < a ==> #[trigger] hp_none_at(cells, h, x),
    ensures
        find_hp_a(cells, h, a0) == Some((a, b)),
    decreases a - a0,
{
    if a0 < a {
        assert(hp_none_at(cells, h, a0));
        lemma_find_hpa_some(cells, h, (a0 + 1) as u8, a, b);
    }
}

proof fn lemma_find_hpa_none(cells: Seq<SCell>, h: int, a0: u8)
    requires
        forall|x: u8| a0 <= x <= 8 ==> #[trigger] hp_none_at(cells, h, x),
    ensures
        find_hp_a(cells, h, a0) is None,
    decreases 9 - a0,
{
    if a0 <= 8 {
        assert(hp_none_at(cells, h, a0));
        lemma_find_hpa_none(cells, h, (a0 + 1) as u8);
    }
}

/// Value `a` of house `h` forms no effective hidden pair with a later value.
pub open spec fn hp_none_at(cells: Seq<SCell>, h: int, a: u8) -> bool {
    find_hp_b(cells, h, a, (a + 1) as u8) is None
}

proof fn lemma_find_hp_some(cells: Seq<SCell>, h0: int, h: int, a: u8, b: u8)
    requires
        0 <= h0 <= h < 27,
        find_hp_a(cells, h, 1) == Some((a, b)),
        forall|g: int| h0 <= g < h ==> #[trigger] find_hp_a(cells, g, 1) is None,
    ensures
        find_hidden_pair(cells, h0) == Some((h, a, b)),
    decreases h - h0,
{
    if h0 < h {
        lemma_find_hp_some(cells, h0 + 1, h, a, b);
    }
}

proof fn lemma_find_hp_none(cells: Seq<SCell>, h0: int)
    requires
        forall|g: int| h0 <= g < 27 ==> #[trigger] find_hp_a(cells, g, 1) is None,
    ensures
        find_hidden_pair(cells, h0) is None,
    decreases 27 - h0,
{
    if 0 <= h0 < 27 {
        lemma_find_hp_none(cells, h0 + 1);
    }
}

/// The Hidden Pair technique: two values confined to the same two cells of a
/// house license reducing those cells to just that pair.
#[derive(Copy, Clone, PartialEq, Eq, Debug, Structural)]
pub struct HiddenPair;

impl HiddenPair {
    /// Scan houses 0..27 and value pairs a < b; act on the first hidden pair
    /// whose reduction changes the board.
    pub fn scan(&self, grid: &mut SGrid) -> (r: SolveStepResult)
        requires
            old(grid).wf(),
        ensures
            final(grid).wf(),
            grid_narrows(old(grid)@, final(grid)@),
            grid_measure(final(grid)@) <= grid_measure(old(grid)@),
            !(r is Failed),
            !(r is Finished),
            r is Stuck ==> final(grid)@ == old(grid)@ && (forall|h: int, a: u8, b: u8|
                0 <= h < 27 ==> #[trigger] hidden_pair_spent(old(grid)@, h, a, b)),
            match find_hidden_pair(old(grid)@, 0) {
                None => r is Stuck,
                Some(t) => {
                    &&& r is Acted
                    &&& grid_measure(final(grid)@) < grid_measure(old(grid)@)
                    &&& !hidden_pair_spent(old(grid)@, t.0, t.1, t.2)
                    &&& exists|k1: int, k2: int|
                        hidden_pair_at(old(grid)@, t.0, t.1, t.2, k1, k2) && final(grid)@
                            == spec_hidden_pair_reduced(old(grid)@, t.0, k1, k2)
                },
            },
    {
        let mut house: usize = 0;
        while house < 27
            invariant
                house <= 27,
                grid.wf(),
                grid@ == old(grid)@,
                forall|h: int, aa: u8, bb: u8|
                    0 <= h < house ==> #[trigger] hidden_pair_spent(old(grid)@, h, aa, bb),
            decreases 27 - house,
        {
            let content = grid.house(house);
            let found = value_offsets(&content);
            let mut a: u8 = 1;
            while a <= 8
                invariant
                    1 <= a <= 9,
                    house < 27,
                    grid.wf(),
                    grid@ == old(grid)@,
                    content@.len() == 9,
                    forall|k: int| 0 <= k < 9 ==> #[trigger] content@[k] == grid@[house_pos(
                        house as int,
                        k,
                    )],
                    found@.len() == 10,
                    forall|vv: u8, k: u8|
                        1 <= vv <= 9 && k <= 9 ==> (#[trigger] mask_has(found@[vv as int], k) <==> (
                        k < 9 && content@[k as int] is Possible && content@[k as int].spec_has(
                            vv,
                        ))),
                    forall|vv: int| 0 <= vv < 10 ==> (#[trigger] found@[vv]) & 0x01FF == found@[vv],
                    forall|h: int, aa: u8, bb: u8|
                        0 <= h < house ==> #[trigger] hidden_pair_spent(old(grid)@, h, aa, bb),
                    forall|aa: u8, bb: u8|
                        aa < a ==> #[trigger] hidden_pair_spent(old(grid)@, house as int, aa, bb),
                decreases 9 - a,
            {
                let fa = found[a as usize];
                if offset_count(fa) == 2 {
                    let mut b: u8 = a + 1;
                    while b <= 9
                        invariant
                            a < b <= 10,
                            1 <= a <= 8,
                            house < 27,
                            grid.wf(),
                            grid@ == old(grid)@,
                            content@.len() == 9,
                            forall|k: int| 0 <= k < 9 ==> #[trigger] content@[k] == grid@[house_pos(
                                house as int,
                                k,
                            )],
                            found@.len() == 10,
                            fa == found@[a as int],
                            mask_count_from(fa, 0) == 2,
                            forall|vv: u8, k: u8|
                                1 <= vv <= 9 && k <= 9 ==> (#[trigger] mask_has(
                                    found@[vv as int],
                                    k,
                                ) <==> (k < 9 && content@[k as int] is Possible
                                    && content@[k as int].spec_has(vv))),
                            forall|vv: int|
                                0 <= vv < 10 ==> (#[trigger] found@[vv]) & 0x01FF == found@[vv],
                            forall|h: int, aa: u8, bb: u8|
                                0 <= h < house ==> #[trigger] hidden_pair_spent(
                                    old(grid)@,
                                    h,
                                    aa,
                                    bb,
                                ),
                            forall|aa: u8, bb: u8|
                                aa < a ==> #[trigger] hidden_pair_spent(
                                    old(grid)@,
                                    house as int,
                                    aa,
                                    bb,
                                ),
                            forall|bb: u8|
                                bb < b ==> #[trigger] hidden_pair_spent(
                                    old(grid)@,
                                    house as int,
                                    a,
                                    bb,
                                ),
                        decreases 10 - b,
                    {
                        if fa == found[b as usize] {
                            // Two values confined to the same two cells.
                            let k1 = match offset_from(fa, 0) {
                                Some(k) => k,
                                None => {
                                    proof {
                                        lemma_count_none(fa, 0);
                                    }
                                    return SolveStepResult::Stuck;
                                },
                            };
                            let k2 = match offset_from(fa, k1 + 1) {
                                Some(k) => k,
                                None => {
                                    proof {
                                        assert forall|j: u8| j <= 9 && j != k1 implies !mask_has(
                                            fa,
                                            j,
                                        ) by {}
                                        lemma_count_single(fa, 0, k1);
                                    }
                                    return SolveStepResult::Stuck;
                                },
                            };
                            proof {
                                assert(k1 < 9 && k2 < 9);
                                lemma_house_pos_range(house as int, k1 as int);
                                lemma_house_pos_range(house as int, k2 as int);
                            }
                            let c1 = content[k1 as usize];
                            let c2 = content[k2 as usize];
                            let nc = c1.intersect(&c2);
                            let ghost start = grid@;
                            let ch1 = grid.alter_house(house, k1 as usize, nc);
                            let ch2 = grid.alter_house(house, k2 as usize, nc);
                            proof {
                                if house_pos(house as int, k1 as int) == house_pos(
                                    house as int,
                                    k2 as int,
                                ) {
                                    lemma_house_pos_inj(house as int, k1 as int, k2 as int);
                                }
                            }
                            if ch1 || ch2 {
                                proof {
                                    assert forall|j: int|
                                        0 <= j < 9 && j != k1 && j != k2 implies !hs_cand(
                                        start,
                                        house as int,
                                        a,
                                        j,
                                    ) && !hs_cand(start, house as int, b, j) by {
                                        if hs_cand(start, house as int, a, j) || hs_cand(
                                            start,
                                            house as int,
                                            b,
                                            j,
                                        ) {
                                            assert(mask_has(fa, j as u8));
                                            let ju = j as u8;
                                            if ju < k1 {
                                                crate::cell::lemma_count_three(fa, 0, ju, k1, k2);
                                            } else if ju < k2 {
                                                crate::cell::lemma_count_three(fa, 0, k1, ju, k2);
                                            } else {
                                                crate::cell::lemma_count_three(fa, 0, k1, k2, ju);
                                            }
                                        }
                                    }
                                    assert(hidden_pair_at(
                                        start,
                                        house as int,
                                        a,
                                        b,
                                        k1 as int,
                                        k2 as int,
                                    ));
                                    assert(grid@ == spec_hidden_pair_reduced(
                                        start,
                                        house as int,
                                        k1 as int,
                                        k2 as int,
                                    ));
                                    assert(grid@ != start);
                                    assert(!hidden_pair_spent(start, house as int, a, b));
                                    lemma_find_hpb_some(
                                        start,
                                        house as int,
                                        a,
                                        (a + 1) as u8,
                                        b,
                                    );
                                    assert forall|x: u8| 1 <= x < a implies #[trigger] hp_none_at(
                                        start,
                                        house as int,
                                        x,
                                    ) by {
                                        lemma_find_hpb_none(
                                            start,
                                            house as int,
                                            x,
                                            (x + 1) as u8,
                                        );
                                    }
                                    lemma_find_hpa_some(start, house as int, 1, a, b);
                                    assert forall|g: int| 0 <= g < house implies #[trigger] find_hp_a(
                                        start,
                                        g,
                                        1,
                                    ) is None by {
                                        assert forall|x: u8| 1 <= x <= 8 implies #[trigger] hp_none_at(
                                            start,
                                            g,
                                            x,
                                        ) by {
                                            lemma_find_hpb_none(start, g, x, (x + 1) as u8);
                                        }
                                        lemma_find_hpa_none(start, g, 1);
                                    }
                                    lemma_find_hp_some(start, 0, house as int, a, b);
                                    let t = find_hidden_pair(old(grid)@, 0)->Some_0;
                                    assert(hidden_pair_at(
                                        old(grid)@,
                                        t.0,
                                        t.1,
                                        t.2,
                                        k1 as int,
                                        k2 as int,
                                    ) && grid@ == spec_hidden_pair_reduced(
                                        old(grid)@,
                                        t.0,
                                        k1 as int,
                                        k2 as int,
                                    ));
                                }
                                return SolveStepResult::Acted;
                            }
                            proof {
                                assert(grid@ == start);
                                assert(nc == start[house_pos(house as int, k1 as int)]);
                                assert(nc == start[house_pos(house as int, k2 as int)]);
                                assert forall|k1p: int, k2p: int| #[trigger] hidden_pair_at(
                                    old(grid)@,
                                    house as int,
                                    a,
                                    b,
                                    k1p,
                                    k2p,
                                ) implies spec_hidden_pair_reduced(
                                    old(grid)@,
                                    house as int,
                                    k1p,
                                    k2p,
                                ) == old(grid)@ by {
                                    assert(mask_has(fa, k1p as u8));
                                    assert(mask_has(fa, k2p as u8));
                                    only_two_offsets(fa, k1, k2, k1p as u8);
                                    only_two_offsets(fa, k1, k2, k2p as u8);
                                    assert(k1p == k1 && k2p == k2);
                                    assert(spec_hidden_pair_reduced(
                                        old(grid)@,
                                        house as int,
                                        k1p,
                                        k2p,
                                    ) =~= old(grid)@);
                                }
                            }
                        } else {
                            proof {
                                let fb = found@[b as int];
                                assert forall|k1p: int, k2p: int| #[trigger] hidden_pair_at(
                                    old(grid)@,
                                    house as int,
                                    a,
                                    b,
                                    k1p,
                                    k2p,
                                ) implies spec_hidden_pair_reduced(
                                    old(grid)@,
                                    house as int,
                                    k1p,
                                    k2p,
                                ) == old(grid)@ by {
                                    assert forall|j: u8| j <= 8 implies mask_has(fa, j) == mask_has(
                                        fb,
                                        j,
                                    ) by {
                                        if mask_has(fa, j) {
                                            assert(hs_cand(
                                                old(grid)@,
                                                house as int,
                                                a,
                                                j as int,
                                            ));
                                            assert(j == k1p || j == k2p);
                                            assert(hs_cand(
                                                old(grid)@,
                                                house as int,
                                                b,
                                                j as int,
                                            ));
                                        }
                                        if mask_has(fb, j) {
                                            assert(hs_cand(
                                                old(grid)@,
                                                house as int,
                                                b,
                                                j as int,
                                            ));
                                            assert(j == k1p || j == k2p);
                                            assert(hs_cand(
                                                old(grid)@,
                                                house as int,
                                                a,
                                                j as int,
                                            ));
                                        }
                                    }
                                    crate::cell::lemma_mask_eq_low(fa, fb);
                                    assert(false);
                                }
                            }
                        }
                        b = b + 1;
                    }
                } else {
                    proof {
                        assert forall|bb: u8, k1p: int, k2p: int| #[trigger] hidden_pair_at(
                            old(grid)@,
                            house as int,
                            a,
                            bb,
                            k1p,
                            k2p,
                        ) implies spec_hidden_pair_reduced(
                            old(grid)@,
                            house as int,
                            k1p,
                            k2p,
                        ) == old(grid)@ by {
                            assert(mask_has(fa, k1p as u8));
                            assert(mask_has(fa, k2p as u8));
                            assert forall|j: u8| j <= 9 && j != k1p && j != k2p implies !mask_has(
                                fa,
                                j,
                            ) by {
                                if mask_has(fa, j) {
                                    assert(hs_cand(old(grid)@, house as int, a, j as int));
                                }
                            }
                            crate::cell::lemma_count_pair(fa, 0, k1p as u8, k2p as u8);
                            assert(false);
                        }
                    }
                }
                a = a + 1;
            }
            house = house + 1;
        }
        proof {
            assert forall|g: int| 0 <= g < 27 implies #[trigger] find_hp_a(
                old(grid)@,
                g,
                1,
            ) is None by {
                assert forall|x: u8| 1 <= x <= 8 implies #[trigger] hp_none_at(
                    old(grid)@,
                    g,
                    x,
                ) by {
                    lemma_find_hpb_none(old(grid)@, g, x, (x + 1) as u8);
                }
                lemma_find_hpa_none(old(grid)@, g, 1);
            }
            lemma_find_hp_none(old(grid)@, 0);
        }
        SolveStepResult::Stuck
    }
}

/// A mask of exactly two offsets holds no third one.
proof fn only_two_offsets(m: u16, k1: u8, k2: u8, j: u8)
    requires
        mask_count_from(m, 0) == 2,
        k1 < k2 <= 9,
        j <= 9,
        mask_has(m, k1),
        mask_has(m, k2),
        mask_has(m, j),
    ensures
        j == k1 || j == k2,
{
    if j != k1 && j != k2 {
        if j < k1 {
            crate::cell::lemma_count_three(m, 0, j, k1, k2);
        } else if j < k2 {
            crate::cell::lemma_count_three(m, 0, k1, j, k2);
        } else {
            crate::cell::lemma_count_three(m, 0, k1, k2, j);
        }
    }
}

impl Technique for HiddenPair {
    open spec fn spec_name(&self) -> Seq<char> {
        "HiddenPair"@
    }

    fn name(&self) -> (r: &'static str) {
        "HiddenPair"
    }

    fn step(&mut self, grid: &mut SGrid) -> (r: SolveStepResult) {
        self.scan(grid)
    }
}

/// Board position `i` belongs to house `h`.
pub open spec fn in_house(h: int, i: int) -> bool {
    exists|k: int| 0 <= k < 9 && house_pos(h, k) == i
}

/// Decide whether the cell at (row, col) lies in the given house.
#[verifier::rlimit(50)]
fn pos_in_house(house: usize, row: usize, col: usize) -> (b: bool)
    requires
        house < 27,
        row < 9,
        col < 9,
    ensures
        b == in_house(house as int, grid_pos(row as int, col as int)),
{
    let ghost i = grid_pos(row as int, col as int);
    if house < 9 {
        let r = row == house;
        proof {
            if r {
                assert(house_pos(house as int, col as int) == i);
            } else {
                if in_house(house as int, i) {
                    let k = choose|k: int| 0 <= k < 9 && house_pos(house as int, k) == i;
                    assert(false);
                }
            }
        }
        r
    } else if house < 18 {
        let r = col == house - 9;
        proof {
            if r {
                assert(house_pos(house as int, row as int) == i);
            } else {
                if in_house(house as int, i) {
                    let k = choose|k: int| 0 <= k < 9 && house_pos(house as int, k) == i;
                    assert(false);
                }
            }
        }
        r
    } else {
        let b0 = house - 18;
        let r = row / 3 == b0 / 3 && col / 3 == b0 % 3;
        proof {
            let b0i = house as int - 18;
            if r {
                let k = (row as int % 3) * 3 + (col as int % 3);
                assert(0 <= k < 9);
                assert(k / 3 == row as int % 3 && k % 3 == col as int % 3);
                assert(house_pos(house as int, k) == i);
            } else {
                if in_house(house as int, i) {
                    let k = choose|k: int| 0 <= k < 9 && house_pos(house as int, k) == i;
                    assert(house_pos(house as int, k) == ((b0i / 3) * 3 + k / 3) * 9 + ((b0i % 3)
                        * 3 + k % 3));
                    assert(0 <= (b0i % 3) * 3 + k % 3 < 9);
                    assert(0 <= (b0i / 3) * 3 + k / 3 < 9);
                    assert(row as int == (b0i / 3) * 3 + k / 3);
                    assert(col as int == (b0i % 3) * 3 + k % 3);
                    assert(row as int / 3 == b0i / 3);
                    assert(col as int / 3 == b0i % 3);
                    assert(false);
                }
            }
        }
        r
    }
}

/// The mask of offsets of a house whose cell (open or fixed) can be `value`.
fn value_mask(content: &Vec<SCell>, value: u8) -> (m: u16)
    requires
        content@.len() == 9,
        1 <= value <= 9,
        forall|k: int| 0 <= k < 9 ==> (#[trigger] content@[k]).wf(),
    ensures
        forall|k: u8|
            k <= 9 ==> (#[trigger] mask_has(m, k) <==> (k < 9 && content@[k as int].spec_has(
                value,
            ))),
{
    let mut m: u16 = 0;
    proof {
        assert forall|j: u8| j <= 9 implies !(#[trigger] mask_has(0u16, j)) by {
            assert(!mask_has(0u16, j)) by (bit_vector)
                requires
                    j <= 9,
            ;
        }
    }
    let mut k: usize = 0;
    while k < 9
        invariant
            k <= 9,
            content@.len() == 9,
            1 <= value <= 9,
            forall|j: int| 0 <= j < 9 ==> (#[trigger] content@[j]).wf(),
            forall|j: u8|
                j <= 9 ==> (#[trigger] mask_has(m, j) <==> (j < k && content@[j as int].spec_has(
                    value,
                ))),
        decreases 9 - k,
    {
        if content[k].has(value) {
            let cur = m;
            m = m | (1u16 << (k as u16));
            proof {
                assert forall|j: u8| j <= 9 implies (#[trigger] mask_has(m, j) <==> (j < k + 1
                    && content@[j as int].spec_has(value))) by {
                    lemma_mask_set(cur, k as u8, j);
                }
            }
        }
        k = k + 1;
    }
    m
}

/// Every cell of house `h` that can still be `v` lies inside house `oh`: the
/// license for the Pointing removal.
pub open spec fn pointing_sound(cells: Seq<SCell>, h: int, oh: int, v: u8) -> bool {
    forall|k: int|
        0 <= k < 9 && (#[trigger] cells[house_pos(h, k)]).spec_has(v) ==> in_house(
            oh,
            house_pos(h, k),
        )
}

/// The board after `v` is struck from every cell of house `oh` outside house
/// `h`.
pub open spec fn spec_pointing_reduced(cells: Seq<SCell>, h: int, oh: int, v: u8) -> Seq<SCell> {
    Seq::new(
        81,
        |i: int|
            if in_house(oh, i) && !in_house(h, i) {
                cells[i].spec_removed(v)
            } else {
                cells[i]
            },
    )
}

/// At least two cells of house `h` can still be `v`.
pub open spec fn two_capable(cells: Seq<SCell>, h: int, v: u8) -> bool {
    exists|k1: int, k2: int|
        0 <= k1 < k2 < 9 && (#[trigger] cells[house_pos(h, k1)]).spec_has(v) && (
        #[trigger] cells[house_pos(h, k2)]).spec_has(v)
}

/// At least three cells of house `h` can still be `v`.
pub open spec fn three_capable(cells: Seq<SCell>, h: int, v: u8) -> bool {
    exists|k1: int, k2: int, k3: int|
        0 <= k1 < k2 < k3 < 9 && (#[trigger] cells[house_pos(h, k1)]).spec_has(v) && (
        #[trigger] cells[house_pos(h, k2)]).spec_has(v) && (#[trigger] cells[house_pos(
            h,
            k3,
        )]).spec_has(v)
}

/// The whole Pointing trigger for house `h`, overlapping house `oh` and
/// value `v`: at least two capable cells in `h`, at least three in `oh`,
/// confinement of `h`'s capable cells to `oh`, and a removal that would
/// actually change the board.
pub open spec fn pointing_applies(cells: Seq<SCell>, h: int, oh: int, v: u8) -> bool {
    &&& two_capable(cells, h, v)
    &&& three_capable(cells, oh, v)
    &&& pointing_sound(cells, h, oh, v)
    &&& spec_pointing_reduced(cells, h, oh, v) != cells
}

/// No Pointing opportunity is left: for every house, every value and every
/// overlapping house of the table, the trigger fails.
pub open spec fn pointing_spent(cells: Seq<SCell>) -> bool {
    forall|h: int, v: u8, x: int|
        0 <= h < 27 && 1 <= v <= 9 && 0 <= x < overlaps_spec(h).len() ==> !(
        #[trigger] pointing_applies(cells, h, overlaps_spec(h)[x] as int, v))
}

/// The first overlap-table index at or past `x` where the Pointing trigger
/// fires for house `h` and value `v`.
pub open spec fn find_pt_x(cells: Seq<SCell>, h: int, v: u8, x: int) -> Option<int>
    decreases overlaps_spec(h).len() - x,
{
    if x < 0 || x >= overlaps_spec(h).len() {
        None
    } else if pointing_applies(cells, h, overlaps_spec(h)[x] as int, v) {
        Some(x)
    } else {
        find_pt_x(cells, h, v, x + 1)
    }
}

/// The smallest value at or past `v` for which house `h` points anywhere,
/// with the first overlap-table index it points through.
pub open spec fn find_pt_v(cells: Seq<SCell>, h: int, v: u8) -> Option<(u8, int)>
    decreases 10 - v,
{
    if v > 9 {
        None
    } else {
        match find_pt_x(cells, h, v, 0) {
            Some(x) => Some((v, x)),
            None => find_pt_v(cells, h, (v + 1) as u8),
        }
    }
}

/// The first Pointing opportunity at or past house `h`: the scan order of
/// the Pointing technique.
pub open spec fn find_pointing(cells: Seq<SCell>, h: int) -> Option<(int, u8, int)>
    decreases 27 - h,
{
    if h < 0 || h >= 27 {
        None
    } else {
        match find_pt_v(cells, h, 1) {
            Some(vx) => Some((h, vx.0, vx.1)),
            None => find_pointing(cells, h + 1),
        }
    }
}

proof fn lemma_find_ptx_some(cells: Seq<SCell>, h: int, v: u8, x0: int, x: int)
    requires
        0 <= x0 <= x < overlaps_spec(h).len(),
        pointing_applies(cells, h, overlaps_spec(h)[x] as int, v),
        forall|xx: int|
            x0 <= xx < x ==> !(#[trigger] pointing_applies(
                cells,
                h,
                overlaps_spec(h)[xx] as int,
                v,
            )),
    ensures
        find_pt_x(cells, h, v, x0) == Some(x),
    decreases x - x0,
{
    if x0 < x {
        lemma_find_ptx_some(cells, h, v, x0 + 1, x);
    }
}

proof fn lemma_find_ptx_none(cells: Seq<SCell>, h: int, v: u8, x0: int)
    requires
        0 <= x0,
        forall|xx: int|
            x0 <= xx < overlaps_spec(h).len() ==> !(#[trigger] pointing_applies(
                cells,
                h,
                overlaps_spec(h)[xx] as int,
                v,
            )),
    ensures
        find_pt_x(cells, h, v, x0) is None,
    decreases overlaps_spec(h).len() - x0,
{
    if x0 < overlaps_spec(h).len() {
        lemma_find_ptx_none(cells, h, v, x0 + 1);
    }
}

proof fn lemma_find_ptv_some(cells: Seq<SCell>, h: int, v0: u8, v: u8, x: int)
    requires
        1 <= v0 <= v <= 9,
        find_pt_x(cells, h, v, 0) == Some(x),
        forall|w: u8| v0 <= w < v ==> #[trigger] find_pt_x(cells, h, w, 0) is None,
    ensures
        find_pt_v(cells, h, v0) == Some((v, x)),
    decreases v - v0,
{
    if v0 < v {
        lemma_find_ptv_some(cells, h, (v0 + 1) as u8, v, x);
    }
}

proof fn lemma_find_ptv_none(cells: Seq<SCell>, h: int, v0: u8)
    requires
        forall|w: u8| v0 <= w <= 9 ==> #[trigger] find_pt_x(cells, h, w, 0) is None,
    ensures
        find_pt_v(cells, h, v0) is None,
    decreases 10 - v0,
{
    if v0 <= 9 {
        lemma_find_ptv_none(cells, h, (v0 + 1) as u8);
    }
}

proof fn lemma_find_pt_some(cells: Seq<SCell>, h0: int, h: int, v: u8, x: int)
    requires
        0 <= h0 <= h < 27,
        find_pt_v(cells, h, 1) == Some((v, x)),
        forall|g: int| h0 <= g < h ==> #[trigger] find_pt_v(cells, g, 1) is None,
    ensures
        find_pointing(cells, h0) == Some((h, v, x)),
    decreases h - h0,
{
    if h0 < h {
        lemma_find_pt_some(cells, h0 + 1, h, v, x);
    }
}

proof fn lemma_find_pt_none(cells: Seq<SCell>, h0: int)
    requires
        forall|g: int| h0 <= g < 27 ==> #[trigger] find_pt_v(cells, g, 1) is None,
    ensures
        find_pointing(cells, h0) is None,
    decreases 27 - h0,
{
    if 0 <= h0 < 27 {
        lemma_find_pt_none(cells, h0 + 1);
    }
}

/// The Pointing technique: when every cell of a house that can be a value
/// lies within one overlapping house, the value is struck from the rest of
/// that overlapping house.
#[derive(Copy, Clone, PartialEq, Eq, Debug, Structural)]
pub struct Pointing;

impl Pointing {
    /// Scan houses 0..27, values 1..=9, then each overlapping house; act on
    /// the first removal that changes the board.
    #[verifier::rlimit(100)]
    pub fn scan(&self, grid: &mut SGrid) -> (r: SolveStepResult)
        requires
            old(grid).wf(),
        ensures
            final(grid).wf(),
            grid_narrows(old(grid)@, final(grid)@),
            grid_measure(final(grid)@) <= grid_measure(old(grid)@),
            !(r is Failed),
            !(r is Finished),
            r is Stuck ==> final(grid)@ == old(grid)@ && pointing_spent(old(grid)@),
            match find_pointing(old(grid)@, 0) {
                None => r is Stuck,
                Some(t) => {
                    &&& r is Acted
                    &&& grid_measure(final(grid)@) < grid_measure(old(grid)@)
                    &&& pointing_applies(old(grid)@, t.0, overlaps_spec(t.0)[t.2] as int, t.1)
                    &&& pointing_sound(old(grid)@, t.0, overlaps_spec(t.0)[t.2] as int, t.1)
                    &&& final(grid)@ == spec_pointing_reduced(
                        old(grid)@,
                        t.0,
                        overlaps_spec(t.0)[t.2] as int,
                        t.1,
                    )
                },
            },
    {
        let mut house: usize = 0;
        while house < 27
            invariant
                house <= 27,
                grid.wf(),
                grid@ == old(grid)@,
                forall|h: int, v: u8, x: int|
                    0 <= h < house && 1 <= v <= 9 && 0 <= x < overlaps_spec(h).len() ==> !(
                    #[trigger] pointing_applies(old(grid)@, h, overlaps_spec(h)[x] as int, v)),
            decreases 27 - house,
        {
            let content = grid.house(house);
            let mut value: u8 = 1;
            while value <= 9
                invariant
                    1 <= value <= 10,
                    house < 27,
                    grid.wf(),
                    grid@ == old(grid)@,
                    content@.len() == 9,
                    forall|k: int| 0 <= k < 9 ==> #[trigger] content@[k] == grid@[house_pos(
                        house as int,
                        k,
                    )],
                    forall|h: int, v: u8, x: int|
                        0 <= h < house && 1 <= v <= 9 && 0 <= x < overlaps_spec(h).len() ==> !(
                        #[trigger] pointing_applies(old(grid)@, h, overlaps_spec(h)[x] as int, v)),
                    forall|vv: u8, x: int|
                        1 <= vv < value && 0 <= x < overlaps_spec(house as int).len() ==> !(
                        #[trigger] pointing_applies(
                            old(grid)@,
                            house as int,
                            overlaps_spec(house as int)[x] as int,
                            vv,
                        )),
                decreases 10 - value,
            {
                proof {
                    assert forall|k: int| 0 <= k < 9 implies (#[trigger] content@[k]).wf() by {
                        lemma_house_pos_range(house as int, k);
                    }
                }
                let hmask = value_mask(&content, value);
                if offset_count(hmask) >= 2 {
                    let overlaps = grid.overlapping_houses(house);
                    let mut oi: usize = 0;
                    while oi < overlaps.len()
                        invariant
                            oi <= overlaps@.len(),
                            1 <= value <= 9,
                            house < 27,
                            grid.wf(),
                            grid@ == old(grid)@,
                            content@.len() == 9,
                            forall|k: int| 0 <= k < 9 ==> #[trigger] content@[k] == grid@[house_pos(
                                house as int,
                                k,
                            )],
                            forall|x: int|
                                0 <= x < overlaps@.len() ==> #[trigger] overlaps@[x] < 27,
                            overlaps@ == overlaps_spec(house as int),
                            forall|k: u8|
                                k <= 9 ==> (#[trigger] mask_has(hmask, k) <==> (k < 9
                                    && content@[k as int].spec_has(value))),
                            mask_count_from(hmask, 0) >= 2,
                            forall|h: int, v: u8, x: int|
                                0 <= h < house && 1 <= v <= 9 && 0 <= x < overlaps_spec(h).len()
                                    ==> !(#[trigger] pointing_applies(
                                    old(grid)@,
                                    h,
                                    overlaps_spec(h)[x] as int,
                                    v,
                                )),
                            forall|vv: u8, x: int|
                                1 <= vv < value && 0 <= x < overlaps_spec(house as int).len()
                                    ==> !(#[trigger] pointing_applies(
                                    old(grid)@,
                                    house as int,
                                    overlaps_spec(house as int)[x] as int,
                                    vv,
                                )),
                            forall|x: int|
                                0 <= x < oi ==> !(#[trigger] pointing_applies(
                                    old(grid)@,
                                    house as int,
                                    overlaps_spec(house as int)[x] as int,
                                    value,
                                )),
                        decreases overlaps@.len() - oi,
                    {
                        let oh = overlaps[oi];
                        let ocontent = grid.house(oh);
                        proof {
                            assert forall|k: int| 0 <= k < 9 implies (#[trigger] ocontent@[k]).wf()
                                by {
                                lemma_house_pos_range(oh as int, k);
                            }
                        }
                        let omask = value_mask(&ocontent, value);
                        // Fewer than three candidate cells in the overlapping
                        // house cannot point at anything beyond the shared
                        // cells: skip it.
                        if offset_count(omask) < 3 {
                            proof {
                                if three_capable(old(grid)@, oh as int, value) {
                                    let (k1, k2, k3) = choose|k1: int, k2: int, k3: int|
                                        0 <= k1 < k2 < k3 < 9 && (#[trigger] old(grid)@[house_pos(
                                            oh as int,
                                            k1,
                                        )]).spec_has(value) && (#[trigger] old(grid)@[house_pos(
                                            oh as int,
                                            k2,
                                        )]).spec_has(value) && (#[trigger] old(grid)@[house_pos(
                                            oh as int,
                                            k3,
                                        )]).spec_has(value);
                                    assert(mask_has(omask, k1 as u8));
                                    assert(mask_has(omask, k2 as u8));
                                    assert(mask_has(omask, k3 as u8));
                                    crate::cell::lemma_count_three(
                                        omask,
                                        0,
                                        k1 as u8,
                                        k2 as u8,
                                        k3 as u8,
                                    );
                                }
                                assert(!pointing_applies(
                                    old(grid)@,
                                    house as int,
                                    oh as int,
                                    value,
                                ));
                            }
                        } else {
                            // Does every cell of this house that can be
                            // `value` lie inside the overlapping house?
                            let mut confined = true;
                            let mut k: usize = 0;
                            while k < 9
                                invariant
                                    k <= 9,
                                    1 <= value <= 9,
                                    house < 27,
                                    oh < 27,
                                    grid.wf(),
                                    grid@ == old(grid)@,
                                    content@.len() == 9,
                                    forall|j: int|
                                        0 <= j < 9 ==> #[trigger] content@[j] == grid@[house_pos(
                                            house as int,
                                            j,
                                        )],
                                    confined == (forall|j: int|
                                        0 <= j < k ==> ((#[trigger] content@[j]).spec_has(value)
                                            ==> in_house(oh as int, house_pos(house as int, j)))),
                                decreases 9 - k,
                            {
                                let c = content[k];
                                if c.has(value) {
                                    let rc = SGrid::house_cell_to_row_col(house, k);
                                    if !pos_in_house(oh, rc.0, rc.1) {
                                        confined = false;
                                    }
                                }
                                k = k + 1;
                            }
                            if !confined {
                                proof {
                                    assert(!pointing_sound(
                                        old(grid)@,
                                        house as int,
                                        oh as int,
                                        value,
                                    ));
                                    assert(!pointing_applies(
                                        old(grid)@,
                                        house as int,
                                        oh as int,
                                        value,
                                    ));
                                }
                            } else {
                                // Strike the value from the overlap's cells
                                // outside this house.
                                let ghost start = grid@;
                                let mut changed = false;
                                let mut k2: usize = 0;
                                while k2 < 9
                                    invariant
                                        k2 <= 9,
                                        1 <= value <= 9,
                                        house < 27,
                                        oh < 27,
                                        grid.wf(),
                                        start == old(grid)@,
                                        grid@.len() == 81,
                                        grid_narrows(start, grid@),
                                        grid_measure(grid@) <= grid_measure(start),
                                        changed ==> grid_measure(grid@) < grid_measure(start),
                                        !changed ==> grid@ == start,
                                        forall|i: int|
                                            0 <= i < 81 ==> #[trigger] grid@[i] == (if (exists|
                                                kk: int,
                                            |
                                                0 <= kk < k2 && house_pos(oh as int, kk) == i)
                                                && !in_house(house as int, i) {
                                                start[i].spec_removed(value)
                                            } else {
                                                start[i]
                                            }),
                                    decreases 9 - k2,
                                {
                                    let rc = SGrid::house_cell_to_row_col(oh, k2);
                                    let inh = pos_in_house(house, rc.0, rc.1);
                                    let ghost pre = grid@;
                                    let ghost pj = house_pos(oh as int, k2 as int);
                                    proof {
                                        lemma_house_pos_range(oh as int, k2 as int);
                                        assert forall|kk: int| 0 <= kk < k2 implies house_pos(
                                            oh as int,
                                            kk,
                                        ) != pj by {
                                            if house_pos(oh as int, kk) == pj {
                                                lemma_house_pos_inj(oh as int, kk, k2 as int);
                                            }
                                        }
                                        assert(pre[pj] == start[pj]);
                                    }
                                    if !inh {
                                        let c = grid.cell(rc.0, rc.1);
                                        if c.has(value) {
                                            let ch = grid.remove_from_cell(rc.0, rc.1, value);
                                            changed = changed || ch;
                                            proof {
                                                lemma_spec_removed(start[pj], value);
                                            }
                                        } else {
                                            proof {
                                                match start[pj] {
                                                    SCell::Possible(mm) => {
                                                        crate::cell::lemma_mask_remove_absent(
                                                            mm,
                                                            value,
                                                        );
                                                    },
                                                    SCell::Fixed(_) => {},
                                                }
                                                assert(start[pj].spec_removed(value) == start[pj]);
                                            }
                                        }
                                    }
                                    proof {
                                        assert forall|i: int| 0 <= i < 81 implies #[trigger] grid@[i]
                                            == (if (exists|kk: int|
                                            0 <= kk < k2 + 1 && house_pos(oh as int, kk) == i)
                                            && !in_house(house as int, i) {
                                            start[i].spec_removed(value)
                                        } else {
                                            start[i]
                                        }) by {
                                            if i == pj {
                                                assert(0 <= (k2 as int) < k2 + 1 && house_pos(
                                                    oh as int,
                                                    k2 as int,
                                                ) == i);
                                                assert(in_house(house as int, i) == (grid_pos(
                                                    rc.0 as int,
                                                    rc.1 as int,
                                                ) == i && in_house(house as int, i)));
                                            } else {
                                                assert(grid@[i] == pre[i]);
                                                if (exists|kk: int|
                                                    0 <= kk < k2 + 1 && house_pos(oh as int, kk)
                                                        == i) {
                                                    let kk = choose|kk: int|
                                                        0 <= kk < k2 + 1 && house_pos(
                                                            oh as int,
                                                            kk,
                                                        ) == i;
                                                    assert(kk < k2);
                                                }
                                            }
                                        }
                                    }
                                    k2 = k2 + 1;
                                }
                                proof {
                                    assert forall|i: int| 0 <= i < 81 implies grid@[i]
                                        == spec_pointing_reduced(
                                        start,
                                        house as int,
                                        oh as int,
                                        value,
                                    )[i] by {
                                        if in_house(oh as int, i) {
                                            let kk = choose|kk: int|
                                                0 <= kk < 9 && house_pos(oh as int, kk) == i;
                                            assert(0 <= kk < 9 && house_pos(oh as int, kk) == i);
                                        }
                                    }
                                    assert(grid@ =~= spec_pointing_reduced(
                                        start,
                                        house as int,
                                        oh as int,
                                        value,
                                    ));
                                }
                                if changed {
                                    proof {
                                        assert forall|k: int|
                                            0 <= k < 9 && (#[trigger] start[house_pos(
                                                house as int,
                                                k,
                                            )]).spec_has(value) implies in_house(
                                            oh as int,
                                            house_pos(house as int, k),
                                        ) by {
                                            assert(content@[k].spec_has(value));
                                        }
                                        assert(pointing_sound(
                                            start,
                                            house as int,
                                            oh as int,
                                            value,
                                        ));
                                        // The full trigger holds here, making
                                        // this the scan's first opportunity.
                                        let kk = crate::cell::lemma_count_extract_two(hmask, 0);
                                        assert((#[trigger] start[house_pos(
                                            house as int,
                                            kk.0 as int,
                                        )]).spec_has(value) && (#[trigger] start[house_pos(
                                            house as int,
                                            kk.1 as int,
                                        )]).spec_has(value));
                                        assert(two_capable(start, house as int, value));
                                        let jj = crate::cell::lemma_count_extract_three(omask, 0);
                                        assert((#[trigger] start[house_pos(
                                            oh as int,
                                            jj.0 as int,
                                        )]).spec_has(value) && (#[trigger] start[house_pos(
                                            oh as int,
                                            jj.1 as int,
                                        )]).spec_has(value) && (#[trigger] start[house_pos(
                                            oh as int,
                                            jj.2 as int,
                                        )]).spec_has(value));
                                        assert(three_capable(start, oh as int, value));
                                        assert(grid@ != start);
                                        assert(pointing_applies(
                                            start,
                                            house as int,
                                            oh as int,
                                            value,
                                        ));
                                        lemma_find_ptx_some(
                                            start,
                                            house as int,
                                            value,
                                            0,
                                            oi as int,
                                        );
                                        assert forall|w: u8| 1 <= w < value implies #[trigger] find_pt_x(
                                            start,
                                            house as int,
                                            w,
                                            0,
                                        ) is None by {
                                            lemma_find_ptx_none(start, house as int, w, 0);
                                        }
                                        lemma_find_ptv_some(
                                            start,
                                            house as int,
                                            1,
                                            value,
                                            oi as int,
                                        );
                                        assert forall|g: int| 0 <= g < house implies #[trigger] find_pt_v(
                                            start,
                                            g,
                                            1,
                                        ) is None by {
                                            assert forall|w: u8| 1 <= w <= 9 implies #[trigger] find_pt_x(
                                                start,
                                                g,
                                                w,
                                                0,
                                            ) is None by {
                                                lemma_find_ptx_none(start, g, w, 0);
                                            }
                                            lemma_find_ptv_none(start, g, 1);
                                        }
                                        lemma_find_pt_some(
                                            start,
                                            0,
                                            house as int,
                                            value,
                                            oi as int,
                                        );
                                        let t = find_pointing(old(grid)@, 0)->Some_0;
                                        assert(pointing_applies(
                                            old(grid)@,
                                            t.0,
                                            overlaps_spec(t.0)[t.2] as int,
                                            t.1,
                                        ) && grid@ == spec_pointing_reduced(
                                            old(grid)@,
                                            t.0,
                                            overlaps_spec(t.0)[t.2] as int,
                                            t.1,
                                        ));
                                    }
                                    return SolveStepResult::Acted;
                                }
                                proof {
                                    assert(spec_pointing_reduced(
                                        old(grid)@,
                                        house as int,
                                        oh as int,
                                        value,
                                    ) == old(grid)@);
                                    assert(!pointing_applies(
                                        old(grid)@,
                                        house as int,
                                        oh as int,
                                        value,
                                    ));
                                }
                            }
                        }
                        oi = oi + 1;
                    }
                } else {
                    proof {
                        assert forall|x: int|
                            0 <= x < overlaps_spec(house as int).len() implies !(
                        #[trigger] pointing_applies(
                            old(grid)@,
                            house as int,
                            overlaps_spec(house as int)[x] as int,
                            value,
                        )) by {
                            if two_capable(old(grid)@, house as int, value) {
                                let (k1, k2) = choose|k1: int, k2: int|
                                    0 <= k1 < k2 < 9 && (#[trigger] old(grid)@[house_pos(
                                        house as int,
                                        k1,
                                    )]).spec_has(value) && (#[trigger] old(grid)@[house_pos(
                                        house as int,
                                        k2,
                                    )]).spec_has(value);
                                assert(mask_has(hmask, k1 as u8));
                                assert(mask_has(hmask, k2 as u8));
                                lemma_count_two(hmask, 0, k1 as u8, k2 as u8);
                            }
                        }
                    }
                }
                value = value + 1;
            }
            house = house + 1;
        }
        proof {
            assert forall|g: int| 0 <= g < 27 implies #[trigger] find_pt_v(
                old(grid)@,
                g,
                1,
            ) is None by {
                assert forall|w: u8| 1 <= w <= 9 implies #[trigger] find_pt_x(
                    old(grid)@,
                    g,
                    w,
                    0,
                ) is None by {
                    lemma_find_ptx_none(old(grid)@, g, w, 0);
                }
                lemma_find_ptv_none(old(grid)@, g, 1);
            }
            lemma_find_pt_none(old(grid)@, 0);
        }
        SolveStepResult::Stuck
    }
}

impl Technique for Pointing {
    open spec fn spec_name(&self) -> Seq<char> {
        "pointing"@
    }

    fn name(&self) -> (r: &'static str) {
        "pointing"
    }

    fn step(&mut self, grid: &mut SGrid) -> (r: SolveStepResult) {
        self.scan(grid)
    }
}

/// One registered technique, dispatched by variant.  The order techniques
/// are registered in is the solver's priority order.
#[derive(Copy, Clone, PartialEq, Eq, Debug, Structural)]
pub enum Tech {
    NakedSingle(NakedSingle),
    HiddenSingle(HiddenSingle),
    NakedPair(NakedPair),
    HiddenPair(HiddenPair),
    Pointing(Pointing),
}

/// Whether a technique is out of opportunities on a board: exactly the
/// condition its scan promises when it reports `Stuck`.
pub open spec fn tech_spent(t: Tech, cells: Seq<SCell>) -> bool {
    match t {
        Tech::NakedSingle(_) => find_naked_single(cells, 0) is None,
        Tech::HiddenSingle(_) => forall|h: int, v: u8|
            0 <= h < 27 && 1 <= v <= 9 ==> !house_has_hidden_single(cells, h, v),
        Tech::NakedPair(_) => forall|h: int, a: int, b: int|
            0 <= h < 27 && #[trigger] naked_pair_at(cells, h, a, b) ==> spec_pair_reduced(
                cells,
                h,
                a,
                b,
            ) == cells,
        Tech::HiddenPair(_) => forall|h: int, a: u8, b: u8|
            0 <= h < 27 ==> #[trigger] hidden_pair_spent(cells, h, a, b),
        Tech::Pointing(_) => pointing_spent(cells),
    }
}

impl Tech {
    /// The wrapped technique's name, as contracts see it.
    pub open spec fn spec_label(&self) -> Seq<char> {
        match self {
            Tech::NakedSingle(t) => t.spec_name(),
            Tech::HiddenSingle(t) => t.spec_name(),
            Tech::NakedPair(t) => t.spec_name(),
            Tech::HiddenPair(t) => t.spec_name(),
            Tech::Pointing(t) => t.spec_name(),
        }
    }

    /// Run one step of the wrapped technique.  No technique of this set ever
    /// reports `Failed` or `Finished`: each only acts on values its scan has
    /// already confirmed viable.
    pub fn run(&self, grid: &mut SGrid) -> (r: SolveStepResult)
        requires
            old(grid).wf(),
        ensures
            final(grid).wf(),
            grid_narrows(old(grid)@, final(grid)@),
            grid_measure(final(grid)@) <= grid_measure(old(grid)@),
            r is Acted ==> grid_measure(final(grid)@) < grid_measure(old(grid)@),
            r is Stuck ==> final(grid)@ == old(grid)@,
            r is Stuck ==> tech_spent(*self, final(grid)@),
            !(r is Failed),
            !(r is Finished),
    {
        match self {
            Tech::NakedSingle(t) => t.scan(grid),
            Tech::HiddenSingle(t) => t.scan(grid),
            Tech::NakedPair(t) => t.scan(grid),
            Tech::HiddenPair(t) => t.scan(grid),
            Tech::Pointing(t) => t.scan(grid),
        }
    }

    /// The wrapped technique's name.
    pub fn label(&self) -> (r: &'static str)
        ensures
            r@ == self.spec_label(),
    {
        match self {
            Tech::NakedSingle(t) => t.name(),
            Tech::HiddenSingle(t) => t.name(),
            Tech::NakedPair(t) => t.name(),
            Tech::HiddenPair(t) => t.name(),
            Tech::Pointing(t) => t.name(),
        }
    }
}

impl Technique for Tech {
    open spec fn spec_name(&self) -> Seq<char> {
        self.spec_label()
    }

    fn name(&self) -> (r: &'static str) {
        self.label()
    }

    fn step(&mut self, grid: &mut SGrid) -> (r: SolveStepResult) {
        self.run(grid)
    }
}

/// The orchestrator: an ordered list of techniques with, per technique, a
/// count of fruitless tries (defers) and of successful mutations (actions).
pub struct SolverSet {
    techniques: Vec<Tech>,
    actions: Vec<usize>,
    defers: Vec<usize>,
}

impl SolverSet {
    pub closed spec fn spec_techniques(&self) -> Seq<Tech> {
        self.techniques@
    }

    pub closed spec fn spec_actions(&self) -> Seq<usize> {
        self.actions@
    }

    pub closed spec fn spec_defers(&self) -> Seq<usize> {
        self.defers@
    }

    /// One counter of each kind per registered technique.
    pub open spec fn wf(&self) -> bool {
        &&& self.spec_actions().len() == self.spec_techniques().len()
        &&& self.spec_defers().len() == self.spec_techniques().len()
    }

    /// An empty solver set.
    pub fn new() -> (r: SolverSet)
        ensures
            r.wf(),
            r.spec_techniques() == Seq::<Tech>::empty(),
    {
        SolverSet { techniques: Vec::new(), actions: Vec::new(), defers: Vec::new() }
    }

    /// Append a technique, with zeroed counters, at the lowest priority.
    pub fn add_technique(&mut self, t: Tech)
        requires
            old(self).wf(),
        ensures
            final(self).wf(),
            final(self).spec_techniques() == old(self).spec_techniques().push(t),
            final(self).spec_actions() == old(self).spec_actions().push(0usize),
            final(self).spec_defers() == old(self).spec_defers().push(0usize),
    {
        self.techniques.push(t);
        self.actions.push(0);
        self.defers.push(0);
    }

    /// How many techniques are registered.
    pub fn technique_count(&self) -> (n: usize)
        ensures
            n == self.spec_techniques().len(),
    {
        self.techniques.len()
    }

    /// The name of the technique at priority `i`.
    pub fn technique_name(&self, i: usize) -> (r: &'static str)
        requires
            i < self.spec_techniques().len(),
        ensures
            r@ == self.spec_techniques()[i as int].spec_label(),
    {
        self.techniques[i].label()
    }

    /// How often the technique at priority `i` mutated the grid.
    pub fn action_count(&self, i: usize) -> (n: usize)
        requires
            i < self.spec_techniques().len(),
            self.wf(),
        ensures
            n == self.spec_actions()[i as int],
    {
        self.actions[i]
    }

    /// How often the technique at priority `i` found nothing to do.
    pub fn defer_count(&self, i: usize) -> (n: usize)
        requires
            i < self.spec_techniques().len(),
            self.wf(),
        ensures
            n == self.spec_defers()[i as int],
    {
        self.defers[i]
    }

    /// One more fruitless try for the technique at priority `i`; the counter
    /// saturates rather than wrap.
    fn bump_defer(&mut self, i: usize)
        requires
            old(self).wf(),
            i < old(self).spec_techniques().len(),
        ensures
            final(self).wf(),
            final(self).spec_techniques() == old(self).spec_techniques(),
            final(self).spec_actions() == old(self).spec_actions(),
            final(self).spec_defers() == old(self).spec_defers().update(
                i as int,
                (if old(self).spec_defers()[i as int] < usize::MAX {
                    (old(self).spec_defers()[i as int] + 1) as usize
                } else {
                    old(self).spec_defers()[i as int]
                }),
            ),
    {
        let d = self.defers[i];
        if d < usize::MAX {
            self.defers[i] = d + 1;
        } else {
            proof {
                assert(old(self).spec_defers() =~= old(self).spec_defers().update(i as int, d));
            }
        }
    }

    /// One more successful mutation for the technique at priority `i`; the
    /// counter saturates rather than wrap.
    fn bump_action(&mut self, i: usize)
        requires
            old(self).wf(),
            i < old(self).spec_techniques().len(),
        ensures
            final(self).wf(),
            final(self).spec_techniques() == old(self).spec_techniques(),
            final(self).spec_defers() == old(self).spec_defers(),
            final(self).spec_actions() == old(self).spec_actions().update(
                i as int,
                (if old(self).spec_actions()[i as int] < usize::MAX {
                    (old(self).spec_actions()[i as int] + 1) as usize
                } else {
                    old(self).spec_actions()[i as int]
                }),
            ),
    {
        let a = self.actions[i];
        if a < usize::MAX {
            self.actions[i] = a + 1;
        } else {
            proof {
                assert(old(self).spec_actions() =~= old(self).spec_actions().update(i as int, a));
            }
        }
    }

    /// Drive the techniques to convergence.
    ///
    /// Techniques run in priority order; any action restarts the order from
    /// the top.  Ends `Finished` exactly when every cell is fixed, else
    /// `Stuck`: either every technique was out of ideas, or a cell was left
    /// with no viable value (the contradiction backstop).  On an already
    /// finished grid this returns at once, mutating nothing.
    pub fn solve_grid(&mut self, grid: &mut SGrid) -> (r: SolveStepResult)
        requires
            old(self).wf(),
            old(grid).wf(),
        ensures
            final(self).wf(),
            final(grid).wf(),
            grid_narrows(old(grid)@, final(grid)@),
            final(self).spec_techniques() == old(self).spec_techniques(),
            r is Finished <==> all_fixed(final(grid)@),
            r is Finished || r is Stuck,
            all_fixed(old(grid)@) ==> r is Finished && final(grid)@ == old(grid)@ && *final(self)
                == *old(self),
            r is Stuck ==> (exists|p: int|
                0 <= p < 81 && (#[trigger] final(grid)@[p]) is Possible && final(grid)@[p].count()
                    == 0) || (forall|i: int|
                0 <= i < final(self).spec_techniques().len() ==> tech_spent(
                    #[trigger] final(self).spec_techniques()[i],
                    final(grid)@,
                )),
            forall|i: int|
                0 <= i < old(self).spec_techniques().len() ==> old(self).spec_defers()[i]
                    <= #[trigger] final(self).spec_defers()[i],
            forall|i: int|
                0 <= i < old(self).spec_techniques().len() ==> old(self).spec_actions()[i]
                    <= #[trigger] final(self).spec_actions()[i],
    {
        let mut tnum: usize = 0;
        loop
            invariant
                self.wf(),
                grid.wf(),
                tnum <= self.spec_techniques().len(),
                self.spec_techniques() == old(self).spec_techniques(),
                grid_narrows(old(grid)@, grid@),
                grid_measure(grid@) <= grid_measure(old(grid)@),
                all_fixed(old(grid)@) ==> (grid@ == old(grid)@ && *self == *old(self) && tnum
                    == 0),
                forall|i: int|
                    0 <= i < tnum ==> tech_spent(#[trigger] self.spec_techniques()[i], grid@),
                forall|i: int|
                    0 <= i < old(self).spec_techniques().len() ==> old(self).spec_defers()[i]
                        <= #[trigger] self.spec_defers()[i],
                forall|i: int|
                    0 <= i < old(self).spec_techniques().len() ==> old(self).spec_actions()[i]
                        <= #[trigger] self.spec_actions()[i],
            decreases grid_measure(grid@), self.spec_techniques().len() - tnum,
        {
            proof {
                lemma_measure_nonneg(grid@, 0);
            }
            match grid.done() {
                SResult::Finished => {
                    return SolveStepResult::Finished;
                },
                _ => {},
            }
            if tnum == self.techniques.len() {
                return SolveStepResult::Stuck;
            }
            let t = self.techniques[tnum];
            let res = t.run(grid);
            match res {
                SolveStepResult::Stuck => {
                    self.bump_defer(tnum);
                    tnum = tnum + 1;
                },
                SolveStepResult::Acted => {
                    self.bump_action(tnum);
                    tnum = 0;
                },
                other => {
                    return other;
                },
            }
            proof {
                lemma_measure_nonneg(grid@, 0);
            }
            // The contradiction backstop: a cell with no viable value left
            // means these techniques have run the grid into a dead end.
            let mut p: usize = 0;
            while p < 81
                invariant
                    p <= 81,
                    grid.wf(),
                    self.wf(),
                    self.spec_techniques() == old(self).spec_techniques(),
                    grid_narrows(old(grid)@, grid@),
                    grid_measure(grid@) <= grid_measure(old(grid)@),
                    !all_fixed(old(grid)@),
                    forall|i: int|
                        0 <= i < old(self).spec_techniques().len() ==> old(self).spec_defers()[i]
                            <= #[trigger] self.spec_defers()[i],
                    forall|i: int|
                        0 <= i < old(self).spec_techniques().len() ==> old(self).spec_actions()[i]
                            <= #[trigger] self.spec_actions()[i],
                decreases 81 - p,
            {
                let c = grid.cell(p / 9, p % 9);
                match c {
                    SCell::Fixed(_) => {},
                    SCell::Possible(_) => {
                        if c.possibilities() == 0 {
                            return SolveStepResult::Stuck;
                        }
                    },
                }
                p = p + 1;
            }
        }
    }

    /// A solver set with the whole technique collection, in priority order.
    pub fn full() -> (r: SolverSet)
        ensures
            r.wf(),
            r.spec_techniques() == seq![
                Tech::NakedSingle(NakedSingle),
                Tech::HiddenSingle(HiddenSingle),
                Tech::NakedPair(NakedPair),
                Tech::HiddenPair(HiddenPair),
                Tech::Pointing(Pointing),
            ],
            r.spec_actions() == seq![0usize, 0usize, 0usize, 0usize, 0usize],
            r.spec_defers() == seq![0usize, 0usize, 0usize, 0usize, 0usize],
    {
        let mut ret = SolverSet::new();
        ret.add_technique(Tech::NakedSingle(NakedSingle));
        ret.add_technique(Tech::HiddenSingle(HiddenSingle));
        ret.add_technique(Tech::NakedPair(NakedPair));
        ret.add_technique(Tech::HiddenPair(HiddenPair));
        ret.add_technique(Tech::Pointing(Pointing));
        proof {
            assert(ret.spec_techniques() =~= seq![
                Tech::NakedSingle(NakedSingle),
                Tech::HiddenSingle(HiddenSingle),
                Tech::NakedPair(NakedPair),
                Tech::HiddenPair(HiddenPair),
                Tech::Pointing(Pointing),
            ]);
            assert(ret.spec_actions() =~= seq![0usize, 0usize, 0usize, 0usize, 0usize]);
            assert(ret.spec_defers() =~= seq![0usize, 0usize, 0usize, 0usize, 0usize]);
        }
        ret
    }
}

} // verus!
