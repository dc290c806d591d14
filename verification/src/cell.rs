//! One board position: either a settled value or a 9-bit set of candidates.

use vstd::prelude::*;

verus! {

/// Mask with the bits for values 1 through 9 all set: the default candidate set.
pub const FULL_MASK: u16 = 0x3FE;

/// The bit standing for value `v` in a candidate mask.
pub open spec fn val_bit(v: u8) -> u16 {
    1u16 << (v as u16)
}

/// Whether value `v` is present in candidate mask `m`.
pub open spec fn mask_has(m: u16, v: u8) -> bool {
    m & val_bit(v) != 0
}

/// A candidate mask is well formed when only the bits for values 1..=9 are set.
pub open spec fn mask_wf(m: u16) -> bool {
    m & FULL_MASK == m
}

/// How many of the values `from..=9` are present in `m`.
pub open spec fn mask_count_from(m: u16, from: u8) -> u16
    decreases 10 - from,
{
    if from > 9 {
        0u16
    } else {
        ((if mask_has(m, from) {
            1u16
        } else {
            0u16
        }) + mask_count_from(m, (from + 1) as u8)) as u16
    }
}

/// How many of the values 1..=9 are present in `m`.
pub open spec fn mask_count(m: u16) -> u16 {
    mask_count_from(m, 1)
}

pub proof fn lemma_mask_remove(m: u16, a: u8, b: u8)
    by (bit_vector)
    requires
        a <= 9,
        b <= 9,
    ensures
        mask_has(m & !val_bit(a), b) == (mask_has(m, b) && a != b),
{
}

pub proof fn lemma_mask_remove_absent(m: u16, a: u8)
    by (bit_vector)
    requires
        a <= 9,
        !mask_has(m, a),
    ensures
        m & !val_bit(a) == m,
{
}

pub proof fn lemma_mask_diff(m: u16, o: u16, b: u8)
    by (bit_vector)
    requires
        b <= 9,
    ensures
        mask_has(m & !o, b) == (mask_has(m, b) && !mask_has(o, b)),
{
}

pub proof fn lemma_mask_and(m1: u16, m2: u16, b: u8)
    by (bit_vector)
    requires
        b <= 9,
    ensures
        mask_has(m1 & m2, b) == (mask_has(m1, b) && mask_has(m2, b)),
{
}

pub proof fn lemma_mask_wf_ops(m: u16, o: u16)
    by (bit_vector)
    ensures
        mask_wf(m) ==> mask_wf(m & !o),
        mask_wf(m) ==> mask_wf(m & o),
{
}

pub proof fn lemma_full_mask(b: u8)
    by (bit_vector)
    requires
        b <= 9,
    ensures
        mask_has(FULL_MASK, b) == (1 <= b),
        mask_wf(FULL_MASK),
{
}

pub proof fn lemma_fixed_bit(v: u8, b: u8)
    by (bit_vector)
    requires
        v <= 9,
        b <= 9,
    ensures
        mask_has(val_bit(v), b) == (b == v),
{
}

/// A count over `from..=9` never exceeds the width of that range.
pub proof fn lemma_count_bound(m: u16, from: u8)
    ensures
        mask_count_from(m, from)
            <= (if from <= 9 {
            10 - from
        } else {
            0
        }),
    decreases 10 - from,
{
    if from <= 9 {
        lemma_count_bound(m, (from + 1) as u8);
    }
}

pub proof fn lemma_mask_set(m: u16, a: u8, b: u8)
    by (bit_vector)
    requires
        a <= 9,
        b <= 9,
    ensures
        mask_has(m | val_bit(a), b) == (mask_has(m, b) || a == b),
{
}

/// If a value `from..=9` is present, at least one value is counted.
pub proof fn lemma_count_pos(m: u16, from: u8, v: u8)
    requires
        from <= v <= 9,
        mask_has(m, v),
    ensures
        mask_count_from(m, from) >= 1,
    decreases 10 - from,
{
    lemma_count_bound(m, (from + 1) as u8);
    if from < v {
        lemma_count_pos(m, (from + 1) as u8, v);
    }
}

/// Two distinct present values force a count of at least two.
pub proof fn lemma_count_two(m: u16, from: u8, v: u8, w: u8)
    requires
        from <= v < w <= 9,
        mask_has(m, v),
        mask_has(m, w),
    ensures
        mask_count_from(m, from) >= 2,
    decreases 10 - from,
{
    lemma_count_bound(m, (from + 1) as u8);
    if from < v {
        lemma_count_two(m, (from + 1) as u8, v, w);
    } else {
        lemma_count_pos(m, (from + 1) as u8, w);
    }
}

/// The smallest value `from..=9` present in `m`, if any.
pub open spec fn first_cand_from(m: u16, from: u8) -> Option<u8>
    decreases 10 - from,
{
    if from > 9 {
        None
    } else if mask_has(m, from) {
        Some(from)
    } else {
        first_cand_from(m, (from + 1) as u8)
    }
}

/// A present value with nothing present below it is the first candidate.
pub proof fn lemma_first_cand(m: u16, from: u8, v: u8)
    requires
        from <= v <= 9,
        mask_has(m, v),
        forall|w: u8| from <= w < v ==> !mask_has(m, w),
    ensures
        first_cand_from(m, from) == Some(v),
    decreases 10 - from,
{
    if from < v {
        lemma_first_cand(m, (from + 1) as u8, v);
    }
}

/// An empty range of present values counts zero.
pub proof fn lemma_count_none(m: u16, from: u8)
    requires
        forall|w: u8| from <= w <= 9 ==> !mask_has(m, w),
    ensures
        mask_count_from(m, from) == 0,
    decreases 10 - from,
{
    if from <= 9 {
        lemma_count_none(m, (from + 1) as u8);
    }
}

/// A mask with exactly one present value counts exactly one.
pub proof fn lemma_count_single(m: u16, from: u8, k: u8)
    requires
        k <= 9,
        mask_has(m, k),
        forall|j: u8| j <= 9 && j != k ==> !mask_has(m, j),
    ensures
        mask_count_from(m, from)
            == (if from <= k {
            1u16
        } else {
            0u16
        }),
    decreases 10 - from,
{
    if from <= 9 {
        lemma_count_single(m, (from + 1) as u8, k);
    }
}

/// A mask with exactly two present values counts exactly two.
pub proof fn lemma_count_pair(m: u16, from: u8, k1: u8, k2: u8)
    requires
        k1 < k2 <= 9,
        mask_has(m, k1),
        mask_has(m, k2),
        forall|j: u8| j <= 9 && j != k1 && j != k2 ==> !mask_has(m, j),
    ensures
        mask_count_from(m, from)
            == (if from <= k1 {
            2u16
        } else if from <= k2 {
            1u16
        } else {
            0u16
        }),
    decreases 10 - from,
{
    if from <= 9 {
        lemma_count_pair(m, (from + 1) as u8, k1, k2);
    }
}

/// Setting a low bit keeps a mask within the low nine bits.
pub proof fn lemma_mask_or_low(m: u16, a: u8)
    by (bit_vector)
    requires
        m & 0x01FF == m,
        a <= 8,
    ensures
        (m | val_bit(a)) & 0x01FF == (m | val_bit(a)),
{
}

/// Two masks within the low nine bits that agree on each of them are equal.
pub proof fn lemma_mask_eq_low(m1: u16, m2: u16)
    by (bit_vector)
    requires
        m1 & 0x01FF == m1,
        m2 & 0x01FF == m2,
        mask_has(m1, 0) == mask_has(m2, 0),
        mask_has(m1, 1) == mask_has(m2, 1),
        mask_has(m1, 2) == mask_has(m2, 2),
        mask_has(m1, 3) == mask_has(m2, 3),
        mask_has(m1, 4) == mask_has(m2, 4),
        mask_has(m1, 5) == mask_has(m2, 5),
        mask_has(m1, 6) == mask_has(m2, 6),
        mask_has(m1, 7) == mask_has(m2, 7),
        mask_has(m1, 8) == mask_has(m2, 8),
    ensures
        m1 == m2,
{
}

/// Three distinct present values force a count of at least three.
pub proof fn lemma_count_three(m: u16, from: u8, u: u8, v: u8, w: u8)
    requires
        from <= u < v < w <= 9,
        mask_has(m, u),
        mask_has(m, v),
        mask_has(m, w),
    ensures
        mask_count_from(m, from) >= 3,
    decreases 10 - from,
{
    lemma_count_bound(m, (from + 1) as u8);
    if from < u {
        lemma_count_three(m, (from + 1) as u8, u, v, w);
    } else {
        lemma_count_two(m, (from + 1) as u8, v, w);
    }
}

/// A positive count yields a present value.
pub proof fn lemma_count_extract_one(m: u16, from: u8) -> (v: u8)
    requires
        from <= 9,
        mask_count_from(m, from) >= 1,
    ensures
        from <= v <= 9 && mask_has(m, v),
    decreases 10 - from,
{
    lemma_count_bound(m, (from + 1) as u8);
    if mask_has(m, from) {
        from
    } else {
        assert(from < 9);
        lemma_count_extract_one(m, (from + 1) as u8)
    }
}

/// A count of at least two yields two distinct present values.
pub proof fn lemma_count_extract_two(m: u16, from: u8) -> (r: (u8, u8))
    requires
        from <= 9,
        mask_count_from(m, from) >= 2,
    ensures
        from <= r.0 < r.1 <= 9 && mask_has(m, r.0) && mask_has(m, r.1),
    decreases 10 - from,
{
    lemma_count_bound(m, (from + 1) as u8);
    if mask_has(m, from) {
        assert(from < 9);
        let v = lemma_count_extract_one(m, (from + 1) as u8);
        (from, v)
    } else {
        assert(from < 9);
        lemma_count_extract_two(m, (from + 1) as u8)
    }
}

/// A count of at least three yields three distinct present values.
pub proof fn lemma_count_extract_three(m: u16, from: u8) -> (r: (u8, u8, u8))
    requires
        from <= 9,
        mask_count_from(m, from) >= 3,
    ensures
        from <= r.0 < r.1 < r.2 <= 9 && mask_has(m, r.0) && mask_has(m, r.1) && mask_has(m, r.2),
    decreases 10 - from,
{
    lemma_count_bound(m, (from + 1) as u8);
    if mask_has(m, from) {
        assert(from < 9);
        let vw = lemma_count_extract_two(m, (from + 1) as u8);
        (from, vw.0, vw.1)
    } else {
        assert(from < 9);
        lemma_count_extract_three(m, (from + 1) as u8)
    }
}

/// Striking values never raises the count, and strictly lowers it when a
/// counted bit goes away.
pub proof fn lemma_count_sub(m: u16, o: u16)
    by (bit_vector)
    requires
        mask_wf(m),
    ensures
        mask_count(m & !o) <= mask_count(m),
        (m & !o) != m ==> mask_count(m & !o) < mask_count(m),
{
}

/// A bitwise-included well-formed mask is a submask.
pub proof fn lemma_submask_of_bits(m1: u16, m2: u16)
    by (bit_vector)
    requires
        mask_wf(m1),
        mask_wf(m2),
        mask_has(m2, 1) ==> mask_has(m1, 1),
        mask_has(m2, 2) ==> mask_has(m1, 2),
        mask_has(m2, 3) ==> mask_has(m1, 3),
        mask_has(m2, 4) ==> mask_has(m1, 4),
        mask_has(m2, 5) ==> mask_has(m1, 5),
        mask_has(m2, 6) ==> mask_has(m1, 6),
        mask_has(m2, 7) ==> mask_has(m1, 7),
        mask_has(m2, 8) ==> mask_has(m1, 8),
        mask_has(m2, 9) ==> mask_has(m1, 9),
    ensures
        m2 & m1 == m2,
{
}

/// A proper submask has strictly fewer values.
pub proof fn lemma_count_submask_strict(m1: u16, m2: u16)
    by (bit_vector)
    requires
        mask_wf(m1),
        mask_wf(m2),
        m2 & m1 == m2,
        m2 != m1,
    ensures
        mask_count(m2) < mask_count(m1),
{
}

/// What striking a value from a cell does: a fixed cell is untouched, an open
/// cell keeps its other candidates, and well-formedness is preserved.
pub proof fn lemma_spec_removed(c: SCell, v: u8)
    requires
        1 <= v <= 9,
    ensures
        c.wf() ==> c.spec_removed(v).wf(),
        c is Fixed ==> c.spec_removed(v) == c,
        c is Possible ==> c.spec_removed(v) is Possible,
        forall|w: u8|
            w <= 9 ==> #[trigger] c.spec_removed(v).spec_has(w) == (c.spec_has(w) && !(c
                is Possible && w == v)),
        cell_narrows(c, c.spec_removed(v)),
        c.wf() ==> c.spec_removed(v).count() <= c.count(),
        c.wf() && c.spec_removed(v) != c ==> c.spec_removed(v).count() < c.count(),
{
    match c {
        SCell::Fixed(_) => {},
        SCell::Possible(m) => {
            assert forall|w: u8| w <= 9 implies #[trigger] mask_has(m & !val_bit(v), w) == (
            mask_has(m, w) && w != v) by {
                lemma_mask_remove(m, v, w);
            }
            lemma_mask_wf_ops(m, val_bit(v));
            if c.wf() {
                lemma_count_sub(m, val_bit(v));
            }
        },
    }
}

/// What striking a whole value set from a cell does, and that it only ever
/// shrinks the cell.
pub proof fn lemma_spec_removed_all(c: SCell, o: SCell)
    requires
        o.wf(),
    ensures
        c.wf() ==> c.spec_removed_all(o).wf(),
        c is Fixed ==> c.spec_removed_all(o) == c,
        c is Possible ==> c.spec_removed_all(o) is Possible,
        c is Possible ==> forall|w: u8|
            w <= 9 ==> #[trigger] c.spec_removed_all(o).spec_has(w) == (c.spec_has(w)
                && !o.spec_has(w)),
        cell_narrows(c, c.spec_removed_all(o)),
        c.wf() ==> c.spec_removed_all(o).count() <= c.count(),
        c.wf() && c.spec_removed_all(o) != c ==> c.spec_removed_all(o).count() < c.count(),
{
    match c {
        SCell::Fixed(_) => {},
        SCell::Possible(m) => {
            assert forall|w: u8| w <= 9 implies #[trigger] mask_has(m & !o.mask(), w) == (mask_has(
                m,
                w,
            ) && !o.spec_has(w)) by {
                lemma_mask_diff(m, o.mask(), w);
                if o is Fixed {
                    lemma_fixed_bit(o->Fixed_0, w);
                }
            }
            lemma_mask_wf_ops(m, o.mask());
            if c.wf() {
                lemma_count_sub(m, o.mask());
            }
        },
    }
}

/// Striking the same value twice is the same as striking it once.
pub proof fn lemma_spec_removed_idem(c: SCell, v: u8)
    ensures
        c.spec_removed(v).spec_removed(v) == c.spec_removed(v),
{
    match c {
        SCell::Fixed(_) => {},
        SCell::Possible(m) => {
            let b = val_bit(v);
            assert((m & !b) & !b == m & !b) by (bit_vector);
        },
    }
}

/// A board position: the value is either settled (`Fixed`) or still a set of
/// candidates (`Possible`), encoded as a bitmask over the values 1..=9.
#[derive(Copy, Clone, PartialEq, Eq, Debug, Structural)]
pub enum SCell {
    Fixed(u8),
    Possible(u16),
}

/// Per-cell monotonic narrowing: the new state never gains a candidate, and a
/// settled cell never changes.
pub open spec fn cell_narrows(before: SCell, after: SCell) -> bool {
    &&& (before is Fixed ==> after == before)
    &&& forall|v: u8| v <= 9 && #[trigger] after.spec_has(v) ==> before.spec_has(v)
}

impl SCell {
    /// The candidate mask: a fixed value counts as the one-bit set of itself.
    pub open spec fn mask(self) -> u16 {
        match self {
            SCell::Fixed(v) => val_bit(v),
            SCell::Possible(m) => m,
        }
    }

    /// Whether this cell can still hold value `v`.
    pub open spec fn spec_has(self, v: u8) -> bool {
        match self {
            SCell::Fixed(f) => f == v,
            SCell::Possible(m) => mask_has(m, v),
        }
    }

    /// Well-formedness: values in 1..=9 only.
    pub open spec fn wf(self) -> bool {
        match self {
            SCell::Fixed(v) => 1 <= v <= 9,
            SCell::Possible(m) => mask_wf(m),
        }
    }

    /// The number of remaining candidates (0 once fixed).
    pub open spec fn count(self) -> u16 {
        match self {
            SCell::Fixed(_) => 0u16,
            SCell::Possible(m) => mask_count(m),
        }
    }

    /// The cell after value `v` is struck from a candidate set.
    pub open spec fn spec_removed(self, v: u8) -> SCell {
        match self {
            SCell::Fixed(_) => self,
            SCell::Possible(m) => SCell::Possible(m & !val_bit(v)),
        }
    }

    /// The cell after every value of `other` is struck from a candidate set.
    pub open spec fn spec_removed_all(self, other: SCell) -> SCell {
        match self {
            SCell::Fixed(_) => self,
            SCell::Possible(m) => SCell::Possible(m & !other.mask()),
        }
    }

    /// Membership test for value `val`.
    pub fn has(&self, val: u8) -> (r: bool)
        requires
            1 <= val <= 9,
        ensures
            r == self.spec_has(val),
    {
        match *self {
            SCell::Fixed(v) => v == val,
            SCell::Possible(f) => (f & (1u16 << (val as u16))) != 0,
        }
    }

    /// Strike `val` from a candidate set.  Succeeds on any `Possible` cell,
    /// including when `val` was already absent; fails only on a `Fixed` cell.
    pub fn remove(&mut self, val: u8) -> (r: bool)
        requires
            1 <= val <= 9,
        ensures
            r == !(*old(self) is Fixed),
            *final(self) == old(self).spec_removed(val),
            *old(self) is Possible ==> forall|w: u8|
                w <= 9 ==> #[trigger] final(self).spec_has(w) == (old(self).spec_has(w) && w
                    != val),
            old(self).wf() ==> final(self).wf(),
    {
        let c = *self;
        match c {
            SCell::Fixed(_) => false,
            SCell::Possible(f) => {
                if (f & (1u16 << (val as u16))) == 0 {
                    // Already absent, so removal is a successful no-op.
                    proof {
                        lemma_mask_remove_absent(f, val);
                        assert forall|w: u8| w <= 9 implies #[trigger] self.spec_has(w) == (old(
                            self,
                        ).spec_has(w) && w != val) by {
                            lemma_mask_remove(f, val, w);
                        }
                    }
                    true
                } else {
                    let left = f & !(1u16 << (val as u16));
                    *self = SCell::Possible(left);
                    proof {
                        assert forall|w: u8| w <= 9 implies #[trigger] self.spec_has(w) == (old(
                            self,
                        ).spec_has(w) && w != val) by {
                            lemma_mask_remove(f, val, w);
                        }
                        lemma_mask_wf_ops(f, val_bit(val));
                    }
                    true
                }
            },
        }
    }

    /// Strike every value of `other` from a candidate set; reports whether the
    /// mask actually changed.
    pub fn remove_all(&mut self, other: SCell) -> (r: bool)
        requires
            other.wf(),
        ensures
            *final(self) == old(self).spec_removed_all(other),
            r == (*final(self) != *old(self)),
            *old(self) is Possible ==> forall|w: u8|
                w <= 9 ==> #[trigger] final(self).spec_has(w) == (old(self).spec_has(w)
                    && !other.spec_has(w)),
            old(self).wf() ==> final(self).wf(),
    {
        let val: u16 = match other {
            SCell::Fixed(v) => 1u16 << (v as u16),
            SCell::Possible(v) => v,
        };
        let c = *self;
        match c {
            SCell::Fixed(_) => false,
            SCell::Possible(f) => {
                let newf = f & !val;
                proof {
                    assert forall|w: u8| w <= 9 implies #[trigger] mask_has(newf, w) == (mask_has(
                        f,
                        w,
                    ) && !other.spec_has(w)) by {
                        lemma_mask_diff(f, val, w);
                        if other is Fixed {
                            lemma_fixed_bit(other->Fixed_0, w);
                        }
                    }
                    lemma_mask_wf_ops(f, val);
                }
                if f != newf {
                    *self = SCell::Possible(newf);
                    true
                } else {
                    false
                }
            },
        }
    }

    /// The shared candidates of two cells, as a candidate set.
    pub fn intersect(&self, other: &SCell) -> (r: SCell)
        requires
            self.wf(),
            other.wf(),
        ensures
            r == SCell::Possible(self.mask() & other.mask()),
            r.wf(),
            forall|w: u8|
                w <= 9 ==> #[trigger] r.spec_has(w) == (self.spec_has(w) && other.spec_has(w)),
    {
        let m1 = self.mask_bits();
        let m2 = other.mask_bits();
        proof {
            assert forall|w: u8| w <= 9 implies #[trigger] mask_has(m1 & m2, w) == (
            self.spec_has(w) && other.spec_has(w)) by {
                lemma_mask_and(m1, m2, w);
                if self is Fixed {
                    lemma_fixed_bit(self->Fixed_0, w);
                }
                if other is Fixed {
                    lemma_fixed_bit(other->Fixed_0, w);
                }
            }
            lemma_mask_wf_ops_fixed(*self);
            lemma_mask_wf_ops(self.mask(), m2);
        }
        SCell::Possible(m1 & m2)
    }

    /// The remaining values, as an ascending, restartable cursor over 1..=9.
    pub fn values(&self) -> (r: CellValues)
        requires
            self.wf(),
        ensures
            r.mask() == self.mask(),
            r.cursor() == 0,
            r.wf(),
    {
        match *self {
            SCell::Fixed(n) => CellValues::new(1u16 << (n as u16)),
            SCell::Possible(v) => CellValues::new(v),
        }
    }

    /// The number of remaining candidates: 0 once fixed, else the popcount.
    pub fn possibilities(&self) -> (r: usize)
        ensures
            r == self.count(),
    {
        match *self {
            SCell::Fixed(_) => 0,
            SCell::Possible(m) => {
                let mut n: usize = 0;
                let mut v: u8 = 1;
                while v <= 9
                    invariant
                        1 <= v <= 10,
                        n + mask_count_from(m, v) == mask_count(m),
                        n < v,
                    decreases 10 - v,
                {
                    proof {
                        lemma_count_bound(m, (v + 1) as u8);
                    }
                    if (m & (1u16 << (v as u16))) != 0 {
                        n = n + 1;
                    }
                    v = v + 1;
                }
                n
            },
        }
    }

    fn mask_bits(&self) -> (r: u16)
        requires
            self.wf(),
        ensures
            r == self.mask(),
    {
        match *self {
            SCell::Fixed(v) => 1u16 << (v as u16),
            SCell::Possible(m) => m,
        }
    }
}

proof fn lemma_mask_wf_ops_fixed(c: SCell)
    requires
        c.wf(),
    ensures
        mask_wf(c.mask()),
{
    match c {
        SCell::Fixed(v) => {
            assert(mask_wf(val_bit(v))) by (bit_vector)
                requires
                    1 <= v <= 9,
            ;
        },
        SCell::Possible(_) => {},
    }
}

impl Default for SCell {
    /// A fresh cell: every value 1..=9 still viable.
    fn default() -> (r: Self)
        ensures
            r == SCell::Possible(FULL_MASK),
            r.wf(),
    {
        proof {
            lemma_full_mask(1);
        }
        SCell::Possible(FULL_MASK)
    }
}

/// An ascending cursor over the values of a candidate mask.
pub struct CellValues {
    v: u16,
    pos: u8,
}

impl CellValues {
    pub closed spec fn mask(self) -> u16 {
        self.v
    }

    pub closed spec fn cursor(self) -> u8 {
        self.pos
    }

    pub closed spec fn wf(self) -> bool {
        self.pos <= 10
    }

    pub(crate) fn new(v: u16) -> (r: Self)
        ensures
            r.mask() == v,
            r.cursor() == 0,
            r.wf(),
    {
        Self { v, pos: 0 }
    }

    /// The next value, in ascending order, still present past the cursor.
    pub fn next(&mut self) -> (r: Option<u8>)
        requires
            old(self).wf(),
        ensures
            final(self).wf(),
            final(self).mask() == old(self).mask(),
            match r {
                Some(v) => {
                    &&& old(self).cursor() < v <= 9
                    &&& mask_has(old(self).mask(), v)
                    &&& forall|w: u8|
                        old(self).cursor() < w < v ==> !mask_has(old(self).mask(), w)
                    &&& final(self).cursor() == v
                },
                None => {
                    &&& forall|w: u8|
                        old(self).cursor() < w <= 9 ==> !mask_has(old(self).mask(), w)
                    &&& final(self).cursor() > 9
                },
            },
    {
        while self.pos < 9
            invariant
                self.v == old(self).mask(),
                old(self).cursor() <= self.pos <= 10,
                forall|w: u8| old(self).cursor() < w <= self.pos ==> !mask_has(self.v, w),
            decreases 9 - self.pos,
        {
            self.pos = self.pos + 1;
            if (self.v & (1u16 << (self.pos as u16))) != 0 {
                return Some(self.pos);
            }
        }
        self.pos = 10;
        None
    }
}

} // verus!
