//! 9-bit value masks.  A mask stores, in bits 1 through 9, which of the
//! Sudoku values 1..=9 belong to a set: candidate sets of cells, placed
//! values of a block, and per-line candidate masks all use this shape.

use vstd::prelude::*;

verus! {

/// Bits 1..=9 set: the mask holding every Sudoku value.
pub const FULL_MASK: u16 = 0x3fe;

/// Value `v` is a member of mask `m` (only values 1..=9 are ever members).
pub open spec fn mask_has(m: u16, v: u16) -> bool {
    1 <= v <= 9 && (m >> v) & 1u16 == 1u16
}

/// The members of `m` that are below `n`, in ascending order.
pub open spec fn mask_values_below(m: u16, n: int) -> Seq<u8>
    decreases n,
{
    if n <= 1 {
        Seq::empty()
    } else {
        mask_values_below(m, n - 1)
            + (if mask_has(m, (n - 1) as u16) {
                seq![(n - 1) as u8]
            } else {
                Seq::<u8>::empty()
            })
    }
}

/// All members of `m`, ascending.
pub open spec fn mask_values(m: u16) -> Seq<u8> {
    mask_values_below(m, 10)
}

/// How many values the mask holds.
pub open spec fn mask_count(m: u16) -> int {
    mask_values(m).len() as int
}

/// The mask keeps within bits 1..=9, the only bits the model uses.
pub open spec fn mask_bounded(m: u16) -> bool {
    m & !FULL_MASK == 0
}

/// The full mask and the empty mask are in bounds, and clearing or
/// setting a value's bit keeps a mask in bounds.
pub proof fn lemma_mask_bounded(m: u16, v: u16)
    by (bit_vector)
    requires
        1 <= v <= 9,
    ensures
        mask_bounded(FULL_MASK),
        mask_bounded(0u16),
        mask_bounded(m) ==> mask_bounded(m & !(1u16 << v)),
        mask_bounded(m) ==> mask_bounded(m | (1u16 << v)),
{
}

/// Clearing bit `v` removes exactly `v` from the mask.
pub proof fn lemma_mask_clear(m: u16, v: u16)
    by (bit_vector)
    requires
        1 <= v <= 9,
    ensures
        forall|w: u16| (#[trigger] mask_has(m & !(1u16 << v), w)) <==> (mask_has(m, w) && w != v),
{
}

/// Setting bit `v` adds exactly `v` to the mask.
pub proof fn lemma_mask_set(m: u16, v: u16)
    by (bit_vector)
    requires
        1 <= v <= 9,
    ensures
        forall|w: u16| (#[trigger] mask_has(m | (1u16 << v), w)) <==> (mask_has(m, w) || w == v),
{
}

/// The full mask holds every value 1..=9 and the zero mask holds none.
pub proof fn lemma_mask_full_empty()
    by (bit_vector)
    ensures
        forall|w: u16| (#[trigger] mask_has(FULL_MASK, w)) <==> 1 <= w <= 9,
        forall|w: u16| !(#[trigger] mask_has(0u16, w)),
{
}

/// The zero mask holds no values at all.
pub proof fn lemma_mask_count_zero(n: int)
    requires
        n <= 10,
    ensures
        mask_values_below(0u16, n).len() == 0,
    decreases n,
{
    if n > 1 {
        lemma_mask_count_zero(n - 1);
        lemma_mask_full_empty();
    }
}

/// A mask without any member has an empty value sequence.
pub proof fn lemma_mask_values_empty(m: u16, n: int)
    requires
        n <= 10,
        forall|w: u16| !mask_has(m, w),
    ensures
        mask_values_below(m, n).len() == 0,
    decreases n,
{
    if n > 1 {
        lemma_mask_values_empty(m, n - 1);
    }
}

/// At most one value per bit: the count below `n` is below `n`.
proof fn lemma_mask_count_bound(m: u16, n: int)
    ensures
        mask_values_below(m, n).len() <= (if n <= 1 {
            0int
        } else {
            n - 1
        }),
    decreases n,
{
    if n > 1 {
        lemma_mask_count_bound(m, n - 1);
    }
}

/// A missing value below `n` lowers the count bound by one.
proof fn lemma_mask_count_missing(m: u16, v: u16, n: int)
    requires
        1 <= v <= 9,
        !mask_has(m, v),
        (v as int) < n,
        n <= 10,
    ensures
        mask_values_below(m, n).len() <= n - 2,
    decreases n,
{
    if n - 1 == v as int {
        lemma_mask_count_bound(m, n - 1);
    } else {
        lemma_mask_count_missing(m, v, n - 1);
    }
}

/// A mask of count nine holds every value 1..=9.
pub proof fn lemma_full_count_has_all(m: u16, v: u16)
    requires
        mask_count(m) == 9,
        1 <= v <= 9,
    ensures
        mask_has(m, v),
{
    if !mask_has(m, v) {
        lemma_mask_count_missing(m, v, 10);
    }
}

/// The values 1..=9 that `m` lacks are the members of `!m & FULL_MASK`.
pub proof fn lemma_mask_missing(m: u16)
    by (bit_vector)
    ensures
        forall|w: u16| (#[trigger] mask_has(!m & FULL_MASK, w)) <==> (1 <= w <= 9 && !mask_has(
            m,
            w,
        )),
{
}

/// Clearing a bit twice is the same as clearing it once.
pub proof fn lemma_mask_clear_twice(m: u16, v: u16)
    by (bit_vector)
    requires
        1 <= v <= 9,
    ensures
        (m & !(1u16 << v)) & !(1u16 << v) == m & !(1u16 << v),
{
}

/// True iff `v` is a member of mask `m`.
pub fn mask_test(m: u16, v: u8) -> (r: bool)
    requires
        1 <= v <= 9,
    ensures
        r == mask_has(m, v as u16),
{
    (m >> (v as u16)) & 1u16 == 1u16
}

/// How many values mask `m` holds.
pub fn count_mask_values(m: u16) -> (r: u8)
    ensures
        r as int == mask_count(m),
{
    let mut count: u8 = 0;
    let mut val: u16 = 1;
    while val < 10
        invariant
            1 <= val <= 10,
            count as int == mask_values_below(m, val as int).len(),
            count < val,
        decreases 10 - val,
    {
        if (m >> val) & 1u16 == 1u16 {
            count += 1;
        }
        val += 1;
    }
    count
}

/// Membership in `mask_values_below` is membership in the mask, bounded by `n`.
pub proof fn lemma_mask_values_below_contains(m: u16, n: int, v: u8)
    requires
        1 <= n <= 10,
    ensures
        mask_values_below(m, n).contains(v) <==> (mask_has(m, v as u16) && (v as int) < n),
    decreases n,
{
    if n > 1 {
        lemma_mask_values_below_contains(m, n - 1, v);
        let prev = mask_values_below(m, n - 1);
        let tail: Seq<u8> = if mask_has(m, (n - 1) as u16) {
            seq![(n - 1) as u8]
        } else {
            Seq::<u8>::empty()
        };
        let cur = mask_values_below(m, n);
        assert(cur == prev + tail);
        if cur.contains(v) {
            let i = choose|i: int| 0 <= i < cur.len() && cur[i] == v;
            if i < prev.len() {
                assert(prev[i] == v);
                assert(prev.contains(v));
            } else {
                assert(tail[i - prev.len()] == v);
            }
        }
        if mask_has(m, v as u16) && (v as int) < n {
            if (v as int) < n - 1 {
                let i = choose|i: int| 0 <= i < prev.len() && prev[i] == v;
                assert(cur[i] == v);
                assert(cur.contains(v));
            } else {
                assert(cur[prev.len() as int] == v);
                assert(cur.contains(v));
            }
        }
    }
}

} // verus!
