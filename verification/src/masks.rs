//! Candidate masks: nine-bit sets over the digits 1 to 9.
//!
//! Bit `d - 1` of a mask stands for digit `d`. Everything the solver needs to
//! know about a mask is phrased through [`has_digit`] and
//! [`candidate_count`]; the lemmas at the end of the file connect the bitwise
//! operators to those two.
use vstd::prelude::*;

verus! {

/// The mask in which every digit is still possible.
pub const CELL_RESET_MASK: usize = 0x1FF;

/// The mask whose only member is digit `d`; empty for anything but 1 to 9.
pub open spec fn digit_mask(d: int) -> usize {
    if d == 1 {
        0x001
    } else if d == 2 {
        0x002
    } else if d == 3 {
        0x004
    } else if d == 4 {
        0x008
    } else if d == 5 {
        0x010
    } else if d == 6 {
        0x020
    } else if d == 7 {
        0x040
    } else if d == 8 {
        0x080
    } else if d == 9 {
        0x100
    } else {
        0
    }
}

/// Whether `mask` is the mask of exactly one digit.
pub open spec fn is_digit_mask(mask: usize) -> bool {
    exists|d: int| 1 <= d <= 9 && mask == #[trigger] digit_mask(d)
}

/// Whether digit `d` is a member of `mask`.
pub open spec fn has_digit(mask: usize, d: int) -> bool {
    mask & digit_mask(d) != 0
}

/// One if `b` holds, zero otherwise.
pub open spec fn one_if(b: bool) -> nat {
    if b {
        1
    } else {
        0
    }
}

/// How many of the digits 1 to 9 are members of `mask`.
pub open spec fn candidate_count(mask: usize) -> nat {
    one_if(has_digit(mask, 1)) + one_if(has_digit(mask, 2)) + one_if(has_digit(mask, 3)) + one_if(
        has_digit(mask, 4),
    ) + one_if(has_digit(mask, 5)) + one_if(has_digit(mask, 6)) + one_if(has_digit(mask, 7))
        + one_if(has_digit(mask, 8)) + one_if(has_digit(mask, 9))
}

/// The smallest digit that is a member of `mask`, or 0 if there is none.
pub open spec fn lowest_digit(mask: usize) -> int {
    if has_digit(mask, 1) {
        1
    } else if has_digit(mask, 2) {
        2
    } else if has_digit(mask, 3) {
        3
    } else if has_digit(mask, 4) {
        4
    } else if has_digit(mask, 5) {
        5
    } else if has_digit(mask, 6) {
        6
    } else if has_digit(mask, 7) {
        7
    } else if has_digit(mask, 8) {
        8
    } else if has_digit(mask, 9) {
        9
    } else {
        0
    }
}

/// Whether every member of `a` is a member of `b`.
pub open spec fn mask_within(a: usize, b: usize) -> bool {
    a & b == a
}

/// `1 << k` is the mask of digit `k + 1`.
pub proof fn lemma_shift_is_digit_mask(k: usize)
    requires
        k < 9,
    ensures
        1usize << k == digit_mask(k + 1),
{
    assert(k < 9 ==> (k == 0 ==> 1usize << k == 0x001) && (k == 1 ==> 1usize << k == 0x002) && (k
        == 2 ==> 1usize << k == 0x004) && (k == 3 ==> 1usize << k == 0x008) && (k == 4 ==> 1usize
        << k == 0x010) && (k == 5 ==> 1usize << k == 0x020) && (k == 6 ==> 1usize << k == 0x040)
        && (k == 7 ==> 1usize << k == 0x080) && (k == 8 ==> 1usize << k == 0x100))
        by (bit_vector);
}

/// Two digit masks overlap only if they are masks of the same digit.
pub proof fn lemma_digit_masks_disjoint(d: int, e: int)
    requires
        1 <= d <= 9,
        1 <= e <= 9,
    ensures
        has_digit(digit_mask(d), e) <==> d == e,
        digit_mask(d) <= 0x1FF,
        digit_mask(d) != 0,
{
    let j: usize = (d - 1) as usize;
    let k: usize = (e - 1) as usize;
    lemma_shift_is_digit_mask(j);
    lemma_shift_is_digit_mask(k);
    assert(((1usize << j) & (1usize << k) != 0 <==> j == k) && (1usize << j) <= 0x1FF && (1usize
        << j) != 0) by (bit_vector)
        requires
            j < 9,
            k < 9,
    ;
}

/// Membership in `a & !b`: in `a` and not in `b`.
pub proof fn lemma_has_digit_and_not(a: usize, b: usize, d: int)
    requires
        1 <= d <= 9,
    ensures
        has_digit(a & !b, d) <==> has_digit(a, d) && !has_digit(b, d),
{
    let k: usize = (d - 1) as usize;
    lemma_shift_is_digit_mask(k);
    assert(((a & !b) & (1usize << k) != 0) <==> ((a & (1usize << k) != 0) && !(b & (1usize << k)
        != 0))) by (bit_vector)
        requires
            k < 9,
    ;
}

/// A mask holds a digit's mask whole exactly if the digit is a member.
pub proof fn lemma_has_digit_whole(mask: usize, d: int)
    requires
        1 <= d <= 9,
    ensures
        mask & digit_mask(d) == digit_mask(d) <==> has_digit(mask, d),
{
    let k: usize = (d - 1) as usize;
    lemma_shift_is_digit_mask(k);
    assert((mask & (1usize << k) == (1usize << k)) <==> (mask & (1usize << k) != 0)) by (bit_vector)
        requires
            k < 9,
    ;
}

/// Membership in `a | b`: in `a` or in `b`.
pub proof fn lemma_has_digit_or(a: usize, b: usize, d: int)
    requires
        1 <= d <= 9,
    ensures
        has_digit(a | b, d) <==> has_digit(a, d) || has_digit(b, d),
{
    let c = digit_mask(d);
    assert(((a | b) & c != 0) <==> ((a & c != 0) || (b & c != 0))) by (bit_vector);
}

/// A mask within another passes its members on.
pub proof fn lemma_mask_within_has_digit(a: usize, b: usize, d: int)
    requires
        mask_within(a, b),
        has_digit(a, d),
    ensures
        has_digit(b, d),
{
    let c = digit_mask(d);
    assert((a & b == a && a & c != 0) ==> b & c != 0) by (bit_vector);
}

/// Among nine-bit masks, `a` lies within `b` as soon as each of its digits does.
pub proof fn lemma_mask_within_by_digits(a: usize, b: usize)
    requires
        a <= 0x1FF,
        forall|d: int| 1 <= d <= 9 && has_digit(a, d) ==> has_digit(b, d),
    ensures
        mask_within(a, b),
{
    assert(has_digit(a, 1) ==> has_digit(b, 1));
    assert(has_digit(a, 2) ==> has_digit(b, 2));
    assert(has_digit(a, 3) ==> has_digit(b, 3));
    assert(has_digit(a, 4) ==> has_digit(b, 4));
    assert(has_digit(a, 5) ==> has_digit(b, 5));
    assert(has_digit(a, 6) ==> has_digit(b, 6));
    assert(has_digit(a, 7) ==> has_digit(b, 7));
    assert(has_digit(a, 8) ==> has_digit(b, 8));
    assert(has_digit(a, 9) ==> has_digit(b, 9));
    assert(a & b == a) by (bit_vector)
        requires
            a <= 0x1FF,
            a & 0x001 != 0 ==> b & 0x001 != 0,
            a & 0x002 != 0 ==> b & 0x002 != 0,
            a & 0x004 != 0 ==> b & 0x004 != 0,
            a & 0x008 != 0 ==> b & 0x008 != 0,
            a & 0x010 != 0 ==> b & 0x010 != 0,
            a & 0x020 != 0 ==> b & 0x020 != 0,
            a & 0x040 != 0 ==> b & 0x040 != 0,
            a & 0x080 != 0 ==> b & 0x080 != 0,
            a & 0x100 != 0 ==> b & 0x100 != 0,
    ;
}

/// Two nine-bit masks with the same members are the same mask.
pub proof fn lemma_mask_equal_by_digits(a: usize, b: usize)
    requires
        a <= 0x1FF,
        b <= 0x1FF,
        forall|d: int| 1 <= d <= 9 ==> (has_digit(a, d) <==> has_digit(b, d)),
    ensures
        a == b,
{
    lemma_mask_within_by_digits(a, b);
    lemma_mask_within_by_digits(b, a);
    assert(a == b) by (bit_vector)
        requires
            a & b == a,
            b & a == b,
    ;
}

/// Removing members from, or joining, nine-bit masks stays within nine bits.
pub proof fn lemma_mask_bounds(a: usize, b: usize)
    ensures
        a <= 0x1FF ==> a & !b <= 0x1FF,
        a <= 0x1FF && b <= 0x1FF ==> a | b <= 0x1FF,
        a & b == a ==> a & (b | a) == a,
        (a | b) == 0 <==> a == 0 && b == 0,
{
    assert((a <= 0x1FF ==> a & !b <= 0x1FF) && (a <= 0x1FF && b <= 0x1FF ==> a | b <= 0x1FF) && (a
        & b == a ==> a & (b | a) == a) && ((a | b) == 0 <==> a == 0 && b == 0)) by (bit_vector);
}

/// A mask within `t` is within `t | x` and within `x | t`; every mask is within itself joined
/// with anything.
pub proof fn lemma_mask_within_or(a: usize, t: usize, x: usize)
    ensures
        mask_within(a, t) ==> mask_within(a, t | x) && mask_within(a, x | t),
        mask_within(a, t | a),
        mask_within(a, a | t),
{
    assert((a & t == a ==> a & (t | x) == a && a & (x | t) == a) && a & (t | a) == a && a & (a | t)
        == a) by (bit_vector);
}

/// The empty mask has no member, the full mask has all nine.
pub proof fn lemma_empty_and_full()
    ensures
        candidate_count(0) == 0,
        candidate_count(CELL_RESET_MASK) == 9,
        forall|d: int| !has_digit(0, d),
        forall|d: int| 1 <= d <= 9 ==> has_digit(CELL_RESET_MASK, d),
{
    assert(forall|c: usize| 0usize & c == 0) by (bit_vector);
    assert(0x1FFusize & 0x001 != 0 && 0x1FFusize & 0x002 != 0 && 0x1FFusize & 0x004 != 0
        && 0x1FFusize & 0x008 != 0 && 0x1FFusize & 0x010 != 0 && 0x1FFusize & 0x020 != 0
        && 0x1FFusize & 0x040 != 0 && 0x1FFusize & 0x080 != 0 && 0x1FFusize & 0x100 != 0)
        by (bit_vector);
}

/// A nine-bit mask with exactly one member is the mask of that digit.
pub proof fn lemma_single_candidate(mask: usize, d: int)
    requires
        mask <= 0x1FF,
        candidate_count(mask) == 1,
        1 <= d <= 9,
        has_digit(mask, d),
    ensures
        mask == digit_mask(d),
        is_digit_mask(mask),
{
    assert forall|e: int| 1 <= e <= 9 implies (has_digit(mask, e) <==> has_digit(
        digit_mask(d),
        e,
    )) by {
        lemma_digit_masks_disjoint(d, e);
    }
    lemma_digit_masks_disjoint(d, d);
    lemma_mask_equal_by_digits(mask, digit_mask(d));
}

/// The digit masks are the nine-bit masks with exactly one member.
pub proof fn lemma_digit_mask_by_count(mask: usize)
    ensures
        is_digit_mask(mask) <==> mask <= 0x1FF && candidate_count(mask) == 1,
{
    if is_digit_mask(mask) {
        let d = choose|d: int| 1 <= d <= 9 && mask == #[trigger] digit_mask(d);
        lemma_digit_mask_count(d);
        lemma_digit_masks_disjoint(d, d);
    }
    if mask <= 0x1FF && candidate_count(mask) == 1 {
        lemma_lowest_digit(mask);
        lemma_single_candidate(mask, lowest_digit(mask));
    }
}

/// A digit mask has exactly one member, the digit it was made from.
pub proof fn lemma_digit_mask_count(d: int)
    requires
        1 <= d <= 9,
    ensures
        candidate_count(digit_mask(d)) == 1,
        lowest_digit(digit_mask(d)) == d,
        has_digit(digit_mask(d), d),
{
    lemma_digit_masks_disjoint(d, 1);
    lemma_digit_masks_disjoint(d, 2);
    lemma_digit_masks_disjoint(d, 3);
    lemma_digit_masks_disjoint(d, 4);
    lemma_digit_masks_disjoint(d, 5);
    lemma_digit_masks_disjoint(d, 6);
    lemma_digit_masks_disjoint(d, 7);
    lemma_digit_masks_disjoint(d, 8);
    lemma_digit_masks_disjoint(d, 9);
}

/// A mask with at least one of the nine digits has its lowest digit as a member.
pub proof fn lemma_lowest_digit(mask: usize)
    requires
        candidate_count(mask) >= 1,
    ensures
        1 <= lowest_digit(mask) <= 9,
        has_digit(mask, lowest_digit(mask)),
        forall|d: int| 1 <= d < lowest_digit(mask) ==> !has_digit(mask, d),
{
}

/// Counts the digits 1 to 9 that are members of `mask`.
pub fn count_candidates(mask: usize) -> (n: usize)
    ensures
        n == candidate_count(mask),
        n <= 9,
{
    let mut n: usize = 0;
    if mask & 0x001 != 0 {
        n = n + 1;
    }
    if mask & 0x002 != 0 {
        n = n + 1;
    }
    if mask & 0x004 != 0 {
        n = n + 1;
    }
    if mask & 0x008 != 0 {
        n = n + 1;
    }
    if mask & 0x010 != 0 {
        n = n + 1;
    }
    if mask & 0x020 != 0 {
        n = n + 1;
    }
    if mask & 0x040 != 0 {
        n = n + 1;
    }
    if mask & 0x080 != 0 {
        n = n + 1;
    }
    if mask & 0x100 != 0 {
        n = n + 1;
    }
    n
}

/// The smallest digit that is a member of `mask`, or 0 if none of 1 to 9 is.
pub fn first_digit(mask: usize) -> (d: usize)
    ensures
        d == lowest_digit(mask),
        d <= 9,
{
    if mask & 0x001 != 0 {
        1
    } else if mask & 0x002 != 0 {
        2
    } else if mask & 0x004 != 0 {
        3
    } else if mask & 0x008 != 0 {
        4
    } else if mask & 0x010 != 0 {
        5
    } else if mask & 0x020 != 0 {
        6
    } else if mask & 0x040 != 0 {
        7
    } else if mask & 0x080 != 0 {
        8
    } else if mask & 0x100 != 0 {
        9
    } else {
        0
    }
}

/// The mask of digit `d`.
pub fn mask_of_digit(d: usize) -> (mask: usize)
    requires
        1 <= d <= 9,
    ensures
        mask == digit_mask(d as int),
        is_digit_mask(mask),
{
    proof {
        lemma_shift_is_digit_mask((d - 1) as usize);
    }
    1usize << (d - 1)
}

} // verus!
