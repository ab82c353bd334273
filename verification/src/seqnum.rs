//! Sequence numbers, and the arithmetic of the skiplist over them.

use vstd::arithmetic::power2::*;
use vstd::prelude::*;
use vstd::std_specs::bits::*;

use crate::config::{SKIPLIST_LEN, SKIPLIST_SHIFT};
use crate::Error;

verus! {

/// Position of a byte in the whole history of a file.
#[derive(Clone, Copy, PartialEq, Eq, PartialOrd, Ord, Structural, Debug)]
pub struct SeqNum(pub u32);

impl SeqNum {
    /// The distance from `other` to `self`.
    pub fn sub(self, other: SeqNum) -> (r: usize)
        requires
            other.0 <= self.0,
        ensures
            r == self.0 - other.0,
    {
        (self.0 - other.0) as usize
    }

    /// The sequence number `offs` bytes further on. Fails exactly when it does not exist.
    pub fn add(self, offs: usize) -> (r: Result<SeqNum, Error>)
        ensures
            r == (if self.0 + offs <= u32::MAX {
                Ok(SeqNum((self.0 + offs) as u32))
            } else {
                Err(Error::Corrupted)
            }),
    {
        if offs > 0xffff_ffff {
            return Err(Error::Corrupted);
        }
        match self.0.checked_add(offs as u32) {
            Some(res) => Ok(SeqNum(res)),
            None => Err(Error::Corrupted),
        }
    }
}

/// Distance between the sequence numbers that back pointer `index` cares about: pointer 0 leads
/// to the previous page, pointer `i` to a page with a multiple of `2**(SKIPLIST_SHIFT + i)`.
pub open spec fn skip_block(index: int) -> int {
    if index == 0 {
        1
    } else {
        pow2((SKIPLIST_SHIFT + index) as nat) as int
    }
}

/// The largest multiple of `skip_block(index)` below `curr`.
pub open spec fn skip_target(curr: u32, index: int) -> int {
    (curr - 1) / skip_block(index) * skip_block(index)
}

/// The highest back pointer that does not overshoot `left` when followed from `right`.
pub open spec fn skip_index(left: u32, right: u32) -> int {
    highest_skip(left, right, SKIPLIST_LEN - 1)
}

pub open spec fn highest_skip(left: u32, right: u32, top: int) -> int
    decreases top,
{
    if top <= 0 {
        0
    } else if skip_target(right, top) >= left {
        top
    } else {
        highest_skip(left, right, top - 1)
    }
}

/// Find the highest amount of trailing zeros in all numbers in `a..b`.
pub fn max_trailing_zeros_between(a: u32, b: u32) -> (r: u32)
    requires
        a < b,
    ensures
        exists|x: u32| a <= x < b && #[trigger] u32_trailing_zeros(x) == r,
        forall|x: u32| a <= x < b ==> #[trigger] u32_trailing_zeros(x) <= r,
{
    if a == 0 {
        assert(u32_trailing_zeros(0) == 32) by {
            axiom_u32_trailing_zeros(0);
        }
        assert forall|x: u32| a <= x < b implies #[trigger] u32_trailing_zeros(x) <= 32 by {
            axiom_u32_trailing_zeros(x);
        }
        return 32;
    }
    let d: u32 = (a - 1) ^ (b - 1);
    proof {
        lemma_highest_difference(a, b);
    }
    31u32 - d.leading_zeros()
}

proof fn lemma_highest_difference(a: u32, b: u32)
    requires
        0 < a < b,
    ensures
        ({
            let d = ((a - 1) as u32) ^ ((b - 1) as u32);
            let r = 31 - u32_leading_zeros(d);
            &&& u32_leading_zeros(d) <= 31
            &&& exists|x: u32| a <= x < b && #[trigger] u32_trailing_zeros(x) == r
            &&& forall|x: u32| a <= x < b ==> #[trigger] u32_trailing_zeros(x) <= r
        }),
{
    let p = (a - 1) as u32;
    let q = (b - 1) as u32;
    let d = p ^ q;
    axiom_u32_leading_zeros(d);
    assert(p < q ==> p ^ q != 0) by (bit_vector);
    let lz = u32_leading_zeros(d);
    let r = (31 - lz) as u32;
    let w = (q >> r) << r;
    let r1 = (r + 1) as u32;
    assert(p < w && w <= q && (w >> r) & 1u32 == 1u32) by (bit_vector)
        requires
            p < q,
            d == p ^ q,
            r < 32,
            r1 == r + 1,
            (d >> r) & 1u32 != 0,
            r1 < 32 ==> d >> r1 == 0,
            w == (q >> r) << r,
    ;
    assert(u32_trailing_zeros(w) == r) by {
        axiom_u32_trailing_zeros(w);
        let t = u32_trailing_zeros(w);
        if t < r {
            assert((w >> t) & 1u32 == 0) by (bit_vector)
                requires
                    t < r,
                    r < 32,
                    w == (q >> r) << r,
            ;
        }
        if t > r {
            assert((w >> r) & 1u32 == 0u32);
        }
    }
    assert forall|x: u32| a <= x < b implies #[trigger] u32_trailing_zeros(x) <= r by {
        axiom_u32_trailing_zeros(x);
        let t = u32_trailing_zeros(x);
        if t > r {
            let u = (32 - t) as u32;
            assert(x << u == 0);
            assert(false) by (bit_vector)
                requires
                    p < x,
                    x <= q,
                    d == p ^ q,
                    r < t,
                    t < 32,
                    r1 == r + 1,
                    d >> r1 == 0,
                    u == 32 - t,
                    x << u == 0,
            ;
        }
    }
}

/// Calculate skiplist index.
///
/// For building the skiplist: if the previous page has sequence numbers `left..right`,
/// what's the highest index that should be made to point to the previous page?
///
/// For iterating the skiplist: if we're at `right` and we want to seek backwards until
/// `left`, what's the highest index that we can use to jump back, without overshooting?
pub fn skiplist_index(left: SeqNum, right: SeqNum) -> (r: usize)
    requires
        left.0 < right.0,
    ensures
        r < SKIPLIST_LEN,
        r == skip_index(left.0, right.0),
{
    let bits: u32 = max_trailing_zeros_between(left.0, right.0);
    proof {
        lemma_bits_give_index(left.0, right.0, bits);
    }
    let i: usize = (bits as usize).saturating_sub(SKIPLIST_SHIFT);
    if i < SKIPLIST_LEN - 1 {
        i
    } else {
        SKIPLIST_LEN - 1
    }
}

/// Calculate the destination seq of a skiplist jump.
///
/// If the current page starts at seq `curr`, and we jump backwards using the skiplist index
/// `index`, what's the sequence number the destination page is guaranteed to contain?
///
/// Note that the destination page will *contain* the returned seq, but it can *start*
/// earlier.
pub fn skiplist_seq(curr: SeqNum, index: usize) -> (r: SeqNum)
    requires
        curr.0 != 0,
        index + SKIPLIST_SHIFT < 32,
    ensures
        r.0 == skip_target(curr.0, index as int),
{
    let c: u32 = curr.0 - 1;
    if index == 0 {
        SeqNum(c)
    } else {
        let bits: u32 = (index + SKIPLIST_SHIFT) as u32;
        proof {
            let block = pow2(bits as nat) as int;
            lemma_pow2_pos(bits as nat);
            vstd::bits::lemma_u32_shr_is_div(c, bits);
            vstd::arithmetic::div_mod::lemma_fundamental_div_mod(c as int, block);
            assert(block * (c as int / block) == (c as int / block) * block) by (nonlinear_arith);
            vstd::bits::lemma_u32_shl_is_mul(c >> bits, bits);
        }
        SeqNum((c >> bits) << bits)
    }
}

/// The numbers behind `skip_block`.
pub proof fn lemma_skip_blocks()
    ensures
        skip_block(0) == 1,
        skip_block(1) == 512,
        skip_block(2) == 1024,
        skip_block(3) == 2048,
        skip_block(4) == 4096,
{
    lemma2_to64();
}

/// A number ends in `bits` zeros exactly when it is a multiple of `2**bits`, for the powers that
/// the skiplist uses.
proof fn lemma_trailing_zeros_divide(x: u32)
    ensures
        u32_trailing_zeros(x) >= 9 <==> x % 512 == 0,
        u32_trailing_zeros(x) >= 10 <==> x % 1024 == 0,
        u32_trailing_zeros(x) >= 11 <==> x % 2048 == 0,
        u32_trailing_zeros(x) >= 12 <==> x % 4096 == 0,
{
    axiom_u32_trailing_zeros(x);
    let t = u32_trailing_zeros(x);
    if t < 32 {
        let u = (32 - t) as u32;
        assert(x << u == 0);
        assert({
            &&& t >= 9 <==> x % 512 == 0
            &&& t >= 10 <==> x % 1024 == 0
            &&& t >= 11 <==> x % 2048 == 0
            &&& t >= 12 <==> x % 4096 == 0
        }) by (bit_vector)
            requires
                t < 32,
                u == 32 - t,
                t > 0 ==> x << u == 0,
                (x >> t) & 1u32 == 1u32,
        ;
    }
}

/// What the back pointers reach: `skip_target` is the largest multiple of the block below
/// `curr`.
pub proof fn lemma_skip_target(curr: u32, index: int)
    requires
        0 < curr,
        0 <= index < SKIPLIST_LEN,
    ensures
        0 <= skip_target(curr, index) < curr,
        skip_target(curr, index) % skip_block(index) == 0,
        curr - skip_target(curr, index) <= skip_block(index),
        forall|m: int| #[trigger]
            (m % skip_block(index)) == 0 && m < curr ==> m <= skip_target(curr, index),
{
    lemma_skip_blocks();
    assert(index == 0 || index == 1 || index == 2 || index == 3 || index == 4);
}

/// A back pointer does not overshoot exactly when its index is at most `skip_index`.
pub proof fn lemma_skip_index(left: u32, right: u32)
    requires
        left < right,
    ensures
        0 <= skip_index(left, right) < SKIPLIST_LEN,
        forall|j: int|
            #![trigger skip_target(right, j)]
            0 <= j < SKIPLIST_LEN ==> (j <= skip_index(left, right) <==> skip_target(right, j)
                >= left),
{
    lemma_skip_blocks();
    reveal_with_fuel(highest_skip, 6);
    assert forall|j: int|
        #![trigger skip_target(right, j)]
        0 <= j < SKIPLIST_LEN implies (j <= skip_index(left, right) <==> skip_target(right, j)
        >= left) by {
        assert(j == 0 || j == 1 || j == 2 || j == 3 || j == 4);
        assert(skip_target(right, 4) <= skip_target(right, 3) <= skip_target(right, 2)
            <= skip_target(right, 1) <= skip_target(right, 0));
    }
}

/// Between two page starts with no multiple of the block in between, the target is the same.
pub proof fn lemma_skip_target_same(start: u32, end: u32, index: int)
    requires
        0 < start <= end,
        0 <= index < SKIPLIST_LEN,
        skip_target(end, index) < start,
    ensures
        skip_target(start, index) == skip_target(end, index),
{
    lemma_skip_target(start, index);
    lemma_skip_target(end, index);
}

proof fn lemma_bits_give_index(left: u32, right: u32, bits: u32)
    requires
        left < right,
        exists|x: u32| left <= x < right && #[trigger] u32_trailing_zeros(x) == bits,
        forall|x: u32| left <= x < right ==> #[trigger] u32_trailing_zeros(x) <= bits,
    ensures
        bits < 9 ==> skip_index(left, right) == 0,
        9 <= bits < 12 ==> skip_index(left, right) == bits - 8,
        bits >= 12 ==> skip_index(left, right) == 4,
{
    lemma_skip_blocks();
    reveal_with_fuel(highest_skip, 6);
    let x = choose|x: u32| left <= x < right && #[trigger] u32_trailing_zeros(x) == bits;
    lemma_trailing_zeros_divide(x);
    let t1 = skip_target(right, 1) as u32;
    let t2 = skip_target(right, 2) as u32;
    let t3 = skip_target(right, 3) as u32;
    let t4 = skip_target(right, 4) as u32;
    lemma_trailing_zeros_divide(t1);
    lemma_trailing_zeros_divide(t2);
    lemma_trailing_zeros_divide(t3);
    lemma_trailing_zeros_divide(t4);
}

/// A jump along back pointer `index` leads to the largest multiple of its block below where it
/// starts. The block of pointer 0 is one byte, and that of pointer `i` has `2**(SKIPLIST_SHIFT +
/// i)` bytes.
pub proof fn law_jump_target(curr: u32, index: int, x: int)
    requires
        curr > 0,
        0 <= index,
    ensures
        skip_block(0) == 1,
        index > 0 ==> skip_block(index) == pow2((8 + index) as nat),
        0 <= skip_target(curr, index) < curr,
        skip_target(curr, index) % skip_block(index) == 0,
        0 <= x < curr && x % skip_block(index) == 0 ==> x <= skip_target(curr, index),
{
    let b = skip_block(index);
    if index > 0 {
        lemma_pow2_pos((SKIPLIST_SHIFT + index) as nat);
    }
    assert(b > 0);
    let c = curr - 1;
    let q = c / b;
    vstd::arithmetic::div_mod::lemma_fundamental_div_mod(c, b);
    vstd::arithmetic::div_mod::lemma_mod_bound(c, b);
    vstd::arithmetic::div_mod::lemma_mod_multiples_basic(q, b);
    vstd::arithmetic::div_mod::lemma_div_pos_is_pos(c, b);
    vstd::arithmetic::mul::lemma_mul_is_commutative(q, b);
    vstd::arithmetic::mul::lemma_mul_nonnegative(q, b);
    if 0 <= x < curr && x % b == 0 {
        vstd::arithmetic::div_mod::lemma_fundamental_div_mod(x, b);
        vstd::arithmetic::div_mod::lemma_div_is_ordered(x, c, b);
        vstd::arithmetic::mul::lemma_mul_inequality(x / b, q, b);
        vstd::arithmetic::mul::lemma_mul_is_commutative(x / b, b);
    }
}

/// The back pointer for a way back is the highest one with a multiple of its block on the way.
pub proof fn law_jump_index(left: u32, right: u32, j: int, x: int)
    requires
        left < right,
        0 <= j < SKIPLIST_LEN,
    ensures
        0 <= skip_index(left, right) < SKIPLIST_LEN,
        j <= skip_index(left, right) ==> left <= skip_target(right, j) < right && skip_target(
            right,
            j,
        ) % skip_block(j) == 0,
        j > skip_index(left, right) && left <= x < right ==> x % skip_block(j) != 0,
{
    lemma_skip_index(left, right);
    law_jump_target(right, j, x);
}

} // verus!
