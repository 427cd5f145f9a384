//! The arithmetic of wire values: 64-bit two's complement, wrapping on
//! overflow.
use vstd::prelude::*;
use crate::bits::low_mask;
use crate::ir::{BinOp, UnOp};

verus! {

pub open spec fn bool_value(b: bool) -> i64 {
    if b { 1 } else { 0 }
}

/// The value of a binary operation (`inside` has none).
pub open spec fn bin_op_value(op: BinOp, l: i64, r: i64) -> i64 {
    match op {
        BinOp::Add => l.wrapping_add(r),
        BinOp::Sub => l.wrapping_sub(r),
        BinOp::Mul => l.wrapping_mul(r),
        BinOp::Xor => l ^ r,
        BinOp::And => l & r,
        BinOp::Or => l | r,
        BinOp::LAnd => bool_value(l != 0 && r != 0),
        BinOp::LOr => bool_value(l != 0 || r != 0),
        BinOp::Lt => bool_value(l < r),
        BinOp::Gt => bool_value(l > r),
        BinOp::Lte => bool_value(l <= r),
        BinOp::Gte => bool_value(l >= r),
        BinOp::Shl => if r >= 64 { 0 } else { l.wrapping_shl(r as u32) },
        BinOp::Shr => if r >= 64 { 0 } else { l.wrapping_shr(r as u32) },
        BinOp::Eq => bool_value(l == r),
        BinOp::Neq => bool_value(l != r),
        BinOp::Inside => 0,
    }
}

/// The value of a unary operation on a value of `size` bits.
pub open spec fn un_op_value(op: UnOp, v: i64, size: int) -> i64 {
    match op {
        UnOp::Neg => 0i64.wrapping_sub(v),
        UnOp::Not => !v,
        UnOp::AndAll => bool_value(v == low_mask(size)),
        UnOp::OrAll => bool_value(v != 0),
    }
}

/// The mask of the `n` lowest bits (all bits when `n >= 64`).
pub fn mask_bits(n: usize) -> (m: i64)
    ensures
        m == low_mask(n as int),
{
    if n >= 64 {
        -1
    } else if n == 0 {
        0
    } else {
        let k: u64 = n as u64;
        assert(1 <= (1u64 << k) && ((1u64 << k) - 1) as i64 == ((1i64 << k) - 1) as i64
            && (1u64 << k) - 1 <= 0x7fff_ffff_ffff_ffffu64) by (bit_vector)
            requires
                1 <= k < 64,
        ;
        ((1u64 << k) - 1) as i64
    }
}

/// Apply a binary operation; comparisons and logical operators give 1 or 0,
/// arithmetic wraps, and shifts by 64 or more give 0.
pub fn eval_bin_op(op: BinOp, left: i64, right: i64) -> (r: i64)
    requires
        op != BinOp::Inside,
    ensures
        r == bin_op_value(op, left, right),
{
    match op {
        BinOp::Add => left.wrapping_add(right),
        BinOp::Sub => left.wrapping_sub(right),
        BinOp::Mul => left.wrapping_mul(right),
        BinOp::Xor => left ^ right,
        BinOp::And => left & right,
        BinOp::Or => left | right,
        BinOp::LAnd => if left != 0 && right != 0 { 1 } else { 0 },
        BinOp::LOr => if left != 0 || right != 0 { 1 } else { 0 },
        BinOp::Lt => if left < right { 1 } else { 0 },
        BinOp::Gt => if left > right { 1 } else { 0 },
        BinOp::Lte => if left <= right { 1 } else { 0 },
        BinOp::Gte => if left >= right { 1 } else { 0 },
        BinOp::Shl => if right >= 64 { 0 } else { left.wrapping_shl(right as u32) },
        BinOp::Shr => if right >= 64 { 0 } else { left.wrapping_shr(right as u32) },
        BinOp::Eq => if left == right { 1 } else { 0 },
        BinOp::Neq => if left != right { 1 } else { 0 },
        BinOp::Inside => 0,
    }
}

/// Apply a unary operation to a value of `size` bits.
pub fn eval_un_op(op: UnOp, val: i64, size: usize) -> (r: i64)
    ensures
        r == un_op_value(op, val, size as int),
{
    match op {
        UnOp::Neg => 0i64.wrapping_sub(val),
        UnOp::Not => !val,
        UnOp::AndAll => if val == mask_bits(size) { 1 } else { 0 },
        UnOp::OrAll => if val != 0 { 1 } else { 0 },
    }
}


/// Law (comparisons and logical operators): each gives 1 when its relation
/// holds between the operands and 0 otherwise; `>=` and `<=` are each other
/// mirrored, and each comparison is the negation of its opposite.
pub proof fn lemma_compare_ops(l: i64, r: i64)
    ensures
        bin_op_value(BinOp::Lt, l, r) == 1 <==> l < r,
        bin_op_value(BinOp::Gt, l, r) == 1 <==> l > r,
        bin_op_value(BinOp::Lte, l, r) == 1 <==> l <= r,
        bin_op_value(BinOp::Gte, l, r) == 1 <==> l >= r,
        bin_op_value(BinOp::Eq, l, r) == 1 <==> l == r,
        bin_op_value(BinOp::Neq, l, r) == 1 <==> l != r,
        bin_op_value(BinOp::LAnd, l, r) == 1 <==> (l != 0 && r != 0),
        bin_op_value(BinOp::LOr, l, r) == 1 <==> (l != 0 || r != 0),
        forall|op: BinOp| #![trigger bin_op_value(op, l, r)]
            (op == BinOp::Lt || op == BinOp::Gt || op == BinOp::Lte || op == BinOp::Gte || op == BinOp::Eq
                || op == BinOp::Neq || op == BinOp::LAnd || op == BinOp::LOr)
                ==> (bin_op_value(op, l, r) == 0 || bin_op_value(op, l, r) == 1),
        bin_op_value(BinOp::Gte, l, r) == bin_op_value(BinOp::Lte, r, l),
        bin_op_value(BinOp::Gt, l, r) == bin_op_value(BinOp::Lt, r, l),
        bin_op_value(BinOp::Gte, l, r) + bin_op_value(BinOp::Lt, l, r) == 1,
        bin_op_value(BinOp::Lte, l, r) + bin_op_value(BinOp::Gt, l, r) == 1,
        bin_op_value(BinOp::Eq, l, r) + bin_op_value(BinOp::Neq, l, r) == 1,
        bin_op_value(BinOp::Gte, l, l) == 1 && bin_op_value(BinOp::Lte, l, l) == 1 && bin_op_value(BinOp::Eq, l, l) == 1,
        bin_op_value(BinOp::Lt, l, l) == 0 && bin_op_value(BinOp::Gt, l, l) == 0 && bin_op_value(BinOp::Neq, l, l) == 0,
{
}

/// Law (arithmetic wraps): the sum, difference and product are the
/// mathematical ones modulo 2^64, and exactly them when those fit in 64
/// signed bits.
pub proof fn lemma_arith_ops(l: i64, r: i64)
    ensures
        (bin_op_value(BinOp::Add, l, r) - (l + r)) % 0x1_0000_0000_0000_0000 == 0,
        (bin_op_value(BinOp::Sub, l, r) - (l - r)) % 0x1_0000_0000_0000_0000 == 0,
        (bin_op_value(BinOp::Mul, l, r) - l * r) % 0x1_0000_0000_0000_0000 == 0,
        i64::MIN <= l + r <= i64::MAX ==> bin_op_value(BinOp::Add, l, r) == l + r,
        i64::MIN <= l - r <= i64::MAX ==> bin_op_value(BinOp::Sub, l, r) == l - r,
        i64::MIN <= l * r <= i64::MAX ==> bin_op_value(BinOp::Mul, l, r) == l * r,
{
    let p = l * r;
    let m = p % 0x1_0000_0000_0000_0000;
    let q = p / 0x1_0000_0000_0000_0000;
    assert(p == 0x1_0000_0000_0000_0000 * q + m);
    assert((-0x1_0000_0000_0000_0000 * q) % 0x1_0000_0000_0000_0000 == 0) by (nonlinear_arith);
    assert((-0x1_0000_0000_0000_0000 * q - 0x1_0000_0000_0000_0000) % 0x1_0000_0000_0000_0000 == 0) by (nonlinear_arith);
    if i64::MIN <= p <= i64::MAX {
        if p >= 0 {
            assert(q == 0 && m == p);
        } else {
            assert(q == -1 && m == p + 0x1_0000_0000_0000_0000);
        }
    }
}

/// Law (bitwise operators act bit by bit): bit `i` of the result is the
/// and, or or exclusive or of bit `i` of the operands.
pub proof fn lemma_bitwise_ops(l: i64, r: i64, i: u64)
    requires
        i < 64,
    ensures
        crate::bits::i64_bit(bin_op_value(BinOp::And, l, r), i as int) == (crate::bits::i64_bit(l, i as int) && crate::bits::i64_bit(r, i as int)),
        crate::bits::i64_bit(bin_op_value(BinOp::Or, l, r), i as int) == (crate::bits::i64_bit(l, i as int) || crate::bits::i64_bit(r, i as int)),
        crate::bits::i64_bit(bin_op_value(BinOp::Xor, l, r), i as int) == (crate::bits::i64_bit(l, i as int) != crate::bits::i64_bit(r, i as int)),
{
    assert((((l & r) >> i) & 1i64 == 1i64) == (((l >> i) & 1i64 == 1i64) && ((r >> i) & 1i64 == 1i64))) by (bit_vector)
        requires i < 64;
    assert((((l | r) >> i) & 1i64 == 1i64) == (((l >> i) & 1i64 == 1i64) || ((r >> i) & 1i64 == 1i64))) by (bit_vector)
        requires i < 64;
    assert((((l ^ r) >> i) & 1i64 == 1i64) == (((l >> i) & 1i64 == 1i64) != ((r >> i) & 1i64 == 1i64))) by (bit_vector)
        requires i < 64;
}

/// Law (shifts): a shift by 64 or more gives 0; a shift by `r` below 64
/// moves every bit `r` places, left filling with zeros and right (an
/// arithmetic shift) filling with the sign.
pub proof fn lemma_shift_ops(l: i64, r: i64, i: u64)
    requires
        i < 64,
    ensures
        r >= 64 ==> bin_op_value(BinOp::Shl, l, r) == 0 && bin_op_value(BinOp::Shr, l, r) == 0,
        0 <= r < 64 ==> crate::bits::i64_bit(bin_op_value(BinOp::Shl, l, r), i as int)
            == (i >= r && crate::bits::i64_bit(l, i - r)),
        0 <= r < 64 ==> crate::bits::i64_bit(bin_op_value(BinOp::Shr, l, r), i as int)
            == (if i + r < 64 { crate::bits::i64_bit(l, i + r) } else { l < 0 }),
{
    if 0 <= r < 64 {
        let s: u32 = r as u32;
        assert(s % 64 == s);
        let k: u64 = s as u64;
        assert(((((l << k) >> i) & 1i64) == 1i64) == (i >= k && ((l >> ((i - k) as u64)) & 1i64) == 1i64)) by (bit_vector)
            requires i < 64, k < 64;
        assert(((((l >> k) >> i) & 1i64) == 1i64) == (if i + k < 64 { ((l >> ((i + k) as u64)) & 1i64) == 1i64 } else { l < 0 })) by (bit_vector)
            requires i < 64, k < 64;
    }
}

/// Law (unary operators): negation is the negative modulo 2^64 (exact but
/// for the most negative value), complement is `-v - 1`, and the or of all
/// bits is 1 exactly for a nonzero value; the and of all bits of a value of
/// 64 bits or more is 1 exactly when every bit is set (-1), and of no bits
/// exactly for 0.
pub proof fn lemma_unary_ops(v: i64, size: int)
    ensures
        (un_op_value(UnOp::Neg, v, size) + v) % 0x1_0000_0000_0000_0000 == 0,
        v != i64::MIN ==> un_op_value(UnOp::Neg, v, size) == -v,
        un_op_value(UnOp::Not, v, size) == -v - 1,
        un_op_value(UnOp::OrAll, v, size) == (if v != 0 { 1i64 } else { 0i64 }),
        size >= 64 ==> un_op_value(UnOp::AndAll, v, size) == (if v == -1 { 1i64 } else { 0i64 }),
        size <= 0 ==> un_op_value(UnOp::AndAll, v, size) == (if v == 0 { 1i64 } else { 0i64 }),
{
    assert((!v) as int == -1 - (v as int)) by (bit_vector);
}
} // verus!
