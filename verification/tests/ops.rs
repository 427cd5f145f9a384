use anvil_sim::ir::{BinOp, UnOp};
use anvil_sim::ocaml::is_exception_result;
use anvil_sim::ops::{eval_bin_op, eval_un_op, mask_bits};

#[test]
fn arithmetic_wraps() {
    assert_eq!(eval_bin_op(BinOp::Add, 2, 3), 5);
    assert_eq!(eval_bin_op(BinOp::Add, i64::MAX, 1), i64::MIN);
    assert_eq!(eval_bin_op(BinOp::Sub, 2, 3), -1);
    assert_eq!(eval_bin_op(BinOp::Mul, 6, 7), 42);
    assert_eq!(eval_bin_op(BinOp::Mul, i64::MAX, 2), -2);
}

#[test]
fn bitwise_operators() {
    assert_eq!(eval_bin_op(BinOp::Xor, 0b1100, 0b1010), 0b0110);
    assert_eq!(eval_bin_op(BinOp::And, 0b1100, 0b1010), 0b1000);
    assert_eq!(eval_bin_op(BinOp::Or, 0b1100, 0b1010), 0b1110);
}

#[test]
fn logic_and_comparisons_give_one_or_zero() {
    assert_eq!(eval_bin_op(BinOp::LAnd, 3, 0), 0);
    assert_eq!(eval_bin_op(BinOp::LAnd, 3, -1), 1);
    assert_eq!(eval_bin_op(BinOp::LOr, 0, 0), 0);
    assert_eq!(eval_bin_op(BinOp::LOr, 0, 9), 1);
    assert_eq!(eval_bin_op(BinOp::Lt, -1, 0), 1);
    assert_eq!(eval_bin_op(BinOp::Gt, -1, 0), 0);
    assert_eq!(eval_bin_op(BinOp::Lte, 4, 4), 1);
    assert_eq!(eval_bin_op(BinOp::Gte, 3, 4), 0);
    assert_eq!(eval_bin_op(BinOp::Eq, 7, 7), 1);
    assert_eq!(eval_bin_op(BinOp::Neq, 7, 7), 0);
}

#[test]
fn shifts() {
    assert_eq!(eval_bin_op(BinOp::Shl, 1, 4), 16);
    assert_eq!(eval_bin_op(BinOp::Shr, 256, 4), 16);
    assert_eq!(eval_bin_op(BinOp::Shr, -16, 2), -4);
    assert_eq!(eval_bin_op(BinOp::Shl, 1, 64), 0);
    assert_eq!(eval_bin_op(BinOp::Shr, -1, 100), 0);
}

#[test]
fn unary_operators() {
    assert_eq!(eval_un_op(UnOp::Neg, 5, 8), -5);
    assert_eq!(eval_un_op(UnOp::Neg, i64::MIN, 64), i64::MIN);
    assert_eq!(eval_un_op(UnOp::Not, 0, 8), -1);
    assert_eq!(eval_un_op(UnOp::AndAll, 0xff, 8), 1);
    assert_eq!(eval_un_op(UnOp::AndAll, 0x7f, 8), 0);
    assert_eq!(eval_un_op(UnOp::AndAll, -1, 64), 1);
    assert_eq!(eval_un_op(UnOp::OrAll, 0, 8), 0);
    assert_eq!(eval_un_op(UnOp::OrAll, 4, 8), 1);
}

#[test]
fn masks() {
    assert_eq!(mask_bits(0), 0);
    assert_eq!(mask_bits(3), 7);
    assert_eq!(mask_bits(63), i64::MAX);
    assert_eq!(mask_bits(64), -1);
    assert_eq!(mask_bits(200), -1);
}

#[test]
fn ocaml_exception_results() {
    assert!(is_exception_result(2));
    assert!(is_exception_result(6));
    assert!(!is_exception_result(1));
    assert!(!is_exception_result(4));
}
