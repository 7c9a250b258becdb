use rpn_logic::adder;
use rpn_logic::gray_code;
use rpn_logic::multiplier;

#[test]
fn basic_add() {
    assert_eq!(3 + 3, adder(3, 3));
    assert_eq!(10 + 3, adder(10, 3));
}

#[test]
fn odd_numbers_add() {
    assert_eq!(9 + 31, adder(9, 31));
    assert_eq!(11 + 21, adder(11, 21));
    assert_eq!(15 + 101, adder(15, 101));
    assert_eq!(123456789 + 987654321, adder(123456789, 987654321));
    assert_eq!(1000001 + 2000001, adder(1000001, 2000001));
}

#[test]
fn even_numbers_add() {
    assert_eq!(8 + 30, adder(8, 30));
    assert_eq!(12 + 22, adder(12, 22));
    assert_eq!(16 + 102, adder(16, 102));
    assert_eq!(100 + 10000, adder(100, 10000));
    assert_eq!(200 + 12000, adder(200, 12000));
}

#[test]
fn edge_numbers_add() {
    assert_eq!(0 + 0, adder(0, 0));
    assert_eq!(1 + 1, adder(1, 1));
    assert_eq!(0 + 1, adder(0, 1));
    assert_eq!(4294967294u32.wrapping_add(1), adder(4294967294, 1));
}

#[test]
fn basic_test() {
    assert_eq!(5 * 2, multiplier(5, 2));
    assert_eq!(4 * 3, multiplier(4, 3));
}

#[test]
fn odd_numbers_test() {
    assert_eq!(7 * 3, multiplier(7, 3));
    assert_eq!(12345 * 6789, multiplier(12345, 6789));
    assert_eq!(7777 * 7777, multiplier(7777, 7777));
}

#[test]
fn even_numbers_test() {
    assert_eq!(2 * 10, multiplier(2, 10));
    assert_eq!(10000 * 4, multiplier(10000, 4));
    assert_eq!(44444 * 66666, multiplier(44444, 66666));
}

#[test]
fn edge_numbers_test() {
    assert_eq!(0 * 10000, multiplier(0, 10000));
    assert_eq!(1 * 0, multiplier(1, 0));
    assert_eq!(0 * 0, multiplier(0, 0));
}

#[test]
fn gray_code_subject_tests() {
    assert_eq!(0, gray_code(0));
    assert_eq!(1, gray_code(1));
    assert_eq!(3, gray_code(2));
    assert_eq!(2, gray_code(3));
    assert_eq!(6, gray_code(4));
    assert_eq!(7, gray_code(5));
    assert_eq!(5, gray_code(6));
    assert_eq!(4, gray_code(7));
    assert_eq!(12, gray_code(8));
}

#[test]
fn addition_tests() {
    assert_eq!(26_896, gray_code(19_999));
    assert_eq!(357_913_941, gray_code(429_496_729));
}

#[test]
fn adder_wraps_around() {
    assert_eq!(0, adder(u32::MAX, 1));
    assert_eq!(5, adder(u32::MAX, 6));
    assert_eq!(u32::MAX - 1, adder(u32::MAX, u32::MAX));
}

#[test]
fn multiplier_wraps_around() {
    assert_eq!(0, multiplier(65536, 65536));
    assert_eq!(2147483648u32.wrapping_mul(2), multiplier(2147483648, 2));
    assert_eq!(3000000000u32.wrapping_mul(3), multiplier(3000000000, 3));
}
