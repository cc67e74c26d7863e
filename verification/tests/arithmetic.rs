use ready_set_boole::adder::adder;
use ready_set_boole::gray_code::gray_code;
use ready_set_boole::multiplier::multiplier;

#[test]
fn mod_test_simple() {
    assert_eq!(adder(1, 2), 3);
    assert_eq!(adder(1, 1), 2);
    assert_eq!(adder(2, 2), 4);
    assert_eq!(adder(5, 2), 7);
}

#[test]
fn mod_test_zero() {
    assert_eq!(adder(0, 0), 0);
    assert_eq!(adder(0, 1), 1);
    assert_eq!(adder(1, 0), 1);
}

#[test]
fn mod_test_commute() {
    assert_eq!(adder(3, 4), adder(4, 3));
    assert_eq!(adder(123, 456), adder(456, 123));
}

#[test]
fn mod_test_large_numbers() {
    assert_eq!(adder(1000000000, 2000000000), 3000000000);
    assert_eq!(adder(u32::MAX, 0), u32::MAX);
    assert_eq!(adder(u32::MAX, 1), 0);
}

#[test]
fn mod_test_boundary_values() {
    assert_eq!(adder(u32::MAX, u32::MAX), u32::MAX - 1);
    assert_eq!(adder(u32::MAX / 2, u32::MAX / 2), u32::MAX - 1);
}

#[test]
fn test_simple() {
    assert_eq!(
        gray_code(0),
        0,
        "Gray code for 0: expected 0, got {}",
        gray_code(0)
    );
    assert_eq!(
        gray_code(1),
        1,
        "Gray code for 1: expected 1, got {}",
        gray_code(1)
    );
    assert_eq!(
        gray_code(2),
        3,
        "Gray code for 2: expected 3, got {}",
        gray_code(2)
    );
    assert_eq!(
        gray_code(3),
        2,
        "Gray code for 3: expected 2, got {}",
        gray_code(3)
    );
    assert_eq!(
        gray_code(4),
        6,
        "Gray code for 4: expected 6, got {}",
        gray_code(4)
    );
    assert_eq!(
        gray_code(5),
        7,
        "Gray code for 5: expected 7, got {}",
        gray_code(5)
    );
    assert_eq!(
        gray_code(6),
        5,
        "Gray code for 6: expected 5, got {}",
        gray_code(6)
    );
    assert_eq!(
        gray_code(7),
        4,
        "Gray code for 7: expected 4, got {}",
        gray_code(7)
    );
    assert_eq!(
        gray_code(8),
        12,
        "Gray code for 8: expected 12, got {}",
        gray_code(8)
    );
}

#[test]
fn test_large_numbers() {
    let input = 2147483648;
    let expected = 3221225472;
    let result = gray_code(input);
    assert_eq!(
        result, expected,
        "Gray code for {}: expected {}, got {}",
        input, expected, result
    );

    let input = 4294967295;
    let expected = 2147483648;
    let result = gray_code(input);
    assert_eq!(
        result, expected,
        "Gray code for {}: expected {}, got {}",
        input, expected, result
    );
}

#[test]
fn multiplier_test_simple() {
    assert_eq!(multiplier(1, 2), 2);
    assert_eq!(multiplier(1, 1), 1);
    assert_eq!(multiplier(2, 2), 4);
    assert_eq!(multiplier(5, 2), 10);
}

#[test]
fn test_zero() {
    assert_eq!(multiplier(0, 0), 0);
    assert_eq!(multiplier(0, 1), 0);
    assert_eq!(multiplier(1, 0), 0);
}

#[test]
fn test_commute() {
    assert_eq!(multiplier(3, 4), multiplier(4, 3));
    assert_eq!(multiplier(123, 456), multiplier(456, 123));
}

#[test]
fn multiplier_test_large_numbers() {
    assert_eq!(multiplier(u32::MAX, 0), 0);
    assert_eq!(multiplier(u32::MAX, 1), u32::MAX);
    assert_eq!(multiplier(2000, 2000), 4000000);
}

#[test]
fn test_boundary_values() {
    assert_eq!(multiplier(u32::MAX, 1), u32::MAX);
    assert_eq!(multiplier(u32::MAX / 2, 2), u32::MAX - 1);
}

#[test]
fn test_multiplication_wraps() {
    assert_eq!(multiplier(65536, 65536), 0);
    assert_eq!(multiplier(65537, 65537), 131073);
}
