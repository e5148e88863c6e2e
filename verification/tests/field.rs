use secret_sharing::gf256::{divide, invert, multiply, times_x};
use secret_sharing::polynomial::{evaluate, interpolate_at_zero, lagrange_weight, lagrange_weights};

#[test]
fn times_x_reduces_by_the_field_polynomial() {
    assert_eq!(times_x(0x01), 0x02);
    assert_eq!(times_x(0x40), 0x80);
    assert_eq!(times_x(0x80), 0x1d);
    assert_eq!(times_x(0xff), 0xe3);
}

#[test]
fn multiply_known_products() {
    assert_eq!(multiply(0, 0x57), 0);
    assert_eq!(multiply(1, 0x57), 0x57);
    assert_eq!(multiply(2, 3), 6);
    assert_eq!(multiply(0x80, 2), 0x1d);
    assert_eq!(multiply(0x80, 0x80), 0x13);
    assert_eq!(multiply(3, 7), 9);
}

#[test]
fn multiply_is_commutative_and_associative_on_all_pairs() {
    for a in 0..=255u8 {
        for b in 0..=255u8 {
            assert_eq!(multiply(a, b), multiply(b, a));
        }
    }
    for a in [3u8, 0x1d, 0x80, 0xff] {
        for b in [5u8, 0x53, 0xca] {
            for c in [7u8, 0x11, 0xfe] {
                assert_eq!(multiply(multiply(a, b), c), multiply(a, multiply(b, c)));
                assert_eq!(multiply(a, b ^ c), multiply(a, b) ^ multiply(a, c));
            }
        }
    }
}

#[test]
fn invert_gives_the_inverse_of_every_nonzero_element() {
    assert_eq!(invert(0), 0);
    assert_eq!(invert(1), 1);
    assert_eq!(invert(2), 0x8e);
    for a in 1..=255u8 {
        assert_eq!(multiply(a, invert(a)), 1);
    }
}

#[test]
fn divide_undoes_multiply() {
    assert_eq!(divide(7, 0), 0);
    assert_eq!(divide(6, 3), 2);
    for a in 0..=255u8 {
        for d in [1u8, 2, 0x1d, 0xff] {
            assert_eq!(divide(multiply(a, d), d), a);
        }
    }
}

#[test]
fn evaluate_by_horner() {
    assert_eq!(evaluate(&vec![], 9), 0);
    assert_eq!(evaluate(&vec![0x42], 9), 0x42);
    // 1 + x at 1, 2, 3
    assert_eq!(evaluate(&vec![1, 1], 1), 0);
    assert_eq!(evaluate(&vec![1, 1], 2), 3);
    assert_eq!(evaluate(&vec![1, 1], 3), 2);
    // 5 + 2x + 3x^2 at 2: 5 ^ 4 ^ 12
    assert_eq!(evaluate(&vec![5, 2, 3], 2), 5 ^ 4 ^ 12);
    assert_eq!(evaluate(&vec![5, 2, 3], 0), 5);
}

#[test]
fn lagrange_weights_of_two_points() {
    // points 1 and 2: w0 = 2 / (2 ^ 1) = 2 / 3, w1 = 1 / (1 ^ 2) = 1 / 3
    let xs = vec![1u8, 2];
    assert_eq!(lagrange_weight(&xs, 0), divide(2, 3));
    assert_eq!(lagrange_weight(&xs, 1), divide(1, 3));
    assert_eq!(lagrange_weights(&xs), vec![divide(2, 3), divide(1, 3)]);
    assert_eq!(lagrange_weights(&xs)[0] ^ lagrange_weights(&xs)[1], 1);
    assert_eq!(lagrange_weights(&vec![7u8]), vec![1]);
}

#[test]
fn interpolation_gives_back_the_constant_term() {
    let coefficients = vec![0xa7u8, 0x13, 0xfe, 0x01];
    let xs = vec![9u8, 200, 1, 77];
    let ys: Vec<u8> = xs.iter().map(|x| evaluate(&coefficients, *x)).collect();
    assert_eq!(interpolate_at_zero(&xs, &ys), 0xa7);
    let more_xs = vec![9u8, 200, 1, 77, 3, 255];
    let more_ys: Vec<u8> = more_xs.iter().map(|x| evaluate(&coefficients, *x)).collect();
    assert_eq!(interpolate_at_zero(&more_xs, &more_ys), 0xa7);
    assert_eq!(interpolate_at_zero(&vec![], &vec![]), 0);
    assert_eq!(interpolate_at_zero(&vec![5], &vec![0x33]), 0x33);
}
