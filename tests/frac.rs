use calculator::frac::{gcd, Fraction};

#[test]
fn test_gcd() {
    assert_eq!(gcd(12, 8), 4);
    assert_eq!(gcd(24, 36), 12);
    assert_eq!(gcd(100, 200), 100);
}

#[test]
fn test_display() {
    assert_eq!(Fraction::new(1, 2).to_string(), "1/2");
    assert_eq!(Fraction::new(3, 4).to_string(), "3/4");
    assert_eq!(Fraction::new(-5, 2).to_string(), "-5/2");
    assert_eq!(Fraction::new(0, 1).to_string(), "0");
}

#[test]
fn test_new() {
    assert_eq!(Fraction::new(1, 2), Fraction { num: 1, den: 2 });
    assert_eq!(Fraction::new(3, 4), Fraction { num: 3, den: 4 });
    assert_eq!(Fraction::new(-5, 2), Fraction { num: -5, den: 2 });
    assert_eq!(Fraction::new(0, 1), Fraction { num: 0, den: 1 });
}

#[test]
fn test_add() {
    assert_eq!(
        Fraction::new(1, 2).add(Fraction::new(1, 2)),
        Fraction::new(1, 1)
    );
    assert_eq!(Fraction::new(1, 2).add_int(1), Fraction::new(3, 2));
    assert_eq!(Fraction::int_add(1, Fraction::new(1, 2)), Fraction::new(3, 2));
    assert_eq!(
        Fraction::new(1, 2).add(Fraction::new(1, 4)),
        Fraction::new(3, 4)
    );
    assert_eq!(Fraction::new(1, 2).add_int(2), Fraction::new(5, 2));
    assert_eq!(Fraction::int_add(2, Fraction::new(1, 2)), Fraction::new(5, 2));
}

#[test]
fn test_sub() {
    assert_eq!(
        Fraction::new(1, 2).sub(Fraction::new(1, 2)),
        Fraction::new(0, 1)
    );
    assert_eq!(Fraction::new(1, 2).sub_int(1), Fraction::new(-1, 2));
    assert_eq!(Fraction::int_sub(1, Fraction::new(1, 2)), Fraction::new(1, 2));
    assert_eq!(
        Fraction::new(1, 2).sub(Fraction::new(1, 4)),
        Fraction::new(1, 4)
    );
    assert_eq!(Fraction::new(1, 2).sub_int(2), Fraction::new(-3, 2));
    assert_eq!(Fraction::int_sub(2, Fraction::new(1, 2)), Fraction::new(3, 2));
}

#[test]
fn test_mul() {
    assert_eq!(
        Fraction::new(1, 2).mul(Fraction::new(1, 2)),
        Fraction::new(1, 4)
    );
    assert_eq!(Fraction::new(1, 2).mul_int(2), Fraction::new(1, 1));
    assert_eq!(Fraction::int_mul(2, Fraction::new(1, 2)), Fraction::new(1, 1));
    assert_eq!(
        Fraction::new(1, 2).mul(Fraction::new(1, 4)),
        Fraction::new(1, 8)
    );
    assert_eq!(Fraction::new(1, 2).mul_int(4), Fraction::new(2, 1));
    assert_eq!(Fraction::int_mul(4, Fraction::new(1, 2)), Fraction::new(2, 1));
}

#[test]
fn test_div() {
    assert_eq!(
        Fraction::new(1, 2).div(Fraction::new(1, 2)),
        Fraction::new(1, 1)
    );
    assert_eq!(Fraction::new(1, 2).div_int(2), Fraction::new(1, 4));
    assert_eq!(Fraction::int_div(2, Fraction::new(1, 2)), Fraction::new(4, 1));
    assert_eq!(
        Fraction::new(1, 2).div(Fraction::new(1, 4)),
        Fraction::new(2, 1)
    );
    assert_eq!(Fraction::new(1, 2).div_int(4), Fraction::new(1, 8));
    assert_eq!(Fraction::int_div(4, Fraction::new(1, 2)), Fraction::new(8, 1));
}

#[test]
fn fraction_reduces_and_keeps_signs() {
    assert_eq!(Fraction::new(6, 4), Fraction { num: 3, den: 2 });
    assert_eq!(Fraction::new(-6, 4), Fraction { num: -3, den: 2 });
    assert_eq!(Fraction::new(0, 7), Fraction { num: 0, den: 1 });
    assert_eq!(Fraction::new(i64::MIN, 2), Fraction { num: i64::MIN / 2, den: 1 });
    assert_eq!(Fraction::new(1, 2).div(Fraction::new(-1, 2)), Fraction::new(-1, 1));
    assert_eq!(Fraction::new(1, 2).div_int(-2), Fraction::new(-1, 4));
    assert_eq!(Fraction::new(7, 1).to_string(), "7");
    assert_eq!(gcd(0, 5), 5);
    assert_eq!(gcd(7, 0), 7);
}
