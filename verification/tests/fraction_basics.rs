//! Fraction construction, arithmetic and checked operations.
use akari::fraction::{ConvergentStep, Convergents};
use akari::Fraction;

#[test]
fn test_fraction_zero_denominator() {
    let bad = Fraction::new(5, 0);
    assert_eq!(bad, Fraction::new(0, 1), "division by zero should yield 0/1");
    println!("5/0 → {}", bad.to_string()); // prints "0"
}

#[test]
fn test_fraction_addition() {
    let a = Fraction::new(1, 2); // 1/2
    let b = Fraction::new(1, 3); // 1/3
    let sum = a + b; // 1/2 + 1/3 = 5/6

    assert_eq!(sum, Fraction::new(5, 6));
    println!("{} + {} = {}", a.to_string(), b.to_string(), sum.to_string());

    // Adding to an integer fraction
    let whole = Fraction::new(2, 1); // 2
    let result = whole + b; // 2 + 1/3 = 7/3
    assert_eq!(result, Fraction::new(7, 3));
    println!("{} + {} = {}", whole.to_string(), b.to_string(), result.to_string());

    // Compound assignment +=
    let mut acc = Fraction::new(1, 4); // 1/4
    acc += Fraction::new(3, 4); // 1/4 + 3/4 = 1
    assert!(acc.is_integer());
    assert_eq!(acc.numer(), 1);
    println!("1/4 += 3/4 = {}", acc.to_string()); // "1"
}

#[test]
fn test_fraction_subtraction() {
    let a = Fraction::new(3, 4);
    let b = Fraction::new(1, 4);
    let diff = a - b;

    assert_eq!(diff, Fraction::new(1, 2));
    println!("{} - {} = {}", a.to_string(), b.to_string(), diff.to_string());

    // Negative result
    let neg = Fraction::new(1, 6) - Fraction::new(1, 3);
    assert_eq!(neg, Fraction::new(-1, 6));
    println!("1/6 - 1/3 = {}", neg.to_string()); // -1/6
}

#[test]
fn test_fraction_multiplication() {
    let a = Fraction::new(2, 3);
    let b = Fraction::new(3, 4);
    let product = a * b; // 2/3 * 3/4 = 6/12 = 1/2

    assert_eq!(product, Fraction::new(1, 2));
    println!("{} * {} = {}", a.to_string(), b.to_string(), product.to_string());

    // By zero
    let zero = Fraction::new(0, 1);
    let zeroed = a * zero;
    assert_eq!(zeroed, Fraction::new(0, 1));
}

#[test]
fn test_fraction_division() {
    let a = Fraction::new(1, 2);
    let b = Fraction::new(1, 4);
    let quot = a / b; // (1/2) / (1/4) = 2

    assert_eq!(quot, Fraction::new(2, 1));
    assert!(quot.is_integer());
    println!("{} / {} = {}", a.to_string(), b.to_string(), quot.to_string());

    // Dividing by a fraction > 1
    let third = Fraction::new(1, 3);
    let two = Fraction::new(2, 1);
    println!("{} / {} = {}", third.to_string(), two.to_string(), (third / two).to_string());
    assert_eq!(third / two, Fraction::new(1, 6));
}

#[test]
fn test_fraction_remainder() {
    // 5/6 % 1/3  =  5/6 - floor(5/2) * 1/3 = 1/6
    let a = Fraction::new(5, 6);
    let b = Fraction::new(1, 3);
    let r = a % b;
    assert_eq!(r, Fraction::new(1, 6));
    println!("{} % {} = {}", a.to_string(), b.to_string(), r.to_string());
}

#[test]
fn test_fraction_negation() {
    let a = Fraction::new(3, 5);
    let neg = -a;
    assert_eq!(neg, Fraction::new(-3, 5));
    assert_eq!(neg.numer(), -3);
    assert_eq!(neg.denom(), 5);
    println!("-({}) = {}", a.to_string(), neg.to_string());
}

#[test]
fn test_checked_operations() {
    let a = Fraction::new(1, 2);
    let b = Fraction::new(1, 3);

    assert_eq!(a.checked_add(b), Some(Fraction::new(5, 6)));
    assert_eq!(a.checked_sub(b), Some(Fraction::new(1, 6)));
    assert_eq!(a.checked_mul(b), Some(Fraction::new(1, 6)));
    assert_eq!(a.checked_div(b), Some(Fraction::new(3, 2)));

    // Division by zero returns None
    let zero = Fraction::new(0, 1);
    assert_eq!(a.checked_div(zero), None);
    println!("checked_div by zero = {:?}", a.checked_div(zero)); // None
}

#[test]
fn test_fraction_construction_and_reduction() {
    // Direct construction – always reduces to lowest terms
    let half = Fraction::new(1, 2);
    let four_eighths = Fraction::new(4, 8); // same as 1/2

    assert_eq!(half.numer(), 1);
    assert_eq!(half.denom(), 2);
    assert_eq!(half, four_eighths, "4/8 should reduce to 1/2");

    // 6/9  →  2/3
    let f = Fraction::new(6, 9);
    assert_eq!(f.numer(), 2);
    assert_eq!(f.denom(), 3);
    println!("6/9 reduced = {}", f.to_string()); // prints "2/3"

    // A negative fraction keeps the sign on the numerator, denominator stays > 0
    let neg = Fraction::new(-3, 6);
    assert_eq!(neg.numer(), -1);
    assert_eq!(neg.denom(), 2);
    println!("-3/6 reduced = {}", neg.to_string()); // prints "-1/2"

    // Constructing from an integer
    let three = Fraction::from_integer(3);
    assert!(three.is_integer()); // denominator is 1
    println!("integer 3 as fraction = {}", three.to_string()); // prints "3"

    // Constructing from a tuple
    let from_tuple: Fraction = (7_i64, 4_i64).into();
    assert_eq!(from_tuple, Fraction::new(7, 4));
    println!("(7,4) as fraction = {}", from_tuple.to_string()); // prints "7/4"
}

#[test]
fn test_fraction_ordering() {
    let a = Fraction::new(1, 3);
    let b = Fraction::new(1, 2);

    assert!(a < b, "1/3 < 1/2");
    assert!(b > a, "1/2 > 1/3");

    // Fractions equal after reduction
    let c = Fraction::new(2, 4); // 1/2
    assert_eq!(b, c);
    assert!(c >= a);
    assert!(a <= c);

    // Sorting a list of fractions by their order
    let mut fracs = vec![
        Fraction::new(5, 6),
        Fraction::new(1, 4),
        Fraction::new(2, 3),
        Fraction::new(1, 2),
    ];
    fracs.sort_by(|x, y| x.partial_cmp(y).unwrap());
    assert_eq!(fracs[0], Fraction::new(1, 4));
    assert_eq!(fracs[3], Fraction::new(5, 6));
    println!("sorted: {:?}", fracs.iter().map(|f| f.to_string()).collect::<Vec<_>>());
}

#[test]
fn fraction_order_is_consistent_with_equality() {
    let a = Fraction::new(2, 6);
    let b = Fraction::new(-1, -3);
    assert_eq!(a.partial_cmp(&b), Some(std::cmp::Ordering::Equal));
    assert_eq!(a, b);
    let c = Fraction::new(-1, 3);
    assert_eq!(c.partial_cmp(&a), Some(std::cmp::Ordering::Less));
    assert_eq!(a.partial_cmp(&c), Some(std::cmp::Ordering::Greater));
}

#[test]
fn fraction_try_new_and_new_nonzero() {
    assert_eq!(Fraction::try_new(3, 0), None);
    assert_eq!(Fraction::try_new(i64::MIN, -1), None);
    assert_eq!(Fraction::try_new(-4, -6), Some(Fraction::new(2, 3)));
    let big = Fraction::new_nonzero(-10, u64::MAX);
    assert_eq!(big.numer(), -2);
    assert_eq!(big.denom(), u64::MAX / 5);
    assert_eq!(big.denom_nonzero(), u64::MAX / 5);
    let from_tuple: Fraction = (5_i64, 0_i64).into();
    assert_eq!(from_tuple, Fraction::new(0, 1));
}

#[test]
fn fraction_checked_overflow_is_none() {
    let max = Fraction::from_integer(i64::MAX);
    assert_eq!(max.checked_add(Fraction::from_integer(1)), None);
    assert_eq!(max.checked_mul(Fraction::from_integer(2)), None);
    let min = Fraction::from_integer(i64::MIN);
    assert_eq!(min.checked_sub(Fraction::from_integer(1)), None);
    assert_eq!(min.checked_div(Fraction::from_integer(-1)), None);
    assert_eq!(
        Fraction::new(1, 2).checked_sub(Fraction::new(1, 2)),
        Some(Fraction::default())
    );
}

#[test]
fn fraction_laws_on_values() {
    let a = Fraction::new(3, 4);
    let b = Fraction::new(-5, 6);
    assert_eq!(a + b, b + a);
    assert_eq!(a * b, b * a);
    assert_eq!((a + b) - b, a);
    assert_eq!((a * b) / b, a);
    assert_eq!(a - b, a + (-b));
    assert_eq!(Fraction::new(0, -7), Fraction::new(0, 1));
    assert_eq!(Fraction::new(7, 3) % Fraction::new(-2, 3), Fraction::new(1, 3));
    assert_eq!(Fraction::new(-7, 3) % Fraction::new(2, 3), Fraction::new(-1, 3));
}

#[test]
fn fraction_text_and_conversions() {
    assert_eq!(Fraction::new(-3, 6).to_string(), "-1/2");
    assert_eq!(Fraction::new(6, 3).to_string(), "2");
    assert_eq!(Fraction::from(-4_i32), Fraction::new(-4, 1));
    assert_eq!(Fraction::from(i64::MIN).to_string(), "-9223372036854775808");
    let mut x = Fraction::new(1, 2);
    x -= Fraction::new(1, 3);
    x *= Fraction::new(3, 1);
    x /= Fraction::new(1, 4);
    assert_eq!(x, Fraction::new(2, 1));
    x %= Fraction::new(3, 4);
    assert_eq!(x, Fraction::new(1, 2));
}

/// Runs the continued-fraction recurrence over the partial quotients
/// `quotients`, as the float conversion drives it.
fn best_convergent(quotients: &[i64], max_denom: i64, negative: bool) -> Option<Fraction> {
    let mut c = Convergents::start();
    for &a in quotients {
        match c.step(a, max_denom) {
            ConvergentStep::Overflow => return None,
            ConvergentStep::Stop => break,
            ConvergentStep::Next(n) => c = n,
        }
    }
    Some(c.finish(negative))
}

#[test]
fn convergents_of_pi_bounded_by_ten() {
    // 3.14159 = [3; 7, 15, 1, ...]: 22/7 is the last convergent with k <= 10.
    assert_eq!(best_convergent(&[3, 7, 15, 1], 10, false), Some(Fraction::new(22, 7)));
    assert_eq!(best_convergent(&[3, 7, 15, 1], 1000, false), Some(Fraction::new(355, 113)));
}

#[test]
fn convergents_of_simple_values() {
    // 1.5 = [1; 2], 0.1 = [0; 10], -0.25 = -[0; 4].
    assert_eq!(best_convergent(&[1, 2], 100, false), Some(Fraction::new(3, 2)));
    assert_eq!(best_convergent(&[0, 10], 10, false), Some(Fraction::new(1, 10)));
    assert_eq!(best_convergent(&[0, 4], 100, true), Some(Fraction::new(-1, 4)));
    // No denominator taken yet: the integer itself.
    assert_eq!(best_convergent(&[], 10, true), Some(Fraction::new(-1, 1)));
    assert_eq!(best_convergent(&[5], 0, false), Some(Fraction::new(1, 1)));
}

#[test]
fn convergents_overflow_is_reported() {
    let c = Convergents::start();
    let c = match c.step(i64::MAX, i64::MAX) {
        ConvergentStep::Next(n) => n,
        _ => panic!("first step fits"),
    };
    assert!(matches!(c.step(2, i64::MAX), ConvergentStep::Overflow));
}

#[test]
fn test_fraction_conversion() {
    let a = Fraction::new(1, 4);

    // To f64 (the conversion itself lives with the program): exact for
    // power-of-two denominators.
    let as_f64 = a.numer() as f64 / a.denom() as f64;
    assert!((as_f64 - 0.25).abs() < 1e-15);

    // Text: "n/d" when denom > 1, or just "n" when it's an integer
    assert_eq!(Fraction::new(3, 5).to_string(), "3/5");
    assert_eq!(Fraction::new(4, 2).to_string(), "2");
    assert_eq!(Fraction::new(-1, 3).to_string(), "-1/3");

    // From integer primitives
    let from_i32: Fraction = (2_i32).into();
    let from_i64: Fraction = (7_i64).into();
    assert_eq!(from_i32, Fraction::new(2, 1));
    assert_eq!(from_i64, Fraction::new(7, 1));
}

#[test]
fn try_new_fails_only_on_zero_or_odd_negative_under_min() {
    assert_eq!(Fraction::try_new(5, 0), None);
    assert_eq!(Fraction::try_new(i64::MIN, -1), None);
    assert_eq!(Fraction::try_new(i64::MIN, -3), None);
    assert_eq!(Fraction::try_new(i64::MIN, -2), Some(Fraction::new(1i64 << 62, 1)));
    assert_eq!(Fraction::try_new(i64::MIN, 3), Some(Fraction::new_nonzero(i64::MIN, 3)));
    assert_eq!(Fraction::try_new(5, 2), Some(Fraction::new(5, 2)));
    let f = Fraction::try_new(-6, -4).unwrap();
    assert_eq!((f.numer(), f.denom()), (3, 2));
}

#[test]
fn addition_commutes_and_zero_is_neutral() {
    let a = Fraction::new(-7, 12);
    let b = Fraction::new(5, 18);
    assert_eq!(a.checked_add(b), b.checked_add(a));
    assert_eq!(a.checked_add(b), Some(Fraction::new(-11, 36)));
    assert_eq!(a.checked_add(Fraction::from_integer(0)), Some(a));
}

#[test]
fn subtraction_is_undone_by_addition() {
    let a = Fraction::new(3, 4);
    let b = Fraction::new(-2, 9);
    let d = a.checked_sub(b).unwrap();
    assert_eq!(d, Fraction::new(35, 36));
    assert_eq!(d.checked_add(b), Some(a));
    assert_eq!(a.checked_sub(a), Some(Fraction::from_integer(0)));
}

#[test]
fn division_is_undone_by_multiplication() {
    let a = Fraction::new(-5, 6);
    let b = Fraction::new(10, 21);
    let q = a.checked_div(b).unwrap();
    assert_eq!(q, Fraction::new(-7, 4));
    assert_eq!(q.checked_mul(b), Some(a));
    assert_eq!(a.checked_div(Fraction::from_integer(0)), None);
}
