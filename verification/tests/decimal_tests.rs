use ws_session::decimal::Decimal;
use ws_session::{Price, Quantity};

fn d(s: &str) -> Decimal {
    Price::from_str(s).unwrap().0
}

#[test]
fn order_is_that_of_the_numbers() {
    assert!(d("0.5") < d("0.51"));
    assert!(d("-1") < d("0.0001"));
    assert!(d("10") > d("9.99999"));
    assert_eq!(d("1.10"), d("1.1"));
    assert_eq!(d("-0"), d("0"));
    assert_ne!(d("1"), d("-1"));
    assert!(d("2").less_than(&d("3")));
    assert!(!d("3").less_than(&d("3.0")));
}

#[test]
fn ticks_tell_numbers_apart() {
    assert_eq!(d("0.50").tick(), d("0.5").tick());
    assert_eq!(d("-0.0").tick(), d("0").tick());
    assert_eq!(d("100").tick(), d("100.000").tick());
    let numbers = ["0", "1", "-1", "10", "0.1", "-0.1", "0.01", "100", "1.01", "0.5"];
    for (i, a) in numbers.iter().enumerate() {
        for (j, b) in numbers.iter().enumerate() {
            assert_eq!(d(a).tick() == d(b).tick(), i == j);
        }
    }
}

#[test]
fn sums_and_differences_are_exact() {
    assert_eq!(d("0.1").checked_add(d("0.25")).unwrap().to_string(), "0.35");
    assert_eq!(d("1.50").checked_add(d("0.5")).unwrap().to_string(), "2.00");
    assert_eq!(d("0").checked_add(d("2.10")).unwrap().to_string(), "2.10");
    assert_eq!(d("2.10").checked_add(d("0.000")).unwrap().to_string(), "2.10");
    assert_eq!(d("0.52").checked_sub(d("0.5")).unwrap().to_string(), "0.02");
    assert_eq!(d("0").checked_sub(d("1.5")).unwrap().to_string(), "-1.5");
    assert_eq!(d("1.5").checked_sub(d("1.50")).unwrap().to_string(), "0.00");
}

#[test]
fn what_no_decimal_can_hold_is_none() {
    let largest = d("79228162514264337593543950335");
    assert!(largest.checked_add(d("1")).is_none());
    assert!(d("-79228162514264337593543950335").checked_sub(d("1")).is_none());
    assert!(Price::from_str("79228162514264337593543950336").is_none());
    assert!(Quantity::from_str("").is_none());
    assert!(Quantity::from_str(" 1").is_none());
}

#[test]
fn zero_and_small_numbers() {
    assert!(Decimal::zero().is_zero());
    assert!(d("0.000").is_zero());
    assert!(d("-0.000").is_zero());
    assert!(!d("0.001").is_zero());
    assert_eq!(Decimal::zero().to_string(), "0");
    assert_eq!(Decimal::from(42).to_string(), "42");
    assert_eq!(d("0.0000000000000000000000000001").to_string(), "0.0000000000000000000000000001");
    assert_eq!(d("-0.5").to_string(), "-0.5");
    assert_eq!(d("007.10").to_string(), "7.10");
}

#[test]
fn what_is_printed_is_read_back() {
    for text in ["0", "1", "-1", "0.10", "-123.4560", "79228162514264337593543950335"] {
        let price = Price::from_str(text).unwrap();
        assert_eq!(price.to_string(), text);
        let again = Price::from_str(&price.to_string()).unwrap();
        assert_eq!(again, price);
        assert_eq!(again.to_string(), price.to_string());
    }
}

#[test]
fn prices_and_quantities_are_ordered() {
    assert!(Price::from_str("1").unwrap() < Price::from_str("2").unwrap());
    assert!(Quantity::from_str("2.5").unwrap() > Quantity::from_str("2.45").unwrap());
    assert_eq!(Quantity::from_str("2.50").unwrap(), Quantity::from_str("2.5").unwrap());
}

#[test]
fn text_that_is_no_number_is_refused() {
    for text in [
        "", "abc", "1.2.3", ".", "-", "_1", "1 ", " 1", "--1", "1-", "1,5", "0x1", "e5", "1e", "1.e.5",
        "1e5.0", "1e5e5", "\u{661}", "1.0000000000000000000000000000000000.5",
    ] {
        assert_eq!(Price::from_str(text), None, "{text}");
        assert_eq!(Quantity::from_str(text), None, "{text}");
    }
    // What else is a number.
    assert_eq!(d("+1_0.5").to_string(), "10.5");
    assert_eq!(d(".5").to_string(), "0.5");
    assert_eq!(d("1.2e1").to_string(), "12");
    assert_eq!(d("5E-1").to_string(), "0.5");
}
