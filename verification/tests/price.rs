use stock_market::price::parse_price;
use stock_market::text::{write_decimal, write_price};

#[test]
fn whole_numbers_are_scaled() {
    assert_eq!(parse_price("150"), Some(15000));
    assert_eq!(parse_price("0"), Some(0));
    assert_eq!(parse_price("7"), Some(700));
}

#[test]
fn two_decimals_are_kept() {
    assert_eq!(parse_price("150.5"), Some(15050));
    assert_eq!(parse_price("150.50"), Some(15050));
    assert_eq!(parse_price("0.57"), Some(57));
    assert_eq!(parse_price("0.07"), Some(7));
    assert_eq!(parse_price("100.0"), Some(10000));
}

#[test]
fn further_decimals_are_cut_off() {
    assert_eq!(parse_price("1.999"), Some(199));
    assert_eq!(parse_price("0.009"), Some(0));
    assert_eq!(parse_price("12.3456789"), Some(1234));
}

#[test]
fn exponents_move_the_point() {
    assert_eq!(parse_price("1e2"), Some(10000));
    assert_eq!(parse_price("1E2"), Some(10000));
    assert_eq!(parse_price("1e+2"), Some(10000));
    assert_eq!(parse_price("1.5e-1"), Some(15));
    assert_eq!(parse_price("1.5e-2"), Some(1));
    assert_eq!(parse_price("1.5e-3"), Some(0));
    assert_eq!(parse_price("12345e-4"), Some(123));
    assert_eq!(parse_price("1.2345e3"), Some(123450));
    assert_eq!(parse_price("1e16"), Some(1_000_000_000_000_000_000));
    assert_eq!(parse_price("0.000001e6"), Some(100));
}

#[test]
fn negative_numbers_read_as_zero() {
    assert_eq!(parse_price("-3"), Some(0));
    assert_eq!(parse_price("-0.5"), Some(0));
    assert_eq!(parse_price("-1e300"), Some(0));
}

#[test]
fn large_numbers_read_as_the_largest_price() {
    assert_eq!(parse_price("184467440737095516.15"), Some(usize::MAX));
    assert_eq!(parse_price("184467440737095516.14"), Some(usize::MAX - 1));
    assert_eq!(parse_price("184467440737095516.16"), Some(usize::MAX));
    assert_eq!(parse_price("18446744073709551615"), Some(usize::MAX));
    assert_eq!(parse_price("1e300"), Some(usize::MAX));
    assert_eq!(parse_price("1e18"), Some(usize::MAX));
    assert_eq!(parse_price("1e17"), Some(10_000_000_000_000_000_000));
    assert_eq!(parse_price("0.00001e999999999999999999999999999999"), Some(usize::MAX));
}

#[test]
fn huge_exponents_do_not_run_long() {
    assert_eq!(parse_price("0e999999999999999999999999999999"), Some(0));
    assert_eq!(parse_price("0.000e12345678901234567890"), Some(0));
    assert_eq!(parse_price("5e-999999999999999999999999999999"), Some(0));
    assert_eq!(parse_price("5e-12345678901234567890"), Some(0));
}

#[test]
fn text_that_is_no_number_reads_as_nothing() {
    assert_eq!(parse_price(""), None);
    assert_eq!(parse_price("-"), None);
    assert_eq!(parse_price("abc"), None);
    assert_eq!(parse_price("1."), None);
    assert_eq!(parse_price(".5"), None);
    assert_eq!(parse_price("1e"), None);
    assert_eq!(parse_price("1e+"), None);
    assert_eq!(parse_price("1.5x"), None);
    assert_eq!(parse_price("1 "), None);
    assert_eq!(parse_price(" 1"), None);
    assert_eq!(parse_price("+1"), None);
    assert_eq!(parse_price("1,5"), None);
    assert_eq!(parse_price("1e2.5"), None);
    assert_eq!(parse_price("１"), None);
    assert_eq!(parse_price("null"), None);
}

#[test]
fn decimal_text_of_numbers() {
    let mut out = String::new();
    write_decimal(&mut out, 0);
    out.push(' ');
    write_decimal(&mut out, 9);
    out.push(' ');
    write_decimal(&mut out, 10);
    out.push(' ');
    write_decimal(&mut out, 1234567890);
    out.push(' ');
    write_decimal(&mut out, u128::MAX);
    assert_eq!(out, "0 9 10 1234567890 340282366920938463463374607431768211455");
}

#[test]
fn price_text_has_two_decimals() {
    let mut out = String::from("p=");
    write_price(&mut out, 15050);
    out.push(' ');
    write_price(&mut out, 5);
    out.push(' ');
    write_price(&mut out, 0);
    out.push(' ');
    write_price(&mut out, 100);
    out.push(' ');
    write_price(&mut out, 1999);
    assert_eq!(out, "p=150.50 0.05 0.00 1.00 19.99");
}

#[test]
fn written_prices_read_back() {
    for price in [0usize, 1, 9, 10, 99, 100, 101, 15050, 123456789, usize::MAX] {
        let mut text = String::new();
        write_price(&mut text, price);
        assert_eq!(parse_price(&text), Some(price));
    }
}
