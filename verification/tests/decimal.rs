use arroyo_control::decimal::compare_numbers;

#[test]
fn numbers_compare_by_value() {
    assert_eq!(compare_numbers("150.0", "100"), Ok(1));
    assert_eq!(compare_numbers("100", "100.000"), Ok(0));
    assert_eq!(compare_numbers("-0", "0.0"), Ok(0));
    assert_eq!(compare_numbers("-2.5", "-2.25"), Ok(-1));
    assert_eq!(compare_numbers("+7", "-7"), Ok(1));
    assert_eq!(compare_numbers("0.1", "0.09"), Ok(1));
}

#[test]
fn texts_that_are_not_numbers_are_refused() {
    assert_eq!(compare_numbers("1.", "1"), Err("Invalid number: 1.".to_string()));
    assert_eq!(compare_numbers("1", ".5"), Err("Invalid number: .5".to_string()));
    assert_eq!(compare_numbers("1.2.3", "1"), Err("Invalid number: 1.2.3".to_string()));
    assert_eq!(compare_numbers("", "1"), Err("Invalid number: ".to_string()));
}

#[test]
fn numbers_beyond_128_bits_are_refused() {
    let huge = "1".repeat(40);
    assert_eq!(compare_numbers(&huge, "1"), Err(format!("Number out of range: {}", huge)));
    assert_eq!(compare_numbers("1", "0.0000000000000000000000000000000000000001"), Err("Number out of range: 1".to_string()));
}
