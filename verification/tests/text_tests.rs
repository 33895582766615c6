use trakbit::text::{fixed_string, format_indian_currency, plain_string};

#[test]
fn test_format_indian_currency() {
    assert_eq!(format_indian_currency(10000000), "₹1,00,000");
    assert_eq!(format_indian_currency(12345678900), "₹12,34,56,789");
    assert_eq!(format_indian_currency(99999), "₹999");
    assert_eq!(format_indian_currency(100000), "₹1,000");
    assert_eq!(format_indian_currency(0), "₹0");
    assert_eq!(format_indian_currency(-50), "-₹0");
    assert_eq!(format_indian_currency(-123456789), "-₹12,34,567");
}

#[test]
fn test_fixed_string() {
    assert_eq!(fixed_string(12345, 2), "123.45");
    assert_eq!(fixed_string(-5, 2), "-0.05");
    assert_eq!(fixed_string(700, 2), "7.00");
    assert_eq!(fixed_string(42, 0), "42");
}

#[test]
fn test_plain_string() {
    assert_eq!(plain_string(220050, 2), "2200.5");
    assert_eq!(plain_string(220000, 2), "2200");
    assert_eq!(plain_string(-3000, 4), "-0.3");
    assert_eq!(plain_string(1600, 4), "0.16");
    assert_eq!(plain_string(7, 2), "0.07");
}
