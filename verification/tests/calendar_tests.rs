use trakbit::app::App;
use trakbit::calendar::{is_on_or_after, Date};
use trakbit::model::OptionData;

fn day(year: i32, month: u32, d: u32) -> Date {
    Date { year, month, day: d }
}

fn chain_expiring(expiry: &str) -> Vec<OptionData> {
    vec![OptionData {
        expiry: expiry.to_string(),
        strike_price: 2300000,
        underlying_key: "NSE_INDEX|Nifty 50".to_string(),
        underlying_spot_price: 2301235,
        call_options: None,
        put_options: None,
    }]
}

#[test]
fn test_is_on_or_after() {
    assert!(is_on_or_after(day(2026, 1, 6), day(2026, 1, 6)));
    assert!(is_on_or_after(day(2026, 2, 1), day(2026, 1, 31)));
    assert!(is_on_or_after(day(2027, 1, 1), day(2026, 12, 31)));
    assert!(!is_on_or_after(day(2025, 12, 31), day(2026, 1, 1)));
    assert!(!is_on_or_after(day(2026, 1, 5), day(2026, 1, 6)));
}

#[test]
fn test_expiry_labels_are_read_and_written_in_iso_form() {
    let app = App::new_on(day(2026, 3, 1));
    assert_eq!(
        app.available_expiries,
        vec!["2026-03-30", "2026-06-30", "2026-09-29", "2026-12-29"]
    );
}

#[test]
fn test_days_to_expiry_counts_calendar_days() {
    let mut app = App::new_on(day(2024, 1, 1));
    app.data = chain_expiring("2025-01-01");
    // 2024 is a leap year.
    assert_eq!(app.strategy_inputs(day(2024, 1, 1)).days_to_expiry, 366);
    app.data = chain_expiring("2026-03-01");
    assert_eq!(app.strategy_inputs(day(2026, 2, 27)).days_to_expiry, 2);
}

#[test]
fn test_unreadable_expiry_counts_one_day() {
    let mut app = App::new_on(day(2026, 1, 1));
    app.data = chain_expiring("13 Jan 2026");
    assert_eq!(app.strategy_inputs(day(2026, 1, 1)).days_to_expiry, 1);
    app.data = chain_expiring("2026-02-31");
    assert_eq!(app.strategy_inputs(day(2026, 1, 1)).days_to_expiry, 1);
}
