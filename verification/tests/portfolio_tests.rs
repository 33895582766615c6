use trakbit::model::{MarketData, OptionContract, OptionData};
use trakbit::portfolio::{find_leg, Portfolio};
use trakbit::strategy::{OptionType, Position};

fn row(strike: i64, call_ltp: Option<i64>, put_ltp: Option<i64>) -> OptionData {
    let side = |ltp: Option<i64>| {
        ltp.map(|p| OptionContract {
            instrument_key: "k".to_string(),
            market_data: MarketData { ltp: p, oi: 0, bid_price: p, ask_price: p },
            option_greeks: None,
        })
    };
    OptionData {
        expiry: "2026-01-27".to_string(),
        strike_price: strike,
        underlying_key: "NIFTY".to_string(),
        underlying_spot_price: 2200000,
        call_options: side(call_ltp),
        put_options: side(put_ltp),
    }
}

#[test]
fn test_trade_opens_leg_and_reports() {
    let mut p = Portfolio::new();
    let msg = p.trade(2200000, OptionType::Put, 12050, true);
    assert_eq!(msg, "BUY PE 22000 @ 120.50");
    assert_eq!(
        p.positions,
        vec![Position { strike: 2200000, kind: OptionType::Put, qty: 1, entry_price: 12050 }]
    );
    let msg = p.trade(2200050, OptionType::Call, 5, false);
    assert_eq!(msg, "SELL CE 22000.5 @ 0.05");
    assert_eq!(p.positions.len(), 2);
    assert_eq!(p.positions[1].qty, -1);
}

#[test]
fn test_trade_averages_bought_lots() {
    let mut p = Portfolio::new();
    p.trade(10000, OptionType::Call, 10000, true);
    p.trade(10000, OptionType::Call, 11000, true);
    assert_eq!(p.positions[0].qty, 2);
    assert_eq!(p.positions[0].entry_price, 10500);
    p.trade(10000, OptionType::Call, 12000, true);
    assert_eq!(p.positions[0].qty, 3);
    assert_eq!(p.positions[0].entry_price, 11000);
}

#[test]
fn test_trade_averages_sold_lots_toward_zero() {
    let mut p = Portfolio::new();
    p.trade(10000, OptionType::Put, 5000, false);
    p.trade(10000, OptionType::Put, 6001, false);
    assert_eq!(p.positions[0].qty, -2);
    assert_eq!(p.positions[0].entry_price, 5500);
}

#[test]
fn test_trade_flips_against_held_side() {
    let mut p = Portfolio::new();
    p.trade(10000, OptionType::Call, 700, true);
    p.trade(10000, OptionType::Call, 900, true);
    p.trade(10000, OptionType::Call, 650, false);
    assert_eq!(p.positions, vec![Position { strike: 10000, kind: OptionType::Call, qty: -1, entry_price: 650 }]);
    p.trade(10000, OptionType::Call, 600, true);
    assert_eq!(p.positions, vec![Position { strike: 10000, kind: OptionType::Call, qty: 1, entry_price: 600 }]);
}

#[test]
fn test_trade_never_leaves_empty_leg() {
    let mut p = Portfolio::new();
    for i in 0..6 {
        p.trade(10000, OptionType::Put, 100, i % 2 == 0);
        assert!(p.positions.iter().all(|l| l.qty != 0));
    }
    assert_eq!(p.positions.len(), 1);
}

#[test]
fn test_same_strike_other_kind_is_another_leg() {
    let mut p = Portfolio::new();
    p.trade(10000, OptionType::Call, 100, true);
    p.trade(10000, OptionType::Put, 200, true);
    assert_eq!(p.positions.len(), 2);
    assert_eq!(find_leg(&p.positions, 10000, OptionType::Put), Some(1));
    assert_eq!(find_leg(&p.positions, 10500, OptionType::Put), None);
}

#[test]
fn test_remove_drops_every_matching_leg() {
    let mut p = Portfolio::new();
    p.positions = vec![
        Position { strike: 10000, kind: OptionType::Call, qty: 1, entry_price: 5 },
        Position { strike: 10000, kind: OptionType::Put, qty: 1, entry_price: 6 },
        Position { strike: 10000, kind: OptionType::Call, qty: -2, entry_price: 7 },
    ];
    p.remove(10000, OptionType::Call);
    assert_eq!(p.positions, vec![Position { strike: 10000, kind: OptionType::Put, qty: 1, entry_price: 6 }]);
    p.remove(10000, OptionType::Call);
    assert_eq!(p.positions.len(), 1);
}

#[test]
fn test_update_prices_from_chain() {
    let mut p = Portfolio::new();
    p.positions = vec![
        Position { strike: 10005, kind: OptionType::Call, qty: 1, entry_price: 1 },
        Position { strike: 10500, kind: OptionType::Put, qty: -1, entry_price: 2 },
        Position { strike: 11000, kind: OptionType::Call, qty: 1, entry_price: 3 },
        Position { strike: 10020, kind: OptionType::Put, qty: 1, entry_price: 4 },
    ];
    let data = vec![row(10000, Some(800), Some(300)), row(10500, Some(500), None)];
    p.update_prices(&data);
    // Within 0.10 of 100.00: repriced from the call side.
    assert_eq!(p.positions[0].entry_price, 800);
    // The put side is not quoted at 105.00.
    assert_eq!(p.positions[1].entry_price, 2);
    // No row at 110.00.
    assert_eq!(p.positions[2].entry_price, 3);
    // 100.20 is not within 0.10 of 100.00.
    assert_eq!(p.positions[3].entry_price, 4);
}

#[test]
fn test_update_prices_twice_is_once() {
    let mut p = Portfolio::new();
    p.positions = vec![
        Position { strike: 10000, kind: OptionType::Put, qty: -1, entry_price: 1 },
        Position { strike: 10500, kind: OptionType::Call, qty: 2, entry_price: 2 },
    ];
    let data = vec![row(10000, Some(800), Some(300)), row(10500, Some(500), None)];
    p.update_prices(&data);
    let once = p.positions.clone();
    p.update_prices(&data);
    assert_eq!(p.positions, once);
    assert_eq!(once[0].entry_price, 300);
    assert_eq!(once[1].entry_price, 500);
}

#[test]
fn test_trade_keeps_one_leg_per_key() {
    let mut p = Portfolio::new();
    let trades = [
        (10000, OptionType::Call, true),
        (10000, OptionType::Put, false),
        (10000, OptionType::Call, false),
        (10500, OptionType::Call, true),
        (10000, OptionType::Put, false),
        (10500, OptionType::Call, false),
    ];
    for (strike, kind, is_buy) in trades {
        p.trade(strike, kind, 100, is_buy);
        for (i, a) in p.positions.iter().enumerate() {
            for b in p.positions[i + 1..].iter() {
                assert!(!(a.strike == b.strike && a.kind == b.kind));
            }
        }
        let held = p.positions.iter().find(|l| l.strike == strike && l.kind == kind).unwrap();
        assert_eq!(held.qty > 0, is_buy);
    }
    assert_eq!(p.positions.len(), 3);
}
