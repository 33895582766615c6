use trakbit::model::{MarketData, OptionContract, OptionData, OptionGreeks};
use trakbit::strategy::{OptionType, Position, Strategy};
use trakbit::strategy_builder::StrategyBuilder;

fn side(ltp: i64, delta: i64) -> Option<OptionContract> {
    Some(OptionContract {
        instrument_key: "k".to_string(),
        market_data: MarketData { ltp, oi: 0, bid_price: ltp - 50, ask_price: ltp + 50 },
        option_greeks: Some(OptionGreeks { delta, iv: 150000 }),
    })
}

fn row(strike_rupees: i64, call: Option<OptionContract>, put: Option<OptionContract>) -> OptionData {
    OptionData {
        expiry: "2026-01-27".to_string(),
        strike_price: strike_rupees * 100,
        underlying_key: "NIFTY".to_string(),
        underlying_spot_price: 110000,
        call_options: call,
        put_options: put,
    }
}

/// Strikes 900 to 1400 in steps of 100, deltas from deep in the money to
/// far out of it.
fn chain() -> Vec<OptionData> {
    vec![
        row(900, side(21000, 8500), side(500, -1500)),
        row(1000, side(12000, 7000), side(1500, -3000)),
        row(1100, side(6000, 5000), side(5000, -5000)),
        row(1200, side(2500, 3000), side(11000, -7000)),
        row(1300, side(1000, 1600), side(20000, -8400)),
        row(1400, side(300, 500), side(30000, -9500)),
    ]
}

fn leg(strike_rupees: i64, kind: OptionType, qty: i32, entry_price: i64) -> Position {
    Position { strike: strike_rupees * 100, kind, qty, entry_price }
}

fn ok(strategy: Strategy, data: &Vec<OptionData>) -> (Vec<Position>, String) {
    StrategyBuilder::build(strategy, data).unwrap()
}

fn err(strategy: Strategy, data: &Vec<OptionData>) -> String {
    StrategyBuilder::build(strategy, data).unwrap_err()
}

#[test]
fn test_long_and_short_single_options() {
    let data = chain();
    let (ps, msg) = ok(Strategy::LongCall, &data);
    assert_eq!(ps, vec![leg(1100, OptionType::Call, 1, 6000)]);
    assert_eq!(msg, "Applied: Long Call (1100)");
    let (ps, msg) = ok(Strategy::LongPut, &data);
    assert_eq!(ps, vec![leg(1100, OptionType::Put, 1, 5000)]);
    assert_eq!(msg, "Applied: Long Put (1100)");
    let (ps, msg) = ok(Strategy::ShortCall, &data);
    assert_eq!(ps, vec![leg(1200, OptionType::Call, -1, 2500)]);
    assert_eq!(msg, "Applied: Short Call (1200)");
    let (ps, msg) = ok(Strategy::ShortPut, &data);
    assert_eq!(ps, vec![leg(1000, OptionType::Put, -1, 1500)]);
    assert_eq!(msg, "Applied: Short Put (1000)");
}

#[test]
fn test_vertical_spreads() {
    let data = chain();
    let (ps, msg) = ok(Strategy::CallCreditSpread, &data);
    assert_eq!(ps, vec![leg(1200, OptionType::Call, -1, 2500), leg(1300, OptionType::Call, 1, 1000)]);
    assert_eq!(msg, "Applied: CCS (1200/1300)");
    let (ps, msg) = ok(Strategy::PutCreditSpread, &data);
    assert_eq!(ps, vec![leg(1000, OptionType::Put, -1, 1500), leg(900, OptionType::Put, 1, 500)]);
    assert_eq!(msg, "Applied: PCS (1000/900)");
    let (ps, msg) = ok(Strategy::CallDebitSpread, &data);
    assert_eq!(ps, vec![leg(1100, OptionType::Call, 1, 6000), leg(1200, OptionType::Call, -1, 2500)]);
    assert_eq!(msg, "Applied: CDS (1100/1200)");
    let (ps, msg) = ok(Strategy::PutDebitSpread, &data);
    assert_eq!(ps, vec![leg(1100, OptionType::Put, 1, 5000), leg(1000, OptionType::Put, -1, 1500)]);
    assert_eq!(msg, "Applied: PDS (1100/1000)");
}

#[test]
fn test_straddle_strangle_and_iron_fly() {
    let data = chain();
    let (ps, msg) = ok(Strategy::ShortStraddle, &data);
    assert_eq!(ps, vec![leg(1100, OptionType::Call, -1, 6000), leg(1100, OptionType::Put, -1, 5000)]);
    assert_eq!(msg, "Applied: Short Straddle (1100)");
    let (ps, msg) = ok(Strategy::ShortStrangle, &data);
    assert_eq!(ps, vec![leg(1300, OptionType::Call, -1, 1000), leg(900, OptionType::Put, -1, 500)]);
    assert_eq!(msg, "Applied: Short Strangle (900/1300)");
    let (ps, msg) = ok(Strategy::IronButterfly, &data);
    assert_eq!(
        ps,
        vec![
            leg(1100, OptionType::Call, -1, 6000),
            leg(1100, OptionType::Put, -1, 5000),
            leg(1300, OptionType::Call, 1, 1000),
            leg(900, OptionType::Put, 1, 500),
        ]
    );
    assert_eq!(msg, "Applied: Iron Fly (1100)");
}

#[test]
fn test_iron_condor() {
    let mut data = chain();
    assert_eq!(err(Strategy::IronCondor, &data), "Error: Wings for Iron Condor not found");
    data.insert(0, row(700, side(40000, 9600), side(100, -400)));
    data.push(row(1500, side(100, 400), side(40000, -9600)));
    let (ps, msg) = ok(Strategy::IronCondor, &data);
    assert_eq!(
        ps,
        vec![
            leg(1300, OptionType::Call, -1, 1000),
            leg(900, OptionType::Put, -1, 500),
            leg(1500, OptionType::Call, 1, 100),
            leg(700, OptionType::Put, 1, 100),
        ]
    );
    assert_eq!(msg, "Applied: Iron Condor (900/1300)");
}

#[test]
fn test_errors_on_empty_chain() {
    let data = Vec::new();
    assert_eq!(err(Strategy::CallCreditSpread, &data), "Error: Anchor leg (Delta ~0.3) not found");
    assert_eq!(err(Strategy::PutCreditSpread, &data), "Error: Anchor leg (Delta ~-0.3) not found");
    assert_eq!(err(Strategy::CallDebitSpread, &data), "Error: Anchor leg (Delta ~0.5) not found");
    assert_eq!(err(Strategy::LongCall, &data), "Error: Option (Delta ~0.5) not found");
    assert_eq!(err(Strategy::ShortPut, &data), "Error: Option (Delta ~-0.3) not found");
    assert_eq!(err(Strategy::ShortStraddle, &data), "Error: ATM Strike not found");
    assert_eq!(err(Strategy::ShortStrangle, &data), "Error: Strangle legs (Delta ~0.16) not found");
    assert_eq!(err(Strategy::IronButterfly, &data), "Error: ATM Center not found");
    assert_eq!(err(Strategy::IronCondor, &data), "Error: Short legs (Delta ~0.16) not found");
}

#[test]
fn test_missing_wing_and_missing_side() {
    let only_atm = vec![row(1100, side(6000, 5000), None)];
    assert_eq!(err(Strategy::CallDebitSpread, &only_atm), "Error: Wing strike 1200 not found");
    assert_eq!(err(Strategy::ShortStraddle, &only_atm), "Put data missing for strike 1100");
    assert_eq!(err(Strategy::IronButterfly, &only_atm), "Error: Wings for Iron Butterfly not found");

    let mut data = chain();
    data[3].call_options = None;
    // The wing row at 1200 quotes no call.
    assert_eq!(err(Strategy::CallDebitSpread, &data), "Call data missing for strike 1200");
}

#[test]
fn test_quality_filter_and_ties() {
    let mut data = chain();
    // A wide spread rules the 0.5-delta call out; 0.7 and 0.3 tie, the
    // first one wins.
    data[2].call_options = Some(OptionContract {
        instrument_key: "k".to_string(),
        market_data: MarketData { ltp: 6000, oi: 0, bid_price: 4000, ask_price: 8000 },
        option_greeks: Some(OptionGreeks { delta: 5000, iv: 0 }),
    });
    let (ps, _) = ok(Strategy::LongCall, &data);
    assert_eq!(ps, vec![leg(1000, OptionType::Call, 1, 12000)]);
}

#[test]
fn test_wing_found_within_one_rupee() {
    let mut data = chain();
    data[4].strike_price = 130050;
    // The wing leg keeps the target strike, priced from the nearby row.
    let (ps, msg) = ok(Strategy::CallCreditSpread, &data);
    assert_eq!(ps, vec![leg(1200, OptionType::Call, -1, 2500), leg(1300, OptionType::Call, 1, 1000)]);
    assert_eq!(msg, "Applied: CCS (1200/1300)");
}
