use trakbit::app::closest_strike_index;
use trakbit::model::{
    contract_delta_or_zero, contract_iv_or_zero, contract_ltp_or_zero, find_near_strike,
    DepthEntry, MarketData, Ohlc, OptionContract, OptionData, OptionGreeks, QuoteData,
};

fn row(strike: i64) -> OptionData {
    OptionData {
        expiry: "2026-01-27".to_string(),
        strike_price: strike,
        underlying_key: "NIFTY".to_string(),
        underlying_spot_price: 0,
        call_options: None,
        put_options: None,
    }
}

#[test]
fn test_dummy_quote() {
    let q = QuoteData::dummy();
    assert_eq!(q.instrument_token, "DUMMY");
    assert_eq!(q.symbol, "DUMMY");
    assert_eq!(q.last_price, 10000);
    assert_eq!(q.depth.buy.len(), 5);
    assert_eq!(q.depth.buy[0], DepthEntry { quantity: 100, price: 9950, orders: 5 });
    assert_eq!(q.depth.sell[4], DepthEntry { quantity: 10, price: 10250, orders: 1 });
    assert_eq!(q.ohlc, Ohlc { open: 10000, high: 10200, low: 9800, close: 10000 });
    assert_eq!(q.volume, 1000);
    assert_eq!(q.oi, 5000000);
}

#[test]
fn test_contract_fields_or_zero() {
    let c = Some(OptionContract {
        instrument_key: "k".to_string(),
        market_data: MarketData { ltp: 1234, oi: 1, bid_price: 1200, ask_price: 1250 },
        option_greeks: Some(OptionGreeks { delta: -4200, iv: 123456 }),
    });
    assert_eq!(contract_ltp_or_zero(&c), 1234);
    assert_eq!(contract_delta_or_zero(&c), -4200);
    assert_eq!(contract_iv_or_zero(&c), 123456);
    assert_eq!(contract_ltp_or_zero(&None), 0);
    assert_eq!(contract_delta_or_zero(&None), 0);
    let no_greeks = Some(OptionContract {
        instrument_key: "k".to_string(),
        market_data: MarketData { ltp: 1, oi: 1, bid_price: 1, ask_price: 1 },
        option_greeks: None,
    });
    assert_eq!(contract_iv_or_zero(&no_greeks), 0);
}

#[test]
fn test_find_near_strike() {
    let data = vec![row(10000), row(10050), row(10100)];
    assert_eq!(find_near_strike(&data, 10040, 100), Some(0));
    assert_eq!(find_near_strike(&data, 10050, 1), Some(1));
    assert_eq!(find_near_strike(&data, 10049, 1), None);
    assert_eq!(find_near_strike(&Vec::new(), 0, 100), None);
}

#[test]
fn test_closest_strike_index_takes_first_of_ties() {
    let data = vec![row(10000), row(10500), row(11000)];
    assert_eq!(closest_strike_index(&data, 10250), Some(0));
    assert_eq!(closest_strike_index(&data, 10800), Some(2));
    assert_eq!(closest_strike_index(&Vec::new(), 10800), None);
}
