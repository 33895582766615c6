//! Market data: the option chain and the quote with its order-book depth.
//!
//! Every price, strike and open interest is an integer count of hundredths
//! (paise, for rupee amounts); option greeks (delta, implied volatility) are
//! integer counts of ten-thousandths.
use vstd::prelude::*;
use vstd::string::StringExecFns;

verus! {

/// Units per rupee of every price and strike.
pub const PRICE_SCALE: i64 = 100;

/// Units per 1.0 of delta and per percentage point of implied volatility.
pub const GREEK_SCALE: i64 = 10000;

#[derive(Debug, Clone)]
pub struct ApiResponse {
    pub status: String,
    pub data: Vec<OptionData>,
}

#[derive(Debug, Clone)]
pub struct OptionData {
    pub expiry: String,
    pub strike_price: i64,
    pub underlying_key: String,
    pub underlying_spot_price: i64,
    pub call_options: Option<OptionContract>,
    pub put_options: Option<OptionContract>,
}

#[derive(Debug, Clone)]
pub struct OptionContract {
    pub instrument_key: String,
    pub market_data: MarketData,
    pub option_greeks: Option<OptionGreeks>,
}

#[derive(Debug, Clone, Copy, PartialEq, Eq, Structural)]
pub struct OptionGreeks {
    pub delta: i64,
    pub iv: i64,
}

#[derive(Debug, Clone, Copy, PartialEq, Eq, Structural)]
pub struct MarketData {
    pub ltp: i64,
    pub oi: i64,
    pub bid_price: i64,
    pub ask_price: i64,
}

#[derive(Debug, Clone)]
pub struct QuoteData {
    pub instrument_token: String,
    pub symbol: String,
    pub last_price: i64,
    pub depth: Depth,
    pub ohlc: Ohlc,
    pub volume: i64,
    pub oi: i64,
}

#[derive(Debug, Clone)]
pub struct Depth {
    pub buy: Vec<DepthEntry>,
    pub sell: Vec<DepthEntry>,
}

#[derive(Debug, Clone, Copy, PartialEq, Eq, Structural)]
pub struct DepthEntry {
    pub quantity: i32,
    pub price: i64,
    pub orders: i32,
}

#[derive(Debug, Clone, Copy, PartialEq, Eq, Structural)]
pub struct Ohlc {
    pub open: i64,
    pub high: i64,
    pub low: i64,
    pub close: i64,
}

/// The five bid levels of the placeholder quote.
pub open spec fn dummy_bids() -> Seq<DepthEntry> {
    seq![
        DepthEntry { quantity: 100, price: 9950, orders: 5 },
        DepthEntry { quantity: 200, price: 9900, orders: 3 },
        DepthEntry { quantity: 150, price: 9850, orders: 2 },
        DepthEntry { quantity: 50, price: 9800, orders: 1 },
        DepthEntry { quantity: 20, price: 9750, orders: 1 },
    ]
}

/// The five ask levels of the placeholder quote.
pub open spec fn dummy_asks() -> Seq<DepthEntry> {
    seq![
        DepthEntry { quantity: 80, price: 10050, orders: 4 },
        DepthEntry { quantity: 120, price: 10100, orders: 6 },
        DepthEntry { quantity: 90, price: 10150, orders: 2 },
        DepthEntry { quantity: 40, price: 10200, orders: 1 },
        DepthEntry { quantity: 10, price: 10250, orders: 1 },
    ]
}

impl QuoteData {
    /// A placeholder quote (used in demo mode): last price 100.00, a
    /// five-level book around it, volume 1000, open interest 50000.
    pub fn dummy() -> (q: Self)
        ensures
            q.instrument_token@ == "DUMMY"@,
            q.symbol@ == "DUMMY"@,
            q.last_price == 10000,
            q.depth.buy@ == dummy_bids(),
            q.depth.sell@ == dummy_asks(),
            q.ohlc == (Ohlc { open: 10000, high: 10200, low: 9800, close: 10000 }),
            q.volume == 1000,
            q.oi == 5000000,
    {
        let buy = vec![
            DepthEntry { quantity: 100, price: 9950, orders: 5 },
            DepthEntry { quantity: 200, price: 9900, orders: 3 },
            DepthEntry { quantity: 150, price: 9850, orders: 2 },
            DepthEntry { quantity: 50, price: 9800, orders: 1 },
            DepthEntry { quantity: 20, price: 9750, orders: 1 },
        ];
        let sell = vec![
            DepthEntry { quantity: 80, price: 10050, orders: 4 },
            DepthEntry { quantity: 120, price: 10100, orders: 6 },
            DepthEntry { quantity: 90, price: 10150, orders: 2 },
            DepthEntry { quantity: 40, price: 10200, orders: 1 },
            DepthEntry { quantity: 10, price: 10250, orders: 1 },
        ];
        assert(buy@ =~= dummy_bids());
        assert(sell@ =~= dummy_asks());
        QuoteData {
            instrument_token: String::from_str("DUMMY"),
            symbol: String::from_str("DUMMY"),
            last_price: 10000,
            depth: Depth { buy, sell },
            ohlc: Ohlc { open: 10000, high: 10200, low: 9800, close: 10000 },
            volume: 1000,
            oi: 5000000,
        }
    }
}

/// The contract of the given side of a chain row.
pub open spec fn side_contract(row: OptionData, is_call: bool) -> Option<OptionContract> {
    if is_call { row.call_options } else { row.put_options }
}

/// The last traded price of a contract, 0 when the contract is absent.
pub open spec fn ltp_or_zero(c: Option<OptionContract>) -> i64 {
    match c {
        Some(o) => o.market_data.ltp,
        None => 0,
    }
}

/// The delta of a contract, 0 when the contract or its greeks are absent.
pub open spec fn delta_or_zero(c: Option<OptionContract>) -> i64 {
    match c {
        Some(o) => match o.option_greeks {
            Some(g) => g.delta,
            None => 0,
        },
        None => 0,
    }
}

/// The implied volatility of a contract, 0 when the contract or its greeks
/// are absent.
pub open spec fn iv_or_zero(c: Option<OptionContract>) -> i64 {
    match c {
        Some(o) => match o.option_greeks {
            Some(g) => g.iv,
            None => 0,
        },
        None => 0,
    }
}

pub fn contract_ltp_or_zero(c: &Option<OptionContract>) -> (r: i64)
    ensures
        r == ltp_or_zero(*c),
{
    match c {
        Some(o) => o.market_data.ltp,
        None => 0,
    }
}

pub fn contract_delta_or_zero(c: &Option<OptionContract>) -> (r: i64)
    ensures
        r == delta_or_zero(*c),
{
    match c {
        Some(o) => match &o.option_greeks {
            Some(g) => g.delta,
            None => 0,
        },
        None => 0,
    }
}

pub fn contract_iv_or_zero(c: &Option<OptionContract>) -> (r: i64)
    ensures
        r == iv_or_zero(*c),
{
    match c {
        Some(o) => match &o.option_greeks {
            Some(g) => g.iv,
            None => 0,
        },
        None => 0,
    }
}

/// The first of the first `n` chain rows whose strike lies strictly within
/// `tol` of `strike`.
pub open spec fn first_near_upto(data: Seq<OptionData>, strike: int, tol: int, n: nat) -> Option<
    int,
>
    decreases n,
{
    if n == 0 {
        None
    } else {
        let prev = first_near_upto(data, strike, tol, (n - 1) as nat);
        if prev is Some {
            prev
        } else if -tol < data[n - 1].strike_price - strike < tol {
            Some(n - 1)
        } else {
            None
        }
    }
}

/// The first chain row whose strike lies strictly within `tol` of `strike`.
pub open spec fn first_near(data: Seq<OptionData>, strike: int, tol: int) -> Option<int> {
    first_near_upto(data, strike, tol, data.len())
}

pub proof fn lemma_first_near_upto(data: Seq<OptionData>, strike: int, tol: int, n: nat)
    requires
        n <= data.len(),
    ensures
        match first_near_upto(data, strike, tol, n) {
            Some(j) => 0 <= j < n && -tol < data[j].strike_price - strike < tol && forall|k: int|
                0 <= k < j ==> !(-tol < #[trigger] data[k].strike_price - strike < tol),
            None => forall|k: int|
                0 <= k < n ==> !(-tol < #[trigger] data[k].strike_price - strike < tol),
        },
    decreases n,
{
    if n > 0 {
        lemma_first_near_upto(data, strike, tol, (n - 1) as nat);
    }
}

/// The index of the first chain row whose strike lies strictly within `tol`
/// of `strike`.
pub fn find_near_strike(data: &Vec<OptionData>, strike: i64, tol: i64) -> (r: Option<usize>)
    ensures
        match r {
            Some(j) => first_near(data@, strike as int, tol as int) == Some(j as int),
            None => first_near(data@, strike as int, tol as int) is None,
        },
{
    let mut found: Option<usize> = None;
    let mut i: usize = 0;
    while i < data.len()
        invariant
            i <= data@.len(),
            match found {
                Some(j) => first_near_upto(data@, strike as int, tol as int, i as nat) == Some(
                    j as int,
                ),
                None => first_near_upto(data@, strike as int, tol as int, i as nat) is None,
            },
        decreases data@.len() - i,
    {
        if found.is_none() {
            let d = data[i].strike_price as i128 - strike as i128;
            if -(tol as i128) < d && d < tol as i128 {
                found = Some(i);
            }
        }
        i += 1;
    }
    found
}

} // verus!
