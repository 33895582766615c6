//! Strategy templates: picking strikes from the chain by delta and building
//! the legs of spreads, straddles, strangles, iron butterflies and condors.
use vstd::prelude::*;
use crate::model::{
    OptionData, delta_or_zero, first_near, find_near_strike, lemma_first_near_upto, side_contract,
};
use crate::strategy::{OptionType, Position, Strategy};
use crate::text::{plain_string, plain_text, push_str};

verus! {

/// Strike distance of the narrow templates (100.00).
pub const STRIKE_WIDTH_NARROW: i64 = 10000;

/// Strike distance of the wide templates (200.00).
pub const STRIKE_WIDTH_WIDE: i64 = 20000;

/// Target delta of an at-the-money leg (0.5).
pub const DELTA_ATM: i64 = 5000;

/// Target delta of a leg about 30% out of the money (0.3).
pub const DELTA_OTM_30: i64 = 3000;

/// Target delta of a leg about 16% out of the money (0.16).
pub const DELTA_OTM_16: i64 = 1600;

/// The widest bid-ask spread a leg may have (20.00).
pub const MAX_SPREAD: i64 = 2000;

/// Strikes in the chain stay within +/- 2^62 hundredths, so that a strike
/// plus or minus a template width is still an `i64`.
pub const MAX_STRIKE: i64 = 0x4000000000000000;

pub open spec fn strikes_in_range(data: Seq<OptionData>) -> bool {
    forall|k: int|
        0 <= k < data.len() ==> -MAX_STRIKE <= #[trigger] data[k].strike_price <= MAX_STRIKE
}

pub struct StrategyBuilder;

/// A leg is liquid enough and has a usable delta: a spread of at most 20.00
/// and a delta strictly between 0.05 and 0.95 (calls) or -0.95 and -0.05
/// (puts).
pub open spec fn quality_ok(kind: OptionType, spread: int, delta: int) -> bool {
    match kind {
        OptionType::Call => spread <= MAX_SPREAD && delta > 500 && delta < 9500,
        OptionType::Put => spread <= MAX_SPREAD && delta > -9500 && delta < -500,
    }
}

pub open spec fn is_call(kind: OptionType) -> bool {
    kind == OptionType::Call
}

/// The row quotes the side and that side passes the quality filter.
pub open spec fn row_qualifies(row: OptionData, kind: OptionType) -> bool {
    match side_contract(row, is_call(kind)) {
        Some(c) => {
            let spread = c.market_data.ask_price - c.market_data.bid_price;
            let abs_spread = if spread < 0 { -spread } else { spread };
            quality_ok(kind, abs_spread, delta_or_zero(Some(c)) as int)
        },
        None => false,
    }
}

/// How far the side's delta is from the target.
pub open spec fn delta_distance(row: OptionData, kind: OptionType, target: int) -> int {
    let d = delta_or_zero(side_contract(row, is_call(kind))) - target;
    if d < 0 { -d } else { d }
}

/// Among the first `n` rows, the first qualifying one whose delta is closest
/// to the target.
pub open spec fn closest_delta_upto(
    data: Seq<OptionData>,
    target: int,
    kind: OptionType,
    n: nat,
) -> Option<int>
    decreases n,
{
    if n == 0 {
        None
    } else {
        let prev = closest_delta_upto(data, target, kind, (n - 1) as nat);
        let i = n - 1;
        if row_qualifies(data[i], kind) && (prev is None || delta_distance(data[i], kind, target)
            < delta_distance(data[prev->0], kind, target)) {
            Some(i)
        } else {
            prev
        }
    }
}

/// The first qualifying row whose delta is closest to the target.
pub open spec fn closest_delta(data: Seq<OptionData>, target: int, kind: OptionType) -> Option<int> {
    closest_delta_upto(data, target, kind, data.len())
}

/// "Call"/"Put" data missing for the strike.
pub open spec fn missing_side_message(row: OptionData, kind: OptionType) -> Seq<char> {
    (if is_call(kind) { "Call"@ } else { "Put"@ }) + " data missing for strike "@ + plain_text(
        row.strike_price as int,
        2,
    )
}

/// The last traded price of the row's side, or the error naming the strike.
pub open spec fn price_of(row: OptionData, kind: OptionType) -> Result<i64, Seq<char>> {
    match side_contract(row, is_call(kind)) {
        Some(c) => Ok(c.market_data.ltp),
        None => Err(missing_side_message(row, kind)),
    }
}

pub open spec fn leg(strike: i64, kind: OptionType, qty: int, price: i64) -> Position {
    Position { strike, kind, qty: qty as i32, entry_price: price }
}

pub open spec fn strike_text(v: int) -> Seq<char> {
    plain_text(v, 2)
}

pub open spec fn delta_text(v: int) -> Seq<char> {
    plain_text(v, 4)
}

pub type BuildResult = Result<(Seq<Position>, Seq<char>), Seq<char>>;

/// Two legs of one kind, `width` apart (above the anchor for calls, below
/// for puts): the anchor is the leg closest to `anchor_delta`, bought in a
/// debit spread and sold in a credit spread; the wing is the opposite trade
/// at the first row within 1.00 of the target strike.
pub open spec fn vertical_spread_result(
    data: Seq<OptionData>,
    kind: OptionType,
    is_debit: bool,
    anchor_delta: int,
    width: int,
    label: Seq<char>,
) -> BuildResult {
    match closest_delta(data, anchor_delta, kind) {
        None => Err("Error: Anchor leg (Delta ~"@ + delta_text(anchor_delta) + ") not found"@),
        Some(idx) => {
            let anchor = data[idx];
            match price_of(anchor, kind) {
                Err(e) => Err(e),
                Ok(ap) => {
                    let target = anchor.strike_price + if is_call(kind) {
                        width
                    } else {
                        -width
                    };
                    match first_near(data, target, 100) {
                        None => Err("Error: Wing strike "@ + strike_text(target) + " not found"@),
                        Some(j) => match price_of(data[j], kind) {
                            Err(e) => Err(e),
                            Ok(wp) => Ok(
                                (
                                    seq![
                                        leg(anchor.strike_price, kind, if is_debit { 1 } else { -1 }, ap),
                                        leg(target as i64, kind, if is_debit { -1 } else { 1 }, wp),
                                    ],
                                    "Applied: "@ + label + " ("@ + strike_text(
                                        anchor.strike_price as int,
                                    ) + "/"@ + strike_text(target) + ")"@,
                                ),
                            ),
                        },
                    }
                },
            }
        },
    }
}

/// One leg at the strike closest to `delta`, bought or sold.
pub open spec fn single_option_result(
    data: Seq<OptionData>,
    kind: OptionType,
    is_buy: bool,
    delta: int,
    label: Seq<char>,
) -> BuildResult {
    match closest_delta(data, delta, kind) {
        None => Err("Error: Option (Delta ~"@ + delta_text(delta) + ") not found"@),
        Some(idx) => match price_of(data[idx], kind) {
            Err(e) => Err(e),
            Ok(p) => Ok(
                (
                    seq![leg(data[idx].strike_price, kind, if is_buy { 1 } else { -1 }, p)],
                    "Applied: "@ + label + " ("@ + strike_text(data[idx].strike_price as int)
                        + ")"@,
                ),
            ),
        },
    }
}

/// The call and the put sold at the at-the-money call's strike.
pub open spec fn straddle_result(data: Seq<OptionData>, label: Seq<char>) -> BuildResult {
    match closest_delta(data, DELTA_ATM as int, OptionType::Call) {
        None => Err("Error: ATM Strike not found"@),
        Some(idx) => {
            let row = data[idx];
            match price_of(row, OptionType::Call) {
                Err(e) => Err(e),
                Ok(cp) => match price_of(row, OptionType::Put) {
                    Err(e) => Err(e),
                    Ok(pp) => Ok(
                        (
                            seq![
                                leg(row.strike_price, OptionType::Call, -1, cp),
                                leg(row.strike_price, OptionType::Put, -1, pp),
                            ],
                            "Applied: "@ + label + " ("@ + strike_text(row.strike_price as int)
                                + ")"@,
                        ),
                    ),
                },
            }
        },
    }
}

/// The call closest to `delta` and the put closest to `-delta`, both sold.
pub open spec fn strangle_result(data: Seq<OptionData>, delta: int, label: Seq<char>) -> BuildResult {
    match (closest_delta(data, delta, OptionType::Call), closest_delta(data, -delta, OptionType::Put)) {
        (Some(ci), Some(pi)) => {
            let c = data[ci];
            let p = data[pi];
            match price_of(c, OptionType::Call) {
                Err(e) => Err(e),
                Ok(cp) => match price_of(p, OptionType::Put) {
                    Err(e) => Err(e),
                    Ok(pp) => Ok(
                        (
                            seq![
                                leg(c.strike_price, OptionType::Call, -1, cp),
                                leg(p.strike_price, OptionType::Put, -1, pp),
                            ],
                            "Applied: "@ + label + " ("@ + strike_text(p.strike_price as int) + "/"@
                                + strike_text(c.strike_price as int) + ")"@,
                        ),
                    ),
                },
            }
        },
        _ => Err("Error: Strangle legs (Delta ~"@ + delta_text(delta) + ") not found"@),
    }
}

/// A sold straddle at the at-the-money call's strike, with a call bought
/// 200.00 above and a put bought 200.00 below.
pub open spec fn iron_butterfly_result(data: Seq<OptionData>, label: Seq<char>) -> BuildResult {
    match closest_delta(data, DELTA_ATM as int, OptionType::Call) {
        None => Err("Error: ATM Center not found"@),
        Some(idx) => {
            let center = data[idx];
            let cs = center.strike_price as int;
            let us = cs + STRIKE_WIDTH_WIDE;
            let ls = cs - STRIKE_WIDTH_WIDE;
            match (first_near(data, us, 100), first_near(data, ls, 100)) {
                (Some(ui), Some(li)) => match price_of(center, OptionType::Call) {
                    Err(e) => Err(e),
                    Ok(c_call) => match price_of(center, OptionType::Put) {
                        Err(e) => Err(e),
                        Ok(c_put) => match price_of(data[ui], OptionType::Call) {
                            Err(e) => Err(e),
                            Ok(u_call) => match price_of(data[li], OptionType::Put) {
                                Err(e) => Err(e),
                                Ok(l_put) => Ok(
                                    (
                                        seq![
                                            leg(cs as i64, OptionType::Call, -1, c_call),
                                            leg(cs as i64, OptionType::Put, -1, c_put),
                                            leg(us as i64, OptionType::Call, 1, u_call),
                                            leg(ls as i64, OptionType::Put, 1, l_put),
                                        ],
                                        "Applied: "@ + label + " ("@ + strike_text(cs) + ")"@,
                                    ),
                                ),
                            },
                        },
                    },
                },
                _ => Err("Error: Wings for Iron Butterfly not found"@),
            }
        },
    }
}

/// A sold strangle at the 0.16-delta call and put, with a call bought
/// 200.00 above the sold call and a put bought 200.00 below the sold put.
pub open spec fn iron_condor_result(data: Seq<OptionData>, label: Seq<char>) -> BuildResult {
    match (
        closest_delta(data, DELTA_OTM_16 as int, OptionType::Call),
        closest_delta(data, -DELTA_OTM_16, OptionType::Put),
    ) {
        (Some(ci), Some(pi)) => {
            let sc = data[ci];
            let sp = data[pi];
            let lcs = sc.strike_price + STRIKE_WIDTH_WIDE;
            let lps = sp.strike_price - STRIKE_WIDTH_WIDE;
            match (first_near(data, lcs, 100), first_near(data, lps, 100)) {
                (Some(lci), Some(lpi)) => match price_of(sc, OptionType::Call) {
                    Err(e) => Err(e),
                    Ok(sc_p) => match price_of(sp, OptionType::Put) {
                        Err(e) => Err(e),
                        Ok(sp_p) => match price_of(data[lci], OptionType::Call) {
                            Err(e) => Err(e),
                            Ok(lc_p) => match price_of(data[lpi], OptionType::Put) {
                                Err(e) => Err(e),
                                Ok(lp_p) => Ok(
                                    (
                                        seq![
                                            leg(sc.strike_price, OptionType::Call, -1, sc_p),
                                            leg(sp.strike_price, OptionType::Put, -1, sp_p),
                                            leg(lcs as i64, OptionType::Call, 1, lc_p),
                                            leg(lps as i64, OptionType::Put, 1, lp_p),
                                        ],
                                        "Applied: "@ + label + " ("@ + strike_text(
                                            sp.strike_price as int,
                                        ) + "/"@ + strike_text(sc.strike_price as int) + ")"@,
                                    ),
                                ),
                            },
                        },
                    },
                },
                _ => Err("Error: Wings for Iron Condor not found"@),
            }
        },
        _ => Err("Error: Short legs (Delta ~0.16) not found"@),
    }
}

/// What `StrategyBuilder::build` gives for each template.
pub open spec fn build_result(strategy: Strategy, data: Seq<OptionData>) -> BuildResult {
    match strategy {
        Strategy::CallCreditSpread => vertical_spread_result(
            data,
            OptionType::Call,
            false,
            DELTA_OTM_30 as int,
            STRIKE_WIDTH_NARROW as int,
            "CCS"@,
        ),
        Strategy::PutCreditSpread => vertical_spread_result(
            data,
            OptionType::Put,
            false,
            -DELTA_OTM_30,
            STRIKE_WIDTH_NARROW as int,
            "PCS"@,
        ),
        Strategy::CallDebitSpread => vertical_spread_result(
            data,
            OptionType::Call,
            true,
            DELTA_ATM as int,
            STRIKE_WIDTH_NARROW as int,
            "CDS"@,
        ),
        Strategy::PutDebitSpread => vertical_spread_result(
            data,
            OptionType::Put,
            true,
            -DELTA_ATM,
            STRIKE_WIDTH_NARROW as int,
            "PDS"@,
        ),
        Strategy::LongCall => single_option_result(
            data,
            OptionType::Call,
            true,
            DELTA_ATM as int,
            "Long Call"@,
        ),
        Strategy::LongPut => single_option_result(
            data,
            OptionType::Put,
            true,
            -DELTA_ATM,
            "Long Put"@,
        ),
        Strategy::ShortCall => single_option_result(
            data,
            OptionType::Call,
            false,
            DELTA_OTM_30 as int,
            "Short Call"@,
        ),
        Strategy::ShortPut => single_option_result(
            data,
            OptionType::Put,
            false,
            -DELTA_OTM_30,
            "Short Put"@,
        ),
        Strategy::ShortStraddle => straddle_result(data, "Short Straddle"@),
        Strategy::ShortStrangle => strangle_result(data, DELTA_OTM_16 as int, "Short Strangle"@),
        Strategy::IronButterfly => iron_butterfly_result(data, "Iron Fly"@),
        Strategy::IronCondor => iron_condor_result(data, "Iron Condor"@),
    }
}

/// The exec result matches a spec result.
pub open spec fn result_matches(r: Result<(Vec<Position>, String), String>, s: BuildResult) -> bool {
    match r {
        Ok((v, m)) => s == Ok::<(Seq<Position>, Seq<char>), Seq<char>>((v@, m@)),
        Err(e) => s == Err::<(Seq<Position>, Seq<char>), Seq<char>>(e@),
    }
}

pub proof fn lemma_closest_delta_upto(data: Seq<OptionData>, target: int, kind: OptionType, n: nat)
    requires
        n <= data.len(),
    ensures
        match closest_delta_upto(data, target, kind, n) {
            Some(i) => 0 <= i < n && row_qualifies(data[i], kind),
            None => forall|k: int| 0 <= k < n ==> !row_qualifies(#[trigger] data[k], kind),
        },
    decreases n,
{
    if n > 0 {
        lemma_closest_delta_upto(data, target, kind, (n - 1) as nat);
    }
}

fn abs_i128(v: i128) -> (r: i128)
    requires
        v > i128::MIN,
    ensures
        r as int == if v < 0 { -(v as int) } else { v as int },
{
    if v < 0 { -v } else { v }
}

impl StrategyBuilder {
    /// Builds the legs of a template from the chain, with the message to
    /// show; or the error message when a leg cannot be found or priced.
    pub fn build(strategy: Strategy, data: &Vec<OptionData>) -> (r: Result<
        (Vec<Position>, String),
        String,
    >)
        requires
            strikes_in_range(data@),
        ensures
            result_matches(r, build_result(strategy, data@)),
            r matches Ok(x) ==> wings_priced_near(strategy, data@, x.0@),
            r matches Ok(x) ==> legs_from_picked_rows(strategy, data@, x.0@),
    {
        proof {
            law_wings_priced_near(strategy, data@);
            law_legs_from_picked_rows(strategy, data@);
        }
        match strategy {
            Strategy::CallCreditSpread => Self::build_vertical_spread(
                data,
                OptionType::Call,
                false,
                DELTA_OTM_30,
                STRIKE_WIDTH_NARROW,
                "CCS",
            ),
            Strategy::PutCreditSpread => Self::build_vertical_spread(
                data,
                OptionType::Put,
                false,
                -DELTA_OTM_30,
                STRIKE_WIDTH_NARROW,
                "PCS",
            ),
            Strategy::CallDebitSpread => Self::build_vertical_spread(
                data,
                OptionType::Call,
                true,
                DELTA_ATM,
                STRIKE_WIDTH_NARROW,
                "CDS",
            ),
            Strategy::PutDebitSpread => Self::build_vertical_spread(
                data,
                OptionType::Put,
                true,
                -DELTA_ATM,
                STRIKE_WIDTH_NARROW,
                "PDS",
            ),
            Strategy::LongCall => Self::build_single_option(
                data,
                OptionType::Call,
                true,
                DELTA_ATM,
                "Long Call",
            ),
            Strategy::LongPut => Self::build_single_option(
                data,
                OptionType::Put,
                true,
                -DELTA_ATM,
                "Long Put",
            ),
            Strategy::ShortCall => Self::build_single_option(
                data,
                OptionType::Call,
                false,
                DELTA_OTM_30,
                "Short Call",
            ),
            Strategy::ShortPut => Self::build_single_option(
                data,
                OptionType::Put,
                false,
                -DELTA_OTM_30,
                "Short Put",
            ),
            Strategy::ShortStraddle => Self::build_straddle(data, "Short Straddle"),
            Strategy::ShortStrangle => Self::build_strangle(data, DELTA_OTM_16, "Short Strangle"),
            Strategy::IronButterfly => Self::build_iron_butterfly(data, "Iron Fly"),
            Strategy::IronCondor => Self::build_iron_condor(data, "Iron Condor"),
        }
    }

    fn build_vertical_spread(
        data: &Vec<OptionData>,
        kind: OptionType,
        is_debit: bool,
        anchor_delta: i64,
        width: i64,
        label: &str,
    ) -> (r: Result<(Vec<Position>, String), String>)
        requires
            strikes_in_range(data@),
            0 <= width <= STRIKE_WIDTH_WIDE,
        ensures
            result_matches(
                r,
                vertical_spread_result(
                    data@,
                    kind,
                    is_debit,
                    anchor_delta as int,
                    width as int,
                    label@,
                ),
            ),
    {
        let anchor_idx = if kind == OptionType::Call {
            Self::find_call_by_delta(data, anchor_delta)
        } else {
            Self::find_put_by_delta(data, anchor_delta)
        };
        match anchor_idx {
            Some(idx) => {
                proof {
                    lemma_closest_delta_upto(data@, anchor_delta as int, kind, data@.len());
                }
                let anchor_strike = data[idx].strike_price;
                let anchor_price = match Self::get_price(&data[idx], kind) {
                    Ok(p) => p,
                    Err(e) => {
                        return Err(e);
                    },
                };
                let target_strike: i64 = if kind == OptionType::Call {
                    anchor_strike + width
                } else {
                    anchor_strike - width
                };
                match find_near_strike(data, target_strike, 100) {
                    Some(j) => {
                        proof {
                            lemma_first_near_upto(data@, target_strike as int, 100, data@.len());
                        }
                        let leg2_price = match Self::get_price(&data[j], kind) {
                            Ok(p) => p,
                            Err(e) => {
                                return Err(e);
                            },
                        };
                        let (qty1, qty2): (i32, i32) = if is_debit { (1, -1) } else { (-1, 1) };
                        let p1 = Position { strike: anchor_strike, kind, qty: qty1, entry_price: anchor_price };
                        let p2 = Position { strike: target_strike, kind, qty: qty2, entry_price: leg2_price };
                        let mut msg = String::new();
                        push_str(&mut msg, "Applied: ");
                        push_str(&mut msg, label);
                        push_str(&mut msg, " (");
                        let a = plain_string(anchor_strike as i128, 2);
                        push_str(&mut msg, a.as_str());
                        push_str(&mut msg, "/");
                        let t = plain_string(target_strike as i128, 2);
                        push_str(&mut msg, t.as_str());
                        push_str(&mut msg, ")");
                        let v = vec![p1, p2];
                        proof {
                            let spec_r = vertical_spread_result(
                                data@,
                                kind,
                                is_debit,
                                anchor_delta as int,
                                width as int,
                                label@,
                            );
                            assert(v@ =~= spec_r->Ok_0.0);
                            assert(msg@ =~= spec_r->Ok_0.1);
                        }
                        Ok((v, msg))
                    },
                    None => {
                        let mut msg = String::new();
                        push_str(&mut msg, "Error: Wing strike ");
                        let t = plain_string(target_strike as i128, 2);
                        push_str(&mut msg, t.as_str());
                        push_str(&mut msg, " not found");
                        Err(msg)
                    },
                }
            },
            None => {
                let mut msg = String::new();
                push_str(&mut msg, "Error: Anchor leg (Delta ~");
                let d = plain_string(anchor_delta as i128, 4);
                push_str(&mut msg, d.as_str());
                push_str(&mut msg, ") not found");
                Err(msg)
            },
        }
    }

    fn build_single_option(
        data: &Vec<OptionData>,
        kind: OptionType,
        is_buy: bool,
        delta: i64,
        label: &str,
    ) -> (r: Result<(Vec<Position>, String), String>)
        ensures
            result_matches(r, single_option_result(data@, kind, is_buy, delta as int, label@)),
    {
        let idx_opt = if kind == OptionType::Call {
            Self::find_call_by_delta(data, delta)
        } else {
            Self::find_put_by_delta(data, delta)
        };
        match idx_opt {
            Some(idx) => {
                proof {
                    lemma_closest_delta_upto(data@, delta as int, kind, data@.len());
                }
                let price = match Self::get_price(&data[idx], kind) {
                    Ok(p) => p,
                    Err(e) => {
                        return Err(e);
                    },
                };
                let qty: i32 = if is_buy { 1 } else { -1 };
                let pos = Position { strike: data[idx].strike_price, kind, qty, entry_price: price };
                let mut msg = String::new();
                push_str(&mut msg, "Applied: ");
                push_str(&mut msg, label);
                push_str(&mut msg, " (");
                let s = plain_string(data[idx].strike_price as i128, 2);
                push_str(&mut msg, s.as_str());
                push_str(&mut msg, ")");
                let v = vec![pos];
                proof {
                    let spec_r = single_option_result(data@, kind, is_buy, delta as int, label@);
                    assert(v@ =~= spec_r->Ok_0.0);
                    assert(msg@ =~= spec_r->Ok_0.1);
                }
                Ok((v, msg))
            },
            None => {
                let mut msg = String::new();
                push_str(&mut msg, "Error: Option (Delta ~");
                let d = plain_string(delta as i128, 4);
                push_str(&mut msg, d.as_str());
                push_str(&mut msg, ") not found");
                Err(msg)
            },
        }
    }

    fn build_straddle(data: &Vec<OptionData>, label: &str) -> (r: Result<
        (Vec<Position>, String),
        String,
    >)
        ensures
            result_matches(r, straddle_result(data@, label@)),
    {
        match Self::find_call_by_delta(data, DELTA_ATM) {
            Some(idx) => {
                proof {
                    lemma_closest_delta_upto(data@, DELTA_ATM as int, OptionType::Call, data@.len());
                }
                let strike = data[idx].strike_price;
                let call_price = match Self::get_price(&data[idx], OptionType::Call) {
                    Ok(p) => p,
                    Err(e) => {
                        return Err(e);
                    },
                };
                let put_price = match Self::get_price(&data[idx], OptionType::Put) {
                    Ok(p) => p,
                    Err(e) => {
                        return Err(e);
                    },
                };
                let p1 = Position { strike, kind: OptionType::Call, qty: -1, entry_price: call_price };
                let p2 = Position { strike, kind: OptionType::Put, qty: -1, entry_price: put_price };
                let mut msg = String::new();
                push_str(&mut msg, "Applied: ");
                push_str(&mut msg, label);
                push_str(&mut msg, " (");
                let s = plain_string(strike as i128, 2);
                push_str(&mut msg, s.as_str());
                push_str(&mut msg, ")");
                let v = vec![p1, p2];
                proof {
                    let spec_r = straddle_result(data@, label@);
                    assert(v@ =~= spec_r->Ok_0.0);
                    assert(msg@ =~= spec_r->Ok_0.1);
                }
                Ok((v, msg))
            },
            None => Err(String::from_str("Error: ATM Strike not found")),
        }
    }

    fn build_strangle(data: &Vec<OptionData>, delta: i64, label: &str) -> (r: Result<
        (Vec<Position>, String),
        String,
    >)
        requires
            delta > i64::MIN,
        ensures
            result_matches(r, strangle_result(data@, delta as int, label@)),
    {
        let c_idx = Self::find_call_by_delta(data, delta);
        let p_idx = Self::find_put_by_delta(data, -delta);
        match (c_idx, p_idx) {
            (Some(ci), Some(pi)) => {
                proof {
                    lemma_closest_delta_upto(data@, delta as int, OptionType::Call, data@.len());
                    lemma_closest_delta_upto(data@, -delta, OptionType::Put, data@.len());
                }
                let c_price = match Self::get_price(&data[ci], OptionType::Call) {
                    Ok(p) => p,
                    Err(e) => {
                        return Err(e);
                    },
                };
                let p_price = match Self::get_price(&data[pi], OptionType::Put) {
                    Ok(p) => p,
                    Err(e) => {
                        return Err(e);
                    },
                };
                let cs = data[ci].strike_price;
                let ps = data[pi].strike_price;
                let p1 = Position { strike: cs, kind: OptionType::Call, qty: -1, entry_price: c_price };
                let p2 = Position { strike: ps, kind: OptionType::Put, qty: -1, entry_price: p_price };
                let mut msg = String::new();
                push_str(&mut msg, "Applied: ");
                push_str(&mut msg, label);
                push_str(&mut msg, " (");
                let a = plain_string(ps as i128, 2);
                push_str(&mut msg, a.as_str());
                push_str(&mut msg, "/");
                let b = plain_string(cs as i128, 2);
                push_str(&mut msg, b.as_str());
                push_str(&mut msg, ")");
                let v = vec![p1, p2];
                proof {
                    let spec_r = strangle_result(data@, delta as int, label@);
                    assert(v@ =~= spec_r->Ok_0.0);
                    assert(msg@ =~= spec_r->Ok_0.1);
                }
                Ok((v, msg))
            },
            _ => {
                let mut msg = String::new();
                push_str(&mut msg, "Error: Strangle legs (Delta ~");
                let d = plain_string(delta as i128, 4);
                push_str(&mut msg, d.as_str());
                push_str(&mut msg, ") not found");
                Err(msg)
            },
        }
    }

    fn build_iron_butterfly(data: &Vec<OptionData>, label: &str) -> (r: Result<
        (Vec<Position>, String),
        String,
    >)
        requires
            strikes_in_range(data@),
        ensures
            result_matches(r, iron_butterfly_result(data@, label@)),
    {
        match Self::find_call_by_delta(data, DELTA_ATM) {
            Some(idx) => {
                proof {
                    lemma_closest_delta_upto(data@, DELTA_ATM as int, OptionType::Call, data@.len());
                }
                let center_strike = data[idx].strike_price;
                let u_strike = center_strike + STRIKE_WIDTH_WIDE;
                let l_strike = center_strike - STRIKE_WIDTH_WIDE;
                let u_item = find_near_strike(data, u_strike, 100);
                let l_item = find_near_strike(data, l_strike, 100);
                match (u_item, l_item) {
                    (Some(u), Some(l)) => {
                        proof {
                            lemma_first_near_upto(data@, u_strike as int, 100, data@.len());
                            lemma_first_near_upto(data@, l_strike as int, 100, data@.len());
                        }
                        let c_call = match Self::get_price(&data[idx], OptionType::Call) {
                            Ok(p) => p,
                            Err(e) => {
                                return Err(e);
                            },
                        };
                        let c_put = match Self::get_price(&data[idx], OptionType::Put) {
                            Ok(p) => p,
                            Err(e) => {
                                return Err(e);
                            },
                        };
                        let u_call = match Self::get_price(&data[u], OptionType::Call) {
                            Ok(p) => p,
                            Err(e) => {
                                return Err(e);
                            },
                        };
                        let l_put = match Self::get_price(&data[l], OptionType::Put) {
                            Ok(p) => p,
                            Err(e) => {
                                return Err(e);
                            },
                        };
                        let mut pos: Vec<Position> = Vec::new();
                        pos.push(Position { strike: center_strike, kind: OptionType::Call, qty: -1, entry_price: c_call });
                        pos.push(Position { strike: center_strike, kind: OptionType::Put, qty: -1, entry_price: c_put });
                        pos.push(Position { strike: u_strike, kind: OptionType::Call, qty: 1, entry_price: u_call });
                        pos.push(Position { strike: l_strike, kind: OptionType::Put, qty: 1, entry_price: l_put });
                        let mut msg = String::new();
                        push_str(&mut msg, "Applied: ");
                        push_str(&mut msg, label);
                        push_str(&mut msg, " (");
                        let s = plain_string(center_strike as i128, 2);
                        push_str(&mut msg, s.as_str());
                        push_str(&mut msg, ")");
                        proof {
                            let spec_r = iron_butterfly_result(data@, label@);
                            assert(pos@ =~= spec_r->Ok_0.0);
                            assert(msg@ =~= spec_r->Ok_0.1);
                        }
                        Ok((pos, msg))
                    },
                    _ => Err(String::from_str("Error: Wings for Iron Butterfly not found")),
                }
            },
            None => Err(String::from_str("Error: ATM Center not found")),
        }
    }

    fn build_iron_condor(data: &Vec<OptionData>, label: &str) -> (r: Result<
        (Vec<Position>, String),
        String,
    >)
        requires
            strikes_in_range(data@),
        ensures
            result_matches(r, iron_condor_result(data@, label@)),
    {
        let c_idx = Self::find_call_by_delta(data, DELTA_OTM_16);
        let p_idx = Self::find_put_by_delta(data, -DELTA_OTM_16);
        match (c_idx, p_idx) {
            (Some(ci), Some(pi)) => {
                proof {
                    lemma_closest_delta_upto(data@, DELTA_OTM_16 as int, OptionType::Call, data@.len());
                    lemma_closest_delta_upto(data@, -DELTA_OTM_16, OptionType::Put, data@.len());
                }
                let sc_strike = data[ci].strike_price;
                let sp_strike = data[pi].strike_price;
                let lc_strike = sc_strike + STRIKE_WIDTH_WIDE;
                let lp_strike = sp_strike - STRIKE_WIDTH_WIDE;
                let lc_item = find_near_strike(data, lc_strike, 100);
                let lp_item = find_near_strike(data, lp_strike, 100);
                match (lc_item, lp_item) {
                    (Some(lc), Some(lp)) => {
                        proof {
                            lemma_first_near_upto(data@, lc_strike as int, 100, data@.len());
                            lemma_first_near_upto(data@, lp_strike as int, 100, data@.len());
                        }
                        let sc_p = match Self::get_price(&data[ci], OptionType::Call) {
                            Ok(p) => p,
                            Err(e) => {
                                return Err(e);
                            },
                        };
                        let sp_p = match Self::get_price(&data[pi], OptionType::Put) {
                            Ok(p) => p,
                            Err(e) => {
                                return Err(e);
                            },
                        };
                        let lc_p = match Self::get_price(&data[lc], OptionType::Call) {
                            Ok(p) => p,
                            Err(e) => {
                                return Err(e);
                            },
                        };
                        let lp_p = match Self::get_price(&data[lp], OptionType::Put) {
                            Ok(p) => p,
                            Err(e) => {
                                return Err(e);
                            },
                        };
                        let mut pos: Vec<Position> = Vec::new();
                        pos.push(Position { strike: sc_strike, kind: OptionType::Call, qty: -1, entry_price: sc_p });
                        pos.push(Position { strike: sp_strike, kind: OptionType::Put, qty: -1, entry_price: sp_p });
                        pos.push(Position { strike: lc_strike, kind: OptionType::Call, qty: 1, entry_price: lc_p });
                        pos.push(Position { strike: lp_strike, kind: OptionType::Put, qty: 1, entry_price: lp_p });
                        let mut msg = String::new();
                        push_str(&mut msg, "Applied: ");
                        push_str(&mut msg, label);
                        push_str(&mut msg, " (");
                        let a = plain_string(sp_strike as i128, 2);
                        push_str(&mut msg, a.as_str());
                        push_str(&mut msg, "/");
                        let b = plain_string(sc_strike as i128, 2);
                        push_str(&mut msg, b.as_str());
                        push_str(&mut msg, ")");
                        proof {
                            let spec_r = iron_condor_result(data@, label@);
                            assert(pos@ =~= spec_r->Ok_0.0);
                            assert(msg@ =~= spec_r->Ok_0.1);
                        }
                        Ok((pos, msg))
                    },
                    _ => Err(String::from_str("Error: Wings for Iron Condor not found")),
                }
            },
            _ => Err(String::from_str("Error: Short legs (Delta ~0.16) not found")),
        }
    }

    /// The last traded price of the row's side, or the error naming the
    /// strike when the side is not quoted.
    fn get_price(data: &OptionData, kind: OptionType) -> (r: Result<i64, String>)
        ensures
            match r {
                Ok(p) => price_of(*data, kind) == Ok::<i64, Seq<char>>(p),
                Err(e) => price_of(*data, kind) == Err::<i64, Seq<char>>(e@),
            },
    {
        let contract = match kind {
            OptionType::Call => &data.call_options,
            OptionType::Put => &data.put_options,
        };
        match contract {
            Some(o) => Ok(o.market_data.ltp),
            None => {
                let mut msg = String::new();
                push_str(
                    &mut msg,
                    match kind {
                        OptionType::Call => "Call",
                        OptionType::Put => "Put",
                    },
                );
                push_str(&mut msg, " data missing for strike ");
                let s = plain_string(data.strike_price as i128, 2);
                push_str(&mut msg, s.as_str());
                proof {
                    assert(msg@ =~= missing_side_message(*data, kind));
                }
                Err(msg)
            },
        }
    }

    fn find_call_by_delta(data: &Vec<OptionData>, target: i64) -> (r: Option<usize>)
        ensures
            r matches Some(i) ==> closest_delta(data@, target as int, OptionType::Call) == Some(
                i as int,
            ),
            r is None ==> closest_delta(data@, target as int, OptionType::Call) is None,
    {
        Self::find_with_filter(data, target, OptionType::Call)
    }

    fn find_put_by_delta(data: &Vec<OptionData>, target: i64) -> (r: Option<usize>)
        ensures
            r matches Some(i) ==> closest_delta(data@, target as int, OptionType::Put) == Some(
                i as int,
            ),
            r is None ==> closest_delta(data@, target as int, OptionType::Put) is None,
    {
        Self::find_with_filter(data, target, OptionType::Put)
    }

    /// The first row quoting `kind` that passes the quality filter and whose
    /// delta is closest to `target`.
    fn find_with_filter(data: &Vec<OptionData>, target: i64, kind: OptionType) -> (r: Option<
        usize,
    >)
        ensures
            r matches Some(i) ==> closest_delta(data@, target as int, kind) == Some(i as int),
            r is None ==> closest_delta(data@, target as int, kind) is None,
    {
        let mut best: Option<usize> = None;
        let mut best_dist: i128 = 0;
        let mut i: usize = 0;
        while i < data.len()
            invariant
                i <= data@.len(),
                match best {
                    Some(b) => closest_delta_upto(data@, target as int, kind, i as nat) == Some(
                        b as int,
                    ) && b < i && best_dist == delta_distance(data@[b as int], kind, target as int),
                    None => closest_delta_upto(data@, target as int, kind, i as nat) is None,
                },
            decreases data@.len() - i,
        {
            let contract = match kind {
                OptionType::Call => &data[i].call_options,
                OptionType::Put => &data[i].put_options,
            };
            if let Some(opt) = contract {
                let spread = abs_i128(opt.market_data.ask_price as i128 - opt.market_data.bid_price as i128);
                let delta: i64 = match &opt.option_greeks {
                    Some(g) => g.delta,
                    None => 0,
                };
                let passes = match kind {
                    OptionType::Call => spread <= MAX_SPREAD as i128 && delta > 500 && delta < 9500,
                    OptionType::Put => spread <= MAX_SPREAD as i128 && delta > -9500 && delta < -500,
                };
                if passes {
                    let dist = abs_i128(delta as i128 - target as i128);
                    let better = match best {
                        None => true,
                        Some(_) => dist < best_dist,
                    };
                    if better {
                        best = Some(i);
                        best_dist = dist;
                    }
                }
            }
            i += 1;
        }
        best
    }
}

/// The leg picked for a target delta is a qualifying one whose delta is
/// closest to the target: no qualifying row is closer, and every earlier
/// qualifying row is farther.
pub proof fn law_closest_delta_is_closest(data: Seq<OptionData>, target: int, kind: OptionType, n: nat)
    requires
        n <= data.len(),
    ensures
        closest_delta_upto(data, target, kind, n) matches Some(i) ==> forall|k: int|
            0 <= k < n && row_qualifies(#[trigger] data[k], kind) ==> delta_distance(
                data[i],
                kind,
                target,
            ) <= delta_distance(data[k], kind, target) && (k < i ==> delta_distance(
                data[i],
                kind,
                target,
            ) < delta_distance(data[k], kind, target)),
    decreases n,
{
    if n > 0 {
        law_closest_delta_is_closest(data, target, kind, (n - 1) as nat);
        lemma_closest_delta_upto(data, target, kind, (n - 1) as nat);
    }
}

/// The leg's price is the last traded price of its side in the first chain
/// row whose strike lies within 1.00 of the leg's strike.
pub open spec fn priced_from_near_row(data: Seq<OptionData>, l: Position) -> bool {
    exists|j: int|
        0 <= j < data.len() && -100 < #[trigger] data[j].strike_price - l.strike < 100 && (forall|k: int|
            0 <= k < j ==> !(-100 < #[trigger] data[k].strike_price - l.strike < 100)) && match side_contract(
            data[j],
            l.kind == OptionType::Call,
        ) {
            Some(c) => c.market_data.ltp == l.entry_price,
            None => false,
        }
}

/// The wings of a template's legs, where it has wings: the wing of a
/// vertical spread lies 100.00 beyond the anchor (above for calls, below for
/// puts), and the bought wings of an iron butterfly or condor lie 200.00
/// beyond the sold legs; each wing is priced from the first row within 1.00
/// of its strike.
pub open spec fn wings_priced_near(strategy: Strategy, data: Seq<OptionData>, legs: Seq<Position>) -> bool {
    match strategy {
        Strategy::CallCreditSpread | Strategy::CallDebitSpread => legs.len() == 2 && legs[1].strike
            == legs[0].strike + STRIKE_WIDTH_NARROW && priced_from_near_row(data, legs[1]),
        Strategy::PutCreditSpread | Strategy::PutDebitSpread => legs.len() == 2 && legs[1].strike
            == legs[0].strike - STRIKE_WIDTH_NARROW && priced_from_near_row(data, legs[1]),
        Strategy::IronButterfly => legs.len() == 4 && legs[2].strike == legs[0].strike
            + STRIKE_WIDTH_WIDE && legs[3].strike == legs[0].strike - STRIKE_WIDTH_WIDE
            && priced_from_near_row(data, legs[2]) && priced_from_near_row(data, legs[3]),
        Strategy::IronCondor => legs.len() == 4 && legs[2].strike == legs[0].strike
            + STRIKE_WIDTH_WIDE && legs[3].strike == legs[1].strike - STRIKE_WIDTH_WIDE
            && priced_from_near_row(data, legs[2]) && priced_from_near_row(data, legs[3]),
        _ => true,
    }
}

/// A wing priced at `strike` from the first row near it.
proof fn lemma_wing_priced(data: Seq<OptionData>, strike: int, kind: OptionType, qty: int)
    requires
        -MAX_STRIKE - STRIKE_WIDTH_WIDE <= strike <= MAX_STRIKE + STRIKE_WIDTH_WIDE,
        first_near(data, strike, 100) is Some,
        price_of(data[first_near(data, strike, 100)->0], kind) is Ok,
    ensures
        priced_from_near_row(
            data,
            leg(strike as i64, kind, qty, price_of(data[first_near(data, strike, 100)->0], kind)->Ok_0),
        ),
{
    lemma_first_near_upto(data, strike, 100, data.len());
    let j = first_near(data, strike, 100)->0;
    let l = leg(strike as i64, kind, qty, price_of(data[j], kind)->Ok_0);
    assert(l.strike == strike);
    assert(is_call(kind) == (l.kind == OptionType::Call));
    assert(-100 < data[j].strike_price - l.strike < 100);
}

/// The wing of a vertical spread lies `width` beyond the anchor and is
/// priced from the first row near its strike.
proof fn lemma_vertical_wing(
    data: Seq<OptionData>,
    kind: OptionType,
    is_debit: bool,
    anchor_delta: int,
    width: int,
    label: Seq<char>,
)
    requires
        strikes_in_range(data),
        0 <= width <= STRIKE_WIDTH_WIDE,
    ensures
        vertical_spread_result(data, kind, is_debit, anchor_delta, width, label) matches Ok(r) ==> r.0.len()
            == 2 && r.0[1].strike == r.0[0].strike + (if is_call(kind) { width } else { -width })
            && priced_from_near_row(data, r.0[1]),
{
    lemma_closest_delta_upto(data, anchor_delta, kind, data.len());
    if let Some(idx) = closest_delta(data, anchor_delta, kind) {
        let anchor = data[idx];
        let target = anchor.strike_price + if is_call(kind) { width } else { -width };
        if price_of(anchor, kind) is Ok && first_near(data, target, 100) is Some && price_of(
            data[first_near(data, target, 100)->0],
            kind,
        ) is Ok {
            lemma_wing_priced(data, target, kind, if is_debit { -1 } else { 1 });
        }
    }
}

/// The bought wings of an iron butterfly lie 200.00 above and below the
/// centre and are priced from the first rows near their strikes.
proof fn lemma_butterfly_wings(data: Seq<OptionData>, label: Seq<char>)
    requires
        strikes_in_range(data),
    ensures
        iron_butterfly_result(data, label) matches Ok(r) ==> r.0.len() == 4 && r.0[2].strike
            == r.0[0].strike + STRIKE_WIDTH_WIDE && r.0[3].strike == r.0[0].strike
            - STRIKE_WIDTH_WIDE && priced_from_near_row(data, r.0[2]) && priced_from_near_row(
            data,
            r.0[3],
        ),
{
    lemma_closest_delta_upto(data, DELTA_ATM as int, OptionType::Call, data.len());
    if let Some(idx) = closest_delta(data, DELTA_ATM as int, OptionType::Call) {
        let cs = data[idx].strike_price as int;
        let us = cs + STRIKE_WIDTH_WIDE;
        let ls = cs - STRIKE_WIDTH_WIDE;
        if first_near(data, us, 100) is Some && first_near(data, ls, 100) is Some && price_of(
            data[first_near(data, us, 100)->0],
            OptionType::Call,
        ) is Ok && price_of(data[first_near(data, ls, 100)->0], OptionType::Put) is Ok {
            lemma_wing_priced(data, us, OptionType::Call, 1);
            lemma_wing_priced(data, ls, OptionType::Put, 1);
        }
    }
}

/// The bought wings of an iron condor lie 200.00 above the sold call and
/// below the sold put and are priced from the first rows near their strikes.
proof fn lemma_condor_wings(data: Seq<OptionData>, label: Seq<char>)
    requires
        strikes_in_range(data),
    ensures
        iron_condor_result(data, label) matches Ok(r) ==> r.0.len() == 4 && r.0[2].strike
            == r.0[0].strike + STRIKE_WIDTH_WIDE && r.0[3].strike == r.0[1].strike
            - STRIKE_WIDTH_WIDE && priced_from_near_row(data, r.0[2]) && priced_from_near_row(
            data,
            r.0[3],
        ),
{
    lemma_closest_delta_upto(data, DELTA_OTM_16 as int, OptionType::Call, data.len());
    lemma_closest_delta_upto(data, -DELTA_OTM_16, OptionType::Put, data.len());
    if let (Some(ci), Some(pi)) = (
        closest_delta(data, DELTA_OTM_16 as int, OptionType::Call),
        closest_delta(data, -DELTA_OTM_16, OptionType::Put),
    ) {
        let lcs = data[ci].strike_price + STRIKE_WIDTH_WIDE;
        let lps = data[pi].strike_price - STRIKE_WIDTH_WIDE;
        if first_near(data, lcs, 100) is Some && first_near(data, lps, 100) is Some && price_of(
            data[first_near(data, lcs, 100)->0],
            OptionType::Call,
        ) is Ok && price_of(data[first_near(data, lps, 100)->0], OptionType::Put) is Ok {
            lemma_wing_priced(data, lcs, OptionType::Call, 1);
            lemma_wing_priced(data, lps, OptionType::Put, 1);
        }
    }
}

/// A template's wings are priced from the chain rows at their strikes: the
/// wing of a vertical spread lies 100.00 beyond the anchor (above for calls,
/// below for puts), and the bought wings of an iron butterfly or condor lie
/// 200.00 beyond the sold legs; each wing's price is the last traded price
/// of its side in the first row within 1.00 of its strike, so a row farther
/// away never prices it.
pub proof fn law_wings_priced_near(strategy: Strategy, data: Seq<OptionData>)
    requires
        strikes_in_range(data),
    ensures
        build_result(strategy, data) matches Ok(r) ==> wings_priced_near(strategy, data, r.0),
{
    match strategy {
        Strategy::CallCreditSpread => lemma_vertical_wing(
            data,
            OptionType::Call,
            false,
            DELTA_OTM_30 as int,
            STRIKE_WIDTH_NARROW as int,
            "CCS"@,
        ),
        Strategy::PutCreditSpread => lemma_vertical_wing(
            data,
            OptionType::Put,
            false,
            -DELTA_OTM_30,
            STRIKE_WIDTH_NARROW as int,
            "PCS"@,
        ),
        Strategy::CallDebitSpread => lemma_vertical_wing(
            data,
            OptionType::Call,
            true,
            DELTA_ATM as int,
            STRIKE_WIDTH_NARROW as int,
            "CDS"@,
        ),
        Strategy::PutDebitSpread => lemma_vertical_wing(
            data,
            OptionType::Put,
            true,
            -DELTA_ATM,
            STRIKE_WIDTH_NARROW as int,
            "PDS"@,
        ),
        Strategy::IronButterfly => lemma_butterfly_wings(data, "Iron Fly"@),
        Strategy::IronCondor => lemma_condor_wings(data, "Iron Condor"@),
        _ => {},
    }
}

/// Row `j` is the one a template picks for `target` delta on side `kind`:
/// it qualifies, no qualifying row has a delta closer to the target, and
/// every earlier qualifying row is farther.
pub open spec fn picked_by_delta(data: Seq<OptionData>, kind: OptionType, target: int, j: int) -> bool {
    &&& 0 <= j < data.len()
    &&& row_qualifies(data[j], kind)
    &&& forall|k: int|
        0 <= k < data.len() && row_qualifies(#[trigger] data[k], kind) ==> delta_distance(
            data[j],
            kind,
            target,
        ) <= delta_distance(data[k], kind, target) && (k < j ==> delta_distance(data[j], kind, target)
            < delta_distance(data[k], kind, target))
}

/// The leg is `qty` lots of side `kind` at the row picked for `target` delta
/// on side `pick`, priced at the last traded price of side `kind` there.
pub open spec fn leg_at_picked_row(
    data: Seq<OptionData>,
    l: Position,
    pick: OptionType,
    target: int,
    kind: OptionType,
    qty: int,
) -> bool {
    exists|j: int|
        #[trigger] picked_by_delta(data, pick, target, j) && l.strike == data[j].strike_price && l.kind
            == kind && l.qty == qty && match side_contract(data[j], kind == OptionType::Call) {
            Some(c) => c.market_data.ltp == l.entry_price,
            None => false,
        }
}

/// The legs a template takes from the rows it picks by delta: the anchor of
/// a spread, the single option, the straddle's call and put at the
/// at-the-money call's row, the strangle's call and put, the butterfly's
/// centre and the condor's sold call and put; bought (+1) or sold (-1) as
/// the template says.
pub open spec fn legs_from_picked_rows(
    strategy: Strategy,
    data: Seq<OptionData>,
    legs: Seq<Position>,
) -> bool {
    let c = OptionType::Call;
    let p = OptionType::Put;
    match strategy {
        Strategy::CallCreditSpread => legs.len() >= 1
            && leg_at_picked_row(data, legs[0], c, DELTA_OTM_30 as int, c, -1),
        Strategy::PutCreditSpread => legs.len() >= 1
            && leg_at_picked_row(data, legs[0], p, -DELTA_OTM_30, p, -1),
        Strategy::CallDebitSpread => legs.len() >= 1
            && leg_at_picked_row(data, legs[0], c, DELTA_ATM as int, c, 1),
        Strategy::PutDebitSpread => legs.len() >= 1
            && leg_at_picked_row(data, legs[0], p, -DELTA_ATM, p, 1),
        Strategy::LongCall => legs.len() == 1
            && leg_at_picked_row(data, legs[0], c, DELTA_ATM as int, c, 1),
        Strategy::LongPut => legs.len() == 1
            && leg_at_picked_row(data, legs[0], p, -DELTA_ATM, p, 1),
        Strategy::ShortCall => legs.len() == 1
            && leg_at_picked_row(data, legs[0], c, DELTA_OTM_30 as int, c, -1),
        Strategy::ShortPut => legs.len() == 1
            && leg_at_picked_row(data, legs[0], p, -DELTA_OTM_30, p, -1),
        Strategy::ShortStraddle => legs.len() == 2
            && leg_at_picked_row(data, legs[0], c, DELTA_ATM as int, c, -1)
            && leg_at_picked_row(data, legs[1], c, DELTA_ATM as int, p, -1)
            && legs[0].strike == legs[1].strike,
        Strategy::ShortStrangle => legs.len() == 2
            && leg_at_picked_row(data, legs[0], c, DELTA_OTM_16 as int, c, -1)
            && leg_at_picked_row(data, legs[1], p, -DELTA_OTM_16, p, -1),
        Strategy::IronButterfly => legs.len() == 4
            && leg_at_picked_row(data, legs[0], c, DELTA_ATM as int, c, -1)
            && leg_at_picked_row(data, legs[1], c, DELTA_ATM as int, p, -1)
            && legs[0].strike == legs[1].strike,
        Strategy::IronCondor => legs.len() == 4
            && leg_at_picked_row(data, legs[0], c, DELTA_OTM_16 as int, c, -1)
            && leg_at_picked_row(data, legs[1], p, -DELTA_OTM_16, p, -1),
    }
}

/// The row found for a target delta is the picked one.
proof fn lemma_closest_is_picked(data: Seq<OptionData>, target: int, kind: OptionType)
    requires
        closest_delta(data, target, kind) is Some,
    ensures
        picked_by_delta(data, kind, target, closest_delta(data, target, kind)->0),
{
    lemma_closest_delta_upto(data, target, kind, data.len());
    law_closest_delta_is_closest(data, target, kind, data.len());
}

/// A leg built at the row found for a target delta sits at the picked row.
proof fn lemma_leg_at_closest(data: Seq<OptionData>, pick: OptionType, target: int, kind: OptionType, qty: int)
    requires
        closest_delta(data, target, pick) is Some,
        price_of(data[closest_delta(data, target, pick)->0], kind) is Ok,
        qty == 1 || qty == -1,
    ensures
        ({
            let j = closest_delta(data, target, pick)->0;
            leg_at_picked_row(
                data,
                leg(data[j].strike_price, kind, qty, price_of(data[j], kind)->Ok_0),
                pick,
                target,
                kind,
                qty,
            )
        }),
{
    lemma_closest_is_picked(data, target, pick);
    let j = closest_delta(data, target, pick)->0;
    assert(is_call(kind) == (kind == OptionType::Call));
    assert(picked_by_delta(data, pick, target, j));
}

proof fn lemma_vertical_anchor(
    data: Seq<OptionData>,
    kind: OptionType,
    is_debit: bool,
    anchor_delta: int,
    width: int,
    label: Seq<char>,
)
    ensures
        vertical_spread_result(data, kind, is_debit, anchor_delta, width, label) matches Ok(r) ==> r.0.len()
            >= 1 && leg_at_picked_row(data, r.0[0], kind, anchor_delta, kind, if is_debit { 1 } else { -1 }),
{
    if closest_delta(data, anchor_delta, kind) is Some && price_of(
        data[closest_delta(data, anchor_delta, kind)->0],
        kind,
    ) is Ok {
        lemma_leg_at_closest(data, kind, anchor_delta, kind, if is_debit { 1 } else { -1 });
    }
}

proof fn lemma_single_leg(data: Seq<OptionData>, kind: OptionType, is_buy: bool, delta: int, label: Seq<char>)
    ensures
        single_option_result(data, kind, is_buy, delta, label) matches Ok(r) ==> r.0.len() == 1
            && leg_at_picked_row(data, r.0[0], kind, delta, kind, if is_buy { 1 } else { -1 }),
{
    if closest_delta(data, delta, kind) is Some && price_of(data[closest_delta(data, delta, kind)->0], kind) is Ok {
        lemma_leg_at_closest(data, kind, delta, kind, if is_buy { 1 } else { -1 });
    }
}

proof fn lemma_straddle_legs(data: Seq<OptionData>, label: Seq<char>)
    ensures
        straddle_result(data, label) matches Ok(r) ==> r.0.len() == 2 && leg_at_picked_row(
            data,
            r.0[0],
            OptionType::Call,
            DELTA_ATM as int,
            OptionType::Call,
            -1,
        ) && leg_at_picked_row(data, r.0[1], OptionType::Call, DELTA_ATM as int, OptionType::Put, -1)
            && r.0[0].strike == r.0[1].strike,
{
    let c = OptionType::Call;
    let p = OptionType::Put;
    if closest_delta(data, DELTA_ATM as int, c) is Some {
        let j = closest_delta(data, DELTA_ATM as int, c)->0;
        if price_of(data[j], c) is Ok && price_of(data[j], p) is Ok {
            lemma_leg_at_closest(data, c, DELTA_ATM as int, c, -1);
            lemma_leg_at_closest(data, c, DELTA_ATM as int, p, -1);
        }
    }
}

proof fn lemma_strangle_legs(data: Seq<OptionData>, delta: int, label: Seq<char>)
    ensures
        strangle_result(data, delta, label) matches Ok(r) ==> r.0.len() == 2 && leg_at_picked_row(
            data,
            r.0[0],
            OptionType::Call,
            delta,
            OptionType::Call,
            -1,
        ) && leg_at_picked_row(data, r.0[1], OptionType::Put, -delta, OptionType::Put, -1),
{
    let c = OptionType::Call;
    let p = OptionType::Put;
    if closest_delta(data, delta, c) is Some && closest_delta(data, -delta, p) is Some {
        if price_of(data[closest_delta(data, delta, c)->0], c) is Ok && price_of(
            data[closest_delta(data, -delta, p)->0],
            p,
        ) is Ok {
            lemma_leg_at_closest(data, c, delta, c, -1);
            lemma_leg_at_closest(data, p, -delta, p, -1);
        }
    }
}

proof fn lemma_butterfly_centre(data: Seq<OptionData>, label: Seq<char>)
    ensures
        iron_butterfly_result(data, label) matches Ok(r) ==> r.0.len() == 4 && leg_at_picked_row(
            data,
            r.0[0],
            OptionType::Call,
            DELTA_ATM as int,
            OptionType::Call,
            -1,
        ) && leg_at_picked_row(data, r.0[1], OptionType::Call, DELTA_ATM as int, OptionType::Put, -1)
            && r.0[0].strike == r.0[1].strike,
{
    let c = OptionType::Call;
    let p = OptionType::Put;
    if closest_delta(data, DELTA_ATM as int, c) is Some {
        let j = closest_delta(data, DELTA_ATM as int, c)->0;
        if price_of(data[j], c) is Ok && price_of(data[j], p) is Ok {
            lemma_leg_at_closest(data, c, DELTA_ATM as int, c, -1);
            lemma_leg_at_closest(data, c, DELTA_ATM as int, p, -1);
            let cs = data[j].strike_price as int;
            assert(cs as i64 == data[j].strike_price);
        }
    }
}

proof fn lemma_condor_shorts(data: Seq<OptionData>, label: Seq<char>)
    ensures
        iron_condor_result(data, label) matches Ok(r) ==> r.0.len() == 4 && leg_at_picked_row(
            data,
            r.0[0],
            OptionType::Call,
            DELTA_OTM_16 as int,
            OptionType::Call,
            -1,
        ) && leg_at_picked_row(data, r.0[1], OptionType::Put, -DELTA_OTM_16, OptionType::Put, -1),
{
    let c = OptionType::Call;
    let p = OptionType::Put;
    if closest_delta(data, DELTA_OTM_16 as int, c) is Some && closest_delta(data, -DELTA_OTM_16, p) is Some {
        if price_of(data[closest_delta(data, DELTA_OTM_16 as int, c)->0], c) is Ok && price_of(
            data[closest_delta(data, -DELTA_OTM_16, p)->0],
            p,
        ) is Ok {
            lemma_leg_at_closest(data, c, DELTA_OTM_16 as int, c, -1);
            lemma_leg_at_closest(data, p, -DELTA_OTM_16, p, -1);
        }
    }
}

/// Every template takes its anchor, single, straddle, strangle, centre or
/// sold legs from the rows it picks by delta: the first qualifying row whose
/// delta is closest to the template's target, at that row's strike and the
/// last traded price of the leg's side there, bought or sold as the
/// template says (see `legs_from_picked_rows`).
pub proof fn law_legs_from_picked_rows(strategy: Strategy, data: Seq<OptionData>)
    ensures
        build_result(strategy, data) matches Ok(r) ==> legs_from_picked_rows(strategy, data, r.0),
{
    let c = OptionType::Call;
    let p = OptionType::Put;
    match strategy {
        Strategy::CallCreditSpread => lemma_vertical_anchor(
            data,
            c,
            false,
            DELTA_OTM_30 as int,
            STRIKE_WIDTH_NARROW as int,
            "CCS"@,
        ),
        Strategy::PutCreditSpread => lemma_vertical_anchor(
            data,
            p,
            false,
            -DELTA_OTM_30,
            STRIKE_WIDTH_NARROW as int,
            "PCS"@,
        ),
        Strategy::CallDebitSpread => lemma_vertical_anchor(
            data,
            c,
            true,
            DELTA_ATM as int,
            STRIKE_WIDTH_NARROW as int,
            "CDS"@,
        ),
        Strategy::PutDebitSpread => lemma_vertical_anchor(
            data,
            p,
            true,
            -DELTA_ATM,
            STRIKE_WIDTH_NARROW as int,
            "PDS"@,
        ),
        Strategy::LongCall => lemma_single_leg(data, c, true, DELTA_ATM as int, "Long Call"@),
        Strategy::LongPut => lemma_single_leg(data, p, true, -DELTA_ATM, "Long Put"@),
        Strategy::ShortCall => lemma_single_leg(data, c, false, DELTA_OTM_30 as int, "Short Call"@),
        Strategy::ShortPut => lemma_single_leg(data, p, false, -DELTA_OTM_30, "Short Put"@),
        Strategy::ShortStraddle => lemma_straddle_legs(data, "Short Straddle"@),
        Strategy::ShortStrangle => lemma_strangle_legs(data, DELTA_OTM_16 as int, "Short Strangle"@),
        Strategy::IronButterfly => lemma_butterfly_centre(data, "Iron Fly"@),
        Strategy::IronCondor => lemma_condor_shorts(data, "Iron Condor"@),
    }
}

} // verus!
