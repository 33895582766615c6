//! Positions, their payoff at expiry, and the analysis of a whole strategy:
//! the payoff curve, its extremes, its breakevens and whether profit or loss
//! is unbounded.
use vstd::prelude::*;
use crate::seq_facts::lemma_push_contains;
use crate::arith::{abs_int, max_int, min_int, sign, trunc_div, trunc_div_exec, mul_div_floor};

verus! {

#[derive(Debug, Clone, Copy, PartialEq, Eq, Hash, Structural)]
pub enum OptionType {
    Call,
    Put,
}

/// One leg: `qty` lots (positive when bought, negative when sold) of an
/// option at `strike`, entered at `entry_price` per unit. Strike and price
/// are in hundredths of a rupee.
#[derive(Debug, Clone, Copy, PartialEq, Eq, Structural)]
pub struct Position {
    pub strike: i64,
    pub kind: OptionType,
    pub qty: i32,
    pub entry_price: i64,
}

/// Units of the underlying in one lot.
pub const LOT_SIZE: i128 = 65;

/// Spot prices handed to the payoff functions stay strictly inside
/// `(-SPOT_LIMIT, SPOT_LIMIT)` (2^67 hundredths), so that every payoff fits
/// in 128 bits.
pub const SPOT_LIMIT: i128 = 0x80000000000000000;

/// The most legs the analysis takes: with quantities up to `i32` and
/// prices up to `i64` hundredths, the payoff of 256 legs at the curve's
/// resolution is the most that fits in 128 bits (about 2^125 at a curve
/// point; see `grid_leg_bound`).
pub const MAX_LEGS: usize = 256;

/// The payoff curve counts its spots and profits in curve units: 1/20000
/// of a hundredth of a rupee. Its ends (5% of the spot, 98% and 102% of a
/// strike) are whole multiples of 1/100 of a hundredth, and the 201 evenly
/// spaced spots between them whole curve units, so the curve is exact.
pub const CURVE_SCALE: i128 = 20000;

/// Bound on the payoff of one leg (2^106).
pub open spec fn leg_bound() -> int {
    0x400000000000000000000000000
}

/// Bound on the payoff of a whole strategy (2^124).
pub open spec fn net_bound() -> int {
    0x10000000000000000000000000000000
}

/// The value at expiry of one unit of an option.
pub open spec fn intrinsic_value(kind: OptionType, strike: int, spot: int) -> int {
    match kind {
        OptionType::Call => max_int(spot - strike, 0),
        OptionType::Put => max_int(strike - spot, 0),
    }
}

/// The profit or loss of a leg at expiry, in hundredths of a rupee:
/// (intrinsic value - entry price) * quantity * lot size.
pub open spec fn payoff_value(p: Position, spot: int) -> int {
    (intrinsic_value(p.kind, p.strike as int, spot) - p.entry_price) * p.qty * LOT_SIZE
}

/// The summed profit or loss of all legs at expiry.
pub open spec fn net_payoff(ps: Seq<Position>, spot: int) -> int
    decreases ps.len(),
{
    if ps.len() == 0 {
        0
    } else {
        net_payoff(ps.drop_last(), spot) + payoff_value(ps.last(), spot)
    }
}

/// The profit or loss of a leg at expiry when the spot is `s` curve units,
/// in curve units.
pub open spec fn curve_payoff_value(p: Position, s: int) -> int {
    (intrinsic_value(p.kind, p.strike * CURVE_SCALE, s) - p.entry_price * CURVE_SCALE) * p.qty
        * LOT_SIZE
}

/// The summed profit or loss of all legs at a spot in curve units, in curve
/// units.
pub open spec fn curve_net_payoff(ps: Seq<Position>, s: int) -> int
    decreases ps.len(),
{
    if ps.len() == 0 {
        0
    } else {
        curve_net_payoff(ps.drop_last(), s) + curve_payoff_value(ps.last(), s)
    }
}

/// Spots in curve units handed to the curve payoff stay strictly inside
/// `(-2^81, 2^81)`.
pub open spec fn curve_spot_in_range(s: int) -> bool {
    -0x200000000000000000000 < s < 0x200000000000000000000
}

/// Bound on the curve payoff of one leg (2^119).
pub open spec fn curve_leg_bound() -> int {
    0x800000000000000000000000000000
}

/// Bound on the curve payoff of a whole strategy (2^127).
pub open spec fn curve_net_bound() -> int {
    0x80000000000000000000000000000000
}

/// The bound on every curve spot (20000 * 2^64 curve units).
pub open spec fn grid_bound() -> int {
    0x4e200000000000000000
}

/// Bound on the payoff of one leg at a curve spot (2^117).
pub open spec fn grid_leg_bound() -> int {
    0x200000000000000000000000000000
}

/// Bound on the payoff of a whole strategy at a curve spot (2^125).
pub open spec fn grid_net_bound() -> int {
    0x20000000000000000000000000000000
}

pub open spec fn spot_in_range(spot: int) -> bool {
    -SPOT_LIMIT < spot < SPOT_LIMIT
}

pub proof fn lemma_payoff_bound(p: Position, spot: int)
    requires
        spot_in_range(spot),
    ensures
        abs_int(payoff_value(p, spot)) < leg_bound(),
{
    let d = intrinsic_value(p.kind, p.strike as int, spot) - p.entry_price;
    assert(abs_int(d) < 0x100000000000000000);
    let q = p.qty as int;
    assert(abs_int(q) <= 0x80000000);
    assert(abs_int(d * q * 65) < 0x400000000000000000000000000) by (nonlinear_arith)
        requires
            abs_int(d) < 0x100000000000000000,
            abs_int(q) <= 0x80000000,
    {
        assert(abs_int(d * q) == abs_int(d) * abs_int(q));
        assert(abs_int(d) * abs_int(q) < 0x100000000000000000 * 0x80000001);
        assert(abs_int(d * q * 65) == abs_int(d * q) * 65);
    }
}

pub proof fn lemma_net_payoff_bound(ps: Seq<Position>, spot: int)
    requires
        spot_in_range(spot),
    ensures
        abs_int(net_payoff(ps, spot)) <= ps.len() * (leg_bound() - 1),
    decreases ps.len(),
{
    if ps.len() > 0 {
        lemma_net_payoff_bound(ps.drop_last(), spot);
        lemma_payoff_bound(ps.last(), spot);
        assert((ps.len() - 1) * (leg_bound() - 1) + (leg_bound() - 1) == ps.len() * (leg_bound() - 1))
            by (nonlinear_arith);
    }
}

pub proof fn lemma_net_payoff_small(ps: Seq<Position>, spot: int)
    requires
        spot_in_range(spot),
        ps.len() <= MAX_LEGS,
    ensures
        abs_int(net_payoff(ps, spot)) < net_bound(),
{
    lemma_net_payoff_bound(ps, spot);
    assert(ps.len() * (leg_bound() - 1) <= MAX_LEGS * (leg_bound() - 1)) by (nonlinear_arith)
        requires
            ps.len() <= MAX_LEGS,
            leg_bound() > 1,
    ;
}

pub proof fn lemma_curve_payoff_bound(p: Position, s: int)
    requires
        curve_spot_in_range(s),
    ensures
        abs_int(curve_payoff_value(p, s)) < curve_leg_bound(),
        abs_int(s) <= grid_bound() ==> abs_int(curve_payoff_value(p, s)) < grid_leg_bound(),
{
    let d = intrinsic_value(p.kind, p.strike * CURVE_SCALE, s) - p.entry_price * CURVE_SCALE;
    assert(abs_int(d) < 0x280000000000000000000);
    let q = p.qty as int;
    assert(abs_int(q) <= 0x80000000);
    assert(abs_int(d * q * 65) < 0x800000000000000000000000000000) by (nonlinear_arith)
        requires
            abs_int(d) < 0x280000000000000000000,
            abs_int(q) <= 0x80000000,
    {
        assert(abs_int(d * q) == abs_int(d) * abs_int(q));
        assert(abs_int(d) * abs_int(q) <= 0x280000000000000000000 * 0x80000000);
        assert(abs_int(d * q * 65) == abs_int(d * q) * 65);
    }
    if abs_int(s) <= grid_bound() {
        assert(abs_int(d) <= 0x9c400000000000000000);
        assert(abs_int(d * q * 65) < 0x200000000000000000000000000000) by (nonlinear_arith)
            requires
                abs_int(d) <= 0x9c400000000000000000,
                abs_int(q) <= 0x80000000,
        {
            assert(abs_int(d * q) == abs_int(d) * abs_int(q));
            assert(abs_int(d) * abs_int(q) <= 0x9c400000000000000000 * 0x80000000);
            assert(abs_int(d * q * 65) == abs_int(d * q) * 65);
        }
    }
}

pub proof fn lemma_curve_net_payoff_bound(ps: Seq<Position>, s: int)
    requires
        curve_spot_in_range(s),
    ensures
        abs_int(curve_net_payoff(ps, s)) <= ps.len() * (curve_leg_bound() - 1),
        abs_int(s) <= grid_bound() ==> abs_int(curve_net_payoff(ps, s)) <= ps.len() * (
        grid_leg_bound() - 1),
    decreases ps.len(),
{
    if ps.len() > 0 {
        lemma_curve_net_payoff_bound(ps.drop_last(), s);
        lemma_curve_payoff_bound(ps.last(), s);
        assert((ps.len() - 1) * (curve_leg_bound() - 1) + (curve_leg_bound() - 1) == ps.len() * (
        curve_leg_bound() - 1)) by (nonlinear_arith);
        assert((ps.len() - 1) * (grid_leg_bound() - 1) + (grid_leg_bound() - 1) == ps.len() * (
        grid_leg_bound() - 1)) by (nonlinear_arith);
    }
}

pub proof fn lemma_curve_net_payoff_small(ps: Seq<Position>, s: int)
    requires
        curve_spot_in_range(s),
        ps.len() <= MAX_LEGS,
    ensures
        abs_int(curve_net_payoff(ps, s)) < curve_net_bound(),
        abs_int(s) <= grid_bound() ==> abs_int(curve_net_payoff(ps, s)) < grid_net_bound(),
{
    lemma_curve_net_payoff_bound(ps, s);
    assert(ps.len() * (curve_leg_bound() - 1) <= MAX_LEGS * (curve_leg_bound() - 1)) by (nonlinear_arith)
        requires
            ps.len() <= MAX_LEGS,
            curve_leg_bound() > 1,
    ;
    assert(ps.len() * (grid_leg_bound() - 1) <= MAX_LEGS * (grid_leg_bound() - 1)) by (nonlinear_arith)
        requires
            ps.len() <= MAX_LEGS,
            grid_leg_bound() > 1,
    ;
}

/// The curve payoff of one leg, computed.
fn curve_leg_payoff(p: &Position, s: i128) -> (r: i128)
    requires
        curve_spot_in_range(s as int),
    ensures
        r == curve_payoff_value(*p, s as int),
{
    let strike = p.strike as i128 * CURVE_SCALE;
    let intrinsic: i128 = match p.kind {
        OptionType::Call => if s - strike > 0 {
            s - strike
        } else {
            0
        },
        OptionType::Put => if strike - s > 0 {
            strike - s
        } else {
            0
        },
    };
    let d = intrinsic - p.entry_price as i128 * CURVE_SCALE;
    let q = p.qty as i128;
    proof {
        lemma_curve_payoff_bound(*p, s as int);
        assert(abs_int(d as int) < 0x280000000000000000000);
        assert(abs_int(d * q) < 0x280000000000000000000 * 0x80000001) by (nonlinear_arith)
            requires
                abs_int(d as int) < 0x280000000000000000000,
                abs_int(q as int) <= 0x80000000,
        {
            assert(abs_int(d * q) == abs_int(d as int) * abs_int(q as int));
        }
    }
    d * q * LOT_SIZE
}

/// The summed curve payoff of all legs at a spot in curve units.
fn curve_payoff(positions: &Vec<Position>, s: i128) -> (r: i128)
    requires
        curve_spot_in_range(s as int),
        positions@.len() <= MAX_LEGS,
    ensures
        r == curve_net_payoff(positions@, s as int),
        abs_int(r as int) < curve_net_bound(),
        abs_int(s as int) <= grid_bound() ==> abs_int(r as int) < grid_net_bound(),
{
    let mut sum: i128 = 0;
    let mut i: usize = 0;
    while i < positions.len()
        invariant
            i <= positions@.len() <= MAX_LEGS,
            curve_spot_in_range(s as int),
            sum == curve_net_payoff(positions@.subrange(0, i as int), s as int),
        decreases positions@.len() - i,
    {
        let v = curve_leg_payoff(&positions[i], s);
        proof {
            let pre = positions@.subrange(0, i as int);
            let next = positions@.subrange(0, i + 1);
            assert(next.drop_last() =~= pre);
            lemma_curve_net_payoff_small(pre, s as int);
            lemma_curve_net_payoff_small(next, s as int);
        }
        sum = sum + v;
        i += 1;
    }
    proof {
        assert(positions@.subrange(0, positions@.len() as int) =~= positions@);
        lemma_curve_net_payoff_small(positions@, s as int);
    }
    sum
}

impl Position {
    /// Profit or loss of this leg if the underlying settles at
    /// `spot_at_expiry`, in hundredths of a rupee.
    pub fn payoff(&self, spot_at_expiry: i128) -> (r: i128)
        requires
            spot_in_range(spot_at_expiry as int),
        ensures
            r == payoff_value(*self, spot_at_expiry as int),
    {
        let strike = self.strike as i128;
        let intrinsic: i128 = match self.kind {
            OptionType::Call => if spot_at_expiry - strike > 0 {
                spot_at_expiry - strike
            } else {
                0
            },
            OptionType::Put => if strike - spot_at_expiry > 0 {
                strike - spot_at_expiry
            } else {
                0
            },
        };
        let d = intrinsic - self.entry_price as i128;
        let q = self.qty as i128;
        proof {
            lemma_payoff_bound(*self, spot_at_expiry as int);
            assert(abs_int(d as int) < 0x100000000000000000);
            assert(abs_int(d * q) < 0x100000000000000000 * 0x80000001) by (nonlinear_arith)
                requires
                    abs_int(d as int) < 0x100000000000000000,
                    abs_int(q as int) <= 0x80000000,
            {
                assert(abs_int(d * q) == abs_int(d as int) * abs_int(q as int));
            }
        }
        d * q * LOT_SIZE
    }
}

/// The summed payoff of all legs at `spot`, in hundredths of a rupee.
pub fn calculate_net_payoff(positions: &Vec<Position>, spot: i128) -> (r: i128)
    requires
        spot_in_range(spot as int),
        positions@.len() <= MAX_LEGS,
    ensures
        r == net_payoff(positions@, spot as int),
        abs_int(r as int) < net_bound(),
{
    let mut sum: i128 = 0;
    let mut i: usize = 0;
    while i < positions.len()
        invariant
            i <= positions@.len() <= MAX_LEGS,
            spot_in_range(spot as int),
            sum == net_payoff(positions@.subrange(0, i as int), spot as int),
        decreases positions@.len() - i,
    {
        let v = positions[i].payoff(spot);
        proof {
            let pre = positions@.subrange(0, i as int);
            let next = positions@.subrange(0, i + 1);
            assert(next.drop_last() =~= pre);
            lemma_net_payoff_small(pre, spot as int);
            lemma_net_payoff_small(next, spot as int);
        }
        sum = sum + v;
        i += 1;
    }
    proof {
        assert(positions@.subrange(0, positions@.len() as int) =~= positions@);
        lemma_net_payoff_small(positions@, spot as int);
    }
    sum
}

// ------------------------------------------------------------------------
// The strategy templates offered in the strategy list.

#[derive(Debug, Clone, Copy, PartialEq, Eq, Structural)]
pub enum Strategy {
    CallCreditSpread,
    PutCreditSpread,
    CallDebitSpread,
    PutDebitSpread,
    LongCall,
    LongPut,
    ShortCall,
    ShortPut,
    ShortStraddle,
    ShortStrangle,
    IronButterfly,
    IronCondor,
}

pub open spec fn all_strategies() -> Seq<Strategy> {
    seq![
        Strategy::CallCreditSpread,
        Strategy::PutCreditSpread,
        Strategy::CallDebitSpread,
        Strategy::PutDebitSpread,
        Strategy::LongCall,
        Strategy::LongPut,
        Strategy::ShortCall,
        Strategy::ShortPut,
        Strategy::ShortStraddle,
        Strategy::ShortStrangle,
        Strategy::IronButterfly,
        Strategy::IronCondor,
    ]
}

/// The name of a template as the strategy list shows it.
pub open spec fn strategy_name(s: Strategy) -> Seq<char> {
    match s {
        Strategy::CallCreditSpread => "Call Credit Spread"@,
        Strategy::PutCreditSpread => "Put Credit Spread"@,
        Strategy::CallDebitSpread => "Call Debit Spread"@,
        Strategy::PutDebitSpread => "Put Debit Spread"@,
        Strategy::LongCall => "Long Call"@,
        Strategy::LongPut => "Long Put"@,
        Strategy::ShortCall => "Short Call"@,
        Strategy::ShortPut => "Short Put"@,
        Strategy::ShortStraddle => "Short Straddle"@,
        Strategy::ShortStrangle => "Short Strangle"@,
        Strategy::IronButterfly => "Iron Butterfly"@,
        Strategy::IronCondor => "Iron Condor"@,
    }
}

impl Strategy {
    /// Every template, in the order the strategy list shows them.
    pub fn all() -> (r: Vec<Strategy>)
        ensures
            r@ == all_strategies(),
    {
        let v = vec![
            Strategy::CallCreditSpread,
            Strategy::PutCreditSpread,
            Strategy::CallDebitSpread,
            Strategy::PutDebitSpread,
            Strategy::LongCall,
            Strategy::LongPut,
            Strategy::ShortCall,
            Strategy::ShortPut,
            Strategy::ShortStraddle,
            Strategy::ShortStrangle,
            Strategy::IronButterfly,
            Strategy::IronCondor,
        ];
        assert(v@ =~= all_strategies());
        v
    }

    /// The name shown in the strategy list.
    pub fn name(&self) -> (r: &'static str)
        ensures
            r@ == strategy_name(*self),
    {
        match self {
            Strategy::CallCreditSpread => "Call Credit Spread",
            Strategy::PutCreditSpread => "Put Credit Spread",
            Strategy::CallDebitSpread => "Call Debit Spread",
            Strategy::PutDebitSpread => "Put Debit Spread",
            Strategy::LongCall => "Long Call",
            Strategy::LongPut => "Long Put",
            Strategy::ShortCall => "Short Call",
            Strategy::ShortPut => "Short Put",
            Strategy::ShortStraddle => "Short Straddle",
            Strategy::ShortStrangle => "Short Strangle",
            Strategy::IronButterfly => "Iron Butterfly",
            Strategy::IronCondor => "Iron Condor",
        }
    }
}

// ------------------------------------------------------------------------
// Strategy analysis.

/// Points in the payoff curve, beyond the first.
pub const GRID_STEPS: i128 = 200;

/// The summary of a strategy's payoff at expiry. Amounts are in curve units
/// (1/20000 of a hundredth of a rupee, see `CURVE_SCALE`); `points` holds
/// (spot, profit) pairs of the payoff curve.
#[derive(Debug)]
pub struct StrategyStats {
    pub max_profit: i128,
    pub max_loss: i128,
    pub max_profit_unlimited: bool,
    pub max_loss_unlimited: bool,
    pub breakevens: Vec<i128>,
    pub points: Vec<(i128, i128)>,
}

pub open spec fn min_strike(ps: Seq<Position>) -> int
    recommends
        ps.len() > 0,
    decreases ps.len(),
{
    if ps.len() <= 1 {
        ps[0].strike as int
    } else {
        min_int(min_strike(ps.drop_last()), ps.last().strike as int)
    }
}

pub open spec fn max_strike(ps: Seq<Position>) -> int
    recommends
        ps.len() > 0,
    decreases ps.len(),
{
    if ps.len() <= 1 {
        ps[0].strike as int
    } else {
        max_int(max_strike(ps.drop_last()), ps.last().strike as int)
    }
}

/// The half-width of the curve around the spot, in hundredths of a
/// hundredth: the given range, or 5% of the spot when there is none.
pub open spec fn range_width(spot: int, volatility_range: Option<i64>) -> int {
    match volatility_range {
        Some(v) => 100 * v,
        None => 5 * spot,
    }
}

/// The left end of the payoff curve, in hundredths of a hundredth: the
/// range around the spot, widened to 98% of the lowest strike.
pub open spec fn curve_low(ps: Seq<Position>, spot: int, width: int) -> int {
    min_int(100 * spot - width, 98 * min_strike(ps))
}

/// The right end of the payoff curve, in hundredths of a hundredth: the
/// range around the spot, widened to 102% of the highest strike.
pub open spec fn curve_high(ps: Seq<Position>, spot: int, width: int) -> int {
    max_int(100 * spot + width, 102 * max_strike(ps))
}

/// The spot, in curve units, of the i-th of the 201 evenly spaced points
/// from `lo` to `hi` (in hundredths of a hundredth):
/// `lo + i * (hi - lo) / 200`, exactly.
pub open spec fn grid_spot(lo: int, hi: int, i: int) -> int {
    200 * lo + i * (hi - lo)
}

/// The profit at the i-th curve point, in curve units.
pub open spec fn grid_pnl(ps: Seq<Position>, lo: int, hi: int, i: int) -> int {
    curve_net_payoff(ps, grid_spot(lo, hi, i))
}

/// The profit at each of the first `n` curve points.
pub open spec fn grid_pnls(ps: Seq<Position>, lo: int, hi: int, n: nat) -> Seq<int> {
    Seq::new(n, |i: int| grid_pnl(ps, lo, hi, i))
}

/// The profit changes side between two neighbouring points: from a loss to
/// a profit or break-even, or from a profit to a loss or break-even.
pub open spec fn crosses_zero(prev: int, cur: int) -> bool {
    (prev < 0 && cur >= 0) || (prev > 0 && cur <= 0)
}

/// The spot between `s0` and `s1` where the straight line through
/// `(s0, p0)` and `(s1, p1)` meets zero, rounded toward `s0`.
pub open spec fn zero_crossing(s0: int, s1: int, p0: int, p1: int) -> int {
    if p1 - p0 != 0 {
        s0 + sign(s1 - s0) * ((abs_int(s1 - s0) * abs_int(p0)) / abs_int(p1 - p0))
    } else {
        s1
    }
}

/// The breakevens found among the first `n` curve points, left to right.
pub open spec fn breakevens_upto(ps: Seq<Position>, lo: int, hi: int, n: nat) -> Seq<int>
    decreases n,
{
    if n <= 1 {
        Seq::empty()
    } else {
        let i = n - 1;
        let prev = breakevens_upto(ps, lo, hi, (n - 1) as nat);
        let p0 = grid_pnl(ps, lo, hi, i - 1);
        let p1 = grid_pnl(ps, lo, hi, i);
        if crosses_zero(p0, p1) {
            prev.push(zero_crossing(grid_spot(lo, hi, i - 1), grid_spot(lo, hi, i), p0, p1))
        } else {
            prev
        }
    }
}

pub open spec fn seq_max(s: Seq<int>) -> int
    recommends
        s.len() > 0,
    decreases s.len(),
{
    if s.len() <= 1 {
        s[0]
    } else {
        max_int(seq_max(s.drop_last()), s.last())
    }
}

pub open spec fn seq_min(s: Seq<int>) -> int
    recommends
        s.len() > 0,
    decreases s.len(),
{
    if s.len() <= 1 {
        s[0]
    } else {
        min_int(seq_min(s.drop_last()), s.last())
    }
}

/// The change of the payoff over the last rupee below ten times the spot:
/// a rising tail means unlimited profit, a falling one unlimited loss.
pub open spec fn tail_slope(ps: Seq<Position>, spot: int) -> int {
    net_payoff(ps, 10 * spot) - net_payoff(ps, 10 * spot - 100)
}

/// The values that decide the maximum profit: the curve, and, unless the
/// profit is unlimited, the payoff at spot zero and at ten times the spot.
pub open spec fn profit_candidates(ps: Seq<Position>, spot: int, lo: int, hi: int) -> Seq<int> {
    let curve = grid_pnls(ps, lo, hi, 201);
    if tail_slope(ps, spot) > 0 {
        curve
    } else {
        curve.push(curve_net_payoff(ps, 0)).push(curve_net_payoff(ps, CURVE_SCALE * (10 * spot)))
    }
}

/// The values that decide the maximum loss, as above.
pub open spec fn loss_candidates(ps: Seq<Position>, spot: int, lo: int, hi: int) -> Seq<int> {
    let curve = grid_pnls(ps, lo, hi, 201);
    if tail_slope(ps, spot) < 0 {
        curve
    } else {
        curve.push(curve_net_payoff(ps, 0)).push(curve_net_payoff(ps, CURVE_SCALE * (10 * spot)))
    }
}

/// What `analyze_strategy` returns, stated over the curve ends `lo` and `hi`.
pub open spec fn stats_match(
    st: StrategyStats,
    ps: Seq<Position>,
    spot: int,
    lo: int,
    hi: int,
) -> bool {
    &&& st.points@.len() == 201
    &&& forall|i: int|
        0 <= i < 201 ==> (#[trigger] st.points@[i]).0 == grid_spot(lo, hi, i) && st.points@[i].1
            == grid_pnl(ps, lo, hi, i)
    &&& st.breakevens@.len() == breakevens_upto(ps, lo, hi, 201).len()
    &&& forall|k: int|
        0 <= k < st.breakevens@.len() ==> #[trigger] st.breakevens@[k] == breakevens_upto(
            ps,
            lo,
            hi,
            201,
        )[k]
    &&& st.max_profit_unlimited == (tail_slope(ps, spot) > 0)
    &&& st.max_loss_unlimited == (tail_slope(ps, spot) < 0)
    &&& st.max_profit == seq_max(profit_candidates(ps, spot, lo, hi))
    &&& st.max_loss == seq_min(loss_candidates(ps, spot, lo, hi))
}

/// The bound on the curve's ends, in hundredths of a hundredth (100 * 2^64).
pub open spec fn curve_bound() -> int {
    0x640000000000000000
}

proof fn lemma_trunc_div_nonneg(x: int, d: int)
    requires
        x >= 0,
        d > 0,
    ensures
        0 <= x / d <= x,
{
    vstd::arithmetic::div_mod::lemma_div_pos_is_pos(x, d);
    vstd::arithmetic::div_mod::lemma_div_is_ordered_by_denominator(x, 1, d);
}

pub proof fn lemma_grid_spot_between(lo: int, hi: int, i: int)
    requires
        0 <= i <= 200,
    ensures
        min_int(200 * lo, 200 * hi) <= grid_spot(lo, hi, i) <= max_int(
            200 * lo,
            200 * hi,
        ),
        i == 0 ==> grid_spot(lo, hi, i) == 200 * lo,
        i > 0 ==> grid_spot(lo, hi, i) - grid_spot(lo, hi, i - 1) == hi - lo,
{
    assert(grid_spot(lo, hi, i) == (200 - i) * lo + i * hi) by (nonlinear_arith);
    if lo <= hi {
        assert(200 * lo <= (200 - i) * lo + i * hi <= 200 * hi) by (nonlinear_arith)
            requires
                0 <= i <= 200,
                lo <= hi,
        ;
    } else {
        assert(200 * hi <= (200 - i) * lo + i * hi <= 200 * lo) by (nonlinear_arith)
            requires
                0 <= i <= 200,
                hi < lo,
        ;
    }
    if i > 0 {
        assert(i * (hi - lo) - (i - 1) * (hi - lo) == hi - lo) by (nonlinear_arith);
    }
}

/// With `lo < hi`, the spots of the curve strictly increase.
pub proof fn lemma_grid_increasing(lo: int, hi: int, i: int, j: int)
    requires
        lo < hi,
        i < j,
    ensures
        grid_spot(lo, hi, i) < grid_spot(lo, hi, j),
{
    assert(i * (hi - lo) < j * (hi - lo)) by (nonlinear_arith)
        requires
            lo < hi,
            i < j,
    ;
}

pub proof fn lemma_zero_crossing_between(s0: int, s1: int, p0: int, p1: int)
    requires
        crosses_zero(p0, p1),
    ensures
        min_int(s0, s1) <= zero_crossing(s0, s1, p0, p1) <= max_int(s0, s1),
{
    let a = abs_int(s1 - s0);
    let b = abs_int(p0);
    let c = abs_int(p1 - p0);
    assert(b <= c);
    assert(c > 0);
    assert(0 <= a * b <= a * c) by (nonlinear_arith)
        requires
            0 <= b <= c,
            a >= 0,
    ;
    vstd::arithmetic::div_mod::lemma_div_is_ordered(a * b, a * c, c);
    vstd::arithmetic::div_mod::lemma_div_by_multiple(a, c);
    lemma_trunc_div_nonneg(a * b, c);
    let q = (a * b) / c;
    assert(0 <= q <= a);
    if s1 > s0 {
        assert(sign(s1 - s0) * q == q);
    } else if s1 < s0 {
        assert(sign(s1 - s0) * q == -q);
    } else {
        assert(sign(s1 - s0) == 0);
        assert(0 * q == 0);
    }
}

pub proof fn lemma_min_strike_bound(ps: Seq<Position>)
    requires
        ps.len() > 0,
    ensures
        i64::MIN <= min_strike(ps) <= i64::MAX,
        i64::MIN <= max_strike(ps) <= i64::MAX,
    decreases ps.len(),
{
    if ps.len() > 1 {
        lemma_min_strike_bound(ps.drop_last());
    }
}

proof fn lemma_strike_extent_positive(ps: Seq<Position>)
    requires
        ps.len() > 0,
        forall|k: int| 0 <= k < ps.len() ==> #[trigger] ps[k].strike > 0,
    ensures
        1 <= min_strike(ps) <= max_strike(ps),
    decreases ps.len(),
{
    if ps.len() > 1 {
        assert forall|k: int| 0 <= k < ps.drop_last().len() implies #[trigger] ps.drop_last()[k].strike
            > 0 by {
            assert(ps.drop_last()[k] == ps[k]);
        }
        lemma_strike_extent_positive(ps.drop_last());
        assert(ps.last().strike > 0);
    } else {
        assert(ps[0].strike > 0);
    }
}

/// When every strike is positive, the curve's left end lies below its
/// right end: 98% of the lowest strike is below 102% of the highest.
proof fn lemma_curve_ends_apart(ps: Seq<Position>, spot: int, width: int)
    requires
        ps.len() > 0,
        forall|k: int| 0 <= k < ps.len() ==> #[trigger] ps[k].strike > 0,
    ensures
        curve_low(ps, spot, width) < curve_high(ps, spot, width),
{
    lemma_strike_extent_positive(ps);
}

/// The spot and the profit at the i-th curve point, computed.
fn curve_point(positions: &Vec<Position>, lo: i128, hi: i128, i: i128) -> (r: (i128, i128))
    requires
        0 <= i <= 200,
        abs_int(lo as int) <= curve_bound(),
        abs_int(hi as int) <= curve_bound(),
        positions@.len() <= MAX_LEGS,
    ensures
        r.0 == grid_spot(lo as int, hi as int, i as int),
        r.1 == grid_pnl(positions@, lo as int, hi as int, i as int),
        abs_int(r.0 as int) <= grid_bound(),
        abs_int(r.1 as int) < grid_net_bound(),
{
    proof {
        assert(abs_int(i * (hi - lo)) <= 200 * 0xc80000000000000000) by (nonlinear_arith)
            requires
                0 <= i <= 200,
                abs_int(hi - lo) <= 0xc80000000000000000,
        ;
        lemma_grid_spot_between(lo as int, hi as int, i as int);
    }
    let spot = 200 * lo + i * (hi - lo);
    let pnl = curve_payoff(positions, spot);
    (spot, pnl)
}

/// The spot where the payoff line between two curve points meets zero.
fn zero_crossing_exec(s0: i128, s1: i128, p0: i128, p1: i128) -> (r: i128)
    requires
        crosses_zero(p0 as int, p1 as int),
        abs_int(s0 as int) <= grid_bound(),
        abs_int(s1 as int) <= grid_bound(),
        abs_int(s1 - s0) <= 0xc80000000000000000,
        abs_int(p0 as int) < grid_net_bound(),
        abs_int(p1 as int) < grid_net_bound(),
    ensures
        r == zero_crossing(s0 as int, s1 as int, p0 as int, p1 as int),
        min_int(s0 as int, s1 as int) <= r <= max_int(s0 as int, s1 as int),
{
    proof {
        lemma_zero_crossing_between(s0 as int, s1 as int, p0 as int, p1 as int);
    }
    let ds = s1 - s0;
    let dp = p1 - p0;
    let a: u128 = if ds < 0 { (-ds) as u128 } else { ds as u128 };
    let b: u128 = if p0 < 0 { (-p0) as u128 } else { p0 as u128 };
    let c: u128 = if dp < 0 { (-dp) as u128 } else { dp as u128 };
    let f = mul_div_floor(a, b, c);
    if ds > 0 {
        s0 + f as i128
    } else if ds < 0 {
        s0 - f as i128
    } else {
        s0
    }
}

/// The lowest and highest strike among the legs.
fn strike_extent(positions: &Vec<Position>) -> (r: (i64, i64))
    requires
        positions@.len() > 0,
    ensures
        r.0 == min_strike(positions@),
        r.1 == max_strike(positions@),
{
    let mut lo = positions[0].strike;
    let mut hi = positions[0].strike;
    let mut i: usize = 1;
    proof {
        assert(positions@.subrange(0, 1).len() == 1);
    }
    while i < positions.len()
        invariant
            1 <= i <= positions@.len(),
            lo == min_strike(positions@.subrange(0, i as int)),
            hi == max_strike(positions@.subrange(0, i as int)),
        decreases positions@.len() - i,
    {
        let s = positions[i].strike;
        proof {
            assert(positions@.subrange(0, i + 1).drop_last() =~= positions@.subrange(0, i as int));
        }
        if s < lo {
            lo = s;
        }
        if s > hi {
            hi = s;
        }
        i += 1;
    }
    proof {
        assert(positions@.subrange(0, positions@.len() as int) =~= positions@);
    }
    (lo, hi)
}

/// The 201 points of the payoff curve from `lo` to `hi`, its breakevens, and
/// the highest and lowest profit on it.
fn payoff_curve(positions: &Vec<Position>, lo: i128, hi: i128) -> (r: (
    Vec<(i128, i128)>,
    Vec<i128>,
    i128,
    i128,
))
    requires
        positions@.len() <= MAX_LEGS,
        abs_int(lo as int) <= curve_bound(),
        abs_int(hi as int) <= curve_bound(),
    ensures
        r.0@.len() == 201,
        forall|k: int|
            0 <= k < 201 ==> (#[trigger] r.0@[k]).0 == grid_spot(lo as int, hi as int, k)
                && r.0@[k].1 == grid_pnl(positions@, lo as int, hi as int, k),
        r.1@.len() == breakevens_upto(positions@, lo as int, hi as int, 201).len(),
        forall|k: int|
            0 <= k < r.1@.len() ==> #[trigger] r.1@[k] == breakevens_upto(
                positions@,
                lo as int,
                hi as int,
                201,
            )[k],
        r.2 == seq_max(grid_pnls(positions@, lo as int, hi as int, 201)),
        r.3 == seq_min(grid_pnls(positions@, lo as int, hi as int, 201)),
{
    let ghost ps = positions@;
    let ghost pnls = grid_pnls(ps, lo as int, hi as int, 201);
    let mut points: Vec<(i128, i128)> = Vec::new();
    let mut breakevens: Vec<i128> = Vec::new();
    let (spot0, pnl0) = curve_point(positions, lo, hi, 0);
    let mut max_profit = pnl0;
    let mut max_loss = pnl0;
    let mut prev_spot = spot0;
    let mut prev_pnl = pnl0;
    points.push((spot0, pnl0));
    proof {
        assert(pnls.take(1) =~= seq![pnl0 as int]);
    }
    let mut i: i128 = 1;
    while i <= GRID_STEPS
        invariant
            1 <= i <= 201,
            ps == positions@,
            ps.len() <= MAX_LEGS,
            abs_int(lo as int) <= curve_bound(),
            abs_int(hi as int) <= curve_bound(),
            pnls == grid_pnls(ps, lo as int, hi as int, 201),
            points@.len() == i,
            forall|k: int|
                0 <= k < i ==> (#[trigger] points@[k]).0 == grid_spot(lo as int, hi as int, k)
                    && points@[k].1 == grid_pnl(ps, lo as int, hi as int, k),
            breakevens@.len() == breakevens_upto(ps, lo as int, hi as int, i as nat).len(),
            forall|k: int|
                0 <= k < breakevens@.len() ==> #[trigger] breakevens@[k] == breakevens_upto(
                    ps,
                    lo as int,
                    hi as int,
                    i as nat,
                )[k],
            prev_spot == grid_spot(lo as int, hi as int, i - 1),
            prev_pnl == grid_pnl(ps, lo as int, hi as int, i - 1),
            abs_int(prev_spot as int) <= grid_bound(),
            abs_int(prev_pnl as int) < grid_net_bound(),
            max_profit == seq_max(pnls.take(i as int)),
            max_loss == seq_min(pnls.take(i as int)),
        decreases 201 - i,
    {
        let (s, pnl) = curve_point(positions, lo, hi, i);
        proof {
            lemma_grid_spot_between(lo as int, hi as int, i as int);
            assert(pnls.take(i + 1).drop_last() =~= pnls.take(i as int));
            assert(pnls.take(i + 1).last() == pnl);
        }
        if pnl > max_profit {
            max_profit = pnl;
        }
        if pnl < max_loss {
            max_loss = pnl;
        }
        if (prev_pnl < 0 && pnl >= 0) || (prev_pnl > 0 && pnl <= 0) {
            let z = zero_crossing_exec(prev_spot, s, prev_pnl, pnl);
            breakevens.push(z);
        }
        points.push((s, pnl));
        prev_spot = s;
        prev_pnl = pnl;
        i += 1;
    }
    proof {
        assert(pnls.take(201) =~= pnls);
    }
    (points, breakevens, max_profit, max_loss)
}

/// Analyses the strategy made of `positions` around `current_spot`.
///
/// The payoff curve runs over 201 evenly spaced spots from the lower to the
/// upper end of the range `current_spot -/+ width` (the width is the given
/// volatility range, or 5% of the spot when there is none), widened to 98%
/// of the lowest strike and 102% of the highest. Breakevens are where the
/// curve changes side, interpolated between neighbouring points. The profit
/// (loss) is unlimited when the payoff still rises (falls) just below ten
/// times the spot; otherwise the payoffs at spot zero and at ten times the
/// spot also count toward the maximum profit and loss.
/// The spot and the volatility range are in hundredths; the result is in
/// curve units. The curve's ends and spots are exact; a breakeven is the
/// interpolated zero rounded toward the left point to a whole curve unit
/// (1/2,000,000 of a rupee). When every strike is positive, the curve's
/// spots strictly increase. With no positions, everything is zero and empty.
#[verifier::rlimit(60)]
pub fn analyze_strategy(
    positions: &Vec<Position>,
    current_spot: i64,
    volatility_range: Option<i64>,
) -> (st: StrategyStats)
    requires
        positions@.len() <= MAX_LEGS,
    ensures
        positions@.len() == 0 ==> st.max_profit == 0 && st.max_loss == 0
            && !st.max_profit_unlimited && !st.max_loss_unlimited && st.breakevens@.len() == 0
            && st.points@.len() == 0,
        positions@.len() > 0 ==> {
            let w = range_width(current_spot as int, volatility_range);
            stats_match(
                st,
                positions@,
                current_spot as int,
                curve_low(positions@, current_spot as int, w),
                curve_high(positions@, current_spot as int, w),
            )
        },
        positions@.len() > 0 && (forall|k: int| 0 <= k < positions@.len() ==> #[trigger] positions@[k].strike > 0)
            ==> forall|i: int| 0 <= i < 200 ==> (#[trigger] st.points@[i]).0 < st.points@[i + 1].0,
        positions@.len() > 0 ==> (st.max_loss_unlimited <==> net_payoff(positions@, 10 * current_spot)
            < net_payoff(positions@, 10 * current_spot - 100)),
        positions@.len() > 0 ==> (st.max_profit_unlimited <==> net_payoff(positions@, 10 * current_spot)
            > net_payoff(positions@, 10 * current_spot - 100)),
        positions@.len() > 0 && !st.max_loss_unlimited ==> st.max_loss <= CURVE_SCALE * net_payoff(
            positions@,
            0,
        ) && st.max_loss <= CURVE_SCALE * net_payoff(positions@, 10 * current_spot),
        positions@.len() > 0 && !st.max_profit_unlimited ==> st.max_profit >= CURVE_SCALE
            * net_payoff(positions@, 0) && st.max_profit >= CURVE_SCALE * net_payoff(
            positions@,
            10 * current_spot,
        ),
        positions@.len() > 0 ==> curve_spans_range(
            st,
            positions@,
            current_spot as int,
            range_width(current_spot as int, volatility_range),
        ),
        positions@.len() > 0 ==> st.breakevens@.len() == sign_changes(st.points@, 201) && forall|k: int|
            0 <= k < st.breakevens@.len() ==> #[trigger] kth_breakeven(
                st.points@,
                k,
                st.breakevens@[k] as int,
            ),
{
    if positions.len() == 0 {
        return StrategyStats {
            max_profit: 0,
            max_loss: 0,
            max_profit_unlimited: false,
            max_loss_unlimited: false,
            breakevens: Vec::new(),
            points: Vec::new(),
        };
    }
    let spot = current_spot as i128;
    let width: i128 = match volatility_range {
        Some(v) => 100 * (v as i128),
        None => 5 * spot,
    };
    let (min_s, max_s) = strike_extent(positions);
    proof {
        lemma_min_strike_bound(positions@);
    }
    let low_strike = 98 * (min_s as i128);
    let high_strike = 102 * (max_s as i128);
    let lo: i128 = if 100 * spot - width <= low_strike { 100 * spot - width } else { low_strike };
    let hi: i128 = if 100 * spot + width >= high_strike { 100 * spot + width } else { high_strike };
    let (points, breakevens, max_profit0, max_loss0) = payoff_curve(positions, lo, hi);
    let ghost pnls = grid_pnls(positions@, lo as int, hi as int, 201);
    let slope_high = calculate_net_payoff(positions, spot * 10) - calculate_net_payoff(
        positions,
        spot * 10 - 100,
    );
    proof {
        assert(curve_spot_in_range(CURVE_SCALE * (10 * spot)));
    }
    let pnl_high = curve_payoff(positions, CURVE_SCALE * (10 * spot));
    let max_profit_unlimited = slope_high > 0;
    let max_loss_unlimited = slope_high < 0;
    let pnl_zero = curve_payoff(positions, 0);
    proof {
        assert(pnls.push(pnl_zero as int).drop_last() =~= pnls);
        assert(pnls.push(pnl_zero as int).push(pnl_high as int).drop_last() =~= pnls.push(
            pnl_zero as int,
        ));
        let z = pnl_zero as int;
        let h = pnl_high as int;
        assert(seq_max(pnls.push(z)) == max_int(seq_max(pnls), z));
        assert(seq_max(pnls.push(z).push(h)) == max_int(seq_max(pnls.push(z)), h));
        assert(seq_min(pnls.push(z)) == min_int(seq_min(pnls), z));
        assert(seq_min(pnls.push(z).push(h)) == min_int(seq_min(pnls.push(z)), h));
        assert(lo == curve_low(positions@, current_spot as int, range_width(current_spot as int, volatility_range)));
        assert(hi == curve_high(positions@, current_spot as int, range_width(current_spot as int, volatility_range)));
    }
    proof {
        if forall|k: int| 0 <= k < positions@.len() ==> #[trigger] positions@[k].strike > 0 {
            lemma_curve_ends_apart(
                positions@,
                current_spot as int,
                range_width(current_spot as int, volatility_range),
            );
            assert forall|i: int| 0 <= i < 200 implies (#[trigger] points@[i]).0 < points@[i + 1].0 by {
                lemma_grid_increasing(lo as int, hi as int, i, i + 1);
            }
        }
    }
    let mut max_profit = max_profit0;
    let mut max_loss = max_loss0;
    if !max_profit_unlimited {
        if pnl_zero > max_profit {
            max_profit = pnl_zero;
        }
        if pnl_high > max_profit {
            max_profit = pnl_high;
        }
    }
    if !max_loss_unlimited {
        if pnl_zero < max_loss {
            max_loss = pnl_zero;
        }
        if pnl_high < max_loss {
            max_loss = pnl_high;
        }
    }
    let st = StrategyStats {
        max_profit,
        max_loss,
        max_profit_unlimited,
        max_loss_unlimited,
        breakevens,
        points,
    };
    proof {
        law_extremes_cover_tails(st, positions@, current_spot as int, lo as int, hi as int);
        law_breakevens_interpolate(st, positions@, current_spot as int, lo as int, hi as int);
        law_curve_spans_range(
            st,
            positions@,
            current_spot as int,
            range_width(current_spot as int, volatility_range),
        );
    }
    st
}

// ------------------------------------------------------------------------
// Profitable intervals of the spot, used for the probability of profit.

/// `cuts` lists, in strictly increasing order, each of 0 and the breakevens
/// once.
pub open spec fn is_cut_list(cuts: Seq<i128>, breakevens: Seq<i128>) -> bool {
    &&& strictly_increasing(cuts)
    &&& forall|x: i128| cuts.contains(x) <==> (x == 0 || breakevens.contains(x))
}

/// The k-th interval between neighbouring cuts; the last one is open to the
/// right (`None`).
pub open spec fn cut_window(cuts: Seq<i128>, k: int) -> (i128, Option<i128>) {
    (cuts[k], if k + 1 < cuts.len() { Some(cuts[k + 1]) } else { None })
}

/// The spot at which an interval is tested: one rupee above its start when
/// it is open to the right, half its end when it starts at 0, its middle
/// otherwise.
pub open spec fn window_probe(w: (i128, Option<i128>)) -> int {
    match w.1 {
        None => w.0 + CURVE_SCALE * 100,
        Some(end) => if w.0 == 0 {
            trunc_div(end as int, 2)
        } else {
            trunc_div(w.0 + end, 2)
        },
    }
}

/// The intervals among the first `n` whose probe spot shows a profit.
pub open spec fn profitable_windows(ps: Seq<Position>, cuts: Seq<i128>, n: nat) -> Seq<
    (i128, Option<i128>),
>
    decreases n,
{
    if n == 0 {
        Seq::empty()
    } else {
        let prev = profitable_windows(ps, cuts, (n - 1) as nat);
        let w = cut_window(cuts, n - 1);
        if curve_net_payoff(ps, window_probe(w)) > 0 {
            prev.push(w)
        } else {
            prev
        }
    }
}

/// The bound on breakevens (in curve units) accepted here (2^79, above
/// every curve spot).
pub open spec fn breakeven_bound() -> int {
    0x80000000000000000000
}

pub open spec fn strictly_increasing(s: Seq<i128>) -> bool {
    forall|a: int, b: int| 0 <= a < b < s.len() ==> s[a] < s[b]
}

proof fn lemma_insert_sorted(s: Seq<i128>, j: int, x: i128)
    requires
        strictly_increasing(s),
        0 <= j <= s.len(),
        forall|k: int| 0 <= k < j ==> s[k] < x,
        j < s.len() ==> s[j] > x,
    ensures
        strictly_increasing(s.insert(j, x)),
        forall|y: i128| s.insert(j, x).contains(y) <==> (s.contains(y) || y == x),
{
    let t = s.insert(j, x);
    assert forall|a: int, b: int| 0 <= a < b < t.len() implies t[a] < t[b] by {
        if b < j {
        } else if b == j {
        } else if a < j {
            if j < s.len() {
                assert(s[j] <= s[b - 1]);
            }
        } else if a == j {
            assert(s[j] <= s[b - 1]);
        } else {
        }
    }
    assert forall|y: i128| t.contains(y) <==> (s.contains(y) || y == x) by {
        if t.contains(y) {
            let k = choose|k: int| 0 <= k < t.len() && t[k] == y;
            if k < j {
                assert(s[k] == y);
            } else if k > j {
                assert(s[k - 1] == y);
            }
        }
        if s.contains(y) {
            let k = choose|k: int| 0 <= k < s.len() && s[k] == y;
            if k < j {
                assert(t[k] == y);
            } else {
                assert(t[k + 1] == y);
            }
        }
        if y == x {
            assert(t[j] == y);
        }
    }
}

proof fn lemma_distinct_step(old_cuts: Seq<i128>, cuts: Seq<i128>, pre: Seq<i128>, x: i128)
    requires
        forall|y: i128| #[trigger] old_cuts.contains(y) <==> pre.contains(y),
        forall|y: i128| #[trigger] cuts.contains(y) <==> (old_cuts.contains(y) || y == x),
    ensures
        forall|y: i128| #[trigger] cuts.contains(y) <==> pre.push(x).contains(y),
{
    lemma_push_contains(pre, x);
    assert forall|y: i128| #[trigger] cuts.contains(y) <==> pre.push(x).contains(y) by {
        assert(cuts.contains(y) <==> (old_cuts.contains(y) || y == x));
        assert(old_cuts.contains(y) <==> pre.contains(y));
        assert(pre.push(x).contains(y) <==> (pre.contains(y) || y == x));
    }
}

/// The values in increasing order, each once.
pub fn sorted_distinct(values: &Vec<i128>) -> (r: Vec<i128>)
    ensures
        strictly_increasing(r@),
        forall|y: i128| #[trigger] r@.contains(y) <==> values@.contains(y),
{
    let mut cuts: Vec<i128> = Vec::new();
    proof {
        assert(values@.subrange(0, 0) =~= Seq::<i128>::empty());
    }
    let mut i: usize = 0;
    while i < values.len()
        invariant
            i <= values@.len(),
            strictly_increasing(cuts@),
            forall|y: i128| #[trigger] cuts@.contains(y) <==> values@.subrange(0, i as int).contains(y),
        decreases values@.len() - i,
    {
        let x = values[i];
        let mut j: usize = 0;
        while j < cuts.len() && cuts[j] < x
            invariant
                j <= cuts@.len(),
                forall|k: int| 0 <= k < j ==> cuts@[k] < x,
            decreases cuts@.len() - j,
        {
            j += 1;
        }
        let ghost old_cuts = cuts@;
        if j < cuts.len() && cuts[j] == x {
            proof {
                assert(cuts@[j as int] == x);
                assert(cuts@.contains(x));
                assert forall|y: i128| #[trigger] cuts@.contains(y) <==> (old_cuts.contains(y) || y == x) by {}
            }
        } else {
            cuts.insert(j, x);
            proof {
                lemma_insert_sorted(old_cuts, j as int, x);
            }
        }
        proof {
            let pre = values@.subrange(0, i as int);
            assert(values@.subrange(0, i + 1) =~= pre.push(x));
            lemma_distinct_step(old_cuts, cuts@, pre, x);
        }
        i += 1;
    }
    proof {
        assert(values@.subrange(0, values@.len() as int) =~= values@);
    }
    cuts
}

/// Two increasing sequences with the same elements are the same sequence.
pub proof fn lemma_sorted_distinct_unique(a: Seq<i128>, b: Seq<i128>)
    requires
        strictly_increasing(a),
        strictly_increasing(b),
        forall|y: i128| #![trigger a.contains(y)] #![trigger b.contains(y)] a.contains(y) <==> b.contains(y),
    ensures
        a == b,
    decreases a.len() + b.len(),
{
    if a.len() == 0 {
        if b.len() > 0 {
            assert(b.contains(b[0]));
        }
        assert(a =~= b);
    } else if b.len() == 0 {
        assert(a.contains(a[0]));
    } else {
        let x = a.last();
        let y = b.last();
        assert(a.contains(x));
        assert(b.contains(y));
        let i = choose|i: int| 0 <= i < b.len() && b[i] == x;
        let j = choose|j: int| 0 <= j < a.len() && a[j] == y;
        assert(x <= y) by {
            if i < b.len() - 1 {
                assert(b[i] < b[b.len() - 1]);
            }
        }
        assert(y <= x) by {
            if j < a.len() - 1 {
                assert(a[j] < a[a.len() - 1]);
            }
        }
        let a2 = a.drop_last();
        let b2 = b.drop_last();
        assert forall|z: i128| #![trigger a2.contains(z)] #![trigger b2.contains(z)] a2.contains(z) <==> b2.contains(z) by {
            if a2.contains(z) {
                let k = choose|k: int| 0 <= k < a2.len() && a2[k] == z;
                assert(a[k] < x);
                assert(a.contains(z));
                let m = choose|m: int| 0 <= m < b.len() && b[m] == z;
                assert(m != b.len() - 1);
                assert(b2[m] == z);
            }
            if b2.contains(z) {
                let k = choose|k: int| 0 <= k < b2.len() && b2[k] == z;
                assert(b[k] < y);
                assert(b.contains(z));
                let m = choose|m: int| 0 <= m < a.len() && a[m] == z;
                assert(m != a.len() - 1);
                assert(a2[m] == z);
            }
        }
        lemma_sorted_distinct_unique(a2, b2);
        assert(a =~= b) by {
            assert forall|k: int| 0 <= k < a.len() implies a[k] == b[k] by {
                if k < a.len() - 1 {
                    assert(a2[k] == b2[k]);
                }
            }
        }
    }
}

/// Sorts the breakevens together with 0, dropping repeats.
fn cut_list(breakevens: &Vec<i128>) -> (cuts: Vec<i128>)
    ensures
        is_cut_list(cuts@, breakevens@),
{
    let mut values: Vec<i128> = Vec::new();
    let mut i: usize = 0;
    while i < breakevens.len()
        invariant
            i <= breakevens@.len(),
            values@ == breakevens@.subrange(0, i as int),
        decreases breakevens@.len() - i,
    {
        values.push(breakevens[i]);
        i += 1;
        assert(values@ =~= breakevens@.subrange(0, i as int));
    }
    assert(values@ =~= breakevens@);
    values.push(0);
    proof {
        lemma_push_contains(breakevens@, 0);
    }
    let cuts = sorted_distinct(&values);
    proof {
        assert forall|y: i128| cuts@.contains(y) <==> (y == 0 || breakevens@.contains(y)) by {
            assert(cuts@.contains(y) <==> values@.contains(y));
        }
    }
    cuts
}

/// The intervals of the spot at expiry on which the strategy makes a profit.
///
/// The breakevens (in curve units, as `analyze_strategy` gives them) and 0
/// are sorted (each once) and cut the line into
/// intervals, the last one open to the right (`None`). Each interval is
/// tested at one spot (one rupee above its start when open, half its end
/// when it starts at 0, its middle otherwise), and kept when the payoff
/// there is positive. Returns the sorted cuts and the kept intervals.
pub fn profitable_segments(positions: &Vec<Position>, breakevens: &Vec<i128>) -> (r: (
    Vec<i128>,
    Vec<(i128, Option<i128>)>,
))
    requires
        positions@.len() <= MAX_LEGS,
        forall|k: int|
            0 <= k < breakevens@.len() ==> abs_int(#[trigger] breakevens@[k] as int)
                < breakeven_bound(),
    ensures
        is_cut_list(r.0@, breakevens@),
        r.1@ == profitable_windows(positions@, r.0@, r.0@.len()),
        windows_tested_inside(positions@, r.0@, r.1@, r.0@.len()),
{
    let cuts = cut_list(breakevens);
    let mut out: Vec<(i128, Option<i128>)> = Vec::new();
    let mut k: usize = 0;
    while k < cuts.len()
        invariant
            k <= cuts@.len(),
            positions@.len() <= MAX_LEGS,
            is_cut_list(cuts@, breakevens@),
            forall|m: int|
                0 <= m < breakevens@.len() ==> abs_int(#[trigger] breakevens@[m] as int)
                    < breakeven_bound(),
            out@ == profitable_windows(positions@, cuts@, k as nat),
        decreases cuts@.len() - k,
    {
        let start = cuts[k];
        proof {
            assert(cuts@.contains(cuts@[k as int]));
            if start != 0 {
                let m = choose|m: int| 0 <= m < breakevens@.len() && breakevens@[m] == start;
            }
            if k + 1 < cuts@.len() {
                assert(cuts@.contains(cuts@[k + 1]));
                if cuts@[k + 1] != 0 {
                    let m = choose|m: int| 0 <= m < breakevens@.len() && breakevens@[m] == cuts@[k + 1];
                }
            }
        }
        let end: Option<i128> = if k + 1 < cuts.len() { Some(cuts[k + 1]) } else { None };
        let probe: i128 = match end {
            None => start + CURVE_SCALE * 100,
            Some(e) => if start == 0 {
                trunc_div_exec(e, 2)
            } else {
                trunc_div_exec(start + e, 2)
            },
        };
        proof {
            assert(probe == window_probe(cut_window(cuts@, k as int)));
            match end {
                None => {},
                Some(e) => {
                    if start == 0 {
                        if e >= 0 {
                            lemma_trunc_div_nonneg(e as int, 2);
                        } else {
                            lemma_trunc_div_nonneg(-e, 2);
                        }
                    } else {
                        if start + e >= 0 {
                            lemma_trunc_div_nonneg(start + e, 2);
                        } else {
                            lemma_trunc_div_nonneg(-(start + e), 2);
                        }
                    }
                },
            }
        }
        let pnl = curve_payoff(positions, probe);
        if pnl > 0 {
            out.push((start, end));
        }
        k += 1;
    }
    proof {
        law_windows_tested_inside(positions@, cuts@, cuts@.len());
    }
    (cuts, out)
}

// ------------------------------------------------------------------------
// Laws.

/// The payoff of no legs is zero, and the payoff of two sets of legs held
/// together is the sum of their payoffs, at every spot (`net_payoff` is
/// what `calculate_net_payoff` computes wherever the sum fits in 128 bits).
pub proof fn law_net_payoff_additive(a: Seq<Position>, b: Seq<Position>, spot: int)
    ensures
        net_payoff(Seq::<Position>::empty(), spot) == 0,
        net_payoff(a + b, spot) == net_payoff(a, spot) + net_payoff(b, spot),
    decreases b.len(),
{
    if b.len() == 0 {
        assert(a + b =~= a);
    } else {
        law_net_payoff_additive(a, b.drop_last(), spot);
        assert((a + b).drop_last() =~= a + b.drop_last());
        assert((a + b).last() == b.last());
    }
}

/// Put-call parity at expiry: `lots` lots of a call bought at `call_price`
/// together with as many puts sold at `put_price`, on the same strike, pay
/// as much as holding the underlying bought at the strike plus the call's
/// price less the put's. (`lots` is not `i32::MIN`, whose opposite is no
/// quantity.)
pub proof fn law_put_call_parity(strike: i64, call_price: i64, put_price: i64, lots: i32, spot: int)
    requires
        lots != i32::MIN,
    ensures
        net_payoff(
            seq![
                Position { strike, kind: OptionType::Call, qty: lots, entry_price: call_price },
                Position { strike, kind: OptionType::Put, qty: (-lots) as i32, entry_price: put_price },
            ],
            spot,
        ) == (spot - strike - call_price + put_price) * lots * LOT_SIZE,
{
    let c = Position { strike, kind: OptionType::Call, qty: lots, entry_price: call_price };
    let p = Position { strike, kind: OptionType::Put, qty: (-lots) as i32, entry_price: put_price };
    let ps = seq![c, p];
    assert(ps.drop_last() =~= seq![c]);
    assert(seq![c].drop_last() =~= Seq::<Position>::empty());
    let q = lots as int;
    assert(p.qty == -q);
    let cv = max_int(spot - strike, 0);
    let pv = max_int(strike - spot, 0);
    assert(cv - pv == spot - strike);
    assert(net_payoff(Seq::<Position>::empty(), spot) == 0);
    assert(seq![c].last() == c);
    assert(net_payoff(seq![c], spot) == payoff_value(c, spot));
    assert(ps.last() == p);
    assert(net_payoff(ps, spot) == payoff_value(c, spot) + payoff_value(p, spot));
    assert(payoff_value(c, spot) == (cv - call_price) * q * 65);
    assert(payoff_value(p, spot) == (pv - put_price) * (-q) * 65);
    assert((cv - call_price) * q * 65 + (pv - put_price) * (-q) * 65 == (spot - strike - call_price
        + put_price) * q * 65) by (nonlinear_arith)
        requires
            cv - pv == spot - strike,
    ;
}

/// The largest (smallest) of a sequence is at least (at most) each of its
/// values.
pub proof fn lemma_seq_extremes(s: Seq<int>)
    requires
        s.len() > 0,
    ensures
        forall|i: int| 0 <= i < s.len() ==> seq_min(s) <= #[trigger] s[i] <= seq_max(s),
    decreases s.len(),
{
    if s.len() > 1 {
        lemma_seq_extremes(s.drop_last());
        assert forall|i: int| 0 <= i < s.len() implies seq_min(s) <= #[trigger] s[i] <= seq_max(s) by {
            if i < s.len() - 1 {
                assert(s.drop_last()[i] == s[i]);
            }
        }
    }
}

/// The maximum profit of an analysis is at least, and its maximum loss at
/// most, the profit at every point of its curve.
pub proof fn law_extremes_bound_curve(st: StrategyStats, ps: Seq<Position>, spot: int, lo: int, hi: int)
    requires
        stats_match(st, ps, spot, lo, hi),
    ensures
        forall|i: int|
            0 <= i < st.points@.len() ==> st.max_loss <= (#[trigger] st.points@[i]).1 <= st.max_profit,
{
    let pc = profit_candidates(ps, spot, lo, hi);
    let lc = loss_candidates(ps, spot, lo, hi);
    let curve = grid_pnls(ps, lo, hi, 201);
    lemma_seq_extremes(pc);
    lemma_seq_extremes(lc);
    assert forall|i: int| 0 <= i < st.points@.len() implies st.max_loss <= (
    #[trigger] st.points@[i]).1 <= st.max_profit by {
        assert(st.points@[i].1 == curve[i]);
        assert(pc[i] == curve[i]);
        assert(lc[i] == curve[i]);
    }
}

/// Every breakeven found on a curve lies between its ends.
pub proof fn law_breakevens_within_curve(ps: Seq<Position>, lo: int, hi: int, n: nat)
    requires
        n <= 201,
    ensures
        forall|k: int|
            0 <= k < breakevens_upto(ps, lo, hi, n).len() ==> min_int(200 * lo, 200 * hi)
                <= #[trigger] breakevens_upto(ps, lo, hi, n)[k] <= max_int(
                200 * lo,
                200 * hi,
            ),
    decreases n,
{
    if n > 1 {
        law_breakevens_within_curve(ps, lo, hi, (n - 1) as nat);
        let i = n - 1;
        let prev = breakevens_upto(ps, lo, hi, (n - 1) as nat);
        let p0 = grid_pnl(ps, lo, hi, i - 1);
        let p1 = grid_pnl(ps, lo, hi, i);
        if crosses_zero(p0, p1) {
            let s0 = grid_spot(lo, hi, i - 1);
            let s1 = grid_spot(lo, hi, i);
            lemma_grid_spot_between(lo, hi, i - 1);
            lemma_grid_spot_between(lo, hi, i);
            lemma_zero_crossing_between(s0, s1, p0, p1);
            let x = zero_crossing(s0, s1, p0, p1);
            assert forall|k: int| 0 <= k < prev.len() implies prev.push(x)[k] == prev[k] by {}
        }
    }
}

/// At a spot on a whole hundredth, the curve payoff is the payoff in
/// hundredths, counted in curve units.
pub proof fn law_curve_payoff_agrees(ps: Seq<Position>, spot: int)
    ensures
        curve_net_payoff(ps, CURVE_SCALE * spot) == CURVE_SCALE * net_payoff(ps, spot),
    decreases ps.len(),
{
    if ps.len() > 0 {
        law_curve_payoff_agrees(ps.drop_last(), spot);
        let p = ps.last();
        let k = p.strike as int;
        let iv = intrinsic_value(p.kind, k, spot);
        assert(intrinsic_value(p.kind, k * CURVE_SCALE, CURVE_SCALE * spot) == CURVE_SCALE * iv);
        assert((CURVE_SCALE * iv - p.entry_price * CURVE_SCALE) * p.qty * LOT_SIZE == CURVE_SCALE * ((iv
            - p.entry_price) * p.qty * LOT_SIZE)) by (nonlinear_arith);
    }
}

/// The largest (smallest) of a sequence is one of its values.
pub proof fn lemma_seq_extremes_attained(s: Seq<int>)
    requires
        s.len() > 0,
    ensures
        exists|i: int| 0 <= i < s.len() && #[trigger] s[i] == seq_max(s),
        exists|i: int| 0 <= i < s.len() && #[trigger] s[i] == seq_min(s),
    decreases s.len(),
{
    if s.len() == 1 {
        assert(s[0] == seq_max(s));
        assert(s[0] == seq_min(s));
    } else {
        let t = s.drop_last();
        lemma_seq_extremes_attained(t);
        let i = choose|i: int| 0 <= i < t.len() && #[trigger] t[i] == seq_max(t);
        let j = choose|j: int| 0 <= j < t.len() && #[trigger] t[j] == seq_min(t);
        assert(s[i] == t[i]);
        assert(s[j] == t[j]);
        if seq_max(t) >= s.last() {
            assert(s[i] == seq_max(s));
        } else {
            assert(s[s.len() - 1] == seq_max(s));
        }
        if seq_min(t) <= s.last() {
            assert(s[j] == seq_min(s));
        } else {
            assert(s[s.len() - 1] == seq_min(s));
        }
    }
}

/// The tails of the payoff decide the extremes. The loss is unlimited
/// exactly when the payoff falls over the last rupee below ten times the
/// spot, and the profit exactly when it rises there. A limited maximum loss
/// is at most the payoff at spot zero and at ten times the spot, and a
/// limited maximum profit at least both. Each extreme is the profit at a
/// point of the curve or, when limited, one of those two payoffs.
pub proof fn law_extremes_cover_tails(st: StrategyStats, ps: Seq<Position>, spot: int, lo: int, hi: int)
    requires
        stats_match(st, ps, spot, lo, hi),
    ensures
        st.max_loss_unlimited <==> net_payoff(ps, 10 * spot) < net_payoff(ps, 10 * spot - 100),
        st.max_profit_unlimited <==> net_payoff(ps, 10 * spot) > net_payoff(ps, 10 * spot - 100),
        !st.max_loss_unlimited ==> st.max_loss <= CURVE_SCALE * net_payoff(ps, 0) && st.max_loss
            <= CURVE_SCALE * net_payoff(ps, 10 * spot),
        !st.max_profit_unlimited ==> st.max_profit >= CURVE_SCALE * net_payoff(ps, 0)
            && st.max_profit >= CURVE_SCALE * net_payoff(ps, 10 * spot),
        (exists|i: int| 0 <= i < st.points@.len() && (#[trigger] st.points@[i]).1 == st.max_loss) || (
        !st.max_loss_unlimited && (st.max_loss == CURVE_SCALE * net_payoff(ps, 0) || st.max_loss
            == CURVE_SCALE * net_payoff(ps, 10 * spot))),
        (exists|i: int| 0 <= i < st.points@.len() && (#[trigger] st.points@[i]).1 == st.max_profit)
            || (!st.max_profit_unlimited && (st.max_profit == CURVE_SCALE * net_payoff(ps, 0)
            || st.max_profit == CURVE_SCALE * net_payoff(ps, 10 * spot))),
{
    let pc = profit_candidates(ps, spot, lo, hi);
    let lc = loss_candidates(ps, spot, lo, hi);
    let curve = grid_pnls(ps, lo, hi, 201);
    let z = curve_net_payoff(ps, 0);
    let h = curve_net_payoff(ps, CURVE_SCALE * (10 * spot));
    law_curve_payoff_agrees(ps, 0);
    law_curve_payoff_agrees(ps, 10 * spot);
    assert(CURVE_SCALE * 0 == 0);
    assert(z == CURVE_SCALE * net_payoff(ps, 0));
    assert(h == CURVE_SCALE * net_payoff(ps, 10 * spot));
    lemma_seq_extremes(pc);
    lemma_seq_extremes(lc);
    lemma_seq_extremes_attained(pc);
    lemma_seq_extremes_attained(lc);
    if !st.max_loss_unlimited {
        assert(lc == curve.push(z).push(h));
        assert(lc[201] == z);
        assert(lc[202] == h);
    }
    if !st.max_profit_unlimited {
        assert(pc == curve.push(z).push(h));
        assert(pc[201] == z);
        assert(pc[202] == h);
    }
    let i = choose|i: int| 0 <= i < lc.len() && #[trigger] lc[i] == seq_min(lc);
    if i < 201 {
        assert(lc[i] == curve[i]);
        assert(st.points@[i].1 == curve[i]);
    } else {
        assert(!st.max_loss_unlimited);
    }
    let j = choose|j: int| 0 <= j < pc.len() && #[trigger] pc[j] == seq_max(pc);
    if j < 201 {
        assert(pc[j] == curve[j]);
        assert(st.points@[j].1 == curve[j]);
    } else {
        assert(!st.max_profit_unlimited);
    }
}

/// The number of neighbouring pairs among the first `n` curve points whose
/// profit changes side.
pub open spec fn sign_changes(pts: Seq<(i128, i128)>, n: nat) -> nat
    decreases n,
{
    if n <= 1 {
        0
    } else {
        sign_changes(pts, (n - 1) as nat) + if crosses_zero(pts[n - 2].1 as int, pts[n - 1].1 as int) {
            1nat
        } else {
            0nat
        }
    }
}

/// `x` is where the straight line through the curve points `i - 1` and `i`
/// meets zero, rounded toward point `i - 1` to a whole curve unit: the
/// profit changes side there, `x` lies on the side of point `i - 1` toward
/// point `i`, and its distance `t` from point `i - 1` is the largest with
/// `t * |p1 - p0| <= |s1 - s0| * |p0|`.
pub open spec fn breakeven_at(pts: Seq<(i128, i128)>, i: int, x: int) -> bool {
    let s0 = pts[i - 1].0 as int;
    let s1 = pts[i].0 as int;
    let p0 = pts[i - 1].1 as int;
    let p1 = pts[i].1 as int;
    let t = abs_int(x - s0);
    &&& crosses_zero(p0, p1)
    &&& (x - s0) * (s1 - s0) >= 0
    &&& t * abs_int(p1 - p0) <= abs_int(s1 - s0) * abs_int(p0)
    &&& abs_int(s1 - s0) * abs_int(p0) < (t + 1) * abs_int(p1 - p0)
}

proof fn lemma_zero_crossing_rounds(s0: int, s1: int, p0: int, p1: int)
    requires
        crosses_zero(p0, p1),
    ensures
        ({
            let x = zero_crossing(s0, s1, p0, p1);
            let t = abs_int(x - s0);
            &&& (x - s0) * (s1 - s0) >= 0
            &&& t * abs_int(p1 - p0) <= abs_int(s1 - s0) * abs_int(p0)
            &&& abs_int(s1 - s0) * abs_int(p0) < (t + 1) * abs_int(p1 - p0)
        }),
{
    let a = abs_int(s1 - s0);
    let b = abs_int(p0);
    let c = abs_int(p1 - p0);
    assert(c > 0);
    assert(a * b >= 0) by (nonlinear_arith)
        requires
            a >= 0,
            b >= 0,
    ;
    let q = (a * b) / c;
    vstd::arithmetic::div_mod::lemma_fundamental_div_mod(a * b, c);
    vstd::arithmetic::div_mod::lemma_mod_bound(a * b, c);
    vstd::arithmetic::div_mod::lemma_div_pos_is_pos(a * b, c);
    assert(q * c <= a * b < (q + 1) * c) by (nonlinear_arith)
        requires
            a * b == c * q + (a * b) % c,
            0 <= (a * b) % c < c,
    ;
    let x = zero_crossing(s0, s1, p0, p1);
    if s1 > s0 {
        assert(x - s0 == q);
        assert((x - s0) * (s1 - s0) >= 0) by (nonlinear_arith)
            requires
                x - s0 >= 0,
                s1 - s0 > 0,
        ;
    } else if s1 < s0 {
        assert(x - s0 == -q);
        assert((x - s0) * (s1 - s0) >= 0) by (nonlinear_arith)
            requires
                x - s0 <= 0,
                s1 - s0 < 0,
        ;
    } else {
        assert(a == 0);
        assert(a * b == 0);
        assert(q == 0);
        assert(sign(s1 - s0) == 0);
        assert(x == s0);
    }
}

/// `x` is the breakeven at the `k`-th (from 0) change of side along the
/// curve points, counted from the left.
pub open spec fn kth_breakeven(pts: Seq<(i128, i128)>, k: int, x: int) -> bool {
    exists|i: int|
        1 <= i < pts.len() && sign_changes(pts, i as nat) == k && #[trigger] breakeven_at(pts, i, x)
}

proof fn lemma_breakevens_shape(pts: Seq<(i128, i128)>, ps: Seq<Position>, lo: int, hi: int, n: nat)
    requires
        1 <= n <= 201,
        pts.len() == 201,
        forall|i: int|
            0 <= i < 201 ==> (#[trigger] pts[i]).0 == grid_spot(lo, hi, i) && pts[i].1 == grid_pnl(
                ps,
                lo,
                hi,
                i,
            ),
    ensures
        breakevens_upto(ps, lo, hi, n).len() == sign_changes(pts, n),
        forall|k: int|
            0 <= k < breakevens_upto(ps, lo, hi, n).len() ==> #[trigger] kth_breakeven(
                pts,
                k,
                breakevens_upto(ps, lo, hi, n)[k],
            ),
    decreases n,
{
    if n > 1 {
        lemma_breakevens_shape(pts, ps, lo, hi, (n - 1) as nat);
        let i = n - 1;
        let prev = breakevens_upto(ps, lo, hi, (n - 1) as nat);
        let cur = breakevens_upto(ps, lo, hi, n);
        let p0 = grid_pnl(ps, lo, hi, i - 1);
        let p1 = grid_pnl(ps, lo, hi, i);
        assert(pts[i - 1].1 == p0 && pts[i].1 == p1);
        assert(pts[i - 1].0 == grid_spot(lo, hi, i - 1) && pts[i].0 == grid_spot(lo, hi, i));
        if crosses_zero(p0, p1) {
            let s0 = grid_spot(lo, hi, i - 1);
            let s1 = grid_spot(lo, hi, i);
            let x = zero_crossing(s0, s1, p0, p1);
            lemma_zero_crossing_rounds(s0, s1, p0, p1);
            assert(cur == prev.push(x));
            assert(breakeven_at(pts, i, x));
            assert forall|k: int| 0 <= k < cur.len() implies #[trigger] kth_breakeven(pts, k, cur[k]) by {
                if k < prev.len() {
                    assert(cur[k] == prev[k]);
                    assert(kth_breakeven(pts, k, prev[k]));
                } else {
                    assert(cur[k] == x);
                    assert(sign_changes(pts, i as nat) == k);
                    assert(breakeven_at(pts, i, cur[k]));
                }
            }
        } else {
            assert(cur == prev);
        }
    }
}

/// The breakevens of an analysis follow the curve: there is one for each
/// pair of neighbouring points whose profit changes side, in order from the
/// left, and each is where the straight line through that pair meets zero,
/// rounded toward the left point to a whole curve unit.
pub proof fn law_breakevens_interpolate(st: StrategyStats, ps: Seq<Position>, spot: int, lo: int, hi: int)
    requires
        stats_match(st, ps, spot, lo, hi),
    ensures
        st.breakevens@.len() == sign_changes(st.points@, 201),
        forall|k: int|
            0 <= k < st.breakevens@.len() ==> #[trigger] kth_breakeven(
                st.points@,
                k,
                st.breakevens@[k] as int,
            ),
{
    lemma_breakevens_shape(st.points@, ps, lo, hi, 201);
    let b = breakevens_upto(ps, lo, hi, 201);
    assert forall|k: int| 0 <= k < st.breakevens@.len() implies #[trigger] kth_breakeven(
        st.points@,
        k,
        st.breakevens@[k] as int,
    ) by {
        assert(st.breakevens@[k] == b[k]);
        assert(kth_breakeven(st.points@, k, b[k]));
    }
}

/// The lowest and highest strikes are strikes of legs, and bound every leg's.
proof fn lemma_strike_extremes(ps: Seq<Position>)
    requires
        ps.len() > 0,
    ensures
        forall|k: int| 0 <= k < ps.len() ==> min_strike(ps) <= #[trigger] ps[k].strike <= max_strike(ps),
        exists|k: int| 0 <= k < ps.len() && #[trigger] ps[k].strike == min_strike(ps),
        exists|k: int| 0 <= k < ps.len() && #[trigger] ps[k].strike == max_strike(ps),
    decreases ps.len(),
{
    if ps.len() == 1 {
        assert(ps[0].strike == min_strike(ps));
        assert(ps[0].strike == max_strike(ps));
    } else {
        let t = ps.drop_last();
        lemma_strike_extremes(t);
        assert forall|k: int| 0 <= k < ps.len() implies min_strike(ps) <= #[trigger] ps[k].strike
            <= max_strike(ps) by {
            if k < ps.len() - 1 {
                assert(t[k] == ps[k]);
            }
        }
        let a = choose|k: int| 0 <= k < t.len() && #[trigger] t[k].strike == min_strike(t);
        let b = choose|k: int| 0 <= k < t.len() && #[trigger] t[k].strike == max_strike(t);
        assert(t[a] == ps[a] && t[b] == ps[b]);
        if min_strike(t) <= ps.last().strike {
            assert(ps[a].strike == min_strike(ps));
        } else {
            assert(ps[ps.len() - 1].strike == min_strike(ps));
        }
        if max_strike(t) >= ps.last().strike {
            assert(ps[b].strike == max_strike(ps));
        } else {
            assert(ps[ps.len() - 1].strike == max_strike(ps));
        }
    }
}

/// The payoff curve spans the range around the spot and every strike: its
/// left end is the lower of the range's low end and 98% of the lowest
/// strike, its right end the higher of the range's high end and 102% of the
/// highest strike (spots in curve units, 200 to a hundredth of a hundredth);
/// its 201 points are evenly spaced from end to end, and the profit at each
/// is the payoff at its spot.
pub open spec fn curve_spans_range(st: StrategyStats, ps: Seq<Position>, spot: int, width: int) -> bool {
    let l = st.points@[0].0 as int;
    let h = st.points@[200].0 as int;
    &&& l <= 200 * (100 * spot - width)
    &&& forall|k: int| 0 <= k < ps.len() ==> l <= 200 * (98 * #[trigger] ps[k].strike)
    &&& l == 200 * (100 * spot - width) || exists|k: int|
        0 <= k < ps.len() && l == 200 * (98 * #[trigger] ps[k].strike)
    &&& h >= 200 * (100 * spot + width)
    &&& forall|k: int| 0 <= k < ps.len() ==> h >= 200 * (102 * #[trigger] ps[k].strike)
    &&& h == 200 * (100 * spot + width) || exists|k: int|
        0 <= k < ps.len() && h == 200 * (102 * #[trigger] ps[k].strike)
    &&& forall|i: int|
        0 <= i <= 200 ==> 200 * (#[trigger] st.points@[i]).0 == (200 - i) * l + i * h
    &&& forall|i: int|
        0 <= i <= 200 ==> (#[trigger] st.points@[i]).1 == curve_net_payoff(
            ps,
            st.points@[i].0 as int,
        )
}

/// The curve of an analysis spans the range around the spot and every
/// strike, with evenly spaced points and the payoff at each (see
/// `curve_spans_range`).
pub proof fn law_curve_spans_range(st: StrategyStats, ps: Seq<Position>, spot: int, width: int)
    requires
        ps.len() > 0,
        stats_match(st, ps, spot, curve_low(ps, spot, width), curve_high(ps, spot, width)),
    ensures
        curve_spans_range(st, ps, spot, width),
{
    let lo = curve_low(ps, spot, width);
    let hi = curve_high(ps, spot, width);
    lemma_strike_extremes(ps);
    let l = st.points@[0].0 as int;
    let h = st.points@[200].0 as int;
    assert(l == 200 * lo);
    assert(h == 200 * hi);
    let a = choose|k: int| 0 <= k < ps.len() && #[trigger] ps[k].strike == min_strike(ps);
    let b = choose|k: int| 0 <= k < ps.len() && #[trigger] ps[k].strike == max_strike(ps);
    assert(lo == 100 * spot - width || l == 200 * (98 * ps[a].strike));
    assert(hi == 100 * spot + width || h == 200 * (102 * ps[b].strike));
    assert forall|i: int| 0 <= i <= 200 implies 200 * (#[trigger] st.points@[i]).0 == (200 - i) * l + i
        * h by {
        assert(st.points@[i].0 == grid_spot(lo, hi, i));
        assert(200 * (200 * lo + i * (hi - lo)) == (200 - i) * (200 * lo) + i * (200 * hi))
            by (nonlinear_arith);
    }
}

/// The spot `x` lies in the window: at or above its start and, when it is
/// closed, at or below its end.
pub open spec fn spot_in_window(w: (i128, Option<i128>), x: int) -> bool {
    w.0 <= x && (w.1 matches Some(e) ==> x <= e)
}

proof fn lemma_probe_in_window(cuts: Seq<i128>, j: int)
    requires
        strictly_increasing(cuts),
        0 <= j < cuts.len(),
    ensures
        spot_in_window(cut_window(cuts, j), window_probe(cut_window(cuts, j))),
{
    let w = cut_window(cuts, j);
    if j + 1 < cuts.len() {
        let s = cuts[j] as int;
        let e = cuts[j + 1] as int;
        assert(s < e);
        if s == 0 {
            assert(0 <= e / 2 <= e);
        } else if s + e >= 0 {
            assert(s <= (s + e) / 2 <= e);
        } else {
            assert(s <= -((-(s + e)) / 2) <= e);
        }
    }
}

/// The windows `ws` kept among the first `n` windows between neighbouring
/// cuts: each kept one is such a window (the last open to the right) with a
/// spot inside it showing a profit, and each of the first `n` windows is
/// kept or has a spot inside it showing none.
pub open spec fn windows_tested_inside(
    ps: Seq<Position>,
    cuts: Seq<i128>,
    ws: Seq<(i128, Option<i128>)>,
    n: nat,
) -> bool {
    &&& forall|k: int|
        0 <= k < ws.len() ==> exists|j: int|
            #![trigger cuts[j]]
            0 <= j < n && (#[trigger] ws[k]).0 == cuts[j] && (
            ws[k].1 == if j + 1 < cuts.len() {
                Some(cuts[j + 1])
            } else {
                None
            }) && exists|x: int|
                spot_in_window(ws[k], x) && curve_net_payoff(ps, x)
                    > 0
    &&& forall|j: int|
        0 <= j < n ==> (exists|k: int|
            0 <= k < ws.len() && #[trigger] ws[k] == cut_window(cuts, j)) || exists|x: int|
            spot_in_window(#[trigger] cut_window(cuts, j), x) && curve_net_payoff(ps, x) <= 0
}

/// The windows kept as profitable are windows between neighbouring cuts
/// (the last open to the right), and each is kept exactly when its test
/// spot, which lies inside it, shows a profit: every kept window holds a
/// spot inside it with a profit, and every window not kept holds a spot
/// inside it without one.
pub proof fn law_windows_tested_inside(ps: Seq<Position>, cuts: Seq<i128>, n: nat)
    requires
        strictly_increasing(cuts),
        n <= cuts.len(),
    ensures
        windows_tested_inside(ps, cuts, profitable_windows(ps, cuts, n), n),
    decreases n,
{
    if n > 0 {
        law_windows_tested_inside(ps, cuts, (n - 1) as nat);
        let prev = profitable_windows(ps, cuts, (n - 1) as nat);
        let cur = profitable_windows(ps, cuts, n);
        let j0 = n - 1;
        let w = cut_window(cuts, j0);
        lemma_probe_in_window(cuts, j0);
        let x0 = window_probe(w);
        if curve_net_payoff(ps, x0) > 0 {
            assert(cur == prev.push(w));
            assert forall|k: int| 0 <= k < cur.len() implies exists|j: int|
                #![trigger cuts[j]]
                0 <= j < n && (#[trigger] cur[k]).0 == cuts[j] && (cur[k].1 == if j + 1 < cuts.len() {
                    Some(cuts[j + 1])
                } else {
                    None
                }) && exists|x: int| spot_in_window(cur[k], x) && curve_net_payoff(ps, x) > 0 by {
                if k < prev.len() {
                    assert(cur[k] == prev[k]);
                } else {
                    assert(cur[k] == w);
                    assert(spot_in_window(cur[k], x0));
                }
            }
            assert forall|j: int| 0 <= j < n implies (exists|k: int|
                0 <= k < cur.len() && #[trigger] cur[k] == cut_window(cuts, j)) || exists|x: int|
                spot_in_window(#[trigger] cut_window(cuts, j), x) && curve_net_payoff(ps, x) <= 0 by {
                if j == j0 {
                    assert(cur[prev.len() as int] == cut_window(cuts, j));
                } else if exists|k: int| 0 <= k < prev.len() && #[trigger] prev[k] == cut_window(cuts, j) {
                    let k = choose|k: int| 0 <= k < prev.len() && #[trigger] prev[k] == cut_window(cuts, j);
                    assert(cur[k] == prev[k]);
                }
            }
        } else {
            assert(cur == prev);
            assert forall|j: int| 0 <= j < n implies (exists|k: int|
                0 <= k < cur.len() && #[trigger] cur[k] == cut_window(cuts, j)) || exists|x: int|
                spot_in_window(#[trigger] cut_window(cuts, j), x) && curve_net_payoff(ps, x) <= 0 by {
                if j == j0 {
                    assert(spot_in_window(cut_window(cuts, j), x0));
                }
            }
        }
    }
}

} // verus!
