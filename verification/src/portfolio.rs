//! The legs held: buying and selling at a strike, removing a leg, and
//! repricing legs from the live chain.
use vstd::prelude::*;
use crate::arith::{abs_int, max_int, min_int, trunc_div};
use crate::model::{
    OptionData, first_near, find_near_strike, side_contract,
};
use crate::strategy::{OptionType, Position};
use crate::text::{fixed_string, fixed_text, plain_string, plain_text, push_str};

verus! {

pub struct Portfolio {
    pub positions: Vec<Position>,
}

/// The leg is the one held at `strike` for `kind`.
pub open spec fn is_leg(p: Position, strike: int, kind: OptionType) -> bool {
    p.strike == strike && p.kind == kind
}

/// The first of the first `n` legs held at `strike` for `kind`.
pub open spec fn first_leg_upto(ps: Seq<Position>, strike: int, kind: OptionType, n: nat) -> Option<
    int,
>
    decreases n,
{
    if n == 0 {
        None
    } else {
        let prev = first_leg_upto(ps, strike, kind, (n - 1) as nat);
        if prev is Some {
            prev
        } else if is_leg(ps[n - 1], strike, kind) {
            Some(n - 1)
        } else {
            None
        }
    }
}

pub open spec fn first_leg(ps: Seq<Position>, strike: int, kind: OptionType) -> Option<int> {
    first_leg_upto(ps, strike, kind, ps.len())
}

/// The average of `n` units at `entry` and one more at `price`, rounded
/// toward zero.
pub open spec fn averaged_price(entry: int, n: int, price: int) -> int {
    trunc_div(entry * n + price, n + 1)
}

/// A held leg after one more lot is bought (`is_buy`) or sold at `price`: a
/// trade against the side held flips the leg to one lot at `price`; a trade
/// on the side held adds a lot and averages the entry price.
pub open spec fn traded_leg(p: Position, price: int, is_buy: bool) -> Position {
    if is_buy {
        if p.qty < 0 {
            Position { qty: 1, entry_price: price as i64, ..p }
        } else {
            Position {
                qty: (p.qty + 1) as i32,
                entry_price: averaged_price(p.entry_price as int, p.qty as int, price) as i64,
                ..p
            }
        }
    } else {
        if p.qty > 0 {
            Position { qty: -1i32, entry_price: price as i64, ..p }
        } else {
            Position {
                qty: (p.qty - 1) as i32,
                entry_price: averaged_price(p.entry_price as int, -p.qty, price) as i64,
                ..p
            }
        }
    }
}

/// The legs with a quantity other than zero, in order.
pub open spec fn nonzero_legs(ps: Seq<Position>) -> Seq<Position>
    decreases ps.len(),
{
    if ps.len() == 0 {
        Seq::empty()
    } else {
        let r = nonzero_legs(ps.drop_last());
        if ps.last().qty != 0 {
            r.push(ps.last())
        } else {
            r
        }
    }
}

/// The legs after a trade: the first leg held at the strike for the kind is
/// traded, or, when there is none, a new one-lot leg is appended; legs left
/// with no quantity are dropped.
pub open spec fn after_trade(
    ps: Seq<Position>,
    strike: i64,
    kind: OptionType,
    price: i64,
    is_buy: bool,
) -> Seq<Position> {
    let changed = match first_leg(ps, strike as int, kind) {
        Some(i) => ps.update(i, traded_leg(ps[i], price as int, is_buy)),
        None => ps.push(
            Position { strike, kind, qty: if is_buy { 1i32 } else { -1i32 }, entry_price: price },
        ),
    };
    nonzero_legs(changed)
}

/// The quantity of the traded leg stays within `i32`.
pub open spec fn trade_fits(ps: Seq<Position>, strike: i64, kind: OptionType, is_buy: bool) -> bool {
    match first_leg(ps, strike as int, kind) {
        Some(i) => if is_buy {
            ps[i].qty != i32::MAX
        } else {
            ps[i].qty != i32::MIN
        },
        None => true,
    }
}

/// "BUY"/"SELL", "CE"/"PE", the strike and the price with two decimals.
pub open spec fn trade_message(strike: i64, kind: OptionType, price: i64, is_buy: bool) -> Seq<
    char,
> {
    (if is_buy { "BUY"@ } else { "SELL"@ }) + " "@ + (match kind {
        OptionType::Call => "CE"@,
        OptionType::Put => "PE"@,
    }) + " "@ + plain_text(strike as int, 2) + " @ "@ + fixed_text(price as int, 2)
}

/// The legs other than those held at `strike` for `kind`, in order.
pub open spec fn without_leg(ps: Seq<Position>, strike: int, kind: OptionType) -> Seq<Position>
    decreases ps.len(),
{
    if ps.len() == 0 {
        Seq::empty()
    } else {
        let r = without_leg(ps.drop_last(), strike, kind);
        if !is_leg(ps.last(), strike, kind) {
            r.push(ps.last())
        } else {
            r
        }
    }
}

/// A leg repriced from the chain: the first row within 0.10 of its strike
/// gives the last traded price of the leg's side, when that side is quoted.
pub open spec fn repriced_leg(p: Position, data: Seq<OptionData>) -> Position {
    match first_near(data, p.strike as int, 10) {
        Some(j) => match side_contract(data[j], p.kind == OptionType::Call) {
            Some(c) => Position { entry_price: c.market_data.ltp, ..p },
            None => p,
        },
        None => p,
    }
}

pub proof fn lemma_first_leg_upto(ps: Seq<Position>, strike: int, kind: OptionType, n: nat)
    requires
        n <= ps.len(),
    ensures
        match first_leg_upto(ps, strike, kind, n) {
            Some(j) => 0 <= j < n && is_leg(ps[j], strike, kind) && forall|k: int|
                0 <= k < j ==> !is_leg(#[trigger] ps[k], strike, kind),
            None => forall|k: int| 0 <= k < n ==> !is_leg(#[trigger] ps[k], strike, kind),
        },
    decreases n,
{
    if n > 0 {
        lemma_first_leg_upto(ps, strike, kind, (n - 1) as nat);
    }
}

proof fn lemma_average_between(e: int, n: int, p: int)
    requires
        n >= 0,
    ensures
        (if e <= p { e } else { p }) <= averaged_price(e, n, p) <= (if e >= p { e } else { p }),
{
    let lo = if e <= p { e } else { p };
    let hi = if e >= p { e } else { p };
    let t = e * n + p;
    assert(lo * (n + 1) <= t <= hi * (n + 1)) by (nonlinear_arith)
        requires
            n >= 0,
            lo <= e <= hi,
            lo <= p <= hi,
            t == e * n + p,
    ;
    if t >= 0 {
        assert(hi >= 0) by (nonlinear_arith)
            requires
                0 <= t <= hi * (n + 1),
                n >= 0,
        ;
        vstd::arithmetic::div_mod::lemma_div_is_ordered(t, hi * (n + 1), n + 1);
        vstd::arithmetic::div_mod::lemma_div_by_multiple(hi, n + 1);
        if lo >= 0 {
            vstd::arithmetic::div_mod::lemma_div_is_ordered(lo * (n + 1), t, n + 1);
            vstd::arithmetic::div_mod::lemma_div_by_multiple(lo, n + 1);
        } else {
            vstd::arithmetic::div_mod::lemma_div_pos_is_pos(t, n + 1);
        }
    } else {
        let u = -t;
        let nl = -lo;
        assert(nl >= 0 && u <= nl * (n + 1)) by (nonlinear_arith)
            requires
                lo * (n + 1) <= t < 0,
                u == -t,
                nl == -lo,
                n >= 0,
        ;
        vstd::arithmetic::div_mod::lemma_div_is_ordered(u, nl * (n + 1), n + 1);
        vstd::arithmetic::div_mod::lemma_div_by_multiple(nl, n + 1);
        if hi <= 0 {
            let nh = -hi;
            assert(nh * (n + 1) <= u) by (nonlinear_arith)
                requires
                    t <= hi * (n + 1),
                    u == -t,
                    nh == -hi,
            ;
            vstd::arithmetic::div_mod::lemma_div_is_ordered(nh * (n + 1), u, n + 1);
            vstd::arithmetic::div_mod::lemma_div_by_multiple(nh, n + 1);
        } else {
            vstd::arithmetic::div_mod::lemma_div_pos_is_pos(u, n + 1);
        }
    }
}

/// The leg after one more lot is traded at `price`.
fn trade_leg(p: Position, price: i64, is_buy: bool) -> (r: Position)
    requires
        is_buy ==> p.qty != i32::MAX,
        !is_buy ==> p.qty != i32::MIN,
    ensures
        r == traded_leg(p, price as int, is_buy),
{
    if is_buy {
        if p.qty < 0 {
            Position { qty: 1, entry_price: price, ..p }
        } else {
            let n = p.qty as i128;
            proof {
                lemma_average_between(p.entry_price as int, n as int, price as int);
                assert(abs_int(p.entry_price as int * n as int) <= 0x8000000000000000 * 0x80000000)
                    by (nonlinear_arith)
                    requires
                        abs_int(p.entry_price as int) <= 0x8000000000000000,
                        0 <= n <= 0x80000000,
                {
                    assert(abs_int(p.entry_price as int * n as int) == abs_int(p.entry_price as int) * n);
                }
            }
            let total = p.entry_price as i128 * n + price as i128;
            let avg: i128 = if total >= 0 { total / (n + 1) } else { -((-total) / (n + 1)) };
            Position { qty: p.qty + 1, entry_price: avg as i64, ..p }
        }
    } else {
        if p.qty > 0 {
            Position { qty: -1, entry_price: price, ..p }
        } else {
            let n = -(p.qty as i128);
            proof {
                lemma_average_between(p.entry_price as int, n as int, price as int);
                assert(abs_int(p.entry_price as int * n as int) <= 0x8000000000000000 * 0x80000000)
                    by (nonlinear_arith)
                    requires
                        abs_int(p.entry_price as int) <= 0x8000000000000000,
                        0 <= n <= 0x80000000,
                {
                    assert(abs_int(p.entry_price as int * n as int) == abs_int(p.entry_price as int) * n);
                }
            }
            let total = p.entry_price as i128 * n + price as i128;
            let avg: i128 = if total >= 0 { total / (n + 1) } else { -((-total) / (n + 1)) };
            Position { qty: p.qty - 1, entry_price: avg as i64, ..p }
        }
    }
}

/// The index of the first leg held at `strike` for `kind`.
pub fn find_leg(ps: &Vec<Position>, strike: i64, kind: OptionType) -> (r: Option<usize>)
    ensures
        match r {
            Some(j) => first_leg(ps@, strike as int, kind) == Some(j as int),
            None => first_leg(ps@, strike as int, kind) is None,
        },
{
    let mut found: Option<usize> = None;
    let mut i: usize = 0;
    while i < ps.len()
        invariant
            i <= ps@.len(),
            match found {
                Some(j) => first_leg_upto(ps@, strike as int, kind, i as nat) == Some(j as int),
                None => first_leg_upto(ps@, strike as int, kind, i as nat) is None,
            },
        decreases ps@.len() - i,
    {
        if found.is_none() && ps[i].strike == strike && ps[i].kind == kind {
            found = Some(i);
        }
        i += 1;
    }
    found
}

/// The legs with a quantity other than zero.
fn retain_nonzero(ps: &Vec<Position>) -> (r: Vec<Position>)
    ensures
        r@ == nonzero_legs(ps@),
{
    let mut out: Vec<Position> = Vec::new();
    let mut i: usize = 0;
    while i < ps.len()
        invariant
            i <= ps@.len(),
            out@ == nonzero_legs(ps@.subrange(0, i as int)),
        decreases ps@.len() - i,
    {
        proof {
            assert(ps@.subrange(0, i + 1).drop_last() =~= ps@.subrange(0, i as int));
        }
        if ps[i].qty != 0 {
            out.push(ps[i]);
        }
        i += 1;
    }
    proof {
        assert(ps@.subrange(0, ps@.len() as int) =~= ps@);
    }
    out
}

impl Portfolio {
    pub fn new() -> (r: Self)
        ensures
            r.positions@ == Seq::<Position>::empty(),
    {
        Portfolio { positions: Vec::new() }
    }

    /// Buys (`is_buy`) or sells one lot of `kind` at `strike` for `price`,
    /// and returns the message that reports the trade.
    pub fn trade(&mut self, strike: i64, kind: OptionType, price: i64, is_buy: bool) -> (msg: String)
        requires
            trade_fits(old(self).positions@, strike, kind, is_buy),
        ensures
            final(self).positions@ == after_trade(old(self).positions@, strike, kind, price, is_buy),
            msg@ == trade_message(strike, kind, price, is_buy),
    {
        let found = find_leg(&self.positions, strike, kind);
        match found {
            Some(i) => {
                proof {
                    lemma_first_leg_upto(self.positions@, strike as int, kind, self.positions@.len());
                }
                let p = trade_leg(self.positions[i], price, is_buy);
                self.positions.set(i, p);
            },
            None => {
                self.positions.push(
                    Position { strike, kind, qty: if is_buy { 1i32 } else { -1i32 }, entry_price: price },
                );
            },
        }
        self.positions = retain_nonzero(&self.positions);

        let mut msg = String::new();
        push_str(&mut msg, if is_buy { "BUY" } else { "SELL" });
        push_str(&mut msg, " ");
        push_str(
            &mut msg,
            match kind {
                OptionType::Call => "CE",
                OptionType::Put => "PE",
            },
        );
        push_str(&mut msg, " ");
        let s = plain_string(strike as i128, 2);
        push_str(&mut msg, s.as_str());
        push_str(&mut msg, " @ ");
        let pr = fixed_string(price as i128, 2);
        push_str(&mut msg, pr.as_str());
        proof {
            assert(msg@ =~= trade_message(strike, kind, price, is_buy));
        }
        msg
    }

    /// Drops every leg held at `strike` for `kind`.
    pub fn remove(&mut self, strike: i64, kind: OptionType)
        ensures
            final(self).positions@ == without_leg(old(self).positions@, strike as int, kind),
    {
        let mut out: Vec<Position> = Vec::new();
        let mut i: usize = 0;
        while i < self.positions.len()
            invariant
                i <= self.positions@.len(),
                self.positions@ == old(self).positions@,
                out@ == without_leg(self.positions@.subrange(0, i as int), strike as int, kind),
            decreases self.positions@.len() - i,
        {
            proof {
                assert(self.positions@.subrange(0, i + 1).drop_last() =~= self.positions@.subrange(
                    0,
                    i as int,
                ));
            }
            if !(self.positions[i].strike == strike && self.positions[i].kind == kind) {
                out.push(self.positions[i]);
            }
            i += 1;
        }
        proof {
            assert(self.positions@.subrange(0, self.positions@.len() as int) =~= self.positions@);
        }
        self.positions = out;
    }

    /// Sets each leg's price to the last traded price of its side in the
    /// first chain row within 0.10 of its strike, where there is one.
    pub fn update_prices(&mut self, data: &Vec<OptionData>)
        ensures
            final(self).positions@.len() == old(self).positions@.len(),
            forall|k: int|
                0 <= k < old(self).positions@.len() ==> #[trigger] final(self).positions@[k]
                    == repriced_leg(old(self).positions@[k], data@),
    {
        let mut i: usize = 0;
        while i < self.positions.len()
            invariant
                i <= self.positions@.len(),
                self.positions@.len() == old(self).positions@.len(),
                forall|k: int|
                    0 <= k < i ==> #[trigger] self.positions@[k] == repriced_leg(
                        old(self).positions@[k],
                        data@,
                    ),
                forall|k: int|
                    i <= k < self.positions@.len() ==> #[trigger] self.positions@[k]
                        == old(self).positions@[k],
            decreases self.positions@.len() - i,
        {
            let p = self.positions[i];
            if let Some(j) = find_near_strike(data, p.strike, 10) {
                proof {
                    crate::model::lemma_first_near_upto(data@, p.strike as int, 10, data@.len());
                }
                let contract = match p.kind {
                    OptionType::Call => &data[j].call_options,
                    OptionType::Put => &data[j].put_options,
                };
                if let Some(c) = contract {
                    let np = Position { entry_price: c.market_data.ltp, ..p };
                    self.positions.set(i, np);
                }
            }
            i += 1;
        }
    }
}

// ------------------------------------------------------------------------
// Laws.

/// Every leg kept by `nonzero_legs` has a quantity, and a sequence of legs
/// that all have one is kept whole.
pub proof fn lemma_nonzero_legs(ps: Seq<Position>)
    ensures
        forall|k: int| 0 <= k < nonzero_legs(ps).len() ==> (#[trigger] nonzero_legs(ps)[k]).qty != 0,
        (forall|k: int| 0 <= k < ps.len() ==> (#[trigger] ps[k]).qty != 0) ==> nonzero_legs(ps)
            == ps,
    decreases ps.len(),
{
    if ps.len() > 0 {
        lemma_nonzero_legs(ps.drop_last());
        if forall|k: int| 0 <= k < ps.len() ==> (#[trigger] ps[k]).qty != 0 {
            assert forall|k: int| 0 <= k < ps.drop_last().len() implies (
            #[trigger] ps.drop_last()[k]).qty != 0 by {
                assert(ps.drop_last()[k] == ps[k]);
            }
            assert(ps.drop_last().push(ps.last()) =~= ps);
        }
    }
}

/// No leg held after a trade has a quantity of zero.
pub proof fn law_trade_leaves_no_empty_leg(
    ps: Seq<Position>,
    strike: i64,
    kind: OptionType,
    price: i64,
    is_buy: bool,
)
    ensures
        forall|k: int|
            0 <= k < after_trade(ps, strike, kind, price, is_buy).len() ==> (#[trigger] after_trade(
                ps,
                strike,
                kind,
                price,
                is_buy,
            )[k]).qty != 0,
{
    let changed = match first_leg(ps, strike as int, kind) {
        Some(i) => ps.update(i, traded_leg(ps[i], price as int, is_buy)),
        None => ps.push(
            Position { strike, kind, qty: if is_buy { 1i32 } else { -1i32 }, entry_price: price },
        ),
    };
    lemma_nonzero_legs(changed);
}

/// A trade at a strike where no leg of that kind is held, when every held
/// leg has a quantity, appends one lot (bought or sold) at the price and
/// leaves the other legs as they were.
pub proof fn law_trade_opens_new_leg(
    ps: Seq<Position>,
    strike: i64,
    kind: OptionType,
    price: i64,
    is_buy: bool,
)
    requires
        forall|k: int| 0 <= k < ps.len() ==> (#[trigger] ps[k]).qty != 0,
        forall|k: int| 0 <= k < ps.len() ==> !is_leg(#[trigger] ps[k], strike as int, kind),
    ensures
        after_trade(ps, strike, kind, price, is_buy) == ps.push(
            Position { strike, kind, qty: if is_buy { 1i32 } else { -1i32 }, entry_price: price },
        ),
{
    lemma_first_leg_upto(ps, strike as int, kind, ps.len());
    let np = Position { strike, kind, qty: if is_buy { 1i32 } else { -1i32 }, entry_price: price };
    assert forall|k: int| 0 <= k < ps.push(np).len() implies (#[trigger] ps.push(np)[k]).qty != 0 by {
        if k < ps.len() {
            assert(ps.push(np)[k] == ps[k]);
        }
    }
    lemma_nonzero_legs(ps.push(np));
}

/// A trade against the side held turns the leg into a single lot on the
/// traded side at the trade price: selling a bought leg leaves one lot sold,
/// buying a sold leg leaves one lot bought. The leg stays where it was.
pub proof fn law_trade_flips_opposite_leg(
    ps: Seq<Position>,
    strike: i64,
    kind: OptionType,
    price: i64,
    is_buy: bool,
    i: int,
)
    requires
        forall|k: int| 0 <= k < ps.len() ==> (#[trigger] ps[k]).qty != 0,
        first_leg(ps, strike as int, kind) == Some(i),
        if is_buy { ps[i].qty < 0 } else { ps[i].qty > 0 },
    ensures
        after_trade(ps, strike, kind, price, is_buy) == ps.update(
            i,
            Position { qty: if is_buy { 1i32 } else { -1i32 }, entry_price: price, ..ps[i] },
        ),
{
    lemma_first_leg_upto(ps, strike as int, kind, ps.len());
    let np = Position { qty: if is_buy { 1i32 } else { -1i32 }, entry_price: price, ..ps[i] };
    assert(traded_leg(ps[i], price as int, is_buy) == np);
    assert forall|k: int| 0 <= k < ps.update(i, np).len() implies (#[trigger] ps.update(
        i,
        np,
    )[k]).qty != 0 by {
        if k != i {
            assert(ps.update(i, np)[k] == ps[k]);
        }
    }
    lemma_nonzero_legs(ps.update(i, np));
}

/// A trade on the side held adds one lot and sets the entry price to the
/// average over all lots: a leg of n lots at entry price e, traded once more
/// at p, holds n + 1 lots at (e * n + p) / (n + 1), rounded toward zero. The
/// leg stays where it was and the other legs are untouched.
pub proof fn law_trade_averages_same_side(
    ps: Seq<Position>,
    strike: i64,
    kind: OptionType,
    price: i64,
    is_buy: bool,
    i: int,
)
    requires
        forall|k: int| 0 <= k < ps.len() ==> (#[trigger] ps[k]).qty != 0,
        first_leg(ps, strike as int, kind) == Some(i),
        if is_buy { ps[i].qty > 0 } else { ps[i].qty < 0 },
        trade_fits(ps, strike, kind, is_buy),
    ensures
        ({
            let n = abs_int(ps[i].qty as int);
            after_trade(ps, strike, kind, price, is_buy) == ps.update(
                i,
                Position {
                    qty: (if is_buy { ps[i].qty + 1 } else { ps[i].qty - 1 }) as i32,
                    entry_price: trunc_div(ps[i].entry_price * n + price, n + 1) as i64,
                    ..ps[i]
                },
            )
        }),
{
    lemma_first_leg_upto(ps, strike as int, kind, ps.len());
    let n = abs_int(ps[i].qty as int);
    let np = Position {
        qty: (if is_buy { ps[i].qty + 1 } else { ps[i].qty - 1 }) as i32,
        entry_price: trunc_div(ps[i].entry_price * n + price, n + 1) as i64,
        ..ps[i]
    };
    assert(traded_leg(ps[i], price as int, is_buy) == np);
    assert(np.qty != 0);
    assert forall|k: int| 0 <= k < ps.update(i, np).len() implies (#[trigger] ps.update(
        i,
        np,
    )[k]).qty != 0 by {
        if k != i {
            assert(ps.update(i, np)[k] == ps[k]);
        }
    }
    lemma_nonzero_legs(ps.update(i, np));
}

/// Adding a lot on the side held keeps the entry price between the old
/// entry price and the trade price.
pub proof fn law_average_between(entry: int, lots: int, price: int)
    requires
        lots >= 0,
    ensures
        min_int(entry, price) <= averaged_price(entry, lots, price) <= max_int(entry, price),
{
    lemma_average_between(entry, lots, price);
}

/// After a removal no leg is held at the strike for the kind.
pub proof fn law_remove_clears_leg(ps: Seq<Position>, strike: int, kind: OptionType)
    ensures
        forall|k: int|
            0 <= k < without_leg(ps, strike, kind).len() ==> !is_leg(
                #[trigger] without_leg(ps, strike, kind)[k],
                strike,
                kind,
            ),
    decreases ps.len(),
{
    if ps.len() > 0 {
        law_remove_clears_leg(ps.drop_last(), strike, kind);
        let r = without_leg(ps.drop_last(), strike, kind);
        if !is_leg(ps.last(), strike, kind) {
            assert forall|k: int| 0 <= k < r.len() implies r.push(ps.last())[k] == r[k] by {}
        }
    }
}

/// Removing twice is removing once.
pub proof fn law_remove_idempotent(ps: Seq<Position>, strike: int, kind: OptionType)
    ensures
        without_leg(without_leg(ps, strike, kind), strike, kind) == without_leg(ps, strike, kind),
{
    law_remove_clears_leg(ps, strike, kind);
    lemma_without_absent(without_leg(ps, strike, kind), strike, kind);
}

/// Removing a leg that is not held changes nothing.
pub proof fn lemma_without_absent(ps: Seq<Position>, strike: int, kind: OptionType)
    requires
        forall|k: int| 0 <= k < ps.len() ==> !is_leg(#[trigger] ps[k], strike, kind),
    ensures
        without_leg(ps, strike, kind) == ps,
    decreases ps.len(),
{
    if ps.len() > 0 {
        assert forall|k: int| 0 <= k < ps.drop_last().len() implies !is_leg(
            #[trigger] ps.drop_last()[k],
            strike,
            kind,
        ) by {
            assert(ps.drop_last()[k] == ps[k]);
        }
        lemma_without_absent(ps.drop_last(), strike, kind);
        assert(!is_leg(ps[ps.len() - 1], strike, kind));
        assert(ps.drop_last().push(ps.last()) =~= ps);
    }
}

/// Repricing a leg from a chain it was already repriced from changes
/// nothing.
pub proof fn law_reprice_idempotent(p: Position, data: Seq<OptionData>)
    ensures
        repriced_leg(repriced_leg(p, data), data) == repriced_leg(p, data),
{
}

/// Row `j` is the first chain row whose strike lies strictly within `tol`
/// of `strike`.
pub open spec fn first_row_within(data: Seq<OptionData>, strike: int, tol: int, j: int) -> bool {
    &&& 0 <= j < data.len()
    &&& -tol < data[j].strike_price - strike < tol
    &&& forall|k: int| 0 <= k < j ==> !(-tol < #[trigger] data[k].strike_price - strike < tol)
}

/// Repricing a leg keeps its strike, kind and quantity. When some chain row
/// lies within 0.10 of its strike, the first such row gives the new price,
/// the last traded price of the leg's side, if that side is quoted there;
/// otherwise the price stays.
pub proof fn law_reprice_from_first_near_row(p: Position, data: Seq<OptionData>)
    ensures
        forall|j: int|
            #[trigger] first_row_within(data, p.strike as int, 10, j) ==> repriced_leg(p, data)
                == match side_contract(data[j], p.kind == OptionType::Call) {
                Some(c) => Position { entry_price: c.market_data.ltp, ..p },
                None => p,
            },
        (forall|k: int| 0 <= k < data.len() ==> !(-10 < #[trigger] data[k].strike_price - p.strike < 10))
            ==> repriced_leg(p, data) == p,
{
    crate::model::lemma_first_near_upto(data, p.strike as int, 10, data.len());
    assert forall|j: int| #[trigger] first_row_within(data, p.strike as int, 10, j) implies repriced_leg(
        p,
        data,
    ) == match side_contract(data[j], p.kind == OptionType::Call) {
        Some(c) => Position { entry_price: c.market_data.ltp, ..p },
        None => p,
    } by {
        match first_near(data, p.strike as int, 10) {
            Some(i) => {
                if i < j {
                    assert(-10 < data[i].strike_price - p.strike < 10);
                } else if j < i {
                    assert(-10 < data[j].strike_price - p.strike < 10);
                }
                assert(i == j);
            },
            None => {
                assert(-10 < data[j].strike_price - p.strike < 10);
            },
        }
    }
}

/// No two legs are held at the same strike for the same kind.
pub open spec fn distinct_legs(ps: Seq<Position>) -> bool {
    forall|i: int, j: int|
        0 <= i < ps.len() && 0 <= j < ps.len() && i != j ==> !is_leg(
            #[trigger] ps[i],
            #[trigger] ps[j].strike as int,
            ps[j].kind,
        )
}

/// Trading keeps one leg per strike and kind, each with a quantity, and
/// leaves a leg at the traded strike and kind on the traded side: bought
/// after a buy, sold after a sale.
pub proof fn law_trade_keeps_legs_distinct(
    ps: Seq<Position>,
    strike: i64,
    kind: OptionType,
    price: i64,
    is_buy: bool,
)
    requires
        forall|k: int| 0 <= k < ps.len() ==> (#[trigger] ps[k]).qty != 0,
        distinct_legs(ps),
        trade_fits(ps, strike, kind, is_buy),
    ensures
        ({
            let r = after_trade(ps, strike, kind, price, is_buy);
            &&& forall|k: int| 0 <= k < r.len() ==> (#[trigger] r[k]).qty != 0
            &&& distinct_legs(r)
            &&& exists|k: int|
                0 <= k < r.len() && is_leg(#[trigger] r[k], strike as int, kind) && (is_buy ==> r[k].qty
                    > 0) && (!is_buy ==> r[k].qty < 0)
        }),
{
    lemma_first_leg_upto(ps, strike as int, kind, ps.len());
    match first_leg(ps, strike as int, kind) {
        Some(i) => {
            let t = traded_leg(ps[i], price as int, is_buy);
            assert(is_buy ==> t.qty > 0);
            assert(!is_buy ==> t.qty < 0);
            let changed = ps.update(i, t);
            assert forall|k: int| 0 <= k < changed.len() implies (#[trigger] changed[k]).qty != 0 by {
                if k != i {
                    assert(changed[k] == ps[k]);
                }
            }
            lemma_nonzero_legs(changed);
            assert(distinct_legs(changed)) by {
                assert forall|a: int, b: int|
                    0 <= a < changed.len() && 0 <= b < changed.len() && a != b implies !is_leg(
                    #[trigger] changed[a],
                    #[trigger] changed[b].strike as int,
                    changed[b].kind,
                ) by {
                    assert(changed[a].strike == ps[a].strike && changed[a].kind == ps[a].kind);
                    assert(changed[b].strike == ps[b].strike && changed[b].kind == ps[b].kind);
                    assert(!is_leg(ps[a], ps[b].strike as int, ps[b].kind));
                }
            }
            assert(is_leg(changed[i], strike as int, kind));
        },
        None => {
            let np = Position { strike, kind, qty: if is_buy { 1i32 } else { -1i32 }, entry_price: price };
            let changed = ps.push(np);
            assert forall|k: int| 0 <= k < changed.len() implies (#[trigger] changed[k]).qty != 0 by {
                if k < ps.len() {
                    assert(changed[k] == ps[k]);
                }
            }
            lemma_nonzero_legs(changed);
            assert(distinct_legs(changed)) by {
                assert forall|a: int, b: int|
                    0 <= a < changed.len() && 0 <= b < changed.len() && a != b implies !is_leg(
                    #[trigger] changed[a],
                    #[trigger] changed[b].strike as int,
                    changed[b].kind,
                ) by {
                    if a < ps.len() && b < ps.len() {
                        assert(changed[a] == ps[a] && changed[b] == ps[b]);
                        assert(!is_leg(ps[a], ps[b].strike as int, ps[b].kind));
                    } else if a < ps.len() {
                        assert(changed[a] == ps[a]);
                        assert(!is_leg(ps[a], strike as int, kind));
                    } else {
                        assert(changed[b] == ps[b]);
                        assert(!is_leg(ps[b], strike as int, kind));
                    }
                }
            }
            assert(is_leg(changed[ps.len() as int], strike as int, kind));
        },
    }
}

} // verus!
