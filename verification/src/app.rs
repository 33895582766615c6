//! The state behind the terminal front end: the chain on screen, the
//! cursor, the legs held and the legs selected, the strategy list and the
//! expiries, with every action a key can trigger.
use vstd::prelude::*;
use vstd::string::StringExecFns;
use crate::arith::abs_int;
use crate::calendar::{
    Date, days_between, day_number, format_date, is_on_or_after, iso_text, local_today,
    on_or_after, parse_date, parsed_date, valid_date,
};
use crate::model::{
    OptionData, QuoteData, contract_iv_or_zero, contract_ltp_or_zero, first_near,
    find_near_strike, iv_or_zero, lemma_first_near_upto, ltp_or_zero, side_contract,
};
use crate::portfolio::{
    Portfolio, after_trade, distinct_legs, first_leg, first_leg_upto, is_leg, lemma_first_leg_upto,
    repriced_leg,
    trade_fits, trade_message, without_leg,
};
use crate::strategy::{OptionType, Position, Strategy, all_strategies};
use crate::strategy_builder::{StrategyBuilder, build_result, strikes_in_range};

verus! {

#[derive(Debug, Clone, Copy, PartialEq, Eq, Structural)]
pub enum ColumnSelection {
    Call,
    Put,
}

#[derive(Debug, Clone, Copy, PartialEq, Eq, Structural)]
pub enum Focus {
    OptionChain,
    Strategies,
}

/// A selected leg: its strike (in hundredths, i.e. the strike written with
/// two decimals) and its kind.
pub type SelectionKey = (i64, OptionType);

pub struct App {
    pub data: Vec<OptionData>,
    pub selected_row: usize,
    pub selected_column: ColumnSelection,
    pub should_quit: bool,
    pub initial_centering_done: bool,
    pub portfolio: Portfolio,
    pub last_message: String,
    pub show_help: bool,
    pub active_focus: Focus,
    pub strategies: Vec<Strategy>,
    pub selected_strategy: usize,
    /// The selected legs, as a set: no key is held twice.
    pub selected_positions: Vec<SelectionKey>,
    pub available_expiries: Vec<String>,
    pub current_expiry_index: usize,
    pub market_depth: Option<QuoteData>,
}

/// The state of the front end as mathematical values.
#[verifier::ext_equal]
pub struct AppView {
    pub data: Seq<OptionData>,
    pub selected_row: int,
    pub selected_column: ColumnSelection,
    pub should_quit: bool,
    pub initial_centering_done: bool,
    pub positions: Seq<Position>,
    pub last_message: Seq<char>,
    pub show_help: bool,
    pub active_focus: Focus,
    pub strategies: Seq<Strategy>,
    pub selected_strategy: int,
    pub selection: Set<SelectionKey>,
    pub available_expiries: Seq<Seq<char>>,
    pub current_expiry_index: int,
    pub market_depth: Option<QuoteData>,
}

impl View for App {
    type V = AppView;

    open spec fn view(&self) -> AppView {
        AppView {
            data: self.data@,
            selected_row: self.selected_row as int,
            selected_column: self.selected_column,
            should_quit: self.should_quit,
            initial_centering_done: self.initial_centering_done,
            positions: self.portfolio.positions@,
            last_message: self.last_message@,
            show_help: self.show_help,
            active_focus: self.active_focus,
            strategies: self.strategies@,
            selected_strategy: self.selected_strategy as int,
            selection: self.selected_positions@.to_set(),
            available_expiries: self.available_expiries@.map_values(|s: String| s@),
            current_expiry_index: self.current_expiry_index as int,
            market_depth: self.market_depth,
        }
    }
}

pub open spec fn column_kind(c: ColumnSelection) -> OptionType {
    match c {
        ColumnSelection::Call => OptionType::Call,
        ColumnSelection::Put => OptionType::Put,
    }
}

/// The cursor is on a row whenever there are rows.
pub open spec fn row_ok(v: AppView) -> bool {
    v.data.len() == 0 || 0 <= v.selected_row < v.data.len()
}

/// The key of the cell under the cursor.
pub open spec fn cursor_key(v: AppView) -> SelectionKey {
    (v.data[v.selected_row].strike_price, column_kind(v.selected_column))
}

/// A leg is held at the strike and kind of the key.
pub open spec fn holds_leg(ps: Seq<Position>, key: SelectionKey) -> bool {
    exists|i: int| 0 <= i < ps.len() && is_leg(#[trigger] ps[i], key.0 as int, key.1)
}

pub open spec fn next_row_view(v: AppView) -> AppView {
    if v.data.len() > 0 && v.selected_row < v.data.len() - 1 {
        AppView { selected_row: v.selected_row + 1, ..v }
    } else {
        v
    }
}

pub open spec fn previous_row_view(v: AppView) -> AppView {
    if v.selected_row > 0 {
        AppView { selected_row: v.selected_row - 1, ..v }
    } else {
        v
    }
}

pub open spec fn toggle_column_view(v: AppView) -> AppView {
    AppView {
        selected_column: match v.selected_column {
            ColumnSelection::Call => ColumnSelection::Put,
            ColumnSelection::Put => ColumnSelection::Call,
        },
        ..v
    }
}

pub open spec fn toggle_help_view(v: AppView) -> AppView {
    AppView { show_help: !v.show_help, ..v }
}

/// Selecting the cell under the cursor: a selected key is dropped, an
/// unselected one is added.
pub open spec fn toggle_selection_view(v: AppView) -> AppView {
    if v.data.len() == 0 {
        v
    } else {
        let key = cursor_key(v);
        if v.selection.contains(key) {
            AppView { selection: v.selection.remove(key), ..v }
        } else {
            AppView { selection: v.selection.insert(key), ..v }
        }
    }
}

/// Deleting the leg under the cursor, and its selection.
pub open spec fn delete_position_view(v: AppView) -> AppView {
    if v.data.len() == 0 {
        v
    } else {
        let key = cursor_key(v);
        AppView {
            selection: v.selection.remove(key),
            positions: without_leg(v.positions, key.0 as int, key.1),
            ..v
        }
    }
}

pub open spec fn update_live_prices_view(v: AppView) -> AppView {
    if v.data.len() == 0 {
        v
    } else {
        AppView {
            positions: Seq::new(v.positions.len(), |k: int| repriced_leg(v.positions[k], v.data)),
            ..v
        }
    }
}

/// The price a trade at the cursor is made at: the last traded price of the
/// side, 0 when the side is not quoted.
pub open spec fn cursor_price(v: AppView) -> i64 {
    ltp_or_zero(side_contract(v.data[v.selected_row], v.selected_column == ColumnSelection::Call))
}

/// Buying or selling one lot at the cursor; the message reports the trade
/// and selections of legs no longer held are dropped.
pub open spec fn handle_trade_view(v: AppView, is_buy: bool) -> AppView {
    if v.data.len() == 0 {
        v
    } else {
        let key = cursor_key(v);
        let ps = after_trade(v.positions, key.0, key.1, cursor_price(v), is_buy);
        AppView {
            positions: ps,
            last_message: trade_message(key.0, key.1, cursor_price(v), is_buy),
            selection: v.selection.filter(|k: SelectionKey| holds_leg(ps, k)),
            ..v
        }
    }
}

/// A trade at the cursor keeps the quantity within `i32`.
pub open spec fn cursor_trade_fits(v: AppView, is_buy: bool) -> bool {
    v.data.len() > 0 ==> trade_fits(
        v.positions,
        cursor_key(v).0,
        cursor_key(v).1,
        is_buy,
    )
}

/// Building the selected template from the chain: its legs replace the held
/// ones and the message reports it; on failure only the message changes.
pub open spec fn apply_strategy_view(v: AppView) -> AppView {
    if v.data.len() == 0 {
        v
    } else {
        match build_result(v.strategies[v.selected_strategy], v.data) {
            Ok(r) => AppView { positions: r.0, last_message: r.1, ..v },
            Err(e) => AppView { last_message: e, ..v },
        }
    }
}

pub open spec fn next_strategy_view(v: AppView) -> AppView {
    if v.strategies.len() == 0 {
        v
    } else {
        let i = if v.selected_strategy < v.strategies.len() - 1 {
            v.selected_strategy + 1
        } else {
            0
        };
        apply_strategy_view(AppView { selected_strategy: i, ..v })
    }
}

pub open spec fn previous_strategy_view(v: AppView) -> AppView {
    if v.strategies.len() == 0 {
        v
    } else {
        let i = if v.selected_strategy > 0 {
            v.selected_strategy - 1
        } else {
            v.strategies.len() - 1
        };
        apply_strategy_view(AppView { selected_strategy: i, ..v })
    }
}

/// The expiry moves one later when there is a later one.
pub open spec fn next_expiry_moves(v: AppView) -> bool {
    v.available_expiries.len() > 0 && v.current_expiry_index < v.available_expiries.len() - 1
}

pub open spec fn next_expiry_view(v: AppView) -> AppView {
    if next_expiry_moves(v) {
        AppView { current_expiry_index: v.current_expiry_index + 1, ..v }
    } else {
        v
    }
}

/// The expiry moves one earlier when there is an earlier one.
pub open spec fn previous_expiry_moves(v: AppView) -> bool {
    v.available_expiries.len() > 0 && v.current_expiry_index > 0
}

pub open spec fn previous_expiry_view(v: AppView) -> AppView {
    if previous_expiry_moves(v) {
        AppView { current_expiry_index: v.current_expiry_index - 1, ..v }
    } else {
        v
    }
}

/// The instrument key of the cell under the cursor, if the side is quoted.
pub open spec fn selected_instrument_key(v: AppView) -> Option<Seq<char>> {
    if v.data.len() == 0 || v.selected_row >= v.data.len() {
        None
    } else {
        match side_contract(v.data[v.selected_row], v.selected_column == ColumnSelection::Call) {
            Some(c) => Some(c.instrument_key@),
            None => None,
        }
    }
}


// ------------------------------------------------------------------------
// Moving legs along the chain.

/// The indices, in order, of the first `n` legs whose key is selected.
pub open spec fn selected_leg_indices(ps: Seq<Position>, sel: Set<SelectionKey>, n: nat) -> Seq<
    int,
>
    decreases n,
{
    if n == 0 {
        Seq::empty()
    } else {
        let r = selected_leg_indices(ps, sel, (n - 1) as nat);
        if sel.contains((ps[n - 1].strike, ps[n - 1].kind)) {
            r.push(n - 1)
        } else {
            r
        }
    }
}

/// The legs a move takes along: every selected leg, or, with nothing
/// selected, the first leg held under the cursor.
pub open spec fn legs_to_move(v: AppView) -> Seq<int> {
    if v.selection == Set::<SelectionKey>::empty() {
        match first_leg(v.positions, cursor_key(v).0 as int, cursor_key(v).1) {
            Some(i) => seq![i],
            None => Seq::empty(),
        }
    } else {
        selected_leg_indices(v.positions, v.selection, v.positions.len())
    }
}

/// Where leg `i` lands when moved `delta` rows: the row `delta` away from
/// the row of its strike, with that row's strike and the side's price (0
/// when not quoted); nothing when its strike is not on the chain or the
/// landing row is off the chain.
pub open spec fn plan_move(data: Seq<OptionData>, ps: Seq<Position>, i: int, delta: int) -> Option<
    (int, i64, i64),
> {
    match first_near(data, ps[i].strike as int, 1) {
        None => None,
        Some(row) => {
            let to = row + delta;
            if 0 <= to < data.len() {
                Some(
                    (
                        i,
                        data[to].strike_price,
                        ltp_or_zero(side_contract(data[to], ps[i].kind == OptionType::Call)),
                    ),
                )
            } else {
                None
            }
        },
    }
}

/// The landings of all legs in `idxs`, or nothing if any leg cannot move.
pub open spec fn plan_moves(data: Seq<OptionData>, ps: Seq<Position>, idxs: Seq<int>, delta: int) -> Option<
    Seq<(int, i64, i64)>,
>
    decreases idxs.len(),
{
    if idxs.len() == 0 {
        Some(Seq::empty())
    } else {
        match plan_moves(data, ps, idxs.drop_last(), delta) {
            None => None,
            Some(prev) => match plan_move(data, ps, idxs.last(), delta) {
                None => None,
                Some(c) => Some(prev.push(c)),
            },
        }
    }
}

/// The legs and the selection after carrying out the moves in order: each
/// moved leg takes its new strike and price, and a selected leg stays
/// selected under its new strike.
pub open spec fn apply_moves(
    ps: Seq<Position>,
    sel: Set<SelectionKey>,
    moves: Seq<(int, i64, i64)>,
) -> (Seq<Position>, Set<SelectionKey>)
    decreases moves.len(),
{
    if moves.len() == 0 {
        (ps, sel)
    } else {
        let prev = apply_moves(ps, sel, moves.drop_last());
        let m = moves.last();
        let cur = prev.0[m.0];
        let old_key = (cur.strike, cur.kind);
        let ps2 = prev.0.update(m.0, Position { strike: m.1, entry_price: m.2, ..cur });
        let sel2 = if prev.1.contains(old_key) {
            prev.1.remove(old_key).insert((m.1, cur.kind))
        } else {
            prev.1
        };
        (ps2, sel2)
    }
}

/// Moving the cursor `delta` rows, taking the legs to move along; nothing
/// moves when the cursor would leave the chain, and the legs stay when any
/// of them cannot move.
pub open spec fn move_position_row_view(v: AppView, delta: int) -> AppView {
    if v.data.len() == 0 {
        v
    } else {
        let target = v.selected_row + delta;
        if !(0 <= target < v.data.len()) {
            v
        } else {
            let v1 = AppView { selected_row: target, ..v };
            let idxs = legs_to_move(v);
            if idxs.len() == 0 {
                v1
            } else {
                match plan_moves(v.data, v.positions, idxs, delta) {
                    None => v1,
                    Some(m) => {
                        let r = apply_moves(v.positions, v.selection, m);
                        AppView { positions: r.0, selection: r.1, ..v1 }
                    },
                }
            }
        }
    }
}

proof fn lemma_empty_to_set<A>(s: Seq<A>)
    ensures
        (s.to_set() == Set::<A>::empty()) <==> s.len() == 0,
{
    if s.len() > 0 {
        assert(s.to_set().contains(s[0]));
    } else {
        assert(s.to_set() =~= Set::<A>::empty());
    }
}

pub proof fn lemma_plan_moves_shape(data: Seq<OptionData>, ps: Seq<Position>, idxs: Seq<int>, delta: int)
    requires
        forall|k: int| 0 <= k < idxs.len() ==> 0 <= #[trigger] idxs[k] < ps.len(),
    ensures
        plan_moves(data, ps, idxs, delta) matches Some(m) ==> m.len() == idxs.len() && forall|k: int|
            0 <= k < m.len() ==> (#[trigger] m[k]).0 == idxs[k] && 0 <= m[k].0 < ps.len(),
    decreases idxs.len(),
{
    if idxs.len() > 0 {
        lemma_plan_moves_shape(data, ps, idxs.drop_last(), delta);
    }
}

proof fn lemma_apply_moves_len(ps: Seq<Position>, sel: Set<SelectionKey>, moves: Seq<(int, i64, i64)>)
    requires
        forall|k: int| 0 <= k < moves.len() ==> 0 <= (#[trigger] moves[k]).0 < ps.len(),
    ensures
        apply_moves(ps, sel, moves).0.len() == ps.len(),
    decreases moves.len(),
{
    if moves.len() > 0 {
        lemma_apply_moves_len(ps, sel, moves.drop_last());
    }
}


proof fn lemma_first_leg_extend(ps: Seq<Position>, strike: int, kind: OptionType, n: nat)
    requires
        n <= ps.len(),
        first_leg_upto(ps, strike, kind, n) is Some,
    ensures
        first_leg_upto(ps, strike, kind, ps.len()) == first_leg_upto(ps, strike, kind, n),
    decreases ps.len() - n,
{
    if n < ps.len() {
        lemma_first_leg_extend(ps, strike, kind, n + 1);
    }
}

proof fn lemma_move_aborted(v: AppView, delta: int)
    requires
        v.data.len() > 0,
        0 <= v.selected_row + delta < v.data.len(),
        legs_to_move(v).len() > 0,
        plan_moves(v.data, v.positions, legs_to_move(v), delta) is None,
    ensures
        move_position_row_view(v, delta) == (AppView { selected_row: v.selected_row + delta, ..v }),
{
}

proof fn lemma_plan_moves_prefix_none(
    data: Seq<OptionData>,
    ps: Seq<Position>,
    idxs: Seq<int>,
    k: int,
    delta: int,
)
    requires
        0 <= k <= idxs.len(),
        plan_moves(data, ps, idxs.take(k), delta) is None,
    ensures
        plan_moves(data, ps, idxs, delta) is None,
    decreases idxs.len() - k,
{
    if k < idxs.len() {
        assert(idxs.take(k + 1).drop_last() =~= idxs.take(k));
        lemma_plan_moves_prefix_none(data, ps, idxs, k + 1, delta);
    } else {
        assert(idxs.take(k) =~= idxs);
    }
}

proof fn lemma_plan_moves_none(data: Seq<OptionData>, ps: Seq<Position>, idxs: Seq<int>, k: int, delta: int)
    requires
        0 <= k < idxs.len(),
        plan_move(data, ps, idxs[k], delta) is None,
    ensures
        plan_moves(data, ps, idxs, delta) is None,
{
    assert(idxs.take(k + 1).drop_last() =~= idxs.take(k));
    assert(idxs.take(k + 1).last() == idxs[k]);
    lemma_plan_moves_prefix_none(data, ps, idxs, k + 1, delta);
}


// ------------------------------------------------------------------------
// Start-up and incoming data.

/// The expiries the front end knows of, as written in the calendar.
pub open spec fn expiry_labels() -> Seq<Seq<char>> {
    seq![
        "06 Jan 2026"@,
        "13 Jan 2026"@,
        "20 Jan 2026"@,
        "27 Jan 2026"@,
        "03 Feb 2026"@,
        "24 Feb 2026"@,
        "30 Mar 2026"@,
        "30 Jun 2026"@,
        "29 Sep 2026"@,
        "29 Dec 2026"@,
    ]
}

/// The expiries among `labels` that fall on `today` or later, read with
/// "%d %b %Y" and written with "%Y-%m-%d" (see `iso_text`); unreadable
/// labels are skipped.
pub open spec fn upcoming_expiries(labels: Seq<Seq<char>>, today: Date) -> Seq<Seq<char>>
    decreases labels.len(),
{
    if labels.len() == 0 {
        Seq::empty()
    } else {
        let r = upcoming_expiries(labels.drop_last(), today);
        match parsed_date(labels.last(), "%d %b %Y"@) {
            Some(d) => if on_or_after(d, today) {
                r.push(iso_text(d))
            } else {
                r
            },
            None => r,
        }
    }
}

/// The state at start-up on `today`.
pub open spec fn initial_view(today: Date) -> AppView {
    AppView {
        data: Seq::empty(),
        selected_row: 0,
        selected_column: ColumnSelection::Call,
        should_quit: false,
        initial_centering_done: false,
        positions: Seq::empty(),
        last_message: "Ready"@,
        show_help: false,
        active_focus: Focus::OptionChain,
        strategies: all_strategies(),
        selected_strategy: 0,
        selection: Set::empty(),
        available_expiries: upcoming_expiries(expiry_labels(), today),
        current_expiry_index: 0,
        market_depth: None,
    }
}

pub open spec fn spot_distance(row: OptionData, spot: int) -> int {
    let d = row.strike_price - spot;
    if d < 0 { -d } else { d }
}

/// Among the first `n` rows, the first one whose strike is closest to
/// `spot`.
pub open spec fn closest_to_upto(data: Seq<OptionData>, spot: int, n: nat) -> Option<int>
    decreases n,
{
    if n == 0 {
        None
    } else {
        let prev = closest_to_upto(data, spot, (n - 1) as nat);
        if prev is None || spot_distance(data[n - 1], spot) < spot_distance(data[prev->0], spot) {
            Some(n - 1)
        } else {
            prev
        }
    }
}

/// The spot of the chain: the first row's, 0 for an empty chain.
pub open spec fn chain_spot(data: Seq<OptionData>) -> int {
    if data.len() > 0 { data[0].underlying_spot_price as int } else { 0 }
}

/// The row whose strike is closest to the chain's spot (the first such).
pub open spec fn atm_row(data: Seq<OptionData>) -> Option<int> {
    closest_to_upto(data, chain_spot(data), data.len())
}

/// A new chain arrives: it replaces the old one and reprices the legs; on
/// the first non-empty chain the cursor jumps to the row closest to the
/// spot; the cursor is kept on the chain.
pub open spec fn receive_chain_view(v: AppView, new_data: Seq<OptionData>) -> AppView {
    let v1 = update_live_prices_view(AppView { data: new_data, ..v });
    let v2 = if !v1.initial_centering_done && new_data.len() > 0 {
        match atm_row(new_data) {
            Some(i) => AppView { selected_row: i, initial_centering_done: true, ..v1 },
            None => v1,
        }
    } else {
        v1
    };
    if v2.selected_row >= new_data.len() {
        AppView { selected_row: if new_data.len() == 0 { 0 } else { new_data.len() - 1 }, ..v2 }
    } else {
        v2
    }
}

pub proof fn lemma_closest_to_upto(data: Seq<OptionData>, spot: int, n: nat)
    requires
        n <= data.len(),
    ensures
        match closest_to_upto(data, spot, n) {
            Some(i) => 0 <= i < n && forall|k: int|
                0 <= k < n ==> spot_distance(data[i], spot) <= spot_distance(#[trigger] data[k], spot),
            None => n == 0,
        },
    decreases n,
{
    if n > 0 {
        lemma_closest_to_upto(data, spot, (n - 1) as nat);
    }
}

/// The index of the first row whose strike is closest to `spot`.
pub fn closest_strike_index(data: &Vec<OptionData>, spot: i64) -> (r: Option<usize>)
    ensures
        match r {
            Some(i) => closest_to_upto(data@, spot as int, data@.len()) == Some(i as int),
            None => closest_to_upto(data@, spot as int, data@.len()) is None,
        },
{
    let mut best: Option<usize> = None;
    let mut best_dist: i128 = 0;
    let mut i: usize = 0;
    while i < data.len()
        invariant
            i <= data@.len(),
            match best {
                Some(b) => closest_to_upto(data@, spot as int, i as nat) == Some(b as int) && b < i
                    && best_dist == spot_distance(data@[b as int], spot as int),
                None => closest_to_upto(data@, spot as int, i as nat) is None,
            },
        decreases data@.len() - i,
    {
        let d = data[i].strike_price as i128 - spot as i128;
        let dist = if d < 0 { -d } else { d };
        let better = match best {
            None => true,
            Some(_) => dist < best_dist,
        };
        if better {
            best = Some(i);
            best_dist = dist;
        }
        i += 1;
    }
    best
}


// ------------------------------------------------------------------------
// Keys.

/// A key as the front end sees it.
#[derive(Debug, Clone, Copy, PartialEq, Eq, Structural)]
pub enum KeyCode {
    Char(char),
    Up,
    Down,
    Left,
    Right,
    Tab,
    BackTab,
    Enter,
    Esc,
    Delete,
    Backspace,
    Other,
}

/// A key press, with whether Shift was held.
#[derive(Debug, Clone, Copy, PartialEq, Eq, Structural)]
pub struct KeyInput {
    pub code: KeyCode,
    pub shift: bool,
}

/// What a key press asks for.
#[derive(Debug, Clone, Copy, PartialEq, Eq, Structural)]
pub enum Action {
    Nothing,
    ToggleHelp,
    MoveRows(i32),
    PreviousExpiry,
    NextExpiry,
    SwitchFocus,
    Quit,
    Trade(bool),
    ToggleSelection,
    DeletePosition,
    NextRow,
    PreviousRow,
    ToggleColumn,
    NextStrategy,
    PreviousStrategy,
}

/// The key map. With the help shown, Esc, Enter, 'q' and Shift+'s' close
/// it. With Shift: Up/Down move the legs, Left/Right change the expiry,
/// 's' shows the help. Otherwise Tab switches the panel; in the option
/// chain 'q' quits, 'b' buys, 's' sells, space selects, Delete/Backspace
/// removes the leg, the arrows move the cursor, '?' shows the help; in the
/// strategy list 'q' quits, Up/Down pick a template, '?' shows the help.
pub open spec fn key_action(show_help: bool, focus: Focus, key: KeyInput) -> Action {
    if show_help {
        match key.code {
            KeyCode::Esc | KeyCode::Enter | KeyCode::Char('q') => Action::ToggleHelp,
            KeyCode::Char('s') | KeyCode::Char('S') => if key.shift {
                Action::ToggleHelp
            } else {
                Action::Nothing
            },
            _ => Action::Nothing,
        }
    } else if key.shift {
        match key.code {
            KeyCode::Down => Action::MoveRows(1i32),
            KeyCode::Up => Action::MoveRows(-1i32),
            KeyCode::Left => Action::PreviousExpiry,
            KeyCode::Right => Action::NextExpiry,
            KeyCode::Char('S') | KeyCode::Char('s') => Action::ToggleHelp,
            _ => Action::Nothing,
        }
    } else {
        match key.code {
            KeyCode::Tab | KeyCode::BackTab => Action::SwitchFocus,
            _ => match focus {
                Focus::OptionChain => match key.code {
                    KeyCode::Char('q') => Action::Quit,
                    KeyCode::Char('b') | KeyCode::Char('B') => Action::Trade(true),
                    KeyCode::Char('s') | KeyCode::Char('S') => Action::Trade(false),
                    KeyCode::Char(' ') => Action::ToggleSelection,
                    KeyCode::Delete | KeyCode::Backspace => Action::DeletePosition,
                    KeyCode::Down => Action::NextRow,
                    KeyCode::Up => Action::PreviousRow,
                    KeyCode::Left | KeyCode::Right => Action::ToggleColumn,
                    KeyCode::Char('?') => Action::ToggleHelp,
                    _ => Action::Nothing,
                },
                Focus::Strategies => match key.code {
                    KeyCode::Char('q') => Action::Quit,
                    KeyCode::Down => Action::NextStrategy,
                    KeyCode::Up => Action::PreviousStrategy,
                    KeyCode::Char('?') => Action::ToggleHelp,
                    _ => Action::Nothing,
                },
            },
        }
    }
}

/// The keyboard shortcuts with the help hidden. Without Shift: Tab switches
/// the panel, 'q' quits and '?' shows the help in either panel; in the
/// option chain a key asks to remove the leg under the cursor exactly when
/// it is Delete or Backspace, to buy exactly when it is 'b' or 'B', to sell
/// exactly when it is 's' or 'S', to select exactly when it is the space
/// bar, to move the cursor down or up exactly when it is Down or Up, and to
/// switch between calls and puts exactly when it is Left or Right; in the
/// strategy list Down and Up, and only they, pick the next and previous
/// template. With Shift, in either panel, Down and Up move the legs one row
/// down and up, Left and Right change to the previous and next expiry, and
/// 's' shows the help.
pub open spec fn shortcuts_hold(focus: Focus, key: KeyInput, a: Action) -> bool {
    &&& !key.shift && (key.code == KeyCode::Tab || key.code == KeyCode::BackTab) ==> a
        == Action::SwitchFocus
    &&& !key.shift && key.code == KeyCode::Char('q') ==> a == Action::Quit
    &&& !key.shift && key.code == KeyCode::Char('?') ==> a == Action::ToggleHelp
    &&& !key.shift && focus == Focus::OptionChain ==> {
        &&& (a == Action::DeletePosition <==> (key.code == KeyCode::Delete || key.code
            == KeyCode::Backspace))
        &&& (a == Action::Trade(true) <==> (key.code == KeyCode::Char('b') || key.code
            == KeyCode::Char('B')))
        &&& (a == Action::Trade(false) <==> (key.code == KeyCode::Char('s') || key.code
            == KeyCode::Char('S')))
        &&& (a == Action::ToggleSelection <==> key.code == KeyCode::Char(' '))
        &&& (a == Action::NextRow <==> key.code == KeyCode::Down)
        &&& (a == Action::PreviousRow <==> key.code == KeyCode::Up)
        &&& (a == Action::ToggleColumn <==> (key.code == KeyCode::Left || key.code
            == KeyCode::Right))
    }
    &&& !key.shift && focus == Focus::Strategies ==> {
        &&& (a == Action::NextStrategy <==> key.code == KeyCode::Down)
        &&& (a == Action::PreviousStrategy <==> key.code == KeyCode::Up)
    }
    &&& key.shift && key.code == KeyCode::Down ==> a == Action::MoveRows(1i32)
    &&& key.shift && key.code == KeyCode::Up ==> a == Action::MoveRows(-1i32)
    &&& key.shift && key.code == KeyCode::Left ==> a == Action::PreviousExpiry
    &&& key.shift && key.code == KeyCode::Right ==> a == Action::NextExpiry
    &&& key.shift && (key.code == KeyCode::Char('s') || key.code == KeyCode::Char('S')) ==> a
        == Action::ToggleHelp
}

/// With the help shown, a key closes it exactly when it is Esc, Enter, 'q'
/// or Shift+'s'; every other key does nothing.
pub open spec fn help_keys_hold(key: KeyInput, a: Action) -> bool {
    &&& (a == Action::ToggleHelp <==> (key.code == KeyCode::Esc || key.code == KeyCode::Enter
        || key.code == KeyCode::Char('q') || (key.shift && (key.code == KeyCode::Char('s')
        || key.code == KeyCode::Char('S')))))
    &&& a != Action::ToggleHelp ==> a == Action::Nothing
}

/// Every key press asks for what the shortcuts say: those of the panel in
/// focus with the help hidden, those of the help with it shown.
pub proof fn law_key_map_shortcuts(focus: Focus, key: KeyInput)
    ensures
        shortcuts_hold(focus, key, key_action(false, focus, key)),
        help_keys_hold(key, key_action(true, focus, key)),
{
}

/// After a change of expiry, the new expiry to fetch and an emptied chain.
pub open spec fn expiry_switched(v: AppView, moved: bool) -> (AppView, Option<Seq<char>>) {
    if moved && 0 <= v.current_expiry_index < v.available_expiries.len() {
        (AppView { data: Seq::empty(), ..v }, Some(v.available_expiries[v.current_expiry_index]))
    } else {
        (v, None)
    }
}

/// The state after an action, and the expiry to fetch when it changed.
pub open spec fn action_view(v: AppView, a: Action) -> (AppView, Option<Seq<char>>) {
    match a {
        Action::Nothing => (v, None),
        Action::ToggleHelp => (toggle_help_view(v), None),
        Action::MoveRows(d) => (move_position_row_view(v, d as int), None),
        Action::PreviousExpiry => expiry_switched(previous_expiry_view(v), previous_expiry_moves(v)),
        Action::NextExpiry => expiry_switched(next_expiry_view(v), next_expiry_moves(v)),
        Action::SwitchFocus => (
            AppView {
                active_focus: match v.active_focus {
                    Focus::OptionChain => Focus::Strategies,
                    Focus::Strategies => Focus::OptionChain,
                },
                ..v
            },
            None,
        ),
        Action::Quit => (AppView { should_quit: true, ..v }, None),
        Action::Trade(b) => (handle_trade_view(v, b), None),
        Action::ToggleSelection => (toggle_selection_view(v), None),
        Action::DeletePosition => (delete_position_view(v), None),
        Action::NextRow => (next_row_view(v), None),
        Action::PreviousRow => (previous_row_view(v), None),
        Action::ToggleColumn => (toggle_column_view(v), None),
        Action::NextStrategy => (next_strategy_view(v), None),
        Action::PreviousStrategy => (previous_strategy_view(v), None),
    }
}

/// The cursor moved, so the quote under it is asked for.
pub open spec fn moves_cursor(a: Action) -> bool {
    a == Action::NextRow || a == Action::PreviousRow || a == Action::ToggleColumn
}

/// A move of `delta` rows reads the row under the cursor only when nothing
/// is selected and the cursor's target is on the chain; the cursor must then
/// be on the chain.
pub open spec fn move_ok(v: AppView, delta: int) -> bool {
    v.selection == Set::<SelectionKey>::empty() && 0 <= v.selected_row + delta < v.data.len()
        ==> v.selected_row < v.data.len()
}

/// What an action needs of the state: the cursor on the chain where the
/// action reads the row under it, a quantity that stays within `i32` for a
/// trade, strikes that leave room for the template widths for the template
/// actions, and a template index that steps onto the list.
pub open spec fn action_ok(v: AppView, a: Action) -> bool {
    match a {
        Action::Trade(b) => row_ok(v) && cursor_trade_fits(v, b),
        Action::ToggleSelection | Action::DeletePosition => row_ok(v),
        Action::MoveRows(d) => move_ok(v, d as int),
        Action::NextStrategy => strikes_in_range(v.data),
        Action::PreviousStrategy => strikes_in_range(v.data) && (v.strategies.len() > 0
            ==> v.selected_strategy <= v.strategies.len()),
        _ => true,
    }
}

/// What a key press leads to.
pub struct KeyOutcome {
    /// The expiry to fetch when it changed.
    pub expiry_changed: Option<String>,
    /// The instrument whose quote to ask for when the cursor moved.
    pub quote_request: Option<String>,
}


// ------------------------------------------------------------------------
// Inputs of the strategy analysis.

/// What the strategy analysis needs from the chain: the spot, the days to
/// expiry, the at-the-money implied volatility and the strike step.
pub struct StrategyInputs {
    /// In hundredths of a rupee.
    pub spot_price: i64,
    pub days_to_expiry: i64,
    /// In units of 1/20000 of a percentage point (half a ten-thousandth),
    /// so that the average of the call's and the put's is exact.
    pub atm_iv: i128,
    /// In hundredths of a rupee.
    pub chain_step: i128,
}

/// The inputs of the strategy analysis for a chain, counted from `today`:
/// the chain's spot, the days to its expiry, the at-the-money volatility and
/// the strike step (stated over the chain's strikes in increasing order).
pub open spec fn inputs_match(data: Seq<OptionData>, today: Date, r: StrategyInputs) -> bool {
    &&& r.spot_price == chain_spot(data)
    &&& r.days_to_expiry == days_to_expiry_value(chain_expiry(data), today)
    &&& r.atm_iv == atm_iv_value(data)
    &&& forall|u: Seq<i128>| sorted_strikes(data, u) ==> r.chain_step == chain_step_of(data, u)
    &&& exists|u: Seq<i128>| sorted_strikes(data, u)
}

/// Whole days from `today` to the expiry written as "%Y-%m-%d", at least 1;
/// 1 when the expiry cannot be read.
pub open spec fn days_to_expiry_value(expiry: Seq<char>, today: Date) -> int {
    match parsed_date(expiry, "%Y-%m-%d"@) {
        Some(e) => {
            let d = day_number(e) - day_number(today);
            if d >= 1 { d } else { 1 }
        },
        None => 1,
    }
}

/// The expiry of the chain: the first row's, empty for an empty chain.
pub open spec fn chain_expiry(data: Seq<OptionData>) -> Seq<char> {
    if data.len() > 0 { data[0].expiry@ } else { Seq::empty() }
}

/// The implied volatility at the row closest to the spot, in half
/// ten-thousandths: the average of the call's and the put's when both are
/// positive, else the call's when positive, else the put's; 0 for an empty
/// chain.
pub open spec fn atm_iv_value(data: Seq<OptionData>) -> int {
    match atm_row(data) {
        Some(i) => {
            let c = iv_or_zero(data[i].call_options) as int;
            let p = iv_or_zero(data[i].put_options) as int;
            if c > 0 && p > 0 {
                c + p
            } else if c > 0 {
                2 * c
            } else {
                2 * p
            }
        },
        None => 0,
    }
}

/// Among the gaps between neighbours of `u` before index `n`, the smallest
/// one above 1.00.
pub open spec fn smallest_gap_upto(u: Seq<i128>, n: nat) -> Option<int>
    decreases n,
{
    if n <= 1 {
        None
    } else {
        let prev = smallest_gap_upto(u, (n - 1) as nat);
        let g = u[n - 1] - u[n - 2];
        if g > 100 && (prev is None || g < prev->0) {
            Some(g)
        } else {
            prev
        }
    }
}

/// The strike step of the chain: the smallest gap above 1.00 between
/// neighbouring distinct strikes `u` (in increasing order); 50.00 when there
/// is none or the chain has fewer than two rows.
pub open spec fn chain_step_of(data: Seq<OptionData>, u: Seq<i128>) -> int {
    if data.len() > 1 {
        match smallest_gap_upto(u, u.len()) {
            Some(g) => g,
            None => 5000,
        }
    } else {
        5000
    }
}

/// `u` lists the chain's strikes in increasing order, each once.
pub open spec fn sorted_strikes(data: Seq<OptionData>, u: Seq<i128>) -> bool {
    &&& crate::strategy::strictly_increasing(u)
    &&& forall|y: i128|
        #[trigger] u.contains(y) <==> exists|k: int|
            0 <= k < data.len() && data[k].strike_price as i128 == y
}

/// `a` and `b` are strikes of the chain, `a` below `b`, with no strike of
/// the chain strictly between them.
pub open spec fn neighbouring_strikes(data: Seq<OptionData>, a: int, b: int) -> bool {
    &&& a < b
    &&& exists|k: int| 0 <= k < data.len() && #[trigger] data[k].strike_price == a
    &&& exists|k: int| 0 <= k < data.len() && #[trigger] data[k].strike_price == b
    &&& forall|k: int| 0 <= k < data.len() ==> !(a < #[trigger] data[k].strike_price < b)
}

/// The strike step is the smallest gap above 1.00 between neighbouring
/// distinct strikes of the chain: at most each such gap and equal to one of
/// them; 50.00 when there is no such gap or the chain has fewer than two
/// rows.
pub open spec fn step_is_smallest_gap(data: Seq<OptionData>, step: int) -> bool {
    &&& data.len() <= 1 ==> step == 5000
    &&& data.len() > 1 ==> forall|a: int, b: int|
        #[trigger] neighbouring_strikes(data, a, b) && b - a > 100 ==> step <= b - a
    &&& data.len() > 1 && (exists|a: int, b: int| #[trigger] neighbouring_strikes(data, a, b) && b - a
        > 100) ==> exists|a: int, b: int|
        #[trigger] neighbouring_strikes(data, a, b) && b - a > 100 && step == b - a
    &&& data.len() > 1 && !(exists|a: int, b: int| #[trigger] neighbouring_strikes(data, a, b) && b
        - a > 100) ==> step == 5000
}

/// The gap between the k-th of `u` and the one before it.
pub open spec fn gap_before(u: Seq<i128>, k: int) -> int {
    u[k] - u[k - 1]
}

proof fn lemma_smallest_gap_upto(u: Seq<i128>, n: nat)
    requires
        n <= u.len(),
    ensures
        match smallest_gap_upto(u, n) {
            Some(g) => g > 100 && (exists|k: int| 1 <= k < n && #[trigger] gap_before(u, k) == g)
                && forall|k: int| 1 <= k < n && #[trigger] gap_before(u, k) > 100 ==> g <= gap_before(u, k),
            None => forall|k: int| 1 <= k < n ==> #[trigger] gap_before(u, k) <= 100,
        },
    decreases n,
{
    if n > 1 {
        lemma_smallest_gap_upto(u, (n - 1) as nat);
        assert(gap_before(u, n - 1) == u[n - 1] - u[n - 2]);
    }
}

/// Neighbouring strikes are neighbours in the sorted distinct strikes.
proof fn lemma_neighbours_consecutive(data: Seq<OptionData>, u: Seq<i128>, a: int, b: int)
    requires
        sorted_strikes(data, u),
    ensures
        neighbouring_strikes(data, a, b) <==> exists|k: int|
            1 <= k < u.len() && u[k - 1] == a && #[trigger] u[k] == b,
{
    if exists|k: int| 1 <= k < u.len() && u[k - 1] == a && #[trigger] u[k] == b {
        let k = choose|k: int| 1 <= k < u.len() && u[k - 1] == a && #[trigger] u[k] == b;
        assert(u.contains(u[k - 1]));
        assert(u.contains(u[k]));
        let ka = choose|m: int| 0 <= m < data.len() && data[m].strike_price as i128 == u[k - 1];
        let kb = choose|m: int| 0 <= m < data.len() && data[m].strike_price as i128 == u[k];
        assert(data[ka].strike_price == a);
        assert(data[kb].strike_price == b);
        assert forall|m: int| 0 <= m < data.len() implies !(a < #[trigger] data[m].strike_price < b) by {
            let y = data[m].strike_price as i128;
            assert(exists|q: int| 0 <= q < data.len() && data[q].strike_price as i128 == y);
            assert(u.contains(y));
            let p = choose|p: int| 0 <= p < u.len() && u[p] == y;
            if a < data[m].strike_price < b {
                if p <= k - 1 {
                    assert(u[p] <= u[k - 1]);
                } else {
                    assert(u[k] <= u[p]);
                }
            }
        }
        assert(neighbouring_strikes(data, a, b));
    }
    if neighbouring_strikes(data, a, b) {
        let ka = choose|m: int| 0 <= m < data.len() && #[trigger] data[m].strike_price == a;
        let kb = choose|m: int| 0 <= m < data.len() && #[trigger] data[m].strike_price == b;
        let ya = data[ka].strike_price as i128;
        let yb = data[kb].strike_price as i128;
        assert(exists|q: int| 0 <= q < data.len() && data[q].strike_price as i128 == ya);
        assert(exists|q: int| 0 <= q < data.len() && data[q].strike_price as i128 == yb);
        assert(u.contains(ya));
        assert(u.contains(yb));
        let i = choose|i: int| 0 <= i < u.len() && u[i] == ya;
        let j = choose|j: int| 0 <= j < u.len() && u[j] == yb;
        if j <= i {
            assert(u[j] <= u[i]);
        }
        if j > i + 1 {
            assert(u.contains(u[i + 1]));
            let m = choose|m: int| 0 <= m < data.len() && data[m].strike_price as i128 == u[i + 1];
            assert(a < data[m].strike_price < b);
        }
        assert(j == i + 1);
        assert(u[j - 1] == a && u[j] == b);
    }
}

/// The strike step worked out for a chain is the smallest gap above 1.00
/// between neighbouring distinct strikes: at most each such gap and equal
/// to one of them; 50.00 when there is none or the chain has fewer than two
/// rows.
pub proof fn law_chain_step_is_smallest_gap(data: Seq<OptionData>, today: Date, r: StrategyInputs)
    requires
        inputs_match(data, today, r),
    ensures
        step_is_smallest_gap(data, r.chain_step as int),
{
    let u = choose|u: Seq<i128>| sorted_strikes(data, u);
    assert(r.chain_step == chain_step_of(data, u));
    if data.len() > 1 {
        lemma_smallest_gap_upto(u, u.len());
        assert forall|a: int, b: int|
            #[trigger] neighbouring_strikes(data, a, b) && b - a > 100 implies r.chain_step <= b - a by {
            lemma_neighbours_consecutive(data, u, a, b);
            let k = choose|k: int| 1 <= k < u.len() && u[k - 1] == a && #[trigger] u[k] == b;
            assert(gap_before(u, k) == b - a);
        }
        match smallest_gap_upto(u, u.len()) {
            Some(g) => {
                let k = choose|k: int| 1 <= k < u.len() && #[trigger] gap_before(u, k) == g;
                let a = u[k - 1] as int;
                let b = u[k] as int;
                lemma_neighbours_consecutive(data, u, a, b);
                assert(neighbouring_strikes(data, a, b) && b - a > 100 && r.chain_step == b - a);
            },
            None => {
                assert forall|a: int, b: int| #[trigger] neighbouring_strikes(data, a, b) implies b - a
                    <= 100 by {
                    lemma_neighbours_consecutive(data, u, a, b);
                    let k = choose|k: int| 1 <= k < u.len() && u[k - 1] == a && #[trigger] u[k] == b;
                    assert(gap_before(u, k) == b - a);
                }
            },
        }
    }
}

// ------------------------------------------------------------------------
// The selection, held in a vector.

fn key_eq(a: SelectionKey, b: SelectionKey) -> (r: bool)
    ensures
        r == (a == b),
{
    a.0 == b.0 && a.1 == b.1
}

fn selection_contains(sel: &Vec<SelectionKey>, key: SelectionKey) -> (r: bool)
    ensures
        r == sel@.contains(key),
{
    let mut i: usize = 0;
    while i < sel.len()
        invariant
            i <= sel@.len(),
            forall|k: int| 0 <= k < i ==> sel@[k] != key,
        decreases sel@.len() - i,
    {
        if key_eq(sel[i], key) {
            return true;
        }
        i += 1;
    }
    false
}

/// The selection without `key`.
fn selection_remove(sel: &Vec<SelectionKey>, key: SelectionKey) -> (r: Vec<SelectionKey>)
    ensures
        r@.to_set() == sel@.to_set().remove(key),
        sel@.no_duplicates() ==> r@.no_duplicates(),
{
    let mut out: Vec<SelectionKey> = Vec::new();
    let mut i: usize = 0;
    while i < sel.len()
        invariant
            i <= sel@.len(),
            forall|x: SelectionKey|
                out@.contains(x) <==> (x != key && sel@.subrange(0, i as int).contains(x)),
            sel@.no_duplicates() ==> out@.no_duplicates(),
        decreases sel@.len() - i,
    {
        let x = sel[i];
        let ghost pre = sel@.subrange(0, i as int);
        proof {
            assert(sel@.subrange(0, i + 1) =~= pre.push(x));
            assert forall|y: SelectionKey| pre.push(x).contains(y) <==> (pre.contains(y) || y == x) by {
                if pre.push(x).contains(y) {
                    let k = choose|k: int| 0 <= k < pre.len() + 1 && pre.push(x)[k] == y;
                    if k < pre.len() {
                        assert(pre[k] == y);
                    }
                }
                if pre.contains(y) {
                    let k = choose|k: int| 0 <= k < pre.len() && pre[k] == y;
                    assert(pre.push(x)[k] == y);
                }
                if y == x {
                    assert(pre.push(x)[pre.len() as int] == y);
                }
            }
        }
        let ghost before = out@;
        if !key_eq(x, key) {
            out.push(x);
            proof {
                assert forall|y: SelectionKey| out@.contains(y) <==> (before.contains(y) || y == x) by {
                    if out@.contains(y) {
                        let k = choose|k: int| 0 <= k < out@.len() && out@[k] == y;
                        if k < before.len() {
                            assert(before[k] == y);
                        }
                    }
                    if before.contains(y) {
                        let k = choose|k: int| 0 <= k < before.len() && before[k] == y;
                        assert(out@[k] == y);
                    }
                    if y == x {
                        assert(out@[before.len() as int] == y);
                    }
                }
                if sel@.no_duplicates() {
                    assert(!pre.contains(x)) by {
                        if pre.contains(x) {
                            let k = choose|k: int| 0 <= k < pre.len() && pre[k] == x;
                            assert(sel@[k] == sel@[i as int]);
                        }
                    }
                    assert(!before.contains(x));
                    assert forall|a: int, b: int| 0 <= a < b < out@.len() implies out@[a] != out@[b] by {
                        if b == before.len() {
                            assert(before.contains(out@[a]));
                        } else {
                            assert(out@[a] == before[a] && out@[b] == before[b]);
                        }
                    }
                }
            }
        }
        proof {
            if x == key {
                assert(out@ == before);
            }
        }
        assert forall|y: SelectionKey|
            out@.contains(y) <==> (y != key && sel@.subrange(0, i + 1).contains(y)) by {
            assert(before.contains(y) <==> (y != key && pre.contains(y)));
            assert(sel@.subrange(0, i + 1) == pre.push(x));
            crate::seq_facts::lemma_push_contains(pre, x);
            if x != key {
                assert(out@.contains(y) <==> (before.contains(y) || y == x));
            }
        }
        i += 1;
    }
    proof {
        assert(sel@.subrange(0, sel@.len() as int) =~= sel@);
        assert(out@.to_set() =~= sel@.to_set().remove(key));
    }
    out
}

/// The selection with `key` added.
fn selection_insert(sel: &mut Vec<SelectionKey>, key: SelectionKey)
    ensures
        final(sel)@.to_set() == old(sel)@.to_set().insert(key),
        old(sel)@.no_duplicates() ==> final(sel)@.no_duplicates(),
{
    if !selection_contains(sel, key) {
        let ghost before = sel@;
        sel.push(key);
        proof {
            assert forall|y: SelectionKey| sel@.contains(y) <==> (before.contains(y) || y == key) by {
                if sel@.contains(y) {
                    let k = choose|k: int| 0 <= k < sel@.len() && sel@[k] == y;
                    if k < before.len() {
                        assert(before[k] == y);
                    }
                }
                if before.contains(y) {
                    let k = choose|k: int| 0 <= k < before.len() && before[k] == y;
                    assert(sel@[k] == y);
                }
                if y == key {
                    assert(sel@[before.len() as int] == y);
                }
            }
            assert(sel@.to_set() =~= before.to_set().insert(key));
            if before.no_duplicates() {
                assert forall|a: int, b: int| 0 <= a < b < sel@.len() implies sel@[a] != sel@[b] by {
                    if b == before.len() {
                        assert(before.contains(sel@[a]));
                    }
                }
            }
        }
    } else {
        proof {
            assert(sel@.to_set() =~= sel@.to_set().insert(key));
        }
    }
}

/// A leg is held at the key's strike and kind.
fn holds_leg_exec(ps: &Vec<Position>, key: SelectionKey) -> (r: bool)
    ensures
        r == holds_leg(ps@, key),
{
    let mut i: usize = 0;
    while i < ps.len()
        invariant
            i <= ps@.len(),
            forall|k: int| 0 <= k < i ==> !is_leg(#[trigger] ps@[k], key.0 as int, key.1),
        decreases ps@.len() - i,
    {
        if ps[i].strike == key.0 && ps[i].kind == key.1 {
            return true;
        }
        i += 1;
    }
    false
}

/// The selection keeping only the keys of legs held in `ps`.
fn selection_retain_held(sel: &Vec<SelectionKey>, ps: &Vec<Position>) -> (r: Vec<SelectionKey>)
    ensures
        r@.to_set() == sel@.to_set().filter(|k: SelectionKey| holds_leg(ps@, k)),
        sel@.no_duplicates() ==> r@.no_duplicates(),
{
    let mut out: Vec<SelectionKey> = Vec::new();
    let mut i: usize = 0;
    while i < sel.len()
        invariant
            i <= sel@.len(),
            forall|x: SelectionKey|
                out@.contains(x) <==> (holds_leg(ps@, x) && sel@.subrange(0, i as int).contains(x)),
            sel@.no_duplicates() ==> out@.no_duplicates(),
        decreases sel@.len() - i,
    {
        let x = sel[i];
        let ghost pre = sel@.subrange(0, i as int);
        proof {
            assert(sel@.subrange(0, i + 1) =~= pre.push(x));
            assert forall|y: SelectionKey| pre.push(x).contains(y) <==> (pre.contains(y) || y == x) by {
                if pre.push(x).contains(y) {
                    let k = choose|k: int| 0 <= k < pre.len() + 1 && pre.push(x)[k] == y;
                    if k < pre.len() {
                        assert(pre[k] == y);
                    }
                }
                if pre.contains(y) {
                    let k = choose|k: int| 0 <= k < pre.len() && pre[k] == y;
                    assert(pre.push(x)[k] == y);
                }
                if y == x {
                    assert(pre.push(x)[pre.len() as int] == y);
                }
            }
        }
        let ghost before = out@;
        let keep = holds_leg_exec(ps, x);
        if keep {
            out.push(x);
            proof {
                assert forall|y: SelectionKey| out@.contains(y) <==> (before.contains(y) || y == x) by {
                    if out@.contains(y) {
                        let k = choose|k: int| 0 <= k < out@.len() && out@[k] == y;
                        if k < before.len() {
                            assert(before[k] == y);
                        }
                    }
                    if before.contains(y) {
                        let k = choose|k: int| 0 <= k < before.len() && before[k] == y;
                        assert(out@[k] == y);
                    }
                    if y == x {
                        assert(out@[before.len() as int] == y);
                    }
                }
                if sel@.no_duplicates() {
                    assert(!pre.contains(x)) by {
                        if pre.contains(x) {
                            let k = choose|k: int| 0 <= k < pre.len() && pre[k] == x;
                            assert(sel@[k] == sel@[i as int]);
                        }
                    }
                    assert(!before.contains(x));
                    assert forall|a: int, b: int| 0 <= a < b < out@.len() implies out@[a] != out@[b] by {
                        if b == before.len() {
                            assert(before.contains(out@[a]));
                        } else {
                            assert(out@[a] == before[a] && out@[b] == before[b]);
                        }
                    }
                }
            }
        }
        proof {
            if !keep {
                assert(out@ == before);
            }
        }
        assert forall|y: SelectionKey|
            out@.contains(y) <==> (holds_leg(ps@, y) && sel@.subrange(0, i + 1).contains(y)) by {
            assert(before.contains(y) <==> (holds_leg(ps@, y) && pre.contains(y)));
            assert(sel@.subrange(0, i + 1).contains(y) <==> (pre.contains(y) || y == x));
            if keep {
                assert(out@.contains(y) <==> (before.contains(y) || y == x));
            }
        }
        i += 1;
    }
    proof {
        assert(sel@.subrange(0, sel@.len() as int) =~= sel@);
        assert(out@.to_set() =~= sel@.to_set().filter(|k: SelectionKey| holds_leg(ps@, k)));
    }
    out
}

/// The action a key press asks for (see `key_action`).
pub fn decide_key(show_help: bool, focus: Focus, key: KeyInput) -> (a: Action)
    ensures
        a == key_action(show_help, focus, key),
        !show_help ==> shortcuts_hold(focus, key, a),
        show_help ==> help_keys_hold(key, a),
{
    proof {
        law_key_map_shortcuts(focus, key);
    }
    if show_help {
        match key.code {
            KeyCode::Esc | KeyCode::Enter | KeyCode::Char('q') => Action::ToggleHelp,
            KeyCode::Char('s') | KeyCode::Char('S') => if key.shift {
                Action::ToggleHelp
            } else {
                Action::Nothing
            },
            _ => Action::Nothing,
        }
    } else if key.shift {
        match key.code {
            KeyCode::Down => Action::MoveRows(1i32),
            KeyCode::Up => Action::MoveRows(-1),
            KeyCode::Left => Action::PreviousExpiry,
            KeyCode::Right => Action::NextExpiry,
            KeyCode::Char('S') | KeyCode::Char('s') => Action::ToggleHelp,
            _ => Action::Nothing,
        }
    } else {
        match key.code {
            KeyCode::Tab | KeyCode::BackTab => Action::SwitchFocus,
            _ => match focus {
                Focus::OptionChain => match key.code {
                    KeyCode::Char('q') => Action::Quit,
                    KeyCode::Char('b') | KeyCode::Char('B') => Action::Trade(true),
                    KeyCode::Char('s') | KeyCode::Char('S') => Action::Trade(false),
                    KeyCode::Char(' ') => Action::ToggleSelection,
                    KeyCode::Delete | KeyCode::Backspace => Action::DeletePosition,
                    KeyCode::Down => Action::NextRow,
                    KeyCode::Up => Action::PreviousRow,
                    KeyCode::Left | KeyCode::Right => Action::ToggleColumn,
                    KeyCode::Char('?') => Action::ToggleHelp,
                    _ => Action::Nothing,
                },
                Focus::Strategies => match key.code {
                    KeyCode::Char('q') => Action::Quit,
                    KeyCode::Down => Action::NextStrategy,
                    KeyCode::Up => Action::PreviousStrategy,
                    KeyCode::Char('?') => Action::ToggleHelp,
                    _ => Action::Nothing,
                },
            },
        }
    }
}

impl App {
    /// The instrument key of the cell under the cursor, if the side is
    /// quoted there.
    pub fn get_selected_instrument_key(&self) -> (r: Option<String>)
        ensures
            match r {
                Some(s) => selected_instrument_key(self@) == Some(s@),
                None => selected_instrument_key(self@) is None,
            },
    {
        if self.data.len() == 0 {
            return None;
        }
        if self.selected_row >= self.data.len() {
            return None;
        }
        let item = &self.data[self.selected_row];
        let contract = match self.selected_column {
            ColumnSelection::Call => &item.call_options,
            ColumnSelection::Put => &item.put_options,
        };
        match contract {
            Some(o) => Some(o.instrument_key.clone()),
            None => None,
        }
    }

    /// Nothing happens on a tick.
    pub fn on_tick(&mut self)
        ensures
            final(self)@ == old(self)@,
    {
    }

    pub fn next_row(&mut self)
        ensures
            final(self)@ == next_row_view(old(self)@),
            final(self).selected_positions@ == old(self).selected_positions@,
    {
        if self.data.len() > 0 && self.selected_row < self.data.len() - 1 {
            self.selected_row += 1;
        }
    }

    pub fn previous_row(&mut self)
        ensures
            final(self)@ == previous_row_view(old(self)@),
            final(self).selected_positions@ == old(self).selected_positions@,
    {
        if self.selected_row > 0 {
            self.selected_row -= 1;
        }
    }

    pub fn toggle_column(&mut self)
        ensures
            final(self)@ == toggle_column_view(old(self)@),
            final(self).selected_positions@ == old(self).selected_positions@,
    {
        self.selected_column = match self.selected_column {
            ColumnSelection::Call => ColumnSelection::Put,
            ColumnSelection::Put => ColumnSelection::Call,
        };
    }

    pub fn toggle_help(&mut self)
        ensures
            final(self)@ == toggle_help_view(old(self)@),
            final(self).selected_positions@ == old(self).selected_positions@,
    {
        self.show_help = !self.show_help;
    }

    fn cursor_kind(&self) -> (r: OptionType)
        ensures
            r == column_kind(self.selected_column),
    {
        match self.selected_column {
            ColumnSelection::Call => OptionType::Call,
            ColumnSelection::Put => OptionType::Put,
        }
    }

    /// Selects or deselects the cell under the cursor.
    pub fn toggle_selection(&mut self)
        requires
            row_ok(old(self)@),
        ensures
            final(self)@ == toggle_selection_view(old(self)@),
            old(self).selected_positions@.no_duplicates()
                ==> final(self).selected_positions@.no_duplicates(),
    {
        if self.data.len() == 0 {
            return;
        }
        let key = (self.data[self.selected_row].strike_price, self.cursor_kind());
        if selection_contains(&self.selected_positions, key) {
            self.selected_positions = selection_remove(&self.selected_positions, key);
        } else {
            selection_insert(&mut self.selected_positions, key);
        }
        proof {
            assert(self@ =~= toggle_selection_view(old(self)@));
        }
    }

    /// Removes the leg under the cursor and its selection.
    pub fn delete_position(&mut self)
        requires
            row_ok(old(self)@),
        ensures
            final(self)@ == delete_position_view(old(self)@),
            old(self).selected_positions@.no_duplicates()
                ==> final(self).selected_positions@.no_duplicates(),
    {
        if self.data.len() == 0 {
            return;
        }
        let strike = self.data[self.selected_row].strike_price;
        let kind = self.cursor_kind();
        let key = (strike, kind);
        if selection_contains(&self.selected_positions, key) {
            self.selected_positions = selection_remove(&self.selected_positions, key);
        } else {
            proof {
                assert(self.selected_positions@.to_set() =~= self.selected_positions@.to_set().remove(
                    key,
                ));
            }
        }
        self.portfolio.remove(strike, kind);
        proof {
            assert(self@ =~= delete_position_view(old(self)@));
        }
    }

    /// Reprices the legs from the chain on screen.
    pub fn update_live_prices(&mut self)
        ensures
            final(self)@ == update_live_prices_view(old(self)@),
            final(self).selected_positions@ == old(self).selected_positions@,
    {
        if self.data.len() == 0 {
            return;
        }
        self.portfolio.update_prices(&self.data);
        proof {
            assert(self.portfolio.positions@ =~= Seq::new(
                old(self).portfolio.positions@.len(),
                |k: int| repriced_leg(old(self).portfolio.positions@[k], old(self).data@),
            ));
            assert(self@ =~= update_live_prices_view(old(self)@));
        }
    }

    /// Buys (`is_buy`) or sells one lot at the cursor at the side's last
    /// traded price (0 when not quoted).
    pub fn handle_trade_action(&mut self, is_buy: bool)
        requires
            row_ok(old(self)@),
            cursor_trade_fits(old(self)@, is_buy),
        ensures
            final(self)@ == handle_trade_view(old(self)@, is_buy),
            old(self).selected_positions@.no_duplicates()
                ==> final(self).selected_positions@.no_duplicates(),
    {
        if self.data.len() == 0 {
            return;
        }
        let strike = self.data[self.selected_row].strike_price;
        let kind = self.cursor_kind();
        let price = match self.selected_column {
            ColumnSelection::Call => contract_ltp_or_zero(&self.data[self.selected_row].call_options),
            ColumnSelection::Put => contract_ltp_or_zero(&self.data[self.selected_row].put_options),
        };
        self.last_message = self.portfolio.trade(strike, kind, price, is_buy);
        self.selected_positions = selection_retain_held(&self.selected_positions, &self.portfolio.positions);
        proof {
            assert(self@ =~= handle_trade_view(old(self)@, is_buy));
        }
    }

    /// Builds the selected template from the chain on screen.
    pub fn apply_strategy(&mut self)
        requires
            old(self).data@.len() > 0 ==> old(self).selected_strategy
                < old(self).strategies@.len(),
            strikes_in_range(old(self).data@),
        ensures
            final(self)@ == apply_strategy_view(old(self)@),
            final(self).selected_positions@ == old(self).selected_positions@,
    {
        if self.data.len() == 0 {
            return;
        }
        let strategy = self.strategies[self.selected_strategy];
        match StrategyBuilder::build(strategy, &self.data) {
            Ok((new_positions, message)) => {
                self.portfolio.positions = new_positions;
                self.last_message = message;
            },
            Err(e) => {
                self.last_message = e;
            },
        }
        proof {
            assert(self@ =~= apply_strategy_view(old(self)@));
        }
    }

    /// Selects the next template (wrapping to the first) and builds it.
    pub fn next_strategy(&mut self)
        requires
            strikes_in_range(old(self).data@),
        ensures
            final(self)@ == next_strategy_view(old(self)@),
            final(self).selected_positions@ == old(self).selected_positions@,
    {
        if self.strategies.len() == 0 {
            return;
        }
        if self.selected_strategy < self.strategies.len() - 1 {
            self.selected_strategy += 1;
        } else {
            self.selected_strategy = 0;
        }
        self.apply_strategy();
    }

    /// Selects the previous template (wrapping to the last) and builds it.
    pub fn previous_strategy(&mut self)
        requires
            strikes_in_range(old(self).data@),
            old(self).strategies@.len() > 0 ==> old(self).selected_strategy
                <= old(self).strategies@.len(),
        ensures
            final(self)@ == previous_strategy_view(old(self)@),
            final(self).selected_positions@ == old(self).selected_positions@,
    {
        if self.strategies.len() == 0 {
            return;
        }
        if self.selected_strategy > 0 {
            self.selected_strategy -= 1;
        } else {
            self.selected_strategy = self.strategies.len() - 1;
        }
        self.apply_strategy();
    }

    /// Moves the cursor `delta` rows and the legs along with it: all
    /// selected legs, or with nothing selected the leg held under the
    /// cursor. The legs stay put when any of them cannot move.
    pub fn move_position_row(&mut self, delta: i32)
        requires
            move_ok(old(self)@, delta as int),
        ensures
            final(self)@ == move_position_row_view(old(self)@, delta as int),
            old(self).selected_positions@.no_duplicates()
                ==> final(self).selected_positions@.no_duplicates(),
    {
        if self.data.len() == 0 {
            return;
        }
        let ghost v = self@;
        let current_row = self.selected_row;
        let target = current_row as i128 + delta as i128;
        if target >= 0 && target < self.data.len() as i128 {
            self.selected_row = target as usize;
        } else {
            return;
        }
        let ghost v1 = self@;
        let ghost idxs = legs_to_move(v);
        assert(v1 =~= AppView { selected_row: v.selected_row + delta, ..v });

        let mut to_move: Vec<usize> = Vec::new();
        proof {
            lemma_empty_to_set(self.selected_positions@);
        }
        if self.selected_positions.len() == 0 {
            let strike = self.data[current_row].strike_price;
            let kind = self.cursor_kind();
            let mut i: usize = 0;
            let mut found = false;
            while i < self.portfolio.positions.len() && !found
                invariant
                    i <= self.portfolio.positions@.len(),
                    self.portfolio.positions@ == v.positions,
                    found ==> (i > 0 && first_leg_upto(v.positions, strike as int, kind, i as nat)
                        == Some((i - 1) as int) && to_move@ == seq![(i - 1) as usize]),
                    !found ==> (first_leg_upto(v.positions, strike as int, kind, i as nat) is None
                        && to_move@.len() == 0),
                decreases self.portfolio.positions@.len() - i,
            {
                if self.portfolio.positions[i].strike == strike && self.portfolio.positions[i].kind == kind {
                    to_move.push(i);
                    found = true;
                }
                i += 1;
            }
            proof {
                lemma_first_leg_upto(v.positions, strike as int, kind, i as nat);
                if found {
                    lemma_first_leg_extend(v.positions, strike as int, kind, i as nat);
                } else {
                    assert(i == v.positions.len());
                }
            }
        } else {
            let mut i: usize = 0;
            while i < self.portfolio.positions.len()
                invariant
                    i <= self.portfolio.positions@.len(),
                    self.portfolio.positions@ == v.positions,
                    self.selected_positions@.to_set() == v.selection,
                    to_move@.len() == selected_leg_indices(v.positions, v.selection, i as nat).len(),
                    forall|k: int|
                        0 <= k < to_move@.len() ==> to_move@[k] as int == #[trigger] selected_leg_indices(
                            v.positions,
                            v.selection,
                            i as nat,
                        )[k],
                    forall|k: int| 0 <= k < to_move@.len() ==> to_move@[k] < i,
                decreases self.portfolio.positions@.len() - i,
            {
                let p = self.portfolio.positions[i];
                if selection_contains(&self.selected_positions, (p.strike, p.kind)) {
                    to_move.push(i);
                }
                i += 1;
            }
        }
        proof {
            assert(to_move@.len() == idxs.len());
            assert(forall|k: int| 0 <= k < idxs.len() ==> to_move@[k] as int == #[trigger] idxs[k]);
            assert(forall|k: int| 0 <= k < idxs.len() ==> 0 <= #[trigger] idxs[k] < v.positions.len());
        }
        if to_move.len() == 0 {
            proof {
                assert(self@ =~= v1);
            }
            return;
        }

        let mut changes: Vec<(usize, i64, i64)> = Vec::new();
        let mut k: usize = 0;
        while k < to_move.len()
            invariant
                k <= to_move@.len() == idxs.len(),
                idxs == legs_to_move(v),
                v == old(self)@,
                self@ == v1,
                v1 == (AppView { selected_row: v.selected_row + delta, ..v }),
                0 <= v.selected_row + delta < v.data.len(),
                self.selected_positions@ == old(self).selected_positions@,
                v.data.len() > 0,
                self.data@ == v.data,
                self.portfolio.positions@ == v.positions,
                forall|j: int| 0 <= j < idxs.len() ==> to_move@[j] as int == #[trigger] idxs[j],
                forall|j: int| 0 <= j < idxs.len() ==> 0 <= #[trigger] idxs[j] < v.positions.len(),
                plan_moves(v.data, v.positions, idxs.take(k as int), delta as int) matches Some(m)
                    && m.len() == changes@.len() && forall|j: int|
                    0 <= j < changes@.len() ==> (#[trigger] changes@[j]).0 as int == m[j].0
                        && changes@[j].1 == m[j].1 && changes@[j].2 == m[j].2,
            decreases to_move@.len() - k,
        {
            let pi = to_move[k];
            proof {
                assert(to_move@[k as int] as int == idxs[k as int]);
                assert(idxs[k as int] < v.positions.len());
            }
            let pos = self.portfolio.positions[pi];
            proof {
                assert(idxs.take(k + 1).drop_last() =~= idxs.take(k as int));
                assert(idxs.take(k + 1).last() == pi as int);
            }
            match find_near_strike(&self.data, pos.strike, 1) {
                Some(idx) => {
                    proof {
                        lemma_first_near_upto(v.data, pos.strike as int, 1, v.data.len());
                    }
                    let to = idx as i128 + delta as i128;
                    if to >= 0 && to < self.data.len() as i128 {
                        let to = to as usize;
                        let new_strike = self.data[to].strike_price;
                        let new_price = match pos.kind {
                            OptionType::Call => contract_ltp_or_zero(&self.data[to].call_options),
                            OptionType::Put => contract_ltp_or_zero(&self.data[to].put_options),
                        };
                        changes.push((pi, new_strike, new_price));
                    } else {
                        proof {
                            lemma_plan_moves_none(v.data, v.positions, idxs, k as int, delta as int);
                            lemma_move_aborted(v, delta as int);
                        }
                        return;
                    }
                },
                None => {
                    proof {
                        lemma_plan_moves_none(v.data, v.positions, idxs, k as int, delta as int);
                        lemma_move_aborted(v, delta as int);
                    }
                    return;
                },
            }
            k += 1;
        }
        let ghost moves = plan_moves(v.data, v.positions, idxs, delta as int)->Some_0;
        proof {
            assert(idxs.take(idxs.len() as int) =~= idxs);
            lemma_plan_moves_shape(v.data, v.positions, idxs, delta as int);
        }

        let mut c: usize = 0;
        while c < changes.len()
            invariant
                c <= changes@.len() == moves.len(),
                idxs == legs_to_move(v),
                v == old(self)@,
                v1 == (AppView { selected_row: v.selected_row + delta, ..v }),
                0 <= v.selected_row + delta < v.data.len(),
                idxs.len() > 0,
                plan_moves(v.data, v.positions, idxs, delta as int) == Some(moves),
                forall|j: int|
                    0 <= j < changes@.len() ==> (#[trigger] changes@[j]).0 as int == moves[j].0
                        && changes@[j].1 == moves[j].1 && changes@[j].2 == moves[j].2,
                forall|j: int| 0 <= j < moves.len() ==> 0 <= (#[trigger] moves[j]).0 < v.positions.len(),
                self.portfolio.positions@ == apply_moves(v.positions, v.selection, moves.take(c as int)).0,
                self.selected_positions@.to_set() == apply_moves(
                    v.positions,
                    v.selection,
                    moves.take(c as int),
                ).1,
                v.selection == old(self).selected_positions@.to_set(),
                old(self).selected_positions@.no_duplicates() ==> self.selected_positions@.no_duplicates(),
                self.data@ == v.data,
                self.selected_row == v1.selected_row,
                self.selected_column == v.selected_column,
                self.should_quit == v.should_quit,
                self.initial_centering_done == v.initial_centering_done,
                self.last_message@ == v.last_message,
                self.show_help == v.show_help,
                self.active_focus == v.active_focus,
                self.strategies@ == v.strategies,
                self.selected_strategy == v.selected_strategy,
                self.available_expiries@.map_values(|s: String| s@) == v.available_expiries,
                self.current_expiry_index == v.current_expiry_index,
                self.market_depth == v.market_depth,
            decreases changes@.len() - c,
        {
            let (pi, new_strike, new_price) = changes[c];
            proof {
                assert(moves.take(c + 1).drop_last() =~= moves.take(c as int));
                lemma_apply_moves_len(v.positions, v.selection, moves.take(c as int));
            }
            let cur = self.portfolio.positions[pi];
            let old_key = (cur.strike, cur.kind);
            self.portfolio.positions.set(pi, Position { strike: new_strike, entry_price: new_price, ..cur });
            if selection_contains(&self.selected_positions, old_key) {
                self.selected_positions = selection_remove(&self.selected_positions, old_key);
                selection_insert(&mut self.selected_positions, (new_strike, cur.kind));
            }
            c += 1;
        }
        proof {
            assert(moves.take(moves.len() as int) =~= moves);
            assert(self@ =~= move_position_row_view(v, delta as int));
        }
    }

    /// The state at start-up on `today`: no chain, no legs, every template,
    /// and the known expiries that are not past.
    pub fn new_on(today: Date) -> (r: App)
        ensures
            r@ == initial_view(today),
            r.selected_positions@.no_duplicates(),
    {
        let all_expiries = vec![
            "06 Jan 2026",
            "13 Jan 2026",
            "20 Jan 2026",
            "27 Jan 2026",
            "03 Feb 2026",
            "24 Feb 2026",
            "30 Mar 2026",
            "30 Jun 2026",
            "29 Sep 2026",
            "29 Dec 2026",
        ];
        let ghost labels = all_expiries@.map_values(|s: &str| s@);
        assert(labels =~= expiry_labels());
        let mut available: Vec<String> = Vec::new();
        let mut i: usize = 0;
        while i < all_expiries.len()
            invariant
                i <= all_expiries@.len(),
                labels == all_expiries@.map_values(|s: &str| s@),
                available@.map_values(|s: String| s@) == upcoming_expiries(
                    labels.take(i as int),
                    today,
                ),
            decreases all_expiries@.len() - i,
        {
            let ghost before = available@;
            proof {
                assert(labels.take(i + 1).drop_last() =~= labels.take(i as int));
                assert(labels.take(i + 1).last() == all_expiries@[i as int]@);
            }
            match parse_date(all_expiries[i], "%d %b %Y") {
                Some(d) => {
                    if is_on_or_after(d, today) {
                        let text = format_date(d, "%Y-%m-%d");
                        available.push(text);
                        proof {
                            assert(available@.map_values(|s: String| s@) =~= before.map_values(
                                |s: String| s@,
                            ).push(text@));
                        }
                    }
                },
                None => {},
            }
            i += 1;
        }
        proof {
            assert(labels.take(all_expiries@.len() as int) =~= labels);
        }
        let r = App {
            data: Vec::new(),
            selected_row: 0,
            selected_column: ColumnSelection::Call,
            should_quit: false,
            initial_centering_done: false,
            portfolio: Portfolio::new(),
            last_message: String::from_str("Ready"),
            show_help: false,
            active_focus: Focus::OptionChain,
            strategies: Strategy::all(),
            selected_strategy: 0,
            selected_positions: Vec::new(),
            available_expiries: available,
            current_expiry_index: 0,
            market_depth: None,
        };
        proof {
            assert(r.selected_positions@.to_set() =~= Set::<SelectionKey>::empty());
            assert(r@ =~= initial_view(today));
        }
        r
    }

    /// The state at start-up, with the expiries that are not past on this
    /// machine's clock.
    pub fn new() -> (r: App)
        ensures
            exists|today: Date| valid_date(today) && r@ == initial_view(today),
            r.selected_positions@.no_duplicates(),
    {
        let today = local_today();
        Self::new_on(today)
    }

    /// A new chain arrives (see `receive_chain_view`). Returns the
    /// instrument whose quote to ask for: the one under the cursor.
    pub fn receive_option_chain(&mut self, new_data: Vec<OptionData>) -> (quote_request: Option<String>)
        ensures
            final(self)@ == receive_chain_view(old(self)@, new_data@),
            match quote_request {
                Some(k) => selected_instrument_key(final(self)@) == Some(k@),
                None => selected_instrument_key(final(self)@) is None,
            },
            final(self).selected_positions@ == old(self).selected_positions@,
    {
        let ghost v = self@;
        self.data = new_data;
        let ghost v0 = self@;
        self.update_live_prices();
        if !self.initial_centering_done && self.data.len() > 0 {
            let spot = self.data[0].underlying_spot_price;
            match closest_strike_index(&self.data, spot) {
                Some(idx) => {
                    self.selected_row = idx;
                    self.initial_centering_done = true;
                },
                None => {},
            }
        }
        if self.selected_row >= self.data.len() {
            self.selected_row = if self.data.len() == 0 { 0 } else { self.data.len() - 1 };
        }
        proof {
            assert(v0 =~= AppView { data: new_data@, ..v });
            assert(self@ =~= receive_chain_view(v, new_data@));
        }
        self.get_selected_instrument_key()
    }

    /// A quote arrives for the instrument under the cursor.
    pub fn receive_quote(&mut self, quote: QuoteData)
        ensures
            final(self)@ == (AppView { market_depth: Some(quote), ..old(self)@ }),
            final(self).selected_positions@ == old(self).selected_positions@,
    {
        self.market_depth = Some(quote);
    }

    /// The chain's strikes leave room for the template widths.
    fn chain_strikes_in_range(&self) -> (r: bool)
        ensures
            r == strikes_in_range(self.data@),
    {
        let mut k: usize = 0;
        while k < self.data.len()
            invariant
                k <= self.data@.len(),
                forall|j: int|
                    0 <= j < k ==> -crate::strategy_builder::MAX_STRIKE <= #[trigger] self.data@[j].strike_price
                        <= crate::strategy_builder::MAX_STRIKE,
            decreases self.data@.len() - k,
        {
            let st = self.data[k].strike_price;
            if st < -crate::strategy_builder::MAX_STRIKE || st > crate::strategy_builder::MAX_STRIKE {
                return false;
            }
            k += 1;
        }
        true
    }

    /// A trade at the cursor keeps the quantity within `i32`.
    fn trade_fits_at_cursor(&self, is_buy: bool) -> (r: bool)
        requires
            row_ok(self@),
        ensures
            r == cursor_trade_fits(self@, is_buy),
    {
        if self.data.len() == 0 {
            return true;
        }
        let strike = self.data[self.selected_row].strike_price;
        let kind = self.cursor_kind();
        match crate::portfolio::find_leg(&self.portfolio.positions, strike, kind) {
            Some(i) => {
                proof {
                    lemma_first_leg_upto(self.portfolio.positions@, strike as int, kind, self.portfolio.positions@.len());
                }
                let q = self.portfolio.positions[i].qty;
                if is_buy { q != i32::MAX } else { q != i32::MIN }
            },
            None => true,
        }
    }

    /// The key can be handled in this state (see `action_ok`).
    pub fn accepts_key(&self, key: KeyInput) -> (r: bool)
        ensures
            r == action_ok(self@, key_action(self@.show_help, self@.active_focus, key)),
    {
        let row_on_chain = self.data.len() == 0 || self.selected_row < self.data.len();
        match decide_key(self.show_help, self.active_focus, key) {
            Action::Trade(b) => row_on_chain && self.trade_fits_at_cursor(b),
            Action::ToggleSelection | Action::DeletePosition => row_on_chain,
            Action::MoveRows(d) => {
                proof {
                    lemma_empty_to_set(self.selected_positions@);
                }
                let target = self.selected_row as i128 + d as i128;
                !(self.selected_positions.len() == 0 && 0 <= target && target < self.data.len() as i128)
                    || self.selected_row < self.data.len()
            },
            Action::NextStrategy => self.chain_strikes_in_range(),
            Action::PreviousStrategy => self.chain_strikes_in_range() && (self.strategies.len() == 0
                || self.selected_strategy <= self.strategies.len()),
            _ => true,
        }
    }

    /// Handles one key press (see `key_action` and `action_view`). Returns
    /// the expiry to fetch when it changed and the quote to ask for when the
    /// cursor moved.
    pub fn handle_key(&mut self, key: KeyInput) -> (out: KeyOutcome)
        requires
            action_ok(old(self)@, key_action(old(self)@.show_help, old(self)@.active_focus, key)),
        ensures
            ({
                let a = key_action(old(self)@.show_help, old(self)@.active_focus, key);
                let r = action_view(old(self)@, a);
                &&& final(self)@ == r.0
                &&& match out.expiry_changed {
                    Some(e) => r.1 == Some(e@),
                    None => r.1 is None,
                }
                &&& match out.quote_request {
                    Some(q) => moves_cursor(a) && selected_instrument_key(r.0) == Some(q@),
                    None => !moves_cursor(a) || selected_instrument_key(r.0) is None,
                }
            }),
            old(self).selected_positions@.no_duplicates()
                ==> final(self).selected_positions@.no_duplicates(),
    {
        let action = decide_key(self.show_help, self.active_focus, key);
        let mut expiry_changed: Option<String> = None;
        match action {
            Action::Nothing => {},
            Action::ToggleHelp => self.toggle_help(),
            Action::MoveRows(d) => self.move_position_row(d),
            Action::PreviousExpiry => {
                let ghost v = self@;
                let moved = self.previous_expiry();
                if moved && self.current_expiry_index < self.available_expiries.len() {
                    expiry_changed = Some(self.available_expiries[self.current_expiry_index].clone());
                    self.data = Vec::new();
                }
                proof {
                    assert(self@ =~= expiry_switched(previous_expiry_view(v), moved).0);
                }
            },
            Action::NextExpiry => {
                let ghost v = self@;
                let moved = self.next_expiry();
                if moved && self.current_expiry_index < self.available_expiries.len() {
                    expiry_changed = Some(self.available_expiries[self.current_expiry_index].clone());
                    self.data = Vec::new();
                }
                proof {
                    assert(self@ =~= expiry_switched(next_expiry_view(v), moved).0);
                }
            },
            Action::SwitchFocus => {
                self.active_focus = match self.active_focus {
                    Focus::OptionChain => Focus::Strategies,
                    Focus::Strategies => Focus::OptionChain,
                };
            },
            Action::Quit => {
                self.should_quit = true;
            },
            Action::Trade(b) => self.handle_trade_action(b),
            Action::ToggleSelection => self.toggle_selection(),
            Action::DeletePosition => self.delete_position(),
            Action::NextRow => self.next_row(),
            Action::PreviousRow => self.previous_row(),
            Action::ToggleColumn => self.toggle_column(),
            Action::NextStrategy => self.next_strategy(),
            Action::PreviousStrategy => self.previous_strategy(),
        }
        let quote_request = match action {
            Action::NextRow | Action::PreviousRow | Action::ToggleColumn => {
                self.get_selected_instrument_key()
            },
            _ => None,
        };
        KeyOutcome { expiry_changed, quote_request }
    }

    /// The inputs of the strategy analysis for the chain on screen, with
    /// the days to expiry counted from `today`.
    pub fn strategy_inputs(&self, today: Date) -> (r: StrategyInputs)
        requires
            valid_date(today),
        ensures
            inputs_match(self.data@, today, r),
            step_is_smallest_gap(self.data@, r.chain_step as int),
    {
        let spot_price: i64 = if self.data.len() > 0 { self.data[0].underlying_spot_price } else { 0 };
        let parsed = if self.data.len() > 0 {
            parse_date(self.data[0].expiry.as_str(), "%Y-%m-%d")
        } else {
            parse_date("", "%Y-%m-%d")
        };
        proof {
            if self.data@.len() == 0 {
                assert(""@ =~= Seq::<char>::empty()) by {
                    reveal_strlit("");
                }
            }
        }
        let days_to_expiry: i64 = match parsed {
            Some(e) => {
                let d = days_between(e, today);
                if d >= 1 { d } else { 1 }
            },
            None => 1,
        };
        let atm_iv: i128 = match closest_strike_index(&self.data, spot_price) {
            Some(i) => {
                proof {
                    lemma_closest_to_upto(self.data@, spot_price as int, self.data@.len());
                }
                let c = contract_iv_or_zero(&self.data[i].call_options);
                let p = contract_iv_or_zero(&self.data[i].put_options);
                if c > 0 && p > 0 {
                    c as i128 + p as i128
                } else if c > 0 {
                    2 * (c as i128)
                } else {
                    2 * (p as i128)
                }
            },
            None => 0,
        };
        let mut strikes: Vec<i128> = Vec::new();
        let mut k: usize = 0;
        while k < self.data.len()
            invariant
                k <= self.data@.len(),
                strikes@.len() == k,
                forall|j: int| 0 <= j < k ==> #[trigger] strikes@[j] == self.data@[j].strike_price as i128,
            decreases self.data@.len() - k,
        {
            strikes.push(self.data[k].strike_price as i128);
            k += 1;
        }
        let u = crate::strategy::sorted_distinct(&strikes);
        proof {
            assert forall|y: i128|
                #[trigger] u@.contains(y) <==> exists|k: int|
                    0 <= k < self.data@.len() && self.data@[k].strike_price as i128 == y by {
                if u@.contains(y) {
                    assert(strikes@.contains(y));
                    let j = choose|j: int| 0 <= j < strikes@.len() && strikes@[j] == y;
                    assert(self.data@[j].strike_price as i128 == y);
                }
                if exists|k: int| 0 <= k < self.data@.len() && self.data@[k].strike_price as i128 == y {
                    let j = choose|j: int| 0 <= j < self.data@.len() && self.data@[j].strike_price as i128 == y;
                    assert(strikes@[j] == y);
                    assert(strikes@.contains(y));
                }
            }
            assert(sorted_strikes(self.data@, u@));
            assert forall|j: int| 0 <= j < u@.len() implies i64::MIN <= #[trigger] u@[j] <= i64::MAX by {
                assert(u@.contains(u@[j]));
                let m = choose|m: int| 0 <= m < self.data@.len() && self.data@[m].strike_price as i128 == u@[j];
            }
        }
        let mut best: Option<i128> = None;
        let mut w: usize = 1;
        while w < u.len()
            invariant
                1 <= w,
                w <= u@.len() || w == 1,
                crate::strategy::strictly_increasing(u@),
                forall|j: int| 0 <= j < u@.len() ==> i64::MIN <= #[trigger] u@[j] <= i64::MAX,
                match best {
                    Some(g) => smallest_gap_upto(u@, w as nat) == Some(g as int),
                    None => smallest_gap_upto(u@, w as nat) is None,
                },
            decreases u@.len() - w,
        {
            let g = u[w] - u[w - 1];
            let better = match best {
                None => true,
                Some(b) => g < b,
            };
            if g > 100 && better {
                best = Some(g);
            }
            w += 1;
        }
        proof {
            if u@.len() == 0 {
                assert(smallest_gap_upto(u@, u@.len()) is None);
            }
        }
        let chain_step: i128 = if self.data.len() > 1 {
            match best {
                Some(g) => g,
                None => 5000,
            }
        } else {
            5000
        };
        proof {
            assert(u@.len() > 0 ==> w == u@.len());
            assert(u@.len() == 0 ==> smallest_gap_upto(u@, w as nat) == smallest_gap_upto(u@, u@.len()));
            assert(smallest_gap_upto(u@, w as nat) == smallest_gap_upto(u@, u@.len()));
            match best {
                Some(g) => assert(smallest_gap_upto(u@, u@.len()) == Some(g as int)),
                None => assert(smallest_gap_upto(u@, u@.len()) is None),
            }
            assert(chain_step == chain_step_of(self.data@, u@));
            assert forall|v: Seq<i128>| sorted_strikes(self.data@, v) implies chain_step == chain_step_of(self.data@, v) by {
                assert forall|y: i128| #![trigger u@.contains(y)] #![trigger v.contains(y)] u@.contains(y) <==> v.contains(y) by {
                    assert(u@.contains(y) <==> exists|k: int| 0 <= k < self.data@.len() && self.data@[k].strike_price as i128 == y);
                    assert(v.contains(y) <==> exists|k: int| 0 <= k < self.data@.len() && self.data@[k].strike_price as i128 == y);
                }
                crate::strategy::lemma_sorted_distinct_unique(u@, v);
            }
        }
        let r = StrategyInputs { spot_price, days_to_expiry, atm_iv, chain_step };
        proof {
            law_chain_step_is_smallest_gap(self.data@, today, r);
        }
        r
    }

    /// The inputs of the strategy analysis for the chain on screen, with
    /// the days to expiry counted from today on this machine's clock.
    pub fn strategy_inputs_now(&self) -> (r: StrategyInputs)
        ensures
            exists|today: Date| valid_date(today) && #[trigger] inputs_match(self.data@, today, r),
            step_is_smallest_gap(self.data@, r.chain_step as int),
    {
        let today = local_today();
        let r = self.strategy_inputs(today);
        assert(valid_date(today) && inputs_match(self.data@, today, r));
        r
    }

    /// Moves to the next later expiry; true when it moved.
    pub fn next_expiry(&mut self) -> (moved: bool)
        ensures
            moved == next_expiry_moves(old(self)@),
            final(self)@ == next_expiry_view(old(self)@),
            final(self).selected_positions@ == old(self).selected_positions@,
    {
        if self.available_expiries.len() == 0 {
            return false;
        }
        if self.current_expiry_index < self.available_expiries.len() - 1 {
            self.current_expiry_index += 1;
            return true;
        }
        false
    }

    /// Moves to the next earlier expiry; true when it moved.
    pub fn previous_expiry(&mut self) -> (moved: bool)
        ensures
            moved == previous_expiry_moves(old(self)@),
            final(self)@ == previous_expiry_view(old(self)@),
            final(self).selected_positions@ == old(self).selected_positions@,
    {
        if self.available_expiries.len() == 0 {
            return false;
        }
        if self.current_expiry_index > 0 {
            self.current_expiry_index -= 1;
            return true;
        }
        false
    }
}

// ------------------------------------------------------------------------
// Laws.

/// Switching the column twice brings the cursor back to its column.
pub proof fn law_toggle_column_twice(v: AppView)
    ensures
        toggle_column_view(toggle_column_view(v)) == v,
{
    assert(toggle_column_view(toggle_column_view(v)) =~= v);
}

/// Showing and hiding the help gives back the screen as it was.
pub proof fn law_toggle_help_twice(v: AppView)
    ensures
        toggle_help_view(toggle_help_view(v)) == v,
{
    assert(toggle_help_view(toggle_help_view(v)) =~= v);
}

/// Selecting the cell under the cursor twice leaves the selection as it
/// was.
pub proof fn law_toggle_selection_twice(v: AppView)
    ensures
        toggle_selection_view(toggle_selection_view(v)) == v,
{
    if v.data.len() > 0 {
        let key = cursor_key(v);
        if v.selection.contains(key) {
            assert(v.selection.remove(key).insert(key) =~= v.selection);
        } else {
            assert(v.selection.insert(key).remove(key) =~= v.selection);
        }
    }
    assert(toggle_selection_view(toggle_selection_view(v)) =~= v);
}

/// A step down the chain followed by a step up comes back to the same row,
/// and so does a step up followed by a step down, whenever the first step
/// moved and the cursor is on a row.
pub proof fn law_row_steps_undo(v: AppView)
    requires
        0 <= v.selected_row < v.data.len(),
    ensures
        next_row_view(v) != v ==> previous_row_view(next_row_view(v)) == v,
        previous_row_view(v) != v ==> next_row_view(previous_row_view(v)) == v,
{
    if next_row_view(v) != v {
        assert(previous_row_view(next_row_view(v)) =~= v);
    }
    if previous_row_view(v) != v {
        assert(next_row_view(previous_row_view(v)) =~= v);
    }
}

/// Moving to the next expiry and back, or to the previous one and back,
/// returns to the expiry shown, whenever the first move happened.
pub proof fn law_expiry_steps_undo(v: AppView)
    requires
        0 <= v.current_expiry_index,
        v.available_expiries.len() > 0 ==> v.current_expiry_index < v.available_expiries.len(),
    ensures
        next_expiry_moves(v) ==> previous_expiry_view(next_expiry_view(v)) == v,
        previous_expiry_moves(v) ==> next_expiry_view(previous_expiry_view(v)) == v,
{
    if next_expiry_moves(v) {
        assert(previous_expiry_view(next_expiry_view(v)) =~= v);
    }
    if previous_expiry_moves(v) {
        assert(next_expiry_view(previous_expiry_view(v)) =~= v);
    }
}

/// Picking the next template and then the previous one (or the other way
/// round) comes back to the template picked, the wrap-around included.
pub proof fn law_strategy_steps_undo(v: AppView)
    requires
        v.strategies.len() > 0,
        0 <= v.selected_strategy < v.strategies.len(),
    ensures
        previous_strategy_view(next_strategy_view(v)).selected_strategy == v.selected_strategy,
        next_strategy_view(previous_strategy_view(v)).selected_strategy == v.selected_strategy,
{
}

/// A move that would take the cursor off the chain changes nothing.
pub proof fn law_move_off_chain_is_ignored(v: AppView, delta: int)
    requires
        !(0 <= v.selected_row + delta < v.data.len()),
    ensures
        move_position_row_view(v, delta) == v,
{
}

/// After a trade every selected key names a leg still held.
pub proof fn law_trade_keeps_selection_held(v: AppView, is_buy: bool)
    requires
        v.data.len() > 0,
    ensures
        forall|k: SelectionKey|
            #[trigger] handle_trade_view(v, is_buy).selection.contains(k) ==> holds_leg(
                handle_trade_view(v, is_buy).positions,
                k,
            ),
{
}

/// After the leg under the cursor is deleted, no leg is held there and the
/// cell is not selected.
pub proof fn law_delete_clears_cell(v: AppView)
    requires
        v.data.len() > 0,
    ensures
        !holds_leg(delete_position_view(v).positions, cursor_key(v)),
        !delete_position_view(v).selection.contains(cursor_key(v)),
{
    let key = cursor_key(v);
    crate::portfolio::law_remove_clears_leg(v.positions, key.0 as int, key.1);
}

/// What the shortcuts do in the option chain, with the help hidden and the
/// cursor on a row of the chain. Delete and Backspace leave no leg held at
/// the cursor's strike and side and unselect that cell; the space bar flips
/// whether the cell is selected; 'b' and 's' leave a bought, respectively
/// sold, leg at the cell (when the legs held are distinct and each has a
/// quantity, and the trade fits), and where no leg was held there they
/// append one lot at the last traded price of the cell's side (0 when it is
/// not quoted); Down and Up move the cursor one row within the chain; 'q'
/// quits; Tab moves to the strategy list; Shift with Right or Left moves to
/// the next or previous expiry when there is one.
pub proof fn law_option_chain_keys(v: AppView, key: KeyInput)
    requires
        !v.show_help,
        v.active_focus == Focus::OptionChain,
        0 <= v.selected_row < v.data.len(),
    ensures
        ({
            let w = action_view(v, key_action(false, Focus::OptionChain, key)).0;
            let strike = v.data[v.selected_row].strike_price;
            let kind = if v.selected_column == ColumnSelection::Call {
                OptionType::Call
            } else {
                OptionType::Put
            };
            let cell = (strike, kind);
            &&& !key.shift && (key.code == KeyCode::Delete || key.code == KeyCode::Backspace) ==> (
            forall|i: int|
                0 <= i < w.positions.len() ==> !is_leg(#[trigger] w.positions[i], strike as int, kind))
                && !w.selection.contains(cell)
            &&& !key.shift && key.code == KeyCode::Char(' ') ==> (w.selection.contains(cell)
                <==> !v.selection.contains(cell))
            &&& !key.shift && (key.code == KeyCode::Char('b') || key.code == KeyCode::Char('s'))
                && (forall|k: int| 0 <= k < v.positions.len() ==> (#[trigger] v.positions[k]).qty != 0)
                && distinct_legs(v.positions) && trade_fits(
                v.positions,
                strike,
                kind,
                key.code == KeyCode::Char('b'),
            ) ==> exists|i: int|
                0 <= i < w.positions.len() && is_leg(#[trigger] w.positions[i], strike as int, kind) && (
                if key.code == KeyCode::Char('b') {
                    w.positions[i].qty > 0
                } else {
                    w.positions[i].qty < 0
                })
            &&& !key.shift && (key.code == KeyCode::Char('b') || key.code == KeyCode::Char('s'))
                && (forall|k: int| 0 <= k < v.positions.len() ==> (#[trigger] v.positions[k]).qty != 0)
                && (forall|k: int|
                0 <= k < v.positions.len() ==> !is_leg(#[trigger] v.positions[k], strike as int, kind))
                ==> w.positions == v.positions.push(
                Position {
                    strike,
                    kind,
                    qty: if key.code == KeyCode::Char('b') { 1i32 } else { -1i32 },
                    entry_price: match side_contract(
                        v.data[v.selected_row],
                        v.selected_column == ColumnSelection::Call,
                    ) {
                        Some(c) => c.market_data.ltp,
                        None => 0,
                    },
                },
            )
            &&& !key.shift && key.code == KeyCode::Down ==> w.selected_row == if v.selected_row + 1
                < v.data.len() {
                v.selected_row + 1
            } else {
                v.selected_row
            }
            &&& !key.shift && key.code == KeyCode::Up ==> w.selected_row == if v.selected_row > 0 {
                v.selected_row - 1
            } else {
                v.selected_row
            }
            &&& !key.shift && key.code == KeyCode::Char('q') ==> w.should_quit
            &&& !key.shift && key.code == KeyCode::Tab ==> w.active_focus == Focus::Strategies
            &&& key.shift && key.code == KeyCode::Right ==> w.current_expiry_index == if 0
                < v.available_expiries.len() && v.current_expiry_index + 1 < v.available_expiries.len() {
                v.current_expiry_index + 1
            } else {
                v.current_expiry_index
            }
            &&& key.shift && key.code == KeyCode::Left ==> w.current_expiry_index == if 0
                < v.available_expiries.len() && v.current_expiry_index > 0 {
                v.current_expiry_index - 1
            } else {
                v.current_expiry_index
            }
        }),
{
    let a = key_action(false, Focus::OptionChain, key);
    let key_c = cursor_key(v);
    if !key.shift && (key.code == KeyCode::Delete || key.code == KeyCode::Backspace) {
        law_delete_clears_cell(v);
        let w = delete_position_view(v);
        assert forall|i: int| 0 <= i < w.positions.len() implies !is_leg(
            #[trigger] w.positions[i],
            key_c.0 as int,
            key_c.1,
        ) by {
            if is_leg(w.positions[i], key_c.0 as int, key_c.1) {
                assert(holds_leg(w.positions, key_c));
            }
        }
    }
    assert(key_c.1 == if v.selected_column == ColumnSelection::Call {
        OptionType::Call
    } else {
        OptionType::Put
    });
    if !key.shift && (key.code == KeyCode::Char('b') || key.code == KeyCode::Char('s')) && (forall|k: int|
        0 <= k < v.positions.len() ==> (#[trigger] v.positions[k]).qty != 0) && (forall|k: int|
        0 <= k < v.positions.len() ==> !is_leg(#[trigger] v.positions[k], key_c.0 as int, key_c.1)) {
        let b = key.code == KeyCode::Char('b');
        crate::portfolio::law_trade_opens_new_leg(v.positions, key_c.0, key_c.1, cursor_price(v), b);
        assert(a == Action::Trade(b));
    }
    if !key.shift && (key.code == KeyCode::Char('b') || key.code == KeyCode::Char('s')) && (forall|k: int|
        0 <= k < v.positions.len() ==> (#[trigger] v.positions[k]).qty != 0) && distinct_legs(
        v.positions,
    ) && trade_fits(v.positions, key_c.0, key_c.1, key.code == KeyCode::Char('b')) {
        let b = key.code == KeyCode::Char('b');
        crate::portfolio::law_trade_keeps_legs_distinct(v.positions, key_c.0, key_c.1, cursor_price(v), b);
        assert(a == Action::Trade(b));
        let r = after_trade(v.positions, key_c.0, key_c.1, cursor_price(v), b);
        assert(action_view(v, a).0.positions == r);
        let k = choose|k: int|
            0 <= k < r.len() && is_leg(#[trigger] r[k], key_c.0 as int, key_c.1) && (b ==> r[k].qty > 0)
                && (!b ==> r[k].qty < 0);
        assert(is_leg(r[k], key_c.0 as int, key_c.1));
    }
}

/// Whatever chain arrives, the cursor is on it afterwards.
pub proof fn law_receive_chain_keeps_cursor_on_chain(v: AppView, new_data: Seq<OptionData>)
    requires
        v.selected_row >= 0,
    ensures
        row_ok(receive_chain_view(v, new_data)),
        receive_chain_view(v, new_data).data == new_data,
{
    if new_data.len() > 0 {
        lemma_closest_to_upto(new_data, chain_spot(new_data), new_data.len());
    }
}

/// The row picked as closest to the spot is the first of the closest.
proof fn lemma_closest_to_first(data: Seq<OptionData>, spot: int, n: nat)
    requires
        n <= data.len(),
    ensures
        closest_to_upto(data, spot, n) matches Some(i) ==> forall|k: int|
            0 <= k < i ==> spot_distance(data[i], spot) < spot_distance(#[trigger] data[k], spot),
    decreases n,
{
    if n > 0 {
        lemma_closest_to_first(data, spot, (n - 1) as nat);
        lemma_closest_to_upto(data, spot, (n - 1) as nat);
    }
}

/// The first chain to arrive with rows puts the cursor on the row whose
/// strike is closest to the chain's spot (the first of the closest), and
/// marks the cursor as placed; the chain shown is the new one.
pub proof fn law_receive_chain_centres_on_spot(v: AppView, new_data: Seq<OptionData>)
    requires
        !v.initial_centering_done,
        new_data.len() > 0,
    ensures
        ({
            let w = receive_chain_view(v, new_data);
            let s = new_data[0].underlying_spot_price as int;
            let c = new_data[w.selected_row].strike_price;
            &&& w.data == new_data
            &&& w.initial_centering_done
            &&& 0 <= w.selected_row < new_data.len()
            &&& forall|k: int|
                0 <= k < new_data.len() ==> abs_int(c - s) <= abs_int(#[trigger] new_data[k].strike_price - s)
            &&& forall|k: int|
                0 <= k < w.selected_row ==> abs_int(c - s) < abs_int(#[trigger] new_data[k].strike_price - s)
        }),
{
    let s = chain_spot(new_data);
    lemma_closest_to_upto(new_data, s, new_data.len());
    lemma_closest_to_first(new_data, s, new_data.len());
    let i = atm_row(new_data)->0;
    assert forall|k: int| 0 <= k < new_data.len() implies abs_int(new_data[i].strike_price - s) <= abs_int(
        #[trigger] new_data[k].strike_price - s,
    ) by {
        assert(spot_distance(new_data[i], s) <= spot_distance(new_data[k], s));
    }
    assert forall|k: int| 0 <= k < i implies abs_int(new_data[i].strike_price - s) < abs_int(
        #[trigger] new_data[k].strike_price - s,
    ) by {
        assert(spot_distance(new_data[i], s) < spot_distance(new_data[k], s));
    }
}

/// The chain lists each strike once.
pub open spec fn distinct_strikes(data: Seq<OptionData>) -> bool {
    forall|j: int, k: int|
        0 <= j < k < data.len() ==> #[trigger] data[j].strike_price != #[trigger] data[k].strike_price
}

proof fn lemma_first_near_distinct(data: Seq<OptionData>, r: int)
    requires
        distinct_strikes(data),
        0 <= r < data.len(),
    ensures
        first_near(data, data[r].strike_price as int, 1) == Some(r),
{
    lemma_first_near_upto(data, data[r].strike_price as int, 1, data.len());
    match first_near(data, data[r].strike_price as int, 1) {
        Some(j) => {
            if j < r {
                assert(data[j].strike_price != data[r].strike_price);
            } else if j > r {
                assert(data[r].strike_price != data[j].strike_price);
            }
        },
        None => {
            assert(!(-1 < data[r].strike_price - data[r].strike_price < 1));
        },
    }
}

proof fn lemma_first_leg_unique(ps: Seq<Position>, strike: int, kind: OptionType, i: int)
    requires
        0 <= i < ps.len(),
        is_leg(ps[i], strike, kind),
        forall|k: int| 0 <= k < ps.len() && k != i ==> !is_leg(#[trigger] ps[k], strike, kind),
    ensures
        first_leg(ps, strike, kind) == Some(i),
{
    lemma_first_leg_upto(ps, strike, kind, ps.len());
}

/// With nothing selected, moving the leg under the cursor one row down the
/// chain and then one row up brings the cursor and the leg back to their
/// strike, the leg priced at that row's last traded price, and leaves every
/// other leg and the selection as they were. This holds when the chain
/// lists each strike once and no other leg of that kind is held on the row
/// below.
pub proof fn law_move_down_then_up(v: AppView, i: int)
    requires
        0 <= v.selected_row,
        v.selected_row + 1 < v.data.len(),
        distinct_strikes(v.data),
        v.selection == Set::<SelectionKey>::empty(),
        first_leg(v.positions, cursor_key(v).0 as int, cursor_key(v).1) == Some(i),
        forall|k: int|
            0 <= k < v.positions.len() && k != i ==> !is_leg(
                #[trigger] v.positions[k],
                v.data[v.selected_row + 1].strike_price as int,
                column_kind(v.selected_column),
            ),
    ensures
        move_position_row_view(move_position_row_view(v, 1), -1) == (AppView {
            positions: v.positions.update(
                i,
                Position {
                    entry_price: ltp_or_zero(
                        side_contract(v.data[v.selected_row], v.positions[i].kind == OptionType::Call),
                    ),
                    ..v.positions[i]
                },
            ),
            ..v
        }),
{
    let r = v.selected_row;
    let ps = v.positions;
    let data = v.data;
    let kind = column_kind(v.selected_column);
    lemma_first_leg_upto(ps, cursor_key(v).0 as int, kind, ps.len());
    assert(is_leg(ps[i], data[r].strike_price as int, kind));
    let leg = ps[i];
    // Down one row.
    lemma_first_near_distinct(data, r);
    let s1 = data[r + 1].strike_price;
    let p1 = ltp_or_zero(side_contract(data[r + 1], leg.kind == OptionType::Call));
    let idxs1 = seq![i];
    assert(legs_to_move(v) == idxs1);
    assert(idxs1.drop_last() =~= Seq::<int>::empty());
    assert(plan_move(data, ps, i, 1) == Some((i, s1, p1)));
    let m1 = seq![(i, s1, p1)];
    assert(idxs1.last() == i);
    assert(plan_moves(data, ps, Seq::<int>::empty(), 1) == Some(Seq::<(int, i64, i64)>::empty()));
    assert(plan_moves(data, ps, idxs1, 1) == Some(Seq::<(int, i64, i64)>::empty().push((i, s1, p1))));
    assert(Seq::<(int, i64, i64)>::empty().push((i, s1, p1)) =~= m1);
    assert(m1.drop_last() =~= Seq::<(int, i64, i64)>::empty());
    let ps1 = ps.update(i, Position { strike: s1, entry_price: p1, ..leg });
    assert(m1.last() == (i, s1, p1));
    assert(apply_moves(ps, v.selection, Seq::<(int, i64, i64)>::empty()) == (ps, v.selection));
    assert(!v.selection.contains((leg.strike, leg.kind)));
    assert(apply_moves(ps, v.selection, m1) == (ps1, v.selection));
    let v1 = move_position_row_view(v, 1);
    assert(v1 == AppView { selected_row: r + 1, positions: ps1, selection: v.selection, ..v });
    // Up one row.
    assert forall|k: int| 0 <= k < ps1.len() && k != i implies !is_leg(
        #[trigger] ps1[k],
        s1 as int,
        kind,
    ) by {
        assert(ps1[k] == ps[k]);
    }
    lemma_first_leg_unique(ps1, s1 as int, kind, i);
    assert(cursor_key(v1) == (s1, kind));
    assert(legs_to_move(v1) == idxs1);
    lemma_first_near_distinct(data, r + 1);
    let s0 = data[r].strike_price;
    let p0 = ltp_or_zero(side_contract(data[r], leg.kind == OptionType::Call));
    assert(plan_move(data, ps1, i, -1) == Some((i, s0, p0)));
    let m2 = seq![(i, s0, p0)];
    assert(plan_moves(data, ps1, Seq::<int>::empty(), -1) == Some(Seq::<(int, i64, i64)>::empty()));
    assert(plan_moves(data, ps1, idxs1, -1) == Some(Seq::<(int, i64, i64)>::empty().push((i, s0, p0))));
    assert(Seq::<(int, i64, i64)>::empty().push((i, s0, p0)) =~= m2);
    assert(m2.drop_last() =~= Seq::<(int, i64, i64)>::empty());
    let ps2 = ps1.update(i, Position { strike: s0, entry_price: p0, ..ps1[i] });
    assert(m2.last() == (i, s0, p0));
    assert(apply_moves(ps1, v.selection, Seq::<(int, i64, i64)>::empty()) == (ps1, v.selection));
    assert(!v.selection.contains((ps1[i].strike, ps1[i].kind)));
    assert(apply_moves(ps1, v.selection, m2) == (ps2, v.selection));
    let target = ps.update(i, Position { entry_price: p0, ..leg });
    assert(ps2 =~= target);
    assert(move_position_row_view(v1, -1) =~= AppView { positions: target, ..v });
}

/// The chain lists its strikes in increasing order.
pub open spec fn strikes_increasing(data: Seq<OptionData>) -> bool {
    forall|j: int, k: int|
        0 <= j < k < data.len() ==> #[trigger] data[j].strike_price < #[trigger] data[k].strike_price
}

proof fn lemma_selected_leg_indices_range(ps: Seq<Position>, sel: Set<SelectionKey>, n: nat)
    requires
        n <= ps.len(),
    ensures
        forall|k: int|
            0 <= k < selected_leg_indices(ps, sel, n).len() ==> 0 <= #[trigger] selected_leg_indices(
                ps,
                sel,
                n,
            )[k] < n,
    decreases n,
{
    if n > 0 {
        lemma_selected_leg_indices_range(ps, sel, (n - 1) as nat);
        let r = selected_leg_indices(ps, sel, (n - 1) as nat);
        assert forall|k: int| 0 <= k < r.len() implies r.push(n - 1)[k] == r[k] by {}
    }
}

proof fn lemma_legs_to_move_range(v: AppView)
    requires
        v.selection == Set::<SelectionKey>::empty() ==> 0 <= v.selected_row < v.data.len(),
    ensures
        forall|k: int| 0 <= k < legs_to_move(v).len() ==> 0 <= #[trigger] legs_to_move(v)[k] < v.positions.len(),
{
    if v.selection == Set::<SelectionKey>::empty() {
        lemma_first_leg_upto(v.positions, cursor_key(v).0 as int, cursor_key(v).1, v.positions.len());
    } else {
        lemma_selected_leg_indices_range(v.positions, v.selection, v.positions.len());
    }
}

proof fn lemma_plan_moves_each(data: Seq<OptionData>, ps: Seq<Position>, idxs: Seq<int>, delta: int)
    ensures
        plan_moves(data, ps, idxs, delta) matches Some(m) ==> m.len() == idxs.len() && forall|k: int|
            0 <= k < m.len() ==> plan_move(data, ps, idxs[k], delta) == Some(#[trigger] m[k]),
    decreases idxs.len(),
{
    if idxs.len() > 0 {
        lemma_plan_moves_each(data, ps, idxs.drop_last(), delta);
    }
}

proof fn lemma_plan_move_direction(data: Seq<OptionData>, ps: Seq<Position>, i: int, delta: int)
    requires
        strikes_increasing(data),
        plan_move(data, ps, i, delta) is Some,
    ensures
        ({
            let c = plan_move(data, ps, i, delta)->Some_0;
            &&& c.0 == i
            &&& delta > 0 ==> c.1 > ps[i].strike
            &&& delta < 0 ==> c.1 < ps[i].strike
            &&& delta == 0 ==> c.1 == ps[i].strike
        }),
{
    lemma_first_near_upto(data, ps[i].strike as int, 1, data.len());
}

proof fn lemma_apply_moves_legs(ps: Seq<Position>, sel: Set<SelectionKey>, moves: Seq<(int, i64, i64)>)
    requires
        forall|k: int| 0 <= k < moves.len() ==> 0 <= (#[trigger] moves[k]).0 < ps.len(),
    ensures
        ({
            let r = apply_moves(ps, sel, moves).0;
            &&& r.len() == ps.len()
            &&& forall|j: int|
                0 <= j < ps.len() ==> (#[trigger] r[j]).kind == ps[j].kind && r[j].qty == ps[j].qty && (
                r[j].strike == ps[j].strike || exists|k: int|
                    0 <= k < moves.len() && moves[k].0 == j && r[j].strike == moves[k].1)
        }),
    decreases moves.len(),
{
    if moves.len() > 0 {
        let prev_moves = moves.drop_last();
        assert forall|k: int| 0 <= k < prev_moves.len() implies 0 <= (#[trigger] prev_moves[k]).0
            < ps.len() by {
            assert(prev_moves[k] == moves[k]);
        }
        lemma_apply_moves_legs(ps, sel, prev_moves);
        let prev = apply_moves(ps, sel, prev_moves).0;
        let r = apply_moves(ps, sel, moves).0;
        let m = moves.last();
        assert forall|j: int| 0 <= j < ps.len() implies (#[trigger] r[j]).kind == ps[j].kind && r[j].qty
            == ps[j].qty && (r[j].strike == ps[j].strike || exists|k: int|
            0 <= k < moves.len() && moves[k].0 == j && r[j].strike == moves[k].1) by {
            if j == m.0 {
                assert(moves[moves.len() - 1].0 == j);
            } else {
                assert(r[j] == prev[j]);
                if prev[j].strike != ps[j].strike {
                    let k = choose|k: int|
                        0 <= k < prev_moves.len() && prev_moves[k].0 == j && prev[j].strike == prev_moves[k].1;
                    assert(moves[k] == prev_moves[k]);
                }
            }
        }
    }
}

proof fn lemma_selected_leg_indices_increasing(ps: Seq<Position>, sel: Set<SelectionKey>, n: nat)
    requires
        n <= ps.len(),
    ensures
        forall|a: int, b: int|
            0 <= a < b < selected_leg_indices(ps, sel, n).len() ==> #[trigger] selected_leg_indices(
                ps,
                sel,
                n,
            )[a] < #[trigger] selected_leg_indices(ps, sel, n)[b],
    decreases n,
{
    if n > 0 {
        lemma_selected_leg_indices_increasing(ps, sel, (n - 1) as nat);
        lemma_selected_leg_indices_range(ps, sel, (n - 1) as nat);
        let r = selected_leg_indices(ps, sel, (n - 1) as nat);
        assert forall|k: int| 0 <= k < r.len() implies r.push(n - 1)[k] == r[k] by {}
    }
}

proof fn lemma_apply_moves_at(ps: Seq<Position>, sel: Set<SelectionKey>, moves: Seq<(int, i64, i64)>, k: int)
    requires
        0 <= k < moves.len(),
        forall|j: int| 0 <= j < moves.len() ==> 0 <= (#[trigger] moves[j]).0 < ps.len(),
        forall|a: int, b: int|
            0 <= a < moves.len() && 0 <= b < moves.len() && a != b ==> (#[trigger] moves[a]).0 != (
            #[trigger] moves[b]).0,
    ensures
        apply_moves(ps, sel, moves).0[moves[k].0].strike == moves[k].1,
    decreases moves.len(),
{
    let pre = moves.drop_last();
    assert forall|j: int| 0 <= j < pre.len() implies 0 <= (#[trigger] pre[j]).0 < ps.len() by {
        assert(pre[j] == moves[j]);
    }
    lemma_apply_moves_len(ps, sel, pre);
    if k < moves.len() - 1 {
        assert forall|a: int, b: int|
            0 <= a < pre.len() && 0 <= b < pre.len() && a != b implies (#[trigger] pre[a]).0 != (
            #[trigger] pre[b]).0 by {
            assert(pre[a] == moves[a] && pre[b] == moves[b]);
        }
        lemma_apply_moves_at(ps, sel, pre, k);
        assert(pre[k] == moves[k]);
        assert(moves[moves.len() - 1].0 != moves[k].0);
    }
}

/// On a chain sorted by strike, Shift+Down never lowers the strike of a
/// leg and Shift+Up never raises one: every leg keeps its place in the
/// list, its kind and its quantity, and either stays or moves in the
/// direction of the key; when the legs move, each moved leg moves strictly
/// in that direction.
pub proof fn law_move_follows_direction(v: AppView, delta: int)
    requires
        strikes_increasing(v.data),
        0 <= v.selected_row,
        move_ok(v, delta),
    ensures
        ({
            let r = move_position_row_view(v, delta);
            &&& r.positions.len() == v.positions.len()
            &&& forall|j: int|
                0 <= j < v.positions.len() ==> (#[trigger] r.positions[j]).kind == v.positions[j].kind
                    && r.positions[j].qty == v.positions[j].qty && (delta > 0 ==> r.positions[j].strike
                    >= v.positions[j].strike) && (delta < 0 ==> r.positions[j].strike
                    <= v.positions[j].strike)
            &&& (0 <= v.selected_row + delta < v.data.len() && plan_moves(
                v.data,
                v.positions,
                legs_to_move(v),
                delta,
            ) is Some) ==> forall|k: int|
                0 <= k < legs_to_move(v).len() ==> (delta > 0 ==> r.positions[legs_to_move(
                    v,
                )[k]].strike > v.positions[#[trigger] legs_to_move(v)[k]].strike) && (delta < 0
                    ==> r.positions[legs_to_move(v)[k]].strike < v.positions[legs_to_move(
                    v,
                )[k]].strike)
        }),
{
    let target = v.selected_row + delta;
    if v.data.len() > 0 && 0 <= target < v.data.len() {
        let idxs = legs_to_move(v);
        lemma_legs_to_move_range(v);
        if idxs.len() > 0 {
            lemma_plan_moves_each(v.data, v.positions, idxs, delta);
            if let Some(m) = plan_moves(v.data, v.positions, idxs, delta) {
                assert forall|k: int| 0 <= k < m.len() implies 0 <= (#[trigger] m[k]).0
                    < v.positions.len() && (delta > 0 ==> m[k].1 > v.positions[m[k].0].strike) && (
                delta < 0 ==> m[k].1 < v.positions[m[k].0].strike) by {
                    assert(plan_move(v.data, v.positions, idxs[k], delta) == Some(m[k]));
                    lemma_plan_move_direction(v.data, v.positions, idxs[k], delta);
                }
                lemma_apply_moves_legs(v.positions, v.selection, m);
                let r = apply_moves(v.positions, v.selection, m).0;
                assert forall|j: int| 0 <= j < v.positions.len() implies (delta > 0 ==> (
                #[trigger] r[j]).strike >= v.positions[j].strike) && (delta < 0 ==> r[j].strike
                    <= v.positions[j].strike) by {
                    if r[j].strike != v.positions[j].strike {
                        let k = choose|k: int| 0 <= k < m.len() && m[k].0 == j && r[j].strike == m[k].1;
                        assert(0 <= m[k].0 < v.positions.len());
                    }
                }
                // The moved legs are distinct, so each lands where it was planned.
                if v.selection == Set::<SelectionKey>::empty() {
                    assert(idxs.len() == 1);
                } else {
                    lemma_selected_leg_indices_increasing(v.positions, v.selection, v.positions.len());
                }
                assert forall|k: int| 0 <= k < m.len() implies (#[trigger] m[k]).0 == idxs[k] by {
                    assert(plan_move(v.data, v.positions, idxs[k], delta) == Some(m[k]));
                    lemma_plan_move_direction(v.data, v.positions, idxs[k], delta);
                }
                assert forall|a: int, b: int|
                    0 <= a < m.len() && 0 <= b < m.len() && a != b implies (#[trigger] m[a]).0 != (
                    #[trigger] m[b]).0 by {
                    assert(m[a].0 == idxs[a] && m[b].0 == idxs[b]);
                    if v.selection != Set::<SelectionKey>::empty() {
                        if a < b {
                            assert(idxs[a] < idxs[b]);
                        } else {
                            assert(idxs[b] < idxs[a]);
                        }
                    }
                }
                assert forall|k: int| 0 <= k < idxs.len() implies (delta > 0 ==> r[idxs[k]].strike
                    > v.positions[#[trigger] idxs[k]].strike) && (delta < 0 ==> r[idxs[k]].strike
                    < v.positions[idxs[k]].strike) by {
                    lemma_apply_moves_at(v.positions, v.selection, m, k);
                    assert(m[k].0 == idxs[k]);
                }
            }
        }
    }
}

/// The key a planned move takes a leg from.
pub open spec fn move_from_key(ps: Seq<Position>, mv: (int, i64, i64)) -> SelectionKey {
    (ps[mv.0].strike, ps[mv.0].kind)
}

/// The key a planned move takes a leg to.
pub open spec fn move_to_key(ps: Seq<Position>, mv: (int, i64, i64)) -> SelectionKey {
    (mv.1, ps[mv.0].kind)
}

/// No two moved legs share a key, and no leg lands on the key that a leg
/// moved after it leaves.
pub open spec fn keys_kept_apart(ps: Seq<Position>, m: Seq<(int, i64, i64)>) -> bool {
    &&& forall|a: int, b: int|
        0 <= a < m.len() && 0 <= b < m.len() && a != b ==> move_from_key(ps, #[trigger] m[a])
            != move_from_key(ps, #[trigger] m[b])
    &&& forall|a: int, b: int|
        0 <= a < b < m.len() ==> move_to_key(ps, #[trigger] m[a]) != move_from_key(ps, #[trigger] m[b])
}

/// The keys the first `t` moves leave.
pub open spec fn keys_left(ps: Seq<Position>, m: Seq<(int, i64, i64)>, t: int) -> Set<SelectionKey> {
    Set::new(|key: SelectionKey| exists|k: int| 0 <= k < t && key == move_from_key(ps, #[trigger] m[k]))
}

/// The keys the first `t` moves reach.
pub open spec fn keys_reached(ps: Seq<Position>, m: Seq<(int, i64, i64)>, t: int) -> Set<SelectionKey> {
    Set::new(|key: SelectionKey| exists|k: int| 0 <= k < t && key == move_to_key(ps, #[trigger] m[k]))
}

proof fn lemma_apply_moves_untouched(
    ps: Seq<Position>,
    sel: Set<SelectionKey>,
    moves: Seq<(int, i64, i64)>,
    j: int,
)
    requires
        0 <= j < ps.len(),
        forall|k: int| 0 <= k < moves.len() ==> 0 <= (#[trigger] moves[k]).0 < ps.len(),
        forall|k: int| 0 <= k < moves.len() ==> (#[trigger] moves[k]).0 != j,
    ensures
        apply_moves(ps, sel, moves).0[j] == ps[j],
    decreases moves.len(),
{
    if moves.len() > 0 {
        assert forall|k: int| 0 <= k < moves.drop_last().len() implies (
        #[trigger] moves.drop_last()[k]).0 != j && 0 <= moves.drop_last()[k].0 < ps.len() by {
            assert(moves.drop_last()[k] == moves[k]);
        }
        lemma_apply_moves_untouched(ps, sel, moves.drop_last(), j);
        lemma_apply_moves_len(ps, sel, moves.drop_last());
        assert(moves[moves.len() - 1].0 != j);
    }
}

proof fn lemma_apply_moves_selection(
    ps: Seq<Position>,
    sel: Set<SelectionKey>,
    m: Seq<(int, i64, i64)>,
    t: int,
)
    requires
        0 <= t <= m.len(),
        forall|k: int| 0 <= k < m.len() ==> 0 <= (#[trigger] m[k]).0 < ps.len(),
        forall|k: int| 0 <= k < m.len() ==> sel.contains(move_from_key(ps, #[trigger] m[k])),
        keys_kept_apart(ps, m),
    ensures
        apply_moves(ps, sel, m.take(t)).1 == sel.difference(keys_left(ps, m, t)).union(
            keys_reached(ps, m, t),
        ),
    decreases t,
{
    let pre = m.take(t);
    if t == 0 {
        assert(pre =~= Seq::<(int, i64, i64)>::empty());
        assert(sel.difference(keys_left(ps, m, 0)).union(keys_reached(ps, m, 0)) =~= sel);
    } else {
        lemma_apply_moves_selection(ps, sel, m, t - 1);
        assert(pre.drop_last() =~= m.take(t - 1));
        let mv = m[t - 1];
        assert(pre.last() == mv);
        let j = mv.0;
        // The leg has not moved yet: every earlier move is of another leg.
        assert forall|k: int| 0 <= k < m.take(t - 1).len() implies (#[trigger] m.take(t - 1)[k]).0
            != j && 0 <= m.take(t - 1)[k].0 < ps.len() by {
            assert(m.take(t - 1)[k] == m[k]);
            assert(move_from_key(ps, m[k]) != move_from_key(ps, m[t - 1]));
        }
        lemma_apply_moves_untouched(ps, sel, m.take(t - 1), j);
        let prev = apply_moves(ps, sel, m.take(t - 1));
        assert(prev.0[j] == ps[j]);
        let from = move_from_key(ps, mv);
        let to = move_to_key(ps, mv);
        assert(!keys_left(ps, m, t - 1).contains(from)) by {
            if keys_left(ps, m, t - 1).contains(from) {
                let k = choose|k: int| 0 <= k < t - 1 && from == move_from_key(ps, #[trigger] m[k]);
                assert(move_from_key(ps, m[k]) != move_from_key(ps, m[t - 1]));
            }
        }
        assert(!keys_reached(ps, m, t - 1).contains(from)) by {
            if keys_reached(ps, m, t - 1).contains(from) {
                let k = choose|k: int| 0 <= k < t - 1 && from == move_to_key(ps, #[trigger] m[k]);
                assert(move_to_key(ps, m[k]) != move_from_key(ps, m[t - 1]));
            }
        }
        assert(prev.1.contains(from));
        let expected = sel.difference(keys_left(ps, m, t)).union(keys_reached(ps, m, t));
        assert(prev.1.remove(from).insert(to) =~= expected) by {
            assert forall|key: SelectionKey| #[trigger] expected.contains(key) implies prev.1.remove(
                from,
            ).insert(to).contains(key) by {
                if key != to {
                    if keys_reached(ps, m, t).contains(key) {
                        let k = choose|k: int| 0 <= k < t && key == move_to_key(ps, #[trigger] m[k]);
                        assert(k < t - 1);
                        assert(keys_reached(ps, m, t - 1).contains(key));
                        assert(key != from);
                    } else {
                        assert(sel.contains(key) && !keys_left(ps, m, t).contains(key));
                        if keys_left(ps, m, t - 1).contains(key) {
                            let k = choose|k: int| 0 <= k < t - 1 && key == move_from_key(ps, #[trigger] m[k]);
                            assert(keys_left(ps, m, t).contains(key));
                        }
                        assert(key != from) by {
                            assert(keys_left(ps, m, t).contains(from)) by {
                                assert(from == move_from_key(ps, m[t - 1]));
                            }
                        }
                    }
                } else {
                    assert(keys_reached(ps, m, t).contains(key)) by {
                        assert(to == move_to_key(ps, m[t - 1]));
                    }
                }
            }
            assert forall|key: SelectionKey| #[trigger] prev.1.remove(from).insert(to).contains(key)
                implies expected.contains(key) by {
                if key == to {
                    assert(to == move_to_key(ps, m[t - 1]));
                    assert(keys_reached(ps, m, t).contains(key));
                } else {
                    assert(prev.1.contains(key) && key != from);
                    if keys_reached(ps, m, t - 1).contains(key) {
                        let k = choose|k: int| 0 <= k < t - 1 && key == move_to_key(ps, #[trigger] m[k]);
                        assert(keys_reached(ps, m, t).contains(key));
                    } else {
                        assert(sel.contains(key) && !keys_left(ps, m, t - 1).contains(key));
                        if keys_left(ps, m, t).contains(key) {
                            let k = choose|k: int| 0 <= k < t && key == move_from_key(ps, #[trigger] m[k]);
                            if k < t - 1 {
                                assert(keys_left(ps, m, t - 1).contains(key));
                            }
                        }
                    }
                }
            }
        }
    }
}

proof fn lemma_selected_leg_indices_selected(ps: Seq<Position>, sel: Set<SelectionKey>, n: nat)
    requires
        n <= ps.len(),
    ensures
        forall|k: int|
            0 <= k < selected_leg_indices(ps, sel, n).len() ==> sel.contains(
                (
                    ps[#[trigger] selected_leg_indices(ps, sel, n)[k]].strike,
                    ps[selected_leg_indices(ps, sel, n)[k]].kind,
                ),
            ),
    decreases n,
{
    if n > 0 {
        lemma_selected_leg_indices_selected(ps, sel, (n - 1) as nat);
        let r = selected_leg_indices(ps, sel, (n - 1) as nat);
        assert forall|k: int| 0 <= k < r.len() implies r.push(n - 1)[k] == r[k] by {}
    }
}

/// With legs selected, a move carries the selection along: the keys the
/// moved legs leave are dropped and the keys they reach are selected,
/// every other selected key stays. This holds when the moved legs keep
/// their keys apart (see `keys_kept_apart`).
pub proof fn law_move_carries_selection(v: AppView, delta: int)
    requires
        0 <= v.selected_row + delta < v.data.len(),
        v.selection != Set::<SelectionKey>::empty(),
        plan_moves(v.data, v.positions, legs_to_move(v), delta) matches Some(m) && keys_kept_apart(
            v.positions,
            m,
        ),
    ensures
        ({
            let m = plan_moves(v.data, v.positions, legs_to_move(v), delta)->Some_0;
            move_position_row_view(v, delta).selection == v.selection.difference(
                keys_left(v.positions, m, m.len() as int),
            ).union(keys_reached(v.positions, m, m.len() as int))
        }),
{
    let idxs = legs_to_move(v);
    let m = plan_moves(v.data, v.positions, idxs, delta)->Some_0;
    lemma_legs_to_move_range(v);
    lemma_plan_moves_each(v.data, v.positions, idxs, delta);
    lemma_selected_leg_indices_selected(v.positions, v.selection, v.positions.len());
    assert forall|k: int| 0 <= k < m.len() implies 0 <= (#[trigger] m[k]).0 < v.positions.len()
        && v.selection.contains(move_from_key(v.positions, m[k])) by {
        assert(plan_move(v.data, v.positions, idxs[k], delta) == Some(m[k]));
        lemma_first_near_upto(v.data, v.positions[idxs[k]].strike as int, 1, v.data.len());
        assert(m[k].0 == idxs[k]);
    }
    lemma_apply_moves_selection(v.positions, v.selection, m, m.len() as int);
    assert(m.take(m.len() as int) =~= m);
    if idxs.len() == 0 {
        assert(m.len() == 0);
        assert(v.selection.difference(keys_left(v.positions, m, 0)).union(keys_reached(v.positions, m, 0))
            =~= v.selection);
    }
}

/// Whatever key is pressed, a cursor that was on the chain stays on it.
pub proof fn law_keys_keep_cursor_on_chain(v: AppView, key: KeyInput)
    requires
        row_ok(v),
        v.selected_row >= 0,
    ensures
        ({
            let r = action_view(v, key_action(v.show_help, v.active_focus, key)).0;
            row_ok(r) && r.selected_row >= 0
        }),
{
}

} // verus!
