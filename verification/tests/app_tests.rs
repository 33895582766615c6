use trakbit::app::{decide_key, Action, App, ColumnSelection, Focus, KeyCode, KeyInput};
use trakbit::calendar::Date;
use trakbit::model::{MarketData, OptionContract, OptionData, OptionGreeks};
use trakbit::strategy::{OptionType, Strategy};

fn create_mock_data() -> Vec<OptionData> {
    let mut data = Vec::new();
    // Strikes: 100, 105, 110, 115, 120 (in hundredths)
    for i in 0..5 {
        data.push(OptionData {
            expiry: "2023-01-01".to_string(),
            strike_price: 10000 + i * 500,
            underlying_key: "NIFTY".to_string(),
            underlying_spot_price: 10000,
            call_options: None,
            put_options: None,
        });
    }
    data
}

fn contract(key: &str, ltp: i64, iv: i64) -> Option<OptionContract> {
    Some(OptionContract {
        instrument_key: key.to_string(),
        market_data: MarketData { ltp, oi: 0, bid_price: ltp - 50, ask_price: ltp + 50 },
        option_greeks: Some(OptionGreeks { delta: 0, iv }),
    })
}

fn day(year: i32, month: u32, d: u32) -> Date {
    Date { year, month, day: d }
}

fn key(code: KeyCode, shift: bool) -> KeyInput {
    KeyInput { code, shift }
}

#[test]
fn test_handle_trade_action_put() {
    let mut app = App::new();
    app.data.push(OptionData {
        expiry: "2023-01-01".to_string(),
        strike_price: 10000,
        underlying_key: "NIFTY".to_string(),
        underlying_spot_price: 10000,
        call_options: None,
        put_options: None,
    });

    app.selected_column = ColumnSelection::Put;
    app.handle_trade_action(true);

    assert_eq!(app.portfolio.positions.len(), 1);
    let pos = &app.portfolio.positions[0];
    assert_eq!(pos.strike, 10000);
    assert_eq!(pos.kind, OptionType::Put);
    assert_eq!(pos.qty, 1);
}

#[test]
fn test_multi_selection_toggle() {
    let mut app = App::new();
    app.data = create_mock_data();

    app.selected_row = 0;
    app.selected_column = ColumnSelection::Call;

    app.toggle_selection();
    assert!(app.selected_positions.contains(&(10000, OptionType::Call)));
    assert_eq!(app.selected_positions.len(), 1);

    app.toggle_selection();
    assert!(app.selected_positions.is_empty());
}

#[test]
fn test_multi_move() {
    let mut app = App::new();
    app.data = create_mock_data();

    app.selected_row = 0;
    app.selected_column = ColumnSelection::Call;
    app.handle_trade_action(true);

    app.selected_row = 2;
    app.selected_column = ColumnSelection::Put;
    app.handle_trade_action(false);

    assert_eq!(app.portfolio.positions.len(), 2);

    app.selected_row = 0;
    app.selected_column = ColumnSelection::Call;
    app.toggle_selection();

    app.selected_row = 2;
    app.selected_column = ColumnSelection::Put;
    app.toggle_selection();

    assert_eq!(app.selected_positions.len(), 2);

    app.move_position_row(1);

    let call_pos = app.portfolio.positions.iter().find(|p| p.kind == OptionType::Call).unwrap();
    assert_eq!(call_pos.strike, 10500);

    let put_pos = app.portfolio.positions.iter().find(|p| p.kind == OptionType::Put).unwrap();
    assert_eq!(put_pos.strike, 11500);

    assert!(app.selected_positions.contains(&(10500, OptionType::Call)));
    assert!(app.selected_positions.contains(&(11500, OptionType::Put)));
    assert!(!app.selected_positions.contains(&(10000, OptionType::Call)));
}

#[test]
fn test_multi_move_bounds_check() {
    let mut app = App::new();
    app.data = create_mock_data();

    app.selected_row = 4;
    app.selected_column = ColumnSelection::Call;
    app.handle_trade_action(true);
    app.toggle_selection();

    app.move_position_row(1);

    let pos = &app.portfolio.positions[0];
    assert_eq!(pos.strike, 12000);
    assert_eq!(app.selected_row, 4);
}

#[test]
fn test_new_on_keeps_expiries_from_today() {
    let app = App::new_on(day(2026, 1, 10));
    assert_eq!(app.available_expiries.len(), 9);
    assert_eq!(app.available_expiries[0], "2026-01-13");
    assert_eq!(app.available_expiries[8], "2026-12-29");
    assert_eq!(app.last_message, "Ready");
    assert_eq!(app.strategies.len(), 12);
    assert_eq!(app.strategies[0], Strategy::CallCreditSpread);

    let same_day = App::new_on(day(2026, 1, 6));
    assert_eq!(same_day.available_expiries.len(), 10);
    assert_eq!(same_day.available_expiries[0], "2026-01-06");

    let later = App::new_on(day(2027, 1, 1));
    assert!(later.available_expiries.is_empty());
}

#[test]
fn test_toggle_selection_twice_restores() {
    let mut app = App::new_on(day(2026, 1, 1));
    app.data = create_mock_data();
    app.selected_row = 3;
    app.selected_column = ColumnSelection::Put;
    app.handle_trade_action(false);
    app.toggle_selection();
    assert_eq!(app.selected_positions, vec![(11500, OptionType::Put)]);
    app.toggle_selection();
    assert!(app.selected_positions.is_empty());
}

#[test]
fn test_toggle_column_and_help_twice_restore() {
    let mut app = App::new_on(day(2026, 1, 1));
    app.toggle_column();
    assert_eq!(app.selected_column, ColumnSelection::Put);
    app.toggle_column();
    assert_eq!(app.selected_column, ColumnSelection::Call);
    app.toggle_help();
    assert!(app.show_help);
    app.toggle_help();
    assert!(!app.show_help);
}

#[test]
fn test_row_steps_undo() {
    let mut app = App::new_on(day(2026, 1, 1));
    app.data = create_mock_data();
    app.selected_row = 2;
    app.next_row();
    assert_eq!(app.selected_row, 3);
    app.previous_row();
    assert_eq!(app.selected_row, 2);
    app.selected_row = 4;
    app.next_row();
    assert_eq!(app.selected_row, 4);
    app.selected_row = 0;
    app.previous_row();
    assert_eq!(app.selected_row, 0);
}

#[test]
fn test_expiry_steps_undo() {
    let mut app = App::new_on(day(2026, 1, 1));
    assert!(!app.previous_expiry());
    assert!(app.next_expiry());
    assert_eq!(app.current_expiry_index, 1);
    assert!(app.previous_expiry());
    assert_eq!(app.current_expiry_index, 0);
    app.current_expiry_index = 9;
    assert!(!app.next_expiry());
    assert_eq!(app.current_expiry_index, 9);
}

#[test]
fn test_move_down_then_up_restores_leg() {
    let mut app = App::new_on(day(2026, 1, 1));
    app.data = create_mock_data();
    app.selected_row = 1;
    app.selected_column = ColumnSelection::Call;
    app.handle_trade_action(true);
    app.move_position_row(1);
    assert_eq!(app.selected_row, 2);
    assert_eq!(app.portfolio.positions[0].strike, 11000);
    app.move_position_row(-1);
    assert_eq!(app.selected_row, 1);
    assert_eq!(app.portfolio.positions[0].strike, 10500);
    assert_eq!(app.portfolio.positions[0].qty, 1);
}

#[test]
fn test_move_prices_leg_at_new_row() {
    let mut app = App::new_on(day(2026, 1, 1));
    let mut data = create_mock_data();
    data[1].call_options = contract("NSE_FO|2", 3000, 0);
    data[2].call_options = contract("NSE_FO|3", 1800, 0);
    app.data = data;
    app.selected_row = 1;
    app.handle_trade_action(true);
    assert_eq!(app.portfolio.positions[0].entry_price, 3000);
    app.move_position_row(1);
    assert_eq!(app.portfolio.positions[0].strike, 11000);
    assert_eq!(app.portfolio.positions[0].entry_price, 1800);
}

#[test]
fn test_move_up_at_first_row_changes_nothing() {
    let mut app = App::new_on(day(2026, 1, 1));
    app.data = create_mock_data();
    app.selected_row = 0;
    app.handle_trade_action(true);
    app.move_position_row(-1);
    assert_eq!(app.selected_row, 0);
    assert_eq!(app.portfolio.positions[0].strike, 10000);
}

#[test]
fn test_move_aborts_when_a_leg_cannot_move() {
    let mut app = App::new_on(day(2026, 1, 1));
    app.data = create_mock_data();
    app.selected_row = 4;
    app.handle_trade_action(true);
    app.toggle_selection();
    app.selected_row = 2;
    app.handle_trade_action(true);
    app.toggle_selection();
    app.move_position_row(1);
    // The cursor moves, the legs stay: the leg at the last row cannot move.
    assert_eq!(app.selected_row, 3);
    assert_eq!(app.portfolio.positions[0].strike, 12000);
    assert_eq!(app.portfolio.positions[1].strike, 11000);
}

#[test]
fn test_delete_position_clears_leg_and_selection() {
    let mut app = App::new_on(day(2026, 1, 1));
    app.data = create_mock_data();
    app.selected_row = 2;
    app.handle_trade_action(true);
    app.toggle_selection();
    app.selected_row = 3;
    app.handle_trade_action(false);
    app.selected_row = 2;
    app.delete_position();
    assert_eq!(app.portfolio.positions.len(), 1);
    assert_eq!(app.portfolio.positions[0].strike, 11500);
    assert!(app.selected_positions.is_empty());
}

#[test]
fn test_trade_flips_and_reports() {
    let mut app = App::new_on(day(2026, 1, 1));
    app.data = create_mock_data();
    app.selected_row = 0;
    app.handle_trade_action(true);
    assert_eq!(app.last_message, "BUY CE 100 @ 0.00");
    app.handle_trade_action(false);
    assert_eq!(app.last_message, "SELL CE 100 @ 0.00");
    assert_eq!(app.portfolio.positions.len(), 1);
    assert_eq!(app.portfolio.positions[0].qty, -1);
}

#[test]
fn test_trade_drops_selection_of_cells_without_legs() {
    let mut app = App::new_on(day(2026, 1, 1));
    app.data = create_mock_data();
    app.selected_row = 0;
    app.toggle_selection();
    assert_eq!(app.selected_positions.len(), 1);
    app.selected_row = 1;
    app.handle_trade_action(true);
    assert!(app.selected_positions.is_empty());
}

#[test]
fn test_receive_option_chain_centers_once() {
    let mut app = App::new_on(day(2026, 1, 1));
    let mut data = create_mock_data();
    for row in data.iter_mut() {
        row.underlying_spot_price = 11100;
    }
    data[2].call_options = contract("NSE_FO|110CE", 700, 0);
    let request = app.receive_option_chain(data.clone());
    assert_eq!(app.selected_row, 2);
    assert!(app.initial_centering_done);
    assert_eq!(request, Some("NSE_FO|110CE".to_string()));

    app.selected_row = 4;
    let request = app.receive_option_chain(data);
    assert_eq!(app.selected_row, 4);
    assert_eq!(request, None);

    let request = app.receive_option_chain(create_mock_data()[0..2].to_vec());
    assert_eq!(app.selected_row, 1);
    assert_eq!(request, None);
}

#[test]
fn test_receive_option_chain_reprices_legs() {
    let mut app = App::new_on(day(2026, 1, 1));
    app.data = create_mock_data();
    app.selected_row = 1;
    app.handle_trade_action(true);
    let mut data = create_mock_data();
    data[1].call_options = contract("NSE_FO|105CE", 4200, 0);
    app.receive_option_chain(data);
    assert_eq!(app.portfolio.positions[0].entry_price, 4200);
}

#[test]
fn test_get_selected_instrument_key() {
    let mut app = App::new_on(day(2026, 1, 1));
    assert_eq!(app.get_selected_instrument_key(), None);
    let mut data = create_mock_data();
    data[0].put_options = contract("NSE_FO|100PE", 100, 0);
    app.data = data;
    assert_eq!(app.get_selected_instrument_key(), None);
    app.toggle_column();
    assert_eq!(app.get_selected_instrument_key(), Some("NSE_FO|100PE".to_string()));
}

#[test]
fn test_decide_key_map() {
    assert_eq!(decide_key(false, Focus::OptionChain, key(KeyCode::Char('b'), false)), Action::Trade(true));
    assert_eq!(decide_key(false, Focus::OptionChain, key(KeyCode::Char('s'), false)), Action::Trade(false));
    assert_eq!(decide_key(false, Focus::OptionChain, key(KeyCode::Char(' '), false)), Action::ToggleSelection);
    assert_eq!(decide_key(false, Focus::OptionChain, key(KeyCode::Backspace, false)), Action::DeletePosition);
    assert_eq!(decide_key(false, Focus::OptionChain, key(KeyCode::Left, false)), Action::ToggleColumn);
    assert_eq!(decide_key(false, Focus::Strategies, key(KeyCode::Down, false)), Action::NextStrategy);
    assert_eq!(decide_key(false, Focus::Strategies, key(KeyCode::Char('b'), false)), Action::Nothing);
    assert_eq!(decide_key(false, Focus::Strategies, key(KeyCode::Tab, false)), Action::SwitchFocus);
    assert_eq!(decide_key(false, Focus::OptionChain, key(KeyCode::Down, true)), Action::MoveRows(1));
    assert_eq!(decide_key(false, Focus::OptionChain, key(KeyCode::Up, true)), Action::MoveRows(-1));
    assert_eq!(decide_key(false, Focus::OptionChain, key(KeyCode::Right, true)), Action::NextExpiry);
    assert_eq!(decide_key(false, Focus::OptionChain, key(KeyCode::Char('S'), true)), Action::ToggleHelp);
    assert_eq!(decide_key(true, Focus::OptionChain, key(KeyCode::Char('q'), false)), Action::ToggleHelp);
    assert_eq!(decide_key(true, Focus::OptionChain, key(KeyCode::Char('s'), false)), Action::Nothing);
    assert_eq!(decide_key(true, Focus::OptionChain, key(KeyCode::Down, false)), Action::Nothing);
}

#[test]
fn test_handle_key_switches_expiry_and_clears_chain() {
    let mut app = App::new_on(day(2026, 1, 1));
    app.data = create_mock_data();
    assert!(app.accepts_key(key(KeyCode::Right, true)));
    let out = app.handle_key(key(KeyCode::Right, true));
    assert_eq!(out.expiry_changed, Some("2026-01-13".to_string()));
    assert_eq!(out.quote_request, None);
    assert_eq!(app.current_expiry_index, 1);
    assert!(app.data.is_empty());

    let out = app.handle_key(key(KeyCode::Left, true));
    assert_eq!(out.expiry_changed, Some("2026-01-06".to_string()));
    let out = app.handle_key(key(KeyCode::Left, true));
    assert_eq!(out.expiry_changed, None);
}

#[test]
fn test_handle_key_moves_cursor_and_asks_for_quote() {
    let mut app = App::new_on(day(2026, 1, 1));
    let mut data = create_mock_data();
    data[1].call_options = contract("NSE_FO|105CE", 300, 0);
    app.data = data;
    let out = app.handle_key(key(KeyCode::Down, false));
    assert_eq!(app.selected_row, 1);
    assert_eq!(out.quote_request, Some("NSE_FO|105CE".to_string()));
    let out = app.handle_key(key(KeyCode::Char('b'), false));
    assert_eq!(out.quote_request, None);
    assert_eq!(app.portfolio.positions.len(), 1);
    assert_eq!(app.portfolio.positions[0].entry_price, 300);
    app.handle_key(key(KeyCode::Tab, false));
    assert_eq!(app.active_focus, Focus::Strategies);
    app.handle_key(key(KeyCode::Char('q'), false));
    assert!(app.should_quit);
}

#[test]
fn test_strategy_steps_wrap_around() {
    let mut app = App::new_on(day(2026, 1, 1));
    app.data = create_mock_data();
    app.previous_strategy();
    assert_eq!(app.selected_strategy, 11);
    app.next_strategy();
    assert_eq!(app.selected_strategy, 0);
    // The mock chain quotes no deltas: the template cannot be built.
    assert_eq!(app.last_message, "Error: Anchor leg (Delta ~0.3) not found");
    assert!(app.portfolio.positions.is_empty());
}

#[test]
fn test_strategy_inputs() {
    let mut app = App::new_on(day(2026, 1, 1));
    let mut data = create_mock_data();
    for row in data.iter_mut() {
        row.expiry = "2026-02-03".to_string();
        row.underlying_spot_price = 11100;
    }
    data[2].call_options = contract("a", 100, 150000);
    data[2].put_options = contract("b", 100, 170000);
    app.data = data;
    let inputs = app.strategy_inputs(day(2026, 1, 27));
    assert_eq!(inputs.spot_price, 11100);
    assert_eq!(inputs.days_to_expiry, 7);
    // The average of 15.00% and 17.00%, in half ten-thousandths.
    assert_eq!(inputs.atm_iv, 320000);
    assert_eq!(inputs.chain_step, 500);

    let past = app.strategy_inputs(day(2026, 3, 1));
    assert_eq!(past.days_to_expiry, 1);

    let empty = App::new_on(day(2026, 1, 1));
    let inputs = empty.strategy_inputs(day(2026, 1, 1));
    assert_eq!(inputs.spot_price, 0);
    assert_eq!(inputs.days_to_expiry, 1);
    assert_eq!(inputs.atm_iv, 0);
    assert_eq!(inputs.chain_step, 5000);
}

#[test]
fn test_strategy_inputs_chain_step_skips_small_gaps() {
    let mut app = App::new_on(day(2026, 1, 1));
    let mut data = create_mock_data();
    data[0].strike_price = 11950;
    data[1].strike_price = 12000;
    data[2].strike_price = 12000;
    data[3].strike_price = 12300;
    data[4].strike_price = 12700;
    app.data = data;
    let inputs = app.strategy_inputs(day(2026, 1, 1));
    assert_eq!(inputs.chain_step, 300);
}

#[test]
fn test_atm_iv_falls_back_to_one_side() {
    let mut app = App::new_on(day(2026, 1, 1));
    let mut data = create_mock_data();
    data[0].put_options = contract("p", 100, 180000);
    app.data = data;
    let inputs = app.strategy_inputs(day(2026, 1, 1));
    assert_eq!(inputs.atm_iv, 360000);
}

#[test]
fn test_move_of_adjacent_selected_legs_drops_a_key() {
    let mut app = App::new_on(day(2026, 1, 1));
    app.data = create_mock_data();
    app.selected_row = 0;
    app.handle_trade_action(true);
    app.toggle_selection();
    app.selected_row = 1;
    app.handle_trade_action(true);
    app.toggle_selection();
    app.move_position_row(1);
    assert_eq!(app.portfolio.positions[0].strike, 10500);
    assert_eq!(app.portfolio.positions[1].strike, 11000);
    // The first leg lands on the key the second one leaves, and loses it.
    assert_eq!(app.selected_positions, vec![(11000, OptionType::Call)]);
}

#[test]
fn test_atm_iv_average_is_exact() {
    let mut app = App::new_on(day(2026, 1, 1));
    let mut data = create_mock_data();
    data[0].call_options = contract("c", 100, 150001);
    data[0].put_options = contract("p", 100, 150000);
    app.data = data;
    assert_eq!(app.strategy_inputs(day(2026, 1, 1)).atm_iv, 300001);
}

#[test]
fn test_accepts_key_asks_only_what_the_action_needs() {
    let mut app = App::new_on(day(2026, 1, 1));
    app.data = create_mock_data();
    app.selected_row = 0;
    app.handle_trade_action(true);
    app.portfolio.positions[0].qty = i32::MAX;
    // Buying again would overflow the quantity; selling or quitting is fine.
    assert!(!app.accepts_key(key(KeyCode::Char('b'), false)));
    assert!(app.accepts_key(key(KeyCode::Char('s'), false)));
    assert!(app.accepts_key(key(KeyCode::Char('q'), false)));
    assert!(app.accepts_key(key(KeyCode::Down, false)));

    // A cursor off the chain only matters to actions that read its row.
    app.selected_row = 7;
    assert!(!app.accepts_key(key(KeyCode::Char(' '), false)));
    assert!(!app.accepts_key(key(KeyCode::Char('s'), false)));
    assert!(app.accepts_key(key(KeyCode::Up, false)));
    assert!(app.accepts_key(key(KeyCode::Tab, false)));
    // Nothing selected and the target on the chain: the move reads the row.
    app.selected_row = 5;
    assert!(!app.accepts_key(key(KeyCode::Up, true)));
    // The target off the chain: nothing is read.
    assert!(app.accepts_key(key(KeyCode::Down, true)));
}

#[test]
fn test_move_with_selection_and_cursor_off_chain() {
    let mut app = App::new_on(day(2026, 1, 1));
    app.data = create_mock_data();
    app.selected_row = 1;
    app.handle_trade_action(true);
    app.toggle_selection();
    app.selected_row = 5;
    app.move_position_row(-1);
    assert_eq!(app.selected_row, 4);
    assert_eq!(app.portfolio.positions[0].strike, 10000);
    assert_eq!(app.selected_positions, vec![(10000, OptionType::Call)]);
}

#[test]
fn test_strategy_inputs_now_uses_the_chain() {
    let mut app = App::new_on(day(2026, 1, 1));
    let mut data = create_mock_data();
    for row in data.iter_mut() {
        row.underlying_spot_price = 11100;
    }
    app.data = data;
    let inputs = app.strategy_inputs_now();
    assert_eq!(inputs.spot_price, 11100);
    assert_eq!(inputs.chain_step, 500);
    assert!(inputs.days_to_expiry >= 1);
}
