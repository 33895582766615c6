use trakbit::strategy::{
    analyze_strategy, calculate_net_payoff, profitable_segments, sorted_distinct, OptionType,
    Position, Strategy, CURVE_SCALE, LOT_SIZE,
};

fn leg(strike: i64, kind: OptionType, qty: i32, entry_price: i64) -> Position {
    Position { strike, kind, qty, entry_price }
}

#[test]
fn test_payoff_of_single_legs() {
    let long_call = leg(10000, OptionType::Call, 1, 500);
    assert_eq!(long_call.payoff(12000), (2000 - 500) * LOT_SIZE);
    assert_eq!(long_call.payoff(9000), -500 * 65);
    let short_put = leg(10000, OptionType::Put, -1, 300);
    assert_eq!(short_put.payoff(9000), -45500);
    assert_eq!(short_put.payoff(11000), 19500);
    let two_calls = leg(10000, OptionType::Call, 2, 0);
    assert_eq!(two_calls.payoff(10100), 13000);
}

#[test]
fn test_net_payoff_is_sum_of_legs() {
    let a = vec![leg(10000, OptionType::Call, 1, 500), leg(11000, OptionType::Call, -1, 200)];
    let b = vec![leg(9000, OptionType::Put, -1, 100)];
    let mut both = a.clone();
    both.extend(b.iter().cloned());
    for spot in [0i128, 8500, 9500, 10500, 11500, 20000] {
        assert_eq!(
            calculate_net_payoff(&both, spot),
            calculate_net_payoff(&a, spot) + calculate_net_payoff(&b, spot)
        );
    }
    assert_eq!(calculate_net_payoff(&Vec::new(), 12345), 0);
}

#[test]
fn test_put_call_parity() {
    let k = 22000_00;
    let (c, p) = (15000, 9000);
    let synthetic = vec![leg(k, OptionType::Call, 3, c), leg(k, OptionType::Put, -3, p)];
    for spot in [2100000i128, 2200000, 2315050] {
        assert_eq!(
            calculate_net_payoff(&synthetic, spot),
            (spot - k as i128 - c as i128 + p as i128) * 3 * LOT_SIZE
        );
    }
}

#[test]
fn test_strategy_list() {
    let all = Strategy::all();
    assert_eq!(all.len(), 12);
    assert_eq!(all[0], Strategy::CallCreditSpread);
    assert_eq!(all[11], Strategy::IronCondor);
    assert_eq!(Strategy::IronButterfly.name(), "Iron Butterfly");
    assert_eq!(Strategy::ShortStrangle.name(), "Short Strangle");
}

#[test]
fn test_analyze_without_legs() {
    let st = analyze_strategy(&Vec::new(), 10000, None);
    assert_eq!(st.max_profit, 0);
    assert_eq!(st.max_loss, 0);
    assert!(!st.max_profit_unlimited);
    assert!(!st.max_loss_unlimited);
    assert!(st.breakevens.is_empty());
    assert!(st.points.is_empty());
}

#[test]
fn test_analyze_long_call() {
    let ps = vec![leg(10000, OptionType::Call, 1, 500)];
    let st = analyze_strategy(&ps, 10000, None);
    // The curve runs from 95.00 to 105.00 in 200 steps of 0.05; amounts are
    // in curve units (1/20000 of a hundredth).
    assert_eq!(st.points.len(), 201);
    assert_eq!(st.points[0], (9500 * CURVE_SCALE, -32500 * CURVE_SCALE));
    assert_eq!(st.points[100], (10000 * CURVE_SCALE, -32500 * CURVE_SCALE));
    assert_eq!(st.points[100].1, CURVE_SCALE * calculate_net_payoff(&ps, 10000));
    assert_eq!(st.points[200], (10500 * CURVE_SCALE, 0));
    assert_eq!(st.breakevens, vec![10500 * CURVE_SCALE]);
    assert!(st.max_profit_unlimited);
    assert!(!st.max_loss_unlimited);
    assert_eq!(st.max_profit, 0);
    assert_eq!(st.max_loss, -32500 * CURVE_SCALE);
    for (_, pnl) in st.points.iter() {
        assert!(st.max_loss <= *pnl && *pnl <= st.max_profit);
    }
}

#[test]
fn test_analyze_narrow_curve_has_distinct_spots() {
    // One call at 1.00 with the spot at 1.00: the curve spans 0.95 to 1.05.
    let ps = vec![leg(100, OptionType::Call, 1, 2)];
    let st = analyze_strategy(&ps, 100, None);
    assert_eq!(st.points.len(), 201);
    assert_eq!(st.points[0].0, 95 * CURVE_SCALE);
    assert_eq!(st.points[1].0, 95 * CURVE_SCALE + CURVE_SCALE / 20);
    assert_eq!(st.points[200].0, 105 * CURVE_SCALE);
    for w in st.points.windows(2) {
        assert!(w[0].0 < w[1].0);
    }
    // One paisa above the strike the call is worth one paisa, half what it
    // cost.
    assert_eq!(st.points[120], (101 * CURVE_SCALE, (CURVE_SCALE - 2 * CURVE_SCALE) * 65));
    // Half a paisa above the strike, between two whole hundredths.
    assert_eq!(
        st.points[110],
        (100 * CURVE_SCALE + CURVE_SCALE / 2, (CURVE_SCALE / 2 - 2 * CURVE_SCALE) * 65)
    );
    assert_eq!(st.breakevens, vec![102 * CURVE_SCALE]);
}

#[test]
fn test_analyze_short_straddle_with_range() {
    let ps = vec![leg(10000, OptionType::Call, -1, 300), leg(10000, OptionType::Put, -1, 200)];
    let st = analyze_strategy(&ps, 10000, Some(1000));
    // 90.00 to 110.00, 0.10 per step.
    assert_eq!(st.points[0], (9000 * CURVE_SCALE, (1000 - 500) * -65 * CURVE_SCALE));
    assert_eq!(st.points[100], (10000 * CURVE_SCALE, 500 * 65 * CURVE_SCALE));
    assert_eq!(st.breakevens, vec![9500 * CURVE_SCALE, 10500 * CURVE_SCALE]);
    assert!(!st.max_profit_unlimited);
    assert!(st.max_loss_unlimited);
    assert_eq!(st.max_profit, 32500 * CURVE_SCALE);
    for b in st.breakevens.iter() {
        assert!(9000 * CURVE_SCALE <= *b && *b <= 11000 * CURVE_SCALE);
    }
}

#[test]
fn test_analyze_bull_put_spread_is_bounded() {
    let ps = vec![leg(10000, OptionType::Put, -1, 400), leg(9000, OptionType::Put, 1, 100)];
    let st = analyze_strategy(&ps, 10000, None);
    assert!(!st.max_profit_unlimited);
    assert!(!st.max_loss_unlimited);
    assert_eq!(st.max_profit, 300 * 65 * CURVE_SCALE);
    assert_eq!(st.max_loss, -700 * 65 * CURVE_SCALE);
    assert_eq!(st.breakevens, vec![9700 * CURVE_SCALE]);
}

#[test]
fn test_sorted_distinct() {
    assert_eq!(sorted_distinct(&vec![5, -1, 5, 3, -1]), vec![-1, 3, 5]);
    assert!(sorted_distinct(&Vec::new()).is_empty());
}

#[test]
fn test_profitable_segments_of_long_call() {
    let ps = vec![leg(10000, OptionType::Call, 1, 500)];
    let be = 10500 * CURVE_SCALE;
    let (cuts, windows) = profitable_segments(&ps, &vec![be]);
    assert_eq!(cuts, vec![0, be]);
    assert_eq!(windows, vec![(be, None)]);
}

#[test]
fn test_profitable_segments_of_short_straddle() {
    let ps = vec![leg(10000, OptionType::Call, -1, 300), leg(10000, OptionType::Put, -1, 200)];
    let (lo, hi) = (9500 * CURVE_SCALE, 10500 * CURVE_SCALE);
    let (cuts, windows) = profitable_segments(&ps, &vec![hi, lo, hi]);
    assert_eq!(cuts, vec![0, lo, hi]);
    assert_eq!(windows, vec![(lo, Some(hi))]);
}

#[test]
fn test_profitable_segments_with_negative_breakeven() {
    let ps = vec![leg(10000, OptionType::Put, 1, 100)];
    let (neg, be) = (-50 * CURVE_SCALE, 9900 * CURVE_SCALE);
    let (cuts, windows) = profitable_segments(&ps, &vec![be, neg]);
    assert_eq!(cuts, vec![neg, 0, be]);
    // (-0.50, 0): middle at -0.25, a profit; (0, 99.00): probe 49.50, a profit.
    assert_eq!(windows, vec![(neg, Some(0)), (0, Some(be))]);
}

#[test]
fn test_analyze_curve_ends_are_exact() {
    // 95% of 100.01 is 95.0095 and 105% is 105.0105; 98% of 95.01 is 93.1098.
    let ps = vec![leg(10001, OptionType::Call, 1, 0)];
    let st = analyze_strategy(&ps, 10001, None);
    assert_eq!(st.points[0].0, 9500 * CURVE_SCALE + 95 * CURVE_SCALE / 100);
    assert_eq!(st.points[200].0, 10501 * CURVE_SCALE + 5 * CURVE_SCALE / 100);
    let wide = vec![leg(9501, OptionType::Put, -1, 0)];
    let st = analyze_strategy(&wide, 10001, Some(100));
    assert_eq!(st.points[0].0, 9310 * CURVE_SCALE + 98 * CURVE_SCALE / 100);
    assert_eq!(st.points[200].0, 10101 * CURVE_SCALE);
}
