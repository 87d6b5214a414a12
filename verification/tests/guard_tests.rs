// Scenario tests for the riskguard library. All amounts are fixed-point
// integers counting hundredths of a unit: a quantity of 10 units is 1_000,
// a price of 50_000.00 is 5_000_000, and a 5 percent threshold is 500.

use riskguard::Position;
use riskguard::Ratio;
use riskguard::RiskError;
use riskguard::RiskGuard;

/// The exact fraction as a float, for readable comparisons.
fn as_f64(r: Ratio) -> f64 {
    r.num as f64 / r.den as f64
}

/// A guard with `max_position_size = 100` units and `max_loss_percent = 5`.
fn sample_guard() -> RiskGuard {
    RiskGuard::new(10_000, 500)
}

fn btc() -> Position {
    Position::new("BTCUSD".to_string(), 1_000, 5_000_000, 5_100_000).unwrap()
}

fn eth() -> Position {
    Position::new("ETHUSD".to_string(), 5_000, 300_000, 290_000).unwrap()
}

fn xrp() -> Position {
    Position::new("XRPUSD".to_string(), 5_000, 100, 90).unwrap()
}

#[test]
fn btc_position_gains() {
    let mut guard = sample_guard();
    assert!(guard.add_position(btc()).is_ok());
    let p = guard.get_position("BTCUSD").unwrap();
    // pnl is scaled by 100 * 100: 10_000.00 of profit
    assert_eq!(p.pnl(), 100_000_000);
    // pnl_percent is about 2.0
    assert_eq!(as_f64(p.pnl_percent()), 2.0);
}

#[test]
fn eth_position_loses_without_breach() {
    let mut guard = sample_guard();
    assert!(guard.add_position(eth()).is_ok());
    let p = guard.get_position("ETHUSD").unwrap();
    // a loss of 5_000.00
    assert_eq!(p.pnl(), -50_000_000);
    // about -3.333 percent, exactly -10/3
    let pct = p.pnl_percent();
    assert_eq!(pct.num * 3, -10 * pct.den);
    assert!((as_f64(pct) + 10.0 / 3.0).abs() < 1e-12);
    // threshold is -5 percent and a breach needs a strictly worse loss
    assert_eq!(guard.check_stop_loss(), Vec::<String>::new());
}

#[test]
fn xrp_position_breaches_stop_loss() {
    let mut guard = sample_guard();
    assert!(guard.add_position(xrp()).is_ok());
    let p = guard.get_position("XRPUSD").unwrap();
    let pct = p.pnl_percent();
    assert_eq!(as_f64(pct), -10.0);
    assert_eq!(guard.check_stop_loss(), vec!["XRPUSD".to_string()]);
}

#[test]
fn loss_exactly_at_threshold_is_excluded() {
    let mut guard = sample_guard();
    let p = Position::new("EDGUSD".to_string(), 100, 100, 95).unwrap();
    assert!(guard.add_position(p).is_ok());
    // exactly -5 percent: the comparison is strict, so no breach
    assert_eq!(as_f64(guard.get_position("EDGUSD").unwrap().pnl_percent()), -5.0);
    assert_eq!(guard.check_stop_loss(), Vec::<String>::new());
}

#[test]
fn oversized_position_is_rejected() {
    let mut guard = sample_guard();
    let big = Position::new("BIGPOS".to_string(), 15_000, 100, 100).unwrap();
    let before = guard.positions().len();
    match guard.add_position(big) {
        Err(RiskError::PositionTooLarge { symbol, requested, limit }) => {
            assert_eq!(symbol, "BIGPOS".to_string());
            assert_eq!(requested, 15_000);
            assert_eq!(limit, 10_000);
        }
        other => panic!("expected PositionTooLarge, got {:?}", other),
    }
    assert_eq!(guard.positions().len(), before);
    assert!(guard.get_position("BIGPOS").is_none());
}

#[test]
fn quantity_at_the_limit_is_accepted() {
    let mut guard = sample_guard();
    let at_limit = Position::new("MAXPOS".to_string(), 10_000, 100, 100).unwrap();
    assert!(guard.add_position(at_limit).is_ok());
    let p = guard.get_position("MAXPOS").unwrap();
    assert_eq!(p.symbol(), "MAXPOS");
    assert_eq!(p.quantity(), 10_000);
    assert_eq!(p.entry_price(), 100);
    assert_eq!(p.current_price(), 100);
}

#[test]
fn empty_guard_metrics() {
    let guard = sample_guard();
    assert_eq!(guard.total_pnl(), 0);
    assert_eq!(guard.check_stop_loss(), Vec::<String>::new());
    let var = guard.calculate_var(95);
    assert_eq!(var.num, 0);
    assert_eq!(as_f64(var), 0.0);
}

#[test]
fn portfolio_totals() {
    let mut guard = sample_guard();
    assert!(guard.add_position(btc()).is_ok());
    assert!(guard.add_position(eth()).is_ok());
    // 10_000.00 - 5_000.00 = 5_000.00, scaled by 100 * 100
    assert_eq!(guard.total_pnl(), 50_000_000);
    // (10 * 51_000 + 50 * 2_900) * 0.05 * 0.1 = 3_275.00
    let var = guard.calculate_var(95);
    assert_eq!(var.den, 10_000_000);
    assert_eq!(as_f64(var), 3_275.0);
}

#[test]
fn var_scales_with_confidence() {
    let mut guard = sample_guard();
    assert!(guard.add_position(btc()).is_ok());
    // total value is 10 * 51_000 = 510_000.00; at confidence 0 the estimate
    // is a tenth of it
    assert_eq!(as_f64(guard.calculate_var(0)), 51_000.0);
    // full confidence: no value at risk
    assert_eq!(as_f64(guard.calculate_var(100)), 0.0);
}

#[test]
fn update_price_overwrites_only_the_current_price() {
    let mut guard = sample_guard();
    assert!(guard.add_position(btc()).is_ok());
    guard.update_price("BTCUSD", 4_900_000);
    let p = guard.get_position("BTCUSD").unwrap();
    assert_eq!(p.current_price(), 4_900_000);
    assert_eq!(p.quantity(), 1_000);
    assert_eq!(p.entry_price(), 5_000_000);
    // a loss of 1_000.00 now
    assert_eq!(p.pnl(), -100_000_000);
}

#[test]
fn update_price_on_unknown_symbol_is_a_silent_no_op() {
    let mut guard = sample_guard();
    assert!(guard.add_position(btc()).is_ok());
    guard.update_price("NOSUCH", 1);
    assert_eq!(guard.positions().len(), 1);
    assert!(guard.get_position("NOSUCH").is_none());
    let p = guard.get_position("BTCUSD").unwrap();
    assert_eq!(p.current_price(), 5_100_000);
}

#[test]
fn duplicate_symbol_silently_replaces() {
    let mut guard = sample_guard();
    assert!(guard.add_position(btc()).is_ok());
    let replacement = Position::new("BTCUSD".to_string(), 200, 5_200_000, 5_200_000).unwrap();
    assert!(guard.add_position(replacement).is_ok());
    assert_eq!(guard.positions().len(), 1);
    let p = guard.get_position("BTCUSD").unwrap();
    assert_eq!(p.quantity(), 200);
    assert_eq!(p.entry_price(), 5_200_000);
}

#[test]
fn zero_entry_price_is_rejected_at_construction() {
    match Position::new("ZERUSD".to_string(), 100, 0, 100) {
        Err(RiskError::ZeroEntryPrice { symbol }) => assert_eq!(symbol, "ZERUSD".to_string()),
        other => panic!("expected ZeroEntryPrice, got {:?}", other),
    }
}

#[test]
fn short_position_profits_when_price_falls() {
    let mut guard = sample_guard();
    let short = Position::new("SHTUSD".to_string(), -1_000, 5_000_000, 4_900_000).unwrap();
    assert!(guard.add_position(short).is_ok());
    let p = guard.get_position("SHTUSD").unwrap();
    // (49_000 - 50_000) * -10 = 10_000.00 of profit
    assert_eq!(p.pnl(), 100_000_000);
    assert_eq!(guard.check_stop_loss(), Vec::<String>::new());
    // the short position's value counts against the total
    assert_eq!(as_f64(guard.calculate_var(0)), -49_000.0);
}

#[test]
fn negative_entry_price_flips_the_comparison() {
    // A position booked at a negative price: the exact fraction
    // (current - entry) * 100 / entry has a negative denominator, and the
    // relative move from -1.00 to -0.90 is a 10 percent loss
    let mut guard = sample_guard();
    let neg = Position::new("NEGUSD".to_string(), 100, -100, -90).unwrap();
    assert!(guard.add_position(neg).is_ok());
    let pct = guard.get_position("NEGUSD").unwrap().pnl_percent();
    assert_eq!(pct.num, 1_000);
    assert_eq!(pct.den, -100);
    assert_eq!(as_f64(pct), -10.0);
    assert_eq!(guard.check_stop_loss(), vec!["NEGUSD".to_string()]);
}

#[test]
fn update_price_leaves_other_positions_alone() {
    let mut guard = sample_guard();
    assert!(guard.add_position(btc()).is_ok());
    assert!(guard.add_position(eth()).is_ok());
    guard.update_price("ETHUSD", 310_000);
    let b = guard.get_position("BTCUSD").unwrap();
    assert_eq!(b.current_price(), 5_100_000);
    let e = guard.get_position("ETHUSD").unwrap();
    assert_eq!(e.current_price(), 310_000);
    assert_eq!(e.entry_price(), 300_000);
}

#[test]
fn stop_loss_reports_every_breaching_symbol() {
    let mut guard = sample_guard();
    assert!(guard.add_position(btc()).is_ok());
    assert!(guard.add_position(xrp()).is_ok());
    let down = Position::new("DWNUSD".to_string(), 10, 1_000, 500).unwrap();
    assert!(guard.add_position(down).is_ok());
    assert_eq!(guard.check_stop_loss(), vec!["XRPUSD".to_string(), "DWNUSD".to_string()]);
}
