use crypto_quant::config::AppConfig;
use crypto_quant::fixed::{isqrt, SCALE};
use crypto_quant::runtime::{new_order_id, now_millis, random_below};
use crypto_quant::text::{parse_fixed, push_decimal, push_signed_decimal, str_eq, to_uppercase};

#[test]
fn default_config() {
    let c = AppConfig::default();
    assert_eq!(c.symbol, "BTCUSDT");
    assert_eq!(c.timeframe, "1h");
    assert_eq!(c.start_time, 1_704_067_200_000);
    assert_eq!(c.end_time, 1_735_689_599_000);
    assert_eq!(c.initial_capital, 10000 * SCALE);
    assert_eq!(c.max_position_size, 1000 * SCALE);
    assert_eq!(c.stop_loss_pct, 2 * SCALE);
    assert_eq!(c.take_profit_pct, 5 * SCALE);
    assert_eq!(c.strategy.name, "dual_ma");
    assert_eq!(c.strategy.fast_period, Some(5));
    assert_eq!(c.strategy.slow_period, Some(20));
    assert_eq!(c.strategy.rsi_period, None);
}

#[test]
fn parse_fixed_reads_exponents() {
    assert_eq!(parse_fixed("1e5"), Some(100_000 * SCALE));
    assert_eq!(parse_fixed("1E-8"), Some(1));
    assert_eq!(parse_fixed("2.5e3"), Some(2500 * SCALE));
    assert_eq!(parse_fixed("+2.5E+3"), Some(2500 * SCALE));
    assert_eq!(parse_fixed("1e-9"), Some(0));
    assert_eq!(parse_fixed("-1.5e-8"), Some(-1));
    assert_eq!(parse_fixed("12345e-2"), Some(12_345 * SCALE / 100));
    assert_eq!(parse_fixed("0e99999999999999999999"), Some(0));
    assert_eq!(parse_fixed("1e-99999999999999999999"), Some(0));
    assert_eq!(parse_fixed("1e99999999999999999999"), None);
    assert_eq!(parse_fixed("1e11"), None);
    assert_eq!(parse_fixed("9.2233720368547758e10"), Some(9_223_372_036_854_775_800));
    assert_eq!(parse_fixed("-9.2233720368547758e10"), Some(-9_223_372_036_854_775_800));
    assert_eq!(parse_fixed("1e"), None);
    assert_eq!(parse_fixed("1e+"), None);
    assert_eq!(parse_fixed("e5"), None);
    assert_eq!(parse_fixed(".e5"), None);
    assert_eq!(parse_fixed("1e5.0"), None);
    assert_eq!(parse_fixed("inf"), None);
    assert_eq!(parse_fixed("NaN"), None);
}

#[test]
fn parse_fixed_reads_plain_decimals() {
    assert_eq!(parse_fixed("12.5"), Some(1_250_000_000));
    assert_eq!(parse_fixed("-0.000000015"), Some(-1));
    assert_eq!(parse_fixed("+3"), Some(3 * SCALE));
    assert_eq!(parse_fixed(".5"), Some(50_000_000));
    assert_eq!(parse_fixed("5."), Some(5 * SCALE));
    assert_eq!(parse_fixed("0.00000001"), Some(1));
    assert_eq!(parse_fixed("92233720368.54775807"), Some(i64::MAX));
    assert_eq!(parse_fixed("92233720368.54775808"), None);
    assert_eq!(parse_fixed(""), None);
    assert_eq!(parse_fixed("."), None);
    assert_eq!(parse_fixed("-"), None);
    assert_eq!(parse_fixed("1.2.3"), None);
    assert_eq!(parse_fixed("abc"), None);
    assert_eq!(parse_fixed("999999999999999999999"), None);
}

#[test]
fn decimal_text() {
    let mut s = String::from("n=");
    push_decimal(&mut s, 0);
    push_decimal(&mut s, 907);
    assert_eq!(s, "n=0907");
    let mut t = String::new();
    push_signed_decimal(&mut t, i64::MIN);
    assert_eq!(t, "-9223372036854775808");
    assert!(str_eq("abc", "abc"));
    assert!(!str_eq("abc", "abd"));
    assert!(!str_eq("abc", "ab"));
    assert_eq!(to_uppercase("btcusdt"), "BTCUSDT");
}

#[test]
fn integer_square_root() {
    assert_eq!(isqrt(0), 0);
    assert_eq!(isqrt(15), 3);
    assert_eq!(isqrt(16), 4);
    assert_eq!(isqrt(u128::MAX), u64::MAX as u128);
}

#[test]
fn outside_sources() {
    for _ in 0..100 {
        assert!(random_below(10) < 10);
    }
    assert_eq!(random_below(1), 0);
    let id = new_order_id();
    assert_eq!(id.len(), 36);
    for (i, c) in id.chars().enumerate() {
        if [8, 13, 18, 23].contains(&i) {
            assert_eq!(c, '-');
        } else {
            assert!(c.is_ascii_digit() || ('a'..='f').contains(&c));
        }
    }
    assert_eq!(id.chars().nth(14), Some('4'));
    assert!(['8', '9', 'a', 'b'].contains(&id.chars().nth(19).unwrap()));
    assert_ne!(id, new_order_id());
    assert!(now_millis() > 1_600_000_000_000);
}
