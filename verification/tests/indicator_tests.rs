use crypto_quant::data::Kline;
use crypto_quant::fixed::SCALE;
use crypto_quant::indicator::TechnicalIndicators;

fn fx(x: f64) -> i64 {
    (x * SCALE as f64).round() as i64
}

fn fl(v: Option<i64>) -> Option<f64> {
    v.map(|x| x as f64 / SCALE as f64)
}

#[test]
fn test_sma() {
    let prices: Vec<i64> = vec![1.0, 2.0, 3.0, 4.0, 5.0, 6.0, 7.0, 8.0, 9.0, 10.0]
        .into_iter()
        .map(fx)
        .collect();
    let sma = TechnicalIndicators::sma(&prices, 3);

    assert_eq!(fl(sma[0]), None);
    assert_eq!(fl(sma[1]), None);
    assert_eq!(fl(sma[2]), Some(2.0));
    assert_eq!(fl(sma[3]), Some(3.0));
    assert_eq!(fl(sma[9]), Some(9.0));
}

#[test]
fn test_rsi() {
    let prices: Vec<i64> = vec![
        44.34, 44.09, 44.15, 43.61, 44.33, 44.83, 45.10, 45.42, 45.84, 46.08, 45.89, 46.03, 45.61,
        46.28, 46.28, 46.00, 46.03, 46.41, 46.22, 45.64,
    ]
    .into_iter()
    .map(fx)
    .collect();
    let rsi = TechnicalIndicators::rsi(&prices, 14);

    assert!(rsi[14].is_some());
    if let Some(rsi_val) = fl(rsi[19]) {
        assert!(rsi_val > 0.0 && rsi_val < 100.0);
    }
}

fn series(xs: &[i64]) -> Vec<i64> {
    xs.iter().map(|x| x * SCALE).collect()
}

#[test]
fn ema_seeds_with_sma_and_smooths() {
    let prices = series(&[1, 2, 3, 4, 5, 6, 7, 8, 9, 10]);
    let ema = TechnicalIndicators::ema(&prices, 3);
    assert_eq!(ema[1], None);
    assert_eq!(ema[2], Some(2 * SCALE));
    assert_eq!(ema[3], Some(3 * SCALE));
    assert_eq!(ema[9], Some(9 * SCALE));
}

#[test]
fn ema_rounds_down() {
    // seed 1.5, then 1.5 + floor(2 * (4 - 1.5) / 3) = 1.5 + 1.66666666
    let prices = series(&[1, 2, 4]);
    let ema = TechnicalIndicators::ema(&prices, 2);
    assert_eq!(ema[1], Some(150_000_000));
    assert_eq!(ema[2], Some(316_666_666));
}

#[test]
fn macd_lines_align() {
    let prices = series(&[1, 2, 3, 4, 5, 6, 7, 8, 9, 10]);
    let (line, signal, hist) = TechnicalIndicators::macd(&prices, 2, 4, 2);
    assert_eq!(line[2], None);
    assert_eq!(line[3], Some(SCALE));
    assert_eq!(signal[3], None);
    assert_eq!(signal[4], Some(SCALE));
    assert_eq!(hist[3], None);
    assert_eq!(hist[4], Some(0));
    assert_eq!(hist[9], Some(0));
}

#[test]
fn bollinger_bands_values() {
    let prices = series(&[1, 2, 3, 4, 5, 6, 7, 8, 9, 10]);
    let (upper, middle, lower) = TechnicalIndicators::bollinger_bands(&prices, 3, 2 * SCALE);
    assert_eq!(upper[1], None);
    assert_eq!(middle[2], Some(2 * SCALE));
    assert_eq!(upper[2], Some(363_299_316));
    assert_eq!(lower[2], Some(36_700_684));
    assert_eq!(upper[9], Some(1_063_299_316));
    assert_eq!(lower[9], Some(736_700_684));
}

#[test]
fn atr_of_three_klines() {
    let k = |h: i64, l: i64, c: i64| Kline {
        timestamp: 0,
        open: c * SCALE,
        high: h * SCALE,
        low: l * SCALE,
        close: c * SCALE,
        volume: 0,
        quote_volume: 0,
        trades: 0,
    };
    let klines = vec![k(10, 8, 9), k(11, 9, 10), k(12, 7, 8)];
    let atr = TechnicalIndicators::atr(&klines, 2);
    assert_eq!(atr[0], None);
    assert_eq!(atr[1], Some(2 * SCALE));
    assert_eq!(atr[2], Some(350_000_000));
}

#[test]
fn volume_sma_is_sma() {
    let volumes = series(&[10, 20, 30]);
    let v = TechnicalIndicators::volume_sma(&volumes, 2);
    assert_eq!(v, vec![None, Some(15 * SCALE), Some(25 * SCALE)]);
}

#[test]
fn rsi_stays_between_0_and_100() {
    let prices = series(&[5, 7, 6, 9, 3, 4, 12, 11, 2, 8, 8, 10]);
    let rsi = TechnicalIndicators::rsi(&prices, 3);
    for (i, v) in rsi.iter().enumerate() {
        if i < 3 {
            assert_eq!(*v, None);
        } else {
            let x = v.unwrap();
            assert!(0 <= x && x <= 100 * SCALE);
        }
    }
}

#[test]
fn rsi_without_losses_is_100_and_short_series_is_empty() {
    let prices = series(&[1, 2, 3, 4]);
    let rsi = TechnicalIndicators::rsi(&prices, 2);
    assert_eq!(rsi[2], Some(100 * SCALE));
    assert_eq!(rsi[3], Some(100 * SCALE));
    let short = TechnicalIndicators::rsi(&prices, 4);
    assert!(short.iter().all(|v| v.is_none()));
}

#[test]
fn bollinger_bands_are_ordered() {
    let prices = series(&[5, 7, 6, 9, 3, 4, 12, 11, 2, 8]);
    let (upper, middle, lower) = TechnicalIndicators::bollinger_bands(&prices, 4, 2 * SCALE);
    for i in 3..prices.len() {
        let (u, m, l) = (upper[i].unwrap(), middle[i].unwrap(), lower[i].unwrap());
        assert!(l <= m && m <= u);
    }
}

#[test]
fn ema_stays_within_price_range() {
    let prices = series(&[5, 7, 6, 9, 3, 4, 12, 11, 2, 8]);
    let ema = TechnicalIndicators::ema(&prices, 3);
    for v in ema.iter().flatten() {
        assert!(2 * SCALE <= *v && *v <= 12 * SCALE);
    }
}

#[test]
fn indicators_take_prices_far_beyond_two_to_the_53() {
    let big = 4_000_000_000_000_000_000i64;
    let prices = vec![big, big + 2 * SCALE, big + 4 * SCALE, big + 6 * SCALE];
    let (line, signal, hist) = TechnicalIndicators::macd(&prices, 1, 2, 1);
    assert_eq!(line[1], Some(SCALE));
    assert_eq!(signal[1], Some(SCALE));
    assert_eq!(hist[1], Some(0));
    let (upper, middle, lower) = TechnicalIndicators::bollinger_bands(&[big, big, big], 3, 2 * SCALE);
    assert_eq!((upper[2], middle[2], lower[2]), (Some(big), Some(big), Some(big)));
    let k = Kline {
        timestamp: 0,
        open: big,
        high: big + 3 * SCALE,
        low: big - SCALE,
        close: big,
        volume: 0,
        quote_volume: 0,
        trades: 0,
    };
    let atr = TechnicalIndicators::atr(&[k, k], 2);
    assert_eq!(atr[1], Some(4 * SCALE));
}

#[test]
fn rsi_of_a_prefix_is_the_prefix_of_the_rsi() {
    let prices = series(&[44, 46, 45, 47, 49, 48, 50, 47, 46, 51, 52, 50]);
    let whole = TechnicalIndicators::rsi(&prices, 3);
    for n in 0..=prices.len() {
        let part = TechnicalIndicators::rsi(&prices[..n], 3);
        assert_eq!(&part[..], &whole[..n]);
    }
}

#[test]
fn rsi_of_always_falling_prices_is_0() {
    let prices = vec![50 * SCALE, 50 * SCALE - 1, 40 * SCALE, 39 * SCALE, 10 * SCALE, 9 * SCALE];
    let rsi = TechnicalIndicators::rsi(&prices, 3);
    assert_eq!(rsi[2], None);
    for i in 3..prices.len() {
        assert_eq!(rsi[i], Some(0));
    }
}
