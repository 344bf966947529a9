use back_test::config::BASE_TIME;
use back_test::price::{parse_price, Price};
use back_test::record::{
    generate_min_data, minute_offset_exec, parse_i64, split_fields, split_lines, MinData, RecordError,
};
use back_test::schedule::{back_test, batch_ranges, FinalResult};
use back_test::series::{PriceSeries, PriceStore};
use back_test::strategy::{back_by_type, BackResult};

fn record(exchange: &str, pre: &str, post: &str, millis: i64, price: &str) -> MinData {
    MinData::new(
        price.to_string(),
        minute_offset_exec(millis),
        exchange.to_string(),
        pre.to_string(),
        post.to_string(),
    )
}

fn at_minute(m: i64) -> i64 {
    BASE_TIME + m * 60000
}

fn store_of(rows: &[(&str, i64, &str)]) -> PriceStore {
    let mut store = PriceStore::new();
    for (pre, minute, price) in rows {
        let d = record("binance", pre, "USDT", at_minute(*minute), price);
        assert_eq!(store.add_record(&d), Ok(()));
    }
    store
}

fn as_f64(p: Price) -> f64 {
    p.mantissa as f64 / 10f64.powi(p.scale as i32)
}

fn value_of(r: &BackResult) -> f64 {
    let mut v = 1.0;
    for d in r.deal_vec() {
        v *= as_f64(d.sell_price) / as_f64(d.buy_price);
    }
    v
}

fn run_single(rows: &[(&str, i64, &str)]) -> BackResult {
    let store = store_of(rows);
    assert_eq!(store.len(), 1);
    back_by_type(&store.keys[0], &store.series[0])
}

#[test]
fn rise_gives_one_losing_trade() {
    let r = run_single(&[("BTC", 10, "1.00"), ("BTC", 11, "1.02"), ("BTC", 12, "0.99")]);
    assert_eq!(r.deal_vec().len(), 1);
    let d = &r.deal_vec()[0];
    assert_eq!(d.buy_price, Price { mantissa: 102, scale: 2 });
    assert_eq!(d.sell_price, Price { mantissa: 99, scale: 2 });
    assert_eq!(d.buy_time, 11);
    assert_eq!(d.sell_time, 12);
    assert_eq!(d.get_id(), "binance-BTC-USDT");
    assert!(!d.no_loss());
    assert_eq!(r.suc_cnt(), 0);
    assert_eq!(r.suc_ratio(), (0, 1));
    assert!((value_of(&r) - 0.9706).abs() < 1e-4);
    assert!((value_of(&r) - 0.99 / 1.02).abs() < 1e-12);
}

#[test]
fn flat_prices_give_no_trade() {
    let r = run_single(&[("ETH", 5, "1.00"), ("ETH", 6, "1.00")]);
    assert_eq!(r.deal_vec().len(), 0);
    assert_eq!(r.suc_ratio(), (0, 1));
    assert_eq!(value_of(&r), 1.0);
}

#[test]
fn signal_without_exit_is_dropped() {
    let r = run_single(&[("ETH", 5, "1.00"), ("ETH", 6, "1.50")]);
    assert_eq!(r.deal_vec().len(), 0);
    assert_eq!(r.suc_ratio(), (0, 1));
}

#[test]
fn rise_just_below_threshold_is_no_signal() {
    let r = run_single(&[("ETH", 1, "100"), ("ETH", 2, "100.99"), ("ETH", 3, "200")]);
    assert_eq!(r.deal_vec().len(), 0);
    let r = run_single(&[("ETH", 1, "100"), ("ETH", 2, "101"), ("ETH", 3, "200")]);
    assert_eq!(r.deal_vec().len(), 1);
    assert_eq!(r.suc_ratio(), (1, 1));
}

#[test]
fn overlapping_signals_trade_independently() {
    let r = run_single(&[
        ("XRP", 1, "1.00"),
        ("XRP", 2, "1.02"),
        ("XRP", 3, "1.05"),
        ("XRP", 4, "1.00"),
    ]);
    assert_eq!(r.deal_vec().len(), 2);
    assert_eq!(r.deal_vec()[0].buy_time, 2);
    assert_eq!(r.deal_vec()[1].buy_time, 3);
    assert_eq!(r.suc_cnt(), 1);
    assert_eq!(r.suc_ratio(), (1, 2));
    let expected = (1.05 / 1.02) * (1.00 / 1.05);
    assert!((value_of(&r) - expected).abs() < 1e-12);
}

#[test]
fn zero_prices() {
    let r = run_single(&[("DOG", 1, "0"), ("DOG", 2, "0"), ("DOG", 3, "5")]);
    assert_eq!(r.deal_vec().len(), 0);
    let r = run_single(&[("DOG", 1, "0"), ("DOG", 2, "1"), ("DOG", 3, "1")]);
    assert_eq!(r.deal_vec().len(), 1);
    assert_eq!(r.suc_ratio(), (1, 1));
}

#[test]
fn duplicate_minute_last_price_wins() {
    let s = store_of(&[("BTC", 7, "1.00"), ("BTC", 7, "2.00")]);
    assert_eq!(s.series[0].get(7), Some(Price { mantissa: 200, scale: 2 }));
    assert_eq!(s.series[0].len(), 1);
    let s = store_of(&[("BTC", 7, "2.00"), ("BTC", 7, "1.00")]);
    assert_eq!(s.series[0].get(7), Some(Price { mantissa: 100, scale: 2 }));
    let a = record("binance", "BTC", "USDT", at_minute(7) + 59_999, "3");
    let mut s2 = store_of(&[("BTC", 7, "1.00")]);
    assert_eq!(s2.add_record(&a), Ok(()));
    assert_eq!(s2.series[0].get(7), Some(Price { mantissa: 3, scale: 0 }));
}

#[test]
fn instruments_kept_apart_in_order_of_first_sight() {
    let s = store_of(&[("BTC", 1, "1"), ("ETH", 1, "2"), ("BTC", 2, "3")]);
    assert_eq!(s.len(), 2);
    assert_eq!(s.keys[0].id(), "binance-BTC-USDT");
    assert_eq!(s.keys[1].id(), "binance-ETH-USDT");
    assert_eq!(s.series[0].len(), 2);
    assert_eq!(s.series[1].len(), 1);
}

#[test]
fn bad_price_is_refused() {
    let mut s = PriceStore::new();
    let d = record("binance", "BTC", "USDT", BASE_TIME, "1.2.3");
    assert_eq!(s.add_record(&d), Err(RecordError::BadPrice));
    assert_eq!(s.len(), 0);
}

fn summary(f: &FinalResult) -> Vec<(String, usize, u64)> {
    f.result_vec().iter().map(|b| (b.id().clone(), b.deal_vec().len(), b.suc_cnt())).collect()
}

#[test]
fn width_does_not_change_report() {
    let mut rows: Vec<(String, i64, String)> = Vec::new();
    for k in 0..20i64 {
        let coin = format!("C{}", k);
        for m in 0..6i64 {
            let p = 100 + ((m * (k + 3)) % 7) * 2;
            rows.push((coin.clone(), m, p.to_string()));
        }
    }
    let refs: Vec<(&str, i64, &str)> =
        rows.iter().map(|(c, m, p)| (c.as_str(), *m, p.as_str())).collect();
    let store = store_of(&refs);
    assert_eq!(store.len(), 20);
    let one = back_test(&store, 1);
    let eight = back_test(&store, 8);
    assert_eq!(summary(&one), summary(&eight));
    assert_eq!(one.result_vec().len(), 20);
    let v1: Vec<f64> = one.result_vec().iter().map(value_of).collect();
    let v8: Vec<f64> = eight.result_vec().iter().map(value_of).collect();
    assert_eq!(v1, v8);
    assert!(summary(&one).iter().any(|s| s.1 > 0));
}

#[test]
fn empty_store_gives_empty_report() {
    let store = PriceStore::new();
    assert_eq!(back_test(&store, 8).result_vec().len(), 0);
}

#[test]
fn batches_cover_all_instruments() {
    assert_eq!(batch_ranges(10, 4), vec![(0, 4), (4, 8), (8, 10)]);
    assert_eq!(batch_ranges(8, 8), vec![(0, 8)]);
    assert_eq!(batch_ranges(0, 8), vec![]);
    assert_eq!(batch_ranges(3, 1), vec![(0, 1), (1, 2), (2, 3)]);
}

#[test]
fn minute_offsets() {
    assert_eq!(minute_offset_exec(BASE_TIME), 0);
    assert_eq!(minute_offset_exec(1624377660000), 1);
    assert_eq!(minute_offset_exec(1624377659999), 0);
    assert_eq!(minute_offset_exec(BASE_TIME - 1), 0);
    assert_eq!(minute_offset_exec(BASE_TIME - 60000), -1);
    assert_eq!(minute_offset_exec(BASE_TIME - 60001), -1);
    assert_eq!(minute_offset_exec(BASE_TIME - 120000), -2);
    assert_ne!(minute_offset_exec(at_minute(3)), minute_offset_exec(at_minute(4)));
}

#[test]
fn generate_from_fields() {
    let line = vec!["0", "x", "binance", "BTC", "USDT", "1624377720000", "a", "b", "c", "35000.5"];
    let d = generate_min_data(&line).unwrap();
    assert_eq!(d.get_id(), "binance-BTC-USDT");
    assert_eq!(d.get_time(), 2);
    assert_eq!(d.get_price(), "35000.5");
}

#[test]
fn generate_errors() {
    let short = vec!["0", "x", "binance", "BTC", "USDT", "1624377720000", "a", "b", "c"];
    assert!(matches!(generate_min_data(&short), Err(RecordError::MissingFields)));
    let bad = vec!["0", "x", "binance", "BTC", "USDT", "16243x77720000", "a", "b", "c", "1"];
    assert!(matches!(generate_min_data(&bad), Err(RecordError::BadTimestamp)));
}

#[test]
fn price_text() {
    assert_eq!(parse_price("1.02"), Some(Price { mantissa: 102, scale: 2 }));
    assert_eq!(parse_price("7"), Some(Price { mantissa: 7, scale: 0 }));
    assert_eq!(parse_price(".5"), Some(Price { mantissa: 5, scale: 1 }));
    assert_eq!(parse_price("3."), Some(Price { mantissa: 3, scale: 0 }));
    assert_eq!(parse_price("0.000123"), Some(Price { mantissa: 123, scale: 6 }));
    assert_eq!(
        parse_price("123456789.123456789"),
        Some(Price { mantissa: 123456789123456789, scale: 9 })
    );
    assert_eq!(parse_price("1234567890.123456789"), None);
    assert_eq!(parse_price(""), None);
    assert_eq!(parse_price("."), None);
    assert_eq!(parse_price("1.2.3"), None);
    assert_eq!(parse_price("-1"), None);
    assert_eq!(parse_price("1e5"), None);
}

#[test]
fn integer_text() {
    assert_eq!(parse_i64("1624377600000"), Some(1624377600000));
    assert_eq!(parse_i64("-5"), Some(-5));
    assert_eq!(parse_i64("+7"), Some(7));
    assert_eq!(parse_i64("9223372036854775807"), Some(i64::MAX));
    assert_eq!(parse_i64("-9223372036854775808"), Some(i64::MIN));
    assert_eq!(parse_i64("9223372036854775808"), None);
    assert_eq!(parse_i64("99999999999999999999999"), None);
    assert_eq!(parse_i64(""), None);
    assert_eq!(parse_i64("-"), None);
    assert_eq!(parse_i64("12a"), None);
}

#[test]
fn series_basics() {
    let mut s = PriceSeries::new();
    assert_eq!(s.get(1), None);
    s.insert(1, Price { mantissa: 5, scale: 0 });
    s.insert(3, Price { mantissa: 6, scale: 0 });
    s.insert(1, Price { mantissa: 7, scale: 0 });
    assert_eq!(s.len(), 2);
    assert_eq!(s.offsets, vec![1, 3]);
    assert_eq!(s.get(1), Some(Price { mantissa: 7, scale: 0 }));
}

fn average_return(rs: &[&BackResult]) -> f64 {
    let sum: f64 = rs.iter().map(|r| value_of(r)).sum();
    sum / rs.len() as f64 - 1.0
}

#[test]
fn average_return_same_in_any_order() {
    let store = store_of(&[
        ("A", 1, "1.00"),
        ("A", 2, "1.02"),
        ("A", 3, "0.99"),
        ("B", 1, "2"),
        ("B", 2, "2.1"),
        ("B", 3, "2.2"),
        ("C", 1, "5"),
    ]);
    let report = back_test(&store, 8);
    let rs: Vec<&BackResult> = report.result_vec().iter().collect();
    let forward = average_return(&rs);
    let mut reversed = rs.clone();
    reversed.reverse();
    let backward = average_return(&reversed);
    let expected = ((0.99 / 1.02) + (2.2 / 2.1) + 1.0) / 3.0 - 1.0;
    assert!((forward - expected).abs() < 1e-12);
    assert!((forward - backward).abs() < 1e-12);
    assert_eq!(report.result_vec()[2].suc_ratio(), (0, 1));
    assert_eq!(report.result_vec()[1].suc_ratio(), (1, 1));
}

#[test]
fn splitting() {
    assert_eq!(split_fields("a\tb\t\tc"), vec!["a", "b", "", "c"]);
    assert_eq!(split_fields(""), vec![""]);
    assert_eq!(split_fields("\t"), vec!["", ""]);
    assert_eq!(split_fields("é\tü"), vec!["é", "ü"]);
    assert_eq!(split_lines("x\ny\n"), vec!["x", "y", ""]);
}

fn text_line(pre: &str, minute: i64, price: &str) -> String {
    format!("0\tx\tbinance\t{}\tUSDT\t{}\ta\tb\tc\t{}", pre, at_minute(minute), price)
}

#[test]
fn text_ingestion() {
    let text = format!(
        "{}\n\n{}\n{}\n{}\n",
        text_line("BTC", 10, "1.00"),
        text_line("BTC", 11, "1.02"),
        text_line("ETH", 11, "9"),
        text_line("BTC", 12, "0.99")
    );
    let mut s = PriceStore::new();
    assert_eq!(s.add_text(&text), Ok(()));
    assert_eq!(s.len(), 2);
    assert_eq!(s.series[0].len(), 3);
    assert_eq!(s.series[0].get(12), Some(Price { mantissa: 99, scale: 2 }));
    let r = back_by_type(&s.keys[0], &s.series[0]);
    assert_eq!(r.deal_vec().len(), 1);
    assert_eq!(r.id(), "binance-BTC-USDT");
}

#[test]
fn text_ingestion_errors() {
    let mut s = PriceStore::new();
    let text = format!("{}\n\nshort\tline\n{}", text_line("BTC", 1, "1"), text_line("BTC", 2, "2"));
    assert_eq!(s.add_text(&text), Err((2, RecordError::MissingFields)));
    let mut s = PriceStore::new();
    let text = format!("{}\n{}", text_line("BTC", 1, "1"), text_line("BTC", 2, "x"));
    assert_eq!(s.add_text(&text), Err((1, RecordError::BadPrice)));
    let mut s = PriceStore::new();
    let text = "0\tx\tbinance\tBTC\tUSDT\tnot-a-time\ta\tb\tc\t1";
    assert_eq!(s.add_text(text), Err((0, RecordError::BadTimestamp)));
}
