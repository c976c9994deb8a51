use chrono::{TimeZone, Utc};
use neurofinance::identifiers::Symbol;
use neurofinance::series::positions_for_symbol;
use neurofinance::timestamp::Timestamp;

fn day(d: u32) -> Timestamp {
    i128::from(Utc.with_ymd_and_hms(2020, 1, d, 0, 0, 0).unwrap().timestamp_nanos_opt().unwrap())
}

#[test]
fn filters_and_sorts_by_symbol() {
    // (day, symbol, close)
    let bars = [(3, "AAA", 30.0), (1, "BBB", 10.0), (1, "AAA", 10.0), (2, "AAA", 20.0)];
    let symbols: Vec<Symbol> = bars.iter().map(|b| Symbol::new(b.1)).collect();
    let times: Vec<Timestamp> = bars.iter().map(|b| day(b.0)).collect();
    let positions = positions_for_symbol(&symbols, &times, &Symbol::new("AAA"));
    let closes: Vec<f64> = positions.iter().map(|&i| bars[i].2).collect();
    assert_eq!(closes, vec![10.0, 20.0, 30.0]);
    let stamps: Vec<Timestamp> = positions.iter().map(|&i| times[i]).collect();
    assert!(stamps.windows(2).all(|w| w[0] < w[1]));
}

#[test]
fn unknown_symbol_returns_empty() {
    let symbols = vec![Symbol::new("AAA")];
    let times = vec![day(1)];
    assert!(positions_for_symbol(&symbols, &times, &Symbol::new("ZZZ")).is_empty());
}

#[test]
fn equal_timestamps_keep_their_order() {
    let symbols: Vec<Symbol> = ["A", "B", "A", "A"].iter().map(|s| Symbol::new(s)).collect();
    let times = vec![day(5), day(1), day(2), day(2)];
    assert_eq!(positions_for_symbol(&symbols, &times, &Symbol::new("A")), vec![2, 3, 0]);
}
