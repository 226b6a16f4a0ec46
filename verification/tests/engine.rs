use chrono::TimeZone;
use chrono::Utc;

use wallet::dates::find_all_fridays_between;
use wallet::error::BackendError;
use wallet::event::Event;
use wallet::event::EventDetail;
use wallet::event::StockSplit;
use wallet::event::StockSplitKind;
use wallet::event::get_distinct_symbols;
use wallet::historical::AssetDay;
use wallet::operation::AssetKind;
use wallet::operation::BaseOperation;
use wallet::operation::OperationKind;
use wallet::operation::StockOperation;
use wallet::position::Position;

fn ts(y: i32, m: u32, d: u32, h: u32) -> i64 {
    Utc.with_ymd_and_hms(y, m, d, h, 0, 0).unwrap().timestamp()
}

fn operation(
    symbol: &str,
    time: i64,
    kind: OperationKind,
    price: i64,
    quantity: i64,
    portfolios: Vec<String>,
) -> Event {
    Event {
        id: None,
        symbol: symbol.to_string(),
        time,
        detail: EventDetail::StockOperation(StockOperation {
            asset_kind: AssetKind::Stock,
            operation: BaseOperation {
                price,
                quantity,
                fees: 0,
                kind,
                broker: None,
                portfolios,
            },
        }),
    }
}

fn split(symbol: &str, time: i64, kind: StockSplitKind, factor: i64) -> Event {
    Event {
        id: None,
        symbol: symbol.to_string(),
        time,
        detail: EventDetail::StockSplit(StockSplit { split_kind: kind, factor }),
    }
}

/// One bar per Friday of the range plus one for "today", all closing at
/// the given price, as a deterministic stand-in for the market source.
fn friday_bars(symbol: &str, from: i64, to: i64, close: i64) -> Vec<AssetDay> {
    let mut bars = Vec::new();
    for f in find_all_fridays_between(from, to) {
        bars.push(AssetDay {
            symbol: symbol.to_string(),
            time: f * 86400 + 46800,
            open: close,
            high: close,
            low: close,
            close,
            volume: 100,
        });
    }
    bars.push(AssetDay {
        symbol: symbol.to_string(),
        time: (to / 86400) * 86400 + 46800,
        open: close,
        high: close,
        low: close,
        close,
        volume: 100,
    });
    bars
}

// Prices are fixed-point integers in cents: 10.00 is written 1000.

#[test]
fn sale_math() {
    let symbol = "FAKE4".to_string();
    let events = vec![
        operation("FAKE4", ts(2020, 1, 1, 12), OperationKind::Purchase, 1000, 100, vec![]),
        operation("FAKE4", ts(2020, 2, 1, 12), OperationKind::Sale, 1200, 50, vec![]),
    ];
    let mut positions: Vec<Position> = Vec::new();
    let historical: Vec<AssetDay> = Vec::new();
    let now = ts(2020, 2, 2, 12);
    let p = Position::calculate_for_symbol(
        &events, &mut positions, &historical, &symbol, None, now)
        .expect("calculation should succeed");
    assert_eq!(p.quantity, 50);
    assert_eq!(p.cost_basis, 50000);
    assert_eq!(p.realized, 10000);
    assert_eq!(p.average_price, 1000);
}

#[test]
fn split_correctness() {
    let symbol = "FAKE4".to_string();
    let events = vec![
        operation("FAKE4", ts(2020, 1, 1, 12), OperationKind::Purchase, 1000, 100, vec![]),
        split("FAKE4", ts(2020, 1, 2, 12), StockSplitKind::Split, 2),
    ];
    let mut positions: Vec<Position> = Vec::new();
    let historical: Vec<AssetDay> = Vec::new();
    let now = ts(2020, 1, 3, 10);
    let p = Position::calculate_for_symbol(
        &events, &mut positions, &historical, &symbol, None, now)
        .expect("calculation should succeed");
    assert_eq!(p.quantity, 200);
    assert_eq!(p.average_price, 500);
    assert_eq!(p.cost_basis, 100000);
}

#[test]
fn reverse_split() {
    let symbol = "FAKE4".to_string();
    let events = vec![
        operation("FAKE4", ts(2020, 1, 1, 12), OperationKind::Purchase, 500, 200, vec![]),
        split("FAKE4", ts(2020, 1, 2, 12), StockSplitKind::ReverseSplit, 2),
    ];
    let mut positions: Vec<Position> = Vec::new();
    let historical: Vec<AssetDay> = Vec::new();
    let now = ts(2020, 1, 3, 10);
    let p = Position::calculate_for_symbol(
        &events, &mut positions, &historical, &symbol, None, now)
        .expect("calculation should succeed");
    assert_eq!(p.quantity, 100);
    assert_eq!(p.average_price, 1000);
    assert_eq!(p.cost_basis, 100000);
}

#[test]
fn oversell_is_invalid_ledger_state() {
    let symbol = "FAKE4".to_string();
    let events = vec![
        operation("FAKE4", ts(2020, 1, 1, 12), OperationKind::Purchase, 1000, 10, vec![]),
        operation("FAKE4", ts(2020, 1, 2, 12), OperationKind::Sale, 1000, 20, vec![]),
    ];
    let mut positions: Vec<Position> = Vec::new();
    let historical: Vec<AssetDay> = Vec::new();
    let now = ts(2020, 1, 3, 10);
    let r = Position::calculate_for_symbol(
        &events, &mut positions, &historical, &symbol, None, now);
    assert!(matches!(r, Err(BackendError::InvalidLedgerState)));
    assert_eq!(positions.len(), 0);
}

#[test]
fn sale_with_nothing_held_is_invalid_ledger_state() {
    let symbol = "FAKE4".to_string();
    let events = vec![
        operation("FAKE4", ts(2020, 1, 1, 12), OperationKind::Sale, 1000, 1, vec![]),
    ];
    let mut positions: Vec<Position> = Vec::new();
    let historical: Vec<AssetDay> = Vec::new();
    let r = Position::calculate_for_symbol(
        &events, &mut positions, &historical, &symbol, None, ts(2020, 1, 2, 10));
    assert!(matches!(r, Err(BackendError::InvalidLedgerState)));
}

#[test]
fn position_calculation() {
    // The FAKE4 ledger: buy 100@10.00, sell 50@12.00, buy 50@4.00 into a
    // portfolio, a 2-for-1 split, then buy 100@5.00 on a Friday.
    let symbol = "FAKE4".to_string();
    let oid = "FakePortfolio".to_string();
    let events = vec![
        operation("FAKE4", ts(2020, 1, 1, 12), OperationKind::Purchase, 1000, 100, vec![]),
        operation("FAKE4", ts(2020, 2, 1, 12), OperationKind::Sale, 1200, 50, vec![]),
        operation(
            "FAKE4", ts(2020, 3, 1, 12), OperationKind::Purchase, 400, 50,
            vec![oid.clone()]),
        split("FAKE4", ts(2020, 3, 2, 12), StockSplitKind::Split, 2),
        operation("FAKE4", ts(2020, 3, 27, 12), OperationKind::Purchase, 500, 100, vec![]),
    ];
    let now = ts(2020, 4, 10, 15);
    // Every Friday (and "today") closes at 9.00.
    let historical = friday_bars("FAKE4", ts(2020, 1, 1, 0), now, 900);
    let mut positions: Vec<Position> = Vec::new();

    // A full update first, so the later call resumes from a checkpoint.
    let all = Position::calculate_all(&events, &mut positions, &historical, now)
        .expect("full update should succeed");
    assert_eq!(all.len(), 1);
    assert_eq!(all[0].id, Some("0".to_string()));

    let position = Position::calculate_for_symbol(
        &events, &mut positions, &historical, &symbol, None, now)
        .expect("calculation should succeed");
    let same_position = Position::calculate_for_symbol(
        &events, &mut positions, &historical, &symbol, None, now)
        .expect("recalculation should succeed");

    assert_eq!(position.cost_basis, same_position.cost_basis);
    assert_eq!(position.quantity, same_position.quantity);
    assert_eq!(position.average_price, same_position.average_price);
    assert_eq!(position.realized, same_position.realized);
    assert_eq!(position.recent_operations, same_position.recent_operations);

    assert_eq!(position.symbol, symbol);
    assert_eq!(position.average_price, 400);
    assert_eq!(position.cost_basis, 120000);
    assert_eq!(position.quantity, 300);
    assert_eq!(position.current_price, 900);
    assert_eq!(position.gain, 150000);
    assert_eq!(position.realized, 10000);
    assert!(position.recent_operations.is_empty());
    assert_eq!(position.portfolio, None);

    // The persisted weekly snapshots up to 2020-04-04, for the unscoped
    // log: (day, cost_basis, quantity, realized, gain).
    let expected = vec![
        ("2020-01-03", 100000, 100, 0, -10000),
        ("2020-01-10", 100000, 100, 0, -10000),
        ("2020-01-17", 100000, 100, 0, -10000),
        ("2020-01-24", 100000, 100, 0, -10000),
        ("2020-01-31", 100000, 100, 0, -10000),
        ("2020-02-07", 50000, 50, 10000, -5000),
        ("2020-02-14", 50000, 50, 10000, -5000),
        ("2020-02-21", 50000, 50, 10000, -5000),
        ("2020-02-28", 50000, 50, 10000, -5000),
        ("2020-03-06", 70000, 200, 10000, 110000),
        ("2020-03-13", 70000, 200, 10000, 110000),
        ("2020-03-20", 70000, 200, 10000, 110000),
        ("2020-03-27", 120000, 300, 10000, 150000),
        ("2020-04-03", 120000, 300, 10000, 150000),
    ];
    // Every persisted snapshot row has its reported operations cleared.
    for row in &positions {
        assert!(row.recent_operations.is_empty());
    }

    let cutoff = ts(2020, 4, 4, 0);
    let early: Vec<&Position> = positions
        .iter()
        .filter(|p| p.time < cutoff && p.portfolio.is_none())
        .collect();
    assert_eq!(early.len(), expected.len());
    for (row, (date, cost_basis, quantity, realized, gain)) in early.iter().zip(&expected) {
        let day = Utc.timestamp_opt(row.time, 0).unwrap().date_naive().to_string();
        assert_eq!(&day, date);
        assert_eq!(row.cost_basis, *cost_basis);
        assert_eq!(row.quantity, *quantity);
        assert_eq!(row.realized, *realized);
        assert_eq!(row.gain, *gain);
    }

    // The portfolio-scoped log sees only its own purchase; splits carry
    // no portfolios, so a scoped replay skips them.
    let scoped = Position::calculate_for_symbol(
        &events, &mut positions, &historical, &symbol, Some(oid.clone()), now)
        .expect("scoped calculation should succeed");
    assert_eq!(scoped.quantity, 50);
    assert_eq!(scoped.cost_basis, 20000);
    let scoped_rows: Vec<&Position> = positions
        .iter()
        .filter(|p| p.time < cutoff && p.portfolio.as_deref() == Some(oid.as_str()))
        .collect();
    assert_eq!(scoped_rows.len(), 5);
}

#[test]
fn snapshot_coverage() {
    // A position opened 2020-01-01 and still open "today" is covered by
    // one persisted row per Friday since it opened, plus the one current
    // entry the caller receives.
    let symbol = "FAKE4".to_string();
    let events = vec![
        operation("FAKE4", ts(2020, 1, 1, 12), OperationKind::Purchase, 1000, 100, vec![]),
    ];
    let now = ts(2020, 4, 10, 15);
    let historical: Vec<AssetDay> = Vec::new();
    let mut positions: Vec<Position> = Vec::new();
    let current = Position::calculate_for_symbol(
        &events, &mut positions, &historical, &symbol, None, now)
        .expect("calculation should succeed");
    assert!(current.quantity > 0);
    let fridays = find_all_fridays_between(ts(2020, 1, 1, 12), now);
    assert_eq!(positions.len(), fridays.len());
    assert_eq!(positions.len() + 1, fridays.len() + 1);
}

#[test]
fn resumability() {
    let symbol = "FAKE4".to_string();
    let events_first = vec![
        operation("FAKE4", ts(2020, 1, 1, 12), OperationKind::Purchase, 1000, 100, vec![]),
        operation("FAKE4", ts(2020, 1, 20, 12), OperationKind::Sale, 1500, 30, vec![]),
    ];
    let mut events_all = events_first.clone();
    events_all.push(operation(
        "FAKE4", ts(2020, 2, 10, 12), OperationKind::Purchase, 800, 10, vec![]));
    let historical: Vec<AssetDay> = Vec::new();

    // One pass over the full history.
    let mut fresh: Vec<Position> = Vec::new();
    let full = Position::calculate_for_symbol(
        &events_all, &mut fresh, &historical, &symbol, None, ts(2020, 3, 1, 12))
        .expect("full replay should succeed");

    // A checkpointed pass: first compute through January, persisting
    // snapshots, then replay only what came later.
    let mut seeded: Vec<Position> = Vec::new();
    Position::calculate_for_symbol(
        &events_first, &mut seeded, &historical, &symbol, None, ts(2020, 2, 1, 12))
        .expect("checkpointing replay should succeed");
    assert!(!seeded.is_empty());
    for row in &seeded {
        assert!(row.recent_operations.is_empty());
    }
    let resumed = Position::calculate_for_symbol(
        &events_all, &mut seeded, &historical, &symbol, None, ts(2020, 3, 1, 12))
        .expect("resumed replay should succeed");

    assert_eq!(full.quantity, resumed.quantity);
    assert_eq!(full.cost_basis, resumed.cost_basis);
    assert_eq!(full.average_price, resumed.average_price);
    assert_eq!(full.realized, resumed.realized);
}

#[test]
fn batch_is_sorted_and_labeled() {
    let events = vec![
        operation("ZZZZ3", ts(2020, 1, 1, 12), OperationKind::Purchase, 1000, 10, vec![]),
        operation("AAAA4", ts(2020, 1, 2, 12), OperationKind::Purchase, 2000, 5, vec![]),
        // A closed position never shows up in the batch.
        operation("GONE3", ts(2020, 1, 3, 12), OperationKind::Purchase, 100, 7, vec![]),
        operation("GONE3", ts(2020, 1, 4, 12), OperationKind::Sale, 100, 7, vec![]),
    ];
    let historical: Vec<AssetDay> = Vec::new();
    let mut positions: Vec<Position> = Vec::new();
    let batch = Position::calculate_all(
        &events, &mut positions, &historical, ts(2020, 2, 1, 12))
        .expect("batch should succeed");
    assert_eq!(batch.len(), 2);
    assert_eq!(batch[0].symbol, "AAAA4");
    assert_eq!(batch[1].symbol, "ZZZZ3");
    // Identifiers were assigned in collection order, before the sort.
    assert_eq!(batch[0].id, Some("1".to_string()));
    assert_eq!(batch[1].id, Some("0".to_string()));
}

#[test]
fn batch_fails_as_a_whole() {
    let events = vec![
        operation("GOOD4", ts(2020, 1, 1, 12), OperationKind::Purchase, 1000, 10, vec![]),
        operation("BAD4", ts(2020, 1, 2, 12), OperationKind::Sale, 1000, 10, vec![]),
    ];
    let historical: Vec<AssetDay> = Vec::new();
    let mut positions: Vec<Position> = Vec::new();
    let r = Position::calculate_all(
        &events, &mut positions, &historical, ts(2020, 2, 1, 12));
    assert!(matches!(r, Err(BackendError::InvalidLedgerState)));
}

#[test]
fn distinct_symbols_first_appearance_order() {
    let oid = "P1X".to_string();
    let events = vec![
        operation("BBBB3", ts(2020, 1, 1, 12), OperationKind::Purchase, 1, 1, vec![]),
        operation("AAAA4", ts(2020, 1, 2, 12), OperationKind::Purchase, 1, 1, vec![oid.clone()]),
        operation("BBBB3", ts(2020, 1, 3, 12), OperationKind::Sale, 1, 1, vec![]),
        split("CCCC5", ts(2020, 1, 4, 12), StockSplitKind::Split, 2),
    ];
    let unscoped = get_distinct_symbols(&events, &None);
    assert_eq!(unscoped, vec!["BBBB3", "AAAA4", "CCCC5"]);
    // Splits carry no portfolios, so a scoped query never sees them.
    let scoped = get_distinct_symbols(&events, &Some(oid));
    assert_eq!(scoped, vec!["AAAA4"]);
}

#[test]
fn history_groups_by_day() {
    let day = |y, m, d| ts(y, m, d, 12);
    let row = |time: i64, portfolio: Option<String>| Position {
        id: None,
        symbol: "FAKE4".to_string(),
        average_price: 1000,
        cost_basis: 100000,
        quantity: 100,
        time,
        current_price: 0,
        gain: 0,
        realized: 0,
        recent_operations: Vec::new(),
        portfolio,
    };
    let positions = vec![
        row(day(2020, 1, 3), None),
        row(day(2020, 1, 10), None),
        row(day(2020, 1, 3) + 60, Some("P1X".to_string())),
    ];
    let history = Position::get_history_for_portfolio(&positions, &None, None);
    assert_eq!(history.len(), 2);
    assert_eq!(history[0].0, day(2020, 1, 3) / 86400);
    assert_eq!(history[0].1.len(), 2);
    assert_eq!(history[1].0, day(2020, 1, 10) / 86400);
    assert_eq!(history[1].1.len(), 1);

    let scoped = Position::get_history_for_portfolio(
        &positions, &Some("P1X".to_string()), None);
    assert_eq!(scoped.len(), 1);
    assert_eq!(scoped[0].1.len(), 1);

    let since = Position::get_history_for_portfolio(&positions, &None, Some(day(2020, 1, 5)));
    assert_eq!(since.len(), 1);
    assert_eq!(since[0].0, day(2020, 1, 10) / 86400);
}

#[test]
fn current_price_is_best_effort() {
    // With no bar in the week-long window, the current price and gain
    // stay at their defaults rather than failing the calculation.
    let symbol = "FAKE4".to_string();
    let events = vec![
        operation("FAKE4", ts(2020, 1, 1, 12), OperationKind::Purchase, 1000, 100, vec![]),
    ];
    let historical: Vec<AssetDay> = Vec::new();
    let mut positions: Vec<Position> = Vec::new();
    let p = Position::calculate_for_symbol(
        &events, &mut positions, &historical, &symbol, None, ts(2020, 1, 10, 12))
        .expect("calculation should succeed");
    assert_eq!(p.current_price, 0);
    assert_eq!(p.gain, 0);
}

#[test]
fn average_price_carries_forward_when_closed() {
    // Selling everything zeroes quantity and cost basis; the average
    // price is carried forward unchanged rather than recomputed.
    let symbol = "FAKE4".to_string();
    let events = vec![
        operation("FAKE4", ts(2020, 1, 1, 12), OperationKind::Purchase, 1000, 100, vec![]),
        operation("FAKE4", ts(2020, 1, 2, 12), OperationKind::Sale, 1000, 100, vec![]),
    ];
    let mut positions: Vec<Position> = Vec::new();
    let historical: Vec<AssetDay> = Vec::new();
    let p = Position::calculate_for_symbol(
        &events, &mut positions, &historical, &symbol, None, ts(2020, 1, 3, 10))
        .expect("calculation should succeed");
    assert_eq!(p.quantity, 0);
    assert_eq!(p.cost_basis, 0);
    assert_eq!(p.average_price, 1000);
    assert_eq!(p.realized, 0);
}

#[test]
fn reverse_split_truncates_and_reaverages() {
    // An odd lot through a 2-for-1 reverse split: the share count
    // truncates and the average is recomputed from the untouched cost
    // basis over the new quantity.
    let symbol = "FAKE4".to_string();
    let events = vec![
        operation("FAKE4", ts(2020, 1, 1, 12), OperationKind::Purchase, 1000, 101, vec![]),
        split("FAKE4", ts(2020, 1, 2, 12), StockSplitKind::ReverseSplit, 2),
    ];
    let mut positions: Vec<Position> = Vec::new();
    let historical: Vec<AssetDay> = Vec::new();
    let p = Position::calculate_for_symbol(
        &events, &mut positions, &historical, &symbol, None, ts(2020, 1, 3, 10))
        .expect("calculation should succeed");
    assert_eq!(p.quantity, 50);
    assert_eq!(p.cost_basis, 101000);
    assert_eq!(p.average_price, 2020);
}

#[test]
fn invalid_split_factor_is_invalid_ledger_state() {
    let symbol = "FAKE4".to_string();
    let events = vec![
        operation("FAKE4", ts(2020, 1, 1, 12), OperationKind::Purchase, 1000, 100, vec![]),
        split("FAKE4", ts(2020, 1, 2, 12), StockSplitKind::Split, 0),
    ];
    let mut positions: Vec<Position> = Vec::new();
    let historical: Vec<AssetDay> = Vec::new();
    let r = Position::calculate_for_symbol(
        &events, &mut positions, &historical, &symbol, None, ts(2020, 1, 3, 10));
    assert!(matches!(r, Err(BackendError::InvalidLedgerState)));
}
