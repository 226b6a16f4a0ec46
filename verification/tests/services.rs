use chrono::Datelike;
use chrono::TimeZone;
use chrono::Utc;
use chrono::Weekday;

use wallet::dates::day_of;
use wallet::dates::find_all_fridays_between;
use wallet::dates::is_friday;
use wallet::digits::u64_to_decimal;
use wallet::error::BackendError;
use wallet::historical::AssetDay;
use wallet::historical::DEFAULT_START_DAY;
use wallet::historical::Historical;
use wallet::price_cache::PriceCache;
use wallet::scheduling::LockMap;

fn ts(y: i32, m: u32, d: u32, h: u32) -> i64 {
    Utc.with_ymd_and_hms(y, m, d, h, 0, 0).unwrap().timestamp()
}

fn bar(symbol: &str, time: i64, close: i64) -> AssetDay {
    AssetDay {
        symbol: symbol.to_string(),
        time,
        open: close,
        high: close,
        low: close,
        close,
        volume: 100,
    }
}

#[test]
fn fridays_agree_with_the_calendar() {
    let from = ts(2020, 1, 1, 0);
    let to = ts(2020, 3, 1, 0);
    let fridays = find_all_fridays_between(from, to);
    let mut expected = 0;
    let mut day = Utc.with_ymd_and_hms(2020, 1, 1, 0, 0, 0).unwrap().date_naive();
    let until = Utc.with_ymd_and_hms(2020, 3, 1, 0, 0, 0).unwrap().date_naive();
    while day < until {
        if day.weekday() == Weekday::Fri {
            expected += 1;
        }
        day = day.succ_opt().unwrap();
    }
    assert_eq!(fridays.len(), expected);
    for f in &fridays {
        assert!(is_friday(*f));
        let date = Utc.timestamp_opt(f * 86400, 0).unwrap();
        assert_eq!(date.weekday(), Weekday::Fri);
    }
}

#[test]
fn default_start_day_is_2006() {
    let epoch = Utc.with_ymd_and_hms(2006, 1, 1, 0, 0, 0).unwrap().timestamp();
    assert_eq!(DEFAULT_START_DAY, epoch / 86400);
}

#[test]
fn fallback_lookup_absorbs_weekends() {
    let symbol = "ANIM3".to_string();
    let friday = day_of(ts(2020, 1, 3, 0));
    let sunday = day_of(ts(2020, 1, 5, 0));
    let historical = vec![bar("ANIM3", ts(2020, 1, 3, 13), 901), bar("OTHER", ts(2020, 1, 5, 13), 555)];
    let hit = Historical::get_for_day_with_fallback(&historical, &symbol, sunday)
        .expect("the Friday bar lies inside the weekend window");
    assert_eq!(hit.close, 901);
    assert_eq!(hit.time, ts(2020, 1, 3, 13));

    // A bar more than seven days old is out of the window.
    let later = day_of(ts(2020, 1, 20, 0));
    let miss = Historical::get_for_day_with_fallback(&historical, &symbol, later);
    assert!(matches!(miss, Err(BackendError::NotFound)));

    // The most recent bar of the window wins.
    let crowded = vec![
        bar("ANIM3", ts(2020, 1, 2, 13), 800),
        bar("ANIM3", ts(2020, 1, 3, 13), 901),
    ];
    let best = Historical::get_for_day_with_fallback(&crowded, &symbol, friday)
        .expect("bars exist in the window");
    assert_eq!(best.close, 901);
}

#[test]
fn current_price_unavailable_is_none() {
    let symbol = "ANIM3".to_string();
    let historical: Vec<AssetDay> = Vec::new();
    let today = day_of(ts(2020, 1, 10, 12));
    assert_eq!(Historical::current_price_for_symbol(&historical, &symbol, today), None);
}

#[test]
fn repeated_refreshes() {
    let symbol = "ANIM3".to_string();
    let today = day_of(ts(2020, 6, 10, 9));
    let mut historical: Vec<AssetDay> = Vec::new();

    // Downloading the data: the first plan reaches back to the distant
    // default, and the source answers with bars through yesterday.
    let (since, until) = Historical::refresh_range(&historical, &symbol, today)
        .expect("an empty store needs a full backfill");
    assert_eq!(since, DEFAULT_START_DAY);
    assert_eq!(until, today - 1);
    let mut fetched = Vec::new();
    let mut d = until - 10;
    while d <= until {
        fetched.push(bar("ANIM3", d * 86400 + 46800, 700 + d % 7));
        d += 1;
    }
    let appended = Historical::ingest_bars(&mut historical, &symbol, since, &fetched);
    assert!(appended > 0);
    let original_count = historical.len();
    assert!(original_count > 0);

    // Refresh again: the store already reaches yesterday, so there is
    // no work and nothing is inserted.
    assert_eq!(Historical::refresh_range(&historical, &symbol, today), None);
    assert_eq!(historical.len(), original_count);

    // Delete the most recent stretch.
    let cutoff = (until - 5) * 86400;
    historical.retain(|b| b.time < cutoff);
    let count = historical.len();
    assert!(count > 0 && count < original_count);

    // Refresh once more: the plan resumes right after the newest
    // surviving bar, and ingesting the same source rows restores the
    // original count.
    let (since2, until2) = Historical::refresh_range(&historical, &symbol, today)
        .expect("a gap needs work");
    assert_eq!(until2, today - 1);
    assert!(since2 > DEFAULT_START_DAY);
    let appended2 = Historical::ingest_bars(&mut historical, &symbol, since2, &fetched);
    assert!(appended2 > 0);
    assert_eq!(historical.len(), original_count);

    // And yet again: still nothing to do.
    assert_eq!(Historical::refresh_range(&historical, &symbol, today), None);
    assert_eq!(historical.len(), original_count);
}

#[test]
fn ingest_discards_bars_before_the_plan() {
    // The source occasionally over-returns one day before the requested
    // range; those bars are dropped, and kept bars get the symbol.
    let symbol = "ANIM3".to_string();
    let mut historical: Vec<AssetDay> = Vec::new();
    let since = day_of(ts(2020, 1, 10, 0));
    let fetched = vec![
        bar("", ts(2020, 1, 9, 13), 100),
        bar("", ts(2020, 1, 10, 13), 200),
        bar("", ts(2020, 1, 11, 13), 300),
    ];
    let appended = Historical::ingest_bars(&mut historical, &symbol, since, &fetched);
    assert_eq!(appended, 2);
    assert_eq!(historical.len(), 2);
    assert_eq!(historical[0].close, 200);
    assert_eq!(historical[0].symbol, "ANIM3");
    assert_eq!(historical[1].close, 300);
}

#[test]
fn lock_exclusivity() {
    let mut locks = LockMap::new();
    let events = "events".to_string();
    let historical = "historical".to_string();
    let symbol = "FAKE4".to_string();

    let guard = locks.try_lock(&events, &symbol).expect("free entry must lock");
    assert_eq!(guard.collection, "events");
    assert_eq!(guard.symbol, "FAKE4");

    // A second taker of the same entry is refused until release.
    assert!(locks.try_lock(&events, &symbol).is_none());
    // The two namespaces never block each other for the same symbol.
    assert!(locks.try_lock(&historical, &symbol).is_some());
    // Another symbol in the same namespace is independent.
    assert!(locks.try_lock(&events, &"OTHER".to_string()).is_some());

    locks.unlock(&events, &symbol);
    assert!(locks.try_lock(&events, &symbol).is_some());
}

#[test]
fn price_cache_keeps_last_observation() {
    let mut cache = PriceCache::new();
    let symbol = "FAKE4".to_string();
    assert_eq!(cache.get_current_price(&symbol), None);
    cache.update_current_price("FAKE4".to_string(), 900);
    assert_eq!(cache.get_current_price(&symbol), Some(900));
    cache.update_current_price("FAKE4".to_string(), 950);
    assert_eq!(cache.get_current_price(&symbol), Some(950));
    cache.update_current_price("OTHER".to_string(), 100);
    assert_eq!(cache.get_current_price(&symbol), Some(950));
    assert_eq!(cache.get_current_price(&"OTHER".to_string()), Some(100));
}

#[test]
fn decimal_rendering() {
    assert_eq!(u64_to_decimal(0), "0");
    assert_eq!(u64_to_decimal(7), "7");
    assert_eq!(u64_to_decimal(42), "42");
    assert_eq!(u64_to_decimal(1203), "1203");
    assert_eq!(u64_to_decimal(18446744073709551615), "18446744073709551615");
}
