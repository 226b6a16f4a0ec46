//! Daily price bars and the incremental backfill that maintains them.
//!
//! Bars live in an append-only in-memory collection; one row per trading
//! day per symbol, written only by refresh operations and never updated
//! in place. Prices are fixed-point integers in minor currency units.

use vstd::prelude::*;

use crate::dates::MAX_DAY;
use crate::dates::MAX_TS;
use crate::dates::spec_day_of;
use crate::dates::spec_end_of;
use crate::dates::spec_start_of;
use crate::dates::day_of;
use crate::dates::end_of;
use crate::dates::start_of;
use crate::error::BackendError;

verus! {

/// The first day a full-history backfill reaches back to: 2006-01-01.
pub const DEFAULT_START_DAY: i64 = 13149;

/// The mathematical content of an [`AssetDay`].
#[verifier::ext_equal]
pub ghost struct AssetDayView {
    pub symbol: Seq<char>,
    pub time: int,
    pub open: int,
    pub high: int,
    pub low: int,
    pub close: int,
    pub volume: int,
}

/// One day's open/high/low/close/volume bar for a symbol.
#[derive(Debug, PartialEq)]
pub struct AssetDay {
    pub symbol: String,
    pub time: i64,
    pub open: i64,
    pub high: i64,
    pub low: i64,
    pub close: i64,
    pub volume: i64,
}

impl View for AssetDay {
    type V = AssetDayView;

    open spec fn view(&self) -> AssetDayView {
        AssetDayView {
            symbol: self.symbol@,
            time: self.time as int,
            open: self.open as int,
            high: self.high as int,
            low: self.low as int,
            close: self.close as int,
            volume: self.volume as int,
        }
    }
}

impl DeepView for AssetDay {
    type V = AssetDayView;

    open spec fn deep_view(&self) -> AssetDayView {
        self.view()
    }
}

impl Clone for AssetDay {
    fn clone(&self) -> (res: Self)
        ensures
            res@ == self@,
    {
        AssetDay {
            symbol: self.symbol.clone(),
            time: self.time,
            open: self.open,
            high: self.high,
            low: self.low,
            close: self.close,
            volume: self.volume,
        }
    }
}

/// Whether a bar belongs to `symbol` with a time inside `[lo, hi]`.
pub open spec fn spec_bar_in_window(b: AssetDayView, symbol: Seq<char>, lo: int, hi: int) -> bool {
    b.symbol == symbol && lo <= b.time <= hi
}

/// The most recent bar for `symbol` inside `[lo, hi]`, ties resolved
/// toward the later row.
pub open spec fn spec_best_bar(
    rows: Seq<AssetDayView>,
    symbol: Seq<char>,
    lo: int,
    hi: int,
) -> Option<AssetDayView>
    decreases rows.len(),
{
    if rows.len() == 0 {
        None
    } else {
        let rest = spec_best_bar(rows.drop_last(), symbol, lo, hi);
        if spec_bar_in_window(rows.last(), symbol, lo, hi) {
            match rest {
                None => Some(rows.last()),
                Some(y) => if rows.last().time >= y.time {
                    Some(rows.last())
                } else {
                    Some(y)
                },
            }
        } else {
            rest
        }
    }
}

/// What the best-bar choice promises: it exists exactly when a bar
/// matches, it matches itself, and no matching bar is more recent.
pub proof fn lemma_best_bar_properties(
    rows: Seq<AssetDayView>,
    symbol: Seq<char>,
    lo: int,
    hi: int,
)
    ensures
        spec_best_bar(rows, symbol, lo, hi) is None
            <==> forall|k: int| 0 <= k < rows.len()
                ==> !spec_bar_in_window(#[trigger] rows[k], symbol, lo, hi),
        match spec_best_bar(rows, symbol, lo, hi) {
            None => true,
            Some(b) => spec_bar_in_window(b, symbol, lo, hi)
                && (exists|k: int| 0 <= k < rows.len() && rows[k] == b)
                && forall|k: int| 0 <= k < rows.len()
                    && spec_bar_in_window(#[trigger] rows[k], symbol, lo, hi)
                    ==> rows[k].time <= b.time,
        },
    decreases rows.len(),
{
    if rows.len() > 0 {
        lemma_best_bar_properties(rows.drop_last(), symbol, lo, hi);
        assert forall|k: int| 0 <= k < rows.len() - 1
            implies rows.drop_last()[k] == rows[k] by {}
        match spec_best_bar(rows, symbol, lo, hi) {
            None => {},
            Some(b) => {
                if spec_bar_in_window(rows.last(), symbol, lo, hi) {
                    match spec_best_bar(rows.drop_last(), symbol, lo, hi) {
                        None => {
                            assert(rows[rows.len() - 1] == b);
                        },
                        Some(y) => {
                            if rows.last().time >= y.time {
                                assert(rows[rows.len() - 1] == b);
                            } else {
                                let k = choose|k: int|
                                    0 <= k < rows.drop_last().len() && rows.drop_last()[k] == y;
                                assert(rows[k] == b);
                            }
                        },
                    }
                } else {
                    let y = spec_best_bar(rows.drop_last(), symbol, lo, hi).unwrap();
                    let k = choose|k: int|
                        0 <= k < rows.drop_last().len() && rows.drop_last()[k] == y;
                    assert(rows[k] == b);
                }
            },
        }
    }
}

/// The window a fallback lookup for `day` searches: from seven days
/// before at midnight through the end of `day` itself, so weekends and
/// holidays are absorbed.
pub open spec fn spec_fallback_window(day: int) -> (int, int) {
    (spec_start_of(day - 7), spec_end_of(day))
}

/// The stateless facade over the historical price collection.
pub struct Historical {}

impl Historical {
    /// The most recent stored bar for `symbol` within the week ending on
    /// `date_day`; `NotFound` when no bar falls in that window.
    pub fn get_for_day_with_fallback(
        historical: &Vec<AssetDay>,
        symbol: &String,
        date_day: i64,
    ) -> (r: Result<AssetDay, BackendError>)
        requires
            7 <= date_day <= MAX_DAY,
        ensures
            match r {
                Ok(b) => spec_best_bar(
                    historical.deep_view(), symbol@,
                    spec_fallback_window(date_day as int).0,
                    spec_fallback_window(date_day as int).1) == Some(b@),
                Err(e) => e == BackendError::NotFound
                    && spec_best_bar(
                        historical.deep_view(), symbol@,
                        spec_fallback_window(date_day as int).0,
                        spec_fallback_window(date_day as int).1) is None,
            },
    {
        let lo = start_of(date_day - 7);
        let hi = end_of(date_day);
        let ghost rows = historical.deep_view();
        let mut best: Option<&AssetDay> = None;
        let mut i: usize = 0;
        proof {
            assert(rows.take(0int) =~= Seq::<AssetDayView>::empty());
        }
        while i < historical.len()
            invariant
                0 <= i <= historical@.len(),
                rows == historical.deep_view(),
                rows.len() == historical@.len(),
                lo as int == spec_fallback_window(date_day as int).0,
                hi as int == spec_end_of(date_day as int),
                match best {
                    None => spec_best_bar(rows.take(i as int), symbol@, lo as int, hi as int)
                        is None,
                    Some(b) => spec_best_bar(rows.take(i as int), symbol@, lo as int, hi as int)
                        == Some(b@),
                },
            decreases historical@.len() - i,
        {
            let b = &historical[i];
            proof {
                assert(rows[i as int] == b@);
                assert(rows.take(i + 1int).drop_last() =~= rows.take(i as int));
                assert(rows.take(i + 1int).last() == b@);
            }
            if b.symbol.eq(symbol) && lo <= b.time && b.time <= hi {
                match best {
                    None => {
                        best = Some(b);
                    },
                    Some(cur) => {
                        if b.time >= cur.time {
                            best = Some(b);
                        }
                    },
                }
            }
            i = i + 1;
        }
        proof {
            assert(rows.take(rows.len() as int) =~= rows);
        }
        match best {
            Some(b) => Ok(b.clone()),
            None => Err(BackendError::NotFound),
        }
    }

    /// Today's best-effort price for a symbol: the close of the most
    /// recent stored bar in the week ending today, or nothing when the
    /// store has no such bar. Current price is always best-effort; this
    /// never fails.
    pub fn current_price_for_symbol(
        historical: &Vec<AssetDay>,
        symbol: &String,
        today_day: i64,
    ) -> (r: Option<i64>)
        requires
            7 <= today_day <= MAX_DAY,
        ensures
            match spec_best_bar(
                historical.deep_view(), symbol@,
                spec_fallback_window(today_day as int).0,
                spec_fallback_window(today_day as int).1) {
                Some(b) => r == Some(b.close as i64) && b.close == r.unwrap() as int,
                None => r is None,
            },
    {
        match Self::get_for_day_with_fallback(historical, symbol, today_day) {
            Ok(bar) => Some(bar.close),
            Err(_) => None,
        }
    }
}

/// The latest stored bar time for a symbol, if any.
pub open spec fn spec_latest_bar_time(rows: Seq<AssetDayView>, symbol: Seq<char>) -> Option<int> {
    match spec_best_bar(rows, symbol, 0, MAX_TS as int) {
        None => None,
        Some(b) => Some(b.time),
    }
}

/// The day range `[since, until]` a refresh for `symbol` must fetch:
/// from the day after the latest stored bar (or the fixed distant start
/// for a first backfill) through yesterday; `None` when that range is
/// empty and there is no work.
pub open spec fn spec_refresh_range(
    rows: Seq<AssetDayView>,
    symbol: Seq<char>,
    today_day: int,
) -> Option<(int, int)> {
    let since = match spec_latest_bar_time(rows, symbol) {
        Some(t) => spec_day_of(t) + 1,
        None => DEFAULT_START_DAY as int,
    };
    let until = today_day - 1;
    if since > until {
        None
    } else {
        Some((since, until))
    }
}

impl Historical {
    /// Plan a refresh: the inclusive day range to fetch for `symbol`,
    /// or `None` when the store already reaches yesterday.
    pub fn refresh_range(
        historical: &Vec<AssetDay>,
        symbol: &String,
        today_day: i64,
    ) -> (r: Option<(i64, i64)>)
        requires
            0 <= today_day <= MAX_DAY,
        ensures
            match r {
                Some(range) => spec_refresh_range(
                    historical.deep_view(), symbol@, today_day as int)
                    == Some((range.0 as int, range.1 as int)),
                None => spec_refresh_range(
                    historical.deep_view(), symbol@, today_day as int) is None,
            },
    {
        let mut latest: Option<i64> = None;
        let ghost rows = historical.deep_view();
        let mut i: usize = 0;
        proof {
            assert(rows.take(0int) =~= Seq::<AssetDayView>::empty());
        }
        while i < historical.len()
            invariant
                0 <= i <= historical@.len(),
                rows == historical.deep_view(),
                rows.len() == historical@.len(),
                match latest {
                    None => spec_best_bar(rows.take(i as int), symbol@, 0, MAX_TS as int)
                        is None,
                    Some(t) => 0 <= t <= MAX_TS
                        && (exists|b: AssetDayView|
                            spec_best_bar(rows.take(i as int), symbol@, 0, MAX_TS as int)
                                == Some(b) && b.time == t as int),
                },
            decreases historical@.len() - i,
        {
            let b = &historical[i];
            proof {
                assert(rows[i as int] == b@);
                assert(rows.take(i + 1int).drop_last() =~= rows.take(i as int));
                assert(rows.take(i + 1int).last() == b@);
            }
            if b.symbol.eq(symbol) && 0 <= b.time && b.time <= MAX_TS {
                match latest {
                    None => {
                        latest = Some(b.time);
                    },
                    Some(t) => {
                        if b.time >= t {
                            latest = Some(b.time);
                        }
                    },
                }
            }
            i = i + 1;
        }
        proof {
            assert(rows.take(rows.len() as int) =~= rows);
        }
        let since: i64 = match latest {
            Some(t) => day_of(t) + 1,
            None => DEFAULT_START_DAY,
        };
        let until: i64 = today_day - 1;
        if since > until {
            None
        } else {
            Some((since, until))
        }
    }

    /// Ingest fetched bars: keep those dated on or after the planned
    /// `since_day` (the source occasionally over-returns one earlier
    /// day), stamp them with the symbol, and append them in order.
    pub fn ingest_bars(
        historical: &mut Vec<AssetDay>,
        symbol: &String,
        since_day: i64,
        bars: &Vec<AssetDay>,
    ) -> (appended: usize)
        requires
            0 <= since_day <= MAX_DAY,
        ensures
            final(historical).deep_view() == old(historical).deep_view()
                + bars.deep_view()
                    .filter(|b: AssetDayView| b.time >= spec_start_of(since_day as int))
                    .map_values(|b: AssetDayView| AssetDayView { symbol: symbol@, ..b }),
            appended == final(historical).deep_view().len() - old(historical).deep_view().len(),
    {
        let since_ts = start_of(since_day);
        let ghost pred = |b: AssetDayView| b.time >= spec_start_of(since_day as int);
        let ghost stamp = |b: AssetDayView| AssetDayView { symbol: symbol@, ..b };
        let mut appended: usize = 0;
        let mut i: usize = 0;
        proof {
            reveal_with_fuel(Seq::<AssetDayView>::filter, 2);
            assert(bars.deep_view().take(0int).filter(pred).map_values(stamp)
                =~= Seq::<AssetDayView>::empty());
            assert(historical.deep_view()
                =~= old(historical).deep_view()
                    + bars.deep_view().take(0int).filter(pred).map_values(stamp));
        }
        while i < bars.len()
            invariant
                0 <= i <= bars@.len(),
                bars.deep_view().len() == bars@.len(),
                since_ts as int == spec_start_of(since_day as int),
                pred == (|b: AssetDayView| b.time >= spec_start_of(since_day as int)),
                stamp == (|b: AssetDayView| AssetDayView { symbol: symbol@, ..b }),
                historical.deep_view() == old(historical).deep_view()
                    + bars.deep_view().take(i as int).filter(pred).map_values(stamp),
                appended == historical.deep_view().len() - old(historical).deep_view().len(),
                appended <= i,
            decreases bars@.len() - i,
        {
            let b = &bars[i];
            proof {
                reveal_with_fuel(Seq::<AssetDayView>::filter, 2);
                assert(bars.deep_view()[i as int] == b@);
                assert(bars.deep_view().take(i + 1int).drop_last()
                    =~= bars.deep_view().take(i as int));
                assert(bars.deep_view().take(i + 1int).last() == b@);
            }
            if b.time >= since_ts {
                let mut stamped = b.clone();
                stamped.symbol = symbol.clone();
                let ghost pre = historical.deep_view();
                historical.push(stamped);
                appended = appended + 1;
                proof {
                    assert(stamped@ == stamp(b@));
                    assert(historical.deep_view() =~= pre.push(stamp(b@)));
                    assert(bars.deep_view().take(i + 1int).filter(pred)
                        =~= bars.deep_view().take(i as int).filter(pred).push(b@));
                    assert(bars.deep_view().take(i + 1int).filter(pred).map_values(stamp)
                        =~= bars.deep_view().take(i as int).filter(pred).map_values(stamp)
                            .push(stamp(b@)));
                    assert(historical.deep_view()
                        =~= old(historical).deep_view()
                            + bars.deep_view().take(i + 1int).filter(pred).map_values(stamp));
                }
            } else {
                proof {
                    assert(!pred(b@));
                    assert(bars.deep_view().take(i + 1int).filter(pred)
                        =~= bars.deep_view().take(i as int).filter(pred));
                }
            }
            i = i + 1;
        }
        proof {
            assert(bars.deep_view().take(bars@.len() as int) =~= bars.deep_view());
        }
        appended
    }
}

/// Backfill idempotence: once a refresh has stored a bar for yesterday,
/// planning another refresh for the same day finds no work, so calling
/// refresh twice in succession after a full backfill inserts nothing the
/// second time.
pub proof fn lemma_refresh_idempotent(
    rows: Seq<AssetDayView>,
    appended: Seq<AssetDayView>,
    symbol: Seq<char>,
    today_day: int,
    since: int,
    until: int,
)
    requires
        1 <= today_day <= MAX_DAY as int,
        spec_refresh_range(rows, symbol, today_day) == Some((since, until)),
        forall|k: int| 0 <= k < appended.len()
            ==> (#[trigger] appended[k]).symbol == symbol
                && appended[k].time <= spec_end_of(until),
        exists|k: int| 0 <= k < appended.len()
            && spec_start_of(until) <= (#[trigger] appended[k]).time,
    ensures
        spec_refresh_range(rows + appended, symbol, today_day) is None,
{
    let combined = rows + appended;
    let k = choose|k: int| 0 <= k < appended.len()
        && spec_start_of(until) <= (#[trigger] appended[k]).time;
    let y = appended[k];
    assert(combined[rows.len() + k] == y);
    assert(until == today_day - 1);
    assert(0 <= until <= MAX_DAY);
    assert(spec_end_of(until) <= MAX_TS) by {
        assert(86400 * until <= 86400 * (MAX_DAY as int - 1));
    }
    assert(spec_bar_in_window(y, symbol, 0, MAX_TS as int));
    lemma_best_bar_properties(combined, symbol, 0, MAX_TS as int);
    match spec_best_bar(combined, symbol, 0, MAX_TS as int) {
        None => {
            assert(false);
        },
        Some(b) => {
            assert(b.time >= y.time);
            assert(b.time >= spec_start_of(until));
            crate::dates::lemma_day_of_monotone(spec_start_of(until), b.time);
            assert(spec_day_of(spec_start_of(until)) == until) by {
                vstd::arithmetic::div_mod::lemma_fundamental_div_mod_converse(
                    86400 * until, 86400, until, 0);
            }
            assert(spec_day_of(b.time) + 1 > today_day - 1);
        },
    }
}

} // verus!
