//! Weekly snapshot backfill between replay boundaries.
//!
//! For each consecutive pair of reference rows the generator walks the
//! Fridays strictly between their days, reconciles each against the
//! stored price bars (falling back to the carried price when none is
//! found in the week-long window), and appends one snapshot row per
//! Friday to the append-only position log, its reported operations
//! cleared before it is persisted.

use vstd::prelude::*;

use crate::dates::MAX_DAY;
use crate::dates::MAX_TS;
use crate::dates::find_all_fridays_between;
use crate::dates::noon_of;
use crate::dates::spec_day_of;
use crate::dates::spec_fridays_between;
use crate::dates::spec_noon_of;
use crate::error::BackendError;
use crate::historical::AssetDay;
use crate::historical::AssetDayView;
use crate::historical::Historical;
use crate::historical::spec_best_bar;
use crate::historical::spec_fallback_window;
use crate::position::Position;
use crate::position::PositionView;
use crate::operation::OpView;

verus! {

/// The price a snapshot for Friday `f` reports: the close of the most
/// recent bar in the fallback window, or the carried price when the
/// window holds none.
pub open spec fn spec_snapshot_price(
    carried: PositionView,
    hist: Seq<AssetDayView>,
    symbol: Seq<char>,
    f: int,
) -> int {
    match spec_best_bar(
        hist, symbol, spec_fallback_window(f).0, spec_fallback_window(f).1) {
        Some(b) => b.close,
        None => carried.current_price,
    }
}

/// The snapshot row for Friday `f` carried forward from `carried`: the
/// reconciled price, the recomputed gain, and the reported operations
/// cleared before the row is persisted. A reconciled row reports the
/// window's close but is stamped noon of its Friday rather than the
/// bar's own instant: a bar found by the week-long fallback can predate
/// the boundary event itself, and noon stamps keep persisted times
/// strictly increasing, which checkpoint resumption relies on.
pub open spec fn spec_snapshot_row(
    carried: PositionView,
    hist: Seq<AssetDayView>,
    symbol: Seq<char>,
    f: int,
) -> PositionView {
    let cp = spec_snapshot_price(carried, hist, symbol, f);
    PositionView {
        time: spec_noon_of(f),
        current_price: cp,
        gain: cp * carried.quantity - carried.cost_basis,
        recent_operations: Seq::empty(),
        ..carried
    }
}

/// The rows one boundary pair produces, walking its Fridays in order;
/// each row carries the price it reconciled into the next.
pub open spec fn spec_snapshot_pair(
    carried: PositionView,
    fridays: Seq<int>,
    hist: Seq<AssetDayView>,
    symbol: Seq<char>,
) -> Seq<PositionView>
    decreases fridays.len(),
{
    if fridays.len() == 0 {
        Seq::empty()
    } else {
        let row = spec_snapshot_row(carried, hist, symbol, fridays[0]);
        seq![row] + spec_snapshot_pair(row, fridays.drop_first(), hist, symbol)
    }
}

/// Whether every row of one boundary pair has a representable gain.
pub open spec fn spec_snapshot_pair_fits(
    carried: PositionView,
    fridays: Seq<int>,
    hist: Seq<AssetDayView>,
    symbol: Seq<char>,
) -> bool
    decreases fridays.len(),
{
    if fridays.len() == 0 {
        true
    } else {
        let row = spec_snapshot_row(carried, hist, symbol, fridays[0]);
        &&& i64::MIN <= row.gain <= i64::MAX
        &&& spec_snapshot_pair_fits(row, fridays.drop_first(), hist, symbol)
    }
}

/// The Fridays strictly between two reference rows' days.
pub open spec fn spec_pair_fridays(prev: PositionView, next: PositionView) -> Seq<int> {
    spec_fridays_between(spec_day_of(prev.time), spec_day_of(next.time))
}

/// The rows the first `k` boundary pairs of the reference list produce.
pub open spec fn spec_snapshot_pairs_prefix(
    refs: Seq<PositionView>,
    hist: Seq<AssetDayView>,
    symbol: Seq<char>,
    k: int,
) -> Seq<PositionView>
    decreases k,
{
    if k <= 0 {
        Seq::empty()
    } else {
        spec_snapshot_pairs_prefix(refs, hist, symbol, k - 1) + spec_snapshot_pair(
            refs[k - 1], spec_pair_fridays(refs[k - 1], refs[k]), hist, symbol)
    }
}

/// Whether the first `k` boundary pairs produce representable rows.
pub open spec fn spec_snapshot_pairs_fit_prefix(
    refs: Seq<PositionView>,
    hist: Seq<AssetDayView>,
    symbol: Seq<char>,
    k: int,
) -> bool
    decreases k,
{
    if k <= 0 {
        true
    } else {
        spec_snapshot_pairs_fit_prefix(refs, hist, symbol, k - 1)
            && spec_snapshot_pair_fits(
                refs[k - 1], spec_pair_fridays(refs[k - 1], refs[k]), hist, symbol)
    }
}

/// The rows the closing walk produces: from the last reference up
/// through yesterday, time is re-stamped per Friday and the reported
/// operations cleared, while prices and gain carry unchanged.
pub open spec fn spec_snapshot_tail(
    carried: PositionView,
    fridays: Seq<int>,
) -> Seq<PositionView>
    decreases fridays.len(),
{
    if fridays.len() == 0 {
        Seq::empty()
    } else {
        let row = PositionView {
            time: spec_noon_of(fridays[0]),
            recent_operations: Seq::empty(),
            ..carried
        };
        seq![row] + spec_snapshot_tail(row, fridays.drop_first())
    }
}

/// Everything one snapshot run appends for a reference list: the rows of
/// every consecutive pair, then the closing walk up through yesterday.
pub open spec fn spec_snapshot_rows(
    refs: Seq<PositionView>,
    hist: Seq<AssetDayView>,
    symbol: Seq<char>,
    now: int,
) -> Seq<PositionView> {
    if refs.len() == 0 {
        Seq::empty()
    } else {
        spec_snapshot_pairs_prefix(refs, hist, symbol, refs.len() - 1) + spec_snapshot_tail(
            refs.last(),
            spec_fridays_between(
                spec_day_of(refs.last().time), spec_day_of(now - 86400)))
    }
}

/// Whether every row a snapshot run would append is representable.
pub open spec fn spec_snapshot_rows_fit(
    refs: Seq<PositionView>,
    hist: Seq<AssetDayView>,
    symbol: Seq<char>,
) -> bool {
    refs.len() == 0 || spec_snapshot_pairs_fit_prefix(refs, hist, symbol, refs.len() - 1)
}

/// A failing pair keeps every longer prefix failing.
proof fn lemma_pairs_fit_prefix_monotone(
    refs: Seq<PositionView>,
    hist: Seq<AssetDayView>,
    symbol: Seq<char>,
    k: int,
    m: int,
)
    requires
        0 <= k <= m,
        !spec_snapshot_pairs_fit_prefix(refs, hist, symbol, k),
    ensures
        !spec_snapshot_pairs_fit_prefix(refs, hist, symbol, m),
    decreases m,
{
    if m > k {
        lemma_pairs_fit_prefix_monotone(refs, hist, symbol, k, m - 1);
    }
}

/// Emit the snapshot rows of one boundary pair into `out`. Fails with
/// `InvalidLedgerState` exactly when some row's gain is unrepresentable;
/// nothing is emitted then.
fn emit_pair_rows(
    prev: &Position,
    next_time: i64,
    historical: &Vec<AssetDay>,
    symbol: &String,
    out: &mut Vec<Position>,
) -> (r: Result<(), BackendError>)
    requires
        604800 <= prev@.time <= MAX_TS,
        604800 <= next_time <= MAX_TS,
    ensures
        match r {
            Ok(()) => spec_snapshot_pair_fits(
                prev@, spec_pair_fridays(prev@, PositionView { time: next_time as int, ..prev@ }),
                historical.deep_view(), symbol@)
                && final(out).deep_view() == old(out).deep_view() + spec_snapshot_pair(
                    prev@,
                    spec_pair_fridays(prev@, PositionView { time: next_time as int, ..prev@ }),
                    historical.deep_view(), symbol@),
            Err(e) => e == BackendError::InvalidLedgerState
                && !spec_snapshot_pair_fits(
                    prev@,
                    spec_pair_fridays(prev@, PositionView { time: next_time as int, ..prev@ }),
                    historical.deep_view(), symbol@)
                && final(out).deep_view() == old(out).deep_view(),
        },
{
    let ghost hist_dv = historical.deep_view();
    let ghost fr = spec_fridays_between(
        spec_day_of(prev@.time), spec_day_of(next_time as int));
    let fridays = find_all_fridays_between(prev.time, next_time);
    proof {
        crate::dates::lemma_fridays_between_characterization(
            spec_day_of(prev@.time), spec_day_of(next_time as int));
        crate::dates::lemma_day_of_range(prev@.time);
        crate::dates::lemma_day_of_range(next_time as int);
    }
    let mut rows: Vec<Position> = Vec::new();
    let mut carried = prev.clone();
    let mut j: usize = 0;
    proof {
        assert(fr.skip(0int) =~= fr);
        assert(rows.deep_view() =~= Seq::<PositionView>::empty());
    }
    while j < fridays.len()
        invariant
            0 <= j <= fridays@.len(),
            hist_dv == historical.deep_view(),
            fr == fridays@.map_values(|d: i64| d as int),
            fr == spec_pair_fridays(prev@, PositionView { time: next_time as int, ..prev@ }),
            fr.len() == fridays@.len(),
            forall|k: int| 0 <= k < fr.len()
                ==> 7 <= #[trigger] fr[k] <= MAX_DAY,
            forall|k: int| 0 <= k < fridays@.len()
                ==> #[trigger] fridays@[k] as int == fr[k],
            spec_snapshot_pair(prev@, fr, hist_dv, symbol@)
                == rows.deep_view() + spec_snapshot_pair(
                    carried@, fr.skip(j as int), hist_dv, symbol@),
            spec_snapshot_pair_fits(prev@, fr, hist_dv, symbol@)
                == spec_snapshot_pair_fits(carried@, fr.skip(j as int), hist_dv, symbol@),
        decreases fridays@.len() - j,
    {
        let f = fridays[j];
        let ghost old_carried = carried@;
        proof {
            assert(fr.skip(j as int)[0] == fr[j as int]);
            assert(fr.skip(j as int).drop_first() =~= fr.skip(j + 1int));
        }
        let cp: i64 = match Historical::get_for_day_with_fallback(historical, symbol, f) {
            Ok(bar) => bar.close,
            Err(_) => carried.current_price,
        };
        proof {
            assert(cp as int == spec_snapshot_price(carried@, hist_dv, symbol@, f as int));
            crate::position::lemma_i64_product_fits(cp as int, carried@.quantity);
        }
        let gain128: i128 = (cp as i128) * (carried.quantity as i128)
            - (carried.cost_basis as i128);
        let ghost row = spec_snapshot_row(carried@, hist_dv, symbol@, f as int);
        proof {
            assert(row.gain == gain128 as int);
        }
        if !(i64::MIN as i128 <= gain128 && gain128 <= i64::MAX as i128) {
            proof {
                assert(!spec_snapshot_pair_fits(old_carried, fr.skip(j as int), hist_dv, symbol@));
            }
            return Err(BackendError::InvalidLedgerState);
        }
        carried.time = noon_of(f);
        carried.current_price = cp;
        carried.gain = gain128 as i64;
        // The reported operations are cleared before the row is
        // persisted.
        carried.recent_operations = Vec::new();
        let ghost pre_rows = rows.deep_view();
        rows.push(carried.clone());
        proof {
            assert(carried.recent_operations.deep_view() =~= Seq::<OpView>::empty());
            assert(carried@ =~= row);
            assert(rows.deep_view() =~= pre_rows.push(row));
            assert(row == spec_snapshot_row(old_carried, hist_dv, symbol@, fr.skip(j as int)[0]));
            assert(spec_snapshot_pair(old_carried, fr.skip(j as int), hist_dv, symbol@)
                == seq![row] + spec_snapshot_pair(row, fr.skip(j + 1int), hist_dv, symbol@));
            assert(spec_snapshot_pair_fits(old_carried, fr.skip(j as int), hist_dv, symbol@)
                == spec_snapshot_pair_fits(row, fr.skip(j + 1int), hist_dv, symbol@));
            assert(pre_rows + (seq![row] + spec_snapshot_pair(
                row, fr.skip(j + 1int), hist_dv, symbol@))
                =~= rows.deep_view() + spec_snapshot_pair(
                    carried@, fr.skip(j + 1int), hist_dv, symbol@));
        }
        j = j + 1;
    }
    proof {
        assert(fr.skip(fr.len() as int) =~= Seq::<int>::empty());
    }
    let mut k: usize = 0;
    let ghost rows_dv = rows.deep_view();
    while k < rows.len()
        invariant
            0 <= k <= rows@.len(),
            rows_dv == rows.deep_view(),
            rows_dv.len() == rows@.len(),
            out.deep_view() == old(out).deep_view() + rows_dv.take(k as int),
        decreases rows@.len() - k,
    {
        let ghost pre = out.deep_view();
        out.push(rows[k].clone());
        proof {
            assert(out.deep_view() =~= pre.push(rows_dv[k as int]));
            assert(rows_dv.take(k + 1int) =~= rows_dv.take(k as int).push(rows_dv[k as int]));
            assert(out.deep_view()
                =~= old(out).deep_view() + rows_dv.take(k + 1int));
        }
        k = k + 1;
    }
    proof {
        assert(rows_dv.take(rows@.len() as int) =~= rows_dv);
    }
    Ok(())
}

/// Emit the closing walk: Friday rows from the last reference up
/// through yesterday, carried unchanged but for their times.
fn emit_tail_rows(last: &Position, now: i64, out: &mut Vec<Position>)
    requires
        0 <= last@.time <= MAX_TS,
        86400 <= now <= MAX_TS,
    ensures
        final(out).deep_view() == old(out).deep_view() + spec_snapshot_tail(
            last@,
            spec_fridays_between(
                spec_day_of(last@.time), spec_day_of((now - 86400) as int))),
{
    let yesterday: i64 = now - 86400;
    let ghost fr = spec_fridays_between(
        spec_day_of(last@.time), spec_day_of(yesterday as int));
    let fridays = find_all_fridays_between(last.time, yesterday);
    proof {
        crate::dates::lemma_fridays_between_characterization(
            spec_day_of(last@.time), spec_day_of(yesterday as int));
        vstd::arithmetic::div_mod::lemma_div_pos_is_pos(last@.time, 86400);
        crate::dates::lemma_day_of_monotone(yesterday as int, MAX_TS as int);
        vstd::arithmetic::div_mod::lemma_fundamental_div_mod_converse(
            MAX_TS as int, 86400, MAX_DAY as int, 86399);
        assert(fr.skip(0int) =~= fr);
    }
    let mut carried = last.clone();
    let mut j: usize = 0;
    while j < fridays.len()
        invariant
            0 <= j <= fridays@.len(),
            fr == fridays@.map_values(|d: i64| d as int),
            fr.len() == fridays@.len(),
            forall|k: int| 0 <= k < fr.len()
                ==> 0 <= #[trigger] fr[k] <= MAX_DAY,
            forall|k: int| 0 <= k < fridays@.len()
                ==> #[trigger] fridays@[k] as int == fr[k],
            old(out).deep_view() + spec_snapshot_tail(last@, fr)
                == out.deep_view() + spec_snapshot_tail(carried@, fr.skip(j as int)),
        decreases fridays@.len() - j,
    {
        let f = fridays[j];
        let ghost old_carried = carried@;
        proof {
            assert(fr.skip(j as int)[0] == fr[j as int]);
            assert(fr.skip(j as int).drop_first() =~= fr.skip(j + 1int));
        }
        carried.time = noon_of(f);
        carried.recent_operations = Vec::new();
        let ghost row = (PositionView {
            time: spec_noon_of(f as int),
            recent_operations: Seq::empty(),
            ..old_carried
        });
        let ghost pre_out = out.deep_view();
        out.push(carried.clone());
        proof {
            assert(carried.recent_operations.deep_view() =~= Seq::<OpView>::empty());
            assert(carried@ =~= row);
            assert(out.deep_view() =~= pre_out.push(row));
            assert(spec_snapshot_tail(old_carried, fr.skip(j as int))
                == seq![row] + spec_snapshot_tail(row, fr.skip(j + 1int)));
            assert(pre_out + (seq![row] + spec_snapshot_tail(row, fr.skip(j + 1int)))
                =~= out.deep_view() + spec_snapshot_tail(carried@, fr.skip(j + 1int)));
        }
        j = j + 1;
    }
    proof {
        assert(fr.skip(fr.len() as int) =~= Seq::<int>::empty());
        assert(out.deep_view() + spec_snapshot_tail(carried@, fr.skip(fr.len() as int))
            =~= out.deep_view());
    }
}

impl Position {
    /// Backfill weekly snapshot rows for a replay's reference list into
    /// the append-only position log: for each consecutive pair of
    /// references, one row per Friday strictly between them, reconciled
    /// against the stored bars and persisted with its reported
    /// operations cleared; then the closing walk up through yesterday.
    /// Returns how many rows were appended, or `InvalidLedgerState`
    /// (appending nothing) exactly when some row's gain cannot be
    /// represented.
    pub fn create_snapshots(
        symbol: &String,
        references: &Vec<Position>,
        historical: &Vec<AssetDay>,
        positions: &mut Vec<Position>,
        now: i64,
    ) -> (r: Result<usize, BackendError>)
        requires
            86400 <= now <= MAX_TS,
            forall|k: int| 0 <= k < references.deep_view().len()
                ==> 604800 <= (#[trigger] references.deep_view()[k]).time <= MAX_TS,
        ensures
            match r {
                Ok(n) => spec_snapshot_rows_fit(
                    references.deep_view(), historical.deep_view(), symbol@)
                    && final(positions).deep_view() == old(positions).deep_view()
                        + spec_snapshot_rows(
                            references.deep_view(), historical.deep_view(), symbol@,
                            now as int)
                    && n == spec_snapshot_rows(
                        references.deep_view(), historical.deep_view(), symbol@,
                        now as int).len(),
                Err(e) => e == BackendError::InvalidLedgerState
                    && !spec_snapshot_rows_fit(
                        references.deep_view(), historical.deep_view(), symbol@)
                    && final(positions).deep_view() == old(positions).deep_view(),
            },
    {
        let ghost refs_dv = references.deep_view();
        let ghost hist_dv = historical.deep_view();
        if references.len() == 0 {
            proof {
                assert(old(positions).deep_view()
                    + spec_snapshot_rows(refs_dv, hist_dv, symbol@, now as int)
                    =~= positions.deep_view());
            }
            return Ok(0);
        }
        let mut out: Vec<Position> = Vec::new();
        let mut i: usize = 1;
        proof {
            assert(out.deep_view() =~= Seq::<PositionView>::empty());
        }
        while i < references.len()
            invariant
                1 <= i <= references@.len(),
                references@.len() >= 1,
                refs_dv == references.deep_view(),
                hist_dv == historical.deep_view(),
                refs_dv.len() == references@.len(),
                forall|k: int| 0 <= k < refs_dv.len()
                    ==> 604800 <= (#[trigger] refs_dv[k]).time <= MAX_TS,
                out.deep_view() == spec_snapshot_pairs_prefix(
                    refs_dv, hist_dv, symbol@, i - 1),
                spec_snapshot_pairs_fit_prefix(refs_dv, hist_dv, symbol@, i - 1),
            decreases references@.len() - i,
        {
            let prev = &references[i - 1];
            let next_time = references[i].time;
            proof {
                assert(prev@ == refs_dv[i - 1]);
                assert(next_time as int == refs_dv[i as int].time);
                assert(spec_pair_fridays(
                    prev@, PositionView { time: next_time as int, ..prev@ })
                    == spec_pair_fridays(refs_dv[i - 1], refs_dv[i as int]));
            }
            match emit_pair_rows(prev, next_time, historical, symbol, &mut out) {
                Ok(()) => {},
                Err(e) => {
                    proof {
                        assert(!spec_snapshot_pairs_fit_prefix(
                            refs_dv, hist_dv, symbol@, i as int));
                        lemma_pairs_fit_prefix_monotone(
                            refs_dv, hist_dv, symbol@, i as int, refs_dv.len() - 1);
                    }
                    return Err(e);
                },
            }
            i = i + 1;
        }
        let last = &references[references.len() - 1];
        proof {
            assert(last@ == refs_dv[refs_dv.len() - 1]);
        }
        emit_tail_rows(last, now, &mut out);
        proof {
            assert(out.deep_view() =~= spec_snapshot_rows(
                refs_dv, hist_dv, symbol@, now as int));
        }
        let appended = out.len();
        let mut k: usize = 0;
        let ghost out_dv = out.deep_view();
        proof {
            assert(positions.deep_view()
                =~= old(positions).deep_view() + out_dv.take(0int));
        }
        while k < out.len()
            invariant
                0 <= k <= out@.len(),
                out_dv == out.deep_view(),
                out_dv.len() == out@.len(),
                positions.deep_view() == old(positions).deep_view() + out_dv.take(k as int),
            decreases out@.len() - k,
        {
            let ghost pre = positions.deep_view();
            positions.push(out[k].clone());
            proof {
                assert(positions.deep_view() =~= pre.push(out_dv[k as int]));
                assert(out_dv.take(k + 1int)
                    =~= out_dv.take(k as int).push(out_dv[k as int]));
                assert(positions.deep_view()
                    =~= old(positions).deep_view() + out_dv.take(k + 1int));
            }
            k = k + 1;
        }
        proof {
            assert(out_dv.take(out@.len() as int) =~= out_dv);
        }
        Ok(appended)
    }
}

/// One boundary pair yields exactly one row per Friday it walks.
proof fn lemma_snapshot_pair_len(
    carried: PositionView,
    fridays: Seq<int>,
    hist: Seq<AssetDayView>,
    symbol: Seq<char>,
)
    ensures
        spec_snapshot_pair(carried, fridays, hist, symbol).len() == fridays.len(),
    decreases fridays.len(),
{
    if fridays.len() > 0 {
        let row = spec_snapshot_row(carried, hist, symbol, fridays[0]);
        lemma_snapshot_pair_len(row, fridays.drop_first(), hist, symbol);
    }
}

/// The closing walk yields exactly one row per Friday it walks.
proof fn lemma_snapshot_tail_len(carried: PositionView, fridays: Seq<int>)
    ensures
        spec_snapshot_tail(carried, fridays).len() == fridays.len(),
    decreases fridays.len(),
{
    if fridays.len() > 0 {
        let row = PositionView {
            time: spec_noon_of(fridays[0]),
            recent_operations: Seq::empty(),
            ..carried
        };
        lemma_snapshot_tail_len(row, fridays.drop_first());
    }
}

/// The first `k` pairs yield one row per Friday of the interval they
/// jointly cover.
proof fn lemma_pairs_prefix_len(
    refs: Seq<PositionView>,
    hist: Seq<AssetDayView>,
    symbol: Seq<char>,
    k: int,
)
    requires
        0 <= k < refs.len(),
        forall|i: int| 0 <= i < refs.len() - 1
            ==> spec_day_of((#[trigger] refs[i]).time) <= spec_day_of(refs[i + 1].time),
    ensures
        spec_day_of(refs[0].time) <= spec_day_of(refs[k].time),
        spec_snapshot_pairs_prefix(refs, hist, symbol, k).len()
            == spec_fridays_between(
                spec_day_of(refs[0].time), spec_day_of(refs[k].time)).len(),
    decreases k,
{
    if k == 0 {
        assert(spec_fridays_between(
            spec_day_of(refs[0].time), spec_day_of(refs[0].time)) =~= Seq::<int>::empty());
    } else {
        lemma_pairs_prefix_len(refs, hist, symbol, k - 1);
        assert(spec_day_of(refs[k - 1].time) <= spec_day_of(refs[k].time));
        lemma_snapshot_pair_len(
            refs[k - 1], spec_pair_fridays(refs[k - 1], refs[k]), hist, symbol);
        crate::dates::lemma_fridays_between_split(
            spec_day_of(refs[0].time),
            spec_day_of(refs[k - 1].time),
            spec_day_of(refs[k].time));
    }
}

/// Snapshot coverage: one persisted row per Friday between the first
/// reference and the last, plus one per Friday the closing walk reaches
/// up through yesterday; a run whose final reference stands at `now`
/// adds nothing in the closing walk, so together with the one current
/// position the caller already holds, a position opened at the first
/// reference and still open is covered by exactly the Fridays since it
/// opened plus that one current entry.
pub proof fn lemma_snapshot_coverage(
    refs: Seq<PositionView>,
    hist: Seq<AssetDayView>,
    symbol: Seq<char>,
    now: int,
)
    requires
        refs.len() >= 1,
        forall|i: int| 0 <= i < refs.len() - 1
            ==> spec_day_of((#[trigger] refs[i]).time) <= spec_day_of(refs[i + 1].time),
    ensures
        spec_snapshot_rows(refs, hist, symbol, now).len()
            == spec_fridays_between(
                spec_day_of(refs[0].time), spec_day_of(refs.last().time)).len()
                + spec_fridays_between(
                    spec_day_of(refs.last().time), spec_day_of(now - 86400)).len(),
{
    lemma_pairs_prefix_len(refs, hist, symbol, refs.len() - 1);
    lemma_snapshot_tail_len(
        refs.last(),
        spec_fridays_between(
            spec_day_of(refs.last().time), spec_day_of(now - 86400)));
    assert(refs[refs.len() - 1] == refs.last());
}

/// Whether two positions agree on the replay accumulator and on the
/// (symbol, scope) log they belong to.
pub open spec fn spec_same_checkpoint_state(a: PositionView, b: PositionView) -> bool {
    &&& a.quantity == b.quantity
    &&& a.cost_basis == b.cost_basis
    &&& a.average_price == b.average_price
    &&& a.realized == b.realized
    &&& a.symbol == b.symbol
    &&& a.portfolio == b.portfolio
}

/// Every row a boundary pair emits carries its opening reference's
/// accumulator: the walk only re-stamps times, prices and gain.
proof fn lemma_snapshot_pair_keeps_accumulator(
    carried: PositionView,
    fridays: Seq<int>,
    hist: Seq<AssetDayView>,
    symbol: Seq<char>,
)
    ensures
        forall|i: int| 0 <= i < spec_snapshot_pair(carried, fridays, hist, symbol).len()
            ==> spec_same_checkpoint_state(
                #[trigger] spec_snapshot_pair(carried, fridays, hist, symbol)[i], carried),
    decreases fridays.len(),
{
    if fridays.len() > 0 {
        let row = spec_snapshot_row(carried, hist, symbol, fridays[0]);
        lemma_snapshot_pair_keeps_accumulator(row, fridays.drop_first(), hist, symbol);
        let out = spec_snapshot_pair(carried, fridays, hist, symbol);
        let tail = spec_snapshot_pair(row, fridays.drop_first(), hist, symbol);
        assert forall|i: int| 0 <= i < out.len()
            implies spec_same_checkpoint_state(#[trigger] out[i], carried) by {
            if i > 0 {
                assert(out[i] == tail[i - 1]);
            }
        }
    }
}

/// The same for the closing walk.
proof fn lemma_snapshot_tail_keeps_accumulator(carried: PositionView, fridays: Seq<int>)
    ensures
        forall|i: int| 0 <= i < spec_snapshot_tail(carried, fridays).len()
            ==> spec_same_checkpoint_state(
                #[trigger] spec_snapshot_tail(carried, fridays)[i], carried),
    decreases fridays.len(),
{
    if fridays.len() > 0 {
        let row = PositionView {
            time: spec_noon_of(fridays[0]),
            recent_operations: Seq::empty(),
            ..carried
        };
        lemma_snapshot_tail_keeps_accumulator(row, fridays.drop_first());
        let out = spec_snapshot_tail(carried, fridays);
        let tail = spec_snapshot_tail(row, fridays.drop_first());
        assert forall|i: int| 0 <= i < out.len()
            implies spec_same_checkpoint_state(#[trigger] out[i], carried) by {
            if i > 0 {
                assert(out[i] == tail[i - 1]);
            }
        }
    }
}

/// Every row a boundary pair emits is persisted with its reported
/// operations cleared.
proof fn lemma_snapshot_pair_cleared(
    carried: PositionView,
    fridays: Seq<int>,
    hist: Seq<AssetDayView>,
    symbol: Seq<char>,
)
    ensures
        forall|i: int| 0 <= i < spec_snapshot_pair(carried, fridays, hist, symbol).len()
            ==> (#[trigger] spec_snapshot_pair(carried, fridays, hist, symbol)[i])
                .recent_operations == Seq::<OpView>::empty(),
    decreases fridays.len(),
{
    if fridays.len() > 0 {
        let row = spec_snapshot_row(carried, hist, symbol, fridays[0]);
        lemma_snapshot_pair_cleared(row, fridays.drop_first(), hist, symbol);
        let out = spec_snapshot_pair(carried, fridays, hist, symbol);
        let tail = spec_snapshot_pair(row, fridays.drop_first(), hist, symbol);
        assert forall|i: int| 0 <= i < out.len()
            implies (#[trigger] out[i]).recent_operations == Seq::<OpView>::empty() by {
            if i > 0 {
                assert(out[i] == tail[i - 1]);
            }
        }
    }
}

/// The same for the closing walk.
proof fn lemma_snapshot_tail_cleared(carried: PositionView, fridays: Seq<int>)
    ensures
        forall|i: int| 0 <= i < spec_snapshot_tail(carried, fridays).len()
            ==> (#[trigger] spec_snapshot_tail(carried, fridays)[i])
                .recent_operations == Seq::<OpView>::empty(),
    decreases fridays.len(),
{
    if fridays.len() > 0 {
        let row = PositionView {
            time: spec_noon_of(fridays[0]),
            recent_operations: Seq::empty(),
            ..carried
        };
        lemma_snapshot_tail_cleared(row, fridays.drop_first());
        let out = spec_snapshot_tail(carried, fridays);
        let tail = spec_snapshot_tail(row, fridays.drop_first());
        assert forall|i: int| 0 <= i < out.len()
            implies (#[trigger] out[i]).recent_operations == Seq::<OpView>::empty() by {
            if i > 0 {
                assert(out[i] == tail[i - 1]);
            }
        }
    }
}

/// The same over the first `k` pairs.
proof fn lemma_pairs_prefix_cleared(
    refs: Seq<PositionView>,
    hist: Seq<AssetDayView>,
    symbol: Seq<char>,
    k: int,
)
    ensures
        forall|i: int| 0 <= i < spec_snapshot_pairs_prefix(refs, hist, symbol, k).len()
            ==> (#[trigger] spec_snapshot_pairs_prefix(refs, hist, symbol, k)[i])
                .recent_operations == Seq::<OpView>::empty(),
    decreases k,
{
    if k > 0 {
        lemma_pairs_prefix_cleared(refs, hist, symbol, k - 1);
        let fr = spec_pair_fridays(refs[k - 1], refs[k]);
        lemma_snapshot_pair_cleared(refs[k - 1], fr, hist, symbol);
        let out = spec_snapshot_pairs_prefix(refs, hist, symbol, k);
        let pre = spec_snapshot_pairs_prefix(refs, hist, symbol, k - 1);
        let pair = spec_snapshot_pair(refs[k - 1], fr, hist, symbol);
        assert forall|i: int| 0 <= i < out.len()
            implies (#[trigger] out[i]).recent_operations == Seq::<OpView>::empty() by {
            if i < pre.len() {
                assert(out[i] == pre[i]);
            } else {
                assert(out[i] == pair[i - pre.len()]);
            }
        }
    }
}

/// Every snapshot row a run appends is persisted with its reported
/// operations cleared: the in-flight-change accumulator belongs to the
/// synchronous answer, never to the historical log.
pub proof fn lemma_snapshot_rows_cleared(
    refs: Seq<PositionView>,
    hist: Seq<AssetDayView>,
    symbol: Seq<char>,
    now: int,
)
    ensures
        forall|i: int| 0 <= i < spec_snapshot_rows(refs, hist, symbol, now).len()
            ==> (#[trigger] spec_snapshot_rows(refs, hist, symbol, now)[i])
                .recent_operations == Seq::<OpView>::empty(),
{
    if refs.len() > 0 {
        let rows = spec_snapshot_rows(refs, hist, symbol, now);
        let pairs = spec_snapshot_pairs_prefix(refs, hist, symbol, refs.len() - 1);
        let walk = spec_fridays_between(
            spec_day_of(refs.last().time), spec_day_of(now - 86400));
        let tail = spec_snapshot_tail(refs.last(), walk);
        lemma_pairs_prefix_cleared(refs, hist, symbol, refs.len() - 1);
        lemma_snapshot_tail_cleared(refs.last(), walk);
        assert forall|i: int| 0 <= i < rows.len()
            implies (#[trigger] rows[i]).recent_operations == Seq::<OpView>::empty() by {
            if i < pairs.len() {
                assert(rows[i] == pairs[i]);
            } else {
                assert(rows[i] == tail[i - pairs.len()]);
            }
        }
    }
}

/// Each row of one boundary pair is stamped noon of its own Friday.
proof fn lemma_snapshot_pair_times(
    carried: PositionView,
    fridays: Seq<int>,
    hist: Seq<AssetDayView>,
    symbol: Seq<char>,
)
    ensures
        forall|i: int| 0 <= i < spec_snapshot_pair(carried, fridays, hist, symbol).len()
            ==> (#[trigger] spec_snapshot_pair(carried, fridays, hist, symbol)[i]).time
                == spec_noon_of(fridays[i]),
    decreases fridays.len(),
{
    lemma_snapshot_pair_len(carried, fridays, hist, symbol);
    if fridays.len() > 0 {
        let row = spec_snapshot_row(carried, hist, symbol, fridays[0]);
        lemma_snapshot_pair_times(row, fridays.drop_first(), hist, symbol);
        let out = spec_snapshot_pair(carried, fridays, hist, symbol);
        let tail = spec_snapshot_pair(row, fridays.drop_first(), hist, symbol);
        assert forall|i: int| 0 <= i < out.len()
            implies (#[trigger] out[i]).time == spec_noon_of(fridays[i]) by {
            if i > 0 {
                assert(out[i] == tail[i - 1]);
                assert(fridays.drop_first()[i - 1] == fridays[i]);
            }
        }
    }
}

/// The rows of the first `k` pairs come out with strictly increasing
/// times, all at least noon of the first reference's day and strictly
/// before the day of reference `k` begins.
pub proof fn lemma_pairs_prefix_times_pub(
    refs: Seq<PositionView>,
    hist: Seq<AssetDayView>,
    symbol: Seq<char>,
    k: int,
)
    requires
        0 <= k < refs.len(),
        forall|i: int| 0 <= i < refs.len() - 1
            ==> spec_day_of((#[trigger] refs[i]).time) <= spec_day_of(refs[i + 1].time),
    ensures
        forall|i: int, j: int|
            0 <= i < j < spec_snapshot_pairs_prefix(refs, hist, symbol, k).len()
            ==> (#[trigger] spec_snapshot_pairs_prefix(refs, hist, symbol, k)[i]).time
                < (#[trigger] spec_snapshot_pairs_prefix(refs, hist, symbol, k)[j]).time,
        forall|i: int| 0 <= i < spec_snapshot_pairs_prefix(refs, hist, symbol, k).len()
            ==> spec_noon_of(spec_day_of(refs[0].time))
                <= (#[trigger] spec_snapshot_pairs_prefix(refs, hist, symbol, k)[i]).time
                < crate::dates::spec_start_of(spec_day_of(refs[k].time)),
    decreases k,
{
    if k > 0 {
        lemma_pairs_prefix_times_pub(refs, hist, symbol, k - 1);
        let fr = spec_pair_fridays(refs[k - 1], refs[k]);
        crate::dates::lemma_fridays_between_characterization(
            spec_day_of(refs[k - 1].time), spec_day_of(refs[k].time));
        lemma_snapshot_pair_times(refs[k - 1], fr, hist, symbol);
        lemma_snapshot_pair_len(refs[k - 1], fr, hist, symbol);
        let out = spec_snapshot_pairs_prefix(refs, hist, symbol, k);
        let pre = spec_snapshot_pairs_prefix(refs, hist, symbol, k - 1);
        let pair = spec_snapshot_pair(refs[k - 1], fr, hist, symbol);
        // Day monotonicity chains from the first reference.
        assert forall|m: int| 0 <= m < refs.len() - 1
            implies spec_day_of(refs[0].time) <= spec_day_of(#[trigger] refs[m].time) by {
            lemma_refs_days_chain(refs, m);
        }
        assert forall|i: int| 0 <= i < out.len()
            implies spec_noon_of(spec_day_of(refs[0].time))
                <= (#[trigger] out[i]).time
                < crate::dates::spec_start_of(spec_day_of(refs[k].time)) by {
            if i < pre.len() {
                assert(out[i] == pre[i]);
                assert(crate::dates::spec_start_of(spec_day_of(refs[k - 1].time))
                    <= crate::dates::spec_start_of(spec_day_of(refs[k].time)));
            } else {
                assert(out[i] == pair[i - pre.len()]);
                let f = fr[i - pre.len()];
                assert(spec_day_of(refs[k - 1].time) <= f < spec_day_of(refs[k].time));
                assert(out[i].time == spec_noon_of(f));
                lemma_refs_days_chain(refs, k - 1);
                assert(spec_noon_of(spec_day_of(refs[0].time)) <= spec_noon_of(f));
            }
        }
        assert forall|i: int, j: int| 0 <= i < j < out.len()
            implies (#[trigger] out[i]).time < (#[trigger] out[j]).time by {
            if j < pre.len() {
                assert(out[i] == pre[i] && out[j] == pre[j]);
            } else if i >= pre.len() {
                assert(out[i] == pair[i - pre.len()] && out[j] == pair[j - pre.len()]);
                assert(fr[i - pre.len()] < fr[j - pre.len()]);
            } else {
                // Across the boundary: earlier pairs end before the day
                // that this pair's Fridays start on.
                assert(out[i] == pre[i] && out[j] == pair[j - pre.len()]);
                let f = fr[j - pre.len()];
                assert(pre[i].time
                    < crate::dates::spec_start_of(spec_day_of(refs[k - 1].time)));
                assert(spec_day_of(refs[k - 1].time) <= f);
                assert(crate::dates::spec_start_of(spec_day_of(refs[k - 1].time))
                    <= spec_noon_of(f));
            }
        }
    }
}

/// The first reference's day never exceeds a later reference's day.
proof fn lemma_refs_days_chain(refs: Seq<PositionView>, m: int)
    requires
        0 <= m < refs.len(),
        forall|i: int| 0 <= i < refs.len() - 1
            ==> spec_day_of((#[trigger] refs[i]).time) <= spec_day_of(refs[i + 1].time),
    ensures
        spec_day_of(refs[0].time) <= spec_day_of(refs[m].time),
    decreases m,
{
    if m > 0 {
        lemma_refs_days_chain(refs, m - 1);
    }
}

/// Whether a row can serve as the next pass's checkpoint: it carries the
/// accumulator of the reference state reached after some event prefix,
/// and its time splits the event stream exactly there.
pub open spec fn spec_admissible_row(
    x: PositionView,
    refs: Seq<PositionView>,
    evs: Seq<crate::event::EventView>,
) -> bool {
    exists|p: int| 1 <= p <= evs.len()
        && spec_same_checkpoint_state(x, #[trigger] refs[p - 1])
        && (forall|j: int| 0 <= j < p ==> (#[trigger] evs[j]).time <= x.time)
        && (forall|j: int| p <= j < evs.len() ==> (#[trigger] evs[j]).time > x.time)
}

/// Every row the boundary pairs persist is an admissible checkpoint:
/// replaying the events after its time from its accumulator continues
/// exactly where the full replay stood.
pub proof fn lemma_pairs_prefix_admissible(
    refs: Seq<PositionView>,
    evs: Seq<crate::event::EventView>,
    hist: Seq<AssetDayView>,
    symbol: Seq<char>,
    k: int,
)
    requires
        refs.len() == evs.len() + 1,
        0 <= k < refs.len(),
        forall|i: int| 0 <= i < evs.len()
            ==> (#[trigger] refs[i]).time == evs[i].time,
        forall|i: int, j: int| 0 <= i < j < evs.len()
            ==> (#[trigger] evs[i]).time <= (#[trigger] evs[j]).time,
        // No event sits past noon of a Friday, so a Friday row's noon
        // never cuts its own boundary event away.
        forall|j: int| 0 <= j < evs.len()
            && crate::dates::spec_is_friday(spec_day_of((#[trigger] evs[j]).time))
            ==> evs[j].time <= spec_noon_of(spec_day_of(evs[j].time)),
        forall|i: int| 0 <= i < refs.len() - 1
            ==> spec_day_of((#[trigger] refs[i]).time) <= spec_day_of(refs[i + 1].time),
    ensures
        forall|i: int| 0 <= i < spec_snapshot_pairs_prefix(refs, hist, symbol, k).len()
            ==> spec_admissible_row(
                #[trigger] spec_snapshot_pairs_prefix(refs, hist, symbol, k)[i], refs, evs),
    decreases k,
{
    if k > 0 {
        lemma_pairs_prefix_admissible(refs, evs, hist, symbol, k - 1);
        let fr = spec_pair_fridays(refs[k - 1], refs[k]);
        crate::dates::lemma_fridays_between_characterization(
            spec_day_of(refs[k - 1].time), spec_day_of(refs[k].time));
        lemma_snapshot_pair_times(refs[k - 1], fr, hist, symbol);
        lemma_snapshot_pair_len(refs[k - 1], fr, hist, symbol);
        lemma_snapshot_pair_keeps_accumulator(refs[k - 1], fr, hist, symbol);
        let out = spec_snapshot_pairs_prefix(refs, hist, symbol, k);
        let pre = spec_snapshot_pairs_prefix(refs, hist, symbol, k - 1);
        let pair = spec_snapshot_pair(refs[k - 1], fr, hist, symbol);
        assert forall|i: int| 0 <= i < out.len()
            implies spec_admissible_row(#[trigger] out[i], refs, evs) by {
            if i < pre.len() {
                assert(out[i] == pre[i]);
            } else {
                let x = pair[i - pre.len()];
                assert(out[i] == x);
                let f = fr[i - pre.len()];
                assert(spec_day_of(refs[k - 1].time) <= f < spec_day_of(refs[k].time));
                assert(x.time == spec_noon_of(f));
                assert(spec_same_checkpoint_state(x, refs[k - 1]));
                // Events up to the pair's opening boundary sit at or
                // before this Friday's noon.
                assert forall|j: int| 0 <= j < k
                    implies (#[trigger] evs[j]).time <= x.time by {
                    assert(evs[j].time <= evs[k - 1].time);
                    assert(evs[k - 1].time == refs[k - 1].time);
                    crate::dates::lemma_time_in_its_day(refs[k - 1].time);
                    if f == spec_day_of(refs[k - 1].time) {
                        assert(evs[k - 1].time <= spec_noon_of(f));
                    } else {
                        assert(f > spec_day_of(refs[k - 1].time));
                        assert(refs[k - 1].time
                            < crate::dates::spec_start_of(
                                spec_day_of(refs[k - 1].time)) + 86400);
                        assert(crate::dates::spec_start_of(
                            spec_day_of(refs[k - 1].time)) + 86400
                            <= crate::dates::spec_start_of(f));
                    }
                }
                // Events past the boundary sit after it.
                assert forall|j: int| k <= j < evs.len()
                    implies (#[trigger] evs[j]).time > x.time by {
                    assert(evs[k as int].time <= evs[j].time);
                    assert(refs[k as int].time == evs[k as int].time);
                    crate::dates::lemma_time_in_its_day(refs[k as int].time);
                    assert(f < spec_day_of(refs[k as int].time));
                    assert(spec_noon_of(f)
                        < crate::dates::spec_start_of(spec_day_of(refs[k as int].time)));
                }
                assert(1 <= k <= evs.len()
                    && spec_same_checkpoint_state(x, refs[k - 1])
                    && (forall|j: int| 0 <= j < k ==> (#[trigger] evs[j]).time <= x.time)
                    && (forall|j: int| k <= j < evs.len()
                        ==> (#[trigger] evs[j]).time > x.time));
            }
        }
    }
}

/// When every reference row belongs to one (symbol, scope) log, so does
/// every row the boundary pairs emit.
pub proof fn lemma_pairs_prefix_rows_match(
    refs: Seq<PositionView>,
    hist: Seq<AssetDayView>,
    symbol: Seq<char>,
    scope: Option<Seq<char>>,
    k: int,
)
    requires
        0 <= k < refs.len(),
        forall|j: int| 0 <= j < refs.len()
            ==> (#[trigger] refs[j]).symbol == symbol && refs[j].portfolio == scope,
    ensures
        forall|i: int| 0 <= i < spec_snapshot_pairs_prefix(refs, hist, symbol, k).len()
            ==> (#[trigger] spec_snapshot_pairs_prefix(refs, hist, symbol, k)[i]).symbol
                == symbol
                && spec_snapshot_pairs_prefix(refs, hist, symbol, k)[i].portfolio == scope,
    decreases k,
{
    if k > 0 {
        lemma_pairs_prefix_rows_match(refs, hist, symbol, scope, k - 1);
        let fr = spec_pair_fridays(refs[k - 1], refs[k]);
        lemma_snapshot_pair_keeps_accumulator(refs[k - 1], fr, hist, symbol);
        let out = spec_snapshot_pairs_prefix(refs, hist, symbol, k);
        let pre = spec_snapshot_pairs_prefix(refs, hist, symbol, k - 1);
        let pair = spec_snapshot_pair(refs[k - 1], fr, hist, symbol);
        assert forall|i: int| 0 <= i < out.len()
            implies (#[trigger] out[i]).symbol == symbol && out[i].portfolio == scope by {
            if i < pre.len() {
                assert(out[i] == pre[i]);
            } else {
                assert(out[i] == pair[i - pre.len()]);
                assert(spec_same_checkpoint_state(out[i], refs[k - 1]));
            }
        }
    }
}

} // verus!
