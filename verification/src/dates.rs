//! Calendar arithmetic over plain integers.
//!
//! An instant is a Unix timestamp in whole seconds; a day is the number of
//! whole days since 1970-01-01. Day 0 was a Thursday, so a day `d` is a
//! Friday exactly when `d % 7 == 1`.

use vstd::prelude::*;

verus! {

/// Seconds in one day.
pub const SECONDS_PER_DAY: i64 = 86400;

/// Largest day number whose last second still fits in an `i64` timestamp.
pub const MAX_DAY: i64 = 106751991167299;

/// The last second of `MAX_DAY`: the largest timestamp whose whole day the
/// calendar helpers can still address.
pub const MAX_TS: i64 = 9223372036854719999;

/// The day holding the given timestamp.
pub open spec fn spec_day_of(ts: int) -> int {
    ts / 86400
}

/// Noon of the given day, as a timestamp.
pub open spec fn spec_noon_of(day: int) -> int {
    day * 86400 + 43200
}

/// The last second (23:59:59) of the given day, as a timestamp.
pub open spec fn spec_end_of(day: int) -> int {
    day * 86400 + 86399
}

/// The first second (00:00:00) of the given day, as a timestamp.
pub open spec fn spec_start_of(day: int) -> int {
    day * 86400
}

/// Whether the given day is a Friday.
pub open spec fn spec_is_friday(day: int) -> bool {
    day % 7 == 1
}

/// The day holding the given timestamp.
pub fn day_of(ts: i64) -> (d: i64)
    requires
        ts >= 0,
    ensures
        d == spec_day_of(ts as int),
        0 <= d <= ts,
        ts <= MAX_TS ==> d <= MAX_DAY,
{
    proof {
        vstd::arithmetic::div_mod::lemma_fundamental_div_mod(ts as int, 86400);
        vstd::arithmetic::div_mod::lemma_mod_bound(ts as int, 86400);
        assert(86400 * spec_day_of(ts as int) <= ts as int);
        assert(spec_day_of(ts as int) >= 0) by {
            vstd::arithmetic::div_mod::lemma_div_pos_is_pos(ts as int, 86400);
        }
        if ts <= MAX_TS {
            vstd::arithmetic::div_mod::lemma_div_is_ordered(ts as int, MAX_TS as int, 86400);
            vstd::arithmetic::div_mod::lemma_fundamental_div_mod_converse(
                MAX_TS as int, 86400, MAX_DAY as int, 86399);
        }
    }
    ts / SECONDS_PER_DAY
}

/// Noon of the given day, as a timestamp.
pub fn noon_of(day: i64) -> (ts: i64)
    requires
        0 <= day <= MAX_DAY,
    ensures
        ts == spec_noon_of(day as int),
{
    day * SECONDS_PER_DAY + 43200
}

/// The last second of the given day, as a timestamp.
pub fn end_of(day: i64) -> (ts: i64)
    requires
        0 <= day <= MAX_DAY,
    ensures
        ts == spec_end_of(day as int),
{
    day * SECONDS_PER_DAY + 86399
}

/// The first second of the given day, as a timestamp.
pub fn start_of(day: i64) -> (ts: i64)
    requires
        0 <= day <= MAX_DAY,
    ensures
        ts == spec_start_of(day as int),
{
    day * SECONDS_PER_DAY
}

/// Whether the given day is a Friday.
pub fn is_friday(day: i64) -> (r: bool)
    requires
        day >= 0,
    ensures
        r == spec_is_friday(day as int),
{
    day % 7 == 1
}

/// A timestamp's day grows with the timestamp.
pub proof fn lemma_day_of_monotone(t1: int, t2: int)
    requires
        t1 <= t2,
    ensures
        spec_day_of(t1) <= spec_day_of(t2),
{
    vstd::arithmetic::div_mod::lemma_div_is_ordered(t1, t2, 86400);
}

/// Timestamps at least a week into the epoch land on days the calendar
/// helpers can address, at least seven days in.
pub proof fn lemma_day_of_range(t: int)
    requires
        604800 <= t <= MAX_TS,
    ensures
        7 <= spec_day_of(t) <= MAX_DAY,
{
    vstd::arithmetic::div_mod::lemma_div_is_ordered(604800, t, 86400);
    vstd::arithmetic::div_mod::lemma_div_is_ordered(t, MAX_TS as int, 86400);
    vstd::arithmetic::div_mod::lemma_fundamental_div_mod_converse(
        604800, 86400, 7, 0);
    vstd::arithmetic::div_mod::lemma_fundamental_div_mod_converse(
        MAX_TS as int, 86400, MAX_DAY as int, 86399);
}

/// Stepping one whole day back moves the day number back by one.
pub proof fn lemma_day_of_previous(ts: int)
    ensures
        spec_day_of(ts - 86400) == spec_day_of(ts) - 1,
{
    vstd::arithmetic::div_mod::lemma_fundamental_div_mod(ts, 86400);
    vstd::arithmetic::div_mod::lemma_mod_bound(ts, 86400);
    vstd::arithmetic::div_mod::lemma_fundamental_div_mod_converse(
        ts - 86400, 86400, spec_day_of(ts) - 1, ts % 86400);
}

/// A timestamp sits inside its own day.
pub proof fn lemma_time_in_its_day(ts: int)
    ensures
        spec_start_of(spec_day_of(ts)) <= ts < spec_start_of(spec_day_of(ts)) + 86400,
{
    vstd::arithmetic::div_mod::lemma_fundamental_div_mod(ts, 86400);
    vstd::arithmetic::div_mod::lemma_mod_bound(ts, 86400);
}

/// The Fridays visited by a walk that starts at `from`, steps seven days
/// from a Friday and one day otherwise, and stops upon reaching `to`.
pub open spec fn spec_fridays_between(from: int, to: int) -> Seq<int>
    decreases vstd::math::max(to - from, 0),
{
    if from >= to {
        Seq::empty()
    } else if spec_is_friday(from) {
        seq![from] + spec_fridays_between(from + 7, to)
    } else {
        spec_fridays_between(from + 1, to)
    }
}

/// The walk visits exactly the Fridays of `[from, to)`, in increasing order.
pub proof fn lemma_fridays_between_characterization(from: int, to: int)
    ensures
        forall|i: int| 0 <= i < spec_fridays_between(from, to).len()
            ==> spec_is_friday(#[trigger] spec_fridays_between(from, to)[i])
                && from <= spec_fridays_between(from, to)[i] < to,
        forall|d: int| from <= d < to && spec_is_friday(d)
            ==> spec_fridays_between(from, to).contains(d),
        forall|i: int, j: int| 0 <= i < j < spec_fridays_between(from, to).len()
            ==> spec_fridays_between(from, to)[i] < spec_fridays_between(from, to)[j],
    decreases vstd::math::max(to - from, 0),
{
    if from >= to {
    } else if spec_is_friday(from) {
        lemma_fridays_between_characterization(from + 7, to);
        let s = spec_fridays_between(from, to);
        let tail = spec_fridays_between(from + 7, to);
        assert forall|i: int| 0 <= i < s.len()
            implies spec_is_friday(#[trigger] s[i]) && from <= s[i] < to by {
            if i > 0 {
                assert(s[i] == tail[i - 1]);
            }
        };
        assert forall|i: int, j: int| 0 <= i < j < s.len()
            implies s[i] < s[j] by {
            assert(s[j] == tail[j - 1]);
            if i > 0 {
                assert(s[i] == tail[i - 1]);
            }
        };
        assert forall|d: int| from <= d < to && spec_is_friday(d)
            implies spec_fridays_between(from, to).contains(d) by {
            if d == from {
                assert(spec_fridays_between(from, to)[0] == from);
            } else {
                // No Friday lies strictly between `from` and `from + 7`.
                assert(d % 7 == 1 && from % 7 == 1);
                assert(d != from && d >= from);
                assert(d >= from + 7) by {
                    if d < from + 7 {
                        assert((d - from) % 7 == 0) by {
                            vstd::arithmetic::div_mod::lemma_sub_mod_noop(d, from, 7);
                        }
                        assert((d - from) % 7 == d - from) by {
                            vstd::arithmetic::div_mod::lemma_small_mod((d - from) as nat, 7);
                        }
                    }
                };
                let tail = spec_fridays_between(from + 7, to);
                let k = choose|k: int| 0 <= k < tail.len() && tail[k] == d;
                assert(spec_fridays_between(from, to)[k + 1] == d);
            }
        };
    } else {
        lemma_fridays_between_characterization(from + 1, to);
        assert(spec_fridays_between(from, to) == spec_fridays_between(from + 1, to));
        assert forall|d: int| from <= d < to && spec_is_friday(d)
            implies spec_fridays_between(from, to).contains(d) by {
            assert(d != from);
            let tail = spec_fridays_between(from + 1, to);
            let k = choose|k: int| 0 <= k < tail.len() && tail[k] == d;
            assert(spec_fridays_between(from, to)[k] == d);
        };
    }
}

/// Walks that start anywhere in a Friday-free stretch agree.
proof fn lemma_fridays_between_same_start(x: int, y: int, to: int)
    requires
        x <= y <= to,
        forall|d: int| x <= d < y ==> !spec_is_friday(d),
    ensures
        spec_fridays_between(x, to) == spec_fridays_between(y, to),
    decreases y - x,
{
    if x < y {
        assert(!spec_is_friday(x));
        lemma_fridays_between_same_start(x + 1, y, to);
    }
}

/// The Friday walk over an interval splits at any interior cut.
pub proof fn lemma_fridays_between_split(a: int, b: int, c: int)
    requires
        a <= b <= c,
    ensures
        spec_fridays_between(a, c)
            == spec_fridays_between(a, b) + spec_fridays_between(b, c),
    decreases vstd::math::max(b - a, 0),
{
    if a >= b {
        assert(spec_fridays_between(a, c)
            =~= spec_fridays_between(a, b) + spec_fridays_between(b, c));
    } else if spec_is_friday(a) {
        if a + 7 <= b {
            lemma_fridays_between_split(a + 7, b, c);
            assert(spec_fridays_between(a, c)
                =~= spec_fridays_between(a, b) + spec_fridays_between(b, c));
        } else {
            // `a` is the only Friday before the cut; the walks from the
            // cut and from `a + 7` agree because the days between hold
            // no Friday.
            assert forall|d: int| a < d < a + 7 implies !spec_is_friday(d) by {
                if d % 7 == 1 {
                    assert((d - a) % 7 == 0) by {
                        vstd::arithmetic::div_mod::lemma_sub_mod_noop(d, a, 7);
                    }
                    assert((d - a) % 7 == d - a) by {
                        vstd::arithmetic::div_mod::lemma_small_mod((d - a) as nat, 7);
                    }
                }
            }
            if a + 7 <= c {
                lemma_fridays_between_same_start(b, a + 7, c);
                assert(spec_fridays_between(b, c) == spec_fridays_between(a + 7, c));
            } else {
                lemma_fridays_between_same_start(b, c, c);
                assert(spec_fridays_between(b, c) == spec_fridays_between(c, c));
                assert(spec_fridays_between(c, c) =~= Seq::<int>::empty());
                assert(spec_fridays_between(a + 7, c) =~= Seq::<int>::empty());
            }
            assert(spec_fridays_between(a + 7, b) =~= Seq::<int>::empty());
            assert(spec_fridays_between(a, b) =~= seq![a] + spec_fridays_between(a + 7, b));
            assert(spec_fridays_between(a, b) =~= seq![a]);
            assert(spec_fridays_between(a, c) =~= seq![a] + spec_fridays_between(a + 7, c));
            assert(spec_fridays_between(a, c)
                =~= spec_fridays_between(a, b) + spec_fridays_between(b, c));
        }
    } else {
        lemma_fridays_between_split(a + 1, b, c);
        assert(spec_fridays_between(a, c)
            =~= spec_fridays_between(a, b) + spec_fridays_between(b, c));
    }
}

/// All Fridays strictly between two instants' days, walked day by day as
/// the snapshot generator requires: each Friday of `[day(from), day(to))`,
/// ascending.
pub fn find_all_fridays_between(from: i64, to: i64) -> (fridays: Vec<i64>)
    requires
        0 <= from <= MAX_TS,
        0 <= to <= MAX_TS,
    ensures
        fridays@.map_values(|d: i64| d as int)
            == spec_fridays_between(spec_day_of(from as int), spec_day_of(to as int)),
{
    let mut fridays: Vec<i64> = Vec::new();
    let mut date: i64 = day_of(from);
    let to_day: i64 = day_of(to);

    proof {
        assert(fridays@.map_values(|d: i64| d as int)
            =~= Seq::<int>::empty());
    }

    while date < to_day
        invariant
            0 <= date <= MAX_DAY + 6,
            0 <= to_day <= MAX_DAY,
            spec_fridays_between(spec_day_of(from as int), to_day as int)
                == fridays@.map_values(|d: i64| d as int)
                    + spec_fridays_between(date as int, to_day as int),
        decreases vstd::math::max(to_day - date, 0),
    {
        if is_friday(date) {
            let ghost pre = fridays@;
            fridays.push(date);
            proof {
                assert(fridays@.map_values(|d: i64| d as int)
                    =~= pre.map_values(|d: i64| d as int) + seq![date as int]);
                assert(spec_fridays_between(date as int, to_day as int)
                    == seq![date as int] + spec_fridays_between(date + 7, to_day as int));
                assert(pre.map_values(|d: i64| d as int) + spec_fridays_between(date as int, to_day as int)
                    =~= fridays@.map_values(|d: i64| d as int)
                        + spec_fridays_between(date + 7, to_day as int));
            }
            date = date + 7;
        } else {
            date = date + 1;
        }
    }
    proof {
        assert(spec_fridays_between(date as int, to_day as int) =~= Seq::<int>::empty());
        assert(fridays@.map_values(|d: i64| d as int)
            + spec_fridays_between(date as int, to_day as int)
            =~= fridays@.map_values(|d: i64| d as int));
    }
    fridays
}

} // verus!
