//! Ledger events and queries over an in-memory event collection.
//!
//! The engine only reads events; they are appended by outside
//! collaborators, ordered by timestamp per symbol.

use vstd::prelude::*;

use crate::operation::StockOperation;
use crate::operation::StockOperationView;

verus! {

/// Which way a split changes the share count.
#[derive(Clone, Copy, Debug, PartialEq, Eq, Structural)]
pub enum StockSplitKind {
    Split,
    ReverseSplit,
}

/// A split event payload: the direction and the integer factor.
#[derive(Clone, Copy, Debug, PartialEq, Eq, Structural)]
pub struct StockSplit {
    pub split_kind: StockSplitKind,
    pub factor: i64,
}

/// The mathematical content of an [`EventDetail`].
pub ghost enum EventDetailView {
    StockOperation(StockOperationView),
    StockSplit(StockSplit),
}

/// What an event did: a stock operation or a split.
#[derive(Debug, PartialEq)]
pub enum EventDetail {
    StockOperation(StockOperation),
    StockSplit(StockSplit),
}

impl View for EventDetail {
    type V = EventDetailView;

    open spec fn view(&self) -> EventDetailView {
        match self {
            EventDetail::StockOperation(op) => EventDetailView::StockOperation(op@),
            EventDetail::StockSplit(split) => EventDetailView::StockSplit(*split),
        }
    }
}

impl DeepView for EventDetail {
    type V = EventDetailView;

    open spec fn deep_view(&self) -> EventDetailView {
        self.view()
    }
}

impl Clone for EventDetail {
    fn clone(&self) -> (res: Self)
        ensures
            res@ == self@,
    {
        match self {
            EventDetail::StockOperation(op) => EventDetail::StockOperation(op.clone()),
            EventDetail::StockSplit(split) => EventDetail::StockSplit(*split),
        }
    }
}

/// The mathematical content of an [`Event`].
#[verifier::ext_equal]
pub ghost struct EventView {
    pub id: Option<Seq<char>>,
    pub symbol: Seq<char>,
    pub time: int,
    pub detail: EventDetailView,
}

/// One ledger entry: what happened to which symbol, and when.
#[derive(Debug, PartialEq)]
pub struct Event {
    pub id: Option<String>,
    pub symbol: String,
    pub time: i64,
    pub detail: EventDetail,
}

impl View for Event {
    type V = EventView;

    open spec fn view(&self) -> EventView {
        EventView {
            id: self.id.deep_view(),
            symbol: self.symbol@,
            time: self.time as int,
            detail: self.detail@,
        }
    }
}

impl DeepView for Event {
    type V = EventView;

    open spec fn deep_view(&self) -> EventView {
        self.view()
    }
}

impl Clone for Event {
    fn clone(&self) -> (res: Self)
        ensures
            res@ == self@,
    {
        let id: Option<String> = match &self.id {
            Some(i) => Some(i.clone()),
            None => None,
        };
        let res = Event {
            id,
            symbol: self.symbol.clone(),
            time: self.time,
            detail: self.detail.clone(),
        };
        proof {
            assert(res@ =~= self@);
        }
        res
    }
}

/// The view of an optional portfolio scope.
pub open spec fn spec_scope_view(scope: &Option<String>) -> Option<Seq<char>> {
    match scope {
        Some(s) => Some(s@),
        None => None,
    }
}

/// Whether an event belongs to a portfolio scope: with no scope every
/// event matches; with a scope only operations attributed to that
/// portfolio match, so splits never match a scoped query.
pub open spec fn spec_matches_scope(e: EventView, scope: Option<Seq<char>>) -> bool {
    match scope {
        None => true,
        Some(oid) => match e.detail {
            EventDetailView::StockOperation(op) => op.operation.portfolios.contains(oid),
            EventDetailView::StockSplit(_) => false,
        },
    }
}

/// Whether an event is picked up by a replay query: right symbol, in
/// scope, and with a time in the half-open window `(from, until]`.
pub open spec fn spec_matches_query(
    e: EventView,
    symbol: Seq<char>,
    scope: Option<Seq<char>>,
    from: int,
    until: int,
) -> bool {
    e.symbol == symbol && spec_matches_scope(e, scope) && from < e.time <= until
}

/// The subsequence of events a replay pass consumes, in collection order.
pub open spec fn spec_query_events(
    events: Seq<EventView>,
    symbol: Seq<char>,
    scope: Option<Seq<char>>,
    from: int,
    until: int,
) -> Seq<EventView>
    decreases events.len(),
{
    if events.len() == 0 {
        Seq::empty()
    } else {
        let rest = spec_query_events(events.drop_last(), symbol, scope, from, until);
        if spec_matches_query(events.last(), symbol, scope, from, until) {
            rest.push(events.last())
        } else {
            rest
        }
    }
}

/// Whether one string of a vector views to the same characters as `s`.
pub fn contains_string(v: &Vec<String>, s: &String) -> (r: bool)
    ensures
        r == v.deep_view().contains(s@),
{
    let mut i: usize = 0;
    while i < v.len()
        invariant
            0 <= i <= v@.len(),
            forall|k: int| 0 <= k < i ==> v.deep_view()[k] != s@,
        decreases v@.len() - i,
    {
        if v[i].eq(s) {
            proof {
                assert(v.deep_view()[i as int] == s@);
            }
            return true;
        }
        i = i + 1;
    }
    false
}

/// Whether the event matches the given scope.
pub fn matches_scope(e: &Event, scope: &Option<String>) -> (r: bool)
    ensures
        r == spec_matches_scope(e@, spec_scope_view(scope)),
{
    match scope {
        None => true,
        Some(oid) => match &e.detail {
            EventDetail::StockOperation(op) => contains_string(&op.operation.portfolios, oid),
            EventDetail::StockSplit(_) => false,
        },
    }
}

/// The events a replay pass consumes: those for `symbol`, within `scope`,
/// with time in `(from, until]`, kept in the collection's order.
pub fn query_events(
    events: &Vec<Event>,
    symbol: &String,
    scope: &Option<String>,
    from: i64,
    until: i64,
) -> (r: Vec<Event>)
    ensures
        r.deep_view() == spec_query_events(
            events.deep_view(), symbol@, spec_scope_view(scope), from as int, until as int),
{
    let ghost symv = symbol@;
    let ghost scopev = spec_scope_view(scope);
    let mut r: Vec<Event> = Vec::new();
    let mut i: usize = 0;
    proof {
        assert(r.deep_view() =~= Seq::<EventView>::empty());
    }
    while i < events.len()
        invariant
            0 <= i <= events@.len(),
            symv == symbol@,
            scopev == spec_scope_view(scope),
            events.deep_view().len() == events@.len(),
            r.deep_view() == spec_query_events(
                events.deep_view().take(i as int), symv, scopev, from as int, until as int),
        decreases events@.len() - i,
    {
        let e = &events[i];
        proof {
            assert(events.deep_view()[i as int] == e@);
            assert(events.deep_view().take(i + 1int).drop_last()
                =~= events.deep_view().take(i as int));
            assert(events.deep_view().take(i + 1int).last() == e@);
        }
        let symbol_ok = e.symbol.eq(symbol);
        let time_ok = from < e.time && e.time <= until;
        let keep = if symbol_ok && time_ok { matches_scope(e, scope) } else { false };
        let ghost pre = r.deep_view();
        if keep {
            r.push(e.clone());
            proof {
                assert(spec_matches_query(e@, symv, scopev, from as int, until as int));
                assert(r.deep_view() =~= pre.push(e@));
            }
        } else {
            proof {
                assert(!spec_matches_query(e@, symv, scopev, from as int, until as int));
            }
        }
        i = i + 1;
    }
    proof {
        assert(events.deep_view().take(events@.len() as int) =~= events.deep_view());
    }
    r
}

/// The distinct symbols of the in-scope events, each exactly once, in
/// first-appearance order.
pub open spec fn spec_distinct_symbols_of(
    events: Seq<EventView>,
    scope: Option<Seq<char>>,
) -> Seq<Seq<char>>
    decreases events.len(),
{
    if events.len() == 0 {
        Seq::empty()
    } else {
        let pre = spec_distinct_symbols_of(events.drop_last(), scope);
        if spec_matches_scope(events.last(), scope) && !pre.contains(events.last().symbol) {
            pre.push(events.last().symbol)
        } else {
            pre
        }
    }
}

/// The distinct symbol list never repeats a symbol, and holds exactly
/// the symbols of in-scope events.
pub proof fn lemma_distinct_symbols_properties(
    events: Seq<EventView>,
    scope: Option<Seq<char>>,
)
    ensures
        forall|i: int, j: int|
            0 <= i < j < spec_distinct_symbols_of(events, scope).len()
            ==> spec_distinct_symbols_of(events, scope)[i]
                != spec_distinct_symbols_of(events, scope)[j],
        forall|s: Seq<char>| #[trigger] spec_distinct_symbols_of(events, scope).contains(s)
            <==> exists|k: int| 0 <= k < events.len()
                && (#[trigger] events[k]).symbol == s
                && spec_matches_scope(events[k], scope),
    decreases events.len(),
{
    let out = spec_distinct_symbols_of(events, scope);
    if events.len() == 0 {
    } else {
        lemma_distinct_symbols_properties(events.drop_last(), scope);
        let pre = spec_distinct_symbols_of(events.drop_last(), scope);
        let e = events.last();
        assert(events[events.len() - 1] == e);
        assert forall|i: int, j: int| 0 <= i < j < out.len()
            implies out[i] != out[j] by {
            if j < pre.len() {
                assert(out[i] == pre[i] && out[j] == pre[j]);
            } else if out.len() > pre.len() {
                assert(out[i] == pre[i] && out[j] == e.symbol);
                assert(pre.contains(pre[i]));
            }
        }
        assert forall|s: Seq<char>| #[trigger] out.contains(s)
            implies exists|k: int| 0 <= k < events.len()
                && (#[trigger] events[k]).symbol == s
                && spec_matches_scope(events[k], scope) by {
            let i = choose|i: int| 0 <= i < out.len() && out[i] == s;
            if i < pre.len() {
                assert(pre.contains(s));
                let k = choose|k: int| 0 <= k < events.drop_last().len()
                    && (#[trigger] events.drop_last()[k]).symbol == s
                    && spec_matches_scope(events.drop_last()[k], scope);
                assert((events[k]).symbol == s && spec_matches_scope(events[k], scope));
            } else {
                assert((events[events.len() - 1]).symbol == s
                    && spec_matches_scope(events[events.len() - 1], scope));
            }
        }
        assert forall|s: Seq<char>|
            (exists|k: int| 0 <= k < events.len()
                && (#[trigger] events[k]).symbol == s
                && spec_matches_scope(events[k], scope))
            implies #[trigger] out.contains(s) by {
            let k = choose|k: int| 0 <= k < events.len()
                && (#[trigger] events[k]).symbol == s
                && spec_matches_scope(events[k], scope);
            if k < events.len() - 1 {
                assert(events.drop_last()[k] == events[k]);
                assert(pre.contains(s));
                let i = choose|i: int| 0 <= i < pre.len() && pre[i] == s;
                assert(out[i] == s);
            } else {
                if pre.contains(s) {
                    let i = choose|i: int| 0 <= i < pre.len() && pre[i] == s;
                    assert(out[i] == s);
                } else {
                    assert(out[out.len() - 1] == s);
                }
            }
        }
    }
}

/// The distinct symbols of the in-scope events, each exactly once, in
/// first-appearance order.
pub fn get_distinct_symbols(events: &Vec<Event>, scope: &Option<String>) -> (r: Vec<String>)
    ensures
        r.deep_view() == spec_distinct_symbols_of(
            events.deep_view(), spec_scope_view(scope)),
{
    let ghost scopev = spec_scope_view(scope);
    let mut r: Vec<String> = Vec::new();
    let mut i: usize = 0;
    proof {
        assert(r.deep_view()
            =~= spec_distinct_symbols_of(events.deep_view().take(0int), scopev));
    }
    while i < events.len()
        invariant
            0 <= i <= events@.len(),
            scopev == spec_scope_view(scope),
            events.deep_view().len() == events@.len(),
            r.deep_view() == spec_distinct_symbols_of(
                events.deep_view().take(i as int), scopev),
        decreases events@.len() - i,
    {
        let e = &events[i];
        proof {
            assert(events.deep_view()[i as int] == e@);
            assert(events.deep_view().take(i + 1int).drop_last()
                =~= events.deep_view().take(i as int));
            assert(events.deep_view().take(i + 1int).last() == e@);
        }
        let ghost pre = r.deep_view();
        let in_scope = matches_scope(e, scope);
        let seen = if in_scope { contains_string(&r, &e.symbol) } else { false };
        if in_scope && !seen {
            r.push(e.symbol.clone());
            proof {
                assert(r.deep_view() =~= pre.push(e.symbol@));
            }
        }
        i = i + 1;
    }
    proof {
        assert(events.deep_view().take(events@.len() as int) =~= events.deep_view());
    }
    r
}

/// Events whose instants the calendar helpers can address: no earlier
/// than a week after the epoch and no later than the last representable
/// whole day.
pub open spec fn spec_events_wf(events: Seq<EventView>) -> bool {
    forall|k: int| 0 <= k < events.len()
        ==> 604800 <= (#[trigger] events[k]).time <= crate::dates::MAX_TS
}

/// A query keeps only events, so their instants stay addressable.
pub proof fn lemma_query_events_wf(
    events: Seq<EventView>,
    symbol: Seq<char>,
    scope: Option<Seq<char>>,
    from: int,
    until: int,
)
    requires
        spec_events_wf(events),
    ensures
        forall|i: int|
            0 <= i < spec_query_events(events, symbol, scope, from, until).len()
            ==> 604800 <= (#[trigger] spec_query_events(
                events, symbol, scope, from, until)[i]).time <= crate::dates::MAX_TS,
    decreases events.len(),
{
    let out = spec_query_events(events, symbol, scope, from, until);
    if events.len() == 0 {
    } else {
        let prefix = events.drop_last();
        assert(spec_events_wf(prefix)) by {
            assert forall|k: int| 0 <= k < prefix.len()
                implies 604800 <= (#[trigger] prefix[k]).time <= crate::dates::MAX_TS by {
                assert(prefix[k] == events[k]);
            }
        }
        lemma_query_events_wf(prefix, symbol, scope, from, until);
        let sub = spec_query_events(prefix, symbol, scope, from, until);
        assert(events[events.len() - 1] == events.last());
        assert forall|i: int| 0 <= i < out.len()
            implies 604800 <= (#[trigger] out[i]).time <= crate::dates::MAX_TS by {
            if spec_matches_query(events.last(), symbol, scope, from, until) {
                assert(out == sub.push(events.last()));
                if i < sub.len() {
                    assert(out[i] == sub[i]);
                } else {
                    assert(out[i] == events.last());
                }
            } else {
                assert(out == sub);
                assert(out[i] == sub[i]);
            }
        }
    }
}

/// Whether an event belongs to one (symbol, scope) stream, whatever its
/// time.
pub open spec fn spec_matches_stream(
    e: EventView,
    symbol: Seq<char>,
    scope: Option<Seq<char>>,
) -> bool {
    e.symbol == symbol && spec_matches_scope(e, scope)
}

/// Whether a collection keeps one (symbol, scope) stream ordered by
/// timestamp, as appenders promise.
pub open spec fn spec_events_sorted_for(
    events: Seq<EventView>,
    symbol: Seq<char>,
    scope: Option<Seq<char>>,
) -> bool {
    forall|i: int, j: int| 0 <= i < j < events.len()
        && spec_matches_stream(#[trigger] events[i], symbol, scope)
        && spec_matches_stream(#[trigger] events[j], symbol, scope)
        ==> events[i].time <= events[j].time
}

/// A window that no in-stream event hits selects nothing.
proof fn lemma_query_empty(
    events: Seq<EventView>,
    symbol: Seq<char>,
    scope: Option<Seq<char>>,
    from: int,
    until: int,
)
    requires
        forall|k: int| 0 <= k < events.len()
            && spec_matches_stream(#[trigger] events[k], symbol, scope)
            ==> !(from < events[k].time <= until),
    ensures
        spec_query_events(events, symbol, scope, from, until) == Seq::<EventView>::empty(),
    decreases events.len(),
{
    if events.len() > 0 {
        let prefix = events.drop_last();
        assert forall|k: int| 0 <= k < prefix.len()
            && spec_matches_stream(#[trigger] prefix[k], symbol, scope)
            implies !(from < prefix[k].time <= until) by {
            assert(prefix[k] == events[k]);
        }
        lemma_query_empty(prefix, symbol, scope, from, until);
        assert(events[events.len() - 1] == events.last());
    }
}

/// Splitting a query window at any cut splits the selected events, in
/// order, provided the stream is sorted: everything up to the cut comes
/// first, everything after it second.
pub proof fn lemma_query_split(
    events: Seq<EventView>,
    symbol: Seq<char>,
    scope: Option<Seq<char>>,
    from: int,
    cut: int,
    until: int,
)
    requires
        spec_events_sorted_for(events, symbol, scope),
        from <= cut <= until,
    ensures
        spec_query_events(events, symbol, scope, from, until)
            == spec_query_events(events, symbol, scope, from, cut)
                + spec_query_events(events, symbol, scope, cut, until),
    decreases events.len(),
{
    let whole = spec_query_events(events, symbol, scope, from, until);
    let first = spec_query_events(events, symbol, scope, from, cut);
    let second = spec_query_events(events, symbol, scope, cut, until);
    if events.len() == 0 {
        assert(whole =~= first + second);
    } else {
        let prefix = events.drop_last();
        let e = events.last();
        assert(spec_events_sorted_for(prefix, symbol, scope)) by {
            assert forall|i: int, j: int| 0 <= i < j < prefix.len()
                && spec_matches_stream(#[trigger] prefix[i], symbol, scope)
                && spec_matches_stream(#[trigger] prefix[j], symbol, scope)
                implies prefix[i].time <= prefix[j].time by {
                assert(prefix[i] == events[i] && prefix[j] == events[j]);
            }
        }
        lemma_query_split(prefix, symbol, scope, from, cut, until);
        let p_whole = spec_query_events(prefix, symbol, scope, from, until);
        let p_first = spec_query_events(prefix, symbol, scope, from, cut);
        let p_second = spec_query_events(prefix, symbol, scope, cut, until);
        assert(events[events.len() - 1] == e);
        if spec_matches_query(e, symbol, scope, from, until) {
            if e.time <= cut {
                // The last event lands before the cut, so nothing in the
                // sorted stream can land after it.
                assert forall|k: int| 0 <= k < prefix.len()
                    && spec_matches_stream(#[trigger] prefix[k], symbol, scope)
                    implies !(cut < prefix[k].time <= until) by {
                    assert(prefix[k] == events[k]);
                    assert(events[k].time <= e.time);
                }
                lemma_query_empty(prefix, symbol, scope, cut, until);
                assert(second =~= Seq::<EventView>::empty());
                assert(whole =~= (p_first.push(e)) + second);
            } else {
                assert(whole =~= first + (p_second.push(e)));
            }
        } else {
            assert(!spec_matches_query(e, symbol, scope, from, cut));
            assert(!spec_matches_query(e, symbol, scope, cut, until));
            assert(whole =~= first + second);
        }
    }
}

/// With nothing in the stream dated after `now1`, the window past it is
/// empty.
pub proof fn lemma_query_after_is_empty(
    events: Seq<EventView>,
    symbol: Seq<char>,
    scope: Option<Seq<char>>,
    now1: int,
    now2: int,
)
    requires
        forall|k: int| 0 <= k < events.len()
            && spec_matches_stream(#[trigger] events[k], symbol, scope)
            ==> events[k].time <= now1,
    ensures
        spec_query_events(events, symbol, scope, now1, now2) == Seq::<EventView>::empty(),
    decreases events.len(),
{
    if events.len() > 0 {
        let prefix = events.drop_last();
        assert forall|k: int| 0 <= k < prefix.len()
            && spec_matches_stream(#[trigger] prefix[k], symbol, scope)
            implies prefix[k].time <= now1 by {
            assert(prefix[k] == events[k]);
        }
        lemma_query_after_is_empty(prefix, symbol, scope, now1, now2);
        assert(events[events.len() - 1] == events.last());
    }
}

/// A query over a sorted stream comes out in time order; each selected
/// event matches the window and comes from the collection.
pub proof fn lemma_query_events_order(
    events: Seq<EventView>,
    symbol: Seq<char>,
    scope: Option<Seq<char>>,
    from: int,
    until: int,
)
    requires
        spec_events_sorted_for(events, symbol, scope),
    ensures
        forall|i: int|
            0 <= i < spec_query_events(events, symbol, scope, from, until).len()
            ==> spec_matches_query(
                #[trigger] spec_query_events(events, symbol, scope, from, until)[i],
                symbol, scope, from, until),
        forall|i: int|
            0 <= i < spec_query_events(events, symbol, scope, from, until).len()
            ==> exists|k: int| 0 <= k < events.len()
                && events[k] == #[trigger] spec_query_events(
                    events, symbol, scope, from, until)[i],
        forall|i: int, j: int|
            0 <= i < j < spec_query_events(events, symbol, scope, from, until).len()
            ==> (#[trigger] spec_query_events(events, symbol, scope, from, until)[i]).time
                <= (#[trigger] spec_query_events(events, symbol, scope, from, until)[j]).time,
    decreases events.len(),
{
    let out = spec_query_events(events, symbol, scope, from, until);
    if events.len() > 0 {
        let prefix = events.drop_last();
        assert(spec_events_sorted_for(prefix, symbol, scope)) by {
            assert forall|i: int, j: int| 0 <= i < j < prefix.len()
                && spec_matches_stream(#[trigger] prefix[i], symbol, scope)
                && spec_matches_stream(#[trigger] prefix[j], symbol, scope)
                implies prefix[i].time <= prefix[j].time by {
                assert(prefix[i] == events[i] && prefix[j] == events[j]);
            }
        }
        lemma_query_events_order(prefix, symbol, scope, from, until);
        let sub = spec_query_events(prefix, symbol, scope, from, until);
        assert(events[events.len() - 1] == events.last());
        assert forall|i: int| 0 <= i < out.len()
            implies spec_matches_query(#[trigger] out[i], symbol, scope, from, until)
                && (exists|k: int| 0 <= k < events.len() && events[k] == out[i]) by {
            if i < sub.len() {
                assert(out[i] == sub[i]);
                let k = choose|k: int| 0 <= k < prefix.len() && prefix[k] == sub[i];
                assert(events[k] == out[i]);
            } else {
                assert(out[i] == events.last());
            }
        }
        assert forall|i: int, j: int| 0 <= i < j < out.len()
            implies (#[trigger] out[i]).time <= (#[trigger] out[j]).time by {
            if j < sub.len() {
                assert(out[i] == sub[i] && out[j] == sub[j]);
            } else {
                assert(out[j] == events.last());
                assert(out[i] == sub[i]);
                let k = choose|k: int| 0 <= k < prefix.len() && prefix[k] == sub[i];
                assert(events[k] == out[i]);
                assert(spec_matches_stream(events[k], symbol, scope));
                assert(spec_matches_stream(events[events.len() - 1], symbol, scope));
            }
        }
    }
}

} // verus!
