//! Point-in-time positions and the ledger replay that produces them.
//!
//! A position summarizes ownership of one symbol, optionally scoped to a
//! portfolio: held quantity, cost basis, average price, realized gain and
//! the reporting fields refreshed from market prices. Replay folds
//! ordered ledger events into a position, resuming from a persisted
//! checkpoint when one exists.

use vstd::prelude::*;

use crate::error::BackendError;
use crate::event::Event;
use crate::event::EventDetail;
use crate::event::EventDetailView;
use crate::event::EventView;
use crate::event::StockSplit;
use crate::event::StockSplitKind;
use crate::operation::BaseOperation;
use crate::operation::OpView;
use crate::operation::OperationKind;

verus! {

/// The mathematical content of a [`Position`].
#[verifier::ext_equal]
pub ghost struct PositionView {
    pub id: Option<Seq<char>>,
    pub symbol: Seq<char>,
    pub average_price: int,
    pub cost_basis: int,
    pub quantity: int,
    pub time: int,
    pub current_price: int,
    pub gain: int,
    pub realized: int,
    pub recent_operations: Seq<OpView>,
    pub portfolio: Option<Seq<char>>,
}

/// A point-in-time ownership summary for one symbol, optionally scoped
/// to a portfolio. Monetary fields are in minor currency units.
#[derive(Debug, PartialEq)]
pub struct Position {
    pub id: Option<String>,
    pub symbol: String,
    pub average_price: i64,
    pub cost_basis: i64,
    pub quantity: i64,
    pub time: i64,
    pub current_price: i64,
    pub gain: i64,
    pub realized: i64,
    pub recent_operations: Vec<BaseOperation>,
    pub portfolio: Option<String>,
}

impl View for Position {
    type V = PositionView;

    open spec fn view(&self) -> PositionView {
        PositionView {
            id: self.id.deep_view(),
            symbol: self.symbol@,
            average_price: self.average_price as int,
            cost_basis: self.cost_basis as int,
            quantity: self.quantity as int,
            time: self.time as int,
            current_price: self.current_price as int,
            gain: self.gain as int,
            realized: self.realized as int,
            recent_operations: self.recent_operations.deep_view(),
            portfolio: self.portfolio.deep_view(),
        }
    }
}

impl DeepView for Position {
    type V = PositionView;

    open spec fn deep_view(&self) -> PositionView {
        self.view()
    }
}

impl Clone for Position {
    fn clone(&self) -> (res: Self)
        ensures
            res@ == self@,
    {
        let id: Option<String> = match &self.id {
            Some(i) => Some(i.clone()),
            None => None,
        };
        let portfolio: Option<String> = match &self.portfolio {
            Some(p) => Some(p.clone()),
            None => None,
        };
        let recent_operations: Vec<BaseOperation> = self.recent_operations.clone();
        let res = Position {
            id,
            symbol: self.symbol.clone(),
            average_price: self.average_price,
            cost_basis: self.cost_basis,
            quantity: self.quantity,
            time: self.time,
            current_price: self.current_price,
            gain: self.gain,
            realized: self.realized,
            recent_operations,
            portfolio,
        };
        proof {
            assert(res.recent_operations.deep_view() =~= self.recent_operations.deep_view());
            assert(res@ =~= self@);
        }
        res
    }
}

impl Position {
    /// A zeroed position for a symbol and scope, stamped with the
    /// current time.
    pub fn new(symbol: &String, portfolio_oid: Option<String>, now: i64) -> (p: Position)
        ensures
            p@ == (PositionView {
                id: None,
                symbol: symbol@,
                average_price: 0,
                cost_basis: 0,
                quantity: 0,
                time: now as int,
                current_price: 0,
                gain: 0,
                realized: 0,
                recent_operations: Seq::empty(),
                portfolio: portfolio_oid.deep_view(),
            }),
    {
        let p = Position {
            id: None,
            symbol: symbol.clone(),
            cost_basis: 0,
            quantity: 0,
            average_price: 0,
            time: now,
            current_price: 0,
            gain: 0,
            realized: 0,
            recent_operations: Vec::new(),
            portfolio: portfolio_oid,
        };
        proof {
            assert(p.recent_operations.deep_view() =~= Seq::<OpView>::empty());
        }
        p
    }
}

/// A position whose holdings a replay step may rely on: holdings and
/// prices are never negative. Every position the engine writes satisfies
/// this; a checkpoint that does not is an invalid ledger state.
pub open spec fn spec_state_wf(p: PositionView) -> bool {
    p.quantity >= 0 && p.cost_basis >= 0 && p.average_price >= 0
}

/// Whether the four accumulator fields fit the machine representation.
pub open spec fn spec_fits(p: PositionView) -> bool {
    &&& i64::MIN <= p.quantity <= i64::MAX
    &&& i64::MIN <= p.cost_basis <= i64::MAX
    &&& i64::MIN <= p.average_price <= i64::MAX
    &&& i64::MIN <= p.realized <= i64::MAX
}

/// Whether an operation may be applied to `p`: amounts are sane and a
/// sale never removes more than is held.
pub open spec fn spec_op_valid(p: PositionView, op: OpView) -> bool {
    &&& op.price >= 0
    &&& op.quantity >= 1
    &&& op.fees >= 0
    &&& op.kind == OperationKind::Sale ==> p.quantity > 0 && op.quantity <= p.quantity
}

/// Whether a split event is applicable: the factor is at least one.
pub open spec fn spec_split_valid(split: StockSplit) -> bool {
    split.factor >= 1
}

/// Whether one replay step from `p` over `e` is legal.
pub open spec fn spec_event_ok(p: PositionView, e: EventView) -> bool {
    match e.detail {
        EventDetailView::StockOperation(sop) => spec_op_valid(p, sop.operation),
        EventDetailView::StockSplit(split) => spec_split_valid(split),
    }
}

/// The accumulator after applying one operation, before the shared
/// average-price recomputation.
pub open spec fn spec_apply_operation_raw(p: PositionView, op: OpView) -> PositionView {
    match op.kind {
        OperationKind::Purchase => PositionView {
            cost_basis: p.cost_basis + op.price * op.quantity,
            quantity: p.quantity + op.quantity,
            ..p
        },
        OperationKind::Sale => {
            let cost_price = p.cost_basis / p.quantity;
            PositionView {
                cost_basis: p.cost_basis - cost_price * op.quantity,
                quantity: p.quantity - op.quantity,
                realized: p.realized + op.quantity * op.price - op.quantity * cost_price,
                ..p
            }
        },
    }
}

/// The accumulator after applying one split, before the shared
/// average-price recomputation.
pub open spec fn spec_apply_split_raw(p: PositionView, split: StockSplit) -> PositionView {
    match split.split_kind {
        StockSplitKind::Split => PositionView {
            quantity: p.quantity * split.factor,
            average_price: p.average_price / split.factor as int,
            ..p
        },
        StockSplitKind::ReverseSplit => PositionView {
            quantity: p.quantity / split.factor as int,
            average_price: p.average_price * split.factor,
            ..p
        },
    }
}

/// One full replay step: apply the event's arithmetic, recompute the
/// average price whenever both quantity and cost basis are non-zero,
/// stamp the event's time, and record the operation for reporting.
pub open spec fn spec_apply_event(p: PositionView, e: EventView) -> PositionView {
    let stepped = match e.detail {
        EventDetailView::StockOperation(sop) => {
            let raw = spec_apply_operation_raw(p, sop.operation);
            PositionView {
                recent_operations: p.recent_operations.push(sop.operation),
                ..raw
            }
        },
        EventDetailView::StockSplit(split) => spec_apply_split_raw(p, split),
    };
    let averaged = if stepped.quantity != 0 && stepped.cost_basis != 0 {
        PositionView { average_price: stepped.cost_basis / stepped.quantity, ..stepped }
    } else {
        stepped
    };
    PositionView { time: e.time, ..averaged }
}

/// The accumulator carried into the next step: the reference row with
/// the reporting accumulator cleared.
pub open spec fn spec_clear_recent(p: PositionView) -> PositionView {
    PositionView { recent_operations: Seq::empty(), ..p }
}

/// A position re-stamped with a new time.
pub open spec fn spec_set_time(p: PositionView, time: int) -> PositionView {
    PositionView { time: time, ..p }
}

/// The accumulator after replaying a whole event sequence from `seed`.
pub open spec fn spec_replay(seed: PositionView, events: Seq<EventView>) -> PositionView
    decreases events.len(),
{
    if events.len() == 0 {
        seed
    } else {
        spec_replay(spec_clear_recent(spec_apply_event(seed, events[0])), events.drop_first())
    }
}

/// Whether every step of a replay is legal and representable.
pub open spec fn spec_replay_steps_ok(seed: PositionView, events: Seq<EventView>) -> bool
    decreases events.len(),
{
    if events.len() == 0 {
        true
    } else {
        &&& spec_event_ok(seed, events[0])
        &&& spec_fits(spec_apply_event(seed, events[0]))
        &&& spec_replay_steps_ok(
            spec_clear_recent(spec_apply_event(seed, events[0])), events.drop_first())
    }
}

/// Whether a whole replay from `seed` is legal: the checkpoint is
/// well-formed and every step is legal and representable.
pub open spec fn spec_replay_ok(seed: PositionView, events: Seq<EventView>) -> bool {
    spec_state_wf(seed) && spec_replay_steps_ok(seed, events)
}

/// The reference rows a replay pass hands to the snapshot generator:
/// the accumulator after each event, then the final state stamped `now`.
pub open spec fn spec_references(
    seed: PositionView,
    events: Seq<EventView>,
    now: int,
) -> Seq<PositionView>
    decreases events.len(),
{
    if events.len() == 0 {
        seq![spec_set_time(seed, now)]
    } else {
        seq![spec_apply_event(seed, events[0])] + spec_references(
            spec_clear_recent(spec_apply_event(seed, events[0])), events.drop_first(), now)
    }
}

/// A replay step keeps holdings non-negative.
pub proof fn lemma_apply_event_preserves_wf(p: PositionView, e: EventView)
    requires
        spec_state_wf(p),
        spec_event_ok(p, e),
    ensures
        spec_state_wf(spec_apply_event(p, e)),
{
    match e.detail {
        EventDetailView::StockOperation(sop) => {
            let op = sop.operation;
            match op.kind {
                OperationKind::Purchase => {
                    assert(op.price * op.quantity >= 0) by (nonlinear_arith)
                        requires op.price >= 0 && op.quantity >= 0;
                    let raw = spec_apply_operation_raw(p, op);
                    if raw.quantity != 0 && raw.cost_basis != 0 {
                        assert(raw.cost_basis / raw.quantity >= 0) by {
                            vstd::arithmetic::div_mod::lemma_div_pos_is_pos(
                                raw.cost_basis, raw.quantity);
                        }
                    }
                },
                OperationKind::Sale => {
                    let cost_price = p.cost_basis / p.quantity;
                    assert(cost_price >= 0) by {
                        vstd::arithmetic::div_mod::lemma_div_pos_is_pos(
                            p.cost_basis, p.quantity);
                    }
                    assert(cost_price * op.quantity <= p.cost_basis) by {
                        assert(cost_price * p.quantity <= p.cost_basis) by {
                            vstd::arithmetic::div_mod::lemma_fundamental_div_mod(
                                p.cost_basis, p.quantity);
                            vstd::arithmetic::div_mod::lemma_mod_bound(
                                p.cost_basis, p.quantity);
                        }
                        assert(cost_price * op.quantity <= cost_price * p.quantity)
                            by (nonlinear_arith)
                            requires cost_price >= 0 && op.quantity <= p.quantity;
                    }
                    let raw = spec_apply_operation_raw(p, op);
                    if raw.quantity != 0 && raw.cost_basis != 0 {
                        assert(raw.cost_basis / raw.quantity >= 0) by {
                            vstd::arithmetic::div_mod::lemma_div_pos_is_pos(
                                raw.cost_basis, raw.quantity);
                        }
                    }
                },
            }
        },
        EventDetailView::StockSplit(split) => {
            let raw = spec_apply_split_raw(p, split);
            match split.split_kind {
                StockSplitKind::Split => {
                    assert(p.quantity * split.factor >= 0) by (nonlinear_arith)
                        requires p.quantity >= 0 && split.factor >= 1;
                    assert(p.average_price / split.factor as int >= 0) by {
                        vstd::arithmetic::div_mod::lemma_div_pos_is_pos(
                            p.average_price, split.factor as int);
                    }
                },
                StockSplitKind::ReverseSplit => {
                    assert(p.quantity / split.factor as int >= 0) by {
                        vstd::arithmetic::div_mod::lemma_div_pos_is_pos(
                            p.quantity, split.factor as int);
                    }
                    assert(p.average_price * split.factor >= 0) by (nonlinear_arith)
                        requires p.average_price >= 0 && split.factor >= 1;
                },
            }
            if raw.quantity != 0 && raw.cost_basis != 0 {
                assert(raw.cost_basis / raw.quantity >= 0) by {
                    vstd::arithmetic::div_mod::lemma_div_pos_is_pos(
                        raw.cost_basis, raw.quantity);
                }
            }
        },
    }
}

/// Replaying a concatenation is replaying the first part, then the
/// second from where the first left off. This is what makes checkpoint
/// resumption sound: seeding a persisted checkpoint and replaying only
/// subsequent events yields the same state as replaying everything.
pub proof fn lemma_replay_append(seed: PositionView, a: Seq<EventView>, b: Seq<EventView>)
    ensures
        spec_replay(seed, a + b) == spec_replay(spec_replay(seed, a), b),
    decreases a.len(),
{
    if a.len() == 0 {
        assert(a + b =~= b);
    } else {
        let next = spec_clear_recent(spec_apply_event(seed, a[0]));
        assert((a + b).drop_first() =~= a.drop_first() + b);
        lemma_replay_append(next, a.drop_first(), b);
    }
}

/// Step legality over a concatenation splits the same way.
pub proof fn lemma_replay_steps_ok_append(
    seed: PositionView,
    a: Seq<EventView>,
    b: Seq<EventView>,
)
    ensures
        spec_replay_steps_ok(seed, a + b)
            == (spec_replay_steps_ok(seed, a)
                && spec_replay_steps_ok(spec_replay(seed, a), b)),
    decreases a.len(),
{
    if a.len() == 0 {
        assert(a + b =~= b);
    } else {
        let next = spec_clear_recent(spec_apply_event(seed, a[0]));
        assert((a + b).drop_first() =~= a.drop_first() + b);
        lemma_replay_steps_ok_append(next, a.drop_first(), b);
    }
}

/// A legal replay ends in a well-formed state, and so does every legal
/// prefix of it.
pub proof fn lemma_replay_preserves_wf(seed: PositionView, events: Seq<EventView>)
    requires
        spec_state_wf(seed),
        spec_replay_steps_ok(seed, events),
    ensures
        spec_state_wf(spec_replay(seed, events)),
    decreases events.len(),
{
    if events.len() > 0 {
        lemma_apply_event_preserves_wf(seed, events[0]);
        lemma_replay_preserves_wf(
            spec_clear_recent(spec_apply_event(seed, events[0])), events.drop_first());
    }
}

/// The product of two values bounded by the `i64` range fits in `i128`.
pub proof fn lemma_i64_product_fits(a: int, b: int)
    requires
        -0x8000_0000_0000_0000 <= a <= 0x7fff_ffff_ffff_ffff,
        -0x8000_0000_0000_0000 <= b <= 0x7fff_ffff_ffff_ffff,
    ensures
        -0x4000_0000_0000_0000_0000_0000_0000_0000 <= a * b
            <= 0x4000_0000_0000_0000_0000_0000_0000_0000,
{
    assert(-0x4000_0000_0000_0000_0000_0000_0000_0000 <= a * b
        <= 0x4000_0000_0000_0000_0000_0000_0000_0000) by (nonlinear_arith)
        requires
            -0x8000_0000_0000_0000 <= a <= 0x7fff_ffff_ffff_ffff,
            -0x8000_0000_0000_0000 <= b <= 0x7fff_ffff_ffff_ffff,
    ;
}

/// One replay step over an owned accumulator. Returns the reference row
/// for the event, or `InvalidLedgerState` exactly when the step is
/// illegal (oversold or malformed amounts) or its result does not fit
/// the machine representation.
fn apply_event(acc: Position, e: &Event) -> (r: Result<Position, BackendError>)
    requires
        spec_state_wf(acc@),
    ensures
        match r {
            Ok(p) => spec_event_ok(acc@, e@)
                && spec_fits(spec_apply_event(acc@, e@))
                && p@ == spec_apply_event(acc@, e@),
            Err(err) => err == BackendError::InvalidLedgerState
                && !(spec_event_ok(acc@, e@) && spec_fits(spec_apply_event(acc@, e@))),
        },
{
    let ghost pre = acc@;
    let mut acc = acc;
    let cb: i128;
    let q: i128;
    let rz: i128;
    let avg_raw: i128;
    match &e.detail {
        EventDetail::StockOperation(sop) => {
            let op = &sop.operation;
            if !(op.price >= 0 && op.quantity >= 1 && op.fees >= 0) {
                return Err(BackendError::InvalidLedgerState);
            }
            match op.kind {
                OperationKind::Purchase => {
                    proof {
                        lemma_i64_product_fits(op.price as int, op.quantity as int);
                    }
                    cb = acc.cost_basis as i128 + (op.price as i128) * (op.quantity as i128);
                    q = acc.quantity as i128 + op.quantity as i128;
                    rz = acc.realized as i128;
                },
                OperationKind::Sale => {
                    if !(acc.quantity > 0 && op.quantity <= acc.quantity) {
                        return Err(BackendError::InvalidLedgerState);
                    }
                    let cost_price_u: u128 = (acc.cost_basis as u128) / (acc.quantity as u128);
                    proof {
                        assert(cost_price_u as int == pre.cost_basis / pre.quantity);
                        assert(cost_price_u <= acc.cost_basis as u128) by {
                            vstd::arithmetic::div_mod::lemma_div_basics_5(
                                pre.cost_basis, pre.quantity);
                        }
                        lemma_i64_product_fits(cost_price_u as int, op.quantity as int);
                        lemma_i64_product_fits(op.price as int, op.quantity as int);
                    }
                    let cost_price: i128 = cost_price_u as i128;
                    cb = acc.cost_basis as i128 - cost_price * (op.quantity as i128);
                    q = (acc.quantity - op.quantity) as i128;
                    rz = acc.realized as i128 + (op.quantity as i128) * (op.price as i128)
                        - (op.quantity as i128) * cost_price;
                },
            }
            avg_raw = acc.average_price as i128;
            let copy = op.clone();
            acc.recent_operations.push(copy);
            proof {
                assert(acc.recent_operations.deep_view()
                    =~= pre.recent_operations.push(sop.operation@));
            }
        },
        EventDetail::StockSplit(split) => {
            if !(split.factor >= 1) {
                return Err(BackendError::InvalidLedgerState);
            }
            match split.split_kind {
                StockSplitKind::Split => {
                    proof {
                        lemma_i64_product_fits(acc.quantity as int, split.factor as int);
                    }
                    q = (acc.quantity as i128) * (split.factor as i128);
                    let avg_u: u128 = (acc.average_price as u128) / (split.factor as u128);
                    proof {
                        assert(avg_u as int == pre.average_price / split.factor as int);
                        assert(avg_u <= acc.average_price as u128) by {
                            vstd::arithmetic::div_mod::lemma_div_basics_5(
                                pre.average_price, split.factor as int);
                        }
                    }
                    avg_raw = avg_u as i128;
                },
                StockSplitKind::ReverseSplit => {
                    let qd: u128 = (acc.quantity as u128) / (split.factor as u128);
                    proof {
                        assert(qd as int == pre.quantity / split.factor as int);
                        assert(qd <= acc.quantity as u128) by {
                            vstd::arithmetic::div_mod::lemma_div_basics_5(
                                pre.quantity, split.factor as int);
                        }
                        lemma_i64_product_fits(pre.average_price, split.factor as int);
                    }
                    q = qd as i128;
                    avg_raw = (acc.average_price as i128) * (split.factor as i128);
                },
            }
            cb = acc.cost_basis as i128;
            rz = acc.realized as i128;
        },
    }
    proof {
        lemma_apply_event_preserves_wf(pre, e@);
        assert(spec_apply_event(pre, e@).quantity == q as int);
        assert(spec_apply_event(pre, e@).cost_basis == cb as int);
        assert(spec_apply_event(pre, e@).realized == rz as int);
        assert(q as int >= 0 && cb as int >= 0);
    }
    let avg: i128 = if q != 0 && cb != 0 {
        let avg_u: u128 = (cb as u128) / (q as u128);
        proof {
            assert(avg_u <= cb as u128) by {
                vstd::arithmetic::div_mod::lemma_div_basics_5(cb as int, q as int);
            }
        }
        avg_u as i128
    } else {
        avg_raw
    };
    proof {
        assert(spec_apply_event(pre, e@).average_price == avg as int);
    }
    if !(i64::MIN as i128 <= q && q <= i64::MAX as i128
        && i64::MIN as i128 <= cb && cb <= i64::MAX as i128
        && i64::MIN as i128 <= avg && avg <= i64::MAX as i128
        && i64::MIN as i128 <= rz && rz <= i64::MAX as i128) {
        return Err(BackendError::InvalidLedgerState);
    }
    acc.quantity = q as i64;
    acc.cost_basis = cb as i64;
    acc.average_price = avg as i64;
    acc.realized = rz as i64;
    acc.time = e.time;
    proof {
        assert(acc@ =~= spec_apply_event(pre, e@));
    }
    Ok(acc)
}

/// The shape of the reference list: one row per event, in order, then
/// the final state stamped `now`.
pub proof fn lemma_references_structure(
    seed: PositionView,
    events: Seq<EventView>,
    now: int,
)
    ensures
        spec_references(seed, events, now).len() == events.len() + 1,
        forall|i: int| 0 <= i < events.len()
            ==> spec_references(seed, events, now)[i]
                == spec_apply_event(spec_replay(seed, events.take(i)), events[i]),
        spec_references(seed, events, now).last()
            == spec_set_time(spec_replay(seed, events), now),
    decreases events.len(),
{
    if events.len() == 0 {
    } else {
        let next = spec_clear_recent(spec_apply_event(seed, events[0]));
        let rest = events.drop_first();
        lemma_references_structure(next, rest, now);
        let refs = spec_references(seed, events, now);
        let tail = spec_references(next, rest, now);
        assert forall|i: int| 0 <= i < events.len()
            implies refs[i] == spec_apply_event(spec_replay(seed, events.take(i)), events[i]) by {
            if i == 0 {
                assert(events.take(0int) =~= Seq::<EventView>::empty());
            } else {
                assert(refs[i] == tail[i - 1]);
                assert(tail[i - 1]
                    == spec_apply_event(spec_replay(next, rest.take(i - 1)), rest[i - 1]));
                assert(events.take(i).drop_first() =~= rest.take(i - 1));
                assert(spec_replay(seed, events.take(i))
                    == spec_replay(next, rest.take(i - 1)));
                assert(rest[i - 1] == events[i]);
            }
        };
        assert(refs.last() == tail.last());
        assert(spec_replay(seed, events) == spec_replay(next, rest));
    }
}

/// Replay `events` over the `seed` checkpoint: the returned position is
/// the final accumulator stamped `now`, and the reference list carries
/// one row per event plus that final row, ready for the snapshot
/// generator. Fails with `InvalidLedgerState` exactly when the
/// checkpoint is malformed, a step is illegal, or a value does not fit.
pub fn replay_events(seed: Position, events: &Vec<Event>, now: i64) -> (r: Result<
    (Position, Vec<Position>),
    BackendError,
>)
    ensures
        match r {
            Ok(pair) => spec_replay_ok(seed@, events.deep_view())
                && pair.0@ == spec_set_time(
                    spec_replay(seed@, events.deep_view()), now as int)
                && pair.1.deep_view() == spec_references(
                    seed@, events.deep_view(), now as int),
            Err(err) => err == BackendError::InvalidLedgerState
                && !spec_replay_ok(seed@, events.deep_view()),
        },
{
    let ghost seedv = seed@;
    let ghost dv = events.deep_view();
    if !(seed.quantity >= 0 && seed.cost_basis >= 0 && seed.average_price >= 0) {
        return Err(BackendError::InvalidLedgerState);
    }
    let mut acc = seed;
    let mut refs: Vec<Position> = Vec::new();
    let mut i: usize = 0;
    proof {
        assert(dv.take(0int) =~= Seq::<EventView>::empty());
        assert(refs.deep_view() =~= Seq::<PositionView>::empty());
    }
    while i < events.len()
        invariant
            0 <= i <= events@.len(),
            seedv == seed@,
            dv == events.deep_view(),
            dv.len() == events@.len(),
            spec_state_wf(seedv),
            spec_state_wf(acc@),
            spec_replay_steps_ok(seedv, dv.take(i as int)),
            acc@ == spec_replay(seedv, dv.take(i as int)),
            refs.deep_view().len() == i,
            forall|k: int| 0 <= k < i
                ==> refs.deep_view()[k] == spec_apply_event(
                    spec_replay(seedv, dv.take(k)), dv[k]),
        decreases events@.len() - i,
    {
        let e = &events[i];
        proof {
            assert(dv[i as int] == e@);
        }
        let ghost acc_old = acc@;
        match apply_event(acc, e) {
            Ok(p) => {
                let ghost pre_refs = refs.deep_view();
                refs.push(p.clone());
                acc = p;
                acc.recent_operations = Vec::new();
                proof {
                    assert(refs.deep_view() =~= pre_refs.push(spec_apply_event(acc_old, e@)));
                    assert(acc.recent_operations.deep_view() =~= Seq::<OpView>::empty());
                    assert(acc@ =~= spec_clear_recent(spec_apply_event(acc_old, e@)));
                    lemma_apply_event_preserves_wf(acc_old, e@);
                    // One more legal step extends the legal prefix.
                    assert(dv.take(i + 1int) =~= dv.take(i as int) + seq![e@]);
                    lemma_replay_steps_ok_append(seedv, dv.take(i as int), seq![e@]);
                    lemma_replay_append(seedv, dv.take(i as int), seq![e@]);
                    assert(seq![e@].drop_first() =~= Seq::<EventView>::empty());
                    let next = spec_clear_recent(spec_apply_event(acc_old, e@));
                    assert(spec_replay_steps_ok(next, Seq::<EventView>::empty()));
                    assert(spec_replay(next, Seq::<EventView>::empty()) == next);
                    assert(seq![e@][0] == e@);
                    assert(spec_replay_steps_ok(acc_old, seq![e@]));
                    assert(spec_replay(acc_old, seq![e@]) == next);
                }
            },
            Err(err) => {
                proof {
                    // Were the whole replay legal, this step would be too.
                    if spec_replay_ok(seedv, dv) {
                        assert(dv =~= dv.take(i as int) + dv.skip(i as int));
                        lemma_replay_steps_ok_append(
                            seedv, dv.take(i as int), dv.skip(i as int));
                        assert(spec_replay_steps_ok(acc_old, dv.skip(i as int)));
                        assert(dv.skip(i as int)[0] == dv[i as int]);
                        assert(spec_event_ok(acc_old, e@)
                            && spec_fits(spec_apply_event(acc_old, e@)));
                        assert(false);
                    }
                    assert(!spec_replay_ok(seedv, dv));
                    assert(!spec_replay_ok(seedv, events.deep_view()));
                }
                return Err(err);
            },
        }
        i = i + 1;
    }
    acc.time = now;
    let last = acc.clone();
    let ghost pre_refs = refs.deep_view();
    refs.push(last);
    proof {
        assert(refs.deep_view() =~= pre_refs.push(acc@));
        assert(dv.take(dv.len() as int) =~= dv);
        lemma_references_structure(seedv, dv, now as int);
        assert(i as int == dv.len() as int);
        assert(dv.take(i as int) == dv.take(dv.len() as int));
        let fin = spec_replay(seedv, dv);
        assert(spec_replay(seedv, dv.take(i as int)) == fin);
        assert(acc@ =~= spec_set_time(fin, now as int));
        let spec_refs = spec_references(seedv, dv, now as int);
        assert(refs.deep_view().len() == spec_refs.len());
        assert forall|k: int| 0 <= k < spec_refs.len()
            implies refs.deep_view()[k] == spec_refs[k] by {
            if k < dv.len() {
                assert(refs.deep_view()[k] == pre_refs[k]);
            } else {
                assert(refs.deep_view()[k] == acc@);
                assert(spec_refs[k] == spec_refs.last());
            }
        };
        assert(refs.deep_view() =~= spec_refs);
    }
    Ok((acc, refs))
}

/// Whether a persisted row belongs to one (symbol, scope) log.
pub open spec fn spec_row_matches(
    p: PositionView,
    symbol: Seq<char>,
    scope: Option<Seq<char>>,
) -> bool {
    p.symbol == symbol && p.portfolio == scope
}

/// The latest persisted snapshot for a (symbol, scope) log: the row with
/// the greatest time, ties resolved toward the later row.
pub open spec fn spec_last_position(
    rows: Seq<PositionView>,
    symbol: Seq<char>,
    scope: Option<Seq<char>>,
) -> Option<PositionView>
    decreases rows.len(),
{
    if rows.len() == 0 {
        None
    } else {
        let rest = spec_last_position(rows.drop_last(), symbol, scope);
        if spec_row_matches(rows.last(), symbol, scope) {
            match rest {
                None => Some(rows.last()),
                Some(y) => if rows.last().time >= y.time {
                    Some(rows.last())
                } else {
                    Some(y)
                },
            }
        } else {
            rest
        }
    }
}

impl Position {
    /// The checkpoint to resume from: the latest persisted snapshot for
    /// the symbol and scope, if any.
    pub fn last(
        positions: &Vec<Position>,
        symbol: &String,
        portfolio_oid: &Option<String>,
    ) -> (r: Option<Position>)
        ensures
            match r {
                None => spec_last_position(
                    positions.deep_view(), symbol@,
                    crate::event::spec_scope_view(portfolio_oid)) is None,
                Some(p) => spec_last_position(
                    positions.deep_view(), symbol@,
                    crate::event::spec_scope_view(portfolio_oid)) == Some(p@),
            },
    {
        let ghost rows = positions.deep_view();
        let ghost scopev = crate::event::spec_scope_view(portfolio_oid);
        let mut best: Option<&Position> = None;
        let mut i: usize = 0;
        proof {
            assert(rows.take(0int) =~= Seq::<PositionView>::empty());
        }
        while i < positions.len()
            invariant
                0 <= i <= positions@.len(),
                rows == positions.deep_view(),
                rows.len() == positions@.len(),
                scopev == crate::event::spec_scope_view(portfolio_oid),
                match best {
                    None => spec_last_position(rows.take(i as int), symbol@, scopev) is None,
                    Some(p) => spec_last_position(rows.take(i as int), symbol@, scopev)
                        == Some(p@),
                },
            decreases positions@.len() - i,
        {
            let p = &positions[i];
            proof {
                assert(rows[i as int] == p@);
                assert(rows.take(i + 1int).drop_last() =~= rows.take(i as int));
                assert(rows.take(i + 1int).last() == p@);
            }
            let scope_ok = match (&p.portfolio, portfolio_oid) {
                (None, None) => true,
                (Some(a), Some(b)) => a.eq(b),
                _ => false,
            };
            if p.symbol.eq(symbol) && scope_ok {
                match best {
                    None => {
                        best = Some(p);
                    },
                    Some(cur) => {
                        if p.time >= cur.time {
                            best = Some(p);
                        }
                    },
                }
            }
            i = i + 1;
        }
        proof {
            assert(rows.take(rows.len() as int) =~= rows);
        }
        match best {
            Some(p) => Some(p.clone()),
            None => None,
        }
    }
}

/// The accumulator a replay pass starts from, and the instant it resumes
/// after: the latest persisted snapshot when one exists, else a zeroed
/// position and the distant past.
pub open spec fn spec_seed_of(
    checkpoint: Option<PositionView>,
    symbol: Seq<char>,
    scope: Option<Seq<char>>,
    now: int,
) -> PositionView {
    match checkpoint {
        Some(c) => c,
        None => PositionView {
            id: None,
            symbol: symbol,
            average_price: 0,
            cost_basis: 0,
            quantity: 0,
            time: now,
            current_price: 0,
            gain: 0,
            realized: 0,
            recent_operations: Seq::empty(),
            portfolio: scope,
        },
    }
}

/// The instant a replay pass resumes after.
pub open spec fn spec_resume_from(checkpoint: Option<PositionView>) -> int {
    match checkpoint {
        Some(c) => c.time,
        None => 0,
    }
}

/// The events one position calculation replays.
pub open spec fn spec_calc_events(
    events: Seq<EventView>,
    positions: Seq<PositionView>,
    symbol: Seq<char>,
    scope: Option<Seq<char>>,
    now: int,
) -> Seq<EventView> {
    crate::event::spec_query_events(
        events, symbol, scope,
        spec_resume_from(spec_last_position(positions, symbol, scope)), now)
}

/// The accumulator a calculation seeds.
pub open spec fn spec_calc_seed(
    positions: Seq<PositionView>,
    symbol: Seq<char>,
    scope: Option<Seq<char>>,
    now: int,
) -> PositionView {
    spec_seed_of(spec_last_position(positions, symbol, scope), symbol, scope, now)
}

/// The synchronous answer before the market-price overlay.
pub open spec fn spec_calc_replayed(
    events: Seq<EventView>,
    positions: Seq<PositionView>,
    symbol: Seq<char>,
    scope: Option<Seq<char>>,
    now: int,
) -> PositionView {
    spec_set_time(
        spec_replay(
            spec_calc_seed(positions, symbol, scope, now),
            spec_calc_events(events, positions, symbol, scope, now)),
        now)
}

/// The reference rows a calculation hands to the snapshot generator.
pub open spec fn spec_calc_references(
    events: Seq<EventView>,
    positions: Seq<PositionView>,
    symbol: Seq<char>,
    scope: Option<Seq<char>>,
    now: int,
) -> Seq<PositionView> {
    spec_references(
        spec_calc_seed(positions, symbol, scope, now),
        spec_calc_events(events, positions, symbol, scope, now),
        now)
}

/// Today's best-effort price for the calculation, if the store has one.
pub open spec fn spec_calc_price(
    hist: Seq<crate::historical::AssetDayView>,
    symbol: Seq<char>,
    now: int,
) -> Option<int> {
    match crate::historical::spec_best_bar(
        hist, symbol,
        crate::historical::spec_fallback_window(crate::dates::spec_day_of(now)).0,
        crate::historical::spec_fallback_window(crate::dates::spec_day_of(now)).1) {
        Some(b) => Some(b.close),
        None => None,
    }
}

/// A position with the market-price overlay applied: an open position
/// whose current price is known reports it and the unrealized gain;
/// otherwise both fields stay as the replay left them.
pub open spec fn spec_apply_price(p: PositionView, price: Option<int>) -> PositionView {
    match price {
        Some(cp) => if p.quantity > 0 {
            PositionView { current_price: cp, gain: cp * p.quantity - p.cost_basis, ..p }
        } else {
            p
        },
        None => p,
    }
}

/// Whether the market-price overlay of a calculation is representable.
pub open spec fn spec_calc_gain_fits(
    events: Seq<EventView>,
    positions: Seq<PositionView>,
    hist: Seq<crate::historical::AssetDayView>,
    symbol: Seq<char>,
    scope: Option<Seq<char>>,
    now: int,
) -> bool {
    let p = spec_calc_replayed(events, positions, symbol, scope, now);
    match spec_calc_price(hist, symbol, now) {
        Some(cp) => p.quantity > 0
            ==> i64::MIN <= cp * p.quantity - p.cost_basis <= i64::MAX,
        None => true,
    }
}

/// Whether a calculation succeeds: the replay is legal and the overlay
/// representable. Background snapshot trouble never fails a calculation.
pub open spec fn spec_calc_ok(
    events: Seq<EventView>,
    positions: Seq<PositionView>,
    hist: Seq<crate::historical::AssetDayView>,
    symbol: Seq<char>,
    scope: Option<Seq<char>>,
    now: int,
) -> bool {
    &&& spec_replay_ok(
        spec_calc_seed(positions, symbol, scope, now),
        spec_calc_events(events, positions, symbol, scope, now))
    &&& spec_calc_gain_fits(events, positions, hist, symbol, scope, now)
}

/// The position a successful calculation returns.
pub open spec fn spec_calc_result(
    events: Seq<EventView>,
    positions: Seq<PositionView>,
    hist: Seq<crate::historical::AssetDayView>,
    symbol: Seq<char>,
    scope: Option<Seq<char>>,
    now: int,
) -> PositionView {
    spec_apply_price(
        spec_calc_replayed(events, positions, symbol, scope, now),
        spec_calc_price(hist, symbol, now))
}

/// The snapshot rows a calculation appends to the position log: none
/// when the replay fails or a snapshot row is unrepresentable, since the
/// backfill is best-effort once the caller has their answer.
pub open spec fn spec_calc_appended(
    events: Seq<EventView>,
    positions: Seq<PositionView>,
    hist: Seq<crate::historical::AssetDayView>,
    symbol: Seq<char>,
    scope: Option<Seq<char>>,
    now: int,
) -> Seq<PositionView> {
    if !spec_replay_ok(
        spec_calc_seed(positions, symbol, scope, now),
        spec_calc_events(events, positions, symbol, scope, now)) {
        Seq::empty()
    } else {
        let refs = spec_calc_references(events, positions, symbol, scope, now);
        if crate::snapshot::spec_snapshot_rows_fit(refs, hist, symbol) {
            crate::snapshot::spec_snapshot_rows(refs, hist, symbol, now)
        } else {
            Seq::empty()
        }
    }
}

impl Position {
    /// Compute the current position for a symbol, optionally scoped to a
    /// portfolio: resume from the latest persisted snapshot, replay the
    /// events since it, backfill weekly snapshot rows into the position
    /// log (best-effort), and overlay today's best-effort price on an
    /// open position. Fails with `InvalidLedgerState` exactly when the
    /// replay is illegal or the overlaid gain is unrepresentable.
    pub fn calculate_for_symbol(
        events: &Vec<Event>,
        positions: &mut Vec<Position>,
        historical: &Vec<crate::historical::AssetDay>,
        symbol: &String,
        portfolio_oid: Option<String>,
        now: i64,
    ) -> (r: Result<Position, BackendError>)
        requires
            crate::event::spec_events_wf(events.deep_view()),
            604800 <= now <= crate::dates::MAX_TS,
        ensures
            final(positions).deep_view() == old(positions).deep_view() + spec_calc_appended(
                events.deep_view(), old(positions).deep_view(), historical.deep_view(),
                symbol@, portfolio_oid.deep_view(), now as int),
            match r {
                Ok(p) => spec_calc_ok(
                    events.deep_view(), old(positions).deep_view(), historical.deep_view(),
                    symbol@, portfolio_oid.deep_view(), now as int)
                    && p@ == spec_calc_result(
                        events.deep_view(), old(positions).deep_view(),
                        historical.deep_view(), symbol@, portfolio_oid.deep_view(),
                        now as int),
                Err(e) => e == BackendError::InvalidLedgerState
                    && !spec_calc_ok(
                        events.deep_view(), old(positions).deep_view(),
                        historical.deep_view(), symbol@, portfolio_oid.deep_view(),
                        now as int),
            },
    {
        let ghost events_dv = events.deep_view();
        let ghost pos_dv = positions.deep_view();
        let ghost hist_dv = historical.deep_view();
        let ghost scopev = portfolio_oid.deep_view();
        proof {
            assert(crate::event::spec_scope_view(&portfolio_oid) == scopev);
        }
        let scope_copy: Option<String> = match &portfolio_oid {
            Some(s) => Some(s.clone()),
            None => None,
        };
        let mut date_from: i64 = 0;
        let seed: Position = match Position::last(positions, symbol, &portfolio_oid) {
            Some(checkpoint) => {
                date_from = checkpoint.time;
                checkpoint
            },
            None => Position::new(symbol, scope_copy, now),
        };
        proof {
            assert(seed@ == spec_calc_seed(pos_dv, symbol@, scopev, now as int));
            assert(date_from as int
                == spec_resume_from(spec_last_position(pos_dv, symbol@, scopev)));
        }
        let evs = crate::event::query_events(events, symbol, &portfolio_oid, date_from, now);
        proof {
            assert(evs.deep_view()
                == spec_calc_events(events_dv, pos_dv, symbol@, scopev, now as int));
        }
        let (mut position, references) = match replay_events(seed, &evs, now) {
            Ok(pair) => pair,
            Err(e) => {
                proof {
                    assert(positions.deep_view() =~= pos_dv + spec_calc_appended(
                        events_dv, pos_dv, hist_dv, symbol@, scopev, now as int));
                }
                return Err(e);
            },
        };
        proof {
            crate::event::lemma_query_events_wf(
                events_dv, symbol@, scopev, date_from as int, now as int);
            lemma_references_structure(seed@, evs.deep_view(), now as int);
            assert forall|k: int| 0 <= k < references.deep_view().len()
                implies 604800 <= (#[trigger] references.deep_view()[k]).time
                    <= crate::dates::MAX_TS by {
                if k < evs.deep_view().len() {
                    assert(references.deep_view()[k].time == evs.deep_view()[k].time);
                } else {
                    assert(references.deep_view()[k]
                        == references.deep_view().last());
                }
            };
        }
        match Position::create_snapshots(symbol, &references, historical, positions, now) {
            Ok(_) => {
                proof {
                    assert(positions.deep_view() =~= pos_dv + spec_calc_appended(
                        events_dv, pos_dv, hist_dv, symbol@, scopev, now as int));
                }
            },
            Err(_) => {
                // Best-effort: a failed backfill never fails the caller.
                proof {
                    assert(positions.deep_view() =~= pos_dv + spec_calc_appended(
                        events_dv, pos_dv, hist_dv, symbol@, scopev, now as int));
                }
            },
        }
        let today = crate::dates::day_of(now);
        proof {
            crate::dates::lemma_day_of_range(now as int);
        }
        let current_price = crate::historical::Historical::current_price_for_symbol(
            historical, symbol, today);
        if position.quantity > 0 {
            if let Some(cp) = current_price {
                proof {
                    lemma_i64_product_fits(cp as int, position@.quantity);
                }
                let gain128: i128 = (cp as i128) * (position.quantity as i128)
                    - (position.cost_basis as i128);
                if !(i64::MIN as i128 <= gain128 && gain128 <= i64::MAX as i128) {
                    return Err(BackendError::InvalidLedgerState);
                }
                position.current_price = cp;
                position.gain = gain128 as i64;
            }
        }
        proof {
            assert(position@ =~= spec_calc_result(
                events_dv, pos_dv, hist_dv, symbol@, scopev, now as int));
        }
        Ok(position)
    }
}

/// Resumability: replaying a checkpointed prefix and then only the
/// events after the cut yields exactly the state of replaying the whole
/// window in one pass, provided the (symbol, scope) stream is ordered by
/// timestamp; and the combined replay is legal exactly when both halves
/// are.
pub proof fn lemma_resumability(
    seed: PositionView,
    events: Seq<EventView>,
    symbol: Seq<char>,
    scope: Option<Seq<char>>,
    from: int,
    cut: int,
    until: int,
)
    requires
        crate::event::spec_events_sorted_for(events, symbol, scope),
        from <= cut <= until,
    ensures
        spec_replay(
            seed, crate::event::spec_query_events(events, symbol, scope, from, until))
            == spec_replay(
                spec_replay(
                    seed,
                    crate::event::spec_query_events(events, symbol, scope, from, cut)),
                crate::event::spec_query_events(events, symbol, scope, cut, until)),
        spec_replay_steps_ok(
            seed, crate::event::spec_query_events(events, symbol, scope, from, until))
            == (spec_replay_steps_ok(
                seed, crate::event::spec_query_events(events, symbol, scope, from, cut))
                && spec_replay_steps_ok(
                    spec_replay(
                        seed,
                        crate::event::spec_query_events(events, symbol, scope, from, cut)),
                    crate::event::spec_query_events(events, symbol, scope, cut, until))),
{
    crate::event::lemma_query_split(events, symbol, scope, from, cut, until);
    let a = crate::event::spec_query_events(events, symbol, scope, from, cut);
    let b = crate::event::spec_query_events(events, symbol, scope, cut, until);
    lemma_replay_append(seed, a, b);
    lemma_replay_steps_ok_append(seed, a, b);
}

/// Whether a sequence of positions is sorted ascending by symbol.
pub open spec fn spec_sorted_by_symbol(s: Seq<PositionView>) -> bool {
    forall|i: int, j: int| 0 <= i < j < s.len()
        ==> crate::symbols::spec_symbol_le((#[trigger] s[i]).symbol, (#[trigger] s[j]).symbol)
}

/// Sort positions ascending by symbol. The result holds exactly the
/// same rows.
fn sort_positions_by_symbol(input: Vec<Position>) -> (r: Vec<Position>)
    ensures
        r.deep_view().to_multiset() == input.deep_view().to_multiset(),
        spec_sorted_by_symbol(r.deep_view()),
{
    broadcast use vstd::seq_lib::group_to_multiset_ensures;

    let ghost orig = input.deep_view();
    let mut rest = input;
    let mut out: Vec<Position> = Vec::new();
    proof {
        assert(out.deep_view() =~= Seq::<PositionView>::empty());
        assert(out.deep_view().to_multiset().add(rest.deep_view().to_multiset())
            =~= orig.to_multiset());
    }
    while rest.len() > 0
        invariant
            orig == input.deep_view(),
            rest.deep_view().len() == rest@.len(),
            out.deep_view().len() == out@.len(),
            out.deep_view().to_multiset().add(rest.deep_view().to_multiset())
                == orig.to_multiset(),
            spec_sorted_by_symbol(out.deep_view()),
            forall|i: int, k: int|
                0 <= i < out.deep_view().len() && 0 <= k < rest.deep_view().len()
                ==> crate::symbols::spec_symbol_le(
                    (#[trigger] out.deep_view()[i]).symbol,
                    (#[trigger] rest.deep_view()[k]).symbol),
        decreases rest@.len(),
    {
        // Select the least remaining symbol.
        let mut m: usize = 0;
        let mut k: usize = 1;
        proof {
            crate::symbols::lemma_bytes_le_refl(
                vstd::utf8::encode_utf8(rest.deep_view()[0int].symbol));
        }
        while k < rest.len()
            invariant
                0 <= m < k <= rest@.len() || (k <= rest@.len() && m < rest@.len()),
                rest.deep_view().len() == rest@.len(),
                m < rest@.len(),
                forall|j: int| 0 <= j < k ==> crate::symbols::spec_symbol_le(
                    rest.deep_view()[m as int].symbol,
                    (#[trigger] rest.deep_view()[j]).symbol),
            decreases rest@.len() - k,
        {
            proof {
                assert(rest.deep_view()[k as int] == rest@[k as int]@);
                assert(rest.deep_view()[m as int] == rest@[m as int]@);
            }
            if crate::symbols::symbol_le(&rest[k].symbol, &rest[m].symbol) {
                proof {
                    assert forall|j: int| 0 <= j < k + 1 implies crate::symbols::spec_symbol_le(
                        rest.deep_view()[k as int].symbol,
                        (#[trigger] rest.deep_view()[j]).symbol) by {
                        if j < k {
                            crate::symbols::lemma_bytes_le_trans(
                                vstd::utf8::encode_utf8(rest.deep_view()[k as int].symbol),
                                vstd::utf8::encode_utf8(rest.deep_view()[m as int].symbol),
                                vstd::utf8::encode_utf8(rest.deep_view()[j].symbol));
                        } else {
                            crate::symbols::lemma_bytes_le_refl(
                                vstd::utf8::encode_utf8(rest.deep_view()[k as int].symbol));
                        }
                    }
                }
                m = k;
            } else {
                proof {
                    crate::symbols::lemma_bytes_le_total(
                        vstd::utf8::encode_utf8(rest.deep_view()[k as int].symbol),
                        vstd::utf8::encode_utf8(rest.deep_view()[m as int].symbol));
                }
            }
            k = k + 1;
        }
        let ghost pre_rest = rest.deep_view();
        let ghost pre_out = out.deep_view();
        let x = rest.remove(m);
        out.push(x);
        proof {
            assert(rest.deep_view() =~= pre_rest.remove(m as int));
            assert(out.deep_view() =~= pre_out.push(pre_rest[m as int]));
            pre_out.to_multiset_ensures();
            pre_rest.to_multiset_ensures();
            assert(pre_out.push(pre_rest[m as int]).to_multiset()
                =~= pre_out.to_multiset().insert(pre_rest[m as int]));
            assert(out.deep_view().to_multiset()
                =~= pre_out.to_multiset().insert(pre_rest[m as int]));
            assert(pre_rest.remove(m as int).to_multiset()
                =~= pre_rest.to_multiset().remove(pre_rest[m as int]));
            assert(rest.deep_view().to_multiset()
                =~= pre_rest.to_multiset().remove(pre_rest[m as int]));
            assert(pre_rest.to_multiset().count(pre_rest[m as int]) > 0) by {
                assert(pre_rest.contains(pre_rest[m as int]));
            }
            assert(out.deep_view().to_multiset().add(rest.deep_view().to_multiset())
                =~= pre_out.to_multiset().add(pre_rest.to_multiset()));
            // Everything already emitted precedes the element taken, and
            // the element taken precedes everything left.
            assert forall|i: int, kk: int|
                0 <= i < out.deep_view().len() && 0 <= kk < rest.deep_view().len()
                implies crate::symbols::spec_symbol_le(
                    (#[trigger] out.deep_view()[i]).symbol,
                    (#[trigger] rest.deep_view()[kk]).symbol) by {
                let moved = if kk < m { kk } else { kk + 1 };
                assert(rest.deep_view()[kk] == pre_rest[moved]);
                if i < pre_out.len() {
                    assert(out.deep_view()[i] == pre_out[i]);
                } else {
                    assert(out.deep_view()[i] == pre_rest[m as int]);
                }
            }
            assert forall|i: int, j: int| 0 <= i < j < out.deep_view().len()
                implies crate::symbols::spec_symbol_le(
                    (#[trigger] out.deep_view()[i]).symbol,
                    (#[trigger] out.deep_view()[j]).symbol) by {
                if j < pre_out.len() {
                    assert(out.deep_view()[i] == pre_out[i]
                        && out.deep_view()[j] == pre_out[j]);
                } else {
                    assert(out.deep_view()[i] == pre_out[i]
                        && out.deep_view()[j] == pre_rest[m as int]);
                }
            }
        }
    }
    proof {
        assert(rest.deep_view().to_multiset() =~= vstd::multiset::Multiset::<PositionView>::empty());
        assert(out.deep_view().to_multiset().add(rest.deep_view().to_multiset())
            =~= out.deep_view().to_multiset());
    }
    out
}

/// Fold one calculation per symbol over the shared position log: the
/// collected open positions in symbol-list order (or nothing once a
/// calculation fails, making the batch all-or-nothing) and the log as
/// the calculations leave it.
pub open spec fn spec_get_all_fold(
    events: Seq<EventView>,
    positions: Seq<PositionView>,
    hist: Seq<crate::historical::AssetDayView>,
    scope: Option<Seq<char>>,
    symbols: Seq<Seq<char>>,
    now: int,
) -> (Option<Seq<PositionView>>, Seq<PositionView>)
    decreases symbols.len(),
{
    if symbols.len() == 0 {
        (Some(Seq::empty()), positions)
    } else {
        let store2 = positions + spec_calc_appended(
            events, positions, hist, symbols[0], scope, now);
        if !spec_calc_ok(events, positions, hist, symbols[0], scope, now) {
            (None, store2)
        } else {
            let p = spec_calc_result(events, positions, hist, symbols[0], scope, now);
            let folded = spec_get_all_fold(
                events, store2, hist, scope, symbols.drop_first(), now);
            match folded.0 {
                None => (None, folded.1),
                Some(list) => (
                    Some(if p.quantity > 0 { seq![p] + list } else { list }),
                    folded.1,
                ),
            }
        }
    }
}

/// The collected positions with their synthetic display identifiers:
/// row `i` is labeled `i` in decimal, in collection order.
pub open spec fn spec_labeled(list: Seq<PositionView>) -> Seq<PositionView> {
    Seq::new(
        list.len(),
        |i: int| PositionView { id: Some(crate::digits::spec_dec_digits(i)), ..list[i] })
}

impl Position {
    /// Compute the position of every symbol the in-scope events mention,
    /// one calculation per symbol over the shared position log; fail as
    /// a whole if any calculation fails. Closed positions are dropped,
    /// the survivors get synthetic display identifiers in collection
    /// order, and the batch is returned sorted ascending by symbol.
    pub fn get_all_for_portfolio(
        events: &Vec<Event>,
        positions: &mut Vec<Position>,
        historical: &Vec<crate::historical::AssetDay>,
        oid: Option<String>,
        now: i64,
    ) -> (r: Result<Vec<Position>, BackendError>)
        requires
            crate::event::spec_events_wf(events.deep_view()),
            604800 <= now <= crate::dates::MAX_TS,
        ensures
            ({
                let folded = spec_get_all_fold(
                    events.deep_view(), old(positions).deep_view(), historical.deep_view(),
                    oid.deep_view(),
                    crate::event::spec_distinct_symbols_of(events.deep_view(), oid.deep_view()),
                    now as int);
                &&& final(positions).deep_view() == folded.1
                &&& match r {
                    Ok(v) => folded.0 is Some
                        && v.deep_view().to_multiset()
                            == spec_labeled(folded.0.unwrap()).to_multiset()
                        && spec_sorted_by_symbol(v.deep_view()),
                    Err(e) => e == BackendError::InvalidLedgerState && folded.0 is None,
                }
            }),
    {
        let ghost events_dv = events.deep_view();
        let ghost orig_pos = positions.deep_view();
        let ghost hist_dv = historical.deep_view();
        let ghost scopev = oid.deep_view();
        let symbols = crate::event::get_distinct_symbols(events, &oid);
        let ghost syms = symbols.deep_view();
        proof {
            assert(crate::event::spec_scope_view(&oid) == scopev);
        }
        let mut collected: Vec<Position> = Vec::new();
        let mut k: usize = 0;
        proof {
            assert(syms.skip(0int) =~= syms);
            assert(collected.deep_view() =~= Seq::<PositionView>::empty());
            assert forall|list: Seq<PositionView>|
                Seq::<PositionView>::empty() + list =~= list by {}
        }
        while k < symbols.len()
            invariant
                0 <= k <= symbols@.len(),
                orig_pos == old(positions).deep_view(),
                events_dv == events.deep_view(),
                hist_dv == historical.deep_view(),
                scopev == oid.deep_view(),
                syms == symbols.deep_view(),
                syms == crate::event::spec_distinct_symbols_of(events_dv, scopev),
                syms.len() == symbols@.len(),
                crate::event::spec_events_wf(events_dv),
                604800 <= now <= crate::dates::MAX_TS,
                ({
                    let total = spec_get_all_fold(
                        events_dv, orig_pos, hist_dv, scopev, syms, now as int);
                    let remaining = spec_get_all_fold(
                        events_dv, positions.deep_view(), hist_dv, scopev,
                        syms.skip(k as int), now as int);
                    &&& total.1 == remaining.1
                    &&& total.0 == match remaining.0 {
                        None => None::<Seq<PositionView>>,
                        Some(list) => Some(collected.deep_view() + list),
                    }
                }),
            decreases symbols@.len() - k,
        {
            let symbol = &symbols[k];
            proof {
                assert(syms[k as int] == symbol@);
                assert(syms.skip(k as int)[0] == syms[k as int]);
                assert(syms.skip(k as int).drop_first() =~= syms.skip(k + 1int));
            }
            let scope_copy: Option<String> = match &oid {
                Some(s) => Some(s.clone()),
                None => None,
            };
            let ghost pre_store = positions.deep_view();
            match Position::calculate_for_symbol(
                events, positions, historical, symbol, scope_copy, now) {
                Ok(p) => {
                    let ghost pre_collected = collected.deep_view();
                    if p.quantity > 0 {
                        collected.push(p);
                        proof {
                            assert(collected.deep_view()
                                =~= pre_collected.push(spec_calc_result(
                                    events_dv, pre_store, hist_dv, symbol@, scopev,
                                    now as int)));
                        }
                    }
                    proof {
                        let stepped = spec_get_all_fold(
                            events_dv, positions.deep_view(), hist_dv, scopev,
                            syms.skip(k + 1int), now as int);
                        match stepped.0 {
                            None => {},
                            Some(list) => {
                                let p0 = spec_calc_result(
                                    events_dv, pre_store, hist_dv, symbol@, scopev,
                                    now as int);
                                if p0.quantity > 0 {
                                    assert(pre_collected + (seq![p0] + list)
                                        =~= collected.deep_view() + list);
                                } else {
                                    assert(pre_collected + list
                                        =~= collected.deep_view() + list);
                                }
                            },
                        }
                    }
                },
                Err(e) => {
                    proof {
                        let remaining = spec_get_all_fold(
                            events_dv, pre_store, hist_dv, scopev,
                            syms.skip(k as int), now as int);
                        assert(!spec_calc_ok(
                            events_dv, pre_store, hist_dv, symbol@, scopev, now as int));
                        assert(remaining.0 is None);
                        assert(positions.deep_view() == remaining.1);
                    }
                    return Err(e);
                },
            }
            k = k + 1;
        }
        proof {
            assert(syms.skip(syms.len() as int) =~= Seq::<Seq<char>>::empty());
            assert(collected.deep_view() + Seq::<PositionView>::empty()
                =~= collected.deep_view());
        }
        // Display identifiers in collection order, before the sort.
        let mut labeled: Vec<Position> = Vec::new();
        let mut i: usize = 0;
        let ghost coll_dv = collected.deep_view();
        proof {
            assert(labeled.deep_view() =~= spec_labeled(coll_dv).take(0int));
        }
        while i < collected.len()
            invariant
                0 <= i <= collected@.len(),
                coll_dv == collected.deep_view(),
                coll_dv.len() == collected@.len(),
                labeled.deep_view() == spec_labeled(coll_dv).take(i as int),
            decreases collected@.len() - i,
        {
            let mut p = collected[i].clone();
            p.id = Some(crate::digits::u64_to_decimal(i as u64));
            let ghost pre = labeled.deep_view();
            labeled.push(p);
            proof {
                assert(labeled.deep_view()
                    =~= pre.push(spec_labeled(coll_dv)[i as int]));
                assert(spec_labeled(coll_dv).take(i + 1int)
                    =~= spec_labeled(coll_dv).take(i as int).push(
                        spec_labeled(coll_dv)[i as int]));
            }
            i = i + 1;
        }
        proof {
            assert(spec_labeled(coll_dv).take(coll_dv.len() as int) =~= spec_labeled(coll_dv));
        }
        let sorted = sort_positions_by_symbol(labeled);
        Ok(sorted)
    }

    /// Compute the position of every symbol in the ledger, unscoped.
    pub fn calculate_all(
        events: &Vec<Event>,
        positions: &mut Vec<Position>,
        historical: &Vec<crate::historical::AssetDay>,
        now: i64,
    ) -> (r: Result<Vec<Position>, BackendError>)
        requires
            crate::event::spec_events_wf(events.deep_view()),
            604800 <= now <= crate::dates::MAX_TS,
        ensures
            ({
                let folded = spec_get_all_fold(
                    events.deep_view(), old(positions).deep_view(), historical.deep_view(),
                    None,
                    crate::event::spec_distinct_symbols_of(events.deep_view(), None),
                    now as int);
                &&& final(positions).deep_view() == folded.1
                &&& match r {
                    Ok(v) => folded.0 is Some
                        && v.deep_view().to_multiset()
                            == spec_labeled(folded.0.unwrap()).to_multiset()
                        && spec_sorted_by_symbol(v.deep_view()),
                    Err(e) => e == BackendError::InvalidLedgerState && folded.0 is None,
                }
            }),
    {
        let r = Position::get_all_for_portfolio(events, positions, historical, None, now);
        proof {
            assert(None::<String>.deep_view() == None::<Seq<char>>);
        }
        r
    }
}

/// The default lower bound of a history query: 2006-01-01, the same
/// distant start the first backfill reaches back to.
pub const DEFAULT_HISTORY_SINCE: i64 = 1136073600;

/// The instant a history query starts after.
pub open spec fn spec_history_since(since: Option<i64>) -> int {
    match since {
        Some(t) => t as int,
        None => DEFAULT_HISTORY_SINCE as int,
    }
}

/// Whether a persisted row belongs to a history query: inside the scope
/// (an unscoped query sees every row) and after the lower bound.
pub open spec fn spec_history_matches(
    p: PositionView,
    scope: Option<Seq<char>>,
    since: int,
) -> bool {
    (match scope {
        None => true,
        Some(oid) => p.portfolio == Some(oid),
    }) && p.time > since
}

/// The distinct days of the matching rows, in first-appearance order.
pub open spec fn spec_history_days(
    rows: Seq<PositionView>,
    scope: Option<Seq<char>>,
    since: int,
) -> Seq<int>
    decreases rows.len(),
{
    if rows.len() == 0 {
        Seq::empty()
    } else {
        let pre = spec_history_days(rows.drop_last(), scope, since);
        let d = crate::dates::spec_day_of(rows.last().time);
        if spec_history_matches(rows.last(), scope, since) && !pre.contains(d) {
            pre.push(d)
        } else {
            pre
        }
    }
}

/// The matching rows of one day, in collection order.
pub open spec fn spec_history_group(
    rows: Seq<PositionView>,
    scope: Option<Seq<char>>,
    since: int,
    day: int,
) -> Seq<PositionView>
    decreases rows.len(),
{
    if rows.len() == 0 {
        Seq::empty()
    } else {
        let pre = spec_history_group(rows.drop_last(), scope, since, day);
        if spec_history_matches(rows.last(), scope, since)
            && crate::dates::spec_day_of(rows.last().time) == day {
            pre.push(rows.last())
        } else {
            pre
        }
    }
}

/// Whether a row belongs to a history query.
fn matches_history(p: &Position, oid: &Option<String>, since_ts: i64) -> (r: bool)
    ensures
        r == spec_history_matches(
            p@, crate::event::spec_scope_view(oid), since_ts as int),
{
    let scope_ok = match (oid, &p.portfolio) {
        (None, _) => true,
        (Some(o), Some(mine)) => mine.eq(o),
        (Some(_), None) => false,
    };
    scope_ok && p.time > since_ts
}

impl Position {
    /// The persisted snapshot history after `since` (or the distant
    /// default), grouped by day: each day the query matched, in
    /// first-appearance order, with that day's rows in collection order.
    pub fn get_history_for_portfolio(
        positions: &Vec<Position>,
        oid: &Option<String>,
        since: Option<i64>,
    ) -> (r: Vec<(i64, Vec<Position>)>)
        requires
            forall|k: int| 0 <= k < positions.deep_view().len()
                ==> (#[trigger] positions.deep_view()[k]).time >= 0,
        ensures
            r@.len() == spec_history_days(
                positions.deep_view(), crate::event::spec_scope_view(oid),
                spec_history_since(since)).len(),
            forall|i: int| 0 <= i < r@.len()
                ==> (#[trigger] r@[i]).0 as int == spec_history_days(
                    positions.deep_view(), crate::event::spec_scope_view(oid),
                    spec_history_since(since))[i]
                    && r@[i].1.deep_view() == spec_history_group(
                        positions.deep_view(), crate::event::spec_scope_view(oid),
                        spec_history_since(since), r@[i].0 as int),
    {
        let ghost rows = positions.deep_view();
        let ghost scopev = crate::event::spec_scope_view(oid);
        let since_ts: i64 = match since {
            Some(t) => t,
            None => DEFAULT_HISTORY_SINCE,
        };
        let ghost sincev = since_ts as int;
        // First pass: the distinct days, in first-appearance order.
        let mut days: Vec<i64> = Vec::new();
        let mut i: usize = 0;
        proof {
            assert(days@.map_values(|d: i64| d as int)
                =~= spec_history_days(rows.take(0int), scopev, sincev));
        }
        while i < positions.len()
            invariant
                0 <= i <= positions@.len(),
                rows == positions.deep_view(),
                rows.len() == positions@.len(),
                scopev == crate::event::spec_scope_view(oid),
                sincev == since_ts as int,
                forall|k: int| 0 <= k < rows.len() ==> (#[trigger] rows[k]).time >= 0,
                days@.map_values(|d: i64| d as int)
                    == spec_history_days(rows.take(i as int), scopev, sincev),
            decreases positions@.len() - i,
        {
            let p = &positions[i];
            proof {
                assert(rows[i as int] == p@);
                assert(rows.take(i + 1int).drop_last() =~= rows.take(i as int));
                assert(rows.take(i + 1int).last() == p@);
            }
            let ghost pre = days@.map_values(|d: i64| d as int);
            if matches_history(p, oid, since_ts) {
                let d = crate::dates::day_of(p.time);
                let mut seen = false;
                let mut j: usize = 0;
                while j < days.len()
                    invariant
                        0 <= j <= days@.len(),
                        pre == days@.map_values(|dd: i64| dd as int),
                        seen ==> pre.contains(d as int),
                        !seen ==> forall|k: int| 0 <= k < j ==> pre[k] != d as int,
                        d as int == crate::dates::spec_day_of(p@.time),
                        rows[i as int] == p@,
                    decreases days@.len() - j,
                {
                    if days[j] == d {
                        proof {
                            assert(pre[j as int] == d as int);
                        }
                        seen = true;
                    }
                    j = j + 1;
                }
                if !seen {
                    days.push(d);
                    proof {
                        assert(!pre.contains(d as int));
                        assert(days@.map_values(|dd: i64| dd as int)
                            =~= pre.push(d as int));
                    }
                } else {
                    proof {
                        assert(pre.contains(d as int));
                    }
                }
            }
            i = i + 1;
        }
        proof {
            assert(rows.take(rows.len() as int) =~= rows);
        }
        // Second pass: collect each day's rows in collection order.
        let ghost all_days = spec_history_days(rows, scopev, sincev);
        let mut r: Vec<(i64, Vec<Position>)> = Vec::new();
        let mut di: usize = 0;
        while di < days.len()
            invariant
                0 <= di <= days@.len(),
                rows == positions.deep_view(),
                rows.len() == positions@.len(),
                scopev == crate::event::spec_scope_view(oid),
                sincev == since_ts as int,
                forall|k: int| 0 <= k < rows.len() ==> (#[trigger] rows[k]).time >= 0,
                all_days == spec_history_days(rows, scopev, sincev),
                days@.map_values(|d: i64| d as int) == all_days,
                r@.len() == di,
                forall|k: int| 0 <= k < di
                    ==> (#[trigger] r@[k]).0 as int == all_days[k]
                        && r@[k].1.deep_view() == spec_history_group(
                            rows, scopev, sincev, r@[k].0 as int),
            decreases days@.len() - di,
        {
            let d = days[di];
            proof {
                assert(days@.map_values(|dd: i64| dd as int)[di as int] == d as int);
            }
            let mut group: Vec<Position> = Vec::new();
            let mut gi: usize = 0;
            proof {
                assert(group.deep_view()
                    =~= spec_history_group(rows.take(0int), scopev, sincev, d as int));
            }
            while gi < positions.len()
                invariant
                    0 <= gi <= positions@.len(),
                    rows == positions.deep_view(),
                    rows.len() == positions@.len(),
                    scopev == crate::event::spec_scope_view(oid),
                    sincev == since_ts as int,
                    forall|k: int| 0 <= k < rows.len() ==> (#[trigger] rows[k]).time >= 0,
                    group.deep_view() == spec_history_group(
                        rows.take(gi as int), scopev, sincev, d as int),
                decreases positions@.len() - gi,
            {
                let p = &positions[gi];
                proof {
                    assert(rows[gi as int] == p@);
                    assert(rows.take(gi + 1int).drop_last() =~= rows.take(gi as int));
                    assert(rows.take(gi + 1int).last() == p@);
                }
                let ghost pre_g = group.deep_view();
                if matches_history(p, oid, since_ts) {
                    let pd = crate::dates::day_of(p.time);
                    if pd == d {
                        group.push(p.clone());
                        proof {
                            assert(group.deep_view() =~= pre_g.push(p@));
                        }
                    }
                }
                gi = gi + 1;
            }
            proof {
                assert(rows.take(rows.len() as int) =~= rows);
            }
            r.push((d, group));
            di = di + 1;
        }
        r
    }
}

/// The four accumulator fields of a position.
pub open spec fn spec_acc_fields(p: PositionView) -> (int, int, int, int) {
    (p.quantity, p.cost_basis, p.average_price, p.realized)
}

/// A replay step never changes which (symbol, scope) log the accumulator
/// belongs to.
pub proof fn lemma_replay_keeps_identity(seed: PositionView, events: Seq<EventView>)
    ensures
        spec_replay(seed, events).symbol == seed.symbol,
        spec_replay(seed, events).portfolio == seed.portfolio,
        spec_replay(seed, events).id == seed.id,
    decreases events.len(),
{
    if events.len() > 0 {
        lemma_replay_keeps_identity(
            spec_clear_recent(spec_apply_event(seed, events[0])), events.drop_first());
    }
}

/// What the checkpoint choice promises: it exists exactly when a row
/// matches, it matches itself, and no matching row is later.
pub proof fn lemma_last_position_properties(
    rows: Seq<PositionView>,
    symbol: Seq<char>,
    scope: Option<Seq<char>>,
)
    ensures
        spec_last_position(rows, symbol, scope) is None
            <==> forall|k: int| 0 <= k < rows.len()
                ==> !spec_row_matches(#[trigger] rows[k], symbol, scope),
        match spec_last_position(rows, symbol, scope) {
            None => true,
            Some(x) => spec_row_matches(x, symbol, scope)
                && (exists|k: int| 0 <= k < rows.len() && rows[k] == x)
                && forall|k: int| 0 <= k < rows.len()
                    && spec_row_matches(#[trigger] rows[k], symbol, scope)
                    ==> rows[k].time <= x.time,
        },
    decreases rows.len(),
{
    if rows.len() > 0 {
        lemma_last_position_properties(rows.drop_last(), symbol, scope);
        assert forall|k: int| 0 <= k < rows.len() - 1
            implies rows.drop_last()[k] == rows[k] by {}
        match spec_last_position(rows, symbol, scope) {
            None => {},
            Some(x) => {
                if spec_row_matches(rows.last(), symbol, scope) {
                    match spec_last_position(rows.drop_last(), symbol, scope) {
                        None => {
                            assert(rows[rows.len() - 1] == x);
                        },
                        Some(y) => {
                            if rows.last().time >= y.time {
                                assert(rows[rows.len() - 1] == x);
                            } else {
                                let k = choose|k: int|
                                    0 <= k < rows.drop_last().len()
                                    && rows.drop_last()[k] == y;
                                assert(rows[k] == x);
                            }
                        },
                    }
                } else {
                    let y = spec_last_position(rows.drop_last(), symbol, scope).unwrap();
                    let k = choose|k: int|
                        0 <= k < rows.drop_last().len() && rows.drop_last()[k] == y;
                    assert(rows[k] == x);
                }
            },
        }
    }
}

/// The checkpoint of an extended log: rows appended later win ties.
pub proof fn lemma_last_position_append(
    a: Seq<PositionView>,
    b: Seq<PositionView>,
    symbol: Seq<char>,
    scope: Option<Seq<char>>,
)
    ensures
        spec_last_position(a + b, symbol, scope) == match (
            spec_last_position(a, symbol, scope),
            spec_last_position(b, symbol, scope),
        ) {
            (None, None) => None::<PositionView>,
            (Some(x), None) => Some(x),
            (None, Some(y)) => Some(y),
            (Some(x), Some(y)) => if y.time >= x.time { Some(y) } else { Some(x) },
        },
    decreases b.len(),
{
    if b.len() == 0 {
        assert(a + b =~= a);
    } else {
        lemma_last_position_append(a, b.drop_last(), symbol, scope);
        assert((a + b).drop_last() =~= a + b.drop_last());
        assert((a + b).last() == b.last());
    }
}

/// In a log whose rows all match and whose times never decrease, the
/// checkpoint is the last row.
pub proof fn lemma_last_position_of_increasing(
    rows: Seq<PositionView>,
    symbol: Seq<char>,
    scope: Option<Seq<char>>,
)
    requires
        rows.len() > 0,
        forall|k: int| 0 <= k < rows.len()
            ==> spec_row_matches(#[trigger] rows[k], symbol, scope),
        forall|i: int, j: int| 0 <= i < j < rows.len()
            ==> (#[trigger] rows[i]).time <= (#[trigger] rows[j]).time,
    ensures
        spec_last_position(rows, symbol, scope) == Some(rows.last()),
    decreases rows.len(),
{
    if rows.len() == 1 {
    } else {
        let pre = rows.drop_last();
        assert forall|k: int| 0 <= k < pre.len()
            implies spec_row_matches(#[trigger] pre[k], symbol, scope) by {
            assert(pre[k] == rows[k]);
        }
        assert forall|i: int, j: int| 0 <= i < j < pre.len()
            implies (#[trigger] pre[i]).time <= (#[trigger] pre[j]).time by {
            assert(pre[i] == rows[i] && pre[j] == rows[j]);
        }
        lemma_last_position_of_increasing(pre, symbol, scope);
        assert(pre.last() == rows[rows.len() - 2]);
        assert(rows[rows.len() - 2].time <= rows[rows.len() - 1].time);
    }
}

/// The replay accumulator evolves from the accumulator fields alone, so
/// two seeds that agree on them stay in lockstep.
pub proof fn lemma_replay_acc_congruence(
    a: PositionView,
    b: PositionView,
    events: Seq<EventView>,
)
    requires
        spec_acc_fields(a) == spec_acc_fields(b),
    ensures
        spec_acc_fields(spec_replay(a, events)) == spec_acc_fields(spec_replay(b, events)),
    decreases events.len(),
{
    if events.len() > 0 {
        let e = events[0];
        assert(spec_acc_fields(spec_apply_event(a, e))
            == spec_acc_fields(spec_apply_event(b, e)));
        lemma_replay_acc_congruence(
            spec_clear_recent(spec_apply_event(a, e)),
            spec_clear_recent(spec_apply_event(b, e)),
            events.drop_first());
    }
}

/// Every reference row stays in the seed's (symbol, scope) log, and its
/// accumulator is the replayed prefix's.
pub proof fn lemma_references_keep_identity(
    seed: PositionView,
    events: Seq<EventView>,
    now: int,
)
    ensures
        forall|i: int| 0 <= i < spec_references(seed, events, now).len()
            ==> (#[trigger] spec_references(seed, events, now)[i]).symbol == seed.symbol
                && spec_references(seed, events, now)[i].portfolio == seed.portfolio,
        forall|i: int| 0 <= i < events.len()
            ==> spec_acc_fields(#[trigger] spec_references(seed, events, now)[i])
                == spec_acc_fields(spec_replay(seed, events.take(i + 1))),
        spec_acc_fields(spec_references(seed, events, now).last())
            == spec_acc_fields(spec_replay(seed, events)),
{
    lemma_references_structure(seed, events, now);
    let refs = spec_references(seed, events, now);
    assert forall|i: int| 0 <= i < refs.len()
        implies (#[trigger] refs[i]).symbol == seed.symbol
            && refs[i].portfolio == seed.portfolio by {
        if i < events.len() {
            lemma_replay_keeps_identity(seed, events.take(i));
        } else {
            assert(refs[i] == refs.last());
            lemma_replay_keeps_identity(seed, events);
        }
    }
    assert forall|i: int| 0 <= i < events.len()
        implies spec_acc_fields(#[trigger] refs[i])
            == spec_acc_fields(spec_replay(seed, events.take(i + 1))) by {
        assert(events.take(i + 1).drop_last() =~= events.take(i));
        assert(events.take(i + 1)[i] == events[i]);
        assert(events.take(i + 1).len() == i + 1);
        lemma_replay_append(seed, events.take(i), seq![events[i]]);
        assert(events.take(i) + seq![events[i]] =~= events.take(i + 1));
        assert(seq![events[i]].drop_first() =~= Seq::<EventView>::empty());
        let acc_i = spec_replay(seed, events.take(i));
        let next = spec_clear_recent(spec_apply_event(acc_i, events[i]));
        assert(seq![events[i]][0] == events[i]);
        assert(spec_replay(acc_i, seq![events[i]]) == spec_replay(next, Seq::<EventView>::empty()));
        assert(spec_replay(next, Seq::<EventView>::empty()) == next);
        assert(spec_replay(seed, events.take(i + 1)) == next);
    }
}

/// Resumability in checkpoint form: when the log's latest row for a
/// (symbol, scope) stream carries exactly the accumulator of replaying
/// the ordered stream through its own time, a calculation that resumes
/// from it reports the same quantity, cost basis, average price and
/// realized gain as one replaying the entire history from a zeroed
/// position over an empty log. Resuming from a checkpoint loses nothing.
pub proof fn lemma_checkpoint_resume(
    events: Seq<EventView>,
    positions: Seq<PositionView>,
    hist: Seq<crate::historical::AssetDayView>,
    symbol: Seq<char>,
    scope: Option<Seq<char>>,
    now: int,
)
    requires
        crate::event::spec_events_sorted_for(events, symbol, scope),
        0 <= now,
        ({
            let zeroed = spec_seed_of(None, symbol, scope, now);
            match spec_last_position(positions, symbol, scope) {
                Some(c) => 0 <= c.time <= now && spec_acc_fields(c) == spec_acc_fields(
                    spec_replay(
                        zeroed,
                        crate::event::spec_query_events(events, symbol, scope, 0, c.time))),
                None => true,
            }
        }),
    ensures
        spec_acc_fields(spec_calc_result(events, positions, hist, symbol, scope, now))
            == spec_acc_fields(spec_calc_result(
                events, Seq::<PositionView>::empty(), hist, symbol, scope, now)),
{
    let zeroed = spec_seed_of(None, symbol, scope, now);
    let whole = crate::event::spec_query_events(events, symbol, scope, 0, now);
    assert(spec_last_position(Seq::<PositionView>::empty(), symbol, scope) is None);
    match spec_last_position(positions, symbol, scope) {
        None => {},
        Some(c) => {
            let upto = crate::event::spec_query_events(events, symbol, scope, 0, c.time);
            let after = crate::event::spec_query_events(
                events, symbol, scope, c.time, now);
            lemma_resumability(zeroed, events, symbol, scope, 0, c.time, now);
            lemma_replay_acc_congruence(c, spec_replay(zeroed, upto), after);
            assert(spec_acc_fields(spec_replay(c, after))
                == spec_acc_fields(spec_replay(zeroed, whole)));
        },
    }
}

/// The facts one calculation's selected events and reference rows obey,
/// bundled for the idempotence proof.
#[verifier::rlimit(60)]
proof fn lemma_idem_stream_facts(
    events: Seq<EventView>,
    positions: Seq<PositionView>,
    symbol: Seq<char>,
    scope: Option<Seq<char>>,
    now1: int,
)
    requires
        crate::event::spec_events_sorted_for(events, symbol, scope),
        0 <= now1,
        forall|k: int| 0 <= k < events.len()
            && crate::event::spec_matches_stream(#[trigger] events[k], symbol, scope)
            ==> events[k].time <= now1,
        forall|k: int| 0 <= k < events.len()
            && crate::event::spec_matches_stream(#[trigger] events[k], symbol, scope)
            && crate::dates::spec_is_friday(crate::dates::spec_day_of(events[k].time))
            ==> events[k].time <= spec_noon_of_day(events[k].time),
        match spec_last_position(positions, symbol, scope) {
            Some(c) => 0 <= c.time <= now1,
            None => true,
        },
    ensures
        ({
            let c1 = spec_last_position(positions, symbol, scope);
            let from1 = spec_resume_from(c1);
            let seed1 = spec_seed_of(c1, symbol, scope, now1);
            let evs1 = spec_calc_events(events, positions, symbol, scope, now1);
            let refs = spec_references(seed1, evs1, now1);
            &&& seed1.symbol == symbol && seed1.portfolio == scope
            &&& refs.len() == evs1.len() + 1
            &&& refs.last().time == now1
            &&& forall|i: int| 0 <= i < evs1.len()
                ==> (#[trigger] refs[i]).time == evs1[i].time
            &&& forall|i: int, j: int| 0 <= i < j < evs1.len()
                ==> (#[trigger] evs1[i]).time <= (#[trigger] evs1[j]).time
            &&& forall|j: int| 0 <= j < evs1.len()
                ==> from1 < (#[trigger] evs1[j]).time <= now1
            &&& forall|j: int| 0 <= j < evs1.len()
                && crate::dates::spec_is_friday(
                    crate::dates::spec_day_of((#[trigger] evs1[j]).time))
                ==> evs1[j].time <= spec_noon_of_day(evs1[j].time)
            &&& forall|i: int| 0 <= i < refs.len() - 1
                ==> crate::dates::spec_day_of((#[trigger] refs[i]).time)
                    <= crate::dates::spec_day_of(refs[i + 1].time)
            &&& forall|i: int| 0 <= i < evs1.len()
                ==> spec_acc_fields(#[trigger] refs[i])
                    == spec_acc_fields(spec_replay(seed1, evs1.take(i + 1)))
        }),
{
    let c1 = spec_last_position(positions, symbol, scope);
    lemma_last_position_properties(positions, symbol, scope);
    let from1 = spec_resume_from(c1);
    let seed1 = spec_seed_of(c1, symbol, scope, now1);
    let evs1 = spec_calc_events(events, positions, symbol, scope, now1);
    let refs = spec_references(seed1, evs1, now1);
    crate::event::lemma_query_events_order(events, symbol, scope, from1, now1);
    lemma_references_structure(seed1, evs1, now1);
    lemma_references_keep_identity(seed1, evs1, now1);
    assert forall|j: int| 0 <= j < evs1.len()
        implies from1 < (#[trigger] evs1[j]).time <= now1
            && (crate::dates::spec_is_friday(crate::dates::spec_day_of(evs1[j].time))
                ==> evs1[j].time <= spec_noon_of_day(evs1[j].time)) by {
        assert(crate::event::spec_matches_query(evs1[j], symbol, scope, from1, now1));
        let k = choose|k: int| 0 <= k < events.len() && events[k] == evs1[j];
        assert(crate::event::spec_matches_stream(events[k], symbol, scope));
    }
    assert forall|i: int| 0 <= i < refs.len() - 1
        implies crate::dates::spec_day_of((#[trigger] refs[i]).time)
            <= crate::dates::spec_day_of(refs[i + 1].time) by {
        assert(refs[i].time == evs1[i].time);
        if i + 1 < evs1.len() {
            assert(refs[i + 1].time == evs1[i + 1].time);
        } else {
            assert(refs[i + 1] == refs.last());
        }
        crate::dates::lemma_day_of_monotone(refs[i].time, refs[i + 1].time);
    }
}

/// After a successful pass, what was appended is exactly the boundary
/// pairs' rows: the closing walk is empty because the final reference
/// stands at `now1`.
#[verifier::rlimit(60)]
proof fn lemma_idem_appended_is_pairs(
    events: Seq<EventView>,
    positions: Seq<PositionView>,
    hist1: Seq<crate::historical::AssetDayView>,
    symbol: Seq<char>,
    scope: Option<Seq<char>>,
    now1: int,
)
    requires
        spec_calc_appended(events, positions, hist1, symbol, scope, now1).len() > 0,
    ensures
        ({
            let c1 = spec_last_position(positions, symbol, scope);
            let seed1 = spec_seed_of(c1, symbol, scope, now1);
            let evs1 = spec_calc_events(events, positions, symbol, scope, now1);
            let refs = spec_references(seed1, evs1, now1);
            &&& spec_calc_appended(events, positions, hist1, symbol, scope, now1)
                == crate::snapshot::spec_snapshot_pairs_prefix(
                    refs, hist1, symbol, refs.len() - 1)
            &&& refs.len() == evs1.len() + 1
            &&& evs1.len() >= 1
        }),
{
    let c1 = spec_last_position(positions, symbol, scope);
    let seed1 = spec_seed_of(c1, symbol, scope, now1);
    let evs1 = spec_calc_events(events, positions, symbol, scope, now1);
    let refs = spec_references(seed1, evs1, now1);
    lemma_references_structure(seed1, evs1, now1);
    crate::dates::lemma_day_of_previous(now1);
    assert(crate::dates::spec_fridays_between(
        crate::dates::spec_day_of(now1), crate::dates::spec_day_of(now1 - 86400))
        =~= Seq::<int>::empty());
    assert(crate::snapshot::spec_snapshot_tail(refs.last(), Seq::<int>::empty())
        =~= Seq::<PositionView>::empty());
    let appended = spec_calc_appended(events, positions, hist1, symbol, scope, now1);
    assert(appended == crate::snapshot::spec_snapshot_rows(refs, hist1, symbol, now1));
    assert(appended =~= crate::snapshot::spec_snapshot_pairs_prefix(
        refs, hist1, symbol, refs.len() - 1));
}

/// After a first pass that persisted rows, the second pass's checkpoint
/// is the last row persisted.
#[verifier::rlimit(100)]
proof fn lemma_idem_second_checkpoint(
    events: Seq<EventView>,
    positions: Seq<PositionView>,
    hist1: Seq<crate::historical::AssetDayView>,
    symbol: Seq<char>,
    scope: Option<Seq<char>>,
    now1: int,
)
    requires
        crate::event::spec_events_sorted_for(events, symbol, scope),
        0 <= now1,
        forall|k: int| 0 <= k < events.len()
            && crate::event::spec_matches_stream(#[trigger] events[k], symbol, scope)
            ==> events[k].time <= now1,
        forall|k: int| 0 <= k < events.len()
            && crate::event::spec_matches_stream(#[trigger] events[k], symbol, scope)
            && crate::dates::spec_is_friday(crate::dates::spec_day_of(events[k].time))
            ==> events[k].time <= spec_noon_of_day(events[k].time),
        match spec_last_position(positions, symbol, scope) {
            Some(c) => 0 <= c.time <= now1 && c.time <= spec_noon_of_day(c.time),
            None => true,
        },
        spec_calc_appended(events, positions, hist1, symbol, scope, now1).len() > 0,
    ensures
        ({
            let c1 = spec_last_position(positions, symbol, scope);
            let from1 = spec_resume_from(c1);
            let appended = spec_calc_appended(events, positions, hist1, symbol, scope, now1);
            let x = appended.last();
            &&& spec_last_position(positions + appended, symbol, scope) == Some(x)
            &&& from1 <= x.time <= now1
        }),
{
    let c1 = spec_last_position(positions, symbol, scope);
    lemma_last_position_properties(positions, symbol, scope);
    let from1 = spec_resume_from(c1);
    let seed1 = spec_seed_of(c1, symbol, scope, now1);
    let evs1 = spec_calc_events(events, positions, symbol, scope, now1);
    let refs = spec_references(seed1, evs1, now1);
    let appended = spec_calc_appended(events, positions, hist1, symbol, scope, now1);
    lemma_idem_stream_facts(events, positions, symbol, scope, now1);
    lemma_idem_appended_is_pairs(events, positions, hist1, symbol, scope, now1);
    let n = refs.len() - 1;
    let pairs = crate::snapshot::spec_snapshot_pairs_prefix(refs, hist1, symbol, n);

    crate::snapshot::lemma_pairs_prefix_times_pub(refs, hist1, symbol, n);
    lemma_references_keep_identity(seed1, evs1, now1);
    crate::snapshot::lemma_pairs_prefix_rows_match(refs, hist1, symbol, scope, n);

    assert forall|i: int| 0 <= i < appended.len()
        implies spec_row_matches(#[trigger] appended[i], symbol, scope) by {
        assert(appended[i] == pairs[i]);
    }
    assert forall|i: int, j: int| 0 <= i < j < appended.len()
        implies (#[trigger] appended[i]).time <= (#[trigger] appended[j]).time by {
        assert(appended[i] == pairs[i] && appended[j] == pairs[j]);
    }
    lemma_last_position_of_increasing(appended, symbol, scope);
    lemma_last_position_append(positions, appended, symbol, scope);
    let x = appended.last();
    assert(x == pairs[pairs.len() - 1]);
    assert(x.time >= spec_noon_of_day(refs[0].time));
    assert(refs[0].time == evs1[0].time);
    match c1 {
        Some(c) => {
            assert(from1 == c.time);
            assert(c.time < refs[0].time);
            crate::dates::lemma_day_of_monotone(c.time, refs[0].time);
            assert(spec_noon_of_day(c.time) <= spec_noon_of_day(refs[0].time));
            assert(x.time >= c.time);
        },
        None => {
            vstd::arithmetic::div_mod::lemma_div_pos_is_pos(refs[0].time, 86400);
        },
    }
    assert(spec_last_position(positions + appended, symbol, scope) == Some(x));
    assert(x.time <= now1) by {
        assert(x.time < crate::dates::spec_start_of(
            crate::dates::spec_day_of(refs[n as int].time)));
        assert(refs[n as int] == refs.last());
        crate::dates::lemma_time_in_its_day(now1);
    }
}

/// The last persisted row cuts the event stream admissibly.
#[verifier::rlimit(100)]
proof fn lemma_idem_last_row_admissible(
    events: Seq<EventView>,
    positions: Seq<PositionView>,
    hist1: Seq<crate::historical::AssetDayView>,
    symbol: Seq<char>,
    scope: Option<Seq<char>>,
    now1: int,
)
    requires
        crate::event::spec_events_sorted_for(events, symbol, scope),
        0 <= now1,
        forall|k: int| 0 <= k < events.len()
            && crate::event::spec_matches_stream(#[trigger] events[k], symbol, scope)
            ==> events[k].time <= now1,
        forall|k: int| 0 <= k < events.len()
            && crate::event::spec_matches_stream(#[trigger] events[k], symbol, scope)
            && crate::dates::spec_is_friday(crate::dates::spec_day_of(events[k].time))
            ==> events[k].time <= spec_noon_of_day(events[k].time),
        match spec_last_position(positions, symbol, scope) {
            Some(c) => 0 <= c.time <= now1,
            None => true,
        },
        spec_calc_appended(events, positions, hist1, symbol, scope, now1).len() > 0,
    ensures
        ({
            let c1 = spec_last_position(positions, symbol, scope);
            let seed1 = spec_seed_of(c1, symbol, scope, now1);
            let evs1 = spec_calc_events(events, positions, symbol, scope, now1);
            let refs = spec_references(seed1, evs1, now1);
            let appended = spec_calc_appended(events, positions, hist1, symbol, scope, now1);
            crate::snapshot::spec_admissible_row(appended.last(), refs, evs1)
        }),
{
    let c1 = spec_last_position(positions, symbol, scope);
    lemma_last_position_properties(positions, symbol, scope);
    let seed1 = spec_seed_of(c1, symbol, scope, now1);
    let evs1 = spec_calc_events(events, positions, symbol, scope, now1);
    let refs = spec_references(seed1, evs1, now1);
    let appended = spec_calc_appended(events, positions, hist1, symbol, scope, now1);
    lemma_idem_stream_facts(events, positions, symbol, scope, now1);
    lemma_idem_appended_is_pairs(events, positions, hist1, symbol, scope, now1);
    let n = refs.len() - 1;
    let pairs = crate::snapshot::spec_snapshot_pairs_prefix(refs, hist1, symbol, n);
    crate::snapshot::lemma_pairs_prefix_admissible(refs, evs1, hist1, symbol, n);
    assert(appended.last() == pairs[pairs.len() - 1]);
}

/// Idempotence: computing a position twice in a row, with no event
/// arriving between the calls, reports the same quantity, cost basis,
/// average price and realized gain — whatever snapshot rows the first
/// call persisted in between, and whatever the price store holds at
/// either call. Inputs are restricted to rule out two calendar corner
/// cases that genuinely break the property: an in-stream event sitting
/// after noon of a Friday (a snapshot row stamped that noon would replay
/// it twice), and a pre-existing checkpoint row sitting after noon of
/// its own day (a Friday row of the same day could not supersede it).
#[verifier::rlimit(100)]
pub proof fn lemma_calculate_idempotent(
    events: Seq<EventView>,
    positions: Seq<PositionView>,
    hist1: Seq<crate::historical::AssetDayView>,
    hist2: Seq<crate::historical::AssetDayView>,
    symbol: Seq<char>,
    scope: Option<Seq<char>>,
    now1: int,
    now2: int,
)
    requires
        crate::event::spec_events_sorted_for(events, symbol, scope),
        0 <= now1 <= now2,
        forall|k: int| 0 <= k < events.len()
            && crate::event::spec_matches_stream(#[trigger] events[k], symbol, scope)
            ==> events[k].time <= now1,
        forall|k: int| 0 <= k < events.len()
            && crate::event::spec_matches_stream(#[trigger] events[k], symbol, scope)
            && crate::dates::spec_is_friday(crate::dates::spec_day_of(events[k].time))
            ==> events[k].time <= spec_noon_of_day(events[k].time),
        match spec_last_position(positions, symbol, scope) {
            Some(c) => 0 <= c.time <= now1 && c.time <= spec_noon_of_day(c.time),
            None => true,
        },
    ensures
        spec_acc_fields(spec_calc_result(
            events,
            positions + spec_calc_appended(events, positions, hist1, symbol, scope, now1),
            hist2, symbol, scope, now2))
            == spec_acc_fields(spec_calc_result(
                events, positions, hist1, symbol, scope, now1)),
{
    let c1 = spec_last_position(positions, symbol, scope);
    let from1 = spec_resume_from(c1);
    let seed1 = spec_seed_of(c1, symbol, scope, now1);
    let evs1 = spec_calc_events(events, positions, symbol, scope, now1);
    let refs = spec_references(seed1, evs1, now1);
    let appended = spec_calc_appended(events, positions, hist1, symbol, scope, now1);
    let pos2 = positions + appended;
    lemma_idem_stream_facts(events, positions, symbol, scope, now1);
    assert(from1 <= now1) by {
        lemma_last_position_properties(positions, symbol, scope);
    }

    if appended.len() == 0 {
        assert(pos2 =~= positions);
        let seed2 = spec_calc_seed(pos2, symbol, scope, now2);
        assert(spec_acc_fields(seed2) == spec_acc_fields(seed1));
        let evs2 = spec_calc_events(events, pos2, symbol, scope, now2);
        crate::event::lemma_query_split(events, symbol, scope, from1, now1, now2);
        crate::event::lemma_query_after_is_empty(events, symbol, scope, now1, now2);
        assert(evs2 =~= evs1);
        lemma_replay_acc_congruence(seed2, seed1, evs1);
    } else {
        lemma_idem_second_checkpoint(events, positions, hist1, symbol, scope, now1);
        lemma_idem_last_row_admissible(events, positions, hist1, symbol, scope, now1);
        let x = appended.last();
        let seed2 = spec_calc_seed(pos2, symbol, scope, now2);
        assert(seed2 == x);
        let p = choose|p: int| 1 <= p <= evs1.len()
            && crate::snapshot::spec_same_checkpoint_state(x, #[trigger] refs[p - 1])
            && (forall|j: int| 0 <= j < p ==> (#[trigger] evs1[j]).time <= x.time)
            && (forall|j: int| p <= j < evs1.len() ==> (#[trigger] evs1[j]).time > x.time);
        assert(spec_acc_fields(x) == spec_acc_fields(refs[p - 1]));
        assert(spec_acc_fields(refs[p - 1])
            == spec_acc_fields(spec_replay(seed1, evs1.take(p))));

        let cut = x.time;
        crate::event::lemma_query_split(events, symbol, scope, from1, cut, now1);
        let q1 = crate::event::spec_query_events(events, symbol, scope, from1, cut);
        let qmid = crate::event::spec_query_events(events, symbol, scope, cut, now1);
        assert(evs1 == q1 + qmid);
        crate::event::lemma_query_events_order(events, symbol, scope, from1, cut);
        crate::event::lemma_query_events_order(events, symbol, scope, cut, now1);
        assert(q1.len() == p) by {
            assert(q1.len() + qmid.len() == evs1.len());
            if q1.len() < p {
                let j = q1.len() as int;
                assert(evs1[j] == qmid[0]);
                assert(crate::event::spec_matches_query(qmid[0], symbol, scope, cut, now1));
                assert(evs1[j].time <= x.time);
                assert(false);
            }
            if q1.len() > p {
                assert(evs1[p] == q1[p]);
                assert(crate::event::spec_matches_query(q1[p], symbol, scope, from1, cut));
                assert(evs1[p].time > x.time);
                assert(false);
            }
        }
        assert(evs1.take(p) =~= q1);
        assert(evs1.skip(p) =~= qmid);

        let evs2 = spec_calc_events(events, pos2, symbol, scope, now2);
        crate::event::lemma_query_split(events, symbol, scope, cut, now1, now2);
        crate::event::lemma_query_after_is_empty(events, symbol, scope, now1, now2);
        assert(evs2 =~= qmid);

        lemma_replay_acc_congruence(seed2, spec_replay(seed1, evs1.take(p)), qmid);
        lemma_replay_append(seed1, evs1.take(p), evs1.skip(p));
        assert(evs1.take(p) + evs1.skip(p) =~= evs1);
        assert(spec_acc_fields(spec_replay(seed2, evs2))
            == spec_acc_fields(spec_replay(seed1, evs1)));
    }
}

/// Noon of the day holding the given instant.
pub open spec fn spec_noon_of_day(ts: int) -> int {
    crate::dates::spec_noon_of(crate::dates::spec_day_of(ts))
}

} // verus!
