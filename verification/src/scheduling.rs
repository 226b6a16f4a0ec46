//! Per-(namespace, key) exclusion for the engine's critical sections.
//!
//! The registry is one shared mapping from (collection, symbol) to held
//! or free. Replay serializes on the event collection's name and
//! historical refresh on the price-bar collection's name, so the two
//! never block each other for the same symbol. Callers poll `try_lock`
//! until it succeeds and must release with `unlock` on every exit path;
//! the registry itself is fairness-unaware and detects no deadlocks.

use vstd::prelude::*;

verus! {

/// Proof of holding one (collection, symbol) entry; hand it back to
/// [`LockMap::unlock`] when the critical section ends.
#[derive(Debug)]
pub struct LockGuard {
    pub collection: String,
    pub symbol: String,
}

/// The exclusion registry: which (collection, symbol) pairs are held.
#[derive(Debug)]
pub struct LockMap {
    held: Vec<(String, String)>,
}

impl View for LockMap {
    type V = Set<(Seq<char>, Seq<char>)>;

    closed spec fn view(&self) -> Set<(Seq<char>, Seq<char>)> {
        Set::new(
            |k: (Seq<char>, Seq<char>)| exists|i: int|
                0 <= i < self.held@.len()
                && (#[trigger] self.held@[i]).0@ == k.0
                && self.held@[i].1@ == k.1)
    }
}

impl LockMap {
    /// An empty registry: nothing is held.
    pub fn new() -> (m: LockMap)
        ensures
            m@ == Set::<(Seq<char>, Seq<char>)>::empty(),
    {
        let m = LockMap { held: Vec::new() };
        proof {
            assert(m@ =~= Set::<(Seq<char>, Seq<char>)>::empty());
        }
        m
    }

    /// Whether a (collection, symbol) entry is currently held.
    pub fn contains(&self, collection: &String, symbol: &String) -> (r: bool)
        ensures
            r == self@.contains((collection@, symbol@)),
    {
        let mut i: usize = 0;
        while i < self.held.len()
            invariant
                0 <= i <= self.held@.len(),
                forall|k: int| 0 <= k < i
                    ==> !((#[trigger] self.held@[k]).0@ == collection@
                        && self.held@[k].1@ == symbol@),
            decreases self.held@.len() - i,
        {
            if self.held[i].0.eq(collection) && self.held[i].1.eq(symbol) {
                proof {
                    assert(self@.contains((collection@, symbol@)));
                }
                return true;
            }
            i = i + 1;
        }
        proof {
            assert(!self@.contains((collection@, symbol@)));
        }
        false
    }

    /// Try to take the (collection, symbol) entry: a guard when it was
    /// free, nothing when another holder is registered. The registry
    /// gains exactly the taken entry.
    pub fn try_lock(&mut self, collection: &String, symbol: &String) -> (r: Option<LockGuard>)
        ensures
            match r {
                Some(g) => !old(self)@.contains((collection@, symbol@))
                    && g.collection@ == collection@
                    && g.symbol@ == symbol@
                    && final(self)@ == old(self)@.insert((collection@, symbol@)),
                None => old(self)@.contains((collection@, symbol@))
                    && final(self)@ == old(self)@,
            },
    {
        if self.contains(collection, symbol) {
            None
        } else {
            let entry = (collection.clone(), symbol.clone());
            let ghost pre = self.held@;
            self.held.push(entry);
            proof {
                assert forall|k: (Seq<char>, Seq<char>)| self@.contains(k)
                    implies old(self)@.insert((collection@, symbol@)).contains(k) by {
                    let i = choose|i: int| 0 <= i < self.held@.len()
                        && (#[trigger] self.held@[i]).0@ == k.0
                        && self.held@[i].1@ == k.1;
                    if i < pre.len() {
                        assert(pre[i] == self.held@[i]);
                        assert(old(self)@.contains(k));
                    }
                };
                assert forall|k: (Seq<char>, Seq<char>)|
                    old(self)@.insert((collection@, symbol@)).contains(k)
                    implies self@.contains(k) by {
                    if k == ((collection@, symbol@)) {
                        assert((#[trigger] self.held@[pre.len() as int]).0@ == k.0
                            && self.held@[pre.len() as int].1@ == k.1);
                    } else {
                        let i = choose|i: int| 0 <= i < pre.len()
                            && (#[trigger] pre[i]).0@ == k.0 && pre[i].1@ == k.1;
                        assert((#[trigger] self.held@[i]).0@ == k.0
                            && self.held@[i].1@ == k.1);
                    }
                };
                assert(self@ =~= old(self)@.insert((collection@, symbol@)));
            }
            Some(LockGuard { collection: collection.clone(), symbol: symbol.clone() })
        }
    }

    /// Release a (collection, symbol) entry. The registry loses exactly
    /// that entry.
    pub fn unlock(&mut self, collection: &String, symbol: &String)
        ensures
            final(self)@ == old(self)@.remove((collection@, symbol@)),
    {
        let mut kept: Vec<(String, String)> = Vec::new();
        let mut i: usize = 0;
        while i < self.held.len()
            invariant
                0 <= i <= self.held@.len(),
                forall|k: int| 0 <= k < kept@.len()
                    ==> !((#[trigger] kept@[k]).0@ == collection@
                        && kept@[k].1@ == symbol@),
                forall|k: int| 0 <= k < kept@.len()
                    ==> exists|j: int| 0 <= j < i
                        && (#[trigger] kept@[k]).0@ == self.held@[j].0@
                        && kept@[k].1@ == (#[trigger] self.held@[j]).1@,
                forall|j: int| 0 <= j < i
                    && !((#[trigger] self.held@[j]).0@ == collection@
                        && self.held@[j].1@ == symbol@)
                    ==> exists|k: int| 0 <= k < kept@.len()
                        && (#[trigger] kept@[k]).0@ == self.held@[j].0@
                        && kept@[k].1@ == self.held@[j].1@,
            decreases self.held@.len() - i,
        {
            let keep = !(self.held[i].0.eq(collection) && self.held[i].1.eq(symbol));
            if keep {
                let entry = (self.held[i].0.clone(), self.held[i].1.clone());
                let ghost pre = kept@;
                kept.push(entry);
                proof {
                    assert((kept@[pre.len() as int]).0@ == self.held@[i as int].0@
                        && kept@[pre.len() as int].1@ == self.held@[i as int].1@);
                    assert forall|k: int| 0 <= k < pre.len()
                        implies kept@[k] == pre[k] by {}
                }
            }
            i = i + 1;
        }
        let ghost old_view = self@;
        let ghost held_old = self.held@;
        let ghost kept_view = kept@;
        self.held = kept;
        proof {
            assert(self.held@ == kept_view);
            assert forall|k: (Seq<char>, Seq<char>)| self@.contains(k)
                implies old_view.remove((collection@, symbol@)).contains(k) by {
                let j = choose|j: int| 0 <= j < self.held@.len()
                    && (#[trigger] self.held@[j]).0@ == k.0 && self.held@[j].1@ == k.1;
                let m = choose|m: int| 0 <= m < held_old.len()
                    && (#[trigger] kept_view[j]).0@ == held_old[m].0@
                    && kept_view[j].1@ == (#[trigger] held_old[m]).1@;
                assert(old_view.contains(k));
                assert(k != ((collection@, symbol@)));
            };
            assert forall|k: (Seq<char>, Seq<char>)|
                old_view.remove((collection@, symbol@)).contains(k)
                implies self@.contains(k) by {
                let j = choose|j: int| 0 <= j < held_old.len()
                    && (#[trigger] held_old[j]).0@ == k.0 && held_old[j].1@ == k.1;
                assert(exists|m: int| 0 <= m < kept_view.len()
                    && (#[trigger] kept_view[m]).0@ == held_old[j].0@
                    && kept_view[m].1@ == held_old[j].1@);
                let m = choose|m: int| 0 <= m < kept_view.len()
                    && (#[trigger] kept_view[m]).0@ == held_old[j].0@
                    && kept_view[m].1@ == held_old[j].1@;
                assert((#[trigger] self.held@[m]).0@ == k.0 && self.held@[m].1@ == k.1);
            };
            assert(self@ =~= old_view.remove((collection@, symbol@)));
        }
    }
}

/// Lock exclusivity: while one holder has taken a (collection, symbol)
/// entry and not released it, every further `try_lock` of the same entry
/// is refused, whatever other entries were taken or released in between;
/// releasing the entry frees it again.
pub proof fn lemma_lock_exclusive(
    before: Set<(Seq<char>, Seq<char>)>,
    collection: Seq<char>,
    symbol: Seq<char>,
    other: Set<(Seq<char>, Seq<char>)>,
)
    requires
        !other.contains((collection, symbol)),
    ensures
        // Taken once, the entry stays in the registry through unrelated
        // insertions and removals, so a second taker is refused.
        before.insert((collection, symbol)).union(other).contains((collection, symbol)),
        before.insert((collection, symbol)).difference(other).contains((collection, symbol)),
        // Releasing makes it available again.
        !before.insert((collection, symbol)).remove((collection, symbol)).union(other)
            .contains((collection, symbol)),
{
    assert(before.insert((collection, symbol)).difference(other).contains((collection, symbol)));
    assert(!before.insert((collection, symbol)).remove((collection, symbol))
        .contains((collection, symbol)));
}

} // verus!
