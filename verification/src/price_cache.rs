//! Best-effort cache of the last streamed price per symbol.
//!
//! A single long-lived subscription feeds this mapping; lookups are
//! non-blocking and never reconciled with the on-demand price path —
//! an accepted staleness trade-off, not a bug.

use vstd::prelude::*;

verus! {

/// The in-memory mapping from symbol to last observed streamed price.
#[derive(Debug)]
pub struct PriceCache {
    entries: Vec<(String, i64)>,
}

impl View for PriceCache {
    type V = Map<Seq<char>, int>;

    closed spec fn view(&self) -> Map<Seq<char>, int> {
        Map::new(
            |k: Seq<char>| exists|i: int|
                0 <= i < self.entries@.len() && (#[trigger] self.entries@[i]).0@ == k,
            |k: Seq<char>| {
                let i = choose|i: int|
                    0 <= i < self.entries@.len() && (#[trigger] self.entries@[i]).0@ == k;
                self.entries@[i].1 as int
            })
    }
}

/// No symbol appears twice, so the cached price is unambiguous.
pub open spec fn spec_cache_wf(entries: Seq<(String, i64)>) -> bool {
    forall|i: int, j: int| 0 <= i < j < entries.len()
        ==> (#[trigger] entries[i]).0@ != (#[trigger] entries[j]).0@
}

impl PriceCache {
    /// Whether the cache's internal registry is unambiguous.
    pub closed spec fn wf(&self) -> bool {
        spec_cache_wf(self.entries@)
    }

    /// An empty cache.
    pub fn new() -> (c: PriceCache)
        ensures
            c.wf(),
            c@ == Map::<Seq<char>, int>::empty(),
    {
        let c = PriceCache { entries: Vec::new() };
        proof {
            assert(c@ =~= Map::<Seq<char>, int>::empty());
        }
        c
    }

    /// The registry slot for a symbol, if one exists.
    fn find_entry(&self, symbol: &String) -> (r: Option<usize>)
        ensures
            match r {
                Some(j) => j < self.entries@.len()
                    && (self.entries@[j as int]).0@ == symbol@,
                None => forall|k: int| 0 <= k < self.entries@.len()
                    ==> (#[trigger] self.entries@[k]).0@ != symbol@,
            },
    {
        let mut i: usize = 0;
        while i < self.entries.len()
            invariant
                0 <= i <= self.entries@.len(),
                forall|k: int| 0 <= k < i
                    ==> (#[trigger] self.entries@[k]).0@ != symbol@,
            decreases self.entries@.len() - i,
        {
            if self.entries[i].0.eq(symbol) {
                proof {
                    assert((self.entries@[i as int]).0@ == symbol@);
                }
                return Some(i);
            }
            i = i + 1;
        }
        None
    }

    /// Record the last observed price for a symbol, replacing any
    /// earlier observation.
    pub fn update_current_price(&mut self, symbol: String, price: i64)
        requires
            old(self).wf(),
        ensures
            final(self).wf(),
            final(self)@ == old(self)@.insert(symbol@, price as int),
    {
        let found = self.find_entry(&symbol);
        let ghost pre = self.entries@;
        match found {
            Some(j) => {
                self.entries.remove(j);
                let ghost mid = self.entries@;
                self.entries.push((symbol, price));
                proof {
                    assert(self.entries@.len() == mid.len() + 1);
                    assert((self.entries@[mid.len() as int]).0@ == symbol@);
                    assert(self.entries@[mid.len() as int].1 == price);
                    assert(forall|k: int| 0 <= k < mid.len()
                        ==> #[trigger] self.entries@[k] == mid[k]);
                    assert forall|a: int, b: int|
                        0 <= a < b < self.entries@.len()
                        implies (#[trigger] self.entries@[a]).0@
                            != (#[trigger] self.entries@[b]).0@ by {
                        let last = self.entries@.len() - 1;
                        if b < last {
                            let a0 = if a < j { a } else { a + 1 };
                            let b0 = if b < j { b } else { b + 1 };
                            assert(self.entries@[a] == pre[a0]
                                && self.entries@[b] == pre[b0]);
                        } else {
                            let a0 = if a < j { a } else { a + 1 };
                            assert(self.entries@[a] == pre[a0]);
                            assert(self.entries@[b].0@ == symbol@);
                        }
                    }
                    assert(self@ =~= old(self)@.insert(symbol@, price as int)) by {
                        assert forall|k: Seq<char>| self@.dom().contains(k)
                            implies old(self)@.insert(symbol@, price as int).dom()
                                .contains(k) && self@[k]
                                == old(self)@.insert(symbol@, price as int)[k] by {
                            let i0 = choose|i0: int| 0 <= i0 < self.entries@.len()
                                && (#[trigger] self.entries@[i0]).0@ == k;
                            if k == symbol@ {
                                let last = self.entries@.len() - 1;
                                assert(self.entries@[i0].0@ == self.entries@[last].0@);
                                assert(i0 == last);
                                assert(self@[k] == price as int);
                            } else {
                                let i1 = if i0 < j { i0 } else { i0 + 1 };
                                assert(pre[i1] == self.entries@[i0]);
                                assert((old(self).entries@[i1]).0@ == k);
                                let iw = choose|iw: int| 0 <= iw < pre.len()
                                    && (#[trigger] pre[iw]).0@ == k;
                                assert(old(self)@[k] == pre[iw].1 as int);
                                assert(iw == i1);
                                assert(self@[k] == self.entries@[i0].1 as int);
                            }
                        }
                        assert forall|k: Seq<char>|
                            old(self)@.insert(symbol@, price as int).dom().contains(k)
                            implies self@.dom().contains(k) by {
                            if k == symbol@ {
                                let last = self.entries@.len() - 1;
                                assert((self.entries@[last]).0@ == k);
                            } else {
                                let iw = choose|iw: int| 0 <= iw < pre.len()
                                    && (#[trigger] pre[iw]).0@ == k;
                                assert(iw != j);
                                let i0 = if iw < j { iw } else { iw - 1 };
                                assert(self.entries@[i0] == pre[iw]);
                            }
                        }
                    }
                }
            },
            None => {
                self.entries.push((symbol, price));
                proof {
                    assert(self.entries@.len() == pre.len() + 1);
                    assert((self.entries@[pre.len() as int]).0@ == symbol@);
                    assert(self.entries@[pre.len() as int].1 == price);
                    assert(forall|k: int| 0 <= k < pre.len()
                        ==> #[trigger] self.entries@[k] == pre[k]);
                    assert forall|a: int, b: int|
                        0 <= a < b < self.entries@.len()
                        implies (#[trigger] self.entries@[a]).0@
                            != (#[trigger] self.entries@[b]).0@ by {
                        if b < pre.len() {
                            assert(self.entries@[a] == pre[a]
                                && self.entries@[b] == pre[b]);
                        } else {
                            assert(self.entries@[a] == pre[a]);
                        }
                    }
                    assert(self@ =~= old(self)@.insert(symbol@, price as int)) by {
                        assert forall|k: Seq<char>| self@.dom().contains(k)
                            implies old(self)@.insert(symbol@, price as int).dom()
                                .contains(k) && self@[k]
                                == old(self)@.insert(symbol@, price as int)[k] by {
                            let i0 = choose|i0: int| 0 <= i0 < self.entries@.len()
                                && (#[trigger] self.entries@[i0]).0@ == k;
                            if k == symbol@ {
                                assert(self.entries@[i0].0@
                                    == self.entries@[pre.len() as int].0@);
                                assert(i0 == pre.len());
                                assert(self@[k] == price as int);
                            } else {
                                assert(i0 < pre.len());
                                assert(pre[i0] == self.entries@[i0]);
                                let iw = choose|iw: int| 0 <= iw < pre.len()
                                    && (#[trigger] pre[iw]).0@ == k;
                                assert(iw == i0);
                                assert(old(self)@[k] == pre[i0].1 as int);
                            }
                        }
                        assert forall|k: Seq<char>|
                            old(self)@.insert(symbol@, price as int).dom().contains(k)
                            implies self@.dom().contains(k) by {
                            if k == symbol@ {
                                assert((self.entries@[pre.len() as int]).0@ == k);
                            } else {
                                let iw = choose|iw: int| 0 <= iw < pre.len()
                                    && (#[trigger] pre[iw]).0@ == k;
                                assert(self.entries@[iw] == pre[iw]);
                            }
                        }
                    }
                }
            },
        }
    }

    /// The last observed streamed price for a symbol, if any: a
    /// non-blocking, best-effort lookup.
    pub fn get_current_price(&self, symbol: &String) -> (r: Option<i64>)
        requires
            self.wf(),
        ensures
            match r {
                Some(p) => self@.dom().contains(symbol@) && self@[symbol@] == p as int,
                None => !self@.dom().contains(symbol@),
            },
    {
        let mut i: usize = 0;
        while i < self.entries.len()
            invariant
                0 <= i <= self.entries@.len(),
                self.wf(),
                forall|k: int| 0 <= k < i
                    ==> (#[trigger] self.entries@[k]).0@ != symbol@,
            decreases self.entries@.len() - i,
        {
            if self.entries[i].0.eq(symbol) {
                let price = self.entries[i].1;
                proof {
                    assert((self.entries@[i as int]).0@ == symbol@);
                    assert(self@.dom().contains(symbol@));
                    let iw = choose|iw: int| 0 <= iw < self.entries@.len()
                        && (#[trigger] self.entries@[iw]).0@ == symbol@;
                    assert(iw == i);
                }
                return Some(price);
            }
            i = i + 1;
        }
        proof {
            assert(!self@.dom().contains(symbol@));
        }
        None
    }
}

} // verus!
