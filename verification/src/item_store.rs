use vstd::prelude::*;

verus! {

/// The vector items that the incremental pass has sent to the client,
/// found by fingerprint, each with the lifetime at which it was last used.
/// Every compilation advances the lifetime by two; items unused for long
/// are collected, and the items new since the last delta are remembered so
/// that the delta carries them.
#[derive(Debug)]
pub struct ItemStore {
    lifetime: u64,
    items: Vec<(u128, u64)>,
    new_items: Vec<u128>,
}

/// Whether a fingerprint occurs among the entries.
pub open spec fn has_fg(s: Seq<(u128, u64)>, fg: u128) -> bool {
    exists|i: int| 0 <= i < s.len() && #[trigger] s[i].0 == fg
}

/// Whether no fingerprint occurs twice.
pub open spec fn unique_fgs(s: Seq<(u128, u64)>) -> bool {
    forall|i: int, j: int| 0 <= i < j < s.len() ==> #[trigger] s[i].0 != #[trigger] s[j].0
}

/// The entries after `fg` is used again at `lifetime`: its last use
/// becomes at least `lifetime - 1`.
pub open spec fn touched(s: Seq<(u128, u64)>, fg: u128, lifetime: u64) -> Seq<(u128, u64)> {
    Seq::new(
        s.len(),
        |i: int|
            if s[i].0 == fg && s[i].1 < lifetime - 1 {
                (fg, (lifetime - 1) as u64)
            } else {
                s[i]
            },
    )
}

/// The entries last used at or after `limit`, in order.
pub open spec fn kept(s: Seq<(u128, u64)>, limit: u64) -> Seq<(u128, u64)>
    decreases s.len(),
{
    if s.len() == 0 {
        Seq::empty()
    } else {
        let init = kept(s.subrange(0, s.len() - 1), limit);
        if s[s.len() - 1].1 >= limit {
            init.push(s[s.len() - 1])
        } else {
            init
        }
    }
}

/// The fingerprints of the entries last used before `limit`, in order.
pub open spec fn collected(s: Seq<(u128, u64)>, limit: u64) -> Seq<u128>
    decreases s.len(),
{
    if s.len() == 0 {
        Seq::empty()
    } else {
        let init = collected(s.subrange(0, s.len() - 1), limit);
        if s[s.len() - 1].1 < limit {
            init.push(s[s.len() - 1].0)
        } else {
            init
        }
    }
}

/// The lifetime below which items are collected: `threshold` before the
/// current one, and never below zero.
pub open spec fn gc_limit(lifetime: u64, threshold: u64) -> u64 {
    if lifetime >= threshold {
        (lifetime - threshold) as u64
    } else {
        0
    }
}

impl ItemStore {
    /// The current lifetime.
    pub closed spec fn spec_lifetime(&self) -> u64 {
        self.lifetime
    }

    /// The items, as (fingerprint, last use), in the order they came.
    pub closed spec fn entries(&self) -> Seq<(u128, u64)> {
        self.items@
    }

    /// The fingerprints of the items new since the last delta.
    pub closed spec fn fresh(&self) -> Seq<u128> {
        self.new_items@
    }

    /// Whether each fingerprint is held once.
    pub closed spec fn wf(&self) -> bool {
        unique_fgs(self.items@)
    }

    /// An empty store at lifetime zero.
    pub fn new() -> (r: ItemStore)
        ensures
            r.wf(),
            r.spec_lifetime() == 0,
            r.entries() == Seq::<(u128, u64)>::empty(),
            r.fresh() == Seq::<u128>::empty(),
    {
        ItemStore { lifetime: 0, items: Vec::new(), new_items: Vec::new() }
    }

    /// The current lifetime.
    pub fn lifetime(&self) -> (r: u64)
        ensures
            r == self.spec_lifetime(),
    {
        self.lifetime
    }

    /// Starts a new compilation: the lifetime grows by two and no item is
    /// new yet.
    pub fn increment_lifetime(&mut self)
        requires
            old(self).spec_lifetime() <= u64::MAX - 2,
        ensures
            final(self).wf() == old(self).wf(),
            final(self).spec_lifetime() == old(self).spec_lifetime() + 2,
            final(self).entries() == old(self).entries(),
            final(self).fresh() == Seq::<u128>::empty(),
    {
        self.new_items.clear();
        self.lifetime = self.lifetime + 2;
    }

    /// Records that the item `fg` is used. An item already held is kept
    /// alive (its last use becomes at least the previous lifetime) and
    /// `true` is returned; a new one is held from now on, remembered as
    /// new, and `false` is returned.
    pub fn insert(&mut self, fg: u128) -> (r: bool)
        requires
            old(self).wf(),
            has_fg(old(self).entries(), fg) ==> old(self).spec_lifetime() >= 1,
        ensures
            final(self).wf(),
            r == has_fg(old(self).entries(), fg),
            final(self).spec_lifetime() == old(self).spec_lifetime(),
            r ==> final(self).entries() == touched(old(self).entries(), fg, old(self).spec_lifetime()),
            r ==> final(self).fresh() == old(self).fresh(),
            !r ==> final(self).entries() == old(self).entries().push((fg, old(self).spec_lifetime())),
            !r ==> final(self).fresh() == old(self).fresh().push(fg),
    {
        let mut i: usize = 0;
        while i < self.items.len()
            invariant
                self.items@ == old(self).items@,
                self.new_items@ == old(self).new_items@,
                self.lifetime == old(self).lifetime,
                unique_fgs(self.items@),
                has_fg(self.items@, fg) ==> self.lifetime >= 1,
                i <= self.items@.len(),
                forall|k: int| 0 <= k < i ==> #[trigger] self.items@[k].0 != fg,
            decreases self.items@.len() - i,
        {
            if self.items[i].0 == fg {
                let ghost s = self.items@;
                assert(has_fg(s, fg)) by {
                    assert(s[i as int].0 == fg);
                }
                let c = self.items[i].1;
                if c < self.lifetime - 1 {
                    self.items.set(i, (fg, self.lifetime - 1));
                }
                proof {
                    assert forall|k: int| 0 <= k < s.len() implies (#[trigger] s[k].0 == fg) == (k == i) by {
                        if k != i && s[k].0 == fg {
                            if k < i {
                                assert(s[k].0 != s[i as int].0);
                            } else {
                                assert(s[i as int].0 != s[k].0);
                            }
                        }
                    }
                    assert(self.items@ =~= touched(s, fg, self.lifetime));
                    assert(unique_fgs(self.items@)) by {
                        assert forall|a: int, b: int| 0 <= a < b < self.items@.len() implies #[trigger] self.items@[a].0
                            != #[trigger] self.items@[b].0 by {
                            assert(self.items@[a].0 == s[a].0);
                            assert(self.items@[b].0 == s[b].0);
                        }
                    }
                }
                return true;
            }
            i = i + 1;
        }
        let ghost s = self.items@;
        self.items.push((fg, self.lifetime));
        self.new_items.push(fg);
        proof {
            assert(unique_fgs(self.items@)) by {
                assert forall|a: int, b: int| 0 <= a < b < self.items@.len() implies #[trigger] self.items@[a].0
                    != #[trigger] self.items@[b].0 by {
                    if b == s.len() {
                        assert(self.items@[a] == s[a]);
                        assert(self.items@[b].0 == fg);
                        assert(s[a].0 != fg);
                    } else {
                        assert(self.items@[a] == s[a]);
                        assert(self.items@[b] == s[b]);
                    }
                }
            }
        }
        false
    }

    /// Collects the items last used more than `threshold` before the current
    /// lifetime: they are dropped, and their fingerprints returned in the
    /// order the items came.
    pub fn gc(&mut self, threshold: u64) -> (r: Vec<u128>)
        requires
            old(self).wf(),
        ensures
            final(self).wf(),
            r@ == collected(old(self).entries(), gc_limit(old(self).spec_lifetime(), threshold)),
            final(self).entries() == kept(old(self).entries(), gc_limit(old(self).spec_lifetime(), threshold)),
            final(self).spec_lifetime() == old(self).spec_lifetime(),
            final(self).fresh() == old(self).fresh(),
    {
        let limit = self.lifetime.saturating_sub(threshold);
        assert(limit == gc_limit(self.lifetime, threshold));
        let mut keep: Vec<(u128, u64)> = Vec::new();
        let mut gone: Vec<u128> = Vec::new();
        let ghost s = self.items@;
        let mut i: usize = 0;
        assert(s.subrange(0, 0) =~= Seq::<(u128, u64)>::empty());
        while i < self.items.len()
            invariant
                s == self.items@,
                unique_fgs(s),
                i <= s.len(),
                keep@ == kept(s.subrange(0, i as int), limit),
                gone@ == collected(s.subrange(0, i as int), limit),
                forall|a: int| 0 <= a < keep@.len() ==> exists|k: int| 0 <= k < i && #[trigger] keep@[a] == s[k],
                unique_fgs(keep@),
            decreases s.len() - i,
        {
            let e = self.items[i];
            proof {
                assert(s.subrange(0, i + 1).subrange(0, i as int) =~= s.subrange(0, i as int));
                assert(s.subrange(0, i + 1)[i as int] == e);
            }
            if e.1 >= limit {
                let ghost before = keep@;
                proof {
                    assert forall|a: int, b: int| 0 <= a < b < before.len() + 1 implies #[trigger] before.push(e)[a].0
                        != #[trigger] before.push(e)[b].0 by {
                        if b == before.len() {
                            let k = choose|k: int| 0 <= k < i && #[trigger] before[a] == s[k];
                            assert(before.push(e)[a] == s[k]);
                            assert(s[k].0 != s[i as int].0);
                        } else {
                            assert(before.push(e)[a] == before[a]);
                            assert(before.push(e)[b] == before[b]);
                        }
                    }
                }
                keep.push(e);
                proof {
                    assert forall|a: int| 0 <= a < keep@.len() implies exists|k: int| 0 <= k < i + 1 && #[trigger] keep@[a] == s[k] by {
                        if a < before.len() {
                            let k = choose|k: int| 0 <= k < i && #[trigger] before[a] == s[k];
                            assert(keep@[a] == s[k]);
                        } else {
                            assert(keep@[a] == s[i as int]);
                        }
                    }
                }
            } else {
                gone.push(e.0);
                assert forall|a: int| 0 <= a < keep@.len() implies exists|k: int| 0 <= k < i + 1 && #[trigger] keep@[a] == s[k] by {
                    let k = choose|k: int| 0 <= k < i && #[trigger] keep@[a] == s[k];
                }
            }
            i = i + 1;
        }
        assert(s.subrange(0, s.len() as int) =~= s);
        self.items = keep;
        gone
    }

    /// Finishes a delta: the fingerprints of the items new since the last
    /// one, in the order they came, which are then no longer new.
    pub fn finalize_delta(&mut self) -> (r: Vec<u128>)
        ensures
            r@ == old(self).fresh(),
            final(self).fresh() == Seq::<u128>::empty(),
            final(self).entries() == old(self).entries(),
            final(self).spec_lifetime() == old(self).spec_lifetime(),
            final(self).wf() == old(self).wf(),
    {
        let mut r: Vec<u128> = Vec::new();
        core::mem::swap(&mut r, &mut self.new_items);
        r
    }
}

} // verus!
