//! The bundle store: every known bundle, kept in order of `updated` with ids
//! unique, and the counter that hands out ids.
use vstd::prelude::*;
use crate::bundle::{Bundle, CollectionLink};
use crate::timestamp::{Timestamp, ts_le};

verus! {

/// Whether the bundles are in order of `updated`, earliest first.
pub open spec fn sorted_by_updated(s: Seq<Bundle>) -> bool {
    forall|i: int, j: int| 0 <= i < j < s.len() ==> ts_le(#[trigger] s[i].updated, #[trigger] s[j].updated)
}

/// Whether no two bundles share an id.
pub open spec fn ids_unique(s: Seq<Bundle>) -> bool {
    forall|i: int, j: int| 0 <= i < s.len() && 0 <= j < s.len() && i != j ==> #[trigger] s[i].id != #[trigger] s[j].id
}

/// Whether some bundle of `s` has id `id`.
pub open spec fn has_id(s: Seq<Bundle>, id: u32) -> bool {
    exists|i: int| 0 <= i < s.len() && #[trigger] s[i].id == id
}

/// Whether no bundle after the one at `j` has its id.
pub open spec fn last_of_id(s: Seq<Bundle>, j: int) -> bool {
    forall|k: int| j < k < s.len() ==> #[trigger] s[k].id != s[j].id
}

/// All known bundles and the id counter.
pub struct Bundles {
    saved: Vec<Bundle>,
    id: u32,
}

impl Bundles {
    pub closed spec fn saved_view(&self) -> Seq<Bundle> {
        self.saved@
    }

    /// The last id handed out (0 before any).
    pub closed spec fn last_id(&self) -> u32 {
        self.id
    }

    /// Sorted by `updated`, ids unique, and no stored id beyond the counter.
    pub open spec fn wf(&self) -> bool {
        &&& sorted_by_updated(self.saved_view())
        &&& ids_unique(self.saved_view())
        &&& forall|i: int| 0 <= i < self.saved_view().len() ==> #[trigger] self.saved_view()[i].id <= self.last_id()
    }

    /// An empty store whose counter has handed out nothing.
    pub fn empty() -> (r: Bundles)
        ensures
            r.wf(),
            r.saved_view().len() == 0,
            r.last_id() == 0,
    {
        Bundles { saved: Vec::new(), id: 0 }
    }

    /// The bundles, in order of `updated`.
    pub fn saved(&self) -> (r: &Vec<Bundle>)
        ensures
            r@ == self.saved_view(),
    {
        &self.saved
    }

    /// The last id handed out (0 before any).
    pub fn current_id(&self) -> (r: u32)
        ensures
            r == self.last_id(),
    {
        self.id
    }

    /// Hands out the next id: one more than the last, so never one handed out before.
    pub fn id(&mut self) -> (r: u32)
        requires
            old(self).last_id() < u32::MAX,
        ensures
            old(self).wf() ==> final(self).wf(),
            r == old(self).last_id() + 1,
            r > old(self).last_id(),
            final(self).last_id() == r,
            final(self).saved_view() == old(self).saved_view(),
    {
        self.id = self.id + 1;
        self.id
    }

    /// Stores `bundle`: a stored bundle with the same id is replaced, and the
    /// order by `updated` is kept. The counter moves up to the bundle's id
    /// where that is beyond it, so it never hands that id out again.
    pub fn upsert(&mut self, bundle: Bundle)
        requires
            old(self).wf(),
        ensures
            final(self).wf(),
            final(self).last_id() == if bundle.id > old(self).last_id() {
                bundle.id
            } else {
                old(self).last_id()
            },
            has_id(old(self).saved_view(), bundle.id) ==> final(self).saved_view().len()
                == old(self).saved_view().len(),
            !has_id(old(self).saved_view(), bundle.id) ==> final(self).saved_view().len()
                == old(self).saved_view().len() + 1,
            final(self).saved_view().contains(bundle),
            forall|x: Bundle|
                old(self).saved_view().contains(x) && x.id != bundle.id ==> final(self).saved_view().contains(x),
            forall|x: Bundle|
                final(self).saved_view().contains(x) ==> x == bundle || (old(self).saved_view().contains(x)
                    && x.id != bundle.id),
    {
        let ghost s0 = self.saved@;
        let bid = bundle.id;
        let mut k: usize = 0;
        while k < self.saved.len() && self.saved[k].id != bundle.id
            invariant
                k <= self.saved@.len(),
                self.saved@ == s0,
                forall|j: int| 0 <= j < k ==> self.saved@[j].id != bundle.id,
            decreases self.saved@.len() - k,
        {
            k = k + 1;
        }
        if k < self.saved.len() {
            assert(has_id(s0, bid));
            self.saved.remove(k);
            assert forall|x: Bundle| s0.contains(x) && x.id != bundle.id implies self.saved@.contains(x) by {
                let i = choose|i: int| 0 <= i < s0.len() && s0[i] == x;
                if i < k {
                    assert(self.saved@[i] == x);
                } else {
                    assert(i != k);
                    assert(self.saved@[i - 1] == x);
                }
            }
        } else {
            assert(!has_id(s0, bid));
            assert forall|x: Bundle| s0.contains(x) && x.id != bundle.id implies self.saved@.contains(x) by {}
        }
        let ghost s1 = self.saved@;
        assert(sorted_by_updated(s1));
        assert(ids_unique(s1));
        assert forall|i: int| 0 <= i < s1.len() implies #[trigger] s1[i].id != bundle.id by {
            if k < s0.len() {
                if i < k {
                    assert(s1[i] == s0[i]);
                } else {
                    assert(s1[i] == s0[i + 1]);
                    assert(s0[k as int].id == bundle.id);
                }
            } else {
                assert(s1[i] == s0[i]);
            }
        }
        assert forall|x: Bundle| s1.contains(x) implies s0.contains(x) && x.id != bundle.id by {
            let i = choose|i: int| 0 <= i < s1.len() && s1[i] == x;
            if k < s0.len() && i >= k {
                assert(s0[i + 1] == x);
            } else {
                assert(s0[i] == x);
            }
        }
        let mut pos: usize = 0;
        while pos < self.saved.len() && self.saved[pos].updated.le(&bundle.updated)
            invariant
                pos <= self.saved@.len(),
                self.saved@ == s1,
                forall|j: int| 0 <= j < pos ==> ts_le(#[trigger] s1[j].updated, bundle.updated),
            decreases self.saved@.len() - pos,
        {
            pos = pos + 1;
        }
        let ghost b = bundle;
        self.saved.insert(pos, bundle);
        if bid > self.id {
            self.id = bid;
        }
        let ghost s2 = self.saved@;
        assert forall|i: int| 0 <= i < s2.len() implies #[trigger] s2[i].id <= self.id by {
            if i < pos {
                assert(s2[i] == s1[i]);
                assert(s1[i] == s0[i] || (k < s0.len() && s1[i] == s0[i + 1]));
            } else if i > pos {
                assert(s2[i] == s1[i - 1]);
                assert(s1[i - 1] == s0[i - 1] || (k < s0.len() && s1[i - 1] == s0[i]));
            }
        }
        assert(s2[pos as int] == b);
        assert(sorted_by_updated(s2)) by {
            assert forall|i: int, j: int| 0 <= i < j < s2.len() implies ts_le(
                #[trigger] s2[i].updated,
                #[trigger] s2[j].updated,
            ) by {
                if j < pos {
                    assert(s2[i] == s1[i] && s2[j] == s1[j]);
                } else if j == pos {
                    assert(s2[i] == s1[i]);
                } else if i < pos {
                    assert(s2[i] == s1[i] && s2[j] == s1[j - 1]);
                } else if i == pos {
                    assert(s2[j] == s1[j - 1]);
                    assert(!ts_le(s1[pos as int].updated, b.updated));
                    assert(ts_le(s1[pos as int].updated, s1[j - 1].updated));
                } else {
                    assert(s2[i] == s1[i - 1] && s2[j] == s1[j - 1]);
                }
            }
        }
        assert(ids_unique(s2)) by {
            assert forall|i: int, j: int|
                0 <= i < s2.len() && 0 <= j < s2.len() && i != j implies #[trigger] s2[i].id
                != #[trigger] s2[j].id by {
                if i < pos {
                    assert(s2[i] == s1[i]);
                } else if i > pos {
                    assert(s2[i] == s1[i - 1]);
                }
                if j < pos {
                    assert(s2[j] == s1[j]);
                } else if j > pos {
                    assert(s2[j] == s1[j - 1]);
                }
            }
        }
        assert forall|x: Bundle| s1.contains(x) implies s2.contains(x) by {
            let i = choose|i: int| 0 <= i < s1.len() && s1[i] == x;
            if i < pos {
                assert(s2[i] == x);
            } else {
                assert(s2[i + 1] == x);
            }
        }
        assert forall|x: Bundle| s2.contains(x) implies x == b || s1.contains(x) by {
            let i = choose|i: int| 0 <= i < s2.len() && s2[i] == x;
            if i < pos {
                assert(s1[i] == x);
            } else if i > pos {
                assert(s1[i - 1] == x);
            }
        }
    }

    /// Whether some stored bundle has id `id`.
    pub fn has_bundle(&self, id: u32) -> (r: bool)
        ensures
            r == has_id(self.saved_view(), id),
    {
        let mut i: usize = 0;
        while i < self.saved.len()
            invariant
                i <= self.saved@.len(),
                forall|j: int| 0 <= j < i ==> self.saved@[j].id != id,
            decreases self.saved@.len() - i,
        {
            if self.saved[i].id == id {
                return true;
            }
            i = i + 1;
        }
        false
    }

    /// Builds the store from the bundles read back from storage. Of bundles
    /// that share an id the one loaded last is kept; every other loaded
    /// bundle is kept, once. The counter resumes at the largest id seen.
    pub fn init(loaded: Vec<Bundle>) -> (r: Bundles)
        ensures
            r.wf(),
            forall|j: int| 0 <= j < loaded@.len() ==> #[trigger] loaded@[j].id <= r.last_id(),
            loaded@.len() == 0 ==> r.last_id() == 0,
            loaded@.len() > 0 ==> has_id(loaded@, r.last_id()),
            forall|j: int| 0 <= j < loaded@.len() ==> has_id(r.saved_view(), #[trigger] loaded@[j].id),
            forall|j: int|
                0 <= j < loaded@.len() && last_of_id(loaded@, j) ==> r.saved_view().contains(
                    #[trigger] loaded@[j],
                ),
            forall|x: Bundle| #[trigger]
                r.saved_view().contains(x) ==> exists|j: int|
                    0 <= j < loaded@.len() && #[trigger] loaded@[j] == x && last_of_id(loaded@, j),
    {
        let ghost orig = loaded@;
        let ghost total = orig.len();
        let mut loaded = loaded;
        let mut store = Bundles::empty();
        while loaded.len() > 0
            invariant
                total == orig.len(),
                store.wf(),
                loaded@.len() <= total,
                loaded@ == orig.subrange(0, loaded@.len() as int),
                forall|j: int| loaded@.len() <= j < total ==> #[trigger] orig[j].id <= store.last_id(),
                loaded@.len() == total ==> store.last_id() == 0,
                loaded@.len() < total ==> exists|j: int|
                    loaded@.len() <= j < total && #[trigger] orig[j].id == store.last_id(),
                forall|j: int| loaded@.len() <= j < total ==> has_id(store.saved_view(), #[trigger] orig[j].id),
                forall|j: int|
                    loaded@.len() <= j < total && last_of_id(orig, j) ==> store.saved_view().contains(
                        #[trigger] orig[j],
                    ),
                forall|x: Bundle| #[trigger]
                    store.saved_view().contains(x) ==> exists|j: int|
                        loaded@.len() <= j < total && #[trigger] orig[j] == x && last_of_id(orig, j),
            decreases loaded@.len(),
        {
            let ghost n = loaded@.len() - 1;
            let b = loaded.pop().unwrap();
            assert(b == orig[n]);
            assert(loaded@ =~= orig.subrange(0, n));
            let ghost s_before = store.saved_view();
            let ghost last_before = store.last_id();
            let ghost bb = b;
            if store.has_bundle(b.id) {
                proof {
                let i0 = choose|i: int| 0 <= i < s_before.len() && #[trigger] s_before[i].id == bb.id;
                assert(s_before[i0].id <= last_before);
                assert(s_before.contains(s_before[i0]));
                if last_of_id(orig, n) {
                    let j = choose|j: int|
                        n < j < total && #[trigger] orig[j] == s_before[i0] && last_of_id(orig, j);
                    assert(orig[j].id != orig[n].id);
                }
                }
            } else {
                store.upsert(b);
                proof {
                let s_after = store.saved_view();
                assert forall|j: int| n <= j < total implies has_id(s_after, #[trigger] orig[j].id) by {
                    if j == n {
                        let i = choose|i: int| 0 <= i < s_after.len() && s_after[i] == bb;
                        assert(s_after[i].id == orig[j].id);
                    } else {
                        let i = choose|i: int| 0 <= i < s_before.len() && #[trigger] s_before[i].id == orig[j].id;
                        assert(s_before.contains(s_before[i]));
                        assert(s_after.contains(s_before[i]));
                        let i2 = choose|i2: int| 0 <= i2 < s_after.len() && s_after[i2] == s_before[i];
                        assert(s_after[i2].id == orig[j].id);
                    }
                }
                assert(last_of_id(orig, n)) by {
                    assert forall|k: int| n < k < total implies #[trigger] orig[k].id != orig[n].id by {
                        assert(has_id(s_before, orig[k].id));
                    }
                }
                assert forall|j: int| n <= j < total && last_of_id(orig, j) implies s_after.contains(
                    #[trigger] orig[j],
                ) by {
                    if j > n {
                        assert(s_before.contains(orig[j]));
                        let i = choose|i: int| 0 <= i < s_before.len() && s_before[i] == orig[j];
                        assert(has_id(s_before, s_before[i].id));
                    }
                }
                assert forall|x: Bundle| #[trigger] s_after.contains(x) implies exists|j: int|
                    n <= j < total && #[trigger] orig[j] == x && last_of_id(orig, j) by {
                    if x == bb {
                        assert(orig[n] == x);
                    } else {
                        assert(s_before.contains(x));
                    }
                }
                if n + 1 < total {
                    let w = choose|j: int| n < j < total && #[trigger] orig[j].id == last_before;
                    assert(orig[w].id == store.last_id() || orig[n].id == store.last_id());
                }
                }
            }
        }
        assert(orig.subrange(0, 0) =~= loaded@);
        store
    }

    /// Creates a bundle under the next id, stamped `now`, with no items. Where
    /// it is based on a remote collection (its id and members), it is linked
    /// to it and tracks all of its members. The bundle is not yet stored.
    pub fn new_bundle(&mut self, name: String, now: Timestamp, based_on: Option<(u64, Vec<u64>)>) -> (r: Bundle)
        requires
            old(self).wf(),
            old(self).last_id() < u32::MAX,
        ensures
            final(self).wf(),
            !has_id(final(self).saved_view(), r.id),
            r.id == old(self).last_id() + 1,
            final(self).last_id() == r.id,
            final(self).saved_view() == old(self).saved_view(),
            r.name == name,
            r.updated == now,
            r.items@.len() == 0,
            match based_on {
                Some((cid, members)) => r.collection matches Some(l) && l.id == cid && l.included@ == members@
                    && l.excluded@.len() == 0,
                None => r.collection is None,
            },
    {
        let id = self.id();
        assert(!has_id(self.saved_view(), id)) by {
            if has_id(self.saved_view(), id) {
                let i = choose|i: int| 0 <= i < self.saved_view().len() && #[trigger] self.saved_view()[i].id == id;
                assert(old(self).saved_view()[i].id <= old(self).last_id());
            }
        }
        let collection = match based_on {
            Some((cid, members)) => Some(CollectionLink { id: cid, included: members, excluded: Vec::new() }),
            None => None,
        };
        Bundle { id, name, updated: now, collection, items: Vec::new() }
    }
}

} // verus!
