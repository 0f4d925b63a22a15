//! Association maps with deterministic iteration order.
//!
//! The scheduler must walk its collections in canonical key order so that
//! every shard reproduces the same result. Both maps here keep their entries
//! in a vector sorted strictly by key, which makes the iteration order part
//! of the data structure invariant.

use vstd::prelude::*;

use crate::chain::{link_less, link_lt, uid_less, uid_lt, ShardLink, ShardUId};

verus! {

/// Total-order facts for `uid_lt`.
pub proof fn lemma_uid_order(a: ShardUId, b: ShardUId)
    ensures
        uid_lt(a, b) ==> a != b,
        !uid_lt(a, b) && a != b ==> uid_lt(b, a),
        uid_lt(a, b) ==> !uid_lt(b, a),
{
}

/// Total-order facts for `link_lt`.
pub proof fn lemma_link_order(a: ShardLink, b: ShardLink)
    ensures
        link_lt(a, b) ==> a != b,
        !link_lt(a, b) && a != b ==> link_lt(b, a),
        link_lt(a, b) ==> !link_lt(b, a),
{
}

/// A map from `ShardUId` to `V`, kept sorted by key.
pub struct ShardMap<V> {
    entries: Vec<(ShardUId, V)>,
}

impl<V> View for ShardMap<V> {
    type V = Seq<(ShardUId, V)>;

    closed spec fn view(&self) -> Seq<(ShardUId, V)> {
        self.entries@
    }
}

impl<V> ShardMap<V> {
    /// Entries are sorted strictly by key, so keys are unique.
    pub open spec fn wf(&self) -> bool {
        forall|i: int, j: int|
            0 <= i < j < self@.len() ==> uid_lt(#[trigger] self@[i].0, #[trigger] self@[j].0)
    }

    pub open spec fn spec_contains(&self, k: ShardUId) -> bool {
        exists|i: int| 0 <= i < self@.len() && (#[trigger] self@[i]).0 == k
    }

    pub open spec fn spec_index_of(&self, k: ShardUId) -> int {
        choose|i: int| 0 <= i < self@.len() && (#[trigger] self@[i]).0 == k
    }

    pub open spec fn spec_value(&self, k: ShardUId) -> V {
        self@[self.spec_index_of(k)].1
    }

    /// In a well-formed map the position of a key is unique.
    pub proof fn lemma_key_at(&self, i: int)
        requires
            self.wf(),
            0 <= i < self@.len(),
        ensures
            self.spec_contains(self@[i].0),
            self.spec_index_of(self@[i].0) == i,
            self.spec_value(self@[i].0) == self@[i].1,
    {
        let k = self@[i].0;
        assert(0 <= i < self@.len() && self@[i].0 == k);
        let j = self.spec_index_of(k);
        if i < j {
            assert(uid_lt(self@[i].0, self@[j].0));
        } else if j < i {
            assert(uid_lt(self@[j].0, self@[i].0));
        }
    }

    pub fn new() -> (r: ShardMap<V>)
        ensures
            r@ == Seq::<(ShardUId, V)>::empty(),
            r.wf(),
    {
        ShardMap { entries: Vec::new() }
    }

    pub fn len(&self) -> (r: usize)
        ensures
            r == self@.len(),
    {
        self.entries.len()
    }

    pub fn is_empty(&self) -> (r: bool)
        ensures
            r == (self@.len() == 0),
    {
        self.entries.len() == 0
    }

    pub fn key_at(&self, i: usize) -> (r: ShardUId)
        requires
            i < self@.len(),
        ensures
            r == self@[i as int].0,
    {
        self.entries[i].0
    }

    pub fn val_at(&self, i: usize) -> (r: &V)
        requires
            i < self@.len(),
        ensures
            *r == self@[i as int].1,
    {
        &self.entries[i].1
    }

    pub fn val_at_mut(&mut self, i: usize) -> (r: &mut V)
        requires
            i < old(self)@.len(),
        ensures
            *r == old(self)@[i as int].1,
            final(self)@ == old(self)@.update(i as int, (old(self)@[i as int].0, *final(r))),
    {
        &mut self.entries[i].1
    }

    /// Position of a key, by linear search.
    pub fn find(&self, k: &ShardUId) -> (r: Option<usize>)
        ensures
            match r {
                Some(i) => i < self@.len() && self@[i as int].0 == *k,
                None => !self.spec_contains(*k),
            },
    {
        let n = self.entries.len();
        let mut i: usize = 0;
        while i < n
            invariant
                n == self@.len(),
                i <= n,
                forall|j: int| 0 <= j < i ==> (#[trigger] self@[j]).0 != *k,
            decreases n - i,
        {
            if self.entries[i].0 == *k {
                return Some(i);
            }
            i = i + 1;
        }
        None
    }

    pub fn contains_key(&self, k: &ShardUId) -> (r: bool)
        ensures
            r == self.spec_contains(*k),
    {
        self.find(k).is_some()
    }

    /// Position of a key that is known to be present.
    pub fn find_existing(&self, k: &ShardUId) -> (i: usize)
        requires
            self.wf(),
            self.spec_contains(*k),
        ensures
            i < self@.len(),
            self@[i as int].0 == *k,
            i as int == self.spec_index_of(*k),
    {
        match self.find(k) {
            Some(i) => {
                proof {
                    self.lemma_key_at(i as int);
                }
                i
            },
            None => {
                proof {
                    assert(false);
                }
                0
            },
        }
    }

    pub fn get(&self, k: &ShardUId) -> (r: Option<&V>)
        requires
            self.wf(),
        ensures
            match r {
                Some(v) => self.spec_contains(*k) && *v == self.spec_value(*k),
                None => !self.spec_contains(*k),
            },
    {
        match self.find(k) {
            Some(i) => {
                proof {
                    self.lemma_key_at(i as int);
                }
                Some(&self.entries[i].1)
            },
            None => None,
        }
    }

    /// Insert or replace the value under key `k`, keeping the entries sorted.
    pub fn set(&mut self, k: ShardUId, v: V)
        requires
            old(self).wf(),
        ensures
            final(self).wf(),
            final(self).spec_contains(k),
            final(self).spec_value(k) == v,
            old(self).spec_contains(k) ==> final(self)@ == old(self)@.update(
                old(self).spec_index_of(k),
                (k, v),
            ),
            !old(self).spec_contains(k) ==> exists|p: int|
                0 <= p <= old(self)@.len() && final(self)@ == #[trigger] old(self)@.insert(
                    p,
                    (k, v),
                ),
            forall|k2: ShardUId|
                k2 != k ==> #[trigger] final(self).spec_contains(k2) == old(self).spec_contains(
                    k2,
                ),
            forall|k2: ShardUId|
                k2 != k && old(self).spec_contains(k2) ==> #[trigger] final(self).spec_value(k2)
                    == old(self).spec_value(k2),
    {
        let ghost old_self = *self;
        let n = self.entries.len();
        let mut pos: usize = 0;
        while pos < n
            invariant
                n == self@.len(),
                pos <= n,
                forall|j: int| 0 <= j < pos ==> uid_lt((#[trigger] self@[j]).0, k),
            ensures
                pos <= n,
                forall|j: int| 0 <= j < pos ==> uid_lt((#[trigger] self@[j]).0, k),
                pos < n ==> !uid_lt(self@[pos as int].0, k),
            decreases n - pos,
        {
            if !uid_less(&self.entries[pos].0, &k) {
                break;
            }
            pos = pos + 1;
        }
        if pos < n && self.entries[pos].0 == k {
            let e = &mut self.entries[pos];
            *e = (k, v);
            proof {
                let sv = self@;
                assert(sv == old_self@.update(pos as int, (k, v)));
                old_self.lemma_key_at(pos as int);
                assert forall|i: int, j: int| 0 <= i < j < sv.len() implies uid_lt(
                    sv[i].0,
                    sv[j].0,
                ) by {
                    assert(sv[i].0 == old_self@[i].0);
                    assert(sv[j].0 == old_self@[j].0);
                }
                self.lemma_key_at(pos as int);
                assert forall|k2: ShardUId| k2 != k implies #[trigger] self.spec_contains(k2)
                    == old_self.spec_contains(k2) by {
                    if self.spec_contains(k2) {
                        let i = self.spec_index_of(k2);
                        assert(old_self@[i].0 == k2);
                    }
                    if old_self.spec_contains(k2) {
                        let i = old_self.spec_index_of(k2);
                        assert(self@[i].0 == k2);
                    }
                }
                assert forall|k2: ShardUId| k2 != k && old_self.spec_contains(k2) implies
                    #[trigger] self.spec_value(k2) == old_self.spec_value(k2) by {
                    let i = old_self.spec_index_of(k2);
                    assert(self@[i].0 == k2);
                    self.lemma_key_at(i);
                }
            }
        } else {
            proof {
                assert forall|j: int| pos <= j < old_self@.len() implies uid_lt(
                    k,
                    (#[trigger] old_self@[j]).0,
                ) by {
                    if j == pos {
                        lemma_uid_order(old_self@[j].0, k);
                    } else {
                        assert(uid_lt(old_self@[pos as int].0, old_self@[j].0));
                        lemma_uid_order(old_self@[pos as int].0, k);
                    }
                }
                if old_self.spec_contains(k) {
                    let i = old_self.spec_index_of(k);
                    if i < pos {
                        assert(uid_lt(old_self@[i].0, k));
                        lemma_uid_order(old_self@[i].0, k);
                    } else {
                        assert(uid_lt(k, old_self@[i].0));
                        lemma_uid_order(k, old_self@[i].0);
                    }
                    assert(false);
                }
            }
            self.entries.insert(pos, (k, v));
            proof {
                let sv = self@;
                old_self@.insert_ensures(pos as int, (k, v));
                assert(sv == old_self@.insert(pos as int, (k, v)));
                assert forall|i: int, j: int| 0 <= i < j < sv.len() implies uid_lt(
                    sv[i].0,
                    sv[j].0,
                ) by {
                    assert(forall|m: int| 0 <= m < pos ==> sv[m] == old_self@[m]);
                    assert(forall|m: int|
                        pos < m < sv.len() ==> sv[m] == old_self@[m - 1]);
                    assert(sv[pos as int] == (k, v));
                }
                assert(sv[pos as int].0 == k);
                self.lemma_key_at(pos as int);
                assert forall|k2: ShardUId| k2 != k implies #[trigger] self.spec_contains(k2)
                    == old_self.spec_contains(k2) by {
                    if self.spec_contains(k2) {
                        let i = self.spec_index_of(k2);
                        if i < pos {
                            assert(old_self@[i].0 == k2);
                        } else {
                            assert(old_self@[i - 1].0 == k2);
                        }
                    }
                    if old_self.spec_contains(k2) {
                        let i = old_self.spec_index_of(k2);
                        if i < pos {
                            assert(self@[i].0 == k2);
                        } else {
                            assert(self@[i + 1].0 == k2);
                        }
                    }
                }
                assert forall|k2: ShardUId| k2 != k && old_self.spec_contains(k2) implies
                    #[trigger] self.spec_value(k2) == old_self.spec_value(k2) by {
                    let i = old_self.spec_index_of(k2);
                    if i < pos {
                        assert(self@[i].0 == k2);
                        self.lemma_key_at(i);
                        old_self.lemma_key_at(i);
                    } else {
                        assert(self@[i + 1].0 == k2);
                        self.lemma_key_at(i + 1);
                        old_self.lemma_key_at(i);
                    }
                }
            }
        }
    }


    /// Append an entry whose key is above every present key.
    pub fn push_max(&mut self, k: ShardUId, v: V)
        requires
            old(self).wf(),
            forall|j: int| 0 <= j < old(self)@.len() ==> uid_lt((#[trigger] old(self)@[j]).0, k),
        ensures
            final(self)@ == old(self)@.push((k, v)),
            final(self).wf(),
    {
        self.entries.push((k, v));
        proof {
            let sv = self@;
            assert forall|a: int, b: int| 0 <= a < b < sv.len() implies uid_lt(
                sv[a].0,
                sv[b].0,
            ) by {
                if b == sv.len() - 1 {
                    assert(sv[a] == old(self)@[a]);
                } else {
                    assert(sv[a] == old(self)@[a] && sv[b] == old(self)@[b]);
                }
            }
        }
    }

    /// Remove and return the entry at position `i`.
    pub fn take_at(&mut self, i: usize) -> (r: (ShardUId, V))
        requires
            i < old(self)@.len(),
        ensures
            r == old(self)@[i as int],
            final(self)@ == old(self)@.remove(i as int),
    {
        self.entries.remove(i)
    }

    /// Put an entry back at position `i`; the key must fit the sort order.
    pub fn put_at(&mut self, i: usize, k: ShardUId, v: V)
        requires
            i <= old(self)@.len(),
            forall|j: int| 0 <= j < i ==> uid_lt((#[trigger] old(self)@[j]).0, k),
            forall|j: int| i <= j < old(self)@.len() ==> uid_lt(k, (#[trigger] old(self)@[j]).0),
            old(self).wf(),
        ensures
            final(self)@ == old(self)@.insert(i as int, (k, v)),
            final(self).wf(),
    {
        let ghost old_self = *self;
        self.entries.insert(i, (k, v));
        proof {
            let sv = self@;
            old_self@.insert_ensures(i as int, (k, v));
            assert forall|a: int, b: int| 0 <= a < b < sv.len() implies uid_lt(
                sv[a].0,
                sv[b].0,
            ) by {
                assert(forall|m: int| 0 <= m < i ==> sv[m] == old_self@[m]);
                assert(forall|m: int| i < m < sv.len() ==> sv[m] == old_self@[m - 1]);
                assert(sv[i as int] == (k, v));
            }
        }
    }
}

impl ShardMap<usize> {
    /// The value under `k`, or zero when the key is absent.
    pub fn get_or_zero(&self, k: &ShardUId) -> (r: usize)
        requires
            self.wf(),
        ensures
            self.spec_contains(*k) ==> r == self.spec_value(*k),
            !self.spec_contains(*k) ==> r == 0,
    {
        match self.get(k) {
            Some(v) => *v,
            None => 0,
        }
    }
}

/// The value a link-keyed entry sequence stores for `k`, zero when absent.
pub open spec fn value_or_zero(entries: Seq<(ShardLink, usize)>, k: ShardLink) -> int {
    if exists|i: int| 0 <= i < entries.len() && (#[trigger] entries[i]).0 == k {
        entries[choose|i: int| 0 <= i < entries.len() && (#[trigger] entries[i]).0 == k].1 as int
    } else {
        0
    }
}

/// A map from `ShardLink` to `V`, kept sorted by key.
pub struct LinkMap<V> {
    entries: Vec<(ShardLink, V)>,
}

impl<V> View for LinkMap<V> {
    type V = Seq<(ShardLink, V)>;

    closed spec fn view(&self) -> Seq<(ShardLink, V)> {
        self.entries@
    }
}

impl<V> LinkMap<V> {
    /// Entries are sorted strictly by key, so keys are unique.
    pub open spec fn wf(&self) -> bool {
        forall|i: int, j: int|
            0 <= i < j < self@.len() ==> link_lt(#[trigger] self@[i].0, #[trigger] self@[j].0)
    }

    pub open spec fn spec_contains(&self, k: ShardLink) -> bool {
        exists|i: int| 0 <= i < self@.len() && (#[trigger] self@[i]).0 == k
    }

    pub open spec fn spec_index_of(&self, k: ShardLink) -> int {
        choose|i: int| 0 <= i < self@.len() && (#[trigger] self@[i]).0 == k
    }

    pub open spec fn spec_value(&self, k: ShardLink) -> V {
        self@[self.spec_index_of(k)].1
    }

    /// In a well-formed map the position of a key is unique.
    pub proof fn lemma_key_at(&self, i: int)
        requires
            self.wf(),
            0 <= i < self@.len(),
        ensures
            self.spec_contains(self@[i].0),
            self.spec_index_of(self@[i].0) == i,
            self.spec_value(self@[i].0) == self@[i].1,
    {
        let k = self@[i].0;
        assert(0 <= i < self@.len() && self@[i].0 == k);
        let j = self.spec_index_of(k);
        if i < j {
            assert(link_lt(self@[i].0, self@[j].0));
        } else if j < i {
            assert(link_lt(self@[j].0, self@[i].0));
        }
    }

    pub fn new() -> (r: LinkMap<V>)
        ensures
            r@ == Seq::<(ShardLink, V)>::empty(),
            r.wf(),
    {
        LinkMap { entries: Vec::new() }
    }

    pub fn len(&self) -> (r: usize)
        ensures
            r == self@.len(),
    {
        self.entries.len()
    }

    pub fn is_empty(&self) -> (r: bool)
        ensures
            r == (self@.len() == 0),
    {
        self.entries.len() == 0
    }

    pub fn key_at(&self, i: usize) -> (r: ShardLink)
        requires
            i < self@.len(),
        ensures
            r == self@[i as int].0,
    {
        self.entries[i].0
    }

    pub fn val_at(&self, i: usize) -> (r: &V)
        requires
            i < self@.len(),
        ensures
            *r == self@[i as int].1,
    {
        &self.entries[i].1
    }

    pub fn val_at_mut(&mut self, i: usize) -> (r: &mut V)
        requires
            i < old(self)@.len(),
        ensures
            *r == old(self)@[i as int].1,
            final(self)@ == old(self)@.update(i as int, (old(self)@[i as int].0, *final(r))),
    {
        &mut self.entries[i].1
    }

    /// Position of a key, by linear search.
    pub fn find(&self, k: &ShardLink) -> (r: Option<usize>)
        ensures
            match r {
                Some(i) => i < self@.len() && self@[i as int].0 == *k,
                None => !self.spec_contains(*k),
            },
    {
        let n = self.entries.len();
        let mut i: usize = 0;
        while i < n
            invariant
                n == self@.len(),
                i <= n,
                forall|j: int| 0 <= j < i ==> (#[trigger] self@[j]).0 != *k,
            decreases n - i,
        {
            if self.entries[i].0 == *k {
                return Some(i);
            }
            i = i + 1;
        }
        None
    }

    pub fn contains_key(&self, k: &ShardLink) -> (r: bool)
        ensures
            r == self.spec_contains(*k),
    {
        self.find(k).is_some()
    }

    /// Position of a key that is known to be present.
    pub fn find_existing(&self, k: &ShardLink) -> (i: usize)
        requires
            self.wf(),
            self.spec_contains(*k),
        ensures
            i < self@.len(),
            self@[i as int].0 == *k,
            i as int == self.spec_index_of(*k),
    {
        match self.find(k) {
            Some(i) => {
                proof {
                    self.lemma_key_at(i as int);
                }
                i
            },
            None => {
                proof {
                    assert(false);
                }
                0
            },
        }
    }

    pub fn get(&self, k: &ShardLink) -> (r: Option<&V>)
        requires
            self.wf(),
        ensures
            match r {
                Some(v) => self.spec_contains(*k) && *v == self.spec_value(*k),
                None => !self.spec_contains(*k),
            },
    {
        match self.find(k) {
            Some(i) => {
                proof {
                    self.lemma_key_at(i as int);
                }
                Some(&self.entries[i].1)
            },
            None => None,
        }
    }

    /// Insert or replace the value under key `k`, keeping the entries sorted.
    pub fn set(&mut self, k: ShardLink, v: V)
        requires
            old(self).wf(),
        ensures
            final(self).wf(),
            final(self).spec_contains(k),
            final(self).spec_value(k) == v,
            old(self).spec_contains(k) ==> final(self)@ == old(self)@.update(
                old(self).spec_index_of(k),
                (k, v),
            ),
            !old(self).spec_contains(k) ==> exists|p: int|
                0 <= p <= old(self)@.len() && final(self)@ == #[trigger] old(self)@.insert(
                    p,
                    (k, v),
                ),
            forall|k2: ShardLink|
                k2 != k ==> #[trigger] final(self).spec_contains(k2) == old(self).spec_contains(
                    k2,
                ),
            forall|k2: ShardLink|
                k2 != k && old(self).spec_contains(k2) ==> #[trigger] final(self).spec_value(k2)
                    == old(self).spec_value(k2),
    {
        let ghost old_self = *self;
        let n = self.entries.len();
        let mut pos: usize = 0;
        while pos < n
            invariant
                n == self@.len(),
                pos <= n,
                forall|j: int| 0 <= j < pos ==> link_lt((#[trigger] self@[j]).0, k),
            ensures
                pos <= n,
                forall|j: int| 0 <= j < pos ==> link_lt((#[trigger] self@[j]).0, k),
                pos < n ==> !link_lt(self@[pos as int].0, k),
            decreases n - pos,
        {
            if !link_less(&self.entries[pos].0, &k) {
                break;
            }
            pos = pos + 1;
        }
        if pos < n && self.entries[pos].0 == k {
            let e = &mut self.entries[pos];
            *e = (k, v);
            proof {
                let sv = self@;
                assert(sv == old_self@.update(pos as int, (k, v)));
                old_self.lemma_key_at(pos as int);
                assert forall|i: int, j: int| 0 <= i < j < sv.len() implies link_lt(
                    sv[i].0,
                    sv[j].0,
                ) by {
                    assert(sv[i].0 == old_self@[i].0);
                    assert(sv[j].0 == old_self@[j].0);
                }
                self.lemma_key_at(pos as int);
                assert forall|k2: ShardLink| k2 != k implies #[trigger] self.spec_contains(k2)
                    == old_self.spec_contains(k2) by {
                    if self.spec_contains(k2) {
                        let i = self.spec_index_of(k2);
                        assert(old_self@[i].0 == k2);
                    }
                    if old_self.spec_contains(k2) {
                        let i = old_self.spec_index_of(k2);
                        assert(self@[i].0 == k2);
                    }
                }
                assert forall|k2: ShardLink| k2 != k && old_self.spec_contains(k2) implies
                    #[trigger] self.spec_value(k2) == old_self.spec_value(k2) by {
                    let i = old_self.spec_index_of(k2);
                    assert(self@[i].0 == k2);
                    self.lemma_key_at(i);
                }
            }
        } else {
            proof {
                assert forall|j: int| pos <= j < old_self@.len() implies link_lt(
                    k,
                    (#[trigger] old_self@[j]).0,
                ) by {
                    if j == pos {
                        lemma_link_order(old_self@[j].0, k);
                    } else {
                        assert(link_lt(old_self@[pos as int].0, old_self@[j].0));
                        lemma_link_order(old_self@[pos as int].0, k);
                    }
                }
                if old_self.spec_contains(k) {
                    let i = old_self.spec_index_of(k);
                    if i < pos {
                        assert(link_lt(old_self@[i].0, k));
                        lemma_link_order(old_self@[i].0, k);
                    } else {
                        assert(link_lt(k, old_self@[i].0));
                        lemma_link_order(k, old_self@[i].0);
                    }
                    assert(false);
                }
            }
            self.entries.insert(pos, (k, v));
            proof {
                let sv = self@;
                old_self@.insert_ensures(pos as int, (k, v));
                assert(sv == old_self@.insert(pos as int, (k, v)));
                assert forall|i: int, j: int| 0 <= i < j < sv.len() implies link_lt(
                    sv[i].0,
                    sv[j].0,
                ) by {
                    assert(forall|m: int| 0 <= m < pos ==> sv[m] == old_self@[m]);
                    assert(forall|m: int|
                        pos < m < sv.len() ==> sv[m] == old_self@[m - 1]);
                    assert(sv[pos as int] == (k, v));
                }
                assert(sv[pos as int].0 == k);
                self.lemma_key_at(pos as int);
                assert forall|k2: ShardLink| k2 != k implies #[trigger] self.spec_contains(k2)
                    == old_self.spec_contains(k2) by {
                    if self.spec_contains(k2) {
                        let i = self.spec_index_of(k2);
                        if i < pos {
                            assert(old_self@[i].0 == k2);
                        } else {
                            assert(old_self@[i - 1].0 == k2);
                        }
                    }
                    if old_self.spec_contains(k2) {
                        let i = old_self.spec_index_of(k2);
                        if i < pos {
                            assert(self@[i].0 == k2);
                        } else {
                            assert(self@[i + 1].0 == k2);
                        }
                    }
                }
                assert forall|k2: ShardLink| k2 != k && old_self.spec_contains(k2) implies
                    #[trigger] self.spec_value(k2) == old_self.spec_value(k2) by {
                    let i = old_self.spec_index_of(k2);
                    if i < pos {
                        assert(self@[i].0 == k2);
                        self.lemma_key_at(i);
                        old_self.lemma_key_at(i);
                    } else {
                        assert(self@[i + 1].0 == k2);
                        self.lemma_key_at(i + 1);
                        old_self.lemma_key_at(i);
                    }
                }
            }
        }
    }

    /// Remove and return the entry at position `i`.
    pub fn take_at(&mut self, i: usize) -> (r: (ShardLink, V))
        requires
            i < old(self)@.len(),
        ensures
            r == old(self)@[i as int],
            final(self)@ == old(self)@.remove(i as int),
    {
        self.entries.remove(i)
    }

    /// Put an entry back at position `i`; the key must fit the sort order.
    pub fn put_at(&mut self, i: usize, k: ShardLink, v: V)
        requires
            i <= old(self)@.len(),
            forall|j: int| 0 <= j < i ==> link_lt((#[trigger] old(self)@[j]).0, k),
            forall|j: int| i <= j < old(self)@.len() ==> link_lt(k, (#[trigger] old(self)@[j]).0),
            old(self).wf(),
        ensures
            final(self)@ == old(self)@.insert(i as int, (k, v)),
            final(self).wf(),
    {
        let ghost old_self = *self;
        self.entries.insert(i, (k, v));
        proof {
            let sv = self@;
            old_self@.insert_ensures(i as int, (k, v));
            assert forall|a: int, b: int| 0 <= a < b < sv.len() implies link_lt(
                sv[a].0,
                sv[b].0,
            ) by {
                assert(forall|m: int| 0 <= m < i ==> sv[m] == old_self@[m]);
                assert(forall|m: int| i < m < sv.len() ==> sv[m] == old_self@[m - 1]);
                assert(sv[i as int] == (k, v));
            }
        }
    }
}

/// `value_or_zero` agrees with a well-formed map's own lookup.
pub proof fn lemma_value_or_zero(m: &LinkMap<usize>, k: ShardLink)
    requires
        m.wf(),
    ensures
        m.spec_contains(k) ==> value_or_zero(m@, k) == m.spec_value(k),
        !m.spec_contains(k) ==> value_or_zero(m@, k) == 0,
{
    if m.spec_contains(k) {
        let i = m.spec_index_of(k);
        m.lemma_key_at(i);
        let j = choose|j: int| 0 <= j < m@.len() && (#[trigger] m@[j]).0 == k;
        m.lemma_key_at(j);
    }
}

impl LinkMap<usize> {
    /// The value under `k`, or zero when the key is absent.
    pub fn get_or_zero(&self, k: &ShardLink) -> (r: usize)
        requires
            self.wf(),
        ensures
            self.spec_contains(*k) ==> r == self.spec_value(*k),
            !self.spec_contains(*k) ==> r == 0,
    {
        match self.get(k) {
            Some(v) => *v,
            None => 0,
        }
    }
}

} // verus!
