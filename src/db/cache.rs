//! The cache: a sharded store with a capacity, an eviction threshold, and an
//! index of expiration times that the eviction sweep drains.
use crate::bytes::bytes_eq;
use crate::db::cmap::{key_set, lemma_delete, sum, CMap};
use crate::error::DatabaseError;
use vstd::prelude::*;

verus! {

broadcast use vstd::std_specs::vec::group_vec_axioms, vstd::seq::group_seq_axioms;

/// An expiration time with the key it applies to.
pub type Expiry = (u64, Vec<u8>);

pub open spec fn expiry_view(e: Expiry) -> (u64, Seq<u8>) {
    (e.0, e.1@)
}

/// Times never decrease along the index.
pub open spec fn is_sorted(s: Seq<(u64, Seq<u8>)>) -> bool {
    forall|i: int, j: int| 0 <= i < j < s.len() ==> s[i].0 <= s[j].0
}

/// Each key appears at most once in the index.
pub open spec fn keys_unique(s: Seq<(u64, Seq<u8>)>) -> bool {
    forall|i: int, j: int| 0 <= i < j < s.len() ==> s[i].1 != s[j].1
}

/// The index after `set(key, _, expires_at)`: any earlier time for `key` is
/// dropped, and the new one, if any, is added.
pub open spec fn expiries_after_set(
    before: Set<(u64, Seq<u8>)>,
    key: Seq<u8>,
    expires_at: Option<u64>,
) -> Set<(u64, Seq<u8>)> {
    let kept = before.filter(|e: (u64, Seq<u8>)| e.1 != key);
    match expires_at {
        Some(t) => kept.insert((t, key)),
        None => kept,
    }
}

/// The keys whose expiration time strictly precedes `now`.
pub open spec fn expired_keys(index: Set<(u64, Seq<u8>)>, now: u64) -> Set<Seq<u8>> {
    Set::new(|k: Seq<u8>| exists|t: u64| t < now && #[trigger] index.contains((t, k)))
}

/// The state of the cache, shared by every connection and the eviction worker.
pub struct State {
    data: CMap,
    capacity: usize,
    tracking: Vec<Expiry>,
    auto_eviction_threshold: u8,
    shard_count: usize,
}

impl View for State {
    type V = Map<Seq<u8>, Seq<u8>>;

    closed spec fn view(&self) -> Map<Seq<u8>, Seq<u8>> {
        self.data@
    }
}

impl State {
    /// The tracking index, in order.
    pub closed spec fn expiries(&self) -> Seq<(u64, Seq<u8>)> {
        self.tracking@.map_values(|e: Expiry| expiry_view(e))
    }

    pub open spec fn expiry_set(&self) -> Set<(u64, Seq<u8>)> {
        self.expiries().to_set()
    }

    pub closed spec fn spec_capacity(&self) -> usize {
        self.capacity
    }

    pub closed spec fn spec_threshold(&self) -> u8 {
        self.auto_eviction_threshold
    }

    pub closed spec fn spec_shard_count(&self) -> usize {
        self.shard_count
    }

    pub closed spec fn wf(&self) -> bool {
        &&& self.data.wf()
        &&& self.auto_eviction_threshold < 100
        &&& self.capacity > 0
        &&& self.shard_count == self.data.spec_shard_count()
        &&& is_sorted(self.expiries())
        &&& keys_unique(self.expiries())
    }

    /// The size at which a set wakes the eviction worker: the threshold's
    /// share of the capacity.
    pub open spec fn eviction_mark(&self) -> int {
        self.spec_capacity() * self.spec_threshold() / 100
    }

    /// An empty cache of `capacity` entries over `shard_count` shards, whose
    /// sets wake the eviction worker once the size reaches `threshold` percent
    /// of the capacity.
    pub fn new(capacity: usize, shard_count: usize, threshold: u8) -> (r: Result<State, DatabaseError>)
        ensures
            match r {
                Ok(s) => threshold < 100 && capacity > 0 && crate::db::cmap::is_power_of_two(
                    shard_count,
                ) && s.wf() && s@ == Map::<
                    Seq<u8>,
                    Seq<u8>,
                >::empty() && s.expiries().len() == 0 && s.spec_capacity() == capacity
                    && s.spec_threshold() == threshold && s.spec_shard_count() == shard_count,
                Err(e) => if threshold >= 100 {
                    e == DatabaseError::InvalidThreshold
                } else if capacity == 0 {
                    e == DatabaseError::NoAllocation
                } else {
                    e == DatabaseError::InvalidShardCount && !crate::db::cmap::is_power_of_two(
                        shard_count,
                    )
                },
            },
    {
        if threshold >= 100 {
            return Err(DatabaseError::InvalidThreshold);
        }
        if capacity == 0 {
            return Err(DatabaseError::NoAllocation);
        }
        let bucket_size = if shard_count == 0 {
            0
        } else {
            capacity / shard_count
        };
        let data = match CMap::new(shard_count, bucket_size) {
            Ok(d) => d,
            Err(e) => {
                return Err(e);
            },
        };
        let s = State {
            data,
            capacity,
            tracking: Vec::new(),
            auto_eviction_threshold: threshold,
            shard_count,
        };
        proof {
            assert(s.expiries() =~= Seq::<(u64, Seq<u8>)>::empty());
        }
        Ok(s)
    }

    pub fn capacity(&self) -> (r: usize)
        ensures
            r == self.spec_capacity(),
    {
        self.capacity
    }

    pub fn shard_count(&self) -> (r: usize)
        requires
            self.wf(),
        ensures
            r == self.spec_shard_count(),
    {
        self.shard_count
    }

    /// A well-formed cache holds finitely many keys, at most `usize::MAX`.
    pub proof fn lemma_len_bounded(&self)
        requires
            self.wf(),
        ensures
            self@.dom().finite(),
            self@.len() <= usize::MAX,
    {
        self.data.lemma_len_bounded();
    }

    /// The number of keys stored.
    pub fn size(&self) -> (r: usize)
        requires
            self.wf(),
        ensures
            r == self@.len(),
    {
        self.data.size()
    }

    /// A copy of the value stored under `key`, if any.
    pub fn get_value_by_key(&self, key: &[u8]) -> (r: Option<Vec<u8>>)
        requires
            self.wf(),
        ensures
            match r {
                Some(v) => self@.contains_key(key@) && v@ == self@[key@],
                None => !self@.contains_key(key@),
            },
    {
        self.data.get_value(key)
    }

    /// Removes every key of `keys`; returns how many of them were present.
    pub fn delete_entries(&mut self, keys: &Vec<Vec<u8>>) -> (r: usize)
        requires
            old(self).wf(),
        ensures
            final(self).wf(),
            final(self)@ == old(self)@.remove_keys(key_set(keys@)),
            r == old(self)@.dom().intersect(key_set(keys@)).len(),
            final(self).expiries() == old(self).expiries(),
            final(self).spec_capacity() == old(self).spec_capacity(),
            final(self).spec_threshold() == old(self).spec_threshold(),
    {
        proof {
            self.data.lemma_len_bounded();
        }
        let counts = self.data.del_entries(keys);
        sum_counts(&counts)
    }
}

impl State {
    /// Drops every index entry of `key`.
    fn untrack(&mut self, key: &[u8])
        requires
            old(self).wf(),
        ensures
            final(self).wf(),
            final(self).expiry_set() == old(self).expiry_set().filter(
                |e: (u64, Seq<u8>)| e.1 != key@,
            ),
            forall|i: int| 0 <= i < final(self).expiries().len() ==> (#[trigger] final(self).expiries()[i]).1 != key@,
            final(self)@ == old(self)@,
            final(self).spec_capacity() == old(self).spec_capacity(),
            final(self).spec_threshold() == old(self).spec_threshold(),
            final(self).spec_shard_count() == old(self).spec_shard_count(),
    {
        let ghost old_view = self.expiries();
        let mut kept: Vec<Expiry> = Vec::new();
        let mut i: usize = 0;
        while i < self.tracking.len()
            invariant
                old(self).wf(),
                self == old(self),
                old_view == self.expiries(),
                i <= self.tracking@.len(),
                is_sorted(kept@.map_values(|e: Expiry| expiry_view(e))),
                keys_unique(kept@.map_values(|e: Expiry| expiry_view(e))),
                forall|x: int|
                    0 <= x < kept@.len() ==> exists|j: int|
                        0 <= j < i && old_view[j] == #[trigger] expiry_view(kept@[x]),
                forall|x: int| 0 <= x < kept@.len() ==> (#[trigger] kept@[x]).1@ != key@,
                kept@.map_values(|e: Expiry| expiry_view(e)).to_set() == old_view.subrange(
                    0,
                    i as int,
                ).to_set().filter(|e: (u64, Seq<u8>)| e.1 != key@),
            decreases self.tracking@.len() - i,
        {
            let entry = &self.tracking[i];
            let ghost kv = kept@.map_values(|e: Expiry| expiry_view(e));
            let ghost cur = old_view[i as int];
            assert(cur == expiry_view(self.tracking@[i as int]));
            if !bytes_eq(entry.1.as_slice(), key) {
                let copy: Expiry = (entry.0, vstd::slice::slice_to_vec(entry.1.as_slice()));
                let ghost before = kept@;
                kept.push(copy);
                proof {
                    let nv = kept@.map_values(|e: Expiry| expiry_view(e));
                    assert(nv =~= kv.push(cur));
                    assert forall|a: int, b: int| 0 <= a < b < nv.len() implies nv[a].0 <= nv[b].0 by {
                        if b == nv.len() - 1 {
                            let j = choose|j: int|
                                0 <= j < i && #[trigger] old_view[j] == #[trigger] expiry_view(before[a]);
                            assert(nv[a] == expiry_view(before[a]));
                        }
                    }
                    assert forall|a: int, b: int| 0 <= a < b < nv.len() implies nv[a].1 != nv[b].1 by {
                        if b == nv.len() - 1 {
                            let j = choose|j: int|
                                0 <= j < i && #[trigger] old_view[j] == #[trigger] expiry_view(before[a]);
                            assert(nv[a] == expiry_view(before[a]));
                        }
                    }
                    assert forall|x: int| 0 <= x < kept@.len() implies exists|j: int|
                        0 <= j < i + 1 && old_view[j] == #[trigger] expiry_view(kept@[x]) by {
                        if x < before.len() {
                            assert(kept@[x] == before[x]);
                            let j = choose|j: int|
                                0 <= j < i && #[trigger] old_view[j] == #[trigger] expiry_view(before[x]);
                            assert(old_view[j] == expiry_view(kept@[x]));
                        } else {
                            assert(old_view[i as int] == expiry_view(kept@[x]));
                        }
                    }
                    assert(old_view.subrange(0, i + 1) =~= old_view.subrange(0, i as int).push(cur));
                    assert(nv.to_set() =~= old_view.subrange(0, i + 1).to_set().filter(
                        |e: (u64, Seq<u8>)| e.1 != key@,
                    )) by {
                        assert forall|e: (u64, Seq<u8>)| nv.to_set().contains(e) <==> old_view.subrange(
                            0,
                            i + 1,
                        ).to_set().filter(|e: (u64, Seq<u8>)| e.1 != key@).contains(e) by {
                            if nv.contains(e) {
                                let x = choose|x: int| 0 <= x < nv.len() && #[trigger] nv[x] == e;
                                if x < kv.len() {
                                    assert(kv.contains(e));
                                    assert(kv.to_set().contains(e));
                                    assert(old_view.subrange(0, i as int).contains(e));
                                    let y = choose|y: int|
                                        0 <= y < i && #[trigger] old_view.subrange(0, i as int)[y] == e;
                                    assert(old_view.subrange(0, i + 1)[y] == e);
                                } else {
                                    assert(old_view.subrange(0, i + 1)[i as int] == e);
                                }
                            }
                            if old_view.subrange(0, i + 1).contains(e) && e.1 != key@ {
                                let y = choose|y: int|
                                    0 <= y < i + 1 && #[trigger] old_view.subrange(0, i + 1)[y] == e;
                                if y < i {
                                    assert(old_view.subrange(0, i as int)[y] == e);
                                    assert(old_view.subrange(0, i as int).to_set().contains(e));
                                    assert(kv.to_set().contains(e));
                                    let x = choose|x: int| 0 <= x < kv.len() && #[trigger] kv[x] == e;
                                    assert(nv[x] == e);
                                } else {
                                    assert(nv[nv.len() - 1] == e);
                                }
                            }
                        }
                    }
                }
            } else {
                proof {
                    assert(old_view.subrange(0, i + 1) =~= old_view.subrange(0, i as int).push(cur));
                    assert(kv.to_set() =~= old_view.subrange(0, i + 1).to_set().filter(
                        |e: (u64, Seq<u8>)| e.1 != key@,
                    )) by {
                        assert forall|e: (u64, Seq<u8>)| kv.to_set().contains(e) <==> old_view.subrange(
                            0,
                            i + 1,
                        ).to_set().filter(|e: (u64, Seq<u8>)| e.1 != key@).contains(e) by {
                            if old_view.subrange(0, i + 1).contains(e) && e.1 != key@ {
                                let y = choose|y: int|
                                    0 <= y < i + 1 && #[trigger] old_view.subrange(0, i + 1)[y] == e;
                                assert(y != i);
                                assert(old_view.subrange(0, i as int)[y] == e);
                                assert(old_view.subrange(0, i as int).to_set().contains(e));
                            }
                            if kv.to_set().contains(e) {
                                assert(old_view.subrange(0, i as int).to_set().filter(
                                    |e: (u64, Seq<u8>)| e.1 != key@,
                                ).contains(e));
                                let y = choose|y: int|
                                    0 <= y < i && #[trigger] old_view.subrange(0, i as int)[y] == e;
                                assert(old_view.subrange(0, i + 1)[y] == e);
                            }
                        }
                    }
                }
            }
            i = i + 1;
        }
        proof {
            assert(old_view.subrange(0, i as int) =~= old_view);
        }
        self.tracking = kept;
    }

    /// Adds `(expires_at, key)` to the index at its place in time order.
    /// `key` must not be in the index.
    fn track(&mut self, key: &[u8], expires_at: u64)
        requires
            old(self).wf(),
            forall|i: int| 0 <= i < old(self).expiries().len() ==> (#[trigger] old(self).expiries()[i]).1 != key@,
        ensures
            final(self).wf(),
            final(self).expiry_set() == old(self).expiry_set().insert((expires_at, key@)),
            final(self)@ == old(self)@,
            final(self).spec_capacity() == old(self).spec_capacity(),
            final(self).spec_threshold() == old(self).spec_threshold(),
            final(self).spec_shard_count() == old(self).spec_shard_count(),
    {
        let ghost old_view = self.expiries();
        let mut pos: usize = 0;
        while pos < self.tracking.len() && self.tracking[pos].0 <= expires_at
            invariant
                self == old(self),
                old_view == self.expiries(),
                pos <= self.tracking@.len(),
                forall|x: int| 0 <= x < pos ==> (#[trigger] old_view[x]).0 <= expires_at,
            decreases self.tracking@.len() - pos,
        {
            pos = pos + 1;
        }
        let entry: Expiry = (expires_at, vstd::slice::slice_to_vec(key));
        self.tracking.insert(pos, entry);
        proof {
            let nv = self.expiries();
            assert(nv =~= old_view.insert(pos as int, (expires_at, key@)));
            if pos < old_view.len() {
                assert(old_view[pos as int].0 > expires_at);
            }
            assert forall|a: int, b: int| 0 <= a < b < nv.len() implies nv[a].0 <= nv[b].0 by {
                if a < pos && b > pos {
                    assert(nv[a] == old_view[a]);
                    assert(nv[b] == old_view[b - 1]);
                } else if a == pos && b > pos {
                    assert(nv[b] == old_view[b - 1]);
                    assert(old_view[pos as int].0 <= old_view[b - 1].0);
                } else if a < pos && b == pos {
                    assert(nv[a] == old_view[a]);
                } else if a > pos {
                    assert(nv[a] == old_view[a - 1]);
                    assert(nv[b] == old_view[b - 1]);
                } else {
                    assert(nv[a] == old_view[a]);
                    assert(nv[b] == old_view[b]);
                }
            }
            assert forall|a: int, b: int| 0 <= a < b < nv.len() implies nv[a].1 != nv[b].1 by {
                if a < pos && b > pos {
                    assert(nv[a] == old_view[a]);
                    assert(nv[b] == old_view[b - 1]);
                } else if a == pos && b > pos {
                    assert(nv[b] == old_view[b - 1]);
                } else if a < pos && b == pos {
                    assert(nv[a] == old_view[a]);
                } else if a > pos {
                    assert(nv[a] == old_view[a - 1]);
                    assert(nv[b] == old_view[b - 1]);
                } else {
                    assert(nv[a] == old_view[a]);
                    assert(nv[b] == old_view[b]);
                }
            }
            assert forall|e: (u64, Seq<u8>)| #[trigger] nv.to_set().contains(e) <==> old_view.to_set().insert(
                (expires_at, key@),
            ).contains(e) by {
                if nv.contains(e) {
                    let x = choose|x: int| 0 <= x < nv.len() && #[trigger] nv[x] == e;
                    if x < pos {
                        assert(old_view[x] == e);
                    } else if x > pos {
                        assert(old_view[x - 1] == e);
                    }
                }
                if old_view.contains(e) {
                    let x = choose|x: int| 0 <= x < old_view.len() && #[trigger] old_view[x] == e;
                    if x < pos {
                        assert(nv[x] == e);
                    } else {
                        assert(nv[x + 1] == e);
                    }
                }
                if e == (expires_at, key@) {
                    assert(nv[pos as int] == e);
                }
            }
            assert(nv.to_set() =~= old_view.to_set().insert((expires_at, key@)));
        }
    }

    /// Stores `value` under `key`, with an expiration time if one is given,
    /// and says whether the size has reached the eviction mark, in which case
    /// the caller wakes the eviction worker.
    pub fn set_kv(&mut self, key: &[u8], value: &[u8], expires_at: Option<u64>) -> (r: bool)
        requires
            old(self).wf(),
            old(self)@.len() < usize::MAX,
        ensures
            final(self).wf(),
            final(self)@ == old(self)@.insert(key@, value@),
            final(self).expiry_set() == expiries_after_set(old(self).expiry_set(), key@, expires_at),
            r == (final(self)@.len() >= final(self).eviction_mark()),
            final(self).spec_capacity() == old(self).spec_capacity(),
            final(self).spec_threshold() == old(self).spec_threshold(),
            final(self).spec_shard_count() == old(self).spec_shard_count(),
    {
        self.data.set_kv(key, value);
        self.untrack(key);
        match expires_at {
            Some(t) => self.track(key, t),
            None => {},
        }
        let current_size = self.data.size();
        let capacity = self.capacity as u128;
        let threshold = self.auto_eviction_threshold as u128;
        proof {
            assert(capacity * threshold <= 0xffff_ffff_ffff_ffffu128 * 100) by (nonlinear_arith)
                requires
                    capacity <= 0xffff_ffff_ffff_ffffu128,
                    threshold < 100,
            ;
        }
        current_size as u128 >= capacity * threshold / 100
    }

    /// Drains from the index every entry whose time strictly precedes `now`,
    /// deletes those keys from the store, and returns per shard how many of
    /// them were present.
    pub fn evict_expired_keys(&mut self, now: u64) -> (r: Vec<usize>)
        requires
            old(self).wf(),
        ensures
            final(self).wf(),
            final(self).expiry_set() == old(self).expiry_set().filter(|e: (u64, Seq<u8>)| e.0 >= now),
            final(self)@ == old(self)@.remove_keys(expired_keys(old(self).expiry_set(), now)),
            r@.len() == old(self).spec_shard_count(),
            sum(r@) == old(self)@.dom().intersect(expired_keys(old(self).expiry_set(), now)).len(),
            final(self).spec_capacity() == old(self).spec_capacity(),
            final(self).spec_threshold() == old(self).spec_threshold(),
            final(self).spec_shard_count() == old(self).spec_shard_count(),
    {
        let ghost old_view = self.expiries();
        let mut cut: usize = 0;
        while cut < self.tracking.len() && self.tracking[cut].0 < now
            invariant
                self == old(self),
                old_view == self.expiries(),
                cut <= self.tracking@.len(),
                forall|x: int| 0 <= x < cut ==> (#[trigger] old_view[x]).0 < now,
            decreases self.tracking@.len() - cut,
        {
            cut = cut + 1;
        }
        proof {
            assert forall|x: int| cut <= x < old_view.len() implies (#[trigger] old_view[x]).0 >= now by {
                assert(old_view[cut as int].0 >= now);
            }
        }
        let mut expired = self.tracking.split_off(cut);
        std::mem::swap(&mut self.tracking, &mut expired);
        let mut keys: Vec<Vec<u8>> = Vec::new();
        let mut i: usize = 0;
        while i < expired.len()
            invariant
                i <= expired@.len(),
                expired@.len() == cut,
                keys@.len() == i,
                forall|x: int| 0 <= x < i ==> (#[trigger] keys@[x])@ == old_view[x].1,
                forall|x: int| 0 <= x < cut ==> expiry_view(#[trigger] expired@[x]) == old_view[x],
            decreases expired@.len() - i,
        {
            keys.push(vstd::slice::slice_to_vec(expired[i].1.as_slice()));
            i = i + 1;
        }
        let ghost ex = expired_keys(old_view.to_set(), now);
        proof {
            let nv = self.expiries();
            assert(nv =~= old_view.subrange(cut as int, old_view.len() as int));
            assert forall|a: int, b: int| 0 <= a < b < nv.len() implies nv[a].0 <= nv[b].0 && nv[a].1
                != nv[b].1 by {
                assert(nv[a] == old_view[a + cut]);
                assert(nv[b] == old_view[b + cut]);
            }
            assert forall|e: (u64, Seq<u8>)| #[trigger] nv.to_set().contains(e) <==> old_view.to_set().filter(
                |e: (u64, Seq<u8>)| e.0 >= now,
            ).contains(e) by {
                if nv.contains(e) {
                    let x = choose|x: int| 0 <= x < nv.len() && #[trigger] nv[x] == e;
                    assert(old_view[x + cut] == e);
                }
                if old_view.contains(e) && e.0 >= now {
                    let x = choose|x: int| 0 <= x < old_view.len() && #[trigger] old_view[x] == e;
                    assert(x >= cut);
                    assert(nv[x - cut] == e);
                }
            }
            assert(nv.to_set() =~= old_view.to_set().filter(|e: (u64, Seq<u8>)| e.0 >= now));
            assert forall|k: Seq<u8>| #[trigger] key_set(keys@).contains(k) <==> ex.contains(k) by {
                if key_set(keys@).contains(k) {
                    let x = choose|x: int| 0 <= x < keys@.len() && keys@[x]@ == k;
                    assert(old_view.contains(old_view[x]));
                    assert(old_view.to_set().contains((old_view[x].0, k)));
                }
                if ex.contains(k) {
                    let t = choose|t: u64| t < now && #[trigger] old_view.to_set().contains((t, k));
                    let x = choose|x: int| 0 <= x < old_view.len() && #[trigger] old_view[x] == (t, k);
                    assert(x < cut);
                    assert(keys@[x]@ == k);
                }
            }
            assert(key_set(keys@) =~= ex);
        }
        self.data.del_entries(&keys)
    }
}

/// After a sweep at `now`, no key whose expiration time preceded `now` is
/// still stored, and the size has dropped by the number of those keys that
/// were stored, which is what the sweep reports.
pub proof fn lemma_sweep(m: Map<Seq<u8>, Seq<u8>>, index: Set<(u64, Seq<u8>)>, now: u64)
    requires
        m.dom().finite(),
    ensures
        forall|k: Seq<u8>|
            expired_keys(index, now).contains(k) ==> !(#[trigger] m.remove_keys(
                expired_keys(index, now),
            ).contains_key(k)),
        m.remove_keys(expired_keys(index, now)).len() + m.dom().intersect(
            expired_keys(index, now),
        ).len() == m.len(),
{
    lemma_delete(m, expired_keys(index, now));
}

/// The total of per-shard counts.
fn sum_counts(counts: &Vec<usize>) -> (r: usize)
    requires
        sum(counts@) <= usize::MAX,
    ensures
        r == sum(counts@),
{
    let mut total: usize = 0;
    let mut i: usize = 0;
    while i < counts.len()
        invariant
            i <= counts@.len(),
            total == sum(counts@.subrange(0, i as int)),
            sum(counts@) <= usize::MAX,
        decreases counts@.len() - i,
    {
        proof {
            assert(counts@.subrange(0, i + 1).drop_last() =~= counts@.subrange(0, i as int));
            lemma_sum_prefix(counts@, i + 1);
        }
        total = total + counts[i];
        i = i + 1;
    }
    proof {
        assert(counts@.subrange(0, i as int) =~= counts@);
    }
    total
}

/// A prefix of a list of counts sums to no more than the whole list.
proof fn lemma_sum_prefix(s: Seq<usize>, k: int)
    requires
        0 <= k <= s.len(),
    ensures
        sum(s.subrange(0, k)) <= sum(s),
        sum(s.subrange(0, k)) >= 0,
    decreases s.len(),
{
    if k < s.len() {
        lemma_sum_prefix(s.drop_last(), k);
        assert(s.drop_last().subrange(0, k) =~= s.subrange(0, k));
    } else {
        assert(s.subrange(0, k) =~= s);
        lemma_sum_nonneg(s);
    }
}

proof fn lemma_sum_nonneg(s: Seq<usize>)
    ensures
        sum(s) >= 0,
    decreases s.len(),
{
    if s.len() > 0 {
        lemma_sum_nonneg(s.drop_last());
    }
}

} // verus!
