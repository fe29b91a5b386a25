//! A map from keys to values split over a power-of-two number of shards. A
//! key lives in the shard that the low bits of its hash select.
use crate::db::{calculate_hash, fx_hash};
use crate::error::DatabaseError;
use rustc_hash::{FxBuildHasher, FxHashMap};
use vstd::prelude::*;

verus! {

/// `rustc_hash::FxBuildHasher`, the hasher builder of each shard's map,
/// carried as an opaque value.
#[verifier::external_type_specification]
#[verifier::external_body]
pub struct ExFxBuildHasher(FxBuildHasher);

/// What a hash map with the Fx hasher holds: each key with its value.
pub uninterp spec fn fx_map_entries(m: FxHashMap<Vec<u8>, Vec<u8>>) -> Map<Seq<u8>, Seq<u8>>;

/// One shard: a hash map from key to value.
pub struct Bucket {
    storage: FxHashMap<Vec<u8>, Vec<u8>>,
}

/// What a shard holds.
pub closed spec fn bucket_entries(b: Bucket) -> Map<Seq<u8>, Seq<u8>> {
    fx_map_entries(b.storage)
}

impl Bucket {
    /// Relies on `HashMap::with_capacity_and_hasher`: a new map is empty.
    #[verifier::external_body]
    fn new(capacity: usize) -> (r: Bucket)
        ensures
            fx_map_entries(r.storage).dom() == Set::<Seq<u8>>::empty(),
    {
        Bucket { storage: FxHashMap::with_capacity_and_hasher(capacity, Default::default()) }
    }

    /// Relies on `HashMap::get`: a copy of the value stored under `key`, if
    /// any.
    #[verifier::external_body]
    fn get_value_by_key(&self, key: &[u8]) -> (r: Option<Vec<u8>>)
        ensures
            match r {
                Some(v) => fx_map_entries(self.storage).contains_key(key@) && v@ == fx_map_entries(
                    self.storage,
                )[key@],
                None => !fx_map_entries(self.storage).contains_key(key@),
            },
    {
        self.storage.get(key).cloned()
    }

    /// Relies on `HashMap::insert`: stores the pair and returns the value it
    /// replaces, if any.
    #[verifier::external_body]
    fn add_entry_or_update(&mut self, key: Vec<u8>, value: Vec<u8>) -> (r: Option<Vec<u8>>)
        ensures
            fx_map_entries(final(self).storage) == fx_map_entries(old(self).storage).insert(key@, value@),
            match r {
                Some(v) => fx_map_entries(old(self).storage).contains_key(key@) && v@ == fx_map_entries(
                    old(self).storage,
                )[key@],
                None => !fx_map_entries(old(self).storage).contains_key(key@),
            },
    {
        self.storage.insert(key, value)
    }

    /// Relies on `HashMap::remove`: drops the pair of `key` and returns its
    /// value, if there was one.
    #[verifier::external_body]
    fn take_entry(&mut self, key: &[u8]) -> (r: Option<Vec<u8>>)
        ensures
            fx_map_entries(final(self).storage) == fx_map_entries(old(self).storage).remove(key@),
            r is Some <==> fx_map_entries(old(self).storage).contains_key(key@),
    {
        self.storage.remove(key)
    }

    /// Removes `key`; returns 1 if it was there, 0 otherwise.
    pub fn remove_entry(&mut self, key: &[u8]) -> (r: usize)
        ensures
            bucket_entries(*final(self)) == bucket_entries(*old(self)).remove(key@),
            r == if bucket_entries(*old(self)).contains_key(key@) {
                1usize
            } else {
                0usize
            },
    {
        if self.take_entry(key).is_some() {
            1
        } else {
            0
        }
    }

    pub fn contains_key(&self, key: &[u8]) -> (r: bool)
        ensures
            r == bucket_entries(*self).contains_key(key@),
    {
        self.get_value_by_key(key).is_some()
    }
}

pub open spec fn is_power_of_two(n: usize) -> bool {
    n > 0 && n & (n - 1) as usize == 0
}

/// The shard of `key` among `shard_count`: the hash's bits under the mask
/// `shard_count - 1`.
pub open spec fn shard_of(key: Seq<u8>, shard_count: usize) -> int {
    (fx_hash(key) & (shard_count - 1) as u64) as int
}

proof fn lemma_shard_in_range(key: Seq<u8>, shard_count: usize)
    requires
        shard_count > 0,
    ensures
        0 <= shard_of(key, shard_count) < shard_count,
{
    let h = fx_hash(key);
    let m = (shard_count - 1) as u64;
    assert(h & m <= m) by (bit_vector);
}

/// The keys that a list holds, as a set.
pub open spec fn key_set(keys: Seq<Vec<u8>>) -> Set<Seq<u8>> {
    Set::new(|k: Seq<u8>| exists|i: int| 0 <= i < keys.len() && keys[i]@ == k)
}

/// The keys that a group of positions into `keys` designates.
pub open spec fn group_set(keys: Seq<Vec<u8>>, group: Seq<usize>) -> Set<Seq<u8>> {
    Set::new(|k: Seq<u8>| exists|t: int| 0 <= t < group.len() && keys[group[t] as int]@ == k)
}

/// The keys of `keys` that belong to shard `j`.
pub open spec fn shard_keys(keys: Seq<Vec<u8>>, shard_count: usize, j: int) -> Set<Seq<u8>> {
    Set::new(|k: Seq<u8>| key_set(keys).contains(k) && shard_of(k, shard_count) == j)
}

pub open spec fn sum(s: Seq<usize>) -> int
    decreases s.len(),
{
    if s.len() == 0 {
        0
    } else {
        sum(s.drop_last()) + s.last()
    }
}

/// Removing the keys of `p` and then those of `g` removes, from a finite
/// domain `a`, as many keys as removing `p + g` at once.
proof fn lemma_count_union(a: Set<Seq<u8>>, p: Set<Seq<u8>>, g: Set<Seq<u8>>)
    requires
        a.finite(),
    ensures
        a.intersect(p).len() + a.difference(p).intersect(g).len() == a.intersect(p + g).len(),
{
    let x = a.intersect(p);
    let y = a.difference(p).intersect(g);
    assert(x.disjoint(y));
    assert(x + y =~= a.intersect(p + g));
    vstd::set_lib::lemma_set_disjoint_lens(x, y);
}

/// Adding one key to the removed set adds one to the count exactly when the
/// key was present and not yet removed.
proof fn lemma_count_insert(a: Set<Seq<u8>>, p: Set<Seq<u8>>, k: Seq<u8>)
    requires
        a.finite(),
    ensures
        a.intersect(p.insert(k)).len() == a.intersect(p).len() + if a.contains(k) && !p.contains(
            k,
        ) {
            1int
        } else {
            0int
        },
{
    if a.contains(k) && !p.contains(k) {
        assert(a.intersect(p.insert(k)) =~= a.intersect(p).insert(k));
    } else {
        assert(a.intersect(p.insert(k)) =~= a.intersect(p));
    }
}

/// The store after a series of sets, applied in order to `m`.
pub open spec fn apply_sets(m: Map<Seq<u8>, Seq<u8>>, sets: Seq<(Seq<u8>, Seq<u8>)>) -> Map<
    Seq<u8>,
    Seq<u8>,
>
    decreases sets.len(),
{
    if sets.len() == 0 {
        m
    } else {
        apply_sets(m, sets.drop_last()).insert(sets.last().0, sets.last().1)
    }
}

/// After `set(key, value)`, a `get(key)` returns `value`, whatever sets of
/// other keys come in between.
pub proof fn lemma_get_after_set(
    m: Map<Seq<u8>, Seq<u8>>,
    key: Seq<u8>,
    value: Seq<u8>,
    others: Seq<(Seq<u8>, Seq<u8>)>,
)
    requires
        forall|i: int| 0 <= i < others.len() ==> (#[trigger] others[i]).0 != key,
    ensures
        apply_sets(m.insert(key, value), others).contains_key(key),
        apply_sets(m.insert(key, value), others)[key] == value,
    decreases others.len(),
{
    if others.len() > 0 {
        let front = others.drop_last();
        assert forall|i: int| 0 <= i < front.len() implies (#[trigger] front[i]).0 != key by {
            assert(front[i] == others[i]);
        }
        lemma_get_after_set(m, key, value, front);
        assert(others[others.len() - 1].0 != key);
    }
}

/// Starting from an empty store, sets of `n` distinct keys leave `n` keys.
pub proof fn lemma_size_after_distinct_sets(sets: Seq<(Seq<u8>, Seq<u8>)>)
    requires
        forall|i: int, j: int| 0 <= i < j < sets.len() ==> sets[i].0 != sets[j].0,
    ensures
        apply_sets(Map::empty(), sets).dom().finite(),
        apply_sets(Map::empty(), sets).len() == sets.len(),
        forall|i: int|
            0 <= i < sets.len() ==> apply_sets(Map::empty(), sets).contains_key(
                (#[trigger] sets[i]).0,
            ),
    decreases sets.len(),
{
    if sets.len() > 0 {
        let front = sets.drop_last();
        lemma_size_after_distinct_sets(front);
        let before = apply_sets(Map::empty(), front);
        let k = sets.last().0;
        assert(!before.contains_key(k)) by {
            if before.contains_key(k) {
                lemma_keys_of_sets(front, k);
                let i = choose|i: int| 0 <= i < front.len() && (#[trigger] front[i]).0 == k;
                assert(sets[i].0 == sets[sets.len() - 1].0);
            }
        }
        assert forall|i: int| 0 <= i < sets.len() implies apply_sets(
            Map::empty(),
            sets,
        ).contains_key((#[trigger] sets[i]).0) by {
            if i < front.len() {
                assert(front[i] == sets[i]);
            }
        }
    }
}

/// Every key present after a series of sets on an empty store was set.
proof fn lemma_keys_of_sets(sets: Seq<(Seq<u8>, Seq<u8>)>, k: Seq<u8>)
    requires
        apply_sets(Map::empty(), sets).contains_key(k),
    ensures
        exists|i: int| 0 <= i < sets.len() && (#[trigger] sets[i]).0 == k,
    decreases sets.len(),
{
    if sets.len() > 0 {
        let front = sets.drop_last();
        if sets.last().0 == k {
            assert(sets[sets.len() - 1].0 == k);
        } else {
            lemma_keys_of_sets(front, k);
            let i = choose|i: int| 0 <= i < front.len() && (#[trigger] front[i]).0 == k;
            assert(sets[i] == front[i]);
        }
    }
}

/// Setting a key a second time leaves the size as the first set left it,
/// and a get then returns the second value.
pub proof fn lemma_set_twice(
    m: Map<Seq<u8>, Seq<u8>>,
    key: Seq<u8>,
    first: Seq<u8>,
    second: Seq<u8>,
)
    requires
        m.dom().finite(),
    ensures
        m.insert(key, first).insert(key, second).len() == m.insert(key, first).len(),
        m.insert(key, first).insert(key, second)[key] == second,
{
    assert(m.insert(key, first).insert(key, second).dom() =~= m.insert(key, first).dom());
}

/// A delete of a set of keys leaves none of them present, and the size drops
/// by the number of them that were present, which is what the delete
/// returns.
pub proof fn lemma_delete(m: Map<Seq<u8>, Seq<u8>>, keys: Set<Seq<u8>>)
    requires
        m.dom().finite(),
    ensures
        forall|k: Seq<u8>| keys.contains(k) ==> !(#[trigger] m.remove_keys(keys).contains_key(k)),
        m.remove_keys(keys).len() + m.dom().intersect(keys).len() == m.len(),
{
    let left = m.remove_keys(keys).dom();
    let gone = m.dom().intersect(keys);
    assert(left =~= m.dom().difference(keys));
    assert(left.disjoint(gone));
    assert(left + gone =~= m.dom());
    vstd::set_lib::lemma_set_disjoint_lens(left, gone);
}

pub struct CMap {
    shards: Vec<Bucket>,
    shard_count: usize,
    size: usize,
}

impl View for CMap {
    type V = Map<Seq<u8>, Seq<u8>>;

    /// Each key with the value that its own shard holds for it.
    closed spec fn view(&self) -> Map<Seq<u8>, Seq<u8>> {
        Map::new(
            |k: Seq<u8>|
                bucket_entries(self.shards@[shard_of(k, self.shard_count)]).contains_key(k),
            |k: Seq<u8>| bucket_entries(self.shards@[shard_of(k, self.shard_count)])[k],
        )
    }
}

impl CMap {
    /// One shard per slot, a power-of-two count of them, and a size that
    /// counts the keys.
    pub closed spec fn wf(&self) -> bool {
        &&& is_power_of_two(self.shard_count)
        &&& self.shards@.len() == self.shard_count
        &&& self@.dom().finite()
        &&& self.size == self@.dom().len()
    }

    pub closed spec fn spec_shard_count(&self) -> usize {
        self.shard_count
    }

    /// What shard `i` holds.
    pub closed spec fn shard_entries(&self, i: int) -> Map<Seq<u8>, Seq<u8>> {
        bucket_entries(self.shards@[i])
    }

    /// A store of `shard_count` empty shards, each sized for `bucket_size`
    /// entries. The shard count must be a power of two.
    pub fn new(shard_count: usize, bucket_size: usize) -> (r: Result<CMap, DatabaseError>)
        ensures
            match r {
                Ok(m) => is_power_of_two(shard_count) && m.wf() && m@ == Map::<
                    Seq<u8>,
                    Seq<u8>,
                >::empty() && m.spec_shard_count() == shard_count,
                Err(e) => !is_power_of_two(shard_count) && e == DatabaseError::InvalidShardCount,
            },
    {
        if shard_count == 0 || shard_count & (shard_count - 1) != 0 {
            return Err(DatabaseError::InvalidShardCount);
        }
        let mut shards: Vec<Bucket> = Vec::new();
        let mut i: usize = 0;
        while i < shard_count
            invariant
                i <= shard_count,
                shards@.len() == i,
                forall|j: int|
                    0 <= j < i ==> bucket_entries(#[trigger] shards@[j]).dom() == Set::<
                        Seq<u8>,
                    >::empty(),
            decreases shard_count - i,
        {
            shards.push(Bucket::new(bucket_size));
            i = i + 1;
        }
        let m = CMap { shards, shard_count, size: 0 };
        proof {
            assert forall|k: Seq<u8>| !#[trigger] m@.contains_key(k) by {
                lemma_shard_in_range(k, shard_count);
                assert(!bucket_entries(m.shards@[shard_of(k, shard_count)]).dom().contains(k));
            }
            assert(m@ =~= Map::<Seq<u8>, Seq<u8>>::empty());
        }
        Ok(m)
    }

    pub fn shard_count(&self) -> (r: usize)
        ensures
            r == self.spec_shard_count(),
    {
        self.shard_count
    }

    /// The shard that `key` belongs to.
    pub fn get_shard_index(&self, key: &[u8]) -> (r: usize)
        requires
            self.wf(),
        ensures
            r == shard_of(key@, self.spec_shard_count()),
            r < self.spec_shard_count(),
    {
        let h = calculate_hash(key);
        proof {
            lemma_shard_in_range(key@, self.shard_count);
        }
        (h & ((self.shard_count - 1) as u64)) as usize
    }

    pub fn get_shard_by_key(&self, key: &[u8]) -> (r: &Bucket)
        requires
            self.wf(),
        ensures
            bucket_entries(*r) == self.shard_entries(shard_of(key@, self.spec_shard_count())),
    {
        let index = self.get_shard_index(key);
        &self.shards[index]
    }

    pub fn get_shard_by_index(&self, index: usize) -> (r: Option<&Bucket>)
        requires
            self.wf(),
        ensures
            match r {
                Some(b) => index < self.spec_shard_count() && bucket_entries(*b)
                    == self.shard_entries(index as int),
                None => index >= self.spec_shard_count(),
            },
    {
        if index >= self.shard_count {
            None
        } else {
            Some(&self.shards[index])
        }
    }

    /// Stores `value` under `key`, replacing any earlier value. The size grows
    /// by one only when the key is new.
    pub fn set_kv(&mut self, key: &[u8], value: &[u8])
        requires
            old(self).wf(),
            old(self)@.len() < usize::MAX,
        ensures
            final(self).wf(),
            final(self).spec_shard_count() == old(self).spec_shard_count(),
            final(self)@ == old(self)@.insert(key@, value@),
            final(self).shard_entries(shard_of(key@, old(self).spec_shard_count())) == old(
                self,
            ).shard_entries(shard_of(key@, old(self).spec_shard_count())).insert(key@, value@),
            forall|j: int|
                0 <= j < old(self).spec_shard_count() && j != shard_of(
                    key@,
                    old(self).spec_shard_count(),
                ) ==> #[trigger] final(self).shard_entries(j) == old(self).shard_entries(j),
    {
        let index = self.get_shard_index(key);
        let ghost before = *self;
        let previous = self.shards[index].add_entry_or_update(
            vstd::slice::slice_to_vec(key),
            vstd::slice::slice_to_vec(value),
        );
        proof {
            assert forall|k: Seq<u8>| shard_of(k, self.shard_count) != index implies #[trigger] self.shards@[shard_of(k, self.shard_count)]
                == before.shards@[shard_of(k, self.shard_count)] by {
                lemma_shard_in_range(k, self.shard_count);
            }
            assert(self@ =~= before@.insert(key@, value@));
        }
        if previous.is_none() {
            self.size = self.size + 1;
        }
    }

    /// Groups the positions of `keys` by the shard of each key, so that each
    /// shard is visited once.
    fn get_shard_key_mapping(&self, keys: &Vec<Vec<u8>>) -> (r: Vec<Vec<usize>>)
        requires
            self.wf(),
        ensures
            r@.len() == self.shard_count,
            forall|j: int, t: int|
                0 <= j < r@.len() && 0 <= t < r@[j]@.len() ==> (#[trigger] r@[j]@[t]) < keys@.len()
                    && shard_of(keys@[r@[j]@[t] as int]@, self.shard_count) == j,
            forall|j: int|
                0 <= j < r@.len() ==> #[trigger] group_set(keys@, r@[j]@) == shard_keys(
                    keys@,
                    self.shard_count,
                    j,
                ),
    {
        let mut groups: Vec<Vec<usize>> = Vec::new();
        let mut j: usize = 0;
        while j < self.shard_count
            invariant
                j <= self.shard_count,
                groups@.len() == j,
                forall|x: int| 0 <= x < j ==> (#[trigger] groups@[x])@.len() == 0,
            decreases self.shard_count - j,
        {
            groups.push(Vec::new());
            j = j + 1;
        }
        let ghost sc = self.shard_count;
        proof {
            assert forall|x: int| 0 <= x < sc implies #[trigger] group_set(keys@, groups@[x]@)
                == shard_keys(keys@.subrange(0, 0), sc, x) by {
                assert(group_set(keys@, groups@[x]@) =~= Set::<Seq<u8>>::empty());
                assert(shard_keys(keys@.subrange(0, 0), sc, x) =~= Set::<Seq<u8>>::empty());
            }
        }
        let mut i: usize = 0;
        while i < keys.len()
            invariant
                self.wf(),
                sc == self.shard_count,
                i <= keys@.len(),
                groups@.len() == sc,
                forall|x: int, t: int|
                    0 <= x < groups@.len() && 0 <= t < groups@[x]@.len() ==> (#[trigger] groups@[x]@[t])
                        < i && shard_of(keys@[groups@[x]@[t] as int]@, sc) == x,
                forall|x: int|
                    0 <= x < sc ==> #[trigger] group_set(keys@, groups@[x]@) == shard_keys(
                        keys@.subrange(0, i as int),
                        sc,
                        x,
                    ),
            decreases keys@.len() - i,
        {
            let index = self.get_shard_index(&keys[i]);
            let ghost before = groups@;
            groups[index].push(i);
            proof {
                let k = keys@[i as int]@;
                assert forall|x: int| 0 <= x < sc implies #[trigger] group_set(keys@, groups@[x]@)
                    == shard_keys(keys@.subrange(0, i + 1), sc, x) by {
                    let lhs = group_set(keys@, groups@[x]@);
                    let rhs = shard_keys(keys@.subrange(0, i + 1), sc, x);
                    let prev = shard_keys(keys@.subrange(0, i as int), sc, x);
                    assert(group_set(keys@, before[x]@) == prev);
                    assert forall|kk: Seq<u8>| lhs.contains(kk) implies rhs.contains(kk) by {
                        let t = choose|t: int|
                            0 <= t < groups@[x]@.len() && keys@[(#[trigger] groups@[x]@[t]) as int]@ == kk;
                        if x == index && t == before[x]@.len() {
                            assert(keys@.subrange(0, i + 1)[i as int]@ == kk);
                        } else {
                            assert(before[x]@[t] == groups@[x]@[t]);
                            assert(group_set(keys@, before[x]@).contains(kk));
                            let i2 = choose|i2: int|
                                0 <= i2 < i && (#[trigger] keys@.subrange(0, i as int)[i2])@ == kk;
                            assert(keys@.subrange(0, i + 1)[i2]@ == kk);
                        }
                    }
                    assert forall|kk: Seq<u8>| rhs.contains(kk) implies lhs.contains(kk) by {
                        let i2 = choose|i2: int|
                            0 <= i2 < i + 1 && (#[trigger] keys@.subrange(0, i + 1)[i2])@ == kk;
                        if i2 == i {
                            assert(x == index);
                            let t = before[x]@.len() as int;
                            assert(groups@[x]@[t] == i);
                        } else {
                            assert(keys@.subrange(0, i as int)[i2]@ == kk);
                            assert(prev.contains(kk));
                            let t = choose|t: int|
                                0 <= t < before[x]@.len() && keys@[(#[trigger] before[x]@[t]) as int]@ == kk;
                            assert(groups@[x]@[t] == before[x]@[t]);
                        }
                    }
                    assert(lhs =~= rhs);
                }
            }
            i = i + 1;
        }
        proof {
            assert(keys@.subrange(0, keys@.len() as int) =~= keys@);
        }
        groups
    }

    /// Removes from shard `shard_id` the keys that `group` designates, all of
    /// which belong to that shard; returns how many were present.
    fn delete_shard_entries(&mut self, shard_id: usize, group: &Vec<usize>, keys: &Vec<Vec<u8>>) -> (r:
        usize)
        requires
            old(self).wf(),
            shard_id < old(self).spec_shard_count(),
            forall|t: int|
                0 <= t < group@.len() ==> (#[trigger] group@[t]) < keys@.len() && shard_of(
                    keys@[group@[t] as int]@,
                    old(self).spec_shard_count(),
                ) == shard_id,
        ensures
            final(self).wf(),
            final(self).spec_shard_count() == old(self).spec_shard_count(),
            final(self)@ == old(self)@.remove_keys(group_set(keys@, group@)),
            r == old(self)@.dom().intersect(group_set(keys@, group@)).len(),
    {
        let ghost start = *self;
        let ghost a = start@.dom();
        let mut count: usize = 0;
        let mut t: usize = 0;
        proof {
            assert(group_set(keys@, group@.subrange(0, 0)) =~= Set::<Seq<u8>>::empty());
            assert(start@.remove_keys(Set::<Seq<u8>>::empty()) =~= start@);
            assert(a.intersect(Set::<Seq<u8>>::empty()) =~= Set::<Seq<u8>>::empty());
        }
        while t < group.len()
            invariant
                self.wf(),
                start.wf(),
                a == start@.dom(),
                self.shard_count == start.shard_count,
                shard_id < self.shard_count,
                t <= group@.len(),
                forall|x: int|
                    0 <= x < group@.len() ==> (#[trigger] group@[x]) < keys@.len() && shard_of(
                        keys@[group@[x] as int]@,
                        self.shard_count,
                    ) == shard_id,
                self@ == start@.remove_keys(group_set(keys@, group@.subrange(0, t as int))),
                count == a.intersect(group_set(keys@, group@.subrange(0, t as int))).len(),
            decreases group@.len() - t,
        {
            let key = &keys[group[t]];
            let ghost k = key@;
            let ghost p = group_set(keys@, group@.subrange(0, t as int));
            let ghost before = *self;
            let c = self.shards[shard_id].remove_entry(key);
            proof {
                assert forall|kk: Seq<u8>| shard_of(kk, self.shard_count) != shard_id implies #[trigger] self.shards@[shard_of(kk, self.shard_count)]
                    == before.shards@[shard_of(kk, self.shard_count)] by {
                    lemma_shard_in_range(kk, self.shard_count);
                }
                assert(self@ =~= before@.remove(k));
                assert(group_set(keys@, group@.subrange(0, t + 1)) =~= p.insert(k)) by {
                    let g1 = group@.subrange(0, t + 1);
                    assert forall|kk: Seq<u8>| #[trigger] p.insert(k).contains(kk) implies group_set(
                        keys@,
                        g1,
                    ).contains(kk) by {
                        if kk == k {
                            assert(keys@[g1[t as int] as int]@ == kk);
                        } else {
                            let x = choose|x: int|
                                0 <= x < t && keys@[(#[trigger] group@.subrange(0, t as int)[x]) as int]@ == kk;
                            assert(keys@[g1[x] as int]@ == kk);
                        }
                    }
                    assert forall|kk: Seq<u8>| #[trigger] group_set(keys@, g1).contains(kk) implies p.insert(
                        k,
                    ).contains(kk) by {
                        let x = choose|x: int| 0 <= x < t + 1 && keys@[(#[trigger] g1[x]) as int]@ == kk;
                        if x < t {
                            assert(keys@[group@.subrange(0, t as int)[x] as int]@ == kk);
                        }
                    }
                }
                assert(start@.remove_keys(p).remove(k) =~= start@.remove_keys(p.insert(k)));
                lemma_count_insert(a, p, k);
                assert(before@.contains_key(k) == (a.contains(k) && !p.contains(k)));
                assert(count + c <= a.len()) by {
                    vstd::set_lib::lemma_len_subset(a.intersect(p.insert(k)), a);
                }
            }
            count = count + c;
            self.size = self.size - c;
            t = t + 1;
        }
        proof {
            assert(group@.subrange(0, t as int) =~= group@);
        }
        count
    }

    /// Removes every key of `keys` and returns, per shard, how many of them
    /// were present. The keys are grouped by shard first, so each shard is
    /// visited once.
    pub fn del_entries(&mut self, keys: &Vec<Vec<u8>>) -> (r: Vec<usize>)
        requires
            old(self).wf(),
        ensures
            final(self).wf(),
            final(self).spec_shard_count() == old(self).spec_shard_count(),
            final(self)@ == old(self)@.remove_keys(key_set(keys@)),
            r@.len() == old(self).spec_shard_count(),
            sum(r@) == old(self)@.dom().intersect(key_set(keys@)).len(),
            sum(r@) <= old(self)@.len(),
            forall|j: int|
                0 <= j < r@.len() ==> #[trigger] r@[j] == old(self)@.dom().intersect(
                    shard_keys(keys@, old(self).spec_shard_count(), j),
                ).len(),
    {
        let groups = self.get_shard_key_mapping(keys);
        let ghost start = *self;
        let ghost a = start@.dom();
        let ghost sc = self.shard_count;
        let mut counts: Vec<usize> = Vec::new();
        let mut j: usize = 0;
        let ghost mut p = Set::<Seq<u8>>::empty();
        proof {
            assert(start@.remove_keys(p) =~= start@);
            assert(a.intersect(p) =~= Set::<Seq<u8>>::empty());
            assert(p =~= Set::new(|k: Seq<u8>| key_set(keys@).contains(k) && shard_of(k, sc) < 0));
        }
        while j < groups.len()
            invariant
                self.wf(),
                start.wf(),
                a == start@.dom(),
                sc == self.shard_count,
                sc == start.shard_count,
                groups@.len() == sc,
                j <= sc,
                counts@.len() == j,
                forall|x: int, t: int|
                    0 <= x < groups@.len() && 0 <= t < groups@[x]@.len() ==> (#[trigger] groups@[x]@[t])
                        < keys@.len() && shard_of(keys@[groups@[x]@[t] as int]@, sc) == x,
                forall|x: int|
                    0 <= x < groups@.len() ==> #[trigger] group_set(keys@, groups@[x]@) == shard_keys(
                        keys@,
                        sc,
                        x,
                    ),
                p == Set::new(|k: Seq<u8>| key_set(keys@).contains(k) && shard_of(k, sc) < j),
                self@ == start@.remove_keys(p),
                sum(counts@) == a.intersect(p).len(),
                forall|x: int|
                    0 <= x < j ==> #[trigger] counts@[x] == a.intersect(shard_keys(keys@, sc, x)).len(),
            decreases groups@.len() - j,
        {
            let ghost g = group_set(keys@, groups@[j as int]@);
            let ghost before = *self;
            let c = self.delete_shard_entries(j, &groups[j], keys);
            let ghost prev_counts = counts@;
            counts.push(c);
            proof {
                assert(counts@.drop_last() =~= prev_counts);
                assert(before@.dom() =~= a.difference(p));
                assert(a.difference(p).intersect(g) =~= a.intersect(g));
                assert forall|x: int| 0 <= x < j + 1 implies #[trigger] counts@[x] == a.intersect(
                    shard_keys(keys@, sc, x),
                ).len() by {
                    if x < j {
                        assert(counts@[x] == prev_counts[x]);
                    }
                }
                lemma_count_union(a, p, g);
                assert(start@.remove_keys(p).remove_keys(g) =~= start@.remove_keys(p + g));
                let p2 = Set::new(|k: Seq<u8>| key_set(keys@).contains(k) && shard_of(k, sc) < j + 1);
                assert(p + g =~= p2);
                p = p2;
            }
            j = j + 1;
        }
        proof {
            assert forall|k: Seq<u8>| key_set(keys@).contains(k) implies #[trigger] p.contains(k) by {
                lemma_shard_in_range(k, sc);
            }
            assert(p =~= key_set(keys@));
            vstd::set_lib::lemma_len_subset(a.intersect(p), a);
        }
        counts
    }

    /// A copy of the value stored under `key`, if any.
    pub fn get_value(&self, key: &[u8]) -> (r: Option<Vec<u8>>)
        requires
            self.wf(),
        ensures
            match r {
                Some(v) => self@.contains_key(key@) && v@ == self@[key@],
                None => !self@.contains_key(key@),
            },
    {
        self.get_shard_by_key(key).get_value_by_key(key)
    }

    pub fn contains_key(&self, key: &[u8]) -> (r: bool)
        requires
            self.wf(),
        ensures
            r == self@.contains_key(key@),
    {
        self.get_shard_by_key(key).contains_key(key)
    }

    /// A well-formed store holds finitely many keys, at most `usize::MAX`.
    pub proof fn lemma_len_bounded(&self)
        requires
            self.wf(),
        ensures
            self@.dom().finite(),
            self@.len() <= usize::MAX,
    {
    }

    /// The number of keys stored.
    pub fn size(&self) -> (r: usize)
        requires
            self.wf(),
        ensures
            r == self@.len(),
    {
        self.size
    }
}

} // verus!
