//! The aggregation root: entity id allocation, the keyed component
//! storages, and the keyed resource store.
//!
//! Component kinds and resource kinds are named by caller-chosen `u64` keys.
//! A storage is registered implicitly the first time a component of its kind
//! is inserted, and every registered storage always holds exactly one slot
//! per existing entity.
//!
//! Borrows of storages and resources are checked at run time: a shared
//! borrow hands out a snapshot and raises the reader count, an exclusive
//! borrow checks the data out until it is released. A conflicting request is
//! reported as a [`BorrowError`] and leaves the world untouched.

use vstd::prelude::*;
use crate::component::{BorrowState, ComponentStorage};
use crate::resource::{Res, ResMut, ResourceCell};

verus! {

/// Reported when a borrow is requested on a storage or resource whose
/// borrow flag does not allow it; `key` names the kind that was contended.
#[derive(Clone, Copy, PartialEq, Eq, Structural, Debug)]
pub struct BorrowError {
    pub key: u64,
}

/// No two entries of the association list share a key.
pub(crate) open spec fn distinct_keys<T>(s: Seq<(u64, T)>) -> bool {
    forall|i: int, j: int| 0 <= i < j < s.len() ==> s[i].0 != s[j].0
}

/// Some entry of the association list has this key.
pub(crate) open spec fn has_key<T>(s: Seq<(u64, T)>, key: u64) -> bool {
    exists|i: int| 0 <= i < s.len() && (#[trigger] s[i]).0 == key
}

/// The index of the entry with this key (unique when keys are distinct).
pub(crate) open spec fn key_index<T>(s: Seq<(u64, T)>, key: u64) -> int {
    choose|i: int| 0 <= i < s.len() && (#[trigger] s[i]).0 == key
}

/// The value stored under this key.
pub(crate) open spec fn key_value<T>(s: Seq<(u64, T)>, key: u64) -> T {
    s[key_index(s, key)].1
}

/// With distinct keys, any entry holding `key` is the entry `key_index`
/// points at.
pub(crate) proof fn lemma_key_at<T>(s: Seq<(u64, T)>, key: u64, j: int)
    requires
        distinct_keys(s),
        0 <= j < s.len(),
        s[j].0 == key,
    ensures
        has_key(s, key),
        key_index(s, key) == j,
        key_value(s, key) == s[j].1,
{
    assert(has_key(s, key));
    let i = key_index(s, key);
    assert(0 <= i < s.len() && s[i].0 == key);
    if i < j {
        assert(s[i].0 != s[j].0);
    }
    if j < i {
        assert(s[j].0 != s[i].0);
    }
}

/// Replacing the value of one entry, keeping its key, leaves every other
/// key's presence and value unchanged.
pub(crate) proof fn lemma_update_entry<T>(pre: Seq<(u64, T)>, post: Seq<(u64, T)>, j: int)
    requires
        distinct_keys(pre),
        0 <= j < pre.len(),
        post == pre.update(j, (pre[j].0, post[j].1)),
    ensures
        distinct_keys(post),
        forall|k: u64| #[trigger] has_key(post, k) == has_key(pre, k),
        forall|k: u64|
            k != pre[j].0 && has_key(pre, k) ==> #[trigger] key_value(post, k) == key_value(
                pre,
                k,
            ),
        has_key(post, pre[j].0),
        key_value(post, pre[j].0) == post[j].1,
{
    assert forall|k: u64| #[trigger] has_key(post, k) == has_key(pre, k) by {
        if has_key(pre, k) {
            let i = choose|i: int| 0 <= i < pre.len() && (#[trigger] pre[i]).0 == k;
            assert(post[i].0 == k);
        }
        if has_key(post, k) {
            let i = choose|i: int| 0 <= i < post.len() && (#[trigger] post[i]).0 == k;
            assert(pre[i].0 == k);
        }
    }
    assert forall|k: u64| k != pre[j].0 && has_key(pre, k) implies #[trigger] key_value(post, k)
        == key_value(pre, k) by {
        let i = key_index(pre, k);
        assert(0 <= i < pre.len() && pre[i].0 == k);
        lemma_key_at(post, k, i);
    }
    lemma_key_at(post, pre[j].0, j);
}

/// Appending an entry under a fresh key leaves every other key's presence
/// and value unchanged and binds the new key to the appended value.
pub(crate) proof fn lemma_push_entry<T>(pre: Seq<(u64, T)>, key: u64, v: T)
    requires
        distinct_keys(pre),
        !has_key(pre, key),
    ensures
        distinct_keys(pre.push((key, v))),
        forall|k: u64| #[trigger] has_key(pre.push((key, v)), k) == (has_key(pre, k) || k == key),
        forall|k: u64|
            k != key && has_key(pre, k) ==> #[trigger] key_value(pre.push((key, v)), k)
                == key_value(pre, k),
        key_value(pre.push((key, v)), key) == v,
{
    let post = pre.push((key, v));
    assert forall|i: int| 0 <= i < pre.len() implies (#[trigger] pre[i]).0 != key by {
        assert(!has_key(pre, key));
    }
    lemma_key_at(post, key, pre.len() as int);
    assert forall|k: u64| #[trigger] has_key(post, k) == (has_key(pre, k) || k == key) by {
        if has_key(pre, k) {
            let i = choose|i: int| 0 <= i < pre.len() && (#[trigger] pre[i]).0 == k;
            assert(post[i].0 == k);
        }
        if k != key && has_key(post, k) {
            let i = choose|i: int| 0 <= i < post.len() && (#[trigger] post[i]).0 == k;
            assert(pre[i].0 == k);
        }
    }
    assert forall|k: u64| k != key && has_key(pre, k) implies #[trigger] key_value(post, k)
        == key_value(pre, k) by {
        let i = key_index(pre, k);
        assert(0 <= i < pre.len() && pre[i].0 == k);
        lemma_key_at(post, k, i);
    }
}

/// A sequence of optional slots fitted to length `n`: kept values up to
/// `n`, empty slots beyond the end of `s`.
pub open spec fn resized<V>(s: Seq<Option<V>>, n: nat) -> Seq<Option<V>> {
    Seq::new(n, |i: int| if 0 <= i < s.len() { s[i] } else { None })
}

/// The world: owns the entity counter, one sparse storage per registered
/// component kind, and the resource store.
pub struct World<V> {
    num_entities: usize,
    storages: Vec<(u64, ComponentStorage<V>)>,
    resources: Vec<(u64, ResourceCell<V>)>,
}

impl<V> World<V> {
    /// How many entities have been created; ids are exactly
    /// `[0, entity_count())`.
    pub closed spec fn entity_count(self) -> nat {
        self.num_entities as nat
    }

    /// Whether a storage for this component kind has been registered, i.e.
    /// whether a component of this kind was ever inserted.
    pub closed spec fn has_storage(self, key: u64) -> bool {
        has_key(self.storages@, key)
    }

    /// The slot sequence of this kind's storage: slot `i` is the component
    /// of entity `i`, or `None` if entity `i` lacks the kind.
    pub closed spec fn storage_slots(self, key: u64) -> Seq<Option<V>> {
        key_value(self.storages@, key).slots@
    }

    /// The borrow flag of this kind's storage; an unregistered kind counts
    /// as free.
    pub closed spec fn storage_state(self, key: u64) -> BorrowState {
        if has_key(self.storages@, key) {
            key_value(self.storages@, key).state
        } else {
            BorrowState::Free
        }
    }

    /// The component of entity `i` for this kind; an unregistered kind is
    /// read as an entirely empty storage.
    pub open spec fn slot(self, key: u64, i: int) -> Option<V> {
        if self.has_storage(key) {
            self.storage_slots(key)[i]
        } else {
            None
        }
    }

    /// Whether a resource of this kind is live.
    pub closed spec fn has_resource(self, key: u64) -> bool {
        has_key(self.resources@, key)
    }

    /// The single live resource value of this kind.
    pub closed spec fn resource_value(self, key: u64) -> V {
        key_value(self.resources@, key).value
    }

    /// The borrow flag of this kind's resource cell; an absent kind counts
    /// as free.
    pub closed spec fn resource_state(self, key: u64) -> BorrowState {
        if has_key(self.resources@, key) {
            key_value(self.resources@, key).state
        } else {
            BorrowState::Free
        }
    }

    /// The representation invariant: keys are unique on both association
    /// lists, and every registered storage holds exactly one slot per
    /// existing entity.
    pub closed spec fn wf(self) -> bool {
        &&& distinct_keys(self.storages@)
        &&& distinct_keys(self.resources@)
        &&& forall|i: int|
            0 <= i < self.storages@.len() ==> (#[trigger] self.storages@[i]).1.slots@.len()
                == self.num_entities
    }
}

/// The storages of `a` and `b` agree: same registered kinds, same slots,
/// same borrow flags.
pub open spec fn same_storages<V>(a: World<V>, b: World<V>) -> bool {
    &&& forall|k: u64| #[trigger] a.has_storage(k) == b.has_storage(k)
    &&& forall|k: u64| a.has_storage(k) ==> #[trigger] a.storage_slots(k) == b.storage_slots(k)
    &&& forall|k: u64| #[trigger] a.storage_state(k) == b.storage_state(k)
}

/// The resources of `a` and `b` agree: same live kinds, same values, same
/// borrow flags.
pub open spec fn same_resources<V>(a: World<V>, b: World<V>) -> bool {
    &&& forall|k: u64| #[trigger] a.has_resource(k) == b.has_resource(k)
    &&& forall|k: u64| a.has_resource(k) ==> #[trigger] a.resource_value(k) == b.resource_value(k)
    &&& forall|k: u64| #[trigger] a.resource_state(k) == b.resource_state(k)
}

/// Width of every registered storage equals the entity count: the storage
/// invariant that `new_entity` and `add_component_to_entity` maintain.
pub proof fn lemma_storage_width<V>(w: World<V>, key: u64)
    requires
        w.wf(),
        w.has_storage(key),
    ensures
        w.storage_slots(key).len() == w.entity_count(),
{
    let j = key_index(w.storages@, key);
    assert(0 <= j < w.storages@.len() && w.storages@[j].0 == key);
}

impl<V> Default for World<V> {
    /// A fresh world, as `World::new` builds it.
    fn default() -> (w: World<V>)
        ensures
            w.wf(),
            w.entity_count() == 0,
            forall|k: u64| !(#[trigger] w.has_storage(k)),
            forall|k: u64| !(#[trigger] w.has_resource(k)),
    {
        World::new()
    }
}

impl<V> World<V> {
    /// A fresh world: no entities, no storages, no resources.
    pub fn new() -> (w: World<V>)
        ensures
            w.wf(),
            w.entity_count() == 0,
            forall|k: u64| !(#[trigger] w.has_storage(k)),
            forall|k: u64| !(#[trigger] w.has_resource(k)),
            forall|k: u64| #[trigger] w.storage_state(k) == BorrowState::Free,
            forall|k: u64| #[trigger] w.resource_state(k) == BorrowState::Free,
    {
        World { num_entities: 0, storages: Vec::new(), resources: Vec::new() }
    }

    /// The index of this kind's storage in the association list.
    fn find_storage(&self, key: u64) -> (r: Option<usize>)
        ensures
            match r {
                Some(j) => j < self.storages@.len() && self.storages@[j as int].0 == key,
                None => !has_key(self.storages@, key),
            },
    {
        let n = self.storages.len();
        let mut j: usize = 0;
        while j < n
            invariant
                j <= n,
                n == self.storages@.len(),
                forall|i: int| 0 <= i < j ==> (#[trigger] self.storages@[i]).0 != key,
            decreases n - j,
        {
            if self.storages[j].0 == key {
                return Some(j);
            }
            j = j + 1;
        }
        None
    }

    /// The index of this kind's resource cell in the association list.
    fn find_resource(&self, key: u64) -> (r: Option<usize>)
        ensures
            match r {
                Some(j) => j < self.resources@.len() && self.resources@[j as int].0 == key,
                None => !has_key(self.resources@, key),
            },
    {
        let n = self.resources.len();
        let mut j: usize = 0;
        while j < n
            invariant
                j <= n,
                n == self.resources@.len(),
                forall|i: int| 0 <= i < j ==> (#[trigger] self.resources@[i]).0 != key,
            decreases n - j,
        {
            if self.resources[j].0 == key {
                return Some(j);
            }
            j = j + 1;
        }
        None
    }

    /// The live borrow flag of the storage of kind `key`; an unregistered
    /// kind counts as free.
    pub fn storage_borrow_state(&self, key: u64) -> (s: BorrowState)
        requires
            self.wf(),
        ensures
            s == self.storage_state(key),
    {
        match self.find_storage(key) {
            None => BorrowState::Free,
            Some(j) => {
                proof {
                    lemma_key_at(self.storages@, key, j as int);
                }
                self.storages[j].1.state
            },
        }
    }

    /// The number of entities created so far.
    pub fn num_entities(&self) -> (n: usize)
        ensures
            n == self.entity_count(),
    {
        self.num_entities
    }

    /// Allocates the next entity id and widens every registered storage by
    /// one empty slot, so that every storage keeps one slot per entity.
    pub fn new_entity(&mut self) -> (id: usize)
        requires
            old(self).wf(),
            old(self).entity_count() < usize::MAX,
        ensures
            final(self).wf(),
            id == old(self).entity_count(),
            final(self).entity_count() == old(self).entity_count() + 1,
            forall|k: u64| #[trigger] final(self).has_storage(k) == old(self).has_storage(k),
            forall|k: u64|
                old(self).has_storage(k) ==> #[trigger] final(self).storage_slots(k) == old(
                    self,
                ).storage_slots(k).push(None),
            forall|k: u64| #[trigger]
                final(self).storage_state(k) == old(self).storage_state(k),
            same_resources(*old(self), *final(self)),
    {
        let id = self.num_entities;
        let n = self.storages.len();
        let mut j: usize = 0;
        while j < n
            invariant
                j <= n,
                n == self.storages@.len(),
                self.storages@.len() == old(self).storages@.len(),
                self.num_entities == old(self).num_entities,
                self.resources@ == old(self).resources@,
                forall|i: int|
                    0 <= i < n ==> (#[trigger] self.storages@[i]).0 == old(self).storages@[i].0,
                forall|i: int|
                    0 <= i < j ==> (#[trigger] self.storages@[i]).1.slots@ == old(
                        self,
                    ).storages@[i].1.slots@.push(None),
                forall|i: int|
                    j <= i < n ==> (#[trigger] self.storages@[i]).1 == old(self).storages@[i].1,
                forall|i: int|
                    0 <= i < n ==> (#[trigger] self.storages@[i]).1.state == old(
                        self,
                    ).storages@[i].1.state,
            decreases n - j,
        {
            let entry = &mut self.storages[j];
            entry.1.slots.push(None);
            j = j + 1;
        }
        self.num_entities = self.num_entities + 1;
        proof {
            let pre = *old(self);
            let post = *self;
            assert forall|k: u64| #[trigger] post.has_storage(k) == pre.has_storage(k) by {
                if has_key(pre.storages@, k) {
                    let i = choose|i: int|
                        0 <= i < pre.storages@.len() && (#[trigger] pre.storages@[i]).0 == k;
                    assert(post.storages@[i].0 == k);
                }
                if has_key(post.storages@, k) {
                    let i = choose|i: int|
                        0 <= i < post.storages@.len() && (#[trigger] post.storages@[i]).0 == k;
                    assert(pre.storages@[i].0 == k);
                }
            }
            assert(distinct_keys(post.storages@));
            assert forall|k: u64| pre.has_storage(k) implies #[trigger] post.storage_slots(k)
                == pre.storage_slots(k).push(None) by {
                let i = key_index(pre.storages@, k);
                assert(0 <= i < pre.storages@.len() && pre.storages@[i].0 == k);
                lemma_key_at(post.storages@, k, i);
            }
            assert forall|k: u64| #[trigger] post.storage_state(k) == pre.storage_state(k) by {
                if pre.has_storage(k) {
                    let i = key_index(pre.storages@, k);
                    assert(0 <= i < pre.storages@.len() && pre.storages@[i].0 == k);
                    lemma_key_at(post.storages@, k, i);
                }
            }
        }
        id
    }

    /// Sets the component of kind `key` for `entity`, registering and
    /// back-filling the kind's storage on first insertion.
    ///
    /// Fails, changing nothing, exactly when the kind's storage is
    /// currently borrowed.
    pub fn add_component_to_entity(&mut self, entity: usize, key: u64, component: V) -> (r: Result<
        (),
        BorrowError,
    >)
        requires
            old(self).wf(),
            entity < old(self).entity_count(),
        ensures
            final(self).wf(),
            final(self).entity_count() == old(self).entity_count(),
            same_resources(*old(self), *final(self)),
            r is Ok <==> old(self).storage_state(key) == BorrowState::Free,
            r is Err ==> *final(self) == *old(self),
            r matches Err(e) ==> e == (BorrowError { key }),
            r is Ok ==> final(self).storage_slots(key) == (if old(self).has_storage(key) {
                old(self).storage_slots(key)
            } else {
                Seq::new(old(self).entity_count(), |i: int| None::<V>)
            }).update(entity as int, Some(component)),
            r is Ok ==> final(self).storage_state(key) == BorrowState::Free,
            forall|k: u64| #[trigger]
                final(self).has_storage(k) == (old(self).has_storage(k) || (r is Ok && k == key)),
            forall|k: u64|
                k != key && old(self).has_storage(k) ==> #[trigger] final(self).storage_slots(k)
                    == old(self).storage_slots(k),
            forall|k: u64|
                k != key ==> #[trigger] final(self).storage_state(k) == old(self).storage_state(k),
    {
        match self.find_storage(key) {
            None => {
                proof {
                    assert forall|i: int| 0 <= i < self.storages@.len() implies (
                    #[trigger] self.storages@[i]).0 != key by {
                        assert(!has_key(self.storages@, key));
                    }
                }
                let mut st = ComponentStorage::new_filled(self.num_entities);
                let slot = &mut st.slots[entity];
                *slot = Some(component);
                self.storages.push((key, st));
                proof {
                    let pre = *old(self);
                    assert(self.storages@ == pre.storages@.push((key, st)));
                    lemma_push_entry(pre.storages@, key, st);
                }
                Ok(())
            },
            Some(j) => {
                if !(self.storages[j].1.state == BorrowState::Free) {
                    proof {
                        lemma_key_at(self.storages@, key, j as int);
                    }
                    return Err(BorrowError { key });
                }
                proof {
                    lemma_key_at(self.storages@, key, j as int);
                }
                assert(self.storages@[j as int].1.slots@.len() == old(self).entity_count());
                let entry = &mut self.storages[j];
                let slot = &mut entry.1.slots[entity];
                *slot = Some(component);
                proof {
                    let pre = *old(self);
                    let post = *self;
                    assert(post.storages@ =~= pre.storages@.update(
                        j as int,
                        (key, post.storages@[j as int].1),
                    ));
                    lemma_update_entry(pre.storages@, post.storages@, j as int);
                }
                Ok(())
            },
        }
    }
}

impl<V: Copy> World<V> {
    /// A snapshot of a slot sequence.
    fn clone_slots(v: &Vec<Option<V>>) -> (r: Vec<Option<V>>)
        ensures
            r@ == v@,
    {
        let mut r: Vec<Option<V>> = Vec::new();
        let n = v.len();
        let mut i: usize = 0;
        while i < n
            invariant
                i <= n,
                n == v@.len(),
                r@ == v@.subrange(0, i as int),
            decreases n - i,
        {
            let x = v[i];
            r.push(x);
            proof {
                assert(r@ =~= v@.subrange(0, i as int + 1));
            }
            i = i + 1;
        }
        proof {
            assert(v@.subrange(0, n as int) =~= v@);
        }
        r
    }

    /// Reads the component of kind `key` attached to `entity`, or `None`
    /// if the entity lacks the kind or the kind was never inserted.
    pub fn component_at(&self, key: u64, entity: usize) -> (r: Option<V>)
        requires
            self.wf(),
            entity < self.entity_count(),
        ensures
            r == self.slot(key, entity as int),
    {
        match self.find_storage(key) {
            None => None,
            Some(j) => {
                proof {
                    lemma_key_at(self.storages@, key, j as int);
                }
                self.storages[j].1.slots[entity]
            },
        }
    }

    /// Takes a shared borrow of the storage of kind `key` and returns a
    /// snapshot of its slots, raising the kind's reader count until
    /// `release_component_vec` is called.
    ///
    /// An unregistered kind is a distinguishable `Ok(None)`, not an error.
    /// Fails, changing nothing, exactly when the storage is exclusively
    /// borrowed or its reader count is saturated.
    pub fn borrow_component_vec(&mut self, key: u64) -> (r: Result<
        Option<Vec<Option<V>>>,
        BorrowError,
    >)
        requires
            old(self).wf(),
        ensures
            final(self).wf(),
            final(self).entity_count() == old(self).entity_count(),
            same_resources(*old(self), *final(self)),
            r is Err <==> old(self).has_storage(key) && !old(self).storage_state(
                key,
            ).allows_shared(),
            r is Err ==> *final(self) == *old(self),
            r matches Err(e) ==> e == (BorrowError { key }),
            !old(self).has_storage(key) ==> (r matches Ok(o) && o is None && *final(self)
                == *old(self)),
            old(self).has_storage(key) && old(self).storage_state(key).allows_shared() ==> (
            r matches Ok(Some(v)) && v@ == old(self).storage_slots(key)),
            forall|k: u64| #[trigger] final(self).has_storage(k) == old(self).has_storage(k),
            forall|k: u64|
                old(self).has_storage(k) ==> #[trigger] final(self).storage_slots(k) == old(
                    self,
                ).storage_slots(k),
            forall|k: u64|
                k != key ==> #[trigger] final(self).storage_state(k) == old(self).storage_state(k),
            final(self).storage_state(key) == (if r is Ok && old(self).has_storage(key) {
                old(self).storage_state(key).plus_shared()
            } else {
                old(self).storage_state(key)
            }),
    {
        match self.find_storage(key) {
            None => Ok(None),
            Some(j) => {
                proof {
                    lemma_key_at(self.storages@, key, j as int);
                }
                let st = self.storages[j].1.state;
                let new_state = match st {
                    BorrowState::Free => BorrowState::Shared(1),
                    BorrowState::Shared(n) => {
                        if n == u64::MAX {
                            return Err(BorrowError { key });
                        }
                        BorrowState::Shared(n + 1)
                    },
                    BorrowState::Exclusive => {
                        return Err(BorrowError { key });
                    },
                };
                let snapshot = Self::clone_slots(&self.storages[j].1.slots);
                let entry = &mut self.storages[j];
                entry.1.state = new_state;
                proof {
                    let pre = *old(self);
                    let post = *self;
                    assert(post.storages@ =~= pre.storages@.update(
                        j as int,
                        (key, post.storages@[j as int].1),
                    ));
                    lemma_update_entry(pre.storages@, post.storages@, j as int);
                }
                Ok(Some(snapshot))
            },
        }
    }

    /// Releases one shared borrow of the storage of kind `key`, lowering
    /// its reader count. Releasing a kind with no live shared borrow
    /// changes nothing.
    pub fn release_component_vec(&mut self, key: u64)
        requires
            old(self).wf(),
        ensures
            final(self).wf(),
            final(self).entity_count() == old(self).entity_count(),
            same_resources(*old(self), *final(self)),
            forall|k: u64| #[trigger] final(self).has_storage(k) == old(self).has_storage(k),
            forall|k: u64|
                old(self).has_storage(k) ==> #[trigger] final(self).storage_slots(k) == old(
                    self,
                ).storage_slots(k),
            forall|k: u64|
                k != key ==> #[trigger] final(self).storage_state(k) == old(self).storage_state(k),
            final(self).storage_state(key) == old(self).storage_state(key).minus_shared(),
    {
        match self.find_storage(key) {
            None => {},
            Some(j) => {
                proof {
                    lemma_key_at(self.storages@, key, j as int);
                }
                let st = self.storages[j].1.state;
                match st {
                    BorrowState::Shared(n) => {
                        let entry = &mut self.storages[j];
                        entry.1.state = if n <= 1 {
                            BorrowState::Free
                        } else {
                            BorrowState::Shared(n - 1)
                        };
                        proof {
                            let pre = *old(self);
                            let post = *self;
                            assert(post.storages@ =~= pre.storages@.update(
                                j as int,
                                (key, post.storages@[j as int].1),
                            ));
                            lemma_update_entry(pre.storages@, post.storages@, j as int);
                        }
                    },
                    _ => {},
                }
            },
        }
    }

    /// Takes the exclusive borrow of the storage of kind `key` and returns
    /// its slots checked out for mutation; the edited slots are checked
    /// back in by `release_component_vec_mut`.
    ///
    /// An unregistered kind is a distinguishable `Ok(None)`, not an error.
    /// Fails, changing nothing, exactly when any borrow of the kind is
    /// live.
    pub fn borrow_component_vec_mut(&mut self, key: u64) -> (r: Result<
        Option<Vec<Option<V>>>,
        BorrowError,
    >)
        requires
            old(self).wf(),
        ensures
            final(self).wf(),
            final(self).entity_count() == old(self).entity_count(),
            same_resources(*old(self), *final(self)),
            r is Err <==> old(self).has_storage(key) && !old(self).storage_state(
                key,
            ).allows_exclusive(),
            r is Err ==> *final(self) == *old(self),
            r matches Err(e) ==> e == (BorrowError { key }),
            !old(self).has_storage(key) ==> (r matches Ok(o) && o is None && *final(self)
                == *old(self)),
            old(self).has_storage(key) && old(self).storage_state(key).allows_exclusive() ==> (
            r matches Ok(Some(v)) && v@ == old(self).storage_slots(key)),
            forall|k: u64| #[trigger] final(self).has_storage(k) == old(self).has_storage(k),
            forall|k: u64|
                old(self).has_storage(k) ==> #[trigger] final(self).storage_slots(k) == old(
                    self,
                ).storage_slots(k),
            forall|k: u64|
                k != key ==> #[trigger] final(self).storage_state(k) == old(self).storage_state(k),
            final(self).storage_state(key) == (if r is Ok && old(self).has_storage(key) {
                BorrowState::Exclusive
            } else {
                old(self).storage_state(key)
            }),
    {
        match self.find_storage(key) {
            None => Ok(None),
            Some(j) => {
                proof {
                    lemma_key_at(self.storages@, key, j as int);
                }
                if !(self.storages[j].1.state == BorrowState::Free) {
                    return Err(BorrowError { key });
                }
                let checkout = Self::clone_slots(&self.storages[j].1.slots);
                let entry = &mut self.storages[j];
                entry.1.state = BorrowState::Exclusive;
                proof {
                    let pre = *old(self);
                    let post = *self;
                    assert(post.storages@ =~= pre.storages@.update(
                        j as int,
                        (key, post.storages@[j as int].1),
                    ));
                    lemma_update_entry(pre.storages@, post.storages@, j as int);
                }
                Ok(Some(checkout))
            },
        }
    }

    /// Checks edited slots back into the storage of kind `key` and frees
    /// its exclusive borrow; the slots are fitted to the current entity
    /// count, so the storage invariant holds even if entities were created
    /// while the borrow was live. Releasing a kind whose storage is not
    /// exclusively borrowed changes nothing.
    pub fn release_component_vec_mut(&mut self, key: u64, slots: Vec<Option<V>>)
        requires
            old(self).wf(),
        ensures
            final(self).wf(),
            final(self).entity_count() == old(self).entity_count(),
            same_resources(*old(self), *final(self)),
            forall|k: u64| #[trigger] final(self).has_storage(k) == old(self).has_storage(k),
            old(self).storage_state(key) != BorrowState::Exclusive ==> *final(self) == *old(self),
            old(self).storage_state(key) == BorrowState::Exclusive ==> final(self).storage_slots(
                key,
            ) == resized(slots@, old(self).entity_count()) && final(self).storage_state(key)
                == BorrowState::Free,
            forall|k: u64|
                k != key && old(self).has_storage(k) ==> #[trigger] final(self).storage_slots(k)
                    == old(self).storage_slots(k),
            forall|k: u64|
                k != key ==> #[trigger] final(self).storage_state(k) == old(self).storage_state(k),
    {
        match self.find_storage(key) {
            None => {},
            Some(j) => {
                proof {
                    lemma_key_at(self.storages@, key, j as int);
                }
                if self.storages[j].1.state == BorrowState::Exclusive {
                    let n = self.num_entities;
                    let mut fitted: Vec<Option<V>> = Vec::new();
                    let mut i: usize = 0;
                    while i < n
                        invariant
                            i <= n,
                            fitted@ == resized(slots@, n as nat).subrange(0, i as int),
                        decreases n - i,
                    {
                        let x = if i < slots.len() {
                            slots[i]
                        } else {
                            None
                        };
                        fitted.push(x);
                        proof {
                            assert(fitted@ =~= resized(slots@, n as nat).subrange(
                                0,
                                i as int + 1,
                            ));
                        }
                        i = i + 1;
                    }
                    proof {
                        assert(fitted@ =~= resized(slots@, n as nat));
                    }
                    let entry = &mut self.storages[j];
                    entry.1.slots = fitted;
                    entry.1.state = BorrowState::Free;
                    proof {
                        let pre = *old(self);
                        let post = *self;
                        assert(post.storages@ =~= pre.storages@.update(
                            j as int,
                            (key, post.storages@[j as int].1),
                        ));
                        lemma_update_entry(pre.storages@, post.storages@, j as int);
                    }
                }
            },
        }
    }
}

impl<V> World<V> {
    /// Inserts the singleton resource of kind `key`, replacing (not
    /// merging with) any value previously stored under the kind and
    /// freeing the kind's borrow flag.
    pub fn add_resource(&mut self, key: u64, value: V)
        requires
            old(self).wf(),
        ensures
            final(self).wf(),
            final(self).entity_count() == old(self).entity_count(),
            same_storages(*old(self), *final(self)),
            final(self).has_resource(key),
            final(self).resource_value(key) == value,
            final(self).resource_state(key) == BorrowState::Free,
            forall|k: u64|
                k != key ==> #[trigger] final(self).has_resource(k) == old(self).has_resource(k),
            forall|k: u64|
                k != key && old(self).has_resource(k) ==> #[trigger] final(self).resource_value(k)
                    == old(self).resource_value(k),
            forall|k: u64|
                k != key ==> #[trigger] final(self).resource_state(k) == old(self).resource_state(
                    k,
                ),
    {
        match self.find_resource(key) {
            None => {
                proof {
                    lemma_push_entry(
                        self.resources@,
                        key,
                        ResourceCell { value, state: BorrowState::Free },
                    );
                }
                self.resources.push((key, ResourceCell { value, state: BorrowState::Free }));
            },
            Some(j) => {
                proof {
                    lemma_key_at(self.resources@, key, j as int);
                }
                let entry = &mut self.resources[j];
                entry.1 = ResourceCell { value, state: BorrowState::Free };
                proof {
                    let pre = *old(self);
                    let post = *self;
                    assert(post.resources@ =~= pre.resources@.update(
                        j as int,
                        (key, post.resources@[j as int].1),
                    ));
                    lemma_update_entry(pre.resources@, post.resources@, j as int);
                }
            },
        }
    }
}

impl<V: Copy> World<V> {
    /// Takes a shared borrow of the resource of kind `key`, raising the
    /// kind's reader count until `release_resource` is called; the guard
    /// carries a snapshot of the value.
    ///
    /// An absent kind is a distinguishable `Ok(None)`, not an error.
    /// Fails, changing nothing, exactly when the resource is exclusively
    /// borrowed or its reader count is saturated.
    pub fn get_resource(&mut self, key: u64) -> (r: Result<Option<Res<V>>, BorrowError>)
        requires
            old(self).wf(),
        ensures
            final(self).wf(),
            final(self).entity_count() == old(self).entity_count(),
            same_storages(*old(self), *final(self)),
            r is Err <==> old(self).has_resource(key) && !old(self).resource_state(
                key,
            ).allows_shared(),
            r is Err ==> *final(self) == *old(self),
            r matches Err(e) ==> e == (BorrowError { key }),
            !old(self).has_resource(key) ==> (r matches Ok(o) && o is None && *final(self)
                == *old(self)),
            old(self).has_resource(key) && old(self).resource_state(key).allows_shared() ==> (
            r matches Ok(Some(res)) && res.value == old(self).resource_value(key)),
            forall|k: u64| #[trigger] final(self).has_resource(k) == old(self).has_resource(k),
            forall|k: u64|
                old(self).has_resource(k) ==> #[trigger] final(self).resource_value(k) == old(
                    self,
                ).resource_value(k),
            forall|k: u64|
                k != key ==> #[trigger] final(self).resource_state(k) == old(self).resource_state(
                    k,
                ),
            final(self).resource_state(key) == (if r is Ok && old(self).has_resource(key) {
                old(self).resource_state(key).plus_shared()
            } else {
                old(self).resource_state(key)
            }),
    {
        match self.find_resource(key) {
            None => Ok(None),
            Some(j) => {
                proof {
                    lemma_key_at(self.resources@, key, j as int);
                }
                let st = self.resources[j].1.state;
                let new_state = match st {
                    BorrowState::Free => BorrowState::Shared(1),
                    BorrowState::Shared(n) => {
                        if n == u64::MAX {
                            return Err(BorrowError { key });
                        }
                        BorrowState::Shared(n + 1)
                    },
                    BorrowState::Exclusive => {
                        return Err(BorrowError { key });
                    },
                };
                let value = self.resources[j].1.value;
                let entry = &mut self.resources[j];
                entry.1.state = new_state;
                proof {
                    let pre = *old(self);
                    let post = *self;
                    assert(post.resources@ =~= pre.resources@.update(
                        j as int,
                        (key, post.resources@[j as int].1),
                    ));
                    lemma_update_entry(pre.resources@, post.resources@, j as int);
                }
                Ok(Some(Res { value }))
            },
        }
    }

    /// Releases one shared borrow of the resource of kind `key`, lowering
    /// its reader count. Releasing a kind with no live shared borrow
    /// changes nothing.
    pub fn release_resource(&mut self, key: u64)
        requires
            old(self).wf(),
        ensures
            final(self).wf(),
            final(self).entity_count() == old(self).entity_count(),
            same_storages(*old(self), *final(self)),
            forall|k: u64| #[trigger] final(self).has_resource(k) == old(self).has_resource(k),
            forall|k: u64|
                old(self).has_resource(k) ==> #[trigger] final(self).resource_value(k) == old(
                    self,
                ).resource_value(k),
            forall|k: u64|
                k != key ==> #[trigger] final(self).resource_state(k) == old(self).resource_state(
                    k,
                ),
            final(self).resource_state(key) == old(self).resource_state(key).minus_shared(),
    {
        match self.find_resource(key) {
            None => {},
            Some(j) => {
                proof {
                    lemma_key_at(self.resources@, key, j as int);
                }
                let st = self.resources[j].1.state;
                match st {
                    BorrowState::Shared(n) => {
                        let entry = &mut self.resources[j];
                        entry.1.state = if n <= 1 {
                            BorrowState::Free
                        } else {
                            BorrowState::Shared(n - 1)
                        };
                        proof {
                            let pre = *old(self);
                            let post = *self;
                            assert(post.resources@ =~= pre.resources@.update(
                                j as int,
                                (key, post.resources@[j as int].1),
                            ));
                            lemma_update_entry(pre.resources@, post.resources@, j as int);
                        }
                    },
                    _ => {},
                }
            },
        }
    }

    /// Takes the exclusive borrow of the resource of kind `key`, checking
    /// the value out for mutation; the edited value is checked back in by
    /// `release_resource_mut`.
    ///
    /// An absent kind is a distinguishable `Ok(None)`, not an error.
    /// Fails, changing nothing, exactly when any borrow of the kind is
    /// live.
    pub fn get_resource_mut(&mut self, key: u64) -> (r: Result<Option<ResMut<V>>, BorrowError>)
        requires
            old(self).wf(),
        ensures
            final(self).wf(),
            final(self).entity_count() == old(self).entity_count(),
            same_storages(*old(self), *final(self)),
            r is Err <==> old(self).has_resource(key) && !old(self).resource_state(
                key,
            ).allows_exclusive(),
            r is Err ==> *final(self) == *old(self),
            r matches Err(e) ==> e == (BorrowError { key }),
            !old(self).has_resource(key) ==> (r matches Ok(o) && o is None && *final(self)
                == *old(self)),
            old(self).has_resource(key) && old(self).resource_state(key).allows_exclusive() ==> (
            r matches Ok(Some(res)) && res.value == old(self).resource_value(key)),
            forall|k: u64| #[trigger] final(self).has_resource(k) == old(self).has_resource(k),
            forall|k: u64|
                old(self).has_resource(k) ==> #[trigger] final(self).resource_value(k) == old(
                    self,
                ).resource_value(k),
            forall|k: u64|
                k != key ==> #[trigger] final(self).resource_state(k) == old(self).resource_state(
                    k,
                ),
            final(self).resource_state(key) == (if r is Ok && old(self).has_resource(key) {
                BorrowState::Exclusive
            } else {
                old(self).resource_state(key)
            }),
    {
        match self.find_resource(key) {
            None => Ok(None),
            Some(j) => {
                proof {
                    lemma_key_at(self.resources@, key, j as int);
                }
                if !(self.resources[j].1.state == BorrowState::Free) {
                    return Err(BorrowError { key });
                }
                let value = self.resources[j].1.value;
                let entry = &mut self.resources[j];
                entry.1.state = BorrowState::Exclusive;
                proof {
                    let pre = *old(self);
                    let post = *self;
                    assert(post.resources@ =~= pre.resources@.update(
                        j as int,
                        (key, post.resources@[j as int].1),
                    ));
                    lemma_update_entry(pre.resources@, post.resources@, j as int);
                }
                Ok(Some(ResMut { value }))
            },
        }
    }

    /// Checks an edited resource value back into the cell of kind `key`
    /// and frees its exclusive borrow. Releasing a kind whose resource is
    /// not exclusively borrowed changes nothing.
    pub fn release_resource_mut(&mut self, key: u64, guard: ResMut<V>)
        requires
            old(self).wf(),
        ensures
            final(self).wf(),
            final(self).entity_count() == old(self).entity_count(),
            same_storages(*old(self), *final(self)),
            old(self).resource_state(key) != BorrowState::Exclusive
                ==> *final(self) == *old(self),
            old(self).resource_state(key) == BorrowState::Exclusive
                ==> final(self).resource_value(key) == guard.value
                    && final(self).resource_state(key) == BorrowState::Free,
            forall|k: u64| #[trigger] final(self).has_resource(k) == old(self).has_resource(k),
            forall|k: u64|
                k != key && old(self).has_resource(k) ==> #[trigger] final(self).resource_value(k)
                    == old(self).resource_value(k),
            forall|k: u64|
                k != key ==> #[trigger] final(self).resource_state(k) == old(self).resource_state(
                    k,
                ),
    {
        match self.find_resource(key) {
            None => {},
            Some(j) => {
                proof {
                    lemma_key_at(self.resources@, key, j as int);
                }
                if self.resources[j].1.state == BorrowState::Exclusive {
                    let entry = &mut self.resources[j];
                    entry.1 = ResourceCell { value: guard.value, state: BorrowState::Free };
                    proof {
                        let pre = *old(self);
                        let post = *self;
                        assert(post.resources@ =~= pre.resources@.update(
                            j as int,
                            (key, post.resources@[j as int].1),
                        ));
                        lemma_update_entry(pre.resources@, post.resources@, j as int);
                    }
                }
            },
        }
    }
}

} // verus!
