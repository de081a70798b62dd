//! `MyHashSet1`: a hash set with open addressing over a fixed table.
//!
//! A key hashes to a home slot; the search for it looks at the home slot
//! and the slots after it, wrapping around, at most `PROBES` of them.  A
//! removed key leaves a `Deleted` marker so that later searches go on past
//! it; an `Empty` slot ends a search.
use std::collections::hash_map::DefaultHasher;
use std::hash::Hash;
use std::hash::Hasher;

use vstd::prelude::*;
use vstd::std_specs::cmp::PartialEqSpec;
use vstd::std_specs::hash::DefaultHasherAdditionalSpecFns;

use crate::vec::MyVec;

verus! {

/// The number of slots in the table.
pub const TABLE_SIZE: usize = 10000;

/// How many slots a search looks at, starting at the home slot.
pub const PROBES: usize = 20;

/// One slot of the table.
pub enum HashElement<T> {
    Empty,
    Deleted,
    Valid(T),
}

/// The slot that a search starting at `home` looks at in step `i`.
pub open spec fn probe_at(home: int, i: int) -> int {
    (home + i) % (TABLE_SIZE as int)
}

/// The home slot of a key whose hash is `hash`.
pub open spec fn home_of(hash: u64) -> int {
    (hash % (TABLE_SIZE as u64)) as int
}

/// `==` on keys is an equivalence (reflexive, symmetric, transitive), as
/// `Eq` promises.
pub open spec fn eq_is_equivalence<T: PartialEq>() -> bool {
    &&& T::obeys_eq_spec()
    &&& forall|x: T| #[trigger] x.eq_spec(&x)
    &&& forall|x: T, y: T| #[trigger] x.eq_spec(&y) ==> y.eq_spec(&x)
    &&& forall|x: T, y: T, z: T| #[trigger] x.eq_spec(&y) && #[trigger] y.eq_spec(&z) ==> x.eq_spec(&z)
}

/// Where a search for `key` from `home` finds it, looking from step `i` on:
/// the first slot holding a key equal to `key`, met before an `Empty` slot
/// within the probes.
pub open spec fn match_slot<T: PartialEq>(table: Seq<HashElement<T>>, home: int, key: T, i: nat) -> Option<int>
    decreases PROBES - i,
{
    if i >= PROBES {
        None
    } else {
        let p = probe_at(home, i as int);
        match table[p] {
            HashElement::Valid(v) => if v.eq_spec(&key) {
                Some(p)
            } else {
                match_slot(table, home, key, i + 1)
            },
            HashElement::Empty => None,
            HashElement::Deleted => match_slot(table, home, key, i + 1),
        }
    }
}

/// The first slot from step `i` on, within the probes from `home`, that
/// holds no key.
pub open spec fn free_slot<T>(table: Seq<HashElement<T>>, home: int, i: nat) -> Option<int>
    decreases PROBES - i,
{
    if i >= PROBES {
        None
    } else {
        let p = probe_at(home, i as int);
        if table[p] is Valid {
            free_slot(table, home, i + 1)
        } else {
            Some(p)
        }
    }
}

/// The table after adding `key` with home slot `home`: unchanged when the
/// search finds the key or no probed slot is free; otherwise the key goes
/// into the first free probed slot.
pub open spec fn added<T: PartialEq>(table: Seq<HashElement<T>>, home: int, key: T) -> Seq<HashElement<T>> {
    if match_slot(table, home, key, 0) is Some {
        table
    } else {
        match free_slot(table, home, 0) {
            Some(p) => table.update(p, HashElement::Valid(key)),
            None => table,
        }
    }
}

/// The table after removing `key` with home slot `home`: the slot where the
/// search finds it becomes `Deleted`.
pub open spec fn removed<T: PartialEq>(table: Seq<HashElement<T>>, home: int, key: T) -> Seq<HashElement<T>> {
    match match_slot(table, home, key, 0) {
        Some(p) => table.update(p, HashElement::Deleted),
        None => table,
    }
}

/// Slot `p` holds a key equal to `key`.
pub open spec fn holds_at<T: PartialEq>(table: Seq<HashElement<T>>, p: int, key: T) -> bool {
    &&& 0 <= p < table.len()
    &&& table[p] matches HashElement::Valid(v) && v.eq_spec(&key)
}

/// Some slot of the table holds a key equal to `key`.
pub open spec fn holds<T: PartialEq>(table: Seq<HashElement<T>>, key: T) -> bool {
    exists|p: int| #[trigger] holds_at(table, p, key)
}

/// A hash set of at most `TABLE_SIZE` keys.
pub struct MyHashSet1<T> {
    my_vec: MyVec<HashElement<T>>,
}

impl<T> View for MyHashSet1<T> {
    type V = Seq<HashElement<T>>;

    /// The table, slot by slot.
    closed spec fn view(&self) -> Seq<HashElement<T>> {
        self.my_vec@
    }
}

/// Feeds `key` to `state` through the key's `Hash` impl.
///
/// Calls `Hash::hash`.  Nothing is stated about what it writes to the
/// hasher: that is up to the key type's impl, and for integers it depends
/// on the machine's byte order.
#[verifier::external_body]
fn hash_into<T: Hash>(key: &T, state: &mut DefaultHasher) {
    key.hash(state);
}

impl<T> MyHashSet1<T> where T: PartialEq + Eq + Hash {
    /// The table has `TABLE_SIZE` slots, and `==` on keys is an equivalence.
    pub closed spec fn wf(&self) -> bool {
        &&& self.my_vec.wf()
        &&& self.my_vec@.len() == TABLE_SIZE
        &&& eq_is_equivalence::<T>()
    }

    /// A well-formed set has `TABLE_SIZE` slots.
    pub proof fn lemma_wf_size(&self)
        requires
            self.wf(),
        ensures
            self@.len() == TABLE_SIZE,
    {
    }

    /// A set whose slots are all `Empty`.
    pub fn new() -> (s: Self)
        requires
            eq_is_equivalence::<T>(),
        ensures
            s.wf(),
            s@ == Seq::new(TABLE_SIZE as nat, |i: int| HashElement::<T>::Empty),
    {
        let mut vec: MyVec<HashElement<T>> = MyVec::new(Some(TABLE_SIZE));
        let mut i: usize = 0;
        while i < TABLE_SIZE
            invariant
                i <= TABLE_SIZE,
                vec.wf(),
                vec.reserve_spec() == TABLE_SIZE,
                vec@.len() == i,
                i > 0 ==> vec.capacity_spec() == TABLE_SIZE,
                i == 0 ==> vec.capacity_spec() == 0,
                forall|j: int| 0 <= j < i ==> vec@[j] == HashElement::<T>::Empty,
            decreases TABLE_SIZE - i,
        {
            vec.push_back(HashElement::Empty);
            i = i + 1;
        }
        let s = MyHashSet1 { my_vec: vec };
        assert(s@ =~= Seq::new(TABLE_SIZE as nat, |i: int| HashElement::<T>::Empty));
        s
    }

    /// The hash of `key` under the default hasher: its digest of the bytes
    /// that the key's `Hash` impl wrote to it.
    fn key_hash(key: &T) -> (h: u64)
        ensures
            exists|writes: Seq<Seq<u8>>| h == DefaultHasher::spec_finish(writes),
    {
        let mut hasher = DefaultHasher::new();
        hash_into(key, &mut hasher);
        hasher.finish()
    }

    /// The slots a search from the home slot of `hash` looks at, in order.
    fn probes_for(&self, hash: u64) -> (ret: MyVec<usize>)
        requires
            self.wf(),
        ensures
            ret.wf(),
            ret@.len() == PROBES,
            forall|i: int| 0 <= i < PROBES ==> ret@[i] == probe_at(home_of(hash), i),
    {
        let slot = hash % (self.my_vec.len() as u64);
        let mut ret: MyVec<usize> = MyVec::new(Some(10));
        let mut probe: u64 = 0;
        while probe < PROBES as u64
            invariant
                slot == home_of(hash),
                self.my_vec@.len() == TABLE_SIZE,
                probe <= PROBES,
                ret.wf(),
                ret@.len() == probe,
                ret.reserve_spec() == 10,
                ret.capacity_spec() <= 40,
                forall|i: int| 0 <= i < probe ==> ret@[i] == probe_at(home_of(hash), i),
            decreases PROBES - probe,
        {
            ret.push_back(((slot + probe) % (self.my_vec.len() as u64)) as usize);
            probe = probe + 1;
        }
        ret
    }

    /// Whether a search from the home slot of `hash` finds `key`.
    pub fn contains_with_hash(&self, hash: u64, key: &T) -> (found: bool)
        requires
            self.wf(),
        ensures
            found == match_slot(self@, home_of(hash), *key, 0) is Some,
    {
        let probes = self.probes_for(hash);
        let ps = probes.as_slice();
        let table = self.my_vec.as_slice();
        let mut found = false;
        let mut i: usize = 0;
        while i < PROBES
            invariant_except_break
                !found,
                match_slot(self@, home_of(hash), *key, 0) == match_slot(
                    self@,
                    home_of(hash),
                    *key,
                    i as nat,
                ),
            invariant
                i <= PROBES,
                ps@.len() == PROBES,
                table@ == self@,
                table@.len() == TABLE_SIZE,
                forall|j: int| 0 <= j < PROBES ==> ps@[j] == probe_at(home_of(hash), j),
                eq_is_equivalence::<T>(),
            ensures
                found == match_slot(self@, home_of(hash), *key, 0) is Some,
            decreases PROBES - i,
        {
            let probe = ps[i];
            match &table[probe] {
                HashElement::Valid(rval) => {
                    if rval.eq(key) {
                        found = true;
                        break ;
                    }
                },
                HashElement::Empty => break ,
                HashElement::Deleted => {},
            }
            i = i + 1;
        }
        found
    }

    /// Whether `key` is in the set: a search from its home slot finds it.
    pub fn contains(&self, key: &T) -> (found: bool)
        requires
            self.wf(),
        ensures
            exists|writes: Seq<Seq<u8>>|
                found == (match_slot(
                    self@,
                    home_of(DefaultHasher::spec_finish(writes)),
                    *key,
                    0,
                ) is Some),
            found ==> holds(self@, *key),
    {
        let hash = Self::key_hash(key);
        let found = self.contains_with_hash(hash, key);
        proof {
            lemma_match_slot_holds(self@, home_of(hash), *key, 0);
        }
        found
    }
    /// Marks `Deleted` the slot where a search from the home slot of `hash`
    /// finds `key`.
    pub fn remove_with_hash(&mut self, hash: u64, key: &T)
        requires
            old(self).wf(),
        ensures
            final(self).wf(),
            final(self)@ == removed(old(self)@, home_of(hash), *key),
    {
        let probes = self.probes_for(hash);
        let mut i: usize = 0;
        while i < PROBES
            invariant_except_break
                self@ == old(self)@,
                match_slot(old(self)@, home_of(hash), *key, 0) == match_slot(
                    old(self)@,
                    home_of(hash),
                    *key,
                    i as nat,
                ),
            invariant
                i <= PROBES,
                self.wf(),
                probes@.len() == PROBES,
                forall|j: int| 0 <= j < PROBES ==> probes@[j] == probe_at(home_of(hash), j),
            ensures
                self.wf(),
                self@ == removed(old(self)@, home_of(hash), *key),
            decreases PROBES - i,
        {
            let probe = probes.as_slice()[i];
            let table = self.my_vec.as_slice();
            let (is_match, is_empty) = match &table[probe] {
                HashElement::Valid(rval) => (rval.eq(key), false),
                HashElement::Empty => (false, true),
                HashElement::Deleted => (false, false),
            };
            if is_match {
                self.my_vec.set(probe, HashElement::Deleted);
                break ;
            }
            if is_empty {
                break ;
            }
            i = i + 1;
        }
    }

    /// Adds `key` with the home slot of `hash`, unless a search from there
    /// finds it already: it goes into the first probed slot that holds no key.
    pub fn add_with_hash(&mut self, hash: u64, key: T)
        requires
            old(self).wf(),
        ensures
            final(self).wf(),
            final(self)@ == added(old(self)@, home_of(hash), key),
    {
        if self.contains_with_hash(hash, &key) {
            return ;
        }
        let probes = self.probes_for(hash);
        let mut i: usize = 0;
        while i < PROBES
            invariant_except_break
                self@ == old(self)@,
                free_slot(old(self)@, home_of(hash), 0) == free_slot(
                    old(self)@,
                    home_of(hash),
                    i as nat,
                ),
            invariant
                i <= PROBES,
                self.wf(),
                probes@.len() == PROBES,
                forall|j: int| 0 <= j < PROBES ==> probes@[j] == probe_at(home_of(hash), j),
                match_slot(old(self)@, home_of(hash), key, 0) is None,
            ensures
                self.wf(),
                self@ == added(old(self)@, home_of(hash), key),
            decreases PROBES - i,
        {
            let probe = probes.as_slice()[i];
            let occupied = match &self.my_vec.as_slice()[probe] {
                HashElement::Valid(_) => true,
                _ => false,
            };
            if !occupied {
                self.my_vec.set(probe, HashElement::Valid(key));
                break ;
            }
            i = i + 1;
        }
    }

    /// Removes `key`: the slot where a search from its home slot finds it
    /// becomes `Deleted`.
    pub fn remove(&mut self, key: &T)
        requires
            old(self).wf(),
        ensures
            final(self).wf(),
            exists|writes: Seq<Seq<u8>>|
                final(self)@ == removed(
                    old(self)@,
                    home_of(DefaultHasher::spec_finish(writes)),
                    *key,
                ),
            forall|k: T| !k.eq_spec(key) ==> holds(final(self)@, k) == holds(old(self)@, k),
    {
        let hash = Self::key_hash(key);
        self.remove_with_hash(hash, key);
        proof {
            lemma_removed_keeps_others(old(self)@, home_of(hash), *key);
        }
    }

    /// Adds `key`, unless a search from its home slot finds it already or
    /// none of the probed slots is free.
    pub fn add(&mut self, key: T)
        requires
            old(self).wf(),
        ensures
            final(self).wf(),
            exists|writes: Seq<Seq<u8>>|
                final(self)@ == added(
                    old(self)@,
                    home_of(DefaultHasher::spec_finish(writes)),
                    key,
                ),
            holds(final(self)@, key) || final(self)@ == old(self)@,
            forall|k: T| !k.eq_spec(&key) ==> holds(final(self)@, k) == holds(old(self)@, k),
    {
        let hash = Self::key_hash(&key);
        let ghost k = key;
        self.add_with_hash(hash, key);
        proof {
            lemma_added_keeps_others(old(self)@, home_of(hash), k);
        }
    }
}

/// A slot that `free_slot` picks holds no key.
pub proof fn lemma_free_slot_free<T>(table: Seq<HashElement<T>>, home: int, i: nat)
    requires
        table.len() == TABLE_SIZE,
        0 <= home < TABLE_SIZE,
    ensures
        free_slot(table, home, i) matches Some(p) ==> 0 <= p < table.len() && !(table[p] is Valid),
    decreases PROBES - i,
{
    if i < PROBES {
        lemma_free_slot_free(table, home, i + 1);
    }
}

/// A slot that a search finds holds a key equal to the one searched for.
pub proof fn lemma_match_slot_holds<T: PartialEq>(
    table: Seq<HashElement<T>>,
    home: int,
    key: T,
    i: nat,
)
    requires
        table.len() == TABLE_SIZE,
        0 <= home < TABLE_SIZE,
    ensures
        match_slot(table, home, key, i) matches Some(p) ==> holds_at(table, p, key),
    decreases PROBES - i,
{
    if i < PROBES {
        lemma_match_slot_holds(table, home, key, i + 1);
    }
}

/// Adding a key leaves every key not equal to it as it was; afterwards the
/// key is held, or the table did not change.
pub proof fn lemma_added_keeps_others<T: PartialEq>(table: Seq<HashElement<T>>, home: int, key: T)
    requires
        table.len() == TABLE_SIZE,
        0 <= home < TABLE_SIZE,
        eq_is_equivalence::<T>(),
    ensures
        holds(added(table, home, key), key) || added(table, home, key) == table,
        forall|k: T| !k.eq_spec(&key) ==> holds(added(table, home, key), k) == holds(table, k),
{
    let t = added(table, home, key);
    lemma_match_slot_holds(table, home, key, 0);
    lemma_free_slot_free(table, home, 0);
    if match_slot(table, home, key, 0) is None {
        if let Some(p) = free_slot(table, home, 0) {
            assert(key.eq_spec(&key));
            assert(holds_at(t, p, key));
            assert forall|k: T| !k.eq_spec(&key) implies holds(t, k) == holds(table, k) by {
                if holds(table, k) {
                    let q = choose|q: int| #[trigger] holds_at(table, q, k);
                    assert(holds_at(t, q, k));
                }
                if holds(t, k) {
                    let q = choose|q: int| #[trigger] holds_at(t, q, k);
                    if q == p {
                        assert(key.eq_spec(&k));
                        assert(k.eq_spec(&key));
                    }
                    assert(holds_at(table, q, k));
                }
            }
        }
    }
}

/// Removing a key leaves every key not equal to it as it was.
pub proof fn lemma_removed_keeps_others<T: PartialEq>(
    table: Seq<HashElement<T>>,
    home: int,
    key: T,
)
    requires
        table.len() == TABLE_SIZE,
        0 <= home < TABLE_SIZE,
        eq_is_equivalence::<T>(),
    ensures
        forall|k: T| !k.eq_spec(&key) ==> holds(removed(table, home, key), k) == holds(table, k),
{
    let t = removed(table, home, key);
    lemma_match_slot_holds(table, home, key, 0);
    if let Some(p) = match_slot(table, home, key, 0) {
        assert forall|k: T| !k.eq_spec(&key) implies holds(t, k) == holds(table, k) by {
            if holds(table, k) {
                let q = choose|q: int| #[trigger] holds_at(table, q, k);
                if q == p {
                    let v = table[p]->Valid_0;
                    assert(v.eq_spec(&key) && v.eq_spec(&k));
                    assert(k.eq_spec(&v));
                    assert(k.eq_spec(&key));
                }
                assert(holds_at(t, q, k));
            }
            if holds(t, k) {
                let q = choose|q: int| #[trigger] holds_at(t, q, k);
                assert(holds_at(table, q, k));
            }
        }
    }
}

/// Slot `p` is step `i` of the search from `home`, and no earlier step of
/// that search meets an `Empty` slot.
pub open spec fn reached_at<T>(table: Seq<HashElement<T>>, home: int, p: int, i: int) -> bool {
    &&& 0 <= i < PROBES
    &&& probe_at(home, i) == p
    &&& forall|j: int| 0 <= j < i ==> !(#[trigger] table[probe_at(home, j)] is Empty)
}

/// The table agrees with the home slots `home` gives, and `home` gives equal
/// keys one home slot: each key sits in a slot that the search from its home
/// slot reaches, and no two slots hold equal keys.
pub open spec fn placed_by<T: PartialEq>(table: Seq<HashElement<T>>, home: spec_fn(T) -> int) -> bool {
    &&& table.len() == TABLE_SIZE
    &&& forall|k: T| 0 <= #[trigger] home(k) < TABLE_SIZE
    &&& forall|x: T, y: T| #[trigger] x.eq_spec(&y) ==> home(x) == home(y)
    &&& forall|p: int|
        0 <= p < table.len() ==> (#[trigger] table[p] matches HashElement::Valid(v) ==> exists|i: int|
            #[trigger] reached_at(table, home(v), p, i))
    &&& forall|p: int, q: int, k: T|
        #[trigger] holds_at(table, p, k) && #[trigger] holds_at(table, q, k) ==> p == q
}

/// A search from `home` finds `key` from any step up to one that reaches a
/// slot holding it.
proof fn lemma_match_slot_reaches<T: PartialEq>(
    table: Seq<HashElement<T>>,
    home: int,
    key: T,
    p: int,
    i: int,
    j: nat,
)
    requires
        table.len() == TABLE_SIZE,
        0 <= home < TABLE_SIZE,
        holds_at(table, p, key),
        reached_at(table, home, p, i),
        j <= i,
    ensures
        match_slot(table, home, key, j) is Some,
    decreases i - j,
{
    if j < i {
        lemma_match_slot_reaches(table, home, key, p, i, j + 1);
        let q = probe_at(home, j as int);
        assert(!(table[q] is Empty));
    }
}

/// A table that starts all `Empty` agrees with every choice of home slots
/// that gives equal keys one home slot.
pub proof fn lemma_empty_placed<T: PartialEq>(home: spec_fn(T) -> int)
    requires
        forall|k: T| 0 <= #[trigger] home(k) < TABLE_SIZE,
        forall|x: T, y: T| #[trigger] x.eq_spec(&y) ==> home(x) == home(y),
    ensures
        placed_by(Seq::new(TABLE_SIZE as nat, |i: int| HashElement::<T>::Empty), home),
{
}

/// When the table agrees with the home slots, a search from the home slot
/// of `key` finds it exactly when the table holds a key equal to it.
pub proof fn lemma_placed_search_exact<T: PartialEq>(
    table: Seq<HashElement<T>>,
    home: spec_fn(T) -> int,
    key: T,
)
    requires
        placed_by(table, home),
    ensures
        match_slot(table, home(key), key, 0) is Some <==> holds(table, key),
{
    lemma_match_slot_holds(table, home(key), key, 0);
    if holds(table, key) {
        let p = choose|p: int| #[trigger] holds_at(table, p, key);
        let v = table[p]->Valid_0;
        assert(v.eq_spec(&key));
        assert(home(v) == home(key));
        assert(table[p] matches HashElement::Valid(w) && w == v);
        let i = choose|i: int| #[trigger] reached_at(table, home(v), p, i);
        lemma_match_slot_reaches(table, home(key), key, p, i, 0);
    }
}

/// The slot `free_slot` picks is reached by the search, every earlier
/// step meeting a key.
proof fn lemma_free_slot_reached<T>(table: Seq<HashElement<T>>, home: int, i: nat)
    requires
        table.len() == TABLE_SIZE,
        0 <= home < TABLE_SIZE,
        i <= PROBES,
        forall|j: int| 0 <= j < i ==> #[trigger] table[probe_at(home, j)] is Valid,
    ensures
        free_slot(table, home, i) matches Some(p) ==> !(table[p] is Valid) && exists|s: int|
            #[trigger] reached_at(table, home, p, s),
    decreases PROBES - i,
{
    if i < PROBES {
        let p = probe_at(home, i as int);
        if table[p] is Valid {
            lemma_free_slot_reached(table, home, i + 1);
        } else {
            assert(reached_at(table, home, p, i as int));
        }
    }
}

/// Writing a key into a slot keeps every slot that was not `Empty` non-empty,
/// so every search that reached a slot still reaches it.
proof fn lemma_reached_kept<T>(
    table: Seq<HashElement<T>>,
    t: Seq<HashElement<T>>,
    home: int,
    q: int,
    i: int,
)
    requires
        t.len() == table.len(),
        forall|x: int| 0 <= x < table.len() && !(table[x] is Empty) ==> !(#[trigger] t[x] is Empty),
        0 <= home < TABLE_SIZE,
        table.len() == TABLE_SIZE,
        reached_at(table, home, q, i),
    ensures
        reached_at(t, home, q, i),
{
    assert forall|j: int| 0 <= j < i implies !(#[trigger] t[probe_at(home, j)] is Empty) by {
        assert(!(table[probe_at(home, j)] is Empty));
    }
}

/// Adding keeps the table in agreement with the home slots; afterwards a key
/// equal to the one added is held exactly when one was already, or a probed
/// slot was free; keys not equal to it stay as they were.
pub proof fn lemma_placed_add<T: PartialEq>(
    table: Seq<HashElement<T>>,
    home: spec_fn(T) -> int,
    key: T,
)
    requires
        placed_by(table, home),
        eq_is_equivalence::<T>(),
    ensures
        placed_by(added(table, home(key), key), home),
        holds(added(table, home(key), key), key) <==> (holds(table, key) || free_slot(
            table,
            home(key),
            0,
        ) is Some),
        forall|k: T| !k.eq_spec(&key) ==> holds(added(table, home(key), key), k) == holds(table, k),
{
    let h = home(key);
    let t = added(table, h, key);
    lemma_added_keeps_others(table, h, key);
    lemma_placed_search_exact(table, home, key);
    if match_slot(table, h, key, 0) is None {
        lemma_free_slot_reached(table, h, 0);
        lemma_free_slot_free(table, h, 0);
        if let Some(p) = free_slot(table, h, 0) {
            assert(key.eq_spec(&key));
            assert(holds_at(t, p, key));
            assert forall|q: int|
                0 <= q < t.len() implies (#[trigger] t[q] matches HashElement::Valid(v) ==> exists|i: int|
                #[trigger] reached_at(t, home(v), q, i)) by {
                if let HashElement::Valid(v) = t[q] {
                    if q == p {
                        let i = choose|s: int| #[trigger] reached_at(table, h, p, s);
                        lemma_reached_kept(table, t, h, p, i);
                        assert(v == key);
                        assert(reached_at(t, home(v), q, i));
                    } else {
                        assert(table[q] == t[q]);
                        let i = choose|s: int| #[trigger] reached_at(table, home(v), q, s);
                        lemma_reached_kept(table, t, home(v), q, i);
                    }
                }
            }
            assert forall|a: int, b: int, k: T|
                #[trigger] holds_at(t, a, k) && #[trigger] holds_at(t, b, k) implies a == b by {
                if a != p && b != p {
                    assert(holds_at(table, a, k) && holds_at(table, b, k));
                } else if a == p && b != p {
                    let w = t[b]->Valid_0;
                    assert(key.eq_spec(&k) && w.eq_spec(&k));
                    assert(k.eq_spec(&key));
                    assert(w.eq_spec(&key));
                    assert(holds_at(table, b, key));
                } else if a != p && b == p {
                    let w = t[a]->Valid_0;
                    assert(key.eq_spec(&k) && w.eq_spec(&k));
                    assert(k.eq_spec(&key));
                    assert(w.eq_spec(&key));
                    assert(holds_at(table, a, key));
                }
            }
        }
    }
}

/// Removing keeps the table in agreement with the home slots, and
/// afterwards the table holds no key equal to the one removed; keys not
/// equal to it stay as they were.
pub proof fn lemma_placed_remove<T: PartialEq>(
    table: Seq<HashElement<T>>,
    home: spec_fn(T) -> int,
    key: T,
)
    requires
        placed_by(table, home),
        eq_is_equivalence::<T>(),
    ensures
        placed_by(removed(table, home(key), key), home),
        !holds(removed(table, home(key), key), key),
        !holds(table, key) ==> removed(table, home(key), key) == table,
        forall|k: T| !k.eq_spec(&key) ==> holds(removed(table, home(key), key), k) == holds(
            table,
            k,
        ),
{
    let h = home(key);
    let t = removed(table, h, key);
    lemma_removed_keeps_others(table, h, key);
    lemma_placed_search_exact(table, home, key);
    lemma_match_slot_holds(table, h, key, 0);
    if let Some(p) = match_slot(table, h, key, 0) {
        assert(t[p] == HashElement::<T>::Deleted);
        assert forall|q: int|
            0 <= q < t.len() implies (#[trigger] t[q] matches HashElement::Valid(v) ==> exists|i: int|
            #[trigger] reached_at(t, home(v), q, i)) by {
            if let HashElement::Valid(v) = t[q] {
                assert(table[q] == t[q]);
                let i = choose|s: int| #[trigger] reached_at(table, home(v), q, s);
                lemma_reached_kept(table, t, home(v), q, i);
            }
        }
        assert forall|a: int, b: int, k: T|
            #[trigger] holds_at(t, a, k) && #[trigger] holds_at(t, b, k) implies a == b by {
            assert(holds_at(table, a, k) && holds_at(table, b, k));
        }
        if holds(t, key) {
            let q = choose|q: int| #[trigger] holds_at(t, q, key);
            assert(holds_at(table, q, key));
            assert(holds_at(table, p, key));
        }
    }
}

} // verus!
