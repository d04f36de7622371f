//! Maps and sets kept in key order.
//!
//! Entries stand in a sorted vector and are found by bisection, so walking one
//! always gives the same order.

use vstd::prelude::*;

use crate::object::ObjectId;

verus! {

/// How two keys stand to each other.
#[derive(Clone, Copy, Debug, PartialEq, Eq, Structural)]
pub enum Order {
    Before,
    Same,
    After,
}

/// A type whose values can be told apart and put in order.
pub trait OrdKey: Sized {
    /// What the key is, apart from how it is held.
    type Name;

    spec fn name(&self) -> Self::Name;

    /// Whether one name comes before another.
    spec fn before(a: Self::Name, b: Self::Name) -> bool;

    /// Names are in strict total order.
    proof fn before_is_strict(a: Self::Name, b: Self::Name)
        ensures
            !(Self::before(a, b) && Self::before(b, a)),
            a == b || Self::before(a, b) || Self::before(b, a),
            a == b ==> !Self::before(a, b),
    ;

    proof fn before_is_transitive(a: Self::Name, b: Self::Name, c: Self::Name)
        requires
            Self::before(a, b),
            Self::before(b, c),
        ensures
            Self::before(a, c),
    ;

    fn compare(&self, other: &Self) -> (order: Order)
        ensures
            match order {
                Order::Before => Self::before(self.name(), other.name()),
                Order::Same => self.name() == other.name(),
                Order::After => Self::before(other.name(), self.name()),
            },
    ;
}

impl OrdKey for ObjectId {
    type Name = ObjectId;

    open spec fn name(&self) -> ObjectId {
        *self
    }

    open spec fn before(a: ObjectId, b: ObjectId) -> bool {
        a.precedes(b)
    }

    proof fn before_is_strict(a: ObjectId, b: ObjectId) {
    }

    proof fn before_is_transitive(a: ObjectId, b: ObjectId, c: ObjectId) {
    }

    fn compare(&self, other: &ObjectId) -> (order: Order) {
        if self.is_before(*other) {
            Order::Before
        } else if other.is_before(*self) {
            Order::After
        } else {
            Order::Same
        }
    }
}

impl OrdKey for u64 {
    type Name = u64;

    open spec fn name(&self) -> u64 {
        *self
    }

    open spec fn before(a: u64, b: u64) -> bool {
        a < b
    }

    proof fn before_is_strict(a: u64, b: u64) {
    }

    proof fn before_is_transitive(a: u64, b: u64, c: u64) {
    }

    fn compare(&self, other: &u64) -> (order: Order) {
        if *self < *other {
            Order::Before
        } else if *self > *other {
            Order::After
        } else {
            Order::Same
        }
    }
}

impl OrdKey for u128 {
    type Name = u128;

    open spec fn name(&self) -> u128 {
        *self
    }

    open spec fn before(a: u128, b: u128) -> bool {
        a < b
    }

    proof fn before_is_strict(a: u128, b: u128) {
    }

    proof fn before_is_transitive(a: u128, b: u128, c: u128) {
    }

    fn compare(&self, other: &u128) -> (order: Order) {
        if *self < *other {
            Order::Before
        } else if *self > *other {
            Order::After
        } else {
            Order::Same
        }
    }
}

/// Where a key stands in a run of entries.
pub open spec fn stands_at<K: OrdKey, V>(entries: Seq<(K, V)>, key: K::Name, i: int) -> bool {
    0 <= i < entries.len() && entries[i].0.name() == key
}

/// The map that a run of entries holds.
pub open spec fn held<K: OrdKey, V>(entries: Seq<(K, V)>) -> Map<K::Name, V> {
    Map::new(
        |key: K::Name| exists|i: int| stands_at(entries, key, i),
        |key: K::Name| entries[choose|i: int| stands_at(entries, key, i)].1,
    )
}

/// Each key comes before all that follow it.
pub open spec fn in_order<K: OrdKey, V>(entries: Seq<(K, V)>) -> bool {
    forall|i: int, j: int|
        0 <= i < j < entries.len() ==> K::before(
            (#[trigger] entries[i]).0.name(),
            (#[trigger] entries[j]).0.name(),
        )
}

/// In order, a key stands in one place only.
pub(crate) proof fn lemma_held<K: OrdKey, V>(entries: Seq<(K, V)>, i: int)
    requires
        in_order(entries),
        0 <= i < entries.len(),
    ensures
        held(entries).contains_key(entries[i].0.name()),
        held(entries)[entries[i].0.name()] == entries[i].1,
{
    let key = entries[i].0.name();
    assert(stands_at(entries, key, i));
    let j = choose|j: int| stands_at(entries, key, j);
    K::before_is_strict(entries[i].0.name(), entries[j].0.name());
}

/// Whether one of the first `n` entries is under `key`.
pub open spec fn keyed<K: OrdKey, V>(entries: Seq<(K, V)>, n: int, key: K::Name) -> bool {
    exists|i: int| 0 <= i < n && (#[trigger] entries[i]).0.name() == key
}

/// One entry more is under its own key.
pub(crate) proof fn lemma_keyed_next<K: OrdKey, V>(entries: Seq<(K, V)>, n: int)
    requires
        0 <= n < entries.len(),
    ensures
        forall|key: K::Name| #[trigger]
            keyed(entries, n + 1, key) <==> keyed(entries, n, key) || entries[n].0.name() == key,
{
    assert forall|key: K::Name| #[trigger] keyed(entries, n + 1, key) <==> keyed(entries, n, key)
        || entries[n].0.name() == key by {
        if keyed(entries, n, key) {
            let i = choose|i: int| 0 <= i < n && (#[trigger] entries[i]).0.name() == key;
            assert(entries[i].0.name() == key);
        }
        if entries[n].0.name() == key {
            assert(entries[n].0.name() == key);
        }
    }
}

/// All entries together are under the keys that they hold.
pub(crate) proof fn lemma_keyed_all<K: OrdKey, V>(entries: Seq<(K, V)>)
    ensures
        forall|key: K::Name| #[trigger]
            held(entries).contains_key(key) <==> keyed(entries, entries.len() as int, key),
{
    assert forall|key: K::Name| #[trigger] held(entries).contains_key(key) <==> keyed(
        entries,
        entries.len() as int,
        key,
    ) by {
        if held(entries).contains_key(key) {
            let i = choose|i: int| stands_at(entries, key, i);
            assert(entries[i].0.name() == key);
        }
        if keyed(entries, entries.len() as int, key) {
            let i = choose|i: int|
                0 <= i < entries.len() && (#[trigger] entries[i]).0.name() == key;
            assert(stands_at(entries, key, i));
        }
    }
}

/// A map kept in key order.
#[derive(Debug, PartialEq)]
pub struct OrdMap<K: OrdKey, V> {
    entries: Vec<(K, V)>,
}

impl<K: OrdKey, V> View for OrdMap<K, V> {
    type V = Map<K::Name, V>;

    closed spec fn view(&self) -> Map<K::Name, V> {
        held(self.entries@)
    }
}

impl<K: OrdKey, V> OrdMap<K, V> {
    #[verifier::type_invariant]
    spec fn is_sorted(self) -> bool {
        in_order(self.entries@)
    }

    /// The entries in key order.
    pub closed spec fn entries(self) -> Seq<(K, V)> {
        self.entries@
    }

    pub fn new() -> (map: Self)
        ensures
            map@ == Map::<K::Name, V>::empty(),
            map.entries() == Seq::<(K, V)>::empty(),
    {
        let map = OrdMap { entries: Vec::new() };
        assert(map@ =~= Map::<K::Name, V>::empty());
        map
    }

    /// The entries in key order, to walk.
    pub fn as_entries(&self) -> (entries: &Vec<(K, V)>)
        ensures
            entries@ == self.entries(),
            in_order(self.entries()),
            self@ == held(self.entries()),
            forall|i: int|
                0 <= i < self.entries().len() ==> self@.contains_key(
                    (#[trigger] self.entries()[i]).0.name(),
                ) && self@[self.entries()[i].0.name()] == self.entries()[i].1,
            self@.dom().finite(),
            self@.len() == self.entries().len(),
    {
        proof {
            use_type_invariant(self);
            assert forall|i: int| 0 <= i < self.entries().len() implies self@.contains_key(
                (#[trigger] self.entries()[i]).0.name(),
            ) && self@[self.entries()[i].0.name()] == self.entries()[i].1 by {
                lemma_held(self.entries@, i);
            }
            lemma_held_len(self.entries@);
        }
        &self.entries
    }

    pub fn len(&self) -> (n: usize)
        ensures
            n == self.entries().len(),
    {
        self.entries.len()
    }

    pub fn is_empty(&self) -> (empty: bool)
        ensures
            empty == (self@ == Map::<K::Name, V>::empty()),
            empty == (self.entries().len() == 0),
    {
        proof {
            if self.entries@.len() > 0 {
                use_type_invariant(self);
                lemma_held(self.entries@, 0);
            } else {
                assert(self@ =~= Map::<K::Name, V>::empty());
            }
        }
        self.entries.len() == 0
    }

    /// Where `key` stands, or where it would.
    fn find(&self, key: &K) -> (r: Result<usize, usize>)
        ensures
            match r {
                Ok(i) => i < self.entries@.len() && self.entries@[i as int].0.name() == key.name(),
                Err(i) => {
                    &&& i <= self.entries@.len()
                    &&& forall|j: int|
                        0 <= j < i ==> K::before((#[trigger] self.entries@[j]).0.name(), key.name())
                    &&& forall|j: int|
                        i <= j < self.entries@.len() ==> K::before(
                            key.name(),
                            (#[trigger] self.entries@[j]).0.name(),
                        )
                },
            },
    {
        proof {
            use_type_invariant(self);
        }
        let mut low: usize = 0;
        let mut high: usize = self.entries.len();
        while low < high
            invariant
                low <= high <= self.entries@.len(),
                in_order(self.entries@),
                forall|j: int|
                    0 <= j < low ==> K::before((#[trigger] self.entries@[j]).0.name(), key.name()),
                forall|j: int|
                    high <= j < self.entries@.len() ==> K::before(
                        key.name(),
                        (#[trigger] self.entries@[j]).0.name(),
                    ),
            decreases high - low,
        {
            let mid: usize = low + (high - low) / 2;
            match self.entries[mid].0.compare(key) {
                Order::Same => {
                    return Ok(mid);
                },
                Order::Before => {
                    proof {
                        let at = self.entries@[mid as int].0.name();
                        assert forall|j: int| 0 <= j < mid + 1 implies K::before(
                            (#[trigger] self.entries@[j]).0.name(),
                            key.name(),
                        ) by {
                            if j < mid {
                                K::before_is_transitive(
                                    self.entries@[j].0.name(),
                                    at,
                                    key.name(),
                                );
                            }
                        }
                    }
                    low = mid + 1;
                },
                Order::After => {
                    proof {
                        let at = self.entries@[mid as int].0.name();
                        assert forall|j: int| mid <= j < self.entries@.len() implies K::before(
                            key.name(),
                            (#[trigger] self.entries@[j]).0.name(),
                        ) by {
                            if mid < j {
                                K::before_is_transitive(
                                    key.name(),
                                    at,
                                    self.entries@[j].0.name(),
                                );
                            }
                        }
                    }
                    high = mid;
                },
            }
        }
        Err(low)
    }

    pub fn get(&self, key: &K) -> (value: Option<&V>)
        ensures
            match value {
                Some(value) => self@.contains_key(key.name()) && self@[key.name()] == *value,
                None => !self@.contains_key(key.name()),
            },
    {
        match self.find(key) {
            Ok(i) => {
                proof {
                    use_type_invariant(self);
                    lemma_held(self.entries@, i as int);
                }
                Some(&self.entries[i].1)
            },
            Err(i) => {
                proof {
                    lemma_absent(self.entries@, key.name(), i as int);
                }
                None
            },
        }
    }

    pub fn contains_key(&self, key: &K) -> (found: bool)
        ensures
            found == self@.contains_key(key.name()),
    {
        self.get(key).is_some()
    }

    /// Put `value` under `key`, handing back what stood there.
    pub fn insert(&mut self, key: K, value: V) -> (before: Option<V>)
        ensures
            final(self)@ == old(self)@.insert(key.name(), value),
            before == (if old(self)@.contains_key(key.name()) {
                Some(old(self)@[key.name()])
            } else {
                None
            }),
    {
        proof {
            use_type_invariant(&*self);
        }
        let ghost old_entries = self.entries@;
        let place = self.find(&key);
        let mut entries: Vec<(K, V)> = Vec::new();
        std::mem::swap(&mut entries, &mut self.entries);
        let ghost name = key.name();
        let before: Option<V>;
        match place {
            Ok(i) => {
                let (_, earlier) = entries.remove(i);
                entries.insert(i, (key, value));
                proof {
                    lemma_held(old_entries, i as int);
                    assert(entries@ =~= old_entries.update(i as int, (key, value)));
                    lemma_held_update(old_entries, i as int, key, value);
                }
                before = Some(earlier);
            },
            Err(i) => {
                entries.insert(i, (key, value));
                proof {
                    lemma_absent(old_entries, name, i as int);
                    lemma_held_insert(old_entries, i as int, key, value);
                }
                before = None;
            },
        }
        self.entries = entries;
        before
    }

    /// Take out what stands under `key`.
    pub fn remove(&mut self, key: &K) -> (before: Option<V>)
        ensures
            final(self)@ == old(self)@.remove(key.name()),
            before == (if old(self)@.contains_key(key.name()) {
                Some(old(self)@[key.name()])
            } else {
                None
            }),
    {
        proof {
            use_type_invariant(&*self);
        }
        let ghost old_entries = self.entries@;
        match self.find(key) {
            Ok(i) => {
                let mut entries: Vec<(K, V)> = Vec::new();
                std::mem::swap(&mut entries, &mut self.entries);
                let (_, earlier) = entries.remove(i);
                proof {
                    lemma_held(old_entries, i as int);
                    lemma_held_remove(old_entries, i as int);
                }
                self.entries = entries;
                Some(earlier)
            },
            Err(i) => {
                proof {
                    lemma_absent(old_entries, key.name(), i as int);
                    assert(old(self)@.remove(key.name()) =~= old(self)@);
                }
                None
            },
        }
    }
}

impl<K: OrdKey, V> OrdMap<K, V> {
    /// Take out the last entry.
    pub fn pop(&mut self) -> (last: Option<(K, V)>)
        ensures
            match last {
                Some((key, value)) => {
                    &&& old(self).entries().len() > 0
                    &&& (key, value) == old(self).entries().last()
                    &&& final(self).entries() == old(self).entries().drop_last()
                    &&& old(self)@.contains_key(key.name())
                    &&& old(self)@[key.name()] == value
                    &&& final(self)@ == old(self)@.remove(key.name())
                },
                None => {
                    &&& old(self)@ == Map::<K::Name, V>::empty()
                    &&& *final(self) == *old(self)
                },
            },
    {
        let ghost old_entries = self.entries@;
        proof {
            use_type_invariant(&*self);
            if old_entries.len() > 0 {
                let last = old_entries.len() - 1;
                lemma_held(old_entries, last);
                lemma_held_remove(old_entries, last);
                assert(old_entries.remove(last) =~= old_entries.drop_last());
            } else {
                assert(held(old_entries) =~= Map::<K::Name, V>::empty());
            }
        }
        if self.entries.len() == 0 {
            return None;
        }
        let mut entries: Vec<(K, V)> = Vec::new();
        std::mem::swap(&mut entries, &mut self.entries);
        let last = entries.pop();
        self.entries = entries;
        last
    }
}

proof fn lemma_absent<K: OrdKey, V>(entries: Seq<(K, V)>, key: K::Name, i: int)
    requires
        0 <= i <= entries.len(),
        forall|j: int| 0 <= j < i ==> K::before((#[trigger] entries[j]).0.name(), key),
        forall|j: int| i <= j < entries.len() ==> K::before(key, (#[trigger] entries[j]).0.name()),
    ensures
        !held(entries).contains_key(key),
{
    if held(entries).contains_key(key) {
        let j = choose|j: int| stands_at(entries, key, j);
        K::before_is_strict(entries[j].0.name(), key);
    }
}

proof fn lemma_held_update<K: OrdKey, V>(entries: Seq<(K, V)>, i: int, key: K, value: V)
    requires
        in_order(entries),
        0 <= i < entries.len(),
        entries[i].0.name() == key.name(),
    ensures
        in_order(entries.update(i, (key, value))),
        held(entries.update(i, (key, value))) == held(entries).insert(key.name(), value),
{
    let after = entries.update(i, (key, value));
    assert forall|a: int, b: int| 0 <= a < b < after.len() implies K::before(
        (#[trigger] after[a]).0.name(),
        (#[trigger] after[b]).0.name(),
    ) by {
        assert(K::before(entries[a].0.name(), entries[b].0.name()));
    }
    let map = held(entries).insert(key.name(), value);
    assert forall|j: int| 0 <= j < after.len() implies map.contains_key(
        (#[trigger] after[j]).0.name(),
    ) && map[after[j].0.name()] == after[j].1 by {
        if j != i {
            lemma_held(entries, j);
            K::before_is_strict(entries[j].0.name(), key.name());
        }
    }
    let at = |k: K::Name|
        if k == key.name() {
            i
        } else {
            choose|j: int| stands_at(entries, k, j)
        };
    assert forall|k: K::Name| #[trigger] map.contains_key(k) implies stands_at(after, k, at(k)) by {
        if k != key.name() {
            assert(held(entries).contains_key(k));
            let j = choose|j: int| stands_at(entries, k, j);
            assert(stands_at(entries, k, j));
        }
    }
    lemma_same_held(map, after, at);
}

/// A map is the one that entries in order hold, where they hold nothing else
/// and `at` says where each of its keys stands.
proof fn lemma_same_held<K: OrdKey, V>(
    map: Map<K::Name, V>,
    entries: Seq<(K, V)>,
    at: spec_fn(K::Name) -> int,
)
    requires
        in_order(entries),
        forall|i: int|
            0 <= i < entries.len() ==> map.contains_key((#[trigger] entries[i]).0.name())
                && map[entries[i].0.name()] == entries[i].1,
        forall|k: K::Name| #[trigger] map.contains_key(k) ==> stands_at(entries, k, at(k)),
    ensures
        held(entries) == map,
{
    assert forall|k: K::Name| #[trigger] held(entries).contains_key(k) <==> map.contains_key(k) by {
        if held(entries).contains_key(k) {
            let j = choose|j: int| stands_at(entries, k, j);
            assert(map.contains_key(entries[j].0.name()));
        }
        if map.contains_key(k) {
            assert(stands_at(entries, k, at(k)));
        }
    }
    assert forall|k: K::Name| #[trigger] held(entries).contains_key(k) implies held(entries)[k]
        == map[k] by {
        let j = choose|j: int| stands_at(entries, k, j);
        assert(map[entries[j].0.name()] == entries[j].1);
    }
    assert(held(entries) =~= map);
}

proof fn lemma_held_insert<K: OrdKey, V>(entries: Seq<(K, V)>, i: int, key: K, value: V)
    requires
        in_order(entries),
        0 <= i <= entries.len(),
        forall|j: int| 0 <= j < i ==> K::before((#[trigger] entries[j]).0.name(), key.name()),
        forall|j: int|
            i <= j < entries.len() ==> K::before(key.name(), (#[trigger] entries[j]).0.name()),
    ensures
        in_order(entries.insert(i, (key, value))),
        held(entries.insert(i, (key, value))) == held(entries).insert(key.name(), value),
{
    let after = entries.insert(i, (key, value));
    let map = held(entries).insert(key.name(), value);
    assert forall|a: int, b: int| 0 <= a < b < after.len() implies K::before(
        (#[trigger] after[a]).0.name(),
        (#[trigger] after[b]).0.name(),
    ) by {
        let x = if a < i {
            a
        } else {
            a - 1
        };
        let y = if b < i {
            b
        } else {
            b - 1
        };
        if a != i && b != i {
            assert(after[a] == entries[x] && after[b] == entries[y]);
        } else if a == i {
            assert(after[b] == entries[y]);
        } else {
            assert(after[a] == entries[x]);
        }
    }
    lemma_absent(entries, key.name(), i);
    assert forall|j: int| 0 <= j < after.len() implies map.contains_key(
        (#[trigger] after[j]).0.name(),
    ) && map[after[j].0.name()] == after[j].1 by {
        if j != i {
            let x = if j < i {
                j
            } else {
                j - 1
            };
            assert(after[j] == entries[x]);
            lemma_held(entries, x);
        }
    }
    let at = |k: K::Name|
        if k == key.name() {
            i
        } else {
            let j = choose|j: int| stands_at(entries, k, j);
            if j < i {
                j
            } else {
                j + 1
            }
        };
    assert forall|k: K::Name| #[trigger] map.contains_key(k) implies stands_at(after, k, at(k)) by {
        if k != key.name() {
            assert(held(entries).contains_key(k));
            let j = choose|j: int| stands_at(entries, k, j);
            assert(stands_at(entries, k, j));
            assert(after[at(k)] == entries[j]);
        }
    }
    lemma_same_held(map, after, at);
}

proof fn lemma_held_remove<K: OrdKey, V>(entries: Seq<(K, V)>, i: int)
    requires
        in_order(entries),
        0 <= i < entries.len(),
    ensures
        in_order(entries.remove(i)),
        held(entries.remove(i)) == held(entries).remove(entries[i].0.name()),
{
    let after = entries.remove(i);
    let key = entries[i].0.name();
    let map = held(entries).remove(key);
    assert forall|a: int, b: int| 0 <= a < b < after.len() implies K::before(
        (#[trigger] after[a]).0.name(),
        (#[trigger] after[b]).0.name(),
    ) by {
        let x = if a < i {
            a
        } else {
            a + 1
        };
        let y = if b < i {
            b
        } else {
            b + 1
        };
        assert(after[a] == entries[x] && after[b] == entries[y]);
    }
    assert forall|j: int| 0 <= j < after.len() implies map.contains_key(
        (#[trigger] after[j]).0.name(),
    ) && map[after[j].0.name()] == after[j].1 by {
        let x = if j < i {
            j
        } else {
            j + 1
        };
        assert(after[j] == entries[x]);
        lemma_held(entries, x);
        K::before_is_strict(entries[x].0.name(), key);
    }
    let at = |k: K::Name|
        {
            let j = choose|j: int| stands_at(entries, k, j);
            if j < i {
                j
            } else {
                j - 1
            }
        };
    assert forall|k: K::Name| #[trigger] map.contains_key(k) implies stands_at(after, k, at(k)) by {
        assert(held(entries).contains_key(k));
        let j = choose|j: int| stands_at(entries, k, j);
        assert(stands_at(entries, k, j));
        assert(j != i);
        assert(after[at(k)] == entries[j]);
    }
    lemma_same_held(map, after, at);
}

proof fn lemma_held_len<K: OrdKey, V>(entries: Seq<(K, V)>)
    requires
        in_order(entries),
    ensures
        held(entries).dom().finite(),
        held(entries).len() == entries.len(),
    decreases entries.len(),
{
    if entries.len() == 0 {
        assert(held(entries) =~= Map::<K::Name, V>::empty());
    } else {
        let last = entries.len() - 1;
        lemma_held_remove(entries, last);
        lemma_held_len(entries.remove(last));
        lemma_held(entries, last);
    }
}

/// A set kept in order.
#[derive(Debug, PartialEq)]
pub struct OrdSet<K: OrdKey> {
    map: OrdMap<K, ()>,
}

impl<K: OrdKey> View for OrdSet<K> {
    type V = Set<K::Name>;

    closed spec fn view(&self) -> Set<K::Name> {
        self.map@.dom()
    }
}

impl<K: OrdKey> OrdSet<K> {
    pub fn new() -> (set: Self)
        ensures
            set@ == Set::<K::Name>::empty(),
    {
        let set = OrdSet { map: OrdMap::new() };
        assert(set@ =~= Set::<K::Name>::empty());
        set
    }

    pub fn contains(&self, key: &K) -> (found: bool)
        ensures
            found == self@.contains(key.name()),
    {
        self.map.contains_key(key)
    }

    /// Put `key` in, and say whether it was not there before.
    pub fn insert(&mut self, key: K) -> (new: bool)
        ensures
            final(self)@ == old(self)@.insert(key.name()),
            new == !old(self)@.contains(key.name()),
    {
        let before = self.map.insert(key, ());
        assert(self@ =~= old(self)@.insert(key.name()));
        before.is_none()
    }

    pub fn len(&self) -> (n: usize)
        ensures
            n == self@.len(),
            self@.finite(),
    {
        let entries = self.map.as_entries();
        entries.len()
    }

    pub fn is_empty(&self) -> (empty: bool)
        ensures
            empty == (self@ == Set::<K::Name>::empty()),
    {
        let empty = self.map.is_empty();
        proof {
            if self@ == Set::<K::Name>::empty() {
                assert(self.map@ =~= Map::<K::Name, ()>::empty());
            } else if empty {
                assert(self@ =~= Set::<K::Name>::empty());
            }
        }
        empty
    }

    /// What the set holds, in order, to walk.
    pub fn as_items(&self) -> (items: &Vec<(K, ())>)
        ensures
            forall|key: K::Name| #[trigger]
                self@.contains(key) <==> exists|i: int| stands_at(items@, key, i),
    {
        self.map.as_entries()
    }
}

} // verus!
