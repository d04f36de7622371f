//! The object index as one joinable value, keyed by number in one kind's space.

use vstd::prelude::*;
use vstd::slice::slice_subrange;

use crate::bytes::{append, le_bytes, le_value, lemma_byte_ranges, lemma_le_bytes, push_le, read_le};
use crate::objects::codec::{
    bases_fit, bitmap_stowed, header_round_trips, lemma_heap_grows, locations_stowed, read_bitmap,
    read_header, read_locations, stow_bitmap, stow_locations, write_header,
};
use crate::objects::format::{
    decoded, entries_from, entry_at, header_bytes, object_at, seq_at, Malformed, ObjectView, ENTRY,
    HEADER, NONE,
};
use crate::objects::location::{
    at_pack, later_is_a_join, later_of, lemma_latest, lemma_latest_concat, lemma_same_packs,
    lemma_with_location, lemma_with_locations, one_per_pack, take_location, with_location,
    with_locations, Location,
};
use crate::ordmap::{held, in_order, OrdKey, OrdMap};
use crate::seqs::{ObjectSeqs, SeqSets};

verus! {

impl ObjectView {
    /// An object that nothing is known of.
    pub open spec fn empty() -> ObjectView {
        ObjectView { locations: Seq::empty(), children: SeqSets::empty() }
    }

    /// Whether there is nothing worth recording.
    pub open spec fn is_empty(self) -> bool {
        self.locations.len() == 0 && self.children == SeqSets::empty()
    }

    /// This object with everything that `other` holds.
    pub open spec fn absorbing(self, other: ObjectView) -> ObjectView {
        ObjectView {
            locations: if other.locations.len() == 0 {
                self.locations
            } else {
                with_locations(Seq::empty(), self.locations + other.locations)
            },
            children: self.children.union(other.children),
        }
    }

    /// Whether the locations are in order, one for each pack.
    pub open spec fn is_reduced(self) -> bool {
        one_per_pack(self.locations)
    }
}

/// What the index knows about one object.
///
/// The packs it is in only grow; where one of them sits is the one thing here
/// a copy replaces.
#[derive(Debug, PartialEq)]
pub struct Object {
    /// Every pack it is stored in, lowest pack seq first and one each.
    pub locations: Vec<Location>,
    /// A tree's direct entries; empty for a blob.
    pub children: ObjectSeqs,
}

impl View for Object {
    type V = ObjectView;

    open spec fn view(&self) -> ObjectView {
        ObjectView { locations: self.locations@, children: self.children@ }
    }
}

impl Object {
    /// An object that nothing is known of.
    pub fn new() -> (object: Object)
        ensures
            object@ == ObjectView::empty(),
    {
        Object { locations: Vec::new(), children: ObjectSeqs::new() }
    }

    /// The pack a point read resolves through: the lowest that stores it.
    pub fn introducing(&self) -> (first: Option<&Location>)
        ensures
            match first {
                Some(l) => self@.locations.len() > 0 && *l == self@.locations[0],
                None => self@.locations.len() == 0,
            },
    {
        if self.locations.len() == 0 {
            None
        } else {
            Some(&self.locations[0])
        }
    }

    /// Whether the object holds nothing worth a slot.
    fn is_empty(&self) -> (empty: bool)
        ensures
            empty == self@.is_empty(),
    {
        self.locations.len() == 0 && self.children.is_empty()
    }

    /// Takes everything `other` holds that this one does not.
    pub fn absorb(&mut self, other: &Object)
        ensures
            final(self)@ == old(self)@.absorbing(other@),
    {
        self.children.absorb(&other.children);
        if other.locations.len() == 0 {
            return;
        }
        let ghost all = old(self).locations@ + other.locations@;
        let mut merged: Vec<Location> = Vec::new();
        take_all(&mut merged, &self.locations);
        take_all(&mut merged, &other.locations);
        proof {
            lemma_with_concat(Seq::empty(), old(self).locations@, other.locations@);
        }
        self.locations = merged;
    }
}

proof fn lemma_with_concat(into: Seq<Location>, a: Seq<Location>, b: Seq<Location>)
    ensures
        with_locations(into, a + b) == with_locations(with_locations(into, a), b),
    decreases b.len(),
{
    if b.len() == 0 {
        assert(a + b =~= a);
    } else {
        lemma_with_concat(into, a, b.drop_last());
        assert((a + b).drop_last() =~= a + b.drop_last());
    }
}

/// Take all of `new` in, one after the other.
fn take_all(locations: &mut Vec<Location>, new: &Vec<Location>)
    ensures
        final(locations)@ == with_locations(old(locations)@, new@),
{
    let mut i: usize = 0;
    assert(new@.take(0) =~= Seq::<Location>::empty());
    while i < new.len()
        invariant
            i <= new@.len(),
            locations@ == with_locations(old(locations)@, new@.take(i as int)),
        decreases new@.len() - i,
    {
        assert(new@.take(i + 1).drop_last() =~= new@.take(i as int));
        take_location(locations, new[i]);
        i = i + 1;
    }
    assert(new@.take(i as int) =~= new@);
}

/// The numbers from `first` to `last`.
#[derive(Clone, Copy, Debug, PartialEq, Eq, Structural)]
pub struct KeyRange {
    pub first: u64,
    pub last: u64,
}

impl KeyRange {
    /// Every number.
    pub fn all() -> (range: KeyRange)
        ensures
            range == (KeyRange { first: 0, last: u64::MAX }),
    {
        KeyRange { first: 0, last: u64::MAX }
    }

    /// From `first` to `last`, unless that is backwards.
    pub fn new(first: u64, last: u64) -> (range: Option<KeyRange>)
        ensures
            range == (if first <= last {
                Some(KeyRange { first, last })
            } else {
                None
            }),
    {
        if first <= last {
            Some(KeyRange { first, last })
        } else {
            None
        }
    }
}

/// Both indexes at once: what each knows of every object.
pub open spec fn joined(a: Map<u64, ObjectView>, b: Map<u64, ObjectView>) -> Map<u64, ObjectView> {
    Map::new(
        |seq: u64| a.contains_key(seq) || b.contains_key(seq),
        |seq: u64|
            if !b.contains_key(seq) {
                a[seq]
            } else if a.contains_key(seq) {
                a[seq].absorbing(b[seq])
            } else {
                ObjectView::empty().absorbing(b[seq])
            },
    )
}

/// What joining two indexes gives: the other, where one is empty.
pub open spec fn index_join(a: Map<u64, ObjectView>, b: Map<u64, ObjectView>) -> Map<
    u64,
    ObjectView,
> {
    if b == Map::<u64, ObjectView>::empty() {
        a
    } else if a == Map::<u64, ObjectView>::empty() {
        b
    } else {
        joined(a, b)
    }
}

/// Every object's locations are in order, one for each pack.
pub open spec fn all_reduced(index: Map<u64, ObjectView>) -> bool {
    forall|seq: u64| #[trigger] index.contains_key(seq) ==> index[seq].is_reduced()
}

/// The object index over a range of numbers in one kind's space.
///
/// Sorted pairs rather than a slot per number: an object gains packs after it
/// is recorded, and a re-inclusion scatters across the whole space.
#[derive(Debug, PartialEq)]
pub struct ObjectIndex {
    entries: OrdMap<u64, Object>,
}

/// What a map of objects knows, object by object.
pub open spec fn views(objects: Map<u64, Object>) -> Map<u64, ObjectView> {
    Map::new(|seq: u64| objects.contains_key(seq), |seq: u64| objects[seq]@)
}

impl View for ObjectIndex {
    type V = Map<u64, ObjectView>;

    closed spec fn view(&self) -> Map<u64, ObjectView> {
        views(self.entries@)
    }
}

/// Builds an index one object at a time.
pub struct Builder {
    objects: OrdMap<u64, Object>,
}

impl View for Builder {
    type V = Map<u64, ObjectView>;

    closed spec fn view(&self) -> Map<u64, ObjectView> {
        views(self.objects@)
    }
}

/// What is known of `seq`, nothing where it is not held.
pub open spec fn known(index: Map<u64, ObjectView>, seq: u64) -> ObjectView {
    if index.contains_key(seq) {
        index[seq]
    } else {
        ObjectView::empty()
    }
}

/// Take out what is held of `seq`, or start it.
fn take_object(objects: &mut OrdMap<u64, Object>, seq: u64) -> (object: Object)
    ensures
        object@ == known(views(old(objects)@), seq),
        final(objects)@ == old(objects)@.remove(seq),
{
    match objects.remove(&seq) {
        Some(object) => object,
        None => Object::new(),
    }
}

impl Builder {
    /// An index with nothing in it yet.
    pub fn new() -> (builder: Builder)
        ensures
            builder@ == Map::<u64, ObjectView>::empty(),
    {
        let builder = Builder { objects: OrdMap::new() };
        assert(builder@ =~= Map::<u64, ObjectView>::empty());
        builder
    }

    /// Adds `location` to what the index knows about `seq`.
    ///
    /// A second location for a pack it already holds replaces that one, so no
    /// value the join ever sees is unreduced.
    pub fn locate(&mut self, seq: u64, location: Location)
        ensures
            final(self)@ == old(self)@.insert(
                seq,
                (ObjectView {
                    locations: with_location(known(old(self)@, seq).locations, location),
                    ..known(old(self)@, seq)
                }),
            ),
            all_reduced(old(self)@) ==> all_reduced(final(self)@),
    {
        let mut object = take_object(&mut self.objects, seq);
        let ghost before = object@;
        take_location(&mut object.locations, location);
        let ghost after = object@;
        let _ = self.objects.insert(seq, object);
        proof {
            assert(self@ =~= old(self)@.insert(seq, after));
            if all_reduced(old(self)@) {
                lemma_with_location(before.locations, location, 0);
            }
        }
    }

    /// Records a tree's direct entries.
    pub fn children(&mut self, seq: u64, children: &ObjectSeqs)
        ensures
            final(self)@ == (if children@ == SeqSets::empty() {
                old(self)@
            } else {
                old(self)@.insert(
                    seq,
                    (ObjectView {
                        children: known(old(self)@, seq).children.union(children@),
                        ..known(old(self)@, seq)
                    }),
                )
            }),
            all_reduced(old(self)@) ==> all_reduced(final(self)@),
    {
        if children.is_empty() {
            return;
        }
        let mut object = take_object(&mut self.objects, seq);
        object.children.absorb(children);
        let ghost after = object@;
        let _ = self.objects.insert(seq, object);
        assert(self@ =~= old(self)@.insert(seq, after));
    }

    /// Lays the objects out in order, leaving out those with nothing in them.
    pub fn build(self) -> (index: ObjectIndex)
        ensures
            index@ == self@.restrict(
                Set::new(|seq: u64| self@.contains_key(seq) && !self@[seq].is_empty()),
            ),
            all_reduced(self@) ==> all_reduced(index@),
    {
        let ghost whole = self@;
        let ghost full = |m: Map<u64, ObjectView>|
            m.restrict(Set::new(|seq: u64| m.contains_key(seq) && !m[seq].is_empty()));
        let mut objects = self.objects;
        let mut entries: OrdMap<u64, Object> = OrdMap::new();
        assert(full(views(objects@)).union_prefer_right(views(entries@)) =~= full(whole));
        loop
            invariant
                full == (|m: Map<u64, ObjectView>|
                    m.restrict(Set::new(|seq: u64| m.contains_key(seq) && !m[seq].is_empty()))),
                full(views(objects@)).union_prefer_right(views(entries@)) == full(whole),
                forall|seq: u64| #[trigger]
                    entries@.contains_key(seq) ==> !objects@.contains_key(seq),
            ensures
                views(entries@) == full(whole),
            decreases objects.entries().len(),
        {
            let ghost left = views(objects@);
            let ghost done = views(entries@);
            match objects.pop() {
                None => {
                    proof {
                        assert(left =~= Map::<u64, ObjectView>::empty());
                        assert(full(left).union_prefer_right(done) =~= done);
                    }
                    break;
                },
                Some((seq, object)) => {
                    let ghost shown = object@;
                    assert(views(objects@) =~= left.remove(seq));
                    if !object.is_empty() {
                        let _ = entries.insert(seq, object);
                        assert(views(entries@) =~= done.insert(seq, shown));
                    }
                    assert(full(views(objects@)).union_prefer_right(views(entries@)) =~= full(
                        left,
                    ).union_prefer_right(done));
                },
            }
        }
        ObjectIndex { entries }
    }
}

impl ObjectIndex {
    /// An index that holds nothing.
    pub fn new() -> (index: ObjectIndex)
        ensures
            index@ == Map::<u64, ObjectView>::empty(),
    {
        let index = ObjectIndex { entries: OrdMap::new() };
        assert(index@ =~= Map::<u64, ObjectView>::empty());
        index
    }

    /// What the index knows about `seq`, or none for one it does not hold.
    pub fn get(&self, seq: u64) -> (object: Option<&Object>)
        ensures
            match object {
                Some(object) => self@.contains_key(seq) && self@[seq] == object@,
                None => !self@.contains_key(seq),
            },
    {
        self.entries.get(&seq)
    }

    /// Whether the index holds nothing.
    pub fn is_empty(&self) -> (empty: bool)
        ensures
            empty == (self@ == Map::<u64, ObjectView>::empty()),
    {
        let empty = self.entries.is_empty();
        proof {
            if empty {
                assert(self@ =~= Map::<u64, ObjectView>::empty());
            } else {
                assert(exists|seq: u64| self.entries@.contains_key(seq)) by {
                    if forall|seq: u64| !self.entries@.contains_key(seq) {
                        assert(self.entries@ =~= Map::<u64, Object>::empty());
                    }
                }
                let seq = choose|seq: u64| self.entries@.contains_key(seq);
                assert(self@.contains_key(seq));
            }
        }
        empty
    }

    /// The numbers the index spans: its least to its greatest.
    pub fn range(&self) -> (range: Option<KeyRange>)
        ensures
            match range {
                Some(range) => {
                    &&& self@.contains_key(range.first)
                    &&& self@.contains_key(range.last)
                    &&& forall|seq: u64| #[trigger]
                        self@.contains_key(seq) ==> range.first <= seq <= range.last
                },
                None => self@ == Map::<u64, ObjectView>::empty(),
            },
    {
        let entries = self.entries.as_entries();
        if entries.len() == 0 {
            assert(self@ =~= Map::<u64, ObjectView>::empty());
            return None;
        }
        let first: u64 = entries[0].0;
        let last: u64 = entries[entries.len() - 1].0;
        proof {
            let all = entries@;
            assert(self@.contains_key(all[0].0.name()));
            assert(self@.contains_key(all[all.len() - 1].0.name()));
            assert forall|seq: u64| #[trigger] self@.contains_key(seq) implies first <= seq
                <= last by {
                assert(held(all).contains_key(seq));
                let i = choose|i: int| crate::ordmap::stands_at(all, seq, i);
                assert(all[i].0 == seq);
            }
        }
        Some(KeyRange { first, last })
    }

    /// Union, componentwise, all the way down.
    ///
    /// Two segments holding one object hold two sets of the packs it was in,
    /// and the answer is both.
    pub fn join(&mut self, other: ObjectIndex)
        ensures
            final(self)@ == index_join(old(self)@, other@),
    {
        if other.is_empty() {
            return;
        }
        if self.is_empty() {
            self.entries = other.entries;
            return;
        }
        let ghost mine = self@;
        let ghost theirs = other@;
        let mut left = other.entries;
        loop
            invariant
                forall|seq: u64|
                    #![trigger left@.contains_key(seq)]
                    #![trigger self@.contains_key(seq)]
                    if left@.contains_key(seq) {
                        &&& theirs.contains_key(seq) && theirs[seq] == left@[seq]@
                        &&& self@.contains_key(seq) == mine.contains_key(seq)
                        &&& mine.contains_key(seq) ==> self@[seq] == mine[seq]
                    } else {
                        &&& self@.contains_key(seq) == joined(mine, theirs).contains_key(seq)
                        &&& self@.contains_key(seq) ==> self@[seq] == joined(mine, theirs)[seq]
                    },
            ensures
                self@ == joined(mine, theirs),
            decreases left.entries().len(),
        {
            let ghost before = self@;
            let ghost held_before = left@;
            match left.pop() {
                None => {
                    assert forall|seq: u64| #[trigger] self@.contains_key(seq)
                        == joined(mine, theirs).contains_key(seq) by {
                        assert(!left@.contains_key(seq));
                    }
                    assert(self@ =~= joined(mine, theirs));
                    break;
                },
                Some((seq, object)) => {
                    let mut known_object = take_object(&mut self.entries, seq);
                    known_object.absorb(&object);
                    let ghost after = known_object@;
                    let _ = self.entries.insert(seq, known_object);
                    proof {
                        assert(held_before.contains_key(seq));
                        assert(self@ =~= before.insert(seq, after));
                        assert(after == joined(mine, theirs)[seq]);
                    }
                },
            }
        }
    }
}

/// Absorbing reduced objects gives one, whose location of each pack is the
/// later of the two.
proof fn lemma_absorbing(a: ObjectView, b: ObjectView, pack_seq: i64)
    requires
        a.is_reduced(),
        b.is_reduced(),
    ensures
        a.absorbing(b).is_reduced(),
        at_pack(a.absorbing(b).locations, pack_seq) == later_of(
            at_pack(a.locations, pack_seq),
            at_pack(b.locations, pack_seq),
        ),
{
    if b.locations.len() > 0 {
        let all = a.locations + b.locations;
        lemma_with_locations(Seq::empty(), all, pack_seq);
        lemma_latest_concat(a.locations, b.locations, pack_seq);
        lemma_latest(a.locations, pack_seq);
        lemma_latest(b.locations, pack_seq);
    }
}

/// Two reduced objects are the same where they agree on every pack and on the
/// children.
proof fn lemma_same_object(a: ObjectView, b: ObjectView)
    requires
        a.is_reduced(),
        b.is_reduced(),
        a.children == b.children,
        forall|p: i64| #[trigger] at_pack(a.locations, p) == at_pack(b.locations, p),
    ensures
        a == b,
{
    lemma_same_packs(a.locations, b.locations);
}

/// Absorbing is associative, commutative and idempotent, and an object that
/// nothing is known of changes nothing.
pub proof fn absorbing_is_a_join(a: ObjectView, b: ObjectView, c: ObjectView)
    requires
        a.is_reduced(),
        b.is_reduced(),
        c.is_reduced(),
    ensures
        a.absorbing(a) == a,
        a.absorbing(b) == b.absorbing(a),
        a.absorbing(b).absorbing(c) == a.absorbing(b.absorbing(c)),
        ObjectView::empty().absorbing(a) == a,
        a.absorbing(ObjectView::empty()) == a,
{
    let nothing = ObjectView::empty();
    assert forall|p: i64|
        {
            &&& #[trigger] at_pack(a.locations, p) == at_pack(a.absorbing(a).locations, p)
            &&& at_pack(a.absorbing(b).locations, p) == at_pack(b.absorbing(a).locations, p)
            &&& at_pack(a.absorbing(b).absorbing(c).locations, p) == at_pack(
                a.absorbing(b.absorbing(c)).locations,
                p,
            )
            &&& at_pack(nothing.absorbing(a).locations, p) == at_pack(a.locations, p)
        } by {
        lemma_absorbing(a, a, p);
        lemma_absorbing(a, b, p);
        lemma_absorbing(b, a, p);
        lemma_absorbing(b, c, p);
        lemma_absorbing(a.absorbing(b), c, p);
        lemma_absorbing(a, b.absorbing(c), p);
        lemma_absorbing(nothing, a, p);
        later_is_a_join(
            at_pack(a.locations, p),
            at_pack(b.locations, p),
            at_pack(c.locations, p),
        );
    }
    lemma_absorbing(a, a, 0);
    lemma_absorbing(a, b, 0);
    lemma_absorbing(b, a, 0);
    lemma_absorbing(b, c, 0);
    lemma_absorbing(a.absorbing(b), c, 0);
    lemma_absorbing(a, b.absorbing(c), 0);
    lemma_absorbing(nothing, a, 0);
    assert(a.absorbing(a).children =~= a.children);
    assert(a.absorbing(b).children =~= b.absorbing(a).children);
    assert(a.absorbing(b).absorbing(c).children =~= a.absorbing(b.absorbing(c)).children);
    assert(nothing.absorbing(a).children =~= a.children);
    assert(a.absorbing(nothing).children =~= a.children);
    assert forall|p: i64| #[trigger]
        at_pack(a.absorbing(a).locations, p) == at_pack(a.locations, p) by {
        assert(at_pack(a.locations, p) == at_pack(a.absorbing(a).locations, p));
    }
    lemma_same_object(a.absorbing(a), a);
    assert forall|p: i64| #[trigger]
        at_pack(a.absorbing(b).locations, p) == at_pack(b.absorbing(a).locations, p) by {
        assert(at_pack(a.locations, p) == at_pack(a.absorbing(a).locations, p));
    }
    lemma_same_object(a.absorbing(b), b.absorbing(a));
    assert forall|p: i64| #[trigger]
        at_pack(a.absorbing(b).absorbing(c).locations, p) == at_pack(
            a.absorbing(b.absorbing(c)).locations,
            p,
        ) by {
        assert(at_pack(a.locations, p) == at_pack(a.absorbing(a).locations, p));
    }
    lemma_same_object(a.absorbing(b).absorbing(c), a.absorbing(b.absorbing(c)));
    assert forall|p: i64| #[trigger]
        at_pack(nothing.absorbing(a).locations, p) == at_pack(a.locations, p) by {
        assert(at_pack(a.locations, p) == at_pack(a.absorbing(a).locations, p));
    }
    lemma_same_object(nothing.absorbing(a), a);
}

proof fn lemma_joined_reduced(a: Map<u64, ObjectView>, b: Map<u64, ObjectView>)
    requires
        all_reduced(a),
        all_reduced(b),
    ensures
        all_reduced(index_join(a, b)),
        index_join(a, b) == joined(a, b),
{
    let nothing = ObjectView::empty();
    assert forall|seq: u64| #[trigger] joined(a, b).contains_key(seq) implies joined(a, b)[seq]
        .is_reduced() by {
        if b.contains_key(seq) {
            if a.contains_key(seq) {
                lemma_absorbing(a[seq], b[seq], 0);
            } else {
                lemma_absorbing(nothing, b[seq], 0);
            }
        }
    }
    if b == Map::<u64, ObjectView>::empty() {
        assert(joined(a, b) =~= a);
    } else if a == Map::<u64, ObjectView>::empty() {
        assert forall|seq: u64| b.contains_key(seq) implies joined(a, b)[seq] == b[seq] by {
            absorbing_is_a_join(b[seq], b[seq], b[seq]);
        }
        assert(joined(a, b) =~= b);
    }
}

/// Joining indexes is associative, commutative and idempotent.
pub proof fn joining_is_a_join(
    a: Map<u64, ObjectView>,
    b: Map<u64, ObjectView>,
    c: Map<u64, ObjectView>,
)
    requires
        all_reduced(a),
        all_reduced(b),
        all_reduced(c),
    ensures
        index_join(a, a) == a,
        index_join(a, b) == index_join(b, a),
        index_join(index_join(a, b), c) == index_join(a, index_join(b, c)),
        all_reduced(index_join(a, b)),
{
    lemma_joined_reduced(a, a);
    lemma_joined_reduced(a, b);
    lemma_joined_reduced(b, a);
    lemma_joined_reduced(b, c);
    lemma_joined_reduced(index_join(a, b), c);
    lemma_joined_reduced(a, index_join(b, c));
    assert forall|seq: u64|
        {
            &&& a.contains_key(seq) ==> #[trigger] joined(a, a)[seq] == a[seq]
            &&& joined(a, b).contains_key(seq) ==> joined(a, b)[seq] == joined(b, a)[seq]
            &&& joined(joined(a, b), c).contains_key(seq) ==> joined(joined(a, b), c)[seq]
                == joined(a, joined(b, c))[seq]
        } by {
        let x = known(a, seq);
        let y = known(b, seq);
        let z = known(c, seq);
        absorbing_is_a_join(x, y, z);
        absorbing_is_a_join(y, z, x);
        absorbing_is_a_join(z, x, y);
    }
    assert forall|seq: u64| joined(a, b).contains_key(seq) implies #[trigger] joined(a, b)[seq]
        == joined(b, a)[seq] by {
        let trigger_here = joined(a, a)[seq];
    }
    assert forall|seq: u64| joined(joined(a, b), c).contains_key(seq) implies #[trigger] joined(
        joined(a, b),
        c,
    )[seq] == joined(a, joined(b, c))[seq] by {
        let trigger_here = joined(a, a)[seq];
    }
    assert(joined(a, a) =~= a);
    assert(joined(a, b) =~= joined(b, a));
    assert(joined(joined(a, b), c) =~= joined(a, joined(b, c)));
}

/// No location of any object has a base that takes the number for none.
pub open spec fn all_bases_fit(index: Map<u64, ObjectView>) -> bool {
    forall|seq: u64| #[trigger] index.contains_key(seq) ==> bases_fit(index[seq].locations)
}

proof fn lemma_object_grows(entry: Seq<u8>, heap: Seq<u8>, more: Seq<u8>)
    requires
        object_at(entry, heap) is Ok,
    ensures
        object_at(entry, heap + more) == object_at(entry, heap),
{
    lemma_heap_grows(le_value(entry.subrange(8, 12)) as u32, heap, more);
    lemma_heap_grows(le_value(entry.subrange(12, 16)) as u32, heap, more);
    lemma_heap_grows(le_value(entry.subrange(16, 20)) as u32, heap, more);
}

/// The entries in `rows` and the heap that they point into, with one object
/// more.
pub open spec fn with_entry(rows: Seq<u8>, heap: Seq<u8>, seq: u64, object: Object) -> (
    Seq<u8>,
    Seq<u8>,
) {
    let (locations, located) = locations_stowed(object.locations@, heap);
    let (trees, wooded) = bitmap_stowed(object.children.trees, located);
    let (blobs, whole) = bitmap_stowed(object.children.blobs, wooded);
    let entry = le_bytes(seq as nat, 8) + le_bytes(locations as nat, 4) + le_bytes(trees as nat, 4)
        + le_bytes(blobs as nat, 4);
    (rows + entry, whole)
}

/// The entries of some objects, and the heap that they point into.
pub open spec fn entries_written(all: Seq<(u64, Object)>) -> (Seq<u8>, Seq<u8>)
    decreases all.len(),
{
    if all.len() == 0 {
        (Seq::empty(), Seq::empty())
    } else {
        let (rows, heap) = entries_written(all.drop_last());
        with_entry(rows, heap, all.last().0, all.last().1)
    }
}

/// The segment that holds some objects: a header with the first number, an
/// entry each, and the heap.
pub open spec fn segment_bytes(all: Seq<(u64, Object)>) -> Seq<u8> {
    let first = if all.len() == 0 {
        0
    } else {
        all[0].0
    };
    let (rows, heap) = entries_written(all);
    header_bytes(first, all.len(), heap.len()) + (rows + heap)
}

/// Whether 32 bits count the objects and reach all of the heap that they point
/// into.
pub open spec fn offsets_fit(all: Seq<(u64, Object)>) -> bool {
    all.len() <= u32::MAX && entries_written(all).1.len() < NONE
}

/// Write one object: an entry behind `rows`, and what it points to behind
/// `heap`.
#[verifier::spinoff_prover]
#[verifier::rlimit(40)]
fn push_entry(seq: u64, object: &Object, rows: &mut Vec<u8>, heap: &mut Vec<u8>)
    ensures
        (final(rows)@, final(heap)@) == with_entry(old(rows)@, old(heap)@, seq, *object),
        ({
            let entry = final(rows)@.skip(old(rows)@.len() as int);
            &&& final(rows)@ == old(rows)@ + entry
            &&& entry.len() == ENTRY
            &&& le_value(entry.subrange(0, 8)) == seq
            &&& exists|more: Seq<u8>| final(heap)@ == #[trigger] (old(heap)@ + more)
            &&& bases_fit(object@.locations) && final(heap)@.len() < NONE ==> object_at(
                entry,
                final(heap)@,
            ) == Ok::<ObjectView, Malformed>(object@)
        }),
{
    let ghost h0 = heap@;
    let locations: u32 = stow_locations(&object.locations, heap);
    let ghost h1 = heap@;
    let trees: u32 = stow_bitmap(&object.children.trees, heap);
    let ghost h2 = heap@;
    let blobs: u32 = stow_bitmap(&object.children.blobs, heap);
    let ghost h3 = heap@;
    push_le(rows, seq as u128, 8);
    push_le(rows, locations as u128, 4);
    push_le(rows, trees as u128, 4);
    push_le(rows, blobs as u128, 4);
    proof {
        lemma_byte_ranges();
        lemma_le_bytes(seq as nat, 8);
        lemma_le_bytes(locations as nat, 4);
        lemma_le_bytes(trees as nat, 4);
        lemma_le_bytes(blobs as nat, 4);
        let entry = le_bytes(seq as nat, 8) + le_bytes(locations as nat, 4) + le_bytes(
            trees as nat,
            4,
        ) + le_bytes(blobs as nat, 4);
        assert(rows@ =~= old(rows)@ + entry);
        assert(rows@.skip(old(rows)@.len() as int) =~= entry);
        assert(entry.subrange(0, 8) =~= le_bytes(seq as nat, 8));
        assert(entry.subrange(8, 12) =~= le_bytes(locations as nat, 4));
        assert(entry.subrange(12, 16) =~= le_bytes(trees as nat, 4));
        assert(entry.subrange(16, 20) =~= le_bytes(blobs as nat, 4));
        let m1 = choose|more: Seq<u8>| h1 == #[trigger] (h0 + more);
        let m2 = choose|more: Seq<u8>| h2 == #[trigger] (h1 + more);
        let m3 = choose|more: Seq<u8>| h3 == #[trigger] (h2 + more);
        assert(h3 =~= h0 + (m1 + m2 + m3));
        assert(h3 =~= h1 + (m2 + m3));
        lemma_heap_grows(locations, h1, m2 + m3);
        lemma_heap_grows(trees, h2, m3);
    }
}

/// The entries of `all` from `at` on, as what is known of them.
spec fn shown_from(all: Seq<(u64, Object)>, at: nat) -> Map<u64, ObjectView>
    decreases all.len() - at,
{
    if at >= all.len() {
        Map::empty()
    } else {
        shown_from(all, at + 1).insert(all[at as int].0, all[at as int].1@)
    }
}

proof fn lemma_shown(all: Seq<(u64, Object)>, at: nat)
    requires
        in_order(all),
    ensures
        forall|seq: u64| #[trigger]
            shown_from(all, at).contains_key(seq) <==> exists|i: int|
                at <= i < all.len() && (#[trigger] all[i]).0 == seq,
        forall|i: int|
            at <= i < all.len() ==> shown_from(all, at)[(#[trigger] all[i]).0] == all[i].1@,
    decreases all.len() - at,
{
    if at < all.len() {
        lemma_shown(all, at + 1);
        assert forall|seq: u64| #[trigger]
            shown_from(all, at).contains_key(seq) <==> exists|i: int|
                at <= i < all.len() && (#[trigger] all[i]).0 == seq by {
            if seq == all[at as int].0 {
                assert(shown_from(all, at).contains_key(seq));
            } else if shown_from(all, at + 1).contains_key(seq) {
                let i = choose|i: int| at + 1 <= i < all.len() && (#[trigger] all[i]).0 == seq;
                assert(all[i].0 == seq);
            } else if exists|i: int| at <= i < all.len() && (#[trigger] all[i]).0 == seq {
                let i = choose|i: int| at <= i < all.len() && (#[trigger] all[i]).0 == seq;
                assert(at + 1 <= i < all.len() && all[i].0 == seq);
            }
        }
        assert forall|i: int| at <= i < all.len() implies shown_from(all, at)[(#[trigger] all[i]).0]
            == all[i].1@ by {
            if i > at {
                assert(all[at as int].0 < all[i].0);
            }
        }
    }
}

/// Whether entry `j` of `rows` stands for `object`, numbered `seq`.
spec fn row_stands(rows: Seq<u8>, heap: Seq<u8>, j: nat, seq: u64, object: ObjectView) -> bool {
    seq_at(rows, j) == seq && object_at(entry_at(rows, j), heap) == Ok::<ObjectView, Malformed>(
        object,
    )
}

proof fn lemma_entries(body: Seq<u8>, heap: Seq<u8>, all: Seq<(u64, Object)>, at: nat)
    requires
        in_order(all),
        at <= all.len(),
        forall|j: int|
            0 <= j < all.len() ==> row_stands(
                body,
                heap,
                j as nat,
                (#[trigger] all[j]).0,
                all[j].1@,
            ),
    ensures
        entries_from(body, heap, all.len(), at, 0, u64::MAX) == Ok::<
            Map<u64, ObjectView>,
            Malformed,
        >(shown_from(all, at)),
    decreases all.len() - at,
{
    if at < all.len() {
        lemma_entries(body, heap, all, at + 1);
        assert(row_stands(body, heap, at, all[at as int].0, all[at as int].1@));
        if at > 0 {
            let before = (at - 1) as nat;
            assert(row_stands(
                body,
                heap,
                before,
                all[before as int].0,
                all[before as int].1@,
            ));
            assert(all[before as int].0 < all[at as int].0);
        }
    }
}

impl ObjectIndex {
    /// The objects that the index holds, by number.
    pub closed spec fn ordered(self) -> Seq<(u64, Object)> {
        self.entries.entries()
    }

    /// Append the segment that holds the index.
    ///
    /// It reads back as the same index, unless the index outgrows 32-bit offsets
    /// or a base takes the number that stands for none.
    pub fn encode(&self, out: &mut Vec<u8>)
        ensures
            final(out)@ == old(out)@ + segment_bytes(self.ordered()),
            in_order(self.ordered()),
            self@ == views(held(self.ordered())),
            offsets_fit(self.ordered()) && all_bases_fit(self@) ==> decoded(
                segment_bytes(self.ordered()),
                0,
                u64::MAX,
            ) == Ok::<Map<u64, ObjectView>, Malformed>(self@),
    {
        let all = self.entries.as_entries();
        let mut rows: Vec<u8> = Vec::new();
        let mut heap: Vec<u8> = Vec::new();
        let mut i: usize = 0;
        while i < all.len()
            invariant
                i <= all@.len(),
                all@ == self.entries.entries(),
                in_order(all@),
                forall|j: int|
                    0 <= j < all@.len() ==> self.entries@.contains_key((#[trigger] all@[j]).0)
                        && self.entries@[all@[j].0] == all@[j].1,
                (rows@, heap@) == entries_written(all@.take(i as int)),
                rows@.len() == i * ENTRY,
                all_bases_fit(self@) && heap@.len() < NONE ==> forall|j: int|
                    0 <= j < i ==> row_stands(
                        rows@,
                        heap@,
                        j as nat,
                        (#[trigger] all@[j]).0,
                        all@[j].1@,
                    ),
            decreases all@.len() - i,
        {
            let ghost r0 = rows@;
            let ghost h0 = heap@;
            let (seq, object) = &all[i];
            push_entry(*seq, object, &mut rows, &mut heap);
            proof {
                assert(all@.take(i as int + 1).drop_last() =~= all@.take(i as int));
                let entry = rows@.skip(r0.len() as int);
                assert(entry_at(rows@, i as nat) =~= entry);
                let more = choose|more: Seq<u8>| heap@ == #[trigger] (h0 + more);
                assert(self@.contains_key(all@[i as int].0));
                if all_bases_fit(self@) && heap@.len() < NONE {
                    assert forall|j: int| 0 <= j < i + 1 implies row_stands(
                        rows@,
                        heap@,
                        j as nat,
                        (#[trigger] all@[j]).0,
                        all@[j].1@,
                    ) by {
                        if j < i {
                            assert(row_stands(r0, h0, j as nat, all@[j].0, all@[j].1@));
                            assert(j * ENTRY + ENTRY <= i * ENTRY) by (nonlinear_arith)
                                requires
                                    0 <= j < i,
                            ;
                            assert(0 <= j * ENTRY) by (nonlinear_arith)
                                requires
                                    0 <= j,
                            ;
                            assert(entry_at(rows@, j as nat) =~= entry_at(r0, j as nat));
                            lemma_object_grows(entry_at(r0, j as nat), h0, more);
                        }
                    }
                }
            }
            i = i + 1;
        }
        let first: u64 = if all.len() == 0 {
            0
        } else {
            all[0].0
        };
        write_header(first, all.len(), heap.len(), out);
        append(out, rows.as_slice());
        append(out, heap.as_slice());
        proof {
            let header = header_bytes(first, all@.len(), heap@.len());
            let bytes = header + (rows@ + heap@);
            assert(all@.take(i as int) =~= all@);
            assert(bytes == segment_bytes(all@));
            assert(out@ =~= old(out)@ + bytes);
            if offsets_fit(all@) && all_bases_fit(self@) {
                assert(header.len() == HEADER) by {
                    lemma_le_bytes(crate::objects::format::VERSION as nat, 4);
                    lemma_le_bytes(first as nat, 8);
                    lemma_le_bytes(all@.len(), 4);
                    lemma_le_bytes(heap@.len(), 4);
                }
                header_round_trips(first, all@.len(), heap@.len(), rows@ + heap@);
                let body = bytes.skip(HEADER as int);
                assert(body =~= rows@ + heap@);
                assert(body.skip(all@.len() * ENTRY) =~= heap@);
                assert forall|j: int| 0 <= j < all@.len() implies row_stands(
                    body,
                    heap@,
                    j as nat,
                    (#[trigger] all@[j]).0,
                    all@[j].1@,
                ) by {
                    assert(row_stands(rows@, heap@, j as nat, all@[j].0, all@[j].1@));
                    assert(j * ENTRY + ENTRY <= all@.len() * ENTRY) by (nonlinear_arith)
                        requires
                            0 <= j < all@.len(),
                    ;
                    assert(0 <= j * ENTRY) by (nonlinear_arith)
                        requires
                            0 <= j,
                    ;
                    assert(entry_at(body, j as nat) =~= entry_at(rows@, j as nat));
                }
                lemma_entries(body, heap@, all@, 0);
                lemma_shown(all@, 0);
                lemma_views(self.entries@, all@);
            }
        }
    }

    /// The segment that holds the index.
    pub fn encoded(&self) -> (bytes: Vec<u8>)
        ensures
            bytes@ == segment_bytes(self.ordered()),
            in_order(self.ordered()),
            self@ == views(held(self.ordered())),
            offsets_fit(self.ordered()) && all_bases_fit(self@) ==> decoded(
                bytes@,
                0,
                u64::MAX,
            ) == Ok::<Map<u64, ObjectView>, Malformed>(self@),
    {
        let mut out: Vec<u8> = Vec::new();
        self.encode(&mut out);
        assert(out@ =~= segment_bytes(self.ordered()));
        out
    }

    /// Read a whole segment.
    pub fn decode(bytes: &[u8]) -> (r: Result<ObjectIndex, Malformed>)
        ensures
            match r {
                Ok(index) => decoded(bytes@, 0, u64::MAX) == Ok::<
                    Map<u64, ObjectView>,
                    Malformed,
                >(index@),
                Err(e) => decoded(bytes@, 0, u64::MAX) == Err::<Map<u64, ObjectView>, Malformed>(e),
            },
    {
        ObjectIndex::decode_range(bytes, KeyRange::all())
    }

    /// Read the part of a segment that `range` covers.
    pub fn decode_range(bytes: &[u8], range: KeyRange) -> (r: Result<ObjectIndex, Malformed>)
        ensures
            match r {
                Ok(index) => decoded(bytes@, range.first, range.last) == Ok::<
                    Map<u64, ObjectView>,
                    Malformed,
                >(index@),
                Err(e) => decoded(bytes@, range.first, range.last) == Err::<
                    Map<u64, ObjectView>,
                    Malformed,
                >(e),
            },
    {
        let records: usize = match read_header(bytes) {
            Err(e) => {
                return Err(Malformed::Frame(e));
            },
            Ok(records) => records,
        };
        let total: usize = bytes.len();
        let body = slice_subrange(bytes, HEADER, total);
        assert(body@ =~= bytes@.skip(HEADER as int));
        let heap = slice_subrange(body, records * ENTRY, body.len());
        assert(heap@ =~= body@.skip(records * ENTRY));
        let mut entries: OrdMap<u64, Object> = OrdMap::new();
        let mut at: usize = 0;
        let mut previous: Option<u64> = None;
        assert(views(entries@) =~= Map::<u64, ObjectView>::empty());
        assert(forall|rest: Map<u64, ObjectView>|
            #![trigger rest.union_prefer_right(views(entries@))]
            rest.union_prefer_right(views(entries@)) =~= rest);
        while at < records
            invariant
                at <= records,
                records * ENTRY <= body@.len(),
                body@.len() <= total,
                heap@ == body@.skip(records * ENTRY),
                decoded(bytes@, range.first, range.last) == entries_from(
                    body@,
                    heap@,
                    records as nat,
                    0,
                    range.first,
                    range.last,
                ),
                at == 0 ==> previous is None,
                at > 0 ==> previous == Some(seq_at(body@, (at - 1) as nat)),
                forall|seq: u64| #[trigger]
                    entries@.contains_key(seq) ==> at > 0 && seq <= seq_at(
                        body@,
                        (at - 1) as nat,
                    ),
                entries_from(body@, heap@, records as nat, 0, range.first, range.last) == (
                match entries_from(
                    body@,
                    heap@,
                    records as nat,
                    at as nat,
                    range.first,
                    range.last,
                ) {
                    Ok(rest) => Ok::<Map<u64, ObjectView>, Malformed>(
                        rest.union_prefer_right(views(entries@)),
                    ),
                    Err(e) => Err(e),
                }),
            decreases records - at,
        {
            assert(at * ENTRY + ENTRY <= records * ENTRY) by (nonlinear_arith)
                requires
                    0 <= at < records,
            ;
            let entry = slice_subrange(body, at * ENTRY, at * ENTRY + ENTRY);
            assert(entry@ == entry_at(body@, at as nat));
            proof {
                lemma_byte_ranges();
            }
            let seq: u64 = read_le(slice_subrange(entry, 0, 8)) as u64;
            // Read rather than assumed: a lookup bisects this order, so bytes
            // out of order would answer wrongly instead of failing.
            if let Some(held_before) = previous {
                if held_before >= seq {
                    return Err(Malformed::Unsorted(at));
                }
            }
            previous = Some(seq);
            if seq < range.first || seq > range.last {
                at = at + 1;
            } else {
                let locations = match read_locations(
                    read_le(slice_subrange(entry, 8, 12)) as u32,
                    heap,
                ) {
                    Err(e) => {
                        return Err(e);
                    },
                    Ok(locations) => locations,
                };
                let trees = match read_bitmap(
                    read_le(slice_subrange(entry, 12, 16)) as u32,
                    heap,
                ) {
                    Err(e) => {
                        return Err(e);
                    },
                    Ok(trees) => trees,
                };
                let blobs = match read_bitmap(
                    read_le(slice_subrange(entry, 16, 20)) as u32,
                    heap,
                ) {
                    Err(e) => {
                        return Err(e);
                    },
                    Ok(blobs) => blobs,
                };
                let object = Object { locations, children: ObjectSeqs { trees, blobs } };
                let ghost shown = object@;
                let ghost before = views(entries@);
                assert(!entries@.contains_key(seq));
                let _ = entries.insert(seq, object);
                proof {
                    assert(views(entries@) =~= before.insert(seq, shown));
                    assert forall|rest: Map<u64, ObjectView>|
                        #![trigger rest.union_prefer_right(views(entries@))]
                        rest.union_prefer_right(views(entries@)) == rest.insert(
                            seq,
                            shown,
                        ).union_prefer_right(before) by {
                        assert(rest.union_prefer_right(views(entries@)) =~= rest.insert(
                            seq,
                            shown,
                        ).union_prefer_right(before));
                    }
                }
                at = at + 1;
            }
        }
        assert(Map::<u64, ObjectView>::empty().union_prefer_right(views(entries@)) =~= views(
            entries@,
        ));
        Ok(ObjectIndex { entries })
    }
}

proof fn lemma_views(map: Map<u64, Object>, all: Seq<(u64, Object)>)
    requires
        in_order(all),
        map == held(all),
    ensures
        views(map) == shown_from(all, 0),
{
    lemma_shown(all, 0);
    assert forall|seq: u64| #[trigger] views(map).contains_key(seq) <==> shown_from(
        all,
        0,
    ).contains_key(seq) by {
        if held(all).contains_key(seq) {
            let i = choose|i: int| crate::ordmap::stands_at(all, seq, i);
            assert(all[i].0 == seq);
        }
        if shown_from(all, 0).contains_key(seq) {
            let i = choose|i: int| 0 <= i < all.len() && (#[trigger] all[i]).0 == seq;
            assert(crate::ordmap::stands_at(all, seq, i));
        }
    }
    assert forall|seq: u64| #[trigger] views(map).contains_key(seq) implies views(map)[seq]
        == shown_from(all, 0)[seq] by {
        let i = choose|i: int| crate::ordmap::stands_at(all, seq, i);
        assert(all[i].0 == seq);
    }
    assert(views(map) =~= shown_from(all, 0));
}

} // verus!
