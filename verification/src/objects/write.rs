//! The push path: what a push records of each object, shelf by shelf.

use vstd::prelude::*;

use crate::journal::Index;
use crate::object::{Kind, ObjectId};
use crate::objects::format::ObjectView;
use crate::objects::index::{all_reduced, known, Builder, ObjectIndex};
use crate::objects::location::{with_location, with_locations, Location, SegmentLocation, Ulid};
use crate::objects::store::Shelf;
use crate::ordmap::OrdMap;
use crate::seqs::{ObjectSeqs, SeqSets};

verus! {

/// One object a push is recording.
#[derive(Debug, PartialEq)]
pub struct Recorded {
    /// The number it was allocated.
    pub seq: u64,
    /// What it is called.
    pub oid: ObjectId,
    /// What kind of object it is.
    pub kind: Kind,
    /// Every pack this push knows it to be in.
    pub locations: Vec<Location>,
    /// A tree's direct entries; empty for anything else.
    pub children: ObjectSeqs,
}

/// Which list a shelf's segments are catalogued in.
pub fn index_of(shelf: Shelf) -> (index: Index)
    ensures
        index == (match shelf {
            Shelf::Trees => Index::Trees,
            Shelf::Blobs => Index::Blobs,
        }),
{
    match shelf {
        Shelf::Trees => Index::Trees,
        Shelf::Blobs => Index::Blobs,
    }
}

/// The same entry, in the segment its image was copied into, `shift` bytes
/// further on.
pub open spec fn moved_to(location: Location, into: Ulid, shift: u64) -> Location {
    let sum = location.segment.base_offset + shift;
    Location {
        segment: SegmentLocation {
            id: into,
            base_offset: if sum > u64::MAX {
                u64::MAX
            } else {
                sum as u64
            },
            image_len: location.segment.image_len,
        },
        ..location
    }
}

/// The same entry, in the segment its image was copied into.
pub fn at(location: Location, into: Ulid, shift: u64) -> (moved: Location)
    ensures
        moved == moved_to(location, into, shift),
{
    Location {
        segment: SegmentLocation {
            id: into,
            base_offset: location.segment.base_offset.saturating_add(shift),
            image_len: location.segment.image_len,
        },
        ..location
    }
}

/// What is built once one object's locations and entries were put in; an
/// object with neither leaves no trace.
pub open spec fn shelving(built: Map<u64, ObjectView>, object: Recorded) -> Map<u64, ObjectView> {
    let before = known(built, object.seq);
    let after = ObjectView {
        locations: with_locations(before.locations, object.locations@),
        children: before.children.union(object.children@),
    };
    if object.locations@.len() == 0 && object.children@ == SeqSets::empty() {
        built
    } else {
        built.insert(object.seq, after)
    }
}

/// Puts one object's locations and entries into the builder for its shelf.
fn shelve(builder: &mut Builder, object: &Recorded)
    ensures
        final(builder)@ == shelving(old(builder)@, *object),
        all_reduced(old(builder)@) ==> all_reduced(final(builder)@),
{
    let ghost first = builder@;
    let ghost before = known(first, object.seq);
    let mut i: usize = 0;
    assert(object.locations@.take(0) =~= Seq::<Location>::empty());
    while i < object.locations.len()
        invariant
            i <= object.locations@.len(),
            before == known(first, object.seq),
            first == old(builder)@,
            builder@ == (if i == 0 {
                first
            } else {
                first.insert(
                    object.seq,
                    ObjectView {
                        locations: with_locations(
                            before.locations,
                            object.locations@.take(i as int),
                        ),
                        ..before
                    },
                )
            }),
            all_reduced(first) ==> all_reduced(builder@),
        decreases object.locations@.len() - i,
    {
        let ghost step = builder@;
        builder.locate(object.seq, object.locations[i]);
        proof {
            assert(object.locations@.take(i + 1).drop_last() =~= object.locations@.take(i as int));
            assert(builder@ =~= first.insert(
                object.seq,
                ObjectView {
                    locations: with_locations(before.locations, object.locations@.take(i + 1)),
                    ..before
                },
            ));
        }
        i = i + 1;
    }
    assert(object.locations@.take(i as int) =~= object.locations@);
    let ghost located = builder@;
    if !object.children.is_empty() {
        builder.children(object.seq, &object.children);
    }
    proof {
        assert(before.children.union(SeqSets::empty()) =~= before.children);
        assert(builder@ =~= shelving(first, *object));
    }
}

/// What the objects of one shelf come to, one after the other.
pub open spec fn shelving_all(objects: Seq<Recorded>, shelf: Shelf) -> Map<u64, ObjectView>
    decreases objects.len(),
{
    if objects.len() == 0 {
        Map::empty()
    } else {
        let before = shelving_all(objects.drop_last(), shelf);
        if Shelf::holding(objects.last().kind) == Some(shelf) {
            shelving(before, objects.last())
        } else {
            before
        }
    }
}

/// The built objects without those that have nothing in them.
pub open spec fn without_empty(built: Map<u64, ObjectView>) -> Map<u64, ObjectView> {
    built.restrict(Set::new(|seq: u64| built.contains_key(seq) && !built[seq].is_empty()))
}

/// What a push records on one shelf; none where no object of it is held there.
///
/// A tree and a blob go to different shelves, and a tag to neither: it is never
/// packed, so identity is all there is to say about one.
pub fn record(objects: &[Recorded], shelf: Shelf) -> (index: Option<ObjectIndex>)
    ensures
        match index {
            Some(index) => {
                &&& index@ == without_empty(shelving_all(objects@, shelf))
                &&& all_reduced(index@)
                &&& exists|i: int|
                    0 <= i < objects@.len() && Shelf::holding((#[trigger] objects@[i]).kind)
                        == Some(shelf)
            },
            None => forall|i: int|
                0 <= i < objects@.len() ==> Shelf::holding((#[trigger] objects@[i]).kind) != Some(
                    shelf,
                ),
        },
{
    let mut builder = Builder::new();
    let mut any: bool = false;
    let mut i: usize = 0;
    assert(objects@.take(0) =~= Seq::<Recorded>::empty());
    while i < objects.len()
        invariant
            i <= objects@.len(),
            builder@ == shelving_all(objects@.take(i as int), shelf),
            all_reduced(builder@),
            any ==> exists|j: int|
                0 <= j < objects@.len() && Shelf::holding((#[trigger] objects@[j]).kind) == Some(
                    shelf,
                ),
            !any ==> forall|j: int|
                0 <= j < i ==> Shelf::holding((#[trigger] objects@[j]).kind) != Some(shelf),
        decreases objects@.len() - i,
    {
        assert(objects@.take(i + 1).drop_last() =~= objects@.take(i as int));
        let here: bool = match Shelf::for_kind(objects[i].kind) {
            Some(other) => other == shelf,
            None => false,
        };
        if here {
            any = true;
            assert(Shelf::holding(objects@[i as int].kind) == Some(shelf));
            shelve(&mut builder, &objects[i]);
        }
        i = i + 1;
    }
    assert(objects@.take(i as int) =~= objects@);
    if any {
        Some(builder.build())
    } else {
        None
    }
}

/// A pack added to an object that the repository already holds.
#[derive(Clone, Copy, Debug, PartialEq, Eq, Structural)]
pub struct Relocated {
    pub seq: u64,
    pub kind: Kind,
    pub location: Location,
}

/// What the added packs of one shelf come to, one after the other.
pub open spec fn relocating_all(added: Seq<Relocated>, shelf: Shelf) -> Map<u64, ObjectView>
    decreases added.len(),
{
    if added.len() == 0 {
        Map::empty()
    } else {
        let before = relocating_all(added.drop_last(), shelf);
        let one = added.last();
        if Shelf::holding(one.kind) == Some(shelf) {
            before.insert(
                one.seq,
                ObjectView {
                    locations: with_location(known(before, one.seq).locations, one.location),
                    ..known(before, one.seq)
                },
            )
        } else {
            before
        }
    }
}

/// The packs added to objects of one shelf; none where there are none.
///
/// A re-inclusion writes no identity and no children, so this is the grow-only
/// half of a record on its own.
pub fn relocate(added: &[Relocated], shelf: Shelf) -> (index: Option<ObjectIndex>)
    ensures
        match index {
            Some(index) => {
                &&& index@ == without_empty(relocating_all(added@, shelf))
                &&& all_reduced(index@)
                &&& exists|i: int|
                    0 <= i < added@.len() && Shelf::holding((#[trigger] added@[i]).kind) == Some(
                        shelf,
                    )
            },
            None => forall|i: int|
                0 <= i < added@.len() ==> Shelf::holding((#[trigger] added@[i]).kind) != Some(
                    shelf,
                ),
        },
{
    let mut builder = Builder::new();
    let mut any: bool = false;
    let mut i: usize = 0;
    assert(added@.take(0) =~= Seq::<Relocated>::empty());
    while i < added.len()
        invariant
            i <= added@.len(),
            builder@ == relocating_all(added@.take(i as int), shelf),
            all_reduced(builder@),
            any ==> exists|j: int|
                0 <= j < added@.len() && Shelf::holding((#[trigger] added@[j]).kind) == Some(shelf),
            !any ==> forall|j: int|
                0 <= j < i ==> Shelf::holding((#[trigger] added@[j]).kind) != Some(shelf),
        decreases added@.len() - i,
    {
        assert(added@.take(i + 1).drop_last() =~= added@.take(i as int));
        let one = added[i];
        let here: bool = match Shelf::for_kind(one.kind) {
            Some(other) => other == shelf,
            None => false,
        };
        if here {
            any = true;
            assert(Shelf::holding(added@[i as int].kind) == Some(shelf));
            builder.locate(one.seq, one.location);
        }
        i = i + 1;
    }
    assert(added@.take(i as int) =~= added@);
    if any {
        Some(builder.build())
    } else {
        None
    }
}

/// Where a segment's images were copied to, and by how much they moved.
#[derive(Clone, Copy, Debug, PartialEq, Eq, Structural)]
pub struct Move {
    pub into: Ulid,
    pub shift: u64,
}

/// The locations of one object whose segment was moved, as they read after the
/// move.
pub open spec fn moved_of(
    seq: u64,
    kind: Kind,
    locations: Seq<Location>,
    moved: Map<Ulid, Move>,
) -> Seq<Relocated> {
    locations.filter(|l: Location| moved.contains_key(l.segment.id)).map_values(
        |l: Location| Relocated {
            seq,
            kind,
            location: moved_to(l, moved[l.segment.id].into, moved[l.segment.id].shift),
        },
    )
}

/// The locations of all of `wanted` whose segment was moved.
pub open spec fn moved_all(
    index: Map<u64, ObjectView>,
    wanted: Seq<u64>,
    kind: Kind,
    moved: Map<Ulid, Move>,
) -> Seq<Relocated>
    decreases wanted.len(),
{
    if wanted.len() == 0 {
        Seq::empty()
    } else {
        moved_all(index, wanted.drop_last(), kind, moved) + moved_of(
            wanted.last(),
            kind,
            known(index, wanted.last()).locations,
            moved,
        )
    }
}

/// Every location of `wanted` that names a segment `moved` lists, as it would
/// read after the move.
pub fn moved_locations(
    index: &ObjectIndex,
    wanted: &[u64],
    shelf: Shelf,
    moved: &OrdMap<Ulid, Move>,
) -> (found: Vec<Relocated>)
    ensures
        found@ == moved_all(index@, wanted@, shelf.held_kind(), moved@),
{
    let kind = shelf.kind();
    let mut found: Vec<Relocated> = Vec::new();
    let mut i: usize = 0;
    assert(wanted@.take(0) =~= Seq::<u64>::empty());
    while i < wanted.len()
        invariant
            i <= wanted@.len(),
            found@ == moved_all(index@, wanted@.take(i as int), kind, moved@),
        decreases wanted@.len() - i,
    {
        let seq: u64 = wanted[i];
        assert(wanted@.take(i + 1).drop_last() =~= wanted@.take(i as int));
        match index.get(seq) {
            None => {
                proof {
                    reveal(Seq::filter);
                    let nothing = moved_of(seq, kind, Seq::empty(), moved@);
                    assert(nothing =~= Seq::<Relocated>::empty());
                    assert(found@ =~= found@ + nothing);
                }
            },
            Some(object) => {
                push_moved(seq, kind, &object.locations, moved, &mut found);
            },
        }
        i = i + 1;
    }
    assert(wanted@.take(i as int) =~= wanted@);
    found
}

fn push_moved(
    seq: u64,
    kind: Kind,
    locations: &Vec<Location>,
    moved: &OrdMap<Ulid, Move>,
    found: &mut Vec<Relocated>,
)
    ensures
        final(found)@ == old(found)@ + moved_of(seq, kind, locations@, moved@),
{
    let mut i: usize = 0;
    proof {
        reveal(Seq::filter);
        assert(locations@.take(0) =~= Seq::<Location>::empty());
        assert(moved_of(seq, kind, locations@.take(0), moved@) =~= Seq::<Relocated>::empty());
        assert(found@ =~= old(found)@ + Seq::<Relocated>::empty());
    }
    while i < locations.len()
        invariant
            i <= locations@.len(),
            found@ == old(found)@ + moved_of(seq, kind, locations@.take(i as int), moved@),
        decreases locations@.len() - i,
    {
        let ghost before = moved_of(seq, kind, locations@.take(i as int), moved@);
        proof {
            reveal(Seq::filter);
            assert(locations@.take(i + 1).drop_last() =~= locations@.take(i as int));
        }
        let l = locations[i];
        match moved.get(&l.segment.id) {
            None => {
                assert(moved_of(seq, kind, locations@.take(i + 1), moved@) =~= before);
            },
            Some(to) => {
                let one = Relocated { seq, kind, location: at(l, to.into, to.shift) };
                found.push(one);
                assert(moved_of(seq, kind, locations@.take(i + 1), moved@) =~= before.push(one));
                assert(found@ =~= old(found)@ + before.push(one));
            },
        }
        i = i + 1;
    }
    assert(locations@.take(i as int) =~= locations@);
}

} // verus!
