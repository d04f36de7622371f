//! What the object index keeps of where objects are, and what it answers.

use vstd::prelude::*;

use crate::ingest::lists::lemma_filtered;
use crate::laws::recording::{bare, counts_kind};
use crate::model::{CommitPackLocation, Identity};
use crate::object::{Kind, ObjectId};
use crate::objects::format::ObjectView;
use crate::objects::location::{later, one_per_pack, with_location, with_locations, Location, Ulid};
use crate::objects::read::{
    first_location, has_base, introducing_of, meta_of, resolved_location, Read,
};
use crate::objects::store::{all_numbered, held_among, Held, Shelf};
use crate::objects::write::{
    moved_all, moved_of, moved_to, relocating_all, shelving_all, without_empty, Move, Recorded,
    Relocated,
};

verus! {

/// Two places that differ are in one order, which goes by the pack first, then
/// by where the pack lies, and last by where the entry lies in it.
pub proof fn places_differ_in_one_order(a: Location, b: Location)
    ensures
        !a.precedes(a),
        a.precedes(b) ==> !b.precedes(a),
        a != b ==> a.precedes(b) || b.precedes(a),
        a.pack_seq < b.pack_seq ==> a.precedes(b),
        a.pack_seq == b.pack_seq && a.pack_oid == b.pack_oid ==> {
            &&& a.segment.id.0 < b.segment.id.0 ==> a.precedes(b)
            &&& a.segment.id == b.segment.id ==> {
                &&& a.segment.base_offset < b.segment.base_offset ==> a.precedes(b)
                &&& a.segment.base_offset == b.segment.base_offset ==> {
                    &&& a.segment.image_len < b.segment.image_len ==> a.precedes(b)
                    &&& a.segment.image_len == b.segment.image_len ==> {
                        &&& a.offset < b.offset ==> a.precedes(b)
                        &&& a.offset == b.offset && a.entry_len < b.entry_len ==> a.precedes(b)
                        &&& a.offset == b.offset && a.entry_len == b.entry_len
                            && a.base_seq is None && b.base_seq is Some ==> a.precedes(b)
                    }
                }
            }
        },
{
    if a.pack_seq == b.pack_seq && a.pack_oid != b.pack_oid {
        assert(a.pack_oid.precedes(b.pack_oid) || b.pack_oid.precedes(a.pack_oid));
    }
}

/// Whether an object has a place in a pack.
pub open spec fn is_in(locations: Seq<Location>, pack_seq: i64) -> bool {
    exists|i: int| 0 <= i < locations.len() && (#[trigger] locations[i]).pack_seq == pack_seq
}

/// An object that gains a place has one for each pack, in the order of the
/// packs: the new one in its pack, unless the one that is there comes after it,
/// and the others as they were.
pub proof fn an_object_gains_one_place(locations: Seq<Location>, new: Location)
    requires
        one_per_pack(locations),
    ensures
        one_per_pack(with_location(locations, new)),
        forall|i: int|
            0 <= i < locations.len() && (#[trigger] locations[i]).pack_seq != new.pack_seq
                ==> with_location(locations, new).contains(locations[i]),
        forall|i: int|
            0 <= i < locations.len() && (#[trigger] locations[i]).pack_seq == new.pack_seq
                ==> with_location(locations, new).contains(
                if locations[i].precedes(new) {
                    new
                } else {
                    locations[i]
                },
            ),
        !is_in(locations, new.pack_seq) ==> with_location(locations, new).contains(new),
        forall|k: int|
            0 <= k < with_location(locations, new).len() ==> (locations.contains(
                #[trigger] with_location(locations, new)[k],
            ) || with_location(locations, new)[k] == new),
        forall|k: int|
            0 <= k < with_location(locations, new).len() && (#[trigger] with_location(
                locations,
                new,
            )[k]).pack_seq == new.pack_seq ==> !with_location(locations, new)[k].precedes(new),
    decreases locations.len(),
{
    let after = with_location(locations, new);
    if locations.len() == 0 {
        assert(after[0] == new);
    } else if new.pack_seq < locations[0].pack_seq {
        assert(after[0] == new);
        assert forall|i: int| 0 <= i < locations.len() implies after.contains(
            #[trigger] locations[i],
        ) && locations[i].pack_seq != new.pack_seq by {
            assert(after[i + 1] == locations[i]);
            if i > 0 {
                assert(locations[0].pack_seq < locations[i].pack_seq);
            }
        }
        assert forall|k: int| 0 <= k < after.len() implies locations.contains(#[trigger] after[k])
            || after[k] == new by {
            if k > 0 {
                assert(after[k] == locations[k - 1]);
            }
        }
        assert forall|i: int, j: int| 0 <= i < j < after.len() implies (
        #[trigger] after[i]).pack_seq < (#[trigger] after[j]).pack_seq by {
            assert(after[j] == locations[j - 1]);
            if i > 0 {
                assert(after[i] == locations[i - 1]);
            } else if j > 1 {
                assert(locations[0].pack_seq < locations[j - 1].pack_seq);
            }
        }
        assert forall|k: int|
            0 <= k < after.len() && (#[trigger] after[k]).pack_seq
                == new.pack_seq implies !after[k].precedes(new) by {
            if k > 0 {
                assert(after[k] == locations[k - 1]);
                assert(locations[k - 1].pack_seq != new.pack_seq);
            }
        }
    } else if new.pack_seq == locations[0].pack_seq {
        assert(after[0] == later(locations[0], new));
        assert forall|i: int| 1 <= i < locations.len() implies after.contains(
            #[trigger] locations[i],
        ) && locations[i].pack_seq != new.pack_seq by {
            assert(after[i] == locations[i]);
            assert(locations[0].pack_seq < locations[i].pack_seq);
        }
        assert forall|k: int| 0 <= k < after.len() implies locations.contains(#[trigger] after[k])
            || after[k] == new by {
            if k > 0 {
                assert(after[k] == locations[k]);
            } else {
                assert(locations.contains(locations[0]));
            }
        }
        assert forall|i: int, j: int| 0 <= i < j < after.len() implies (
        #[trigger] after[i]).pack_seq < (#[trigger] after[j]).pack_seq by {
            assert(after[j] == locations[j]);
            assert(locations[i].pack_seq < locations[j].pack_seq);
            if i > 0 {
                assert(after[i] == locations[i]);
            }
        }
        assert forall|k: int|
            0 <= k < after.len() && (#[trigger] after[k]).pack_seq
                == new.pack_seq implies !after[k].precedes(new) by {
            if k > 0 {
                assert(after[k] == locations[k]);
                assert(locations[k].pack_seq != new.pack_seq);
            }
        }
    } else {
        let rest = locations.skip(1);
        let behind = with_location(rest, new);
        assert forall|i: int, j: int| 0 <= i < j < rest.len() implies (
        #[trigger] rest[i]).pack_seq < (#[trigger] rest[j]).pack_seq by {
            assert(rest[i] == locations[i + 1] && rest[j] == locations[j + 1]);
        }
        an_object_gains_one_place(rest, new);
        assert(after == seq![locations[0]] + behind);
        assert(after[0] == locations[0]);
        assert forall|x: Location| behind.contains(x) implies #[trigger] after.contains(x) by {
            let k = choose|k: int| 0 <= k < behind.len() && behind[k] == x;
            assert(after[k + 1] == x);
        }
        assert forall|i: int|
            0 <= i < locations.len() && (#[trigger] locations[i]).pack_seq
                != new.pack_seq implies after.contains(locations[i]) by {
            if i == 0 {
                assert(after[0] == locations[0]);
            } else {
                assert(rest[i - 1] == locations[i]);
                assert(behind.contains(locations[i]));
            }
        }
        assert forall|i: int|
            0 <= i < locations.len() && (#[trigger] locations[i]).pack_seq
                == new.pack_seq implies after.contains(
            if locations[i].precedes(new) {
                new
            } else {
                locations[i]
            },
        ) by {
            assert(rest[i - 1] == locations[i]);
        }
        if !is_in(locations, new.pack_seq) {
            if is_in(rest, new.pack_seq) {
                let i = choose|i: int|
                    0 <= i < rest.len() && (#[trigger] rest[i]).pack_seq == new.pack_seq;
                assert(locations[i + 1].pack_seq == new.pack_seq);
            }
            assert(behind.contains(new));
        }
        assert forall|k: int| 0 <= k < after.len() implies locations.contains(#[trigger] after[k])
            || after[k] == new by {
            if k > 0 {
                assert(after[k] == behind[k - 1]);
                if rest.contains(behind[k - 1]) {
                    let i = choose|i: int| 0 <= i < rest.len() && rest[i] == behind[k - 1];
                    assert(locations[i + 1] == after[k]);
                }
            } else {
                assert(locations.contains(locations[0]));
            }
        }
        assert forall|i: int, j: int| 0 <= i < j < after.len() implies (
        #[trigger] after[i]).pack_seq < (#[trigger] after[j]).pack_seq by {
            assert(after[j] == behind[j - 1]);
            if i > 0 {
                assert(after[i] == behind[i - 1]);
            } else if rest.contains(behind[j - 1]) {
                let k = choose|k: int| 0 <= k < rest.len() && rest[k] == behind[j - 1];
                assert(locations[k + 1] == rest[k]);
                assert(locations[0].pack_seq < locations[k + 1].pack_seq);
            }
        }
        assert forall|k: int|
            0 <= k < after.len() && (#[trigger] after[k]).pack_seq
                == new.pack_seq implies !after[k].precedes(new) by {
            if k > 0 {
                assert(after[k] == behind[k - 1]);
            }
        }
    }
}

/// An object is read from where it was stored first: no place of it is in an
/// earlier pack.
pub proof fn an_object_is_read_where_it_was_first_stored(index: Map<u64, ObjectView>, seq: u64)
    requires
        index.contains_key(seq) ==> one_per_pack(index[seq].locations),
    ensures
        introducing_of(index, seq) is None <==> !index.contains_key(seq)
            || index[seq].locations.len() == 0,
        introducing_of(index, seq) matches Some(place) ==> {
            &&& index[seq].locations.contains(place)
            &&& forall|i: int|
                0 <= i < index[seq].locations.len() ==> place.pack_seq <= (
                #[trigger] index[seq].locations[i]).pack_seq
        },
{
    if introducing_of(index, seq) is Some {
        let places = index[seq].locations;
        assert forall|i: int| 0 <= i < places.len() implies places[0].pack_seq <= (
        #[trigger] places[i]).pack_seq by {
            if i > 0 {
                assert(places[0].pack_seq < places[i].pack_seq);
            }
        }
    }
}

/// A place is answered as it is recorded, with the base's id for its number.
pub proof fn a_place_is_answered_as_recorded(location: Location, base_oids: Map<u64, ObjectId>)
    ensures
        ({
            let answered = resolved_location(location, base_oids);
            &&& answered.image.pack_sha == location.pack_oid
            &&& answered.image.offset == location.offset
            &&& answered.image.entry_len == location.entry_len
            &&& answered.segment == location.segment
            &&& match location.base_seq {
                None => answered.image.base is None,
                Some(seq) => base_oids.contains_key(seq) ==> answered.image.base == Some(
                    base_oids[seq],
                ),
            }
        }),
{
}

/// An object is answered as what it is, under its own number, and where its own
/// shelf has it: a tree from the trees, a blob from the blobs.
pub proof fn an_object_is_answered_from_its_shelf(
    held: Held,
    trees: Option<Read>,
    blobs: Option<Read>,
)
    ensures
        ({
            let meta = meta_of(held, trees, blobs);
            &&& meta.kind == held.kind
            &&& !(held.kind is Commit) ==> (meta.object_seq matches Some(seq) && counts_kind(
                seq,
                held.kind,
            ) && bare(seq) == held.seq)
            &&& held.kind is Commit ==> meta.object_seq is None
            &&& held.kind is Tree && trees is Some ==> is_answered(
                meta.location,
                introducing_of(trees->0.index@, held.seq),
                trees->0.base_oids@,
            )
            &&& held.kind is Blob && blobs is Some ==> is_answered(
                meta.location,
                introducing_of(blobs->0.index@, held.seq),
                blobs->0.base_oids@,
            )
            &&& held.kind is Tree && trees is None ==> meta.location is None
            &&& held.kind is Blob && blobs is None ==> meta.location is None
            &&& held.kind is Tag || held.kind is Commit ==> meta.location is None
        }),
{
}

/// Whether what is answered of a place is that place.
pub open spec fn is_answered(
    answer: Option<CommitPackLocation>,
    place: Option<Location>,
    base_oids: Map<u64, ObjectId>,
) -> bool {
    match place {
        None => answer is None,
        Some(place) => answer == Some(resolved_location(place, base_oids)),
    }
}

/// A tree's first place is looked for among the trees and a blob's among the
/// blobs; nothing else has one.
pub proof fn each_kind_has_its_own_shelf(
    held: Held,
    trees: Map<u64, ObjectView>,
    blobs: Map<u64, ObjectView>,
)
    ensures
        held.kind is Tree ==> first_location(held, trees, blobs) == introducing_of(
            trees,
            held.seq,
        ),
        held.kind is Blob ==> first_location(held, trees, blobs) == introducing_of(
            blobs,
            held.seq,
        ),
        !(held.kind is Tree) && !(held.kind is Blob) ==> first_location(held, trees, blobs) is None,
        Shelf::holding(Kind::Tree) == Some(Shelf::Trees),
        Shelf::holding(Kind::Blob) == Some(Shelf::Blobs),
        Shelf::holding(Kind::Tag) is None && Shelf::holding(Kind::Commit) is None,
        Shelf::Trees.held_kind() is Tree && Shelf::Blobs.held_kind() is Blob,
        Shelf::Trees.path_name() != Shelf::Blobs.path_name(),
{
    reveal_strlit("trees");
    reveal_strlit("blobs");
    assert("trees"@[0] != "blobs"@[0]);
}

/// What is held is every object that is named and is no commit, as its identity
/// says.
pub proof fn each_object_named_is_held(named: Seq<(ObjectId, Identity)>, oid: ObjectId, held: Held)
    ensures
        held_among(named).contains((oid, held)) <==> exists|i: int|
            0 <= i < named.len() && (#[trigger] named[i]).0 == oid && !(named[i].1.kind is Commit)
                && held.kind == named[i].1.kind && held.seq == named[i].1.seq as u64,
{
    let open = |n: (ObjectId, Identity)| n.1.kind != Kind::Commit;
    let pair = |n: (ObjectId, Identity)| (n.0, Held { seq: n.1.seq as u64, kind: n.1.kind });
    let kept = named.filter(open);
    let all = held_among(named);
    assert(all =~= kept.map_values(pair));
    lemma_filtered(named, open);
    if all.contains((oid, held)) {
        let k = choose|k: int| 0 <= k < all.len() && all[k] == (oid, held);
        assert(all[k] == pair(kept[k]));
        assert(kept.contains(kept[k]));
        let i = choose|i: int| 0 <= i < named.len() && named[i] == kept[k];
        assert(named[i].0 == oid);
    }
    if exists|i: int|
        0 <= i < named.len() && (#[trigger] named[i]).0 == oid && !(named[i].1.kind is Commit)
            && held.kind == named[i].1.kind && held.seq == named[i].1.seq as u64 {
        let i = choose|i: int|
            0 <= i < named.len() && (#[trigger] named[i]).0 == oid && !(named[i].1.kind is Commit)
                && held.kind == named[i].1.kind && held.seq == named[i].1.seq as u64;
        assert(named.contains(named[i]) && open(named[i]));
        assert(kept.contains(named[i]));
        let k = choose|k: int| 0 <= k < kept.len() && kept[k] == named[i];
        assert(all[k] == pair(kept[k]));
    }
}

/// A place that moves is in its new segment, further in by the shift, and
/// otherwise as it was.
pub proof fn a_place_moves_with_its_segment(location: Location, into: Ulid, shift: u64)
    requires
        location.segment.base_offset + shift <= u64::MAX,
    ensures
        ({
            let moved = moved_to(location, into, shift);
            &&& moved.segment.id == into
            &&& moved.segment.base_offset == location.segment.base_offset + shift
            &&& moved.segment.image_len == location.segment.image_len
            &&& moved.pack_seq == location.pack_seq
            &&& moved.pack_oid == location.pack_oid
            &&& moved.offset == location.offset
            &&& moved.entry_len == location.entry_len
            &&& moved.base_seq == location.base_seq
        }),
{
}

/// Whether an object has a place in a segment that moves, and `moved` is where
/// it goes.
pub open spec fn is_moved(
    index: Map<u64, ObjectView>,
    wanted: Seq<u64>,
    kind: Kind,
    moves: Map<Ulid, Move>,
    moved: Relocated,
) -> bool {
    &&& wanted.contains(moved.seq)
    &&& moved.kind == kind
    &&& index.contains_key(moved.seq)
    &&& exists|i: int|
        0 <= i < index[moved.seq].locations.len() && moves.contains_key(
            (#[trigger] index[moved.seq].locations[i]).segment.id,
        ) && moved.location == moved_to(
            index[moved.seq].locations[i],
            moves[index[moved.seq].locations[i].segment.id].into,
            moves[index[moved.seq].locations[i].segment.id].shift,
        )
}

proof fn lemma_moved_of(
    seq: u64,
    kind: Kind,
    locations: Seq<Location>,
    moves: Map<Ulid, Move>,
    moved: Relocated,
)
    ensures
        moved_of(seq, kind, locations, moves).contains(moved) <==> moved.seq == seq && moved.kind
            == kind && exists|i: int|
            0 <= i < locations.len() && moves.contains_key((#[trigger] locations[i]).segment.id)
                && moved.location == moved_to(
                locations[i],
                moves[locations[i].segment.id].into,
                moves[locations[i].segment.id].shift,
            ),
{
    let open = |l: Location| moves.contains_key(l.segment.id);
    let go = |l: Location| Relocated {
        seq,
        kind,
        location: moved_to(l, moves[l.segment.id].into, moves[l.segment.id].shift),
    };
    let kept = locations.filter(open);
    let all = moved_of(seq, kind, locations, moves);
    assert(all =~= kept.map_values(go));
    lemma_filtered(locations, open);
    if all.contains(moved) {
        let k = choose|k: int| 0 <= k < all.len() && all[k] == moved;
        assert(all[k] == go(kept[k]));
        assert(kept.contains(kept[k]));
        let i = choose|i: int| 0 <= i < locations.len() && locations[i] == kept[k];
        assert(moves.contains_key(locations[i].segment.id));
    }
    if moved.seq == seq && moved.kind == kind && exists|i: int|
        0 <= i < locations.len() && moves.contains_key((#[trigger] locations[i]).segment.id)
            && moved.location == moved_to(
            locations[i],
            moves[locations[i].segment.id].into,
            moves[locations[i].segment.id].shift,
        ) {
        let i = choose|i: int|
            0 <= i < locations.len() && moves.contains_key((#[trigger] locations[i]).segment.id)
                && moved.location == moved_to(
                locations[i],
                moves[locations[i].segment.id].into,
                moves[locations[i].segment.id].shift,
            );
        assert(locations.contains(locations[i]) && open(locations[i]));
        assert(kept.contains(locations[i]));
        let k = choose|k: int| 0 <= k < kept.len() && kept[k] == locations[i];
        assert(all[k] == go(kept[k]));
    }
}

/// Every place in a segment that moves is moved with it, and no other place.
pub proof fn each_place_in_a_moved_segment_moves(
    index: Map<u64, ObjectView>,
    wanted: Seq<u64>,
    kind: Kind,
    moves: Map<Ulid, Move>,
    moved: Relocated,
)
    ensures
        moved_all(index, wanted, kind, moves).contains(moved) <==> is_moved(
            index,
            wanted,
            kind,
            moves,
            moved,
        ),
    decreases wanted.len(),
{
    if wanted.len() > 0 {
        let rest = wanted.drop_last();
        let last = wanted.last();
        let earlier = moved_all(index, rest, kind, moves);
        let places = crate::objects::index::known(index, last).locations;
        let own = moved_of(last, kind, places, moves);
        let all = moved_all(index, wanted, kind, moves);
        each_place_in_a_moved_segment_moves(index, rest, kind, moves, moved);
        lemma_moved_of(last, kind, places, moves, moved);
        assert(rest.push(last) =~= wanted);
        crate::ingest::lists::lemma_push_contains(rest, last, moved.seq);
        if all.contains(moved) {
            let k = choose|k: int| 0 <= k < all.len() && all[k] == moved;
            if k < earlier.len() {
                assert(earlier[k] == moved);
            } else {
                assert(own[k - earlier.len()] == moved);
                assert(own.contains(moved));
            }
        }
        if earlier.contains(moved) {
            let k = choose|k: int| 0 <= k < earlier.len() && earlier[k] == moved;
            assert(all[k] == moved);
        }
        if own.contains(moved) {
            let k = choose|k: int| 0 <= k < own.len() && own[k] == moved;
            assert(all[earlier.len() + k] == moved);
        }
    }
}

/// Whether an object has a place that is `place`, or that replaced it.
pub open spec fn covers(locations: Seq<Location>, place: Location) -> bool {
    exists|k: int|
        0 <= k < locations.len() && (#[trigger] locations[k]).pack_seq == place.pack_seq
            && !locations[k].precedes(place)
}

proof fn lemma_covers_one(locations: Seq<Location>, new: Location, place: Location)
    requires
        one_per_pack(locations),
        covers(locations, place) || place == new,
    ensures
        covers(with_location(locations, new), place),
{
    let after = with_location(locations, new);
    an_object_gains_one_place(locations, new);
    if place == new {
        if is_in(locations, new.pack_seq) {
            let i = choose|i: int|
                0 <= i < locations.len() && (#[trigger] locations[i]).pack_seq == new.pack_seq;
            let winner = if locations[i].precedes(new) {
                new
            } else {
                locations[i]
            };
            let k = choose|k: int| 0 <= k < after.len() && after[k] == winner;
            assert(after[k].pack_seq == new.pack_seq);
        } else {
            let k = choose|k: int| 0 <= k < after.len() && after[k] == new;
            assert(after[k].pack_seq == new.pack_seq);
        }
    } else {
        let i = choose|k: int|
            0 <= k < locations.len() && (#[trigger] locations[k]).pack_seq == place.pack_seq
                && !locations[k].precedes(place);
        let winner = if locations[i].pack_seq == new.pack_seq && locations[i].precedes(new) {
            new
        } else {
            locations[i]
        };
        assert(after.contains(winner));
        let k = choose|k: int| 0 <= k < after.len() && after[k] == winner;
        assert(after[k].pack_seq == place.pack_seq);
        assert(!winner.precedes(place));
    }
}

pub(crate) proof fn lemma_covers_many(locations: Seq<Location>, new: Seq<Location>, place: Location)
    requires
        one_per_pack(locations),
    ensures
        one_per_pack(with_locations(locations, new)),
        covers(locations, place) || new.contains(place) ==> covers(
            with_locations(locations, new),
            place,
        ),
        with_locations(locations, new).contains(place) ==> locations.contains(place)
            || new.contains(place),
    decreases new.len(),
{
    if new.len() > 0 {
        let rest = new.drop_last();
        let before = with_locations(locations, rest);
        let after = with_locations(locations, new);
        lemma_covers_many(locations, rest, place);
        an_object_gains_one_place(before, new.last());
        assert(rest.push(new.last()) =~= new);
        crate::ingest::lists::lemma_push_contains(rest, new.last(), place);
        if covers(locations, place) || new.contains(place) {
            lemma_covers_one(before, new.last(), place);
        }
        if after.contains(place) {
            let k = choose|k: int| 0 <= k < after.len() && after[k] == place;
            assert(before.contains(after[k]) || after[k] == new.last());
        }
    }
}

/// Whether an object is one that a shelf holds.
pub open spec fn is_for(kind: Kind, shelf: Shelf) -> bool {
    match shelf {
        Shelf::Trees => kind is Tree,
        Shelf::Blobs => kind is Blob,
    }
}

/// Whether every object has one place for each pack.
pub open spec fn all_one_per_pack(index: Map<u64, ObjectView>) -> bool {
    forall|seq: u64| #[trigger]
        index.contains_key(seq) ==> one_per_pack(index[seq].locations)
}

proof fn lemma_shelved_once(objects: Seq<Recorded>, shelf: Shelf)
    ensures
        all_one_per_pack(shelving_all(objects, shelf)),
    decreases objects.len(),
{
    if objects.len() > 0 {
        lemma_shelved_once(objects.drop_last(), shelf);
        let before = shelving_all(objects.drop_last(), shelf);
        let last = objects.last();
        if is_for(last.kind, shelf) {
            if before.contains_key(last.seq) {
                assert(one_per_pack(before[last.seq].locations));
            }
            let held = crate::objects::index::known(before, last.seq).locations;
            assert(one_per_pack(held));
            lemma_many_once(held, last.locations@);
        }
    }
}

proof fn lemma_many_once(locations: Seq<Location>, new: Seq<Location>)
    requires
        one_per_pack(locations),
    ensures
        one_per_pack(with_locations(locations, new)),
    decreases new.len(),
{
    if new.len() > 0 {
        lemma_many_once(locations, new.drop_last());
        an_object_gains_one_place(with_locations(locations, new.drop_last()), new.last());
    }
}

/// Every object of a push that a shelf holds is in what is recorded on it, under
/// its own number: with each of its places, unless a later one replaced it, and
/// with each of its entries.
pub proof fn each_object_is_shelved(
    objects: Seq<Recorded>,
    shelf: Shelf,
    i: int,
    place: Location,
    n: u64,
)
    requires
        0 <= i < objects.len(),
        is_for(objects[i].kind, shelf),
    ensures
        ({
            let index = shelving_all(objects, shelf);
            let object = objects[i];
            &&& object.locations@.contains(place) ==> index.contains_key(object.seq) && covers(
                index[object.seq].locations,
                place,
            )
            &&& object.children@.trees.contains(n) ==> index.contains_key(object.seq)
                && index[object.seq].children.trees.contains(n)
            &&& object.children@.blobs.contains(n) ==> index.contains_key(object.seq)
                && index[object.seq].children.blobs.contains(n)
        }),
    decreases objects.len(),
{
    let rest = objects.drop_last();
    let last = objects.last();
    let before = shelving_all(rest, shelf);
    let object = objects[i];
    lemma_shelved_once(rest, shelf);
    if i < rest.len() {
        each_object_is_shelved(rest, shelf, i, place, n);
        assert(rest[i] == objects[i]);
        if is_for(last.kind, shelf) && last.seq == object.seq && before.contains_key(object.seq) {
            lemma_covers_many(before[object.seq].locations, last.locations@, place);
        }
    } else {
        let held = crate::objects::index::known(before, last.seq).locations;
        if before.contains_key(last.seq) {
            assert(one_per_pack(before[last.seq].locations));
        }
        assert(one_per_pack(held));
        lemma_covers_many(held, last.locations@, place);
        assert(crate::seqs::SeqSets::empty().trees.contains(n) == false);
    }
}

/// Nothing is recorded on a shelf but the places and the entries of the objects
/// of the push that it holds.
pub proof fn nothing_else_is_shelved(
    objects: Seq<Recorded>,
    shelf: Shelf,
    seq: u64,
    place: Location,
    n: u64,
)
    requires
        shelving_all(objects, shelf).contains_key(seq),
    ensures
        shelving_all(objects, shelf)[seq].locations.contains(place) ==> exists|i: int|
            0 <= i < objects.len() && is_for((#[trigger] objects[i]).kind, shelf) && objects[i].seq
                == seq && objects[i].locations@.contains(place),
        shelving_all(objects, shelf)[seq].children.trees.contains(n) ==> exists|i: int|
            0 <= i < objects.len() && is_for((#[trigger] objects[i]).kind, shelf) && objects[i].seq
                == seq && objects[i].children@.trees.contains(n),
        shelving_all(objects, shelf)[seq].children.blobs.contains(n) ==> exists|i: int|
            0 <= i < objects.len() && is_for((#[trigger] objects[i]).kind, shelf) && objects[i].seq
                == seq && objects[i].children@.blobs.contains(n),
    decreases objects.len(),
{
    let rest = objects.drop_last();
    let last = objects.last();
    let before = shelving_all(rest, shelf);
    let after = shelving_all(objects, shelf);
    lemma_shelved_once(rest, shelf);
    assert(objects[objects.len() - 1] == last);
    if before.contains_key(seq) {
        nothing_else_is_shelved(rest, shelf, seq, place, n);
        assert forall|i: int| 0 <= i < rest.len() implies #[trigger] objects[i] == rest[i] by {}
        if before[seq].locations.contains(place) {
            let i = choose|i: int|
                0 <= i < rest.len() && is_for((#[trigger] rest[i]).kind, shelf) && rest[i].seq
                    == seq && rest[i].locations@.contains(place);
            assert(objects[i] == rest[i]);
        }
        if before[seq].children.trees.contains(n) {
            let i = choose|i: int|
                0 <= i < rest.len() && is_for((#[trigger] rest[i]).kind, shelf) && rest[i].seq
                    == seq && rest[i].children@.trees.contains(n);
            assert(objects[i] == rest[i]);
        }
        if before[seq].children.blobs.contains(n) {
            let i = choose|i: int|
                0 <= i < rest.len() && is_for((#[trigger] rest[i]).kind, shelf) && rest[i].seq
                    == seq && rest[i].children@.blobs.contains(n);
            assert(objects[i] == rest[i]);
        }
    }
    if is_for(last.kind, shelf) && last.seq == seq {
        let held = crate::objects::index::known(before, seq).locations;
        if before.contains_key(seq) {
            assert(one_per_pack(before[seq].locations));
        }
        assert(one_per_pack(held));
        lemma_covers_many(held, last.locations@, place);
        assert(!held.contains(place) || before.contains_key(seq));
    }
}

/// Every place that an object of a shelf gains is in what is recorded on it,
/// under the object's number, unless a later one replaced it; and every object
/// there has one place for each pack.
pub proof fn each_gained_place_is_shelved(added: Seq<Relocated>, shelf: Shelf)
    ensures
        all_one_per_pack(relocating_all(added, shelf)),
        forall|i: int|
            0 <= i < added.len() && is_for((#[trigger] added[i]).kind, shelf) ==> {
                &&& relocating_all(added, shelf).contains_key(added[i].seq)
                &&& covers(relocating_all(added, shelf)[added[i].seq].locations, added[i].location)
            },
    decreases added.len(),
{
    if added.len() > 0 {
        let rest = added.drop_last();
        let last = added.last();
        let before = relocating_all(rest, shelf);
        let after = relocating_all(added, shelf);
        each_gained_place_is_shelved(rest, shelf);
        let held = crate::objects::index::known(before, last.seq).locations;
        if before.contains_key(last.seq) {
            assert(one_per_pack(before[last.seq].locations));
        }
        assert(one_per_pack(held));
        an_object_gains_one_place(held, last.location);
        assert forall|i: int|
            0 <= i < added.len() && is_for((#[trigger] added[i]).kind, shelf) implies {
            &&& after.contains_key(added[i].seq)
            &&& covers(after[added[i].seq].locations, added[i].location)
        } by {
            if i < rest.len() {
                assert(rest[i] == added[i]);
                if is_for(last.kind, shelf) && last.seq == added[i].seq {
                    lemma_covers_one(held, last.location, added[i].location);
                }
            } else {
                lemma_covers_one(held, last.location, last.location);
            }
        }
    }
}

/// What an object is stored against is what its first place is against.
pub proof fn a_base_is_that_of_the_first_place(index: Map<u64, ObjectView>, seq: u64)
    ensures
        has_base(index, seq) <==> index.contains_key(seq) && index[seq].locations.len() > 0
            && index[seq].locations[0].base_seq is Some,
{
}

/// What is named is numbered where every object of it but a commit has a number
/// that is not below zero.
pub proof fn only_objects_need_their_numbers(named: Seq<(ObjectId, Identity)>)
    ensures
        all_numbered(named) <==> forall|i: int|
            0 <= i < named.len() && (#[trigger] named[i]).1.seq < 0 ==> named[i].1.kind is Commit,
{
}

/// What is built leaves out the objects with neither places nor entries, and
/// nothing else.
pub proof fn only_what_is_empty_is_left_out(built: Map<u64, ObjectView>, seq: u64)
    ensures
        without_empty(built).contains_key(seq) <==> built.contains_key(seq) && (
        built[seq].locations.len() > 0 || built[seq].children.trees != Set::<u64>::empty()
            || built[seq].children.blobs != Set::<u64>::empty()),
        without_empty(built).contains_key(seq) ==> without_empty(built)[seq] == built[seq],
{
}

} // verus!
