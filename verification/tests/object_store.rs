use enroute_git::error::Error;
use enroute_git::journal::Index;
use enroute_git::model::{Identity, ObjectMeta, ObjectSeq};
use enroute_git::object::{Kind, ObjectId};
use enroute_git::objects::index::ObjectIndex;
use enroute_git::objects::location::{Location, SegmentLocation, Ulid};
use enroute_git::objects::read::{
    assemble, bases_of, children_of, first_packs, held_on, packs_of, resolved, shelved, Read,
};
use enroute_git::objects::store::{as_i64, from_i64, held_objects, Held, Shelf};
use enroute_git::objects::walk::{chain_depth, ChainWalk, TreeWalk};
use enroute_git::objects::write::{
    at, index_of, moved_locations, record, relocate, Move, Recorded, Relocated,
};
use enroute_git::ordmap::OrdMap;
use enroute_git::seqs::ObjectSeqs;

fn oid(n: u8) -> ObjectId {
    ObjectId::from_bytes(&[n; 20])
}

fn location(pack_seq: i64, base_seq: Option<u64>) -> Location {
    let seed = pack_seq.unsigned_abs();
    Location {
        pack_seq,
        pack_oid: oid(u8::try_from(pack_seq % 251).unwrap_or(0)),
        segment: SegmentLocation {
            id: Ulid(u128::from(seed) + 1),
            base_offset: seed + 2,
            image_len: seed + 3,
        },
        offset: seed + 4,
        entry_len: seed + 5,
        base_seq,
    }
}

fn recorded(seq: u64, byte: u8, kind: Kind, pack_seq: i64, base: Option<u64>) -> Recorded {
    Recorded {
        seq,
        oid: oid(byte),
        kind,
        locations: vec![location(pack_seq, base)],
        children: ObjectSeqs::new(),
    }
}

/// A tree with two children, those two blobs, and a tag. Each kind is counted
/// apart, so the tree and the first blob hold one number.
fn seeded() -> Vec<Recorded> {
    let mut tree = recorded(1, 10, Kind::Tree, 1, None);
    tree.children.insert_blob(1);
    tree.children.insert_blob(2);
    vec![
        tree,
        recorded(1, 11, Kind::Blob, 1, None),
        recorded(2, 12, Kind::Blob, 1, Some(1)),
        recorded(1, 13, Kind::Tag, 1, None),
    ]
}

fn named(objects: &[Recorded]) -> Vec<(ObjectId, Held)> {
    let identities: Vec<(ObjectId, Identity)> = objects
        .iter()
        .map(|object| (object.oid, Identity { seq: object.seq as i64, kind: object.kind }))
        .collect();
    held_objects(&identities).expect("no negative number")
}

fn lookup(objects: &[Recorded], wanted: &[(ObjectId, Held)]) -> Vec<(ObjectId, ObjectMeta)> {
    let read = |shelf: Shelf| {
        let index = record(objects, shelf)?;
        let mut base_oids = OrdMap::new();
        for base in bases_of(&index, &held_on(wanted, shelf)) {
            let object = objects
                .iter()
                .find(|object| object.kind == shelf.kind() && object.seq == base)
                .expect("a base is recorded");
            base_oids.insert(base, object.oid);
        }
        Some(Read { index, base_oids })
    };
    assemble(wanted, &read(Shelf::Trees), &read(Shelf::Blobs))
}

#[test]
fn an_object_reads_back_with_its_kind_and_location() {
    let objects = seeded();
    let found = lookup(&objects, &named(&objects));
    assert_eq!(found.len(), 4);
    for (oid, meta) in &found {
        let written = objects.iter().find(|o| o.oid == *oid).expect("one of ours");
        assert_eq!(meta.kind, written.kind);
        assert_eq!(meta.object_seq, ObjectSeq::of(written.kind, written.seq));
        if written.kind == Kind::Tag {
            assert!(meta.location.is_none(), "a tag is never packed");
        } else {
            let location = meta.location.expect("a packed object has a location");
            assert_eq!(location.image.entry_len, written.locations[0].entry_len);
            assert_eq!(location.segment, written.locations[0].segment);
        }
    }
}

#[test]
fn a_delta_reports_the_oid_of_its_base() {
    let objects = seeded();
    let found = lookup(&objects, &named(&objects)[2..3]);
    assert_eq!(
        found[0].1.location.expect("a location").image.base,
        Some(objects[1].oid),
        "the base's oid, not its seq"
    );
    let bare = resolved(&objects[2].locations[0], &OrdMap::new());
    assert_eq!(bare.image.base, None);
}

#[test]
fn a_tree_walk_reads_only_trees() {
    let objects = seeded();
    let trees = record(&objects, Shelf::Trees).expect("a tree");
    let seqs: Vec<u64> = objects.iter().map(|o| o.seq).collect();
    let children = children_of(&trees, &seqs);
    assert_eq!(children.len(), 1, "only the tree has entries");
    let entries = children.get(&objects[0].seq).expect("the tree's entries");
    assert!(entries.trees.is_empty(), "the tree names no tree");
    assert_eq!(entries.blobs.iter().collect::<Vec<u64>>(), vec![1, 2]);

    let mut walk = TreeWalk::new(&[1]);
    assert_eq!(walk.frontier(), &[1]);
    walk.step(&trees);
    assert!(walk.frontier().is_empty());
    let seen = walk.into_seen();
    assert_eq!(seen.trees.iter().collect::<Vec<u64>>(), vec![1]);
    assert_eq!(seen.blobs.iter().collect::<Vec<u64>>(), vec![1, 2]);
}

#[test]
fn a_walk_meets_a_shared_tree_once() {
    let mut top = recorded(1, 1, Kind::Tree, 1, None);
    top.children.insert_tree(2);
    top.children.insert_tree(3);
    let mut left = recorded(2, 2, Kind::Tree, 1, None);
    left.children.insert_tree(3);
    let shared = recorded(3, 3, Kind::Tree, 1, None);
    let trees = record(&[top, left, shared], Shelf::Trees).expect("trees");
    let mut walk = TreeWalk::new(&[1]);
    walk.step(&trees);
    assert_eq!(walk.frontier().len(), 2);
    walk.step(&trees);
    assert!(walk.frontier().is_empty(), "the shared tree was met one step earlier");
    assert_eq!(walk.into_seen().trees.len(), 3);
}

#[test]
fn an_unknown_number_is_absent_rather_than_an_error() {
    let blobs = record(&seeded(), Shelf::Blobs).expect("blobs");
    assert!(packs_of(&blobs, 200).is_empty());
    let mut walk = ChainWalk::new(200, 64);
    assert_eq!(walk.walk(&blobs), None);
    assert!(walk.locations().is_empty());
    assert_eq!(chain_depth(0), None);
}

#[test]
fn a_re_inclusion_adds_a_pack_without_replacing_one() {
    let objects = seeded();
    let trees = record(&objects, Shelf::Trees).expect("a tree");
    let mut blobs = record(&objects, Shelf::Blobs).expect("blobs");
    let added = [Relocated { seq: 1, kind: Kind::Blob, location: location(9, None) }];
    assert!(relocate(&added, Shelf::Trees).is_none());
    blobs.join(relocate(&added, Shelf::Blobs).expect("one blob"));
    assert_eq!(packs_of(&blobs, 1).len(), 2, "both packs, not the newer one alone");
    let first = first_packs(&named(&objects)[1..2], &trees, &blobs);
    assert_eq!(first.get(&oid(11)), Some(&1), "the introducing pack is still the lowest");
}

#[test]
fn a_delta_chain_walks_hop_by_hop() {
    let blobs = record(&seeded(), Shelf::Blobs).expect("blobs");
    let mut walk = ChainWalk::new(2, 64);
    assert_eq!(walk.walk(&blobs), None);
    let chain = walk.locations();
    assert_eq!(chain.len(), 2, "the delta and the whole entry under it");
    assert!(chain.iter().all(|hop| hop.image.base.is_none()));
    assert_eq!(chain_depth(chain.len()), Some(1), "one hop deep");
    assert_eq!(chain_depth(1), Some(0), "a whole entry");

    let mut capped = ChainWalk::new(2, 0);
    assert_eq!(capped.walk(&blobs), None);
    assert_eq!(capped.locations().len(), 1, "no hop beyond the first");
}

#[test]
fn a_chain_asks_for_what_was_not_read() {
    let delta = record(&[recorded(2, 12, Kind::Blob, 1, Some(1))], Shelf::Blobs).unwrap();
    let whole = record(&[recorded(1, 11, Kind::Blob, 1, None)], Shelf::Blobs).unwrap();
    let mut walk = ChainWalk::new(2, 64);
    assert_eq!(walk.walk(&delta), Some(1));
    assert_eq!(walk.walk(&whole), None);
    assert_eq!(walk.locations().len(), 2);
    let mut stuck = ChainWalk::new(2, 64);
    assert_eq!(stuck.walk(&delta), Some(1));
    assert_eq!(stuck.walk(&ObjectIndex::new()), None, "asked for once, and not there");
}

#[test]
fn seqs_resolve_back_to_oids_and_kinds() {
    let objects = seeded();
    let numbered: Vec<ObjectSeq> =
        objects.iter().filter_map(|o| ObjectSeq::of(o.kind, o.seq)).collect();
    assert_eq!(shelved(&numbered, Shelf::Trees), vec![1]);
    assert_eq!(shelved(&numbered, Shelf::Blobs), vec![1, 2], "the tag is on no shelf");
}

#[test]
fn one_number_in_two_spaces_is_two_objects() {
    let objects = seeded();
    let found = lookup(&objects, &named(&objects)[..2]);
    assert_eq!(found[0].1.object_seq, Some(ObjectSeq::Tree(1)));
    assert_eq!(found[1].1.object_seq, Some(ObjectSeq::Blob(1)));
    assert_eq!(Shelf::for_kind(Kind::Commit), None);
    assert_eq!(Shelf::for_kind(Kind::Tag), None);
    for shelf in [Shelf::Trees, Shelf::Blobs] {
        assert_eq!(Shelf::for_kind(shelf.kind()), Some(shelf));
    }
    assert_ne!(Shelf::Trees.name(), Shelf::Blobs.name());
    assert!(matches!(
        (index_of(Shelf::Trees), index_of(Shelf::Blobs)),
        (Index::Trees, Index::Blobs)
    ));
}

#[test]
fn numbers_keep_to_what_both_sides_hold() {
    assert_eq!(as_i64(&[0, 7]), Ok(vec![0, 7]));
    assert_eq!(as_i64(&[1 << 63]), Err(Error::SeqTooLarge));
    assert_eq!(from_i64(&[(7, oid(1))]), Ok(vec![(7, oid(1))]));
    assert_eq!(from_i64(&[(-1, oid(1))]), Err(Error::NegativeSeq));
    assert_eq!(
        Held::of(Identity { seq: -1, kind: Kind::Blob }),
        Err(Error::NegativeSeq)
    );
    let held = Held::of(Identity { seq: 3, kind: Kind::Blob }).unwrap();
    assert_eq!((held.shelf(), held.numbered()), (Some(Shelf::Blobs), Some(ObjectSeq::Blob(3))));
}

#[test]
fn a_moved_segment_moves_the_locations_in_it_alone() {
    let blobs = record(&seeded(), Shelf::Blobs).expect("blobs");
    let from = location(1, None).segment;
    let mut moved = OrdMap::new();
    moved.insert(from.id, Move { into: Ulid(77), shift: 100 });
    let found = moved_locations(&blobs, &[1, 2], Shelf::Blobs, &moved);
    assert_eq!(found.len(), 2);
    assert_eq!(found[0].seq, 1);
    assert_eq!(found[0].location, at(location(1, None), Ulid(77), 100));
    assert_eq!(found[0].location.segment.id, Ulid(77));
    assert_eq!(found[0].location.segment.base_offset, from.base_offset + 100);
    let mut elsewhere = OrdMap::new();
    elsewhere.insert(Ulid(1234), Move { into: Ulid(77), shift: 100 });
    assert!(moved_locations(&blobs, &[1, 2], Shelf::Blobs, &elsewhere).is_empty());
}

#[test]
fn sets_of_numbers_are_joined() {
    let mut a = ObjectSeqs::new();
    assert!(a.is_empty());
    a.insert_tree(1);
    let mut b = ObjectSeqs::new();
    b.insert_blob(1);
    a.absorb(&b);
    let copy = a.duplicate();
    assert_eq!(copy, a);
    assert_eq!((copy.trees.len(), copy.blobs.len()), (1, 1));
    assert!(!a.is_empty());
}
