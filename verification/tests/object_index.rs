use enroute_git::object::ObjectId;
use enroute_git::objects::format::{Frame, Malformed};
use enroute_git::objects::index::{Builder, KeyRange, ObjectIndex};
use enroute_git::objects::location::{Location, SegmentLocation, Ulid};
use enroute_git::seqs::ObjectSeqs;

fn oid(n: u8) -> ObjectId {
    ObjectId::from_bytes(&[n; 20])
}

fn location(pack_seq: i64, base_seq: Option<u64>) -> Location {
    let seed = pack_seq.unsigned_abs();
    Location {
        pack_seq,
        pack_oid: oid(u8::try_from(pack_seq % 251).unwrap_or(0)),
        segment: SegmentLocation {
            id: Ulid(u128::from(seed) + 1),
            base_offset: seed + 2,
            image_len: seed + 3,
        },
        offset: seed + 4,
        entry_len: seed + 5,
        base_seq,
    }
}

/// Odd numbers are blobs.
fn children(values: &[u64]) -> ObjectSeqs {
    ObjectSeqs {
        trees: values.iter().copied().filter(|v| v % 2 == 0).collect(),
        blobs: values.iter().copied().filter(|v| v % 2 == 1).collect(),
    }
}

#[test]
fn an_object_reads_back_with_every_pack_it_is_in() {
    let mut builder = Builder::new();
    builder.locate(7, location(3, None));
    builder.locate(7, location(1, Some(4)));
    let index = builder.build();

    let object = index.get(7).expect("the object just inserted");
    assert_eq!(
        object.locations.iter().map(|l| l.pack_seq).collect::<Vec<_>>(),
        vec![1, 3],
        "lowest pack seq first, whatever order they arrived in"
    );
    assert_eq!(
        object.introducing().map(|l| l.pack_seq),
        Some(1),
        "the introducing pack is the lowest, with no column saying so"
    );
    assert_eq!(object.introducing().and_then(|l| l.base_seq), Some(4));
    assert!(index.get(6).is_none());
}

#[test]
fn the_same_location_twice_is_recorded_once() {
    let mut builder = Builder::new();
    builder.locate(1, location(2, None));
    builder.locate(1, location(2, None));
    let index = builder.build();
    assert_eq!(index.get(1).expect("the object").locations.len(), 1);
}

#[test]
fn a_tree_carries_its_entries_and_a_blob_carries_none() {
    let mut builder = Builder::new();
    builder.locate(1, location(1, None));
    builder.children(1, &children(&[4, 9, 900_000]));
    builder.locate(2, location(1, None));
    let index = builder.build();

    assert_eq!(index.get(1).expect("the tree").children, children(&[4, 9, 900_000]));
    assert!(index.get(2).expect("the blob").children.is_empty());
    assert_eq!(ObjectIndex::decode(&index.encoded()).expect("round trip"), index);
}

#[test]
fn an_empty_index_holds_and_says_nothing() {
    let index = Builder::new().build();
    assert!(index.get(0).is_none());
    assert_eq!(index.range(), None);
    assert_eq!(ObjectIndex::decode(&index.encoded()).expect("round trip"), index);
}

#[test]
fn a_segment_leads_with_its_first_number_and_its_counts() {
    let mut builder = Builder::new();
    builder.locate(0x0102, location(1, None));
    builder.locate(7, location(1, None));
    let bytes = builder.build().encoded();
    let heap = 2 * (4 + 84u32);
    assert_eq!(bytes[..4], *b"OIX1");
    assert_eq!(bytes[8..16], 7u64.to_le_bytes());
    assert_eq!(bytes[16..20], 2u32.to_le_bytes());
    assert_eq!(bytes[20..24], heap.to_le_bytes());
    assert_eq!(bytes[24..32], 7u64.to_le_bytes());
    assert_eq!(bytes[32..36], 0u32.to_le_bytes(), "its places stand first on the heap");
    assert_eq!(bytes[36..44], [0xff; 8], "and it names nothing");
    assert_eq!(bytes[44..52], 0x0102u64.to_le_bytes());
    assert_eq!(bytes[52..56], (heap / 2).to_le_bytes());
    assert_eq!(bytes.len(), 24 + 2 * 20 + heap as usize);
    assert_eq!(bytes[64..68], 1u32.to_le_bytes());

    let mut appended = b"before".to_vec();
    let mut builder = Builder::new();
    builder.locate(0x0102, location(1, None));
    builder.locate(7, location(1, None));
    builder.build().encode(&mut appended);
    assert_eq!(appended[6..], bytes);
}

#[test]
fn a_wide_gap_costs_two_entries_and_no_more() {
    let mut builder = Builder::new();
    builder.locate(0, location(1, None));
    builder.locate(1_000_000, location(1, None));
    let index = builder.build();

    assert!(index.get(0).is_some() && index.get(1_000_000).is_some());
    assert!(index.get(500_000).is_none(), "the gap holds nothing");
    assert_eq!(
        index.range(),
        Some(KeyRange::new(0, 1_000_000).expect("a range"))
    );
    assert!(
        index.encoded().len() < 300,
        "a million-wide gap must not be a million slots: {}",
        index.encoded().len()
    );
}

#[test]
fn bytes_that_are_not_an_object_index_are_refused() {
    assert_eq!(ObjectIndex::decode(&[]), Err(Malformed::Frame(Frame::Short(0))));
    assert!(matches!(
        ObjectIndex::decode(&[0; 24]),
        Err(Malformed::Frame(Frame::Magic { .. }))
    ));

    let mut builder = Builder::new();
    builder.locate(1, location(1, None));
    let good = builder.build().encoded();

    let mut wrong_version = good.clone();
    wrong_version[4] = 99;
    assert_eq!(
        ObjectIndex::decode(&wrong_version),
        Err(Malformed::Frame(Frame::Version(99)))
    );

    let truncated = good.get(..good.len() - 1).expect("shorter").to_vec();
    assert!(matches!(
        ObjectIndex::decode(&truncated),
        Err(Malformed::Frame(Frame::Truncated { .. }))
    ));
}

#[test]
fn entries_out_of_order_are_refused() {
    let mut builder = Builder::new();
    builder.locate(1, location(1, None));
    builder.locate(2, location(1, None));
    let mut bytes = builder.build().encoded();

    let (first, second) = (24, 24 + 20);
    for byte in 0..8 {
        bytes.swap(first + byte, second + byte);
    }
    assert_eq!(ObjectIndex::decode(&bytes), Err(Malformed::Unsorted(1)));
}

#[test]
fn a_heap_reference_outside_the_heap_is_refused() {
    let mut builder = Builder::new();
    builder.locate(3, location(1, None));
    let mut bytes = builder.build().encoded();
    let at = 24 + 8;
    bytes[at..at + 4].copy_from_slice(&9_999_u32.to_le_bytes());
    assert_eq!(ObjectIndex::decode(&bytes), Err(Malformed::StrayHeap(9_999)));
}

fn moved(location: Location, segment: u128) -> Location {
    Location {
        segment: SegmentLocation { id: Ulid(segment), ..location.segment },
        ..location
    }
}

fn one(seq: u64, location: Location) -> ObjectIndex {
    let mut builder = Builder::new();
    builder.locate(seq, location);
    builder.build()
}

#[test]
fn a_moved_image_replaces_the_location_it_moved_from() {
    let before = location(3, None);
    let after = moved(before, before.segment.id.0 + 1000);

    let mut joined = one(7, before);
    joined.join(one(7, after));

    assert_eq!(
        joined.get(7).expect("the object").locations,
        vec![after],
        "the older segment's location outlived the copy"
    );
}

#[test]
fn a_moved_image_wins_from_either_side() {
    let before = location(3, None);
    let after = moved(before, before.segment.id.0 + 1000);

    let joined = |first: Location, second: Location| {
        let mut index = one(7, first);
        index.join(one(7, second));
        index.get(7).expect("the object").locations.clone()
    };

    assert_eq!(joined(before, after), joined(after, before));
    assert_eq!(joined(before, after), vec![after]);
}

#[test]
fn separate_packs_keep_a_location_each() {
    let mut builder = Builder::new();
    builder.locate(7, location(3, None));
    builder.locate(7, location(5, None));

    assert_eq!(
        builder.build().get(7).expect("the object").locations.len(),
        2,
        "an object in two packs is in two packs"
    );
}

/// A pack learned by one segment and a pack learned by another are both true
/// of the object.
#[test]
fn joining_unions_the_packs_an_object_is_in() {
    for seq in [0u64, 1, 39] {
        let mut first = Builder::new();
        first.locate(seq, location(1, None));
        first.children(seq, &children(&[10]));
        let mut first = first.build();

        let mut second = Builder::new();
        second.locate(seq, location(5, Some(2)));
        second.children(seq, &children(&[20]));

        first.join(second.build());
        let object = first.get(seq).expect("the object");
        assert_eq!(
            object.locations.iter().map(|l| l.pack_seq).collect::<Vec<_>>(),
            vec![1, 5]
        );
        assert_eq!(object.children, children(&[10, 20]));
    }
}

fn sample(seeds: &[u64]) -> ObjectIndex {
    let mut builder = Builder::new();
    for &seed in seeds {
        builder.locate(seed, location(i64::try_from(seed % 5).unwrap(), Some(seed / 2)));
        builder.children(seed, &children(&[seed, seed * 3 + 1]));
    }
    builder.build()
}

fn joined(mut a: ObjectIndex, b: ObjectIndex) -> ObjectIndex {
    a.join(b);
    a
}

#[test]
fn joining_is_idempotent_commutative_and_associative() {
    let (a, b, c): (&[u64], &[u64], &[u64]) = (&[1, 5, 9], &[2, 5, 12], &[9, 12, 30]);
    assert_eq!(joined(sample(a), sample(a)), sample(a));
    assert_eq!(joined(sample(a), sample(b)), joined(sample(b), sample(a)));
    assert_eq!(
        joined(joined(sample(a), sample(b)), sample(c)),
        joined(sample(a), joined(sample(b), sample(c)))
    );
}

#[test]
fn a_range_decodes_to_what_it_covers_and_nothing_else() {
    let whole = sample(&[1, 5, 9, 12]);
    let bytes = whole.encoded();
    let part = ObjectIndex::decode_range(&bytes, KeyRange::new(5, 9).unwrap()).unwrap();
    assert!(part.get(1).is_none() && part.get(12).is_none());
    assert_eq!(part.get(5), whole.get(5));
    assert_eq!(part.get(9), whole.get(9));
    assert_eq!(part.range(), KeyRange::new(5, 9));
}

#[test]
fn a_range_ends_where_it_starts_or_later() {
    assert!(KeyRange::new(3, 2).is_none());
    assert!(KeyRange::new(3, 3).is_some());
}
