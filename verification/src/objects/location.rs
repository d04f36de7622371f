//! One place an object's bytes are stored, and how the places of one object
//! come together.

use vstd::prelude::*;

use crate::object::ObjectId;

verus! {

/// A name for a stored segment, which sorts by when it was made.
#[derive(Clone, Copy, Debug, PartialEq, Eq, Structural, Hash)]
pub struct Ulid(pub u128);

/// Where a pack's image sits.
#[derive(Clone, Copy, Debug, PartialEq, Eq, Structural, Hash)]
pub struct SegmentLocation {
    /// The segment that holds it.
    pub id: Ulid,
    /// Where in the segment it starts.
    pub base_offset: u64,
    /// How many bytes it takes.
    pub image_len: u64,
}

/// One place an object's bytes are stored.
///
/// A delta base is a property of the entry rather than of the object: the
/// same content can sit in several packs against different bases.
#[derive(Clone, Copy, Debug, PartialEq, Eq, Structural)]
pub struct Location {
    /// The commit whose pack holds this entry, by its commit seq.
    ///
    /// First, so the lowest sorts first: that one is the introducing pack,
    /// which is the one a point read resolves through.
    pub pack_seq: i64,
    /// That commit's id, so a reader names the pack without a second lookup.
    pub pack_oid: ObjectId,
    /// Where that pack's image sits.
    pub segment: SegmentLocation,
    /// Byte offset of this entry's header within the pack image.
    pub offset: u64,
    /// The header and the compressed body together, for one range read.
    pub entry_len: u64,
    /// What this entry deltas against, in this object's own space.
    pub base_seq: Option<u64>,
}

/// Whether one optional number comes before another: none before any.
pub open spec fn option_precedes(a: Option<u64>, b: Option<u64>) -> bool {
    match (a, b) {
        (None, None) => false,
        (None, Some(_)) => true,
        (Some(_), None) => false,
        (Some(a), Some(b)) => a < b,
    }
}

impl Location {
    /// Whether this location comes before `other`, field by field in the order
    /// they are declared.
    pub open spec fn precedes(self, other: Location) -> bool {
        if self.pack_seq != other.pack_seq {
            self.pack_seq < other.pack_seq
        } else if self.pack_oid != other.pack_oid {
            self.pack_oid.precedes(other.pack_oid)
        } else if self.segment.id != other.segment.id {
            self.segment.id.0 < other.segment.id.0
        } else if self.segment.base_offset != other.segment.base_offset {
            self.segment.base_offset < other.segment.base_offset
        } else if self.segment.image_len != other.segment.image_len {
            self.segment.image_len < other.segment.image_len
        } else if self.offset != other.offset {
            self.offset < other.offset
        } else if self.entry_len != other.entry_len {
            self.entry_len < other.entry_len
        } else {
            option_precedes(self.base_seq, other.base_seq)
        }
    }

    /// Whether this location comes before `other`.
    pub fn is_before(&self, other: &Location) -> (before: bool)
        ensures
            before == self.precedes(*other),
    {
        if self.pack_seq != other.pack_seq {
            self.pack_seq < other.pack_seq
        } else if self.pack_oid != other.pack_oid {
            self.pack_oid.is_before(other.pack_oid)
        } else if self.segment.id != other.segment.id {
            self.segment.id.0 < other.segment.id.0
        } else if self.segment.base_offset != other.segment.base_offset {
            self.segment.base_offset < other.segment.base_offset
        } else if self.segment.image_len != other.segment.image_len {
            self.segment.image_len < other.segment.image_len
        } else if self.offset != other.offset {
            self.offset < other.offset
        } else if self.entry_len != other.entry_len {
            self.entry_len < other.entry_len
        } else {
            match (self.base_seq, other.base_seq) {
                (None, None) => false,
                (None, Some(_)) => true,
                (Some(_), None) => false,
                (Some(a), Some(b)) => a < b,
            }
        }
    }
}

/// The later of two locations.
pub open spec fn later(a: Location, b: Location) -> Location {
    if a.precedes(b) {
        b
    } else {
        a
    }
}

/// Locations in ascending order of their packs, one for each.
pub open spec fn one_per_pack(locations: Seq<Location>) -> bool {
    forall|i: int, j: int|
        0 <= i < j < locations.len() ==> (#[trigger] locations[i]).pack_seq < (
        #[trigger] locations[j]).pack_seq
}

/// `locations` with `new` taken in: of two locations of one pack the later
/// stays, since an image that was copied has a later segment.
pub open spec fn with_location(locations: Seq<Location>, new: Location) -> Seq<Location>
    decreases locations.len(),
{
    if locations.len() == 0 {
        seq![new]
    } else if new.pack_seq < locations[0].pack_seq {
        seq![new] + locations
    } else if new.pack_seq == locations[0].pack_seq {
        seq![later(locations[0], new)] + locations.skip(1)
    } else {
        seq![locations[0]] + with_location(locations.skip(1), new)
    }
}

/// `locations` with all of `new` taken in.
pub open spec fn with_locations(locations: Seq<Location>, new: Seq<Location>) -> Seq<Location>
    decreases new.len(),
{
    if new.len() == 0 {
        locations
    } else {
        with_location(with_locations(locations, new.drop_last()), new.last())
    }
}

/// The location of pack `pack_seq`.
pub open spec fn at_pack(locations: Seq<Location>, pack_seq: i64) -> Option<Location>
    decreases locations.len(),
{
    if locations.len() == 0 {
        None
    } else if locations[0].pack_seq == pack_seq {
        Some(locations[0])
    } else {
        at_pack(locations.skip(1), pack_seq)
    }
}

/// The later of two locations that may be missing.
pub open spec fn later_of(a: Option<Location>, b: Option<Location>) -> Option<Location> {
    match (a, b) {
        (None, _) => b,
        (_, None) => a,
        (Some(a), Some(b)) => Some(later(a, b)),
    }
}

/// The latest location of pack `pack_seq` in a run in no particular order.
pub open spec fn latest_at(locations: Seq<Location>, pack_seq: i64) -> Option<Location>
    decreases locations.len(),
{
    if locations.len() == 0 {
        None
    } else if locations.last().pack_seq == pack_seq {
        later_of(latest_at(locations.drop_last(), pack_seq), Some(locations.last()))
    } else {
        latest_at(locations.drop_last(), pack_seq)
    }
}

/// Taking the later of two is associative, commutative and idempotent.
pub proof fn later_is_a_join(a: Option<Location>, b: Option<Location>, c: Option<Location>)
    ensures
        later_of(a, a) == a,
        later_of(a, b) == later_of(b, a),
        later_of(later_of(a, b), c) == later_of(a, later_of(b, c)),
{
}

proof fn lemma_at_pack(locations: Seq<Location>, pack_seq: i64)
    ensures
        match at_pack(locations, pack_seq) {
            Some(l) => l.pack_seq == pack_seq && locations.contains(l),
            None => forall|i: int|
                0 <= i < locations.len() ==> (#[trigger] locations[i]).pack_seq != pack_seq,
        },
    decreases locations.len(),
{
    if locations.len() > 0 && locations[0].pack_seq != pack_seq {
        let rest = locations.skip(1);
        lemma_at_pack(rest, pack_seq);
        match at_pack(rest, pack_seq) {
            Some(l) => {
                let i = choose|i: int| 0 <= i < rest.len() && rest[i] == l;
                assert(locations[i + 1] == l);
            },
            None => {
                assert forall|i: int| 0 <= i < locations.len() implies (
                #[trigger] locations[i]).pack_seq != pack_seq by {
                    if i > 0 {
                        assert(rest[i - 1] == locations[i]);
                    }
                }
            },
        }
    } else if locations.len() > 0 {
        assert(locations[0] == at_pack(locations, pack_seq)->0);
    }
}

/// Taking a location in keeps one for each pack, and changes only its own.
pub(crate) proof fn lemma_with_location(locations: Seq<Location>, new: Location, pack_seq: i64)
    requires
        one_per_pack(locations),
    ensures
        one_per_pack(with_location(locations, new)),
        at_pack(with_location(locations, new), pack_seq) == (if pack_seq == new.pack_seq {
            later_of(at_pack(locations, pack_seq), Some(new))
        } else {
            at_pack(locations, pack_seq)
        }),
        with_location(locations, new).len() > 0,
        with_location(locations, new)[0].pack_seq == (if locations.len() == 0
            || new.pack_seq < locations[0].pack_seq {
            new.pack_seq
        } else {
            locations[0].pack_seq
        }),
    decreases locations.len(),
{
    let after = with_location(locations, new);
    if locations.len() == 0 {
        reveal_with_fuel(at_pack, 2);
    } else {
        let first = locations[0];
        let rest = locations.skip(1);
        if new.pack_seq < first.pack_seq {
            assert(after.skip(1) =~= locations);
            lemma_at_pack(locations, new.pack_seq);
            lemma_at_pack(locations, pack_seq);
        } else if new.pack_seq == first.pack_seq {
            assert(after.skip(1) =~= rest);
        } else {
            lemma_with_location(rest, new, pack_seq);
            let tail = with_location(rest, new);
            assert(after.skip(1) =~= tail);
            assert(tail[0].pack_seq > first.pack_seq);
            assert forall|i: int, j: int| 0 <= i < j < after.len() implies (
            #[trigger] after[i]).pack_seq < (#[trigger] after[j]).pack_seq by {
                assert(after[j] == tail[j - 1]);
                if i > 0 {
                    assert(after[i] == tail[i - 1]);
                } else if j > 1 {
                    assert(tail[0].pack_seq < tail[j - 1].pack_seq);
                }
            }
        }
    }
}

pub(crate) proof fn lemma_with_locations(locations: Seq<Location>, new: Seq<Location>, pack_seq: i64)
    requires
        one_per_pack(locations),
    ensures
        one_per_pack(with_locations(locations, new)),
        at_pack(with_locations(locations, new), pack_seq) == later_of(
            at_pack(locations, pack_seq),
            latest_at(new, pack_seq),
        ),
    decreases new.len(),
{
    if new.len() > 0 {
        let before = with_locations(locations, new.drop_last());
        lemma_with_locations(locations, new.drop_last(), pack_seq);
        lemma_with_location(before, new.last(), pack_seq);
        later_is_a_join(
            at_pack(locations, pack_seq),
            latest_at(new.drop_last(), pack_seq),
            Some(new.last()),
        );
    }
}

/// With one location for each pack, the latest of a pack is the only one.
pub(crate) proof fn lemma_latest(locations: Seq<Location>, pack_seq: i64)
    requires
        one_per_pack(locations),
    ensures
        latest_at(locations, pack_seq) == at_pack(locations, pack_seq),
    decreases locations.len(),
{
    if locations.len() > 0 {
        let front = locations.drop_last();
        let last = locations.last();
        lemma_latest(front, pack_seq);
        lemma_at_pack(front, pack_seq);
        lemma_at_pack(locations, pack_seq);
        if last.pack_seq == pack_seq {
            assert(at_pack(front, pack_seq) is None) by {
                if let Some(l) = at_pack(front, pack_seq) {
                    let i = choose|i: int| 0 <= i < front.len() && front[i] == l;
                    assert(locations[i].pack_seq < locations[locations.len() - 1].pack_seq);
                }
            }
            if let Some(l) = at_pack(locations, pack_seq) {
                let i = choose|i: int| 0 <= i < locations.len() && locations[i] == l;
                if i < locations.len() - 1 {
                    assert(locations[i].pack_seq < locations[locations.len() - 1].pack_seq);
                }
            } else {
                assert(locations[locations.len() - 1].pack_seq != pack_seq);
            }
        } else {
            lemma_at_pack_front(locations, pack_seq);
        }
    }
}

proof fn lemma_at_pack_front(locations: Seq<Location>, pack_seq: i64)
    requires
        locations.len() > 0,
        locations.last().pack_seq != pack_seq,
    ensures
        at_pack(locations.drop_last(), pack_seq) == at_pack(locations, pack_seq),
    decreases locations.len(),
{
    if locations.len() == 1 {
        reveal_with_fuel(at_pack, 2);
    } else if locations[0].pack_seq != pack_seq {
        lemma_at_pack_front(locations.skip(1), pack_seq);
        assert(locations.skip(1).drop_last() =~= locations.drop_last().skip(1));
    }
}

/// Two runs with one location for each pack are the same where they agree on
/// every pack.
pub(crate) proof fn lemma_same_packs(a: Seq<Location>, b: Seq<Location>)
    requires
        one_per_pack(a),
        one_per_pack(b),
        forall|pack_seq: i64| #[trigger] at_pack(a, pack_seq) == at_pack(b, pack_seq),
    ensures
        a == b,
    decreases a.len(),
{
    if a.len() == 0 {
        if b.len() > 0 {
            assert(at_pack(a, b[0].pack_seq) == at_pack(b, b[0].pack_seq));
        }
        assert(a =~= b);
    } else if b.len() == 0 {
        assert(at_pack(a, a[0].pack_seq) == at_pack(b, a[0].pack_seq));
    } else {
        let (p, q) = (a[0].pack_seq, b[0].pack_seq);
        assert(at_pack(a, p) == at_pack(b, p));
        assert(at_pack(a, q) == at_pack(b, q));
        lemma_at_pack(b, p);
        lemma_at_pack(a, q);
        assert(p == q) by {
            let l = at_pack(b, p)->0;
            let i = choose|i: int| 0 <= i < b.len() && b[i] == l;
            assert(q <= p);
            let m = at_pack(a, q)->0;
            let j = choose|j: int| 0 <= j < a.len() && a[j] == m;
            assert(p <= q);
        }
        let (x, y) = (a.skip(1), b.skip(1));
        assert forall|pack_seq: i64| #[trigger] at_pack(x, pack_seq) == at_pack(y, pack_seq) by {
            assert(at_pack(a, pack_seq) == at_pack(b, pack_seq));
            lemma_at_pack(x, pack_seq);
            lemma_at_pack(y, pack_seq);
            if pack_seq == p {
                if let Some(l) = at_pack(x, pack_seq) {
                    let i = choose|i: int| 0 <= i < x.len() && x[i] == l;
                    assert(a[0].pack_seq < a[i + 1].pack_seq);
                }
                if let Some(l) = at_pack(y, pack_seq) {
                    let i = choose|i: int| 0 <= i < y.len() && y[i] == l;
                    assert(b[0].pack_seq < b[i + 1].pack_seq);
                }
            }
        }
        lemma_same_packs(x, y);
        assert(a =~= seq![a[0]] + x);
        assert(b =~= seq![b[0]] + y);
    }
}

/// Two runs hold the same latest location of every pack in whichever order they
/// follow each other.
pub(crate) proof fn lemma_latest_concat(a: Seq<Location>, b: Seq<Location>, pack_seq: i64)
    ensures
        latest_at(a + b, pack_seq) == later_of(latest_at(a, pack_seq), latest_at(b, pack_seq)),
    decreases b.len(),
{
    if b.len() == 0 {
        assert(a + b =~= a);
    } else {
        lemma_latest_concat(a, b.drop_last(), pack_seq);
        assert((a + b).drop_last() =~= a + b.drop_last());
        later_is_a_join(
            latest_at(a, pack_seq),
            latest_at(b.drop_last(), pack_seq),
            Some(b.last()),
        );
    }
}

/// Take `new` in: of two locations of one pack the later stays.
pub fn take_location(locations: &mut Vec<Location>, new: Location)
    ensures
        final(locations)@ == with_location(old(locations)@, new),
{
    let ghost before = locations@;
    let mut i: usize = 0;
    assert(before.take(0) + with_location(before.skip(0), new) =~= with_location(before, new)) by {
        assert(before.skip(0) =~= before);
    }
    while i < locations.len() && locations[i].pack_seq < new.pack_seq
        invariant
            i <= before.len(),
            locations@ == before,
            with_location(before, new) == before.take(i as int) + with_location(
                before.skip(i as int),
                new,
            ),
        decreases before.len() - i,
    {
        proof {
            let rest = before.skip(i as int);
            assert(rest.skip(1) =~= before.skip(i + 1));
            assert(before.take(i as int) + (seq![rest[0]] + with_location(rest.skip(1), new))
                =~= before.take(i + 1) + with_location(before.skip(i + 1), new));
        }
        i = i + 1;
    }
    let ghost rest = before.skip(i as int);
    if i < locations.len() && locations[i].pack_seq == new.pack_seq {
        if locations[i].is_before(&new) {
            locations.set(i, new);
        }
        assert(locations@ =~= before.take(i as int) + (seq![later(rest[0], new)] + rest.skip(1)));
    } else {
        locations.insert(i, new);
        proof {
            if i < before.len() {
                assert(locations@ =~= before.take(i as int) + (seq![new] + rest));
            } else {
                assert(locations@ =~= before.take(i as int) + seq![new]);
            }
        }
    }
}

} // verus!
