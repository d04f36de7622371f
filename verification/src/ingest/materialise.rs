//! Producing the bytes that a plan asks for and the client's packs cannot
//! supply as they are.
//!
//! An encoding is produced once however many packs name it, in batches bounded
//! by count and by bytes. A delta that is no shorter than its object is not
//! kept.

use vstd::prelude::*;
use vstd::slice::slice_subrange;

use crate::object::{Kind, ObjectId};

verus! {

/// How many items a batch has at most.
pub const BATCH: usize = 256;

/// About how much object content a batch may hold. An item over it goes alone.
pub const BATCH_BYTES: u64 = 268_435_456;

/// One encoding that the plan asks for.
#[derive(Clone, Copy, Debug, PartialEq, Eq, Structural)]
pub struct Want {
    pub oid: ObjectId,
    pub kind: Kind,
    /// What to encode against; none for the object's own bytes.
    pub base: Option<ObjectId>,
}

/// `a + b`, or the largest value where that does not fit.
pub open spec fn topped(a: u64, b: u64) -> u64 {
    if a + b > u64::MAX {
        u64::MAX
    } else {
        (a + b) as u64
    }
}

/// How far the cutting of a run has come.
#[verifier::ext_equal]
pub struct Cutting {
    /// The batches cut so far, from where to where.
    pub done: Seq<(int, int)>,
    /// Where the batch at hand starts.
    pub start: int,
    /// What the batch at hand costs.
    pub bytes: u64,
}

impl Cutting {
    /// Whether the item at `at` opens a new batch: the one at hand has its
    /// count, or has something in it and no room for this.
    pub open spec fn is_full(self, at: int, cost: u64) -> bool {
        at - self.start >= BATCH || at > self.start && topped(self.bytes, cost) > BATCH_BYTES
    }
}

/// The cutting of the first `n` items.
pub open spec fn cutting(costs: Seq<u64>, n: int) -> Cutting
    decreases n,
{
    if n <= 0 {
        Cutting { done: Seq::empty(), start: 0, bytes: 0 }
    } else {
        let before = cutting(costs, n - 1);
        let cost = costs[n - 1];
        if before.is_full(n - 1, cost) {
            Cutting {
                done: before.done.push((before.start, n - 1)),
                start: n - 1,
                bytes: topped(0, cost),
            }
        } else {
            Cutting { bytes: topped(before.bytes, cost), ..before }
        }
    }
}

/// The batches of a run, from where to where.
pub open spec fn cuts(costs: Seq<u64>) -> Seq<(int, int)> {
    let all = cutting(costs, costs.len() as int);
    if all.start < costs.len() {
        all.done.push((all.start, costs.len() as int))
    } else {
        all.done
    }
}

/// Where batches go from and to.
pub open spec fn spans(ranges: Seq<(usize, usize)>) -> Seq<(int, int)> {
    ranges.map_values(|range: (usize, usize)| (range.0 as int, range.1 as int))
}

/// The batches of a run of items that cost this much each.
pub fn cut(costs: &[u64]) -> (ranges: Vec<(usize, usize)>)
    ensures
        spans(ranges@) == cuts(costs@),
        forall|i: int|
            0 <= i < ranges@.len() ==> (#[trigger] ranges@[i]).0 <= ranges@[i].1 <= costs@.len(),
{
    let mut ranges: Vec<(usize, usize)> = Vec::new();
    let mut start: usize = 0;
    let mut bytes: u64 = 0;
    let mut at: usize = 0;
    assert(spans(ranges@) =~= Seq::<(int, int)>::empty());
    while at < costs.len()
        invariant
            at <= costs@.len(),
            start <= at,
            (Cutting { done: spans(ranges@), start: start as int, bytes }) == cutting(
                costs@,
                at as int,
            ),
            forall|i: int|
                0 <= i < ranges@.len() ==> (#[trigger] ranges@[i]).0 <= ranges@[i].1
                    <= costs@.len(),
        decreases costs@.len() - at,
    {
        let cost: u64 = costs[at];
        let ghost before = ranges@;
        if at - start >= BATCH || (at > start && bytes.saturating_add(cost) > BATCH_BYTES) {
            ranges.push((start, at));
            assert(spans(ranges@) =~= spans(before).push((start as int, at as int)));
            start = at;
            bytes = 0;
        }
        bytes = bytes.saturating_add(cost);
        at += 1;
    }
    if start < costs.len() {
        let ghost before = ranges@;
        ranges.push((start, costs.len()));
        assert(spans(ranges@) =~= spans(before).push((start as int, costs@.len() as int)));
    }
    ranges
}

/// What a run of items costs together.
pub open spec fn total(costs: Seq<u64>, from: int, to: int) -> int
    decreases to - from,
{
    if to <= from {
        0
    } else {
        total(costs, from, to - 1) + costs[to - 1]
    }
}

/// Whether a range of a run is within what a batch may hold.
pub open spec fn is_within(costs: Seq<u64>, range: (int, int)) -> bool {
    &&& range.1 - range.0 <= BATCH
    &&& range.1 - range.0 > 1 ==> total(costs, range.0, range.1) <= BATCH_BYTES
}

/// Whether ranges lie end to end from the start up to `upto`, none of them
/// empty.
pub open spec fn end_to_end(ranges: Seq<(int, int)>, upto: int) -> bool
    decreases ranges.len(),
{
    if ranges.len() == 0 {
        upto == 0
    } else {
        &&& ranges.last().1 == upto
        &&& ranges.last().0 < ranges.last().1
        &&& end_to_end(ranges.drop_last(), ranges.last().0)
    }
}

proof fn lemma_one_more(ranges: Seq<(int, int)>, range: (int, int))
    requires
        end_to_end(ranges, range.0),
        range.0 < range.1,
    ensures
        end_to_end(ranges.push(range), range.1),
{
    assert(ranges.push(range).drop_last() =~= ranges);
}

proof fn lemma_cutting(costs: Seq<u64>, n: int)
    requires
        0 <= n <= costs.len(),
    ensures
        ({
            let s = cutting(costs, n);
            &&& end_to_end(s.done, s.start)
            &&& 0 <= s.start <= n
            &&& n > 0 ==> s.start < n
            &&& forall|i: int| 0 <= i < s.done.len() ==> is_within(costs, #[trigger] s.done[i])
            &&& is_within(costs, (s.start, n))
            &&& s.bytes == (if total(costs, s.start, n) > u64::MAX {
                u64::MAX as int
            } else {
                total(costs, s.start, n)
            })
        }),
    decreases n,
{
    if n > 0 {
        lemma_cutting(costs, n - 1);
        let before = cutting(costs, n - 1);
        let s = cutting(costs, n);
        let cost = costs[n - 1];
        assert(total(costs, n - 1, n - 1) == 0);
        lemma_total_grows(costs, before.start, n - 1);
        if before.is_full(n - 1, cost) {
            lemma_one_more(before.done, (before.start, n - 1));
            assert forall|i: int| 0 <= i < s.done.len() implies is_within(
                costs,
                #[trigger] s.done[i],
            ) by {
                if i < before.done.len() {
                    assert(s.done[i] == before.done[i]);
                }
            }
        }
    }
}

proof fn lemma_total_grows(costs: Seq<u64>, from: int, to: int)
    ensures
        total(costs, from, to) >= 0,
    decreases to - from,
{
    if to > from {
        lemma_total_grows(costs, from, to - 1);
    }
}

/// Batching loses nothing and repeats nothing: the batches lie end to end over
/// the whole run, and none is empty.
pub proof fn every_item_is_in_one_batch(costs: Seq<u64>)
    ensures
        end_to_end(cuts(costs), costs.len() as int),
{
    lemma_cutting(costs, costs.len() as int);
    let s = cutting(costs, costs.len() as int);
    if s.start < costs.len() {
        lemma_one_more(s.done, (s.start, costs.len() as int));
    }
}

/// A batch has no more items than it may, and no more bytes unless it is one
/// item alone.
pub proof fn a_batch_is_bounded(costs: Seq<u64>, i: int)
    requires
        0 <= i < cuts(costs).len(),
    ensures
        is_within(costs, cuts(costs)[i]),
{
    lemma_cutting(costs, costs.len() as int);
    let s = cutting(costs, costs.len() as int);
    if i < s.done.len() {
        assert(cuts(costs)[i] == s.done[i]);
    }
}

/// Whether a size function could have given this cost: the object's size and
/// that of what it is encoded against.
pub open spec fn is_cost<F: Fn(ObjectId) -> u64>(size_of: F, want: Want, cost: u64) -> bool {
    match want.base {
        Some(oid) => exists|own: u64, base: u64|
            {
                &&& call_ensures(size_of, (want.oid,), own)
                &&& call_ensures(size_of, (oid,), base)
                &&& cost == #[trigger] topped(own, base)
            },
        None => call_ensures(size_of, (want.oid,), cost),
    }
}

/// Whether a size function could have given these costs.
pub open spec fn are_costs<F: Fn(ObjectId) -> u64>(
    size_of: F,
    wants: Seq<Want>,
    costs: Seq<u64>,
) -> bool {
    &&& costs.len() == wants.len()
    &&& forall|i: int| 0 <= i < wants.len() ==> is_cost(size_of, wants[i], #[trigger] costs[i])
}

/// Split `wants` into batches. Sizes come from `size_of`: of what is not known
/// they are zero, since asking the store would cost a read.
pub fn batches<'a, F: Fn(ObjectId) -> u64>(wants: &'a [Want], size_of: F) -> (batches: Vec<
    &'a [Want],
>)
    requires
        forall|oid: ObjectId| #[trigger] call_requires(size_of, (oid,)),
    ensures
        exists|costs: Seq<u64>|
            {
                &&& #[trigger] are_costs(size_of, wants@, costs)
                &&& batches@.len() == cuts(costs).len()
                &&& forall|i: int|
                    0 <= i < batches@.len() ==> (#[trigger] batches@[i])@ == wants@.subrange(
                        cuts(costs)[i].0,
                        cuts(costs)[i].1,
                    )
            },
{
    let mut costs: Vec<u64> = Vec::new();
    let mut i: usize = 0;
    while i < wants.len()
        invariant
            i <= wants@.len(),
            forall|oid: ObjectId| #[trigger] call_requires(size_of, (oid,)),
            are_costs(size_of, wants@.take(i as int), costs@),
        decreases wants@.len() - i,
    {
        let want = wants[i];
        let own: u64 = size_of(want.oid);
        let cost: u64 = match want.base {
            Some(base) => {
                let against: u64 = size_of(base);
                let both: u64 = own.saturating_add(against);
                assert(both == topped(own, against));
                both
            },
            None => own,
        };
        assert(is_cost(size_of, want, cost));
        let ghost before = costs@;
        costs.push(cost);
        proof {
            let longer = wants@.take(i as int + 1);
            assert forall|k: int| 0 <= k < longer.len() implies is_cost(
                size_of,
                longer[k],
                #[trigger] costs@[k],
            ) by {
                if k < i {
                    assert(wants@.take(i as int)[k] == longer[k]);
                    assert(costs@[k] == before[k]);
                }
            }
        }
        i += 1;
    }
    assert(wants@.take(i as int) =~= wants@);
    let ranges = cut(costs.as_slice());
    let mut batches: Vec<&'a [Want]> = Vec::new();
    let mut k: usize = 0;
    while k < ranges.len()
        invariant
            k <= ranges@.len(),
            batches@.len() == k,
            costs@.len() == wants@.len(),
            forall|j: int|
                0 <= j < ranges@.len() ==> (#[trigger] ranges@[j]).0 <= ranges@[j].1
                    <= costs@.len(),
            forall|j: int|
                0 <= j < k ==> (#[trigger] batches@[j])@ == wants@.subrange(
                    ranges@[j].0 as int,
                    ranges@[j].1 as int,
                ),
        decreases ranges@.len() - k,
    {
        let (from, to) = ranges[k];
        batches.push(slice_subrange(wants, from, to));
        k += 1;
    }
    proof {
        assert forall|j: int| 0 <= j < batches@.len() implies (#[trigger] batches@[j])@
            == wants@.subrange(cuts(costs@)[j].0, cuts(costs@)[j].1) by {
            assert(spans(ranges@)[j] == (ranges@[j].0 as int, ranges@[j].1 as int));
        }
        assert(spans(ranges@).len() == ranges@.len());
        assert(are_costs(size_of, wants@, costs@));
    }
    batches
}

/// The objects that producing a run of wants takes, in its order: each object,
/// and what it is encoded against.
pub open spec fn needed(wants: Seq<Want>) -> Seq<ObjectId>
    decreases wants.len(),
{
    if wants.len() == 0 {
        Seq::empty()
    } else {
        let earlier = needed(wants.drop_last()).push(wants.last().oid);
        match wants.last().base {
            Some(base) => earlier.push(base),
            None => earlier,
        }
    }
}

/// The objects that producing a batch takes. Read together they can be seen to
/// lie together.
pub fn involved(batch: &[Want]) -> (oids: Vec<ObjectId>)
    ensures
        oids@ == needed(batch@),
{
    let mut oids: Vec<ObjectId> = Vec::new();
    let mut i: usize = 0;
    while i < batch.len()
        invariant
            i <= batch@.len(),
            oids@ == needed(batch@.take(i as int)),
        decreases batch@.len() - i,
    {
        oids.push(batch[i].oid);
        if let Some(base) = batch[i].base {
            oids.push(base);
        }
        i += 1;
        assert(batch@.take(i as int).drop_last() =~= batch@.take(i as int - 1));
    }
    assert(batch@.take(i as int) =~= batch@);
    oids
}

} // verus!
