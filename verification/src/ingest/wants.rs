//! Which encodings a push has to produce.

use vstd::prelude::*;
use vstd::slice::slice_to_vec;

use crate::error::Error;
use crate::ingest::graph::ObjectRefs;
use crate::ingest::chains::{all_entries, has_entry};
use crate::ingest::graph::runs;
use crate::ingest::lists::IdList;
use crate::ingest::materialise::Want;
use crate::ingest::plan::{DeltaEntry, DeltaPlan, EntrySource};
use crate::model::ObjectMeta;
use crate::object::{Kind, ObjectId};
use crate::ordmap::{OrdKey, OrdMap, OrdSet, Order};
use crate::packfile::delta::applied;
use crate::packfile::delta::encode::encode_delta;
use crate::packfile::delta::scheme::delta_of;
use crate::packfile::format::MAX_OBJECT_BYTES;

verus! {

/// What tells one encoding from another: the object, and what it is encoded
/// against.
#[derive(Clone, Copy, Debug, PartialEq, Eq, Structural)]
pub struct Pair {
    pub oid: ObjectId,
    pub base: Option<ObjectId>,
}

impl OrdKey for Pair {
    type Name = Pair;

    open spec fn name(&self) -> Pair {
        *self
    }

    open spec fn before(a: Pair, b: Pair) -> bool {
        ||| ObjectId::before(a.oid, b.oid)
        ||| a.oid == b.oid && match (a.base, b.base) {
            (None, Some(_)) => true,
            (Some(x), Some(y)) => ObjectId::before(x, y),
            _ => false,
        }
    }

    proof fn before_is_strict(a: Pair, b: Pair) {
        ObjectId::before_is_strict(a.oid, b.oid);
        if a.base is Some && b.base is Some {
            ObjectId::before_is_strict(a.base->0, b.base->0);
        }
    }

    proof fn before_is_transitive(a: Pair, b: Pair, c: Pair) {
        if ObjectId::before(a.oid, b.oid) && ObjectId::before(b.oid, c.oid) {
            ObjectId::before_is_transitive(a.oid, b.oid, c.oid);
        }
        if a.oid == b.oid && b.oid == c.oid && a.base is Some && b.base is Some {
            ObjectId::before_is_transitive(a.base->0, b.base->0, c.base->0);
        }
    }

    fn compare(&self, other: &Pair) -> (order: Order) {
        match self.oid.compare(&other.oid) {
            Order::Before => Order::Before,
            Order::After => Order::After,
            Order::Same => match (self.base, other.base) {
                (None, None) => Order::Same,
                (None, Some(_)) => Order::Before,
                (Some(_), None) => Order::After,
                (Some(x), Some(y)) => x.compare(&y),
            },
        }
    }
}

/// What tells a want from another.
pub open spec fn pair_of(want: Want) -> Pair {
    Pair { oid: want.oid, base: want.base }
}

/// Whether a list has an encoding.
pub open spec fn asks_for(list: Seq<Want>, pair: Pair) -> bool {
    exists|i: int| 0 <= i < list.len() && pair_of(#[trigger] list[i]) == pair
}

/// A list with a want added, unless it asks for that encoding already.
pub open spec fn with_want(list: Seq<Want>, want: Want) -> Seq<Want> {
    if asks_for(list, pair_of(want)) {
        list
    } else {
        list.push(want)
    }
}

/// A list with each of `more` added in turn.
pub open spec fn with_wants(list: Seq<Want>, more: Seq<Want>) -> Seq<Want>
    decreases more.len(),
{
    if more.len() == 0 {
        list
    } else {
        with_want(with_wants(list, more.drop_last()), more.last())
    }
}

/// Whether no encoding is asked for twice.
pub open spec fn each_once(list: Seq<Want>) -> bool {
    forall|i: int, j: int|
        0 <= i < j < list.len() ==> pair_of(#[trigger] list[i]) != pair_of(#[trigger] list[j])
}

/// An encoding is produced once, however many packs name it, and none that is
/// named is left out.
pub proof fn an_encoding_is_wanted_once(list: Seq<Want>, more: Seq<Want>)
    requires
        each_once(list),
    ensures
        each_once(with_wants(list, more)),
        forall|pair: Pair| #[trigger]
            asks_for(with_wants(list, more), pair) <==> asks_for(list, pair) || asks_for(
                more,
                pair,
            ),
    decreases more.len(),
{
    if more.len() > 0 {
        let fewer = more.drop_last();
        let last = more.last();
        an_encoding_is_wanted_once(list, fewer);
        let before = with_wants(list, fewer);
        let after = with_want(before, last);
        if !asks_for(before, pair_of(last)) {
            assert forall|i: int, j: int| 0 <= i < j < after.len() implies pair_of(
                #[trigger] after[i],
            ) != pair_of(#[trigger] after[j]) by {
                if j == before.len() {
                    assert(before[i] == after[i]);
                } else {
                    assert(before[i] == after[i] && before[j] == after[j]);
                }
            }
        }
        assert forall|pair: Pair| #[trigger] asks_for(after, pair) <==> asks_for(list, pair)
            || asks_for(more, pair) by {
            lemma_with_want(before, last, pair);
            lemma_one_more_asks(fewer, last, pair);
            assert(fewer.push(last) =~= more);
        }
    }
}

proof fn lemma_one_more_asks(list: Seq<Want>, want: Want, pair: Pair)
    ensures
        asks_for(list.push(want), pair) <==> asks_for(list, pair) || pair == pair_of(want),
{
    let longer = list.push(want);
    if asks_for(list, pair) {
        let i = choose|i: int| 0 <= i < list.len() && pair_of(#[trigger] list[i]) == pair;
        assert(pair_of(longer[i]) == pair);
    }
    if pair == pair_of(want) {
        assert(pair_of(longer[list.len() as int]) == pair);
    }
    if asks_for(longer, pair) && pair != pair_of(want) {
        let i = choose|i: int| 0 <= i < longer.len() && pair_of(#[trigger] longer[i]) == pair;
        assert(pair_of(list[i]) == pair);
    }
}

proof fn lemma_with_want(list: Seq<Want>, want: Want, pair: Pair)
    ensures
        asks_for(with_want(list, want), pair) <==> asks_for(list, pair) || pair == pair_of(want),
{
    lemma_one_more_asks(list, want, pair);
}

/// A list of wants under construction, each encoding in it once.
#[derive(Debug)]
pub struct WantList {
    list: Vec<Want>,
    seen: OrdSet<Pair>,
}

impl View for WantList {
    type V = Seq<Want>;

    closed spec fn view(&self) -> Seq<Want> {
        self.list@
    }
}

impl WantList {
    #[verifier::type_invariant]
    spec fn is_consistent(self) -> bool {
        &&& each_once(self.list@)
        &&& forall|pair: Pair| #[trigger]
            self.seen@.contains(pair) <==> asks_for(self.list@, pair)
    }

    pub fn new() -> (list: WantList)
        ensures
            list@ == Seq::<Want>::empty(),
    {
        WantList { list: Vec::new(), seen: OrdSet::new() }
    }

    /// Ask for an encoding, unless it is asked for already.
    pub fn put(&mut self, want: Want)
        ensures
            final(self)@ == with_want(old(self)@, want),
            each_once(final(self)@),
            forall|pair: Pair| #[trigger]
                asks_for(final(self)@, pair) <==> asks_for(old(self)@, pair) || pair == pair_of(
                    want,
                ),
    {
        proof {
            use_type_invariant(&*self);
        }
        let mut taken = WantList::new();
        std::mem::swap(self, &mut taken);
        let WantList { mut list, mut seen } = taken;
        let ghost before = list@;
        if seen.insert(Pair { oid: want.oid, base: want.base }) {
            list.push(want);
        }
        proof {
            assert forall|pair: Pair| #[trigger] seen@.contains(pair) <==> asks_for(
                list@,
                pair,
            ) by {
                lemma_with_want(before, want, pair);
            }
            assert forall|pair: Pair| #[trigger] asks_for(list@, pair) <==> asks_for(before, pair)
                || pair == pair_of(want) by {
                lemma_with_want(before, want, pair);
            }
        }
        *self = WantList { list, seen };
    }

    pub fn into_vec(self) -> (list: Vec<Want>)
        ensures
            list@ == self@,
            each_once(list@),
    {
        proof {
            use_type_invariant(&self);
        }
        self.list
    }

    /// Ask for objects as they are, each with its kind.
    pub fn put_whole(&mut self, objects: &[(ObjectId, Kind)])
        ensures
            final(self)@ == with_wants(
                old(self)@,
                objects@.map_values(|object: (ObjectId, Kind)| whole(object.0, object.1)),
            ),
    {
        let ghost with = |object: (ObjectId, Kind)| whole(object.0, object.1);
        let ghost all = objects@.map_values(with);
        let mut i: usize = 0;
        while i < objects.len()
            invariant
                i <= objects@.len(),
                with == (|object: (ObjectId, Kind)| whole(object.0, object.1)),
                all == objects@.map_values(with),
                self@ == with_wants(old(self)@, all.take(i as int)),
            decreases objects@.len() - i,
        {
            let (oid, kind) = objects[i];
            self.put(Want { oid, kind, base: None });
            i += 1;
            assert(all.take(i as int).drop_last() =~= all.take(i as int - 1));
            assert(all.take(i as int).last() == whole(oid, kind));
        }
        assert(all.take(i as int) =~= all);
    }
}

/// An object as it is.
pub open spec fn whole(oid: ObjectId, kind: Kind) -> Want {
    Want { oid, kind, base: None }
}

/// What an object of the push takes for itself: a commit its own bytes unless
/// its entry is kept as it came, a tag its own bytes. Trees and blobs are
/// stored only where a pack names them.
pub open spec fn own_want(
    oid: ObjectId,
    refs: ObjectRefs,
    commits: Map<ObjectId, EntrySource>,
) -> Option<Want> {
    match refs {
        ObjectRefs::Commit { .. } => if commits.contains_key(oid) && commits[oid] is Wire {
            None
        } else {
            Some(whole(oid, Kind::Commit))
        },
        ObjectRefs::Tag(_) => Some(whole(oid, Kind::Tag)),
        _ => None,
    }
}

/// What an entry of a pack takes: nothing where the client's bytes are kept, or
/// where the object is older than the push and stored whole.
pub open spec fn entry_want(entry: DeltaEntry, push: Map<ObjectId, ObjectRefs>) -> Option<Want> {
    if entry.source is Wire || entry.base is None && !push.contains_key(entry.oid) {
        None
    } else {
        Some(Want { oid: entry.oid, kind: entry.kind, base: entry.base })
    }
}

/// Whether a push has to produce an encoding.
pub open spec fn is_wanted(
    commits: Map<ObjectId, EntrySource>,
    packs: Map<ObjectId, Seq<DeltaEntry>>,
    push: Map<ObjectId, ObjectRefs>,
    want: Want,
) -> bool {
    ||| push.contains_key(want.oid) && own_want(want.oid, push[want.oid], commits) == Some(want)
    ||| exists|entry: DeltaEntry| #[trigger]
        has_entry(packs, entry) && entry_want(entry, push) == Some(want)
}

/// Whether a pack stores an object that the push does not have, in bytes that
/// are not the client's.
pub open spec fn is_foreign(
    packs: Map<ObjectId, Seq<DeltaEntry>>,
    push: Map<ObjectId, ObjectRefs>,
    oid: ObjectId,
) -> bool {
    &&& !push.contains_key(oid)
    &&& exists|entry: DeltaEntry| #[trigger]
        has_entry(packs, entry) && !(entry.source is Wire) && entry.oid == oid
}

/// Every encoding that a push has to produce for its own sake, and the older
/// objects that its packs store.
///
/// An older object that is stored as a delta is wanted whole besides: its base
/// need not be reachable from the commit that stores it again.
pub fn wanted(plan: &DeltaPlan, push: &OrdMap<ObjectId, ObjectRefs>) -> (r: (
    WantList,
    Vec<ObjectId>,
))
    ensures
        each_once(r.0@),
        forall|want: Want| #[trigger]
            r.0@.contains(want) ==> is_wanted(plan.commits@, runs(plan.packs@), push@, want),
        forall|want: Want| #[trigger]
            is_wanted(plan.commits@, runs(plan.packs@), push@, want) ==> asks_for(
                r.0@,
                pair_of(want),
            ),
        r.1@.no_duplicates(),
        forall|oid: ObjectId| #[trigger]
            r.1@.contains(oid) <==> is_foreign(runs(plan.packs@), push@, oid),
{
    let ghost commits = plan.commits@;
    let ghost packs = runs(plan.packs@);
    let mut wants = WantList::new();
    let pairs = push.as_entries();
    let mut i: usize = 0;
    while i < pairs.len()
        invariant
            i <= pairs@.len(),
            commits == plan.commits@,
            pairs@ == push.entries(),
            each_once(wants@),
            forall|j: int|
                0 <= j < pairs@.len() ==> push@.contains_key((#[trigger] pairs@[j]).0)
                    && push@[pairs@[j].0] == pairs@[j].1,
            forall|want: Want| #[trigger]
                wants@.contains(want) ==> is_wanted(commits, packs, push@, want),
            forall|j: int|
                0 <= j < i ==> asked(own_want((#[trigger] pairs@[j]).0, pairs@[j].1, commits), wants@),
        decreases pairs@.len() - i,
    {
        let oid = pairs[i].0;
        let ghost before = wants@;
        let kind = match &pairs[i].1 {
            ObjectRefs::Commit { .. } => match plan.commits.get(&oid) {
                Some(EntrySource::Wire(_)) => None,
                _ => Some(Kind::Commit),
            },
            ObjectRefs::Tag(_) => Some(Kind::Tag),
            _ => None,
        };
        if let Some(kind) = kind {
            let want = Want { oid, kind, base: None };
            wants.put(want);
            assert(is_wanted(commits, packs, push@, want));
            assert(forall|other: Want| #[trigger]
                wants@.contains(other) ==> before.contains(other) || other == want);
        }
        i += 1;
    }
    let all = all_entries(&plan.packs);
    let mut foreign = IdList::new();
    let mut k: usize = 0;
    while k < all.len()
        invariant
            k <= all@.len(),
            packs == runs(plan.packs@),
            each_once(wants@),
            forall|entry: DeltaEntry| #[trigger]
                all@.contains(entry) <==> has_entry(packs, entry),
            forall|want: Want| #[trigger]
                wants@.contains(want) ==> is_wanted(commits, packs, push@, want),
            forall|j: int|
                0 <= j < pairs@.len() ==> asked(
                    own_want((#[trigger] pairs@[j]).0, pairs@[j].1, commits),
                    wants@,
                ),
            forall|j: int| 0 <= j < k ==> asked(entry_want(#[trigger] all@[j], push@), wants@),
            forall|oid: ObjectId| #[trigger]
                foreign@.contains(oid) <==> exists|j: int|
                    0 <= j < k && is_foreign_entry(#[trigger] all@[j], push@, oid),
        decreases all@.len() - k,
    {
        let entry = all[k];
        let ghost before = wants@;
        let ghost earlier = foreign@;
        assert(all@.contains(all@[k as int]));
        match entry.source {
            EntrySource::Wire(_) => {},
            EntrySource::Encoded => {
                let in_push = push.contains_key(&entry.oid);
                if !in_push {
                    let _ = foreign.put(entry.oid);
                }
                if entry.base.is_some() || in_push {
                    let want = Want { oid: entry.oid, kind: entry.kind, base: entry.base };
                    wants.put(want);
                    assert(entry_want(entry, push@) == Some(want));
                    assert(is_wanted(commits, packs, push@, want));
                    assert(forall|other: Want| #[trigger]
                        wants@.contains(other) ==> before.contains(other) || other == want);
                }
            },
        }
        proof {
            assert forall|oid: ObjectId| #[trigger]
                foreign@.contains(oid) <==> exists|j: int|
                    0 <= j < k + 1 && is_foreign_entry(#[trigger] all@[j], push@, oid) by {
                if earlier.contains(oid) {
                    let j = choose|j: int|
                        0 <= j < k && is_foreign_entry(#[trigger] all@[j], push@, oid);
                    assert(is_foreign_entry(all@[j], push@, oid));
                }
                if is_foreign_entry(entry, push@, oid) {
                    assert(is_foreign_entry(all@[k as int], push@, oid));
                }
            }
        }
        k += 1;
    }
    proof {
        assert forall|want: Want| #[trigger] is_wanted(
            commits,
            packs,
            push@,
            want,
        ) implies asks_for(wants@, pair_of(want)) by {
            if push@.contains_key(want.oid) && own_want(want.oid, push@[want.oid], commits)
                == Some(want) {
                let j = choose|j: int| crate::ordmap::stands_at(pairs@, want.oid, j);
                assert(pairs@[j].0 == want.oid);
                assert(asked(own_want(pairs@[j].0, pairs@[j].1, commits), wants@));
            } else {
                let entry = choose|entry: DeltaEntry| #[trigger]
                    has_entry(packs, entry) && entry_want(entry, push@) == Some(want);
                assert(all@.contains(entry));
                let j = choose|j: int| 0 <= j < all@.len() && all@[j] == entry;
                assert(asked(entry_want(all@[j], push@), wants@));
            }
        }
        assert forall|oid: ObjectId| #[trigger] foreign@.contains(oid) <==> is_foreign(
            packs,
            push@,
            oid,
        ) by {
            if foreign@.contains(oid) {
                let j = choose|j: int|
                    0 <= j < k && is_foreign_entry(#[trigger] all@[j], push@, oid);
                assert(all@.contains(all@[j]));
                assert(has_entry(packs, all@[j]));
            }
            if is_foreign(packs, push@, oid) {
                let entry = choose|entry: DeltaEntry| #[trigger]
                    has_entry(packs, entry) && !(entry.source is Wire) && entry.oid == oid;
                assert(all@.contains(entry));
                let j = choose|j: int| 0 <= j < all@.len() && all@[j] == entry;
                assert(is_foreign_entry(all@[j], push@, oid));
            }
        }
    }
    (wants, foreign.into_vec())
}

/// Whether an object is stored as a delta.
pub open spec fn is_delta(meta: ObjectMeta) -> bool {
    meta.location matches Some(location) && location.image.base is Some
}

/// Which older objects are stored as deltas, and cannot be taken as they are,
/// each with its kind.
pub fn foreign_deltas(metas: &OrdMap<ObjectId, ObjectMeta>) -> (deltas: Vec<(ObjectId, Kind)>)
    ensures
        deltas@ == metas.entries().filter(
            |pair: (ObjectId, ObjectMeta)| is_delta(pair.1),
        ).map_values(|pair: (ObjectId, ObjectMeta)| (pair.0, pair.1.kind)),
{
    let ghost keep = |pair: (ObjectId, ObjectMeta)| is_delta(pair.1);
    let ghost with = |pair: (ObjectId, ObjectMeta)| (pair.0, pair.1.kind);
    let pairs = metas.as_entries();
    let mut deltas: Vec<(ObjectId, Kind)> = Vec::new();
    let mut i: usize = 0;
    assert(deltas@ =~= pairs@.take(0).filter(keep).map_values(with)) by {
        reveal(Seq::filter);
    }
    while i < pairs.len()
        invariant
            i <= pairs@.len(),
            keep == (|pair: (ObjectId, ObjectMeta)| is_delta(pair.1)),
            with == (|pair: (ObjectId, ObjectMeta)| (pair.0, pair.1.kind)),
            deltas@ == pairs@.take(i as int).filter(keep).map_values(with),
        decreases pairs@.len() - i,
    {
        proof {
            reveal(Seq::filter);
            assert(pairs@.take(i as int + 1).drop_last() =~= pairs@.take(i as int));
        }
        let (oid, meta) = pairs[i];
        if let Some(location) = meta.location {
            if location.image.base.is_some() {
                deltas.push((oid, meta.kind));
            }
        }
        i += 1;
        assert(deltas@ =~= pairs@.take(i as int).filter(keep).map_values(with));
    }
    assert(pairs@.take(i as int) =~= pairs@);
    deltas
}

/// What is compressed for an encoding.
#[derive(Debug)]
pub struct Payload {
    pub oid: ObjectId,
    pub kind: Kind,
    /// What the bytes are a delta against; none where they are the object.
    pub base: Option<ObjectId>,
    pub bytes: Vec<u8>,
}

/// A delta if it is shorter than the object, else the object itself.
///
/// The two are compared as they are: compressing both to find out would take
/// twice the work.
pub fn encode_pair(want: Want, target: &[u8], base: &[u8]) -> (payload: Result<Payload, Error>)
    ensures
        match payload {
            Ok(payload) => {
                &&& base@.len() <= MAX_OBJECT_BYTES && target@.len() <= MAX_OBJECT_BYTES
                &&& payload.oid == want.oid
                &&& payload.kind == want.kind
                &&& if delta_of(base@, target@).len() < target@.len() {
                    &&& payload.base == want.base
                    &&& payload.bytes@ == delta_of(base@, target@)
                    &&& applied(base@, payload.bytes@) == Ok::<Seq<u8>, Error>(target@)
                } else {
                    &&& payload.base is None
                    &&& payload.bytes@ == target@
                }
            },
            Err(error) => {
                &&& error == Error::DeltaInputTooLarge
                &&& base@.len() > MAX_OBJECT_BYTES || target@.len() > MAX_OBJECT_BYTES
            },
        },
{
    let delta = match encode_delta(base, target) {
        Ok(delta) => delta,
        Err(error) => {
            return Err(error);
        },
    };
    if delta.len() >= target.len() {
        return Ok(encode_whole(want, target));
    }
    Ok(Payload { oid: want.oid, kind: want.kind, base: want.base, bytes: delta })
}

/// The object itself.
pub fn encode_whole(want: Want, target: &[u8]) -> (payload: Payload)
    ensures
        payload.oid == want.oid,
        payload.kind == want.kind,
        payload.base is None,
        payload.bytes@ == target@,
{
    Payload { oid: want.oid, kind: want.kind, base: None, bytes: slice_to_vec(target) }
}

/// Whether a list asks for what is wanted, if anything is.
spec fn asked(want: Option<Want>, list: Seq<Want>) -> bool {
    match want {
        Some(want) => asks_for(list, pair_of(want)),
        None => true,
    }
}

/// Whether an entry stores `oid`, which the push does not have.
spec fn is_foreign_entry(
    entry: DeltaEntry,
    push: Map<ObjectId, ObjectRefs>,
    oid: ObjectId,
) -> bool {
    entry.oid == oid && !(entry.source is Wire) && !push.contains_key(oid)
}

} // verus!
