//! Rebuilding an object out of the pack it arrived in: walk its delta chain
//! back to something whole, then apply forward.

use vstd::prelude::*;

use crate::deps::cache::{cached_under, is_cached};
use crate::error::Error;
use crate::ingest::cache::{
    asked_for, key_of, lemma_asked_for, ByteCache, Held, MAX_CACHED_BYTES,
};
use crate::ingest::content::Content;
use crate::ingest::lists::{distinct, lemma_push_contains, IdList};
use crate::ingest::pack::{first_arrival, EntryBase, WirePack, WirePacks};
use crate::ingest::plan::WireRef;
use crate::ingest::resolve::inflated;
use crate::object::ObjectId;
use crate::packfile::delta::applied;
use crate::packfile::delta::apply::apply_delta;
use crate::packfile::format::inflate_entry;

verus! {

/// One hop of a delta chain: what is compressed, and what it inflates to.
#[derive(Clone, Copy, Debug)]
pub struct Hop<'a> {
    pub at: WireRef,
    pub oid: ObjectId,
    pub body: &'a [u8],
    pub decompressed_size: u64,
}

/// One hop of a delta chain.
#[verifier::ext_equal]
pub struct HopView {
    pub at: WireRef,
    pub oid: ObjectId,
    pub body: Seq<u8>,
    pub size: nat,
}

impl<'a> View for Hop<'a> {
    type V = HopView;

    open spec fn view(&self) -> HopView {
        HopView {
            at: self.at,
            oid: self.oid,
            body: self.body@,
            size: self.decompressed_size as nat,
        }
    }
}

/// The hops of a chain.
pub open spec fn hops(chain: Seq<Hop<'_>>) -> Seq<HopView> {
    chain.map_values(|hop: Hop<'_>| hop@)
}

/// The hop that an entry is, or why it is none.
pub open spec fn hop_of(packs: Seq<WirePack>, at: WireRef) -> Result<HopView, Error> {
    let pack = packs[at.pack as int];
    if at.pack >= packs.len() {
        Err(Error::NoSuchPack)
    } else if at.at >= pack.identified().len() {
        Err(Error::NoSuchEntry)
    } else {
        match pack.body_of(at.at) {
            Err(error) => Err(error),
            Ok(body) => Ok(
                HopView {
                    at,
                    oid: pack.identified()[at.at as int],
                    body,
                    size: pack.scanned()[at.at as int].decompressed_size as nat,
                },
            ),
        }
    }
}

/// The hop that an entry is.
pub fn hop(wire: &WirePacks, at: WireRef) -> (hop: Result<Hop<'_>, Error>)
    ensures
        match hop {
            Ok(hop) => hop_of(wire@, at) == Ok::<HopView, Error>(hop@),
            Err(error) => hop_of(wire@, at) == Err::<HopView, Error>(error),
        },
{
    let oid = match wire.oid(at) {
        Ok(oid) => oid,
        Err(error) => {
            return Err(error);
        },
    };
    let body = match wire.body(at) {
        Ok(body) => body,
        Err(error) => {
            return Err(error);
        },
    };
    match wire.entry(at) {
        Ok(entry) => Ok(Hop { at, oid, body, decompressed_size: entry.decompressed_size }),
        Err(error) => Err(error),
    }
}

/// Where a chain bottoms out.
#[derive(Debug)]
pub enum Root<'a> {
    /// A whole entry of a pack: what its body inflates to is the object.
    Entry(Hop<'a>),
    /// Content at hand.
    Content(Content),
}

/// What a root comes to.
pub open spec fn root_content(root: Root<'_>) -> Result<Seq<u8>, Error> {
    match root {
        Root::Entry(hop) => inflated(hop@.body, hop@.size),
        Root::Content(content) => Ok(content@),
    }
}

/// What a hop makes of what it deltas against.
pub open spec fn taken_further(base: Result<Seq<u8>, Error>, hop: HopView) -> Result<
    Seq<u8>,
    Error,
> {
    match base {
        Err(error) => Err(error),
        Ok(base) => match inflated(hop.body, hop.size) {
            Err(error) => Err(error),
            Ok(delta) => applied(base, delta),
        },
    }
}

/// What a chain, newest first, makes of its root.
pub open spec fn brought(root: Result<Seq<u8>, Error>, chain: Seq<HopView>) -> Result<
    Seq<u8>,
    Error,
>
    decreases chain.len(),
{
    if chain.len() == 0 {
        root
    } else {
        taken_further(brought(root, chain.skip(1)), chain[0])
    }
}

/// A version worth keeping, if it is one.
pub open spec fn kept(oid: ObjectId, content: Result<Seq<u8>, Error>) -> Seq<
    (ObjectId, Seq<u8>),
> {
    match content {
        Ok(content) => if content.len() <= MAX_CACHED_BYTES {
            seq![(oid, content)]
        } else {
            Seq::empty()
        },
        Err(_) => Seq::empty(),
    }
}

/// The versions that a root passes on.
pub open spec fn kept_root(root: Root<'_>) -> Seq<(ObjectId, Seq<u8>)> {
    match root {
        Root::Entry(hop) => kept(hop@.oid, root_content(root)),
        Root::Content(_) => Seq::empty(),
    }
}

/// The versions worth keeping that a chain passes through, oldest first.
pub open spec fn passed(root: Root<'_>, chain: Seq<HopView>) -> Seq<(ObjectId, Seq<u8>)>
    decreases chain.len(),
{
    if chain.len() == 0 {
        kept_root(root)
    } else {
        passed(root, chain.skip(1)) + kept(chain[0].oid, brought(root_content(root), chain))
    }
}

/// What a chain came to.
#[derive(Debug)]
pub struct Rebuilt {
    pub target: Content,
    /// The versions passed through on the way, for the cache. What it would
    /// refuse is left out.
    pub along_the_way: Vec<(ObjectId, Content)>,
}

/// Versions with their content.
pub open spec fn versions(run: Seq<(ObjectId, Content)>) -> Seq<(ObjectId, Seq<u8>)> {
    run.map_values(|version: (ObjectId, Content)| (version.0, version.1@))
}

/// Add a version to those worth keeping, if it is one.
fn keep(along: &mut Vec<(ObjectId, Content)>, oid: ObjectId, content: &Content)
    ensures
        versions(final(along)@) == versions(old(along)@) + kept(
            oid,
            Ok::<Seq<u8>, Error>(content@),
        ),
{
    if content.len() <= MAX_CACHED_BYTES {
        along.push((oid, content.share()));
    }
    assert(versions(along@) =~= versions(old(along)@) + kept(
        oid,
        Ok::<Seq<u8>, Error>(content@),
    ));
}

/// Whether everything in a chain is small enough to be inflated at all.
pub open spec fn fits(hop: HopView) -> bool {
    hop.size <= isize::MAX
}

/// Apply one hop.
fn take_further(base: &Content, hop: Hop<'_>) -> (content: Result<Content, Error>)
    requires
        fits(hop@),
    ensures
        match content {
            Ok(content) => taken_further(Ok::<Seq<u8>, Error>(base@), hop@) == Ok::<
                Seq<u8>,
                Error,
            >(content@),
            Err(error) => taken_further(Ok::<Seq<u8>, Error>(base@), hop@) == Err::<
                Seq<u8>,
                Error,
            >(error),
        },
{
    let delta = match inflate_entry(hop.body, hop.decompressed_size) {
        Ok(delta) => delta,
        Err(error) => {
            return Err(error);
        },
    };
    match apply_delta(base.as_slice(), delta.as_slice()) {
        Ok(bytes) => Ok(Content::new(bytes)),
        Err(error) => Err(error),
    }
}

/// Apply a chain, newest first, onto its root.
pub fn apply_chain(root: Root<'_>, chain: Vec<Hop<'_>>) -> (r: Result<Rebuilt, Error>)
    requires
        root matches Root::Entry(hop) ==> fits(hop@),
        forall|i: int| 0 <= i < chain@.len() ==> fits((#[trigger] chain@[i])@),
    ensures
        match r {
            Ok(rebuilt) => {
                &&& brought(root_content(root), hops(chain@)) == Ok::<Seq<u8>, Error>(
                    rebuilt.target@,
                )
                &&& versions(rebuilt.along_the_way@) == passed(root, hops(chain@))
            },
            Err(error) => brought(root_content(root), hops(chain@)) == Err::<Seq<u8>, Error>(error),
        },
{
    let ghost start = root_content(root);
    let ghost all = hops(chain@);
    let ghost bottom = root;
    let mut along: Vec<(ObjectId, Content)> = Vec::new();
    assert(versions(along@) =~= Seq::empty());
    let mut content = match root {
        Root::Entry(hop) => match inflate_entry(hop.body, hop.decompressed_size) {
            Ok(bytes) => {
                let content = Content::new(bytes);
                keep(&mut along, hop.oid, &content);
                content
            },
            Err(error) => {
                proof {
                    lemma_stays_refused(start, all, 0, error);
                }
                return Err(error);
            },
        },
        Root::Content(content) => content,
    };
    let mut i: usize = chain.len();
    assert(all.skip(i as int) =~= Seq::empty());
    assert(versions(along@) =~= kept_root(bottom));
    while i > 0
        invariant
            i <= chain@.len(),
            all == hops(chain@),
            bottom == root,
            start == root_content(bottom),
            forall|k: int| 0 <= k < chain@.len() ==> fits((#[trigger] chain@[k])@),
            brought(start, all.skip(i as int)) == Ok::<Seq<u8>, Error>(content@),
            versions(along@) == passed(bottom, all.skip(i as int)),
        decreases i,
    {
        i -= 1;
        let hop = chain[i];
        proof {
            let from = all.skip(i as int);
            assert(from.skip(1) =~= all.skip(i as int + 1));
            assert(from[0] == hop@);
            assert(fits(chain@[i as int]@));
        }
        content = match take_further(&content, hop) {
            Ok(content) => content,
            Err(error) => {
                proof {
                    lemma_stays_refused(start, all, i as int, error);
                }
                return Err(error);
            },
        };
        keep(&mut along, hop.oid, &content);
    }
    assert(all.skip(0) =~= all);
    Ok(Rebuilt { target: content, along_the_way: along })
}

/// What a part of a chain is refused for, the whole is.
proof fn lemma_stays_refused(
    root: Result<Seq<u8>, Error>,
    chain: Seq<HopView>,
    i: int,
    error: Error,
)
    requires
        0 <= i <= chain.len(),
        brought(root, chain.skip(i)) == Err::<Seq<u8>, Error>(error) || root == Err::<
            Seq<u8>,
            Error,
        >(error),
    ensures
        brought(root, chain) == Err::<Seq<u8>, Error>(error),
    decreases chain.len(), i,
{
    if root == Err::<Seq<u8>, Error>(error) {
        if chain.len() > 0 {
            lemma_stays_refused(root, chain.skip(1), 0, error);
        }
    } else if i > 0 {
        assert(chain.skip(1).skip(i - 1) =~= chain.skip(i));
        lemma_stays_refused(root, chain.skip(1), i - 1, error);
    } else {
        assert(chain.skip(0) =~= chain);
    }
}

/// Where a chain goes from an entry.
pub enum Step {
    /// Nowhere: the entry is whole.
    Whole,
    /// To another entry of the push.
    Entry(WireRef),
    /// To an object that only the repository has.
    Repo(ObjectId),
}

/// Where a chain goes from an entry, which `packs` have. A base that the chain
/// came through already is the repository's: following it would not end.
pub open spec fn step_from(packs: Seq<WirePack>, at: WireRef, walked: Seq<WireRef>) -> Step {
    match packs[at.pack as int].scanned()[at.at as int].base {
        EntryBase::Whole(_) => Step::Whole,
        EntryBase::InPack(base) => Step::Entry(WireRef { pack: at.pack, at: base }),
        EntryBase::Ref(oid) => match first_arrival(packs, oid) {
            Some(entry) if !walked.contains(entry) => Step::Entry(entry),
            _ => Step::Repo(oid),
        },
    }
}

/// What an entry rebuilds to, or why there is none.
pub open spec fn oid_at(packs: Seq<WirePack>, at: WireRef) -> Result<ObjectId, Error> {
    if at.pack >= packs.len() {
        Err(Error::NoSuchPack)
    } else if at.at >= packs[at.pack as int].identified().len() {
        Err(Error::NoSuchEntry)
    } else {
        Ok(packs[at.pack as int].identified()[at.at as int])
    }
}

/// Whether a walk goes on to `next` from where it has come: that is where it
/// leads, and what stands there is not at hand already.
pub open spec fn goes_on(
    packs: Seq<WirePack>,
    held: Held,
    refs: Seq<WireRef>,
    next: WireRef,
) -> bool {
    &&& hop_of(packs, refs.last()) is Ok
    &&& step_from(packs, refs.last(), refs) == Step::Entry(next)
    &&& oid_at(packs, next) matches Ok(oid)
    &&& !is_cached(held, key_of(oid))
}

/// Whether `refs` is how a walk from `at` goes as far as it does.
pub open spec fn leads(packs: Seq<WirePack>, held: Held, at: WireRef, refs: Seq<WireRef>) -> bool
    decreases refs.len(),
{
    if refs.len() <= 1 {
        refs.len() == 1 && refs[0] == at
    } else {
        &&& leads(packs, held, at, refs.drop_last())
        &&& goes_on(packs, held, refs.drop_last(), refs.last())
    }
}

/// Where a walk ended.
#[derive(Debug)]
pub enum End<'a> {
    Root(Root<'a>),
    /// At an object that only the repository has.
    Repo(ObjectId),
}

/// The entries of a chain.
pub open spec fn refs_of(chain: Seq<HopView>) -> Seq<WireRef> {
    chain.map_values(|hop: HopView| hop.at)
}

/// Whether each hop of a chain is the entry it says it is.
pub open spec fn are_hops(packs: Seq<WirePack>, chain: Seq<HopView>) -> bool {
    forall|k: int|
        0 <= k < chain.len() ==> hop_of(packs, (#[trigger] chain[k]).at) == Ok::<HopView, Error>(
            chain[k],
        )
}

/// Whether a walk from `at` comes through `chain` to an end.
pub open spec fn walks_to(
    packs: Seq<WirePack>,
    held: Held,
    at: WireRef,
    chain: Seq<HopView>,
    end: End<'_>,
) -> bool {
    let refs = refs_of(chain);
    &&& are_hops(packs, chain)
    &&& match end {
        End::Root(Root::Entry(hop)) => {
            &&& leads(packs, held, at, refs.push(hop.at))
            &&& hop_of(packs, hop.at) == Ok::<HopView, Error>(hop@)
            &&& step_from(packs, hop.at, refs.push(hop.at)) == Step::Whole
        },
        End::Root(Root::Content(content)) => {
            &&& leads(packs, held, at, refs)
            &&& step_from(packs, refs.last(), refs) matches Step::Entry(next)
            &&& oid_at(packs, next) matches Ok(oid)
            &&& is_cached(held, key_of(oid))
            &&& content@ == cached_under(held, key_of(oid))
        },
        End::Repo(oid) => {
            &&& leads(packs, held, at, refs)
            &&& step_from(packs, refs.last(), refs) == Step::Repo(oid)
        },
    }
}

/// Whether a walk that has come through `refs` cannot go on for `error`.
pub open spec fn stops(packs: Seq<WirePack>, refs: Seq<WireRef>, error: Error) -> bool {
    match hop_of(packs, refs.last()) {
        Err(e) => e == error,
        Ok(_) => {
            &&& step_from(packs, refs.last(), refs) matches Step::Entry(next)
            &&& oid_at(packs, next) == Err::<ObjectId, Error>(error)
        },
    }
}

/// What a walk leaves in the cache: a hit counts as used.
pub open spec fn held_after(
    packs: Seq<WirePack>,
    held: Held,
    chain: Seq<HopView>,
    end: End<'_>,
) -> Held {
    let refs = refs_of(chain);
    match end {
        End::Root(Root::Content(_)) => match step_from(packs, refs.last(), refs) {
            Step::Entry(next) => asked_for(held, oid_at(packs, next)->Ok_0),
            _ => held,
        },
        _ => held,
    }
}

/// Whether every entry that deltas by position does so against an earlier one.
pub open spec fn bases_precede(packs: Seq<WirePack>) -> bool {
    forall|p: int, i: int|
        #![trigger packs[p].scanned()[i]]
        0 <= p < packs.len() && 0 <= i < packs[p].scanned().len() ==> (
        packs[p].scanned()[i].base matches EntryBase::InPack(base) ==> base < i)
}

/// How many of the first `n` entries of a pack are not among `seen`.
spec fn unseen_in(seen: Set<WireRef>, p: int, n: int) -> nat
    decreases n,
{
    if n <= 0 {
        0
    } else {
        unseen_in(seen, p, n - 1) + if seen.contains(
            WireRef { pack: p as usize, at: (n - 1) as usize },
        ) {
            0nat
        } else {
            1nat
        }
    }
}

/// How many entries of the first `p` packs are not among `seen`.
spec fn unseen(packs: Seq<WirePack>, seen: Set<WireRef>, p: int) -> nat
    decreases p,
{
    if p <= 0 {
        0
    } else {
        unseen(packs, seen, p - 1) + unseen_in(seen, p - 1, packs[p - 1].identified().len() as int)
    }
}

proof fn lemma_unseen_in(seen: Set<WireRef>, more: WireRef, p: int, n: int)
    ensures
        unseen_in(seen.insert(more), p, n) <= unseen_in(seen, p, n),
        more.pack == p && more.at < n && !seen.contains(more) ==> unseen_in(
            seen.insert(more),
            p,
            n,
        ) < unseen_in(seen, p, n),
    decreases n,
{
    if n > 0 {
        lemma_unseen_in(seen, more, p, n - 1);
    }
}

proof fn lemma_unseen(packs: Seq<WirePack>, seen: Set<WireRef>, more: WireRef, p: int)
    requires
        0 <= p <= packs.len(),
    ensures
        unseen(packs, seen.insert(more), p) <= unseen(packs, seen, p),
        more.pack < p && more.at < packs[more.pack as int].identified().len() && !seen.contains(
            more,
        ) ==> unseen(packs, seen.insert(more), p) < unseen(packs, seen, p),
    decreases p,
{
    if p > 0 {
        lemma_unseen(packs, seen, more, p - 1);
        lemma_unseen_in(seen, more, p - 1, packs[p - 1].identified().len() as int);
    }
}

/// Whether a chain came through an entry.
fn came_through(chain: &Vec<Hop<'_>>, at: WireRef) -> (found: bool)
    ensures
        found == refs_of(hops(chain@)).contains(at),
{
    let ghost refs = refs_of(hops(chain@));
    let mut i: usize = 0;
    while i < chain.len()
        invariant
            i <= chain@.len(),
            refs == refs_of(hops(chain@)),
            forall|k: int| 0 <= k < i ==> refs[k] != at,
        decreases chain@.len() - i,
    {
        assert(refs[i as int] == chain@[i as int].at);
        if chain[i].at == at {
            return true;
        }
        i += 1;
    }
    false
}

/// Walk an entry's chain back until something is whole or at hand, or until it
/// leaves the push.
pub fn walk<'a>(wire: &'a WirePacks, at: WireRef, cache: &mut ByteCache) -> (r: Result<
    (Vec<Hop<'a>>, End<'a>),
    Error,
>)
    requires
        old(cache).is_sound(),
        bases_precede(wire@),
    ensures
        final(cache).is_sound(),
        match r {
            Ok((chain, end)) => {
                &&& walks_to(wire@, old(cache)@, at, hops(chain@), end)
                &&& final(cache)@ == held_after(wire@, old(cache)@, hops(chain@), end)
            },
            Err(error) => {
                &&& final(cache)@ == old(cache)@
                &&& exists|refs: Seq<WireRef>| #[trigger]
                    leads(wire@, old(cache)@, at, refs) && stops(wire@, refs, error)
            },
        },
{
    let ghost held = cache@;
    let ghost packs = wire@;
    let n: usize = wire.packs().len();
    let mut chain: Vec<Hop<'a>> = Vec::new();
    let mut cursor = at;
    let ghost mut seen = Set::<WireRef>::empty().insert(at);
    assert(refs_of(hops(chain@)).push(cursor) =~= seq![at]);
    loop
        invariant
            cache.is_sound(),
            cache@ == held,
            held == old(cache)@,
            packs == wire@,
            n == packs.len(),
            bases_precede(packs),
            are_hops(packs, hops(chain@)),
            leads(packs, held, at, refs_of(hops(chain@)).push(cursor)),
            forall|entry: WireRef| #[trigger]
                seen.contains(entry) <==> refs_of(hops(chain@)).push(cursor).contains(entry),
        decreases unseen(packs, seen, n as int), cursor.at,
    {
        let ghost refs = refs_of(hops(chain@)).push(cursor);
        let ghost before = hops(chain@);
        assert(refs.last() == cursor);
        let hop = match hop(wire, cursor) {
            Ok(hop) => hop,
            Err(error) => {
                assert(stops(packs, refs, error));
                return Err(error);
            },
        };
        let entry = match wire.entry(cursor) {
            Ok(entry) => entry,
            Err(error) => {
                assert(false);
                return Err(error);
            },
        };
        let next = match entry.base {
            EntryBase::Whole(_) => {
                return Ok((chain, End::Root(Root::Entry(hop))));
            },
            EntryBase::InPack(base) => Some(WireRef { pack: cursor.pack, at: base }),
            EntryBase::Ref(oid) => match wire.entry_of(oid) {
                Some(entry) => {
                    let through = entry == cursor || came_through(&chain, entry);
                    assert(through == refs.contains(entry)) by {
                        lemma_push_contains(refs_of(before), cursor, entry);
                    }
                    if through {
                        None
                    } else {
                        Some(entry)
                    }
                },
                None => None,
            },
        };
        chain.push(hop);
        proof {
            let after = hops(chain@);
            assert(after =~= before.push(hop@));
            assert(refs_of(after) =~= refs);
            assert forall|k: int| 0 <= k < after.len() implies hop_of(
                packs,
                (#[trigger] after[k]).at,
            ) == Ok::<HopView, Error>(after[k]) by {
                if k < before.len() {
                    assert(after[k] == before[k]);
                }
            }
        }
        let next = match next {
            Some(next) => next,
            None => {
                if let EntryBase::Ref(oid) = entry.base {
                    return Ok((chain, End::Repo(oid)));
                }
                assert(false);
                return Err(Error::NoSuchEntry);
            },
        };
        assert(step_from(packs, cursor, refs) == Step::Entry(next));
        let oid = match wire.oid(next) {
            Ok(oid) => oid,
            Err(error) => {
                assert(leads(packs, held, at, refs) && stops(packs, refs, error));
                return Err(error);
            },
        };
        if let Some(hit) = cache.get(oid) {
            return Ok((chain, End::Root(Root::Content(hit))));
        }
        proof {
            let longer = refs.push(next);
            assert(longer.drop_last() =~= refs);
            assert(goes_on(packs, held, refs, next));
            lemma_unseen(packs, seen, next, n as int);
            assert forall|entry: WireRef| #[trigger]
                seen.insert(next).contains(entry) <==> longer.contains(entry) by {
                lemma_push_contains(refs, next, entry);
            }
            seen = seen.insert(next);
        }
        cursor = next;
    }
}

/// What an entry deltas against, if it does and there is such a thing.
pub open spec fn base_at(packs: Seq<WirePack>, at: WireRef) -> Option<ObjectId> {
    match packs[at.pack as int].scanned()[at.at as int].base {
        EntryBase::Whole(_) => None,
        EntryBase::InPack(base) => match oid_at(packs, WireRef { pack: at.pack, at: base }) {
            Ok(oid) => Some(oid),
            Err(_) => None,
        },
        EntryBase::Ref(oid) => Some(oid),
    }
}

/// Whether an entry makes its object out of what it deltas against, where
/// `truth` says what each object is.
pub open spec fn tells_true(
    packs: Seq<WirePack>,
    truth: Map<ObjectId, Seq<u8>>,
    at: WireRef,
) -> bool {
    hop_of(packs, at) matches Ok(hop) ==> {
        let object = Ok::<Seq<u8>, Error>(truth[hop.oid]);
        if packs[at.pack as int].scanned()[at.at as int].base is Whole {
            inflated(hop.body, hop.size) == object
        } else {
            base_at(packs, at) matches Some(base) ==> taken_further(
                Ok::<Seq<u8>, Error>(truth[base]),
                hop,
            ) == object
        }
    }
}

/// What the end of a walk comes to, where the repository gives what is true.
pub open spec fn end_content(end: End<'_>, truth: Map<ObjectId, Seq<u8>>) -> Result<
    Seq<u8>,
    Error,
> {
    match end {
        End::Root(root) => root_content(root),
        End::Repo(oid) => Ok(truth[oid]),
    }
}

/// Where a walk leads is what the entry deltas against.
proof fn lemma_step(packs: Seq<WirePack>, at: WireRef, walked: Seq<WireRef>)
    ensures
        match step_from(packs, at, walked) {
            Step::Whole => packs[at.pack as int].scanned()[at.at as int].base is Whole,
            Step::Entry(next) => {
                &&& !(packs[at.pack as int].scanned()[at.at as int].base is Whole)
                &&& oid_at(packs, next) matches Ok(oid) ==> base_at(packs, at) == Some(oid)
            },
            Step::Repo(oid) => {
                &&& !(packs[at.pack as int].scanned()[at.at as int].base is Whole)
                &&& base_at(packs, at) == Some(oid)
            },
        },
{
}

proof fn lemma_leads(packs: Seq<WirePack>, held: Held, at: WireRef, refs: Seq<WireRef>, k: int)
    requires
        leads(packs, held, at, refs),
        0 < k < refs.len(),
    ensures
        goes_on(packs, held, refs.take(k), refs[k]),
        refs[0] == at,
    decreases refs.len(),
{
    if k == refs.len() - 1 {
        assert(refs.take(k) =~= refs.drop_last());
        if k > 1 {
            lemma_leads(packs, held, at, refs.drop_last(), 1);
        }
    } else {
        lemma_leads(packs, held, at, refs.drop_last(), k);
        assert(refs.drop_last().take(k) =~= refs.take(k));
    }
}

/// From hop `k` on, the chain comes to that hop's object.
proof fn lemma_true_from(
    packs: Seq<WirePack>,
    held: Held,
    truth: Map<ObjectId, Seq<u8>>,
    at: WireRef,
    chain: Seq<HopView>,
    end: End<'_>,
    k: int,
)
    requires
        walks_to(packs, held, at, chain, end),
        forall|entry: WireRef| tells_true(packs, truth, entry),
        forall|oid: ObjectId|
            is_cached(held, key_of(oid)) ==> cached_under(held, #[trigger] key_of(oid))
                == truth[oid],
        0 <= k < chain.len(),
    ensures
        brought(end_content(end, truth), chain.skip(k)) == Ok::<Seq<u8>, Error>(
            truth[chain[k].oid],
        ),
    decreases chain.len() - k,
{
    let refs = refs_of(chain);
    let hop = chain[k];
    let from = chain.skip(k);
    assert(from[0] == hop);
    assert(from.skip(1) =~= chain.skip(k + 1));
    assert(tells_true(packs, truth, hop.at));
    assert(refs[k] == hop.at);
    if k + 1 < chain.len() {
        lemma_true_from(packs, held, truth, at, chain, end, k + 1);
        match end {
            End::Root(Root::Entry(root)) => {
                lemma_leads(packs, held, at, refs.push(root.at), k + 1);
                assert(refs.push(root.at).take(k + 1) =~= refs.take(k + 1));
            },
            _ => {
                lemma_leads(packs, held, at, refs, k + 1);
            },
        }
        assert(refs.take(k + 1).last() == hop.at);
        lemma_step(packs, hop.at, refs.take(k + 1));
        assert(refs[k + 1] == chain[k + 1].at);
        assert(hop_of(packs, chain[k + 1].at) == Ok::<HopView, Error>(chain[k + 1]));
    } else {
        assert(from.skip(1) =~= Seq::<HopView>::empty());
        match end {
            End::Root(Root::Entry(root)) => {
                let all = refs.push(root.at);
                lemma_leads(packs, held, at, all, k + 1);
                assert(all.take(k + 1) =~= refs);
                assert(refs.last() == hop.at);
                lemma_step(packs, hop.at, refs);
                lemma_step(packs, root.at, all);
                assert(tells_true(packs, truth, root.at));
            },
            End::Root(Root::Content(content)) => {
                lemma_step(packs, hop.at, refs);
            },
            End::Repo(oid) => {
                lemma_step(packs, hop.at, refs);
            },
        }
    }
}

/// Rebuilding gives the object: where every entry makes its object out of what
/// it deltas against, and the cache and the repository give what is true, a
/// walk's chain makes of its end what the entry it started from is.
pub proof fn rebuilding_gives_the_object(
    packs: Seq<WirePack>,
    held: Held,
    truth: Map<ObjectId, Seq<u8>>,
    at: WireRef,
    chain: Seq<HopView>,
    end: End<'_>,
)
    requires
        walks_to(packs, held, at, chain, end),
        forall|entry: WireRef| tells_true(packs, truth, entry),
        forall|oid: ObjectId|
            is_cached(held, key_of(oid)) ==> cached_under(held, #[trigger] key_of(oid))
                == truth[oid],
    ensures
        oid_at(packs, at) matches Ok(oid) && brought(end_content(end, truth), chain) == Ok::<
            Seq<u8>,
            Error,
        >(truth[oid]),
{
    let refs = refs_of(chain);
    if chain.len() > 0 {
        lemma_true_from(packs, held, truth, at, chain, end, 0);
        assert(chain.skip(0) =~= chain);
        match end {
            End::Root(Root::Entry(root)) => {
                lemma_leads(packs, held, at, refs.push(root.at), 1);
            },
            _ => {
                if refs.len() > 1 {
                    lemma_leads(packs, held, at, refs, 1);
                }
            },
        }
        assert(refs[0] == chain[0].at);
    } else {
        match end {
            End::Root(Root::Entry(root)) => {
                assert(refs.push(root.at)[0] == root.at);
                lemma_step(packs, root.at, refs.push(root.at));
                assert(tells_true(packs, truth, root.at));
            },
            _ => {},
        }
    }
}

/// What a cache holds once it was asked for those objects of a run that no pack
/// of the push has.
pub open spec fn asked_in_turn(held: Held, oids: Seq<ObjectId>, packs: Seq<WirePack>) -> Held
    decreases oids.len(),
{
    if oids.len() == 0 {
        held
    } else {
        let before = asked_in_turn(held, oids.drop_last(), packs);
        if first_arrival(packs, oids.last()) is None {
            asked_for(before, oids.last())
        } else {
            before
        }
    }
}

/// The objects of a run that neither a pack of the push nor the cache has, each
/// once. The cache still holds what it held.
pub fn to_prefetch(oids: &[ObjectId], wire: &WirePacks, cache: &mut ByteCache) -> (absent: Vec<
    ObjectId,
>)
    requires
        old(cache).is_sound(),
    ensures
        final(cache).is_sound(),
        final(cache)@ == asked_in_turn(old(cache)@, oids@, wire@),
        forall|oid: ObjectId| #[trigger]
            is_cached(final(cache)@, key_of(oid)) <==> is_cached(old(cache)@, key_of(oid)),
        forall|oid: ObjectId|
            is_cached(old(cache)@, key_of(oid)) ==> #[trigger] cached_under(
                final(cache)@,
                key_of(oid),
            ) == cached_under(old(cache)@, key_of(oid)),
        absent@ == distinct(
            oids@.filter(
                |oid: ObjectId|
                    first_arrival(wire@, oid) is None && !is_cached(old(cache)@, key_of(oid)),
            ),
        ),
{
    let ghost held = cache@;
    let ghost keep = |oid: ObjectId|
        first_arrival(wire@, oid) is None && !is_cached(held, key_of(oid));
    let mut absent = IdList::new();
    let mut i: usize = 0;
    assert(oids@.take(0).filter(keep) =~= Seq::<ObjectId>::empty()) by {
        reveal(Seq::filter);
    }
    while i < oids.len()
        invariant
            i <= oids@.len(),
            cache.is_sound(),
            held == old(cache)@,
            keep == (|oid: ObjectId|
                first_arrival(wire@, oid) is None && !is_cached(held, key_of(oid))),
            cache@ == asked_in_turn(held, oids@.take(i as int), wire@),
            forall|oid: ObjectId| #[trigger]
                is_cached(cache@, key_of(oid)) <==> is_cached(held, key_of(oid)),
            forall|oid: ObjectId|
                is_cached(held, key_of(oid)) ==> #[trigger] cached_under(cache@, key_of(oid))
                    == cached_under(held, key_of(oid)),
            absent@ == distinct(oids@.take(i as int).filter(keep)),
        decreases oids@.len() - i,
    {
        let oid = oids[i];
        proof {
            reveal(Seq::filter);
            assert(oids@.take(i as int + 1).drop_last() =~= oids@.take(i as int));
            let before = oids@.take(i as int).filter(keep);
            assert(before.push(oid).drop_last() =~= before);
            cache.lemma_held_once();
            lemma_asked_for(cache@, oid);
        }
        if wire.entry_of(oid).is_none() && cache.get(oid).is_none() {
            let _ = absent.put(oid);
        }
        i += 1;
    }
    assert(oids@.take(i as int) =~= oids@);
    absent.into_vec()
}

} // verus!
