//! What holds of a repository's rows, its counters and its segments.

use vstd::prelude::*;

use crate::deps::hex::{hex_digit, hex_of};
use crate::journal::{Index, JournalState, LedgerState, Listing};
use crate::metadata::memory::{
    facts_of, in_secs, kept_segments, last_push_of, lists, present_ids, registered, retired,
    window_start, wired, MemoryState, RepoMetadata,
};
use crate::metadata::rows::{Ref, RepoId, RepoRows};
use crate::model::Identity;
use crate::object::{ids_are_their_bytes, Kind, ObjectId};
use crate::objects::location::Ulid;

verus! {

/// Giving a repository its counters leaves those that it has, starts the others
/// at zero, and changes nothing else.
pub proof fn counters_start_at_zero_and_stay(rows: RepoRows, kind: Kind)
    ensures
        rows.counted().counters.contains_key(kind),
        rows.counters.contains_key(kind) ==> rows.counted().counters[kind] == rows.counters[kind],
        !rows.counters.contains_key(kind) ==> rows.counted().counters[kind] == 0,
        rows.counted() == (RepoRows { counters: rows.counted().counters, ..rows }),
{
}

/// Two allocations of a kind hand out ranges that do not meet: the second
/// starts where the first ended. Nothing but that counter changes.
pub proof fn allocations_do_not_meet(rows: RepoRows, kind: Kind, first: u64, second: u64)
    requires
        rows.counters.contains_key(kind),
        rows.counters[kind] + first + second <= i64::MAX,
    ensures
        ({
            let once = rows.allocated(kind, first);
            let twice = once.allocated(kind, second);
            &&& once.counters.contains_key(kind)
            &&& once.counters[kind] == rows.counters[kind] + first
            &&& twice.counters[kind] == rows.counters[kind] + first + second
            &&& once == (RepoRows { counters: once.counters, ..rows })
            &&& forall|other: Kind|
                other != kind ==> {
                    &&& #[trigger] once.counters.contains_key(other) == rows.counters.contains_key(
                        other,
                    )
                    &&& rows.counters.contains_key(other) ==> once.counters[other]
                        == rows.counters[other]
                }
        }),
{
}

/// Recording numbers only adds: what the batch does not name reads as before,
/// both ways, and no other row changes.
pub proof fn recording_only_adds(rows: RepoRows, named: Seq<(ObjectId, Identity)>)
    ensures
        forall|oid: ObjectId|
            (forall|i: int| 0 <= i < named.len() ==> (#[trigger] named[i]).0 != oid) ==> {
                &&& #[trigger] rows.recorded(named).identities.contains_key(oid)
                    == rows.identities.contains_key(oid)
                &&& rows.identities.contains_key(oid) ==> rows.recorded(named).identities[oid]
                    == rows.identities[oid]
            },
        forall|i: int|
            0 <= i < named.len() ==> rows.recorded(named).identities.contains_key(
                (#[trigger] named[i]).0,
            ) && rows.recorded(named).by_seq.contains_key((named[i].1.kind, named[i].1.seq)),
        rows.recorded(named) == (RepoRows {
            identities: rows.recorded(named).identities,
            by_seq: rows.recorded(named).by_seq,
            ..rows
        }),
    decreases named.len(),
{
    if named.len() > 0 {
        let front = named.drop_last();
        recording_only_adds(rows, front);
        assert forall|oid: ObjectId|
            (forall|i: int| 0 <= i < named.len() ==> (#[trigger] named[i]).0 != oid) implies {
            &&& #[trigger] rows.recorded(named).identities.contains_key(oid)
                == rows.identities.contains_key(oid)
            &&& rows.identities.contains_key(oid) ==> rows.recorded(named).identities[oid]
                == rows.identities[oid]
        } by {
            assert forall|i: int| 0 <= i < front.len() implies (#[trigger] front[i]).0 != oid by {
                assert(named[i].0 != oid);
            }
            assert(named[named.len() - 1].0 != oid);
            assert(rows.recorded(front).identities.contains_key(oid)
                == rows.identities.contains_key(oid));
        }
        assert forall|i: int| 0 <= i < named.len() implies rows.recorded(
            named,
        ).identities.contains_key((#[trigger] named[i]).0) && rows.recorded(
            named,
        ).by_seq.contains_key((named[i].1.kind, named[i].1.seq)) by {
            if i < front.len() {
                assert(front[i] == named[i]);
            }
        }
    }
}

/// A batch races exactly where one of its ids has a number.
pub proof fn a_batch_races_where_one_is_numbered(rows: RepoRows, named: Seq<(ObjectId, Identity)>)
    ensures
        !rows.races(named) <==> forall|i: int|
            0 <= i < named.len() ==> !rows.identities.contains_key((#[trigger] named[i]).0),
        named.len() > 0 ==> rows.recorded(named).races(named),
{
    if named.len() > 0 {
        recording_only_adds(rows, named);
        assert(rows.recorded(named).identities.contains_key(named[0].0));
    }
}

/// A repository is found where it was created and not deleted, with what it was
/// created with.
pub proof fn a_repository_is_found_until_deleted(state: MemoryState, id: RepoId)
    ensures
        ({
            let rows = state.repos[id.0];
            state.resolved(id) is Some <==> state.repos.contains_key(id.0)
                && rows.storage_key is Some && rows.deleted_at is None
        }),
        state.resolved(id) matches Some(found) ==> {
            &&& found.id == id
            &&& Some(found.storage_key) == state.repos[id.0].storage_key
            &&& found.default_branch == state.repos[id.0].default_branch
        },
        facts_of(id, state.rows(id)) is Some <==> state.repos.contains_key(id.0)
            && state.repos[id.0].storage_key is Some,
        facts_of(id, state.rows(id)) matches Some(found) ==> {
            &&& found.id == id
            &&& Some(found.storage_key) == state.repos[id.0].storage_key
            &&& found.default_branch == state.repos[id.0].default_branch
        },
{
}

/// Writing one repository's rows leaves every other repository's alone.
pub proof fn repositories_stand_alone(state: MemoryState, id: RepoId, rows: RepoRows, other: RepoId)
    ensures
        state.with_rows(id, rows).rows(id) == rows,
        other != id ==> state.with_rows(id, rows).rows(other) == state.rows(other),
        other != id ==> state.with_rows(id, rows).repos.contains_key(other.0)
            == state.repos.contains_key(other.0),
        state.with_rows(id, rows).last_id == state.last_id,
        !state.repos.contains_key(id.0) ==> state.rows(id) == RepoRows::empty(),
{
}

/// A list of live repositories has each that was created and not deleted, and a
/// list of deleted ones each that was deleted before the cut, and no other.
pub proof fn a_listing_is_complete(
    state: MemoryState,
    before: Option<i64>,
    found: Seq<RepoMetadata>,
    id: i64,
)
    requires
        lists(state, before, found),
    ensures
        (exists|i: int| 0 <= i < found.len() && (#[trigger] found[i]).id.0 == id) <==> {
            &&& state.repos.contains_key(id)
            &&& state.repos[id].storage_key is Some
            &&& before is None ==> state.repos[id].deleted_at is None
            &&& before matches Some(cut) ==> state.repos[id].deleted_at is Some
                && state.repos[id].deleted_at->0 < cut
        },
        forall|i: int, j: int|
            0 <= i < j < found.len() ==> (#[trigger] found[i]).id.0 < (#[trigger] found[j]).id.0,
        forall|i: int|
            0 <= i < found.len() ==> {
                let rows = state.repos[(#[trigger] found[i]).id.0];
                &&& Some(found[i].storage_key) == rows.storage_key
                &&& found[i].default_branch@ == rows.default_branch
            },
{
    assert forall|i: int| 0 <= i < found.len() implies {
        let rows = state.repos[(#[trigger] found[i]).id.0];
        &&& Some(found[i].storage_key) == rows.storage_key
        &&& found[i].default_branch@ == rows.default_branch
    } by {
        assert(facts_of(found[i].id, state.rows(found[i].id)) == Some(found[i]@));
    }
}

/// The ids of the repositories that are there, of those asked about.
pub proof fn what_is_asked_about_and_there_is_summarised(
    state: MemoryState,
    repos: Seq<RepoId>,
    id: i64,
)
    ensures
        present_ids(state, repos).contains(id) <==> {
            &&& repos.contains(RepoId(id))
            &&& state.repos.contains_key(id)
            &&& state.repos[id].storage_key is Some
            &&& state.repos[id].deleted_at is None
        },
{
    let keep = |one: RepoId| state.resolved(one) is Some;
    let kept = repos.filter(keep);
    crate::ingest::lists::lemma_filtered(repos, keep);
    let ids = present_ids(state, repos);
    assert(ids =~= kept.map_values(|one: RepoId| one.0));
    if ids.contains(id) {
        let i = choose|i: int| 0 <= i < ids.len() && ids[i] == id;
        assert(kept[i] == RepoId(id));
        assert(kept.contains(RepoId(id)));
    }
    if repos.contains(RepoId(id)) && keep(RepoId(id)) {
        assert(kept.contains(RepoId(id)));
        let i = choose|i: int| 0 <= i < kept.len() && kept[i] == RepoId(id);
        assert(ids[i] == id);
    }
}

/// A time in microseconds reads as the whole seconds that it holds.
pub proof fn seconds_are_whole(micros: i64)
    ensures
        micros >= 0 ==> in_secs(micros) * 1_000_000 <= micros < (in_secs(micros) + 1) * 1_000_000,
        micros < 0 ==> (in_secs(micros) - 1) * 1_000_000 < micros <= in_secs(micros) * 1_000_000,
{
}

/// A grace period ends that many seconds back from now, no matter how long it
/// is; a longer one never ends later.
pub proof fn a_grace_period_reaches_back(now: i64, grace_secs: u64, longer: u64)
    requires
        grace_secs <= longer,
        now >= 0,
    ensures
        window_start(now, 0) == now,
        window_start(now, longer) <= window_start(now, grace_secs) <= now,
        grace_secs * 1_000_000 <= i64::MAX ==> window_start(now, grace_secs) == now - grace_secs
            * 1_000_000,
{
}

/// The last push is when the default branch moved last.
pub proof fn the_last_push_is_the_default_branch_s(rows: RepoRows)
    ensures
        last_push_of(rows) is Some <==> rows.branches.contains_key(rows.default_branch),
        last_push_of(rows) matches Some(at) ==> {
            let moved = rows.branches[rows.default_branch].updated;
            moved >= 0 ==> at * 1_000_000 <= moved < (at + 1) * 1_000_000
        },
{
}

/// Registering makes a segment referenced and live, and changes nothing of one
/// that was known; what is not registered does not come in.
pub proof fn registering_only_adds(segments: Map<Ulid, Option<i64>>, ids: Seq<Ulid>, one: Ulid)
    ensures
        ids.contains(one) ==> registered(segments, ids).contains_key(one),
        ids.contains(one) && !segments.contains_key(one) ==> registered(segments, ids)[one] is None,
        segments.contains_key(one) ==> registered(segments, ids).contains_key(one) && registered(
            segments,
            ids,
        )[one] == segments[one],
        !ids.contains(one) && !segments.contains_key(one) ==> !registered(
            segments,
            ids,
        ).contains_key(one),
{
}

/// Retiring marks what is live and named with the time, keeps the time of what
/// was retired before, and drops and adds nothing.
pub proof fn retiring_marks_what_is_live(
    segments: Map<Ulid, Option<i64>>,
    ids: Seq<Ulid>,
    now: i64,
    one: Ulid,
)
    ensures
        retired(segments, ids, now).contains_key(one) == segments.contains_key(one),
        segments.contains_key(one) && ids.contains(one) && segments[one] is None ==> retired(
            segments,
            ids,
            now,
        )[one] == Some(now),
        segments.contains_key(one) && segments[one] is Some ==> retired(segments, ids, now)[one]
            == segments[one],
        segments.contains_key(one) && !ids.contains(one) ==> retired(segments, ids, now)[one]
            == segments[one],
{
}

/// Only a segment that was retired before the cut is dropped.
pub proof fn only_what_was_retired_long_ago_is_dropped(
    segments: Map<Ulid, Option<i64>>,
    cut: i64,
    one: Ulid,
)
    ensures
        kept_segments(segments, cut).contains_key(one) ==> segments.contains_key(one)
            && kept_segments(segments, cut)[one] == segments[one],
        segments.contains_key(one) && !kept_segments(segments, cut).contains_key(one) ==> {
            &&& segments[one] is Some
            &&& segments[one]->0 < cut
        },
        segments.contains_key(one) && segments[one] is Some && segments[one]->0 < cut
            ==> !kept_segments(segments, cut).contains_key(one),
{
}

/// What a journal lands: everything that it lists, in its order and behind what
/// was listed; what it registers, live, unless it retires it too; and what it
/// retires, marked with the time. Nothing else of the repository changes, and
/// nothing of another one.
pub proof fn a_journal_lands_what_it_holds(
    state: LedgerState,
    repo: RepoId,
    journal: JournalState,
    now: i64,
    one: Ulid,
    other: RepoId,
)
    ensures
        ({
            let after = state.committed(repo, journal, now);
            let was = state.rows.rows(repo);
            let is = after.rows.rows(repo);
            &&& after.listed == state.listed + journal.listed
            &&& is == (RepoRows { segments: is.segments, ..was })
            &&& is.segments.contains_key(one) <==> was.segments.contains_key(one)
                || journal.registered.contains(one)
            &&& journal.registered.contains(one) && !was.segments.contains_key(one)
                && !journal.retired.contains(one) ==> is.segments[one] is None
            &&& journal.retired.contains(one) && is.segments.contains_key(one) ==> is.segments[one]
                == (if was.segments.contains_key(one) && was.segments[one] is Some {
                was.segments[one]
            } else {
                Some(now)
            })
            &&& was.segments.contains_key(one) && !journal.retired.contains(one)
                ==> is.segments[one] == was.segments[one]
            &&& other != repo ==> after.rows.rows(other) == state.rows.rows(other)
            &&& after.rows.last_id == state.rows.last_id
        }),
{
    let after = state.committed(repo, journal, now);
    assert(after.listed =~= state.listed + journal.listed);
    if journal.listed.len() == 0 && journal.registered.len() == 0 && journal.retired.len() == 0 {
        assert(!journal.registered.contains(one));
        assert(!journal.retired.contains(one));
    }
}

/// A catalog has what was listed of one index and one scope, in its order.
pub proof fn a_catalog_has_its_own_listings(state: LedgerState, index: Index, scope: i64, l: Listing)
    ensures
        state.catalog(index, scope).contains(l) <==> state.listed.contains(l) && l.index == index
            && l.scope.id == scope,
{
    crate::ingest::lists::lemma_filtered(
        state.listed,
        |l: Listing| l.index == index && l.scope.id == scope,
    );
}

/// The four indexes have places of their own.
pub proof fn indexes_have_places_of_their_own(a: Index, b: Index)
    ensures
        a.place() == b.place() <==> a == b,
        0 <= a.place() < 4,
{
}

/// The refs of a repository are its branches and its others, each with what it
/// holds.
pub proof fn a_repository_s_refs_are_those_of_both_tables(rows: RepoRows, name: Seq<char>)
    ensures
        rows.all_refs().contains_key(name) <==> rows.branches.contains_key(name)
            || rows.others.contains_key(name),
        rows.others.contains_key(name) ==> rows.all_refs()[name] == rows.others[name],
        rows.branches.contains_key(name) && !rows.others.contains_key(name)
            ==> rows.all_refs()[name] == rows.branches[name],
{
}

/// A ref is shown as the id that it holds in hexadecimal, two digits for each
/// byte, and two that hold different ids are shown as different.
pub proof fn a_ref_is_shown_as_its_id(
    table: Map<Seq<char>, Ref>,
    name: Seq<char>,
    other: Seq<char>,
)
    requires
        table.contains_key(name),
        table.contains_key(other),
    ensures
        wired(table).contains_key(name),
        wired(table)[name].len() == 40,
        wired(table)[name] == wired(table)[other] ==> table[name].oid == table[other].oid,
{
    let a = table[name].oid.bytes();
    let b = table[other].oid.bytes();
    ids_are_their_bytes(table[name].oid, table[other].oid);
    ids_are_their_bytes(table[other].oid, table[name].oid);
    if hex_of(a) == hex_of(b) {
        assert forall|i: int| 0 <= i < 20 implies #[trigger] a[i] == b[i] by {
            let high = hex_of(a)[2 * i];
            let low = hex_of(a)[2 * i + 1];
            assert(high == hex_of(b)[2 * i] && low == hex_of(b)[2 * i + 1]);
            assert((2 * i) / 2 == i && (2 * i + 1) / 2 == i && (2 * i) % 2 == 0 && (2 * i + 1) % 2
                == 1);
            lemma_digits(a[i] as nat / 16, b[i] as nat / 16);
            lemma_digits(a[i] as nat % 16, b[i] as nat % 16);
        }
        assert(a =~= b);
    }
}

proof fn lemma_digits(a: nat, b: nat)
    requires
        a < 16,
        b < 16,
        hex_digit(a) == hex_digit(b),
    ensures
        a == b,
{
}

} // verus!
