//! What recording a push writes of each commit and each object that it brings.

use vstd::prelude::*;

use crate::error::Error;
use crate::ingest::append::assemble::{commits_recorded, object_writes};
use crate::ingest::append::model::{NewCommit, NewObject};
use crate::ingest::append::objects::Relevant;
use crate::ingest::append::records::{
    commit_recorded, own_entries, children_numbered, packed, places_gained, segments_of,
    with_packed, CommitView,
};
use crate::ingest::lists::lemma_push_contains;
use crate::model::{ObjectSeq, PackImageLocation};
use crate::object::{Kind, ObjectId};
use crate::objects::location::{Location, Ulid};
use crate::seqs::SeqSets;

verus! {

/// The bare number, whatever it counts.
pub open spec fn bare(seq: ObjectSeq) -> u64 {
    match seq {
        ObjectSeq::Tree(n) => n,
        ObjectSeq::Blob(n) => n,
        ObjectSeq::Tag(n) => n,
    }
}

/// Whether a number counts what is of a kind.
pub open spec fn counts_kind(seq: ObjectSeq, kind: Kind) -> bool {
    match kind {
        Kind::Tree => seq is Tree,
        Kind::Blob => seq is Blob,
        Kind::Tag => seq is Tag,
        Kind::Commit => false,
    }
}

/// A commit is recorded with all of its parents, each under its own number and
/// in the commit's own order, with its root tree under that tree's number, and
/// with what was read of it and where it was written left as it is.
pub proof fn a_commit_is_recorded_whole(
    oid: ObjectId,
    commits: Map<ObjectId, NewCommit>,
    commit_seq_of: Map<ObjectId, i64>,
    seq_of: Map<ObjectId, ObjectSeq>,
    bitmaps: Map<ObjectId, SeqSets>,
    recorded: CommitView,
)
    requires
        commit_recorded(oid, commits, commit_seq_of, seq_of, bitmaps) == Ok::<CommitView, Error>(
            recorded,
        ),
    ensures
        commits.contains_key(oid),
        recorded.oid == oid,
        commit_seq_of.contains_key(oid) && recorded.seq == commit_seq_of[oid],
        recorded.parents.len() == commits[oid].parents@.len(),
        forall|k: int|
            0 <= k < commits[oid].parents@.len() ==> {
                &&& commit_seq_of.contains_key(#[trigger] commits[oid].parents@[k])
                &&& recorded.parents[k] == commit_seq_of[commits[oid].parents@[k]]
            },
        seq_of.contains_key(commits[oid].root_tree),
        seq_of[commits[oid].root_tree] == ObjectSeq::Tree(recorded.root_tree_seq),
        recorded.committer_date == commits[oid].committer_date,
        recorded.entry_len == commits[oid].entry_len,
        recorded.blob_offset == commits[oid].blob_offset,
        recorded.segment == commits[oid].segment,
        bitmaps.contains_key(oid) ==> recorded.stored == bitmaps[oid],
        !bitmaps.contains_key(oid) ==> forall|n: u64|
            !recorded.stored.trees.contains(n) && !recorded.stored.blobs.contains(n),
{
}

/// Whether everything that recording a commit names has its number.
pub open spec fn is_all_numbered(
    oid: ObjectId,
    commit: NewCommit,
    commit_seq_of: Map<ObjectId, i64>,
    seq_of: Map<ObjectId, ObjectSeq>,
) -> bool {
    &&& commit_seq_of.contains_key(oid)
    &&& forall|k: int|
        0 <= k < commit.parents@.len() ==> commit_seq_of.contains_key(
            #[trigger] commit.parents@[k],
        )
    &&& seq_of.contains_key(commit.root_tree)
    &&& seq_of[commit.root_tree] is Tree
}

/// A commit that the push brings is recorded exactly where it, its parents and
/// its root tree have their numbers; otherwise the error says which has none.
pub proof fn a_commit_is_recorded_once_all_is_numbered(
    oid: ObjectId,
    commits: Map<ObjectId, NewCommit>,
    commit_seq_of: Map<ObjectId, i64>,
    seq_of: Map<ObjectId, ObjectSeq>,
    bitmaps: Map<ObjectId, SeqSets>,
)
    ensures
        ({
            let recorded = commit_recorded(oid, commits, commit_seq_of, seq_of, bitmaps);
            let commit = commits[oid];
            &&& recorded is Ok <==> commits.contains_key(oid) && is_all_numbered(
                oid,
                commit,
                commit_seq_of,
                seq_of,
            )
            &&& recorded == Err::<CommitView, Error>(Error::CommitUnknown) <==> !commits.contains_key(
                oid,
            )
            &&& recorded == Err::<CommitView, Error>(Error::ParentUnnumbered) ==> exists|k: int|
                0 <= k < commit.parents@.len() && !commit_seq_of.contains_key(
                    #[trigger] commit.parents@[k],
                )
            &&& recorded == Err::<CommitView, Error>(Error::CommitUnnumbered)
                ==> !commit_seq_of.contains_key(oid)
            &&& recorded == Err::<CommitView, Error>(Error::RootTreeUnnumbered)
                ==> !seq_of.contains_key(commit.root_tree) || !(seq_of[commit.root_tree] is Tree)
        }),
{
}

/// The commits of a push are recorded one for one, in their order.
pub proof fn each_commit_is_recorded(
    to_insert: Seq<ObjectId>,
    commits: Map<ObjectId, NewCommit>,
    commit_seq_of: Map<ObjectId, i64>,
    seq_of: Map<ObjectId, ObjectSeq>,
    bitmaps: Map<ObjectId, SeqSets>,
)
    ensures
        match commits_recorded(to_insert, commits, commit_seq_of, seq_of, bitmaps) {
            Ok(recorded) => {
                &&& recorded.len() == to_insert.len()
                &&& forall|i: int|
                    0 <= i < to_insert.len() ==> {
                        &&& (#[trigger] recorded[i]).oid == to_insert[i]
                        &&& recorded[i].parents.len() == commits[to_insert[i]].parents@.len()
                        &&& commit_recorded(
                            to_insert[i],
                            commits,
                            commit_seq_of,
                            seq_of,
                            bitmaps,
                        ) == Ok::<CommitView, Error>(recorded[i])
                    }
            },
            Err(_) => exists|i: int|
                0 <= i < to_insert.len() && !(commits.contains_key(#[trigger] to_insert[i])
                    && is_all_numbered(
                    to_insert[i],
                    commits[to_insert[i]],
                    commit_seq_of,
                    seq_of,
                )),
        },
    decreases to_insert.len(),
{
    if to_insert.len() > 0 {
        let rest = to_insert.drop_last();
        let last = to_insert.last();
        each_commit_is_recorded(rest, commits, commit_seq_of, seq_of, bitmaps);
        a_commit_is_recorded_once_all_is_numbered(last, commits, commit_seq_of, seq_of, bitmaps);
        match commits_recorded(to_insert, commits, commit_seq_of, seq_of, bitmaps) {
            Ok(recorded) => {
                let earlier = commits_recorded(
                    rest,
                    commits,
                    commit_seq_of,
                    seq_of,
                    bitmaps,
                )->Ok_0;
                assert forall|i: int| 0 <= i < to_insert.len() implies {
                    &&& (#[trigger] recorded[i]).oid == to_insert[i]
                    &&& recorded[i].parents.len() == commits[to_insert[i]].parents@.len()
                    &&& commit_recorded(
                        to_insert[i],
                        commits,
                        commit_seq_of,
                        seq_of,
                        bitmaps,
                    ) == Ok::<CommitView, Error>(recorded[i])
                } by {
                    if i < rest.len() {
                        assert(recorded[i] == earlier[i]);
                        assert(rest[i] == to_insert[i]);
                    }
                }
            },
            Err(_) => {
                if commits_recorded(rest, commits, commit_seq_of, seq_of, bitmaps) is Err {
                    let i = choose|i: int|
                        0 <= i < rest.len() && !(commits.contains_key(#[trigger] rest[i])
                            && is_all_numbered(rest[i], commits[rest[i]], commit_seq_of, seq_of));
                    assert(to_insert[i] == rest[i]);
                } else {
                    assert(to_insert[to_insert.len() - 1] == last);
                }
            },
        }
    }
}

/// Whether a pack is one whose commit this push brings, with its number.
pub open spec fn is_pack_known(
    pack: ObjectId,
    commits: Map<ObjectId, NewCommit>,
    commit_seq_of: Map<ObjectId, i64>,
) -> bool {
    commit_seq_of.contains_key(pack) && commits.contains_key(pack)
}

/// Whether `location` says where `place` lies: in its pack, under the pack's
/// number and in the pack's segment, at the same offset, with the same length
/// and against the same base.
pub open spec fn says_where(
    location: Location,
    place: PackImageLocation,
    kind: Kind,
    commits: Map<ObjectId, NewCommit>,
    commit_seq_of: Map<ObjectId, i64>,
    seq_of: Map<ObjectId, ObjectSeq>,
) -> bool {
    &&& is_pack_known(place.pack_sha, commits, commit_seq_of)
    &&& location.pack_oid == place.pack_sha
    &&& location.pack_seq == commit_seq_of[place.pack_sha]
    &&& location.segment == commits[place.pack_sha].segment
    &&& location.offset == place.offset
    &&& location.entry_len == place.entry_len
    &&& match place.base {
        None => location.base_seq is None,
        Some(base) => {
            &&& seq_of.contains_key(base)
            &&& counts_kind(seq_of[base], kind)
            &&& location.base_seq == Some(bare(seq_of[base]))
        },
    }
}

/// Whether the base of an entry has a number of the entry's own kind.
pub open spec fn is_base_numbered(
    place: PackImageLocation,
    kind: Kind,
    seq_of: Map<ObjectId, ObjectSeq>,
) -> bool {
    match place.base {
        None => true,
        Some(base) => seq_of.contains_key(base) && counts_kind(seq_of[base], kind),
    }
}

/// An object is recorded in every pack that it was written to, in their order,
/// where each of them says where its entry lies and against what.
pub proof fn each_place_is_recorded(
    fresh: Seq<PackImageLocation>,
    kind: Kind,
    commits: Map<ObjectId, NewCommit>,
    commit_seq_of: Map<ObjectId, i64>,
    seq_of: Map<ObjectId, ObjectSeq>,
)
    requires
        forall|k: int|
            0 <= k < fresh.len() ==> is_pack_known(
                (#[trigger] fresh[k]).pack_sha,
                commits,
                commit_seq_of,
            ),
    ensures
        match places_gained(fresh, kind, commits, commit_seq_of, seq_of) {
            Ok(places) => {
                &&& places.len() == fresh.len()
                &&& forall|k: int|
                    0 <= k < fresh.len() ==> says_where(
                        #[trigger] places[k],
                        fresh[k],
                        kind,
                        commits,
                        commit_seq_of,
                        seq_of,
                    )
            },
            Err(_) => exists|k: int|
                0 <= k < fresh.len() && !is_base_numbered(#[trigger] fresh[k], kind, seq_of),
        },
    decreases fresh.len(),
{
    if fresh.len() > 0 {
        let rest = fresh.drop_last();
        assert forall|k: int| 0 <= k < rest.len() implies is_pack_known(
            (#[trigger] rest[k]).pack_sha,
            commits,
            commit_seq_of,
        ) by {
            assert(rest[k] == fresh[k]);
        }
        each_place_is_recorded(rest, kind, commits, commit_seq_of, seq_of);
        assert(fresh[fresh.len() - 1] == fresh.last());
        match places_gained(fresh, kind, commits, commit_seq_of, seq_of) {
            Ok(places) => {
                let earlier = places_gained(rest, kind, commits, commit_seq_of, seq_of)->Ok_0;
                assert forall|k: int| 0 <= k < fresh.len() implies says_where(
                    #[trigger] places[k],
                    fresh[k],
                    kind,
                    commits,
                    commit_seq_of,
                    seq_of,
                ) by {
                    if k < rest.len() {
                        assert(places[k] == earlier[k]);
                        assert(rest[k] == fresh[k]);
                    }
                }
            },
            Err(_) => {
                if places_gained(rest, kind, commits, commit_seq_of, seq_of) is Err {
                    let k = choose|k: int|
                        0 <= k < rest.len() && !is_base_numbered(#[trigger] rest[k], kind, seq_of);
                    assert(rest[k] == fresh[k]);
                }
            },
        }
    }
}

/// Whether `n` numbers a tree among `children`.
pub open spec fn has_tree(
    children: Seq<ObjectId>,
    seq_of: Map<ObjectId, ObjectSeq>,
    n: u64,
) -> bool {
    exists|k: int|
        0 <= k < children.len() && seq_of.contains_key(#[trigger] children[k])
            && seq_of[children[k]] == ObjectSeq::Tree(n)
}

/// Whether `n` numbers a blob among `children`.
pub open spec fn has_blob(
    children: Seq<ObjectId>,
    seq_of: Map<ObjectId, ObjectSeq>,
    n: u64,
) -> bool {
    exists|k: int|
        0 <= k < children.len() && seq_of.contains_key(#[trigger] children[k])
            && seq_of[children[k]] == ObjectSeq::Blob(n)
}

/// Whether one of `children` is neither a tree nor a blob with a number.
pub open spec fn has_other(children: Seq<ObjectId>, seq_of: Map<ObjectId, ObjectSeq>) -> bool {
    exists|k: int|
        0 <= k < children.len() && (!seq_of.contains_key(#[trigger] children[k])
            || seq_of[children[k]] is Tag)
}

proof fn lemma_children(children: Seq<ObjectId>, seq_of: Map<ObjectId, ObjectSeq>)
    ensures
        match children_numbered(children, seq_of) {
            Ok(sets) => {
                &&& !has_other(children, seq_of)
                &&& forall|n: u64| #[trigger]
                    sets.trees.contains(n) <==> has_tree(children, seq_of, n)
                &&& forall|n: u64| #[trigger]
                    sets.blobs.contains(n) <==> has_blob(children, seq_of, n)
            },
            Err(_) => has_other(children, seq_of),
        },
    decreases children.len(),
{
    if children.len() > 0 {
        let rest = children.drop_last();
        let last = children.last();
        lemma_children(rest, seq_of);
        assert(children[children.len() - 1] == last);
        match children_numbered(children, seq_of) {
            Ok(sets) => {
                let earlier = children_numbered(rest, seq_of)->Ok_0;
                if has_other(children, seq_of) {
                    let k = choose|k: int|
                        0 <= k < children.len() && (!seq_of.contains_key(#[trigger] children[k])
                            || seq_of[children[k]] is Tag);
                    assert(rest[k] == children[k]);
                }
                assert forall|n: u64| #[trigger]
                    sets.trees.contains(n) <==> has_tree(children, seq_of, n) by {
                    assert(earlier.trees.contains(n) <==> has_tree(rest, seq_of, n));
                    if has_tree(rest, seq_of, n) {
                        let k = choose|k: int|
                            0 <= k < rest.len() && seq_of.contains_key(#[trigger] rest[k])
                                && seq_of[rest[k]] == ObjectSeq::Tree(n);
                        assert(children[k] == rest[k]);
                    }
                    if has_tree(children, seq_of, n) && seq_of[last] != ObjectSeq::Tree(n) {
                        let k = choose|k: int|
                            0 <= k < children.len() && seq_of.contains_key(#[trigger] children[k])
                                && seq_of[children[k]] == ObjectSeq::Tree(n);
                        assert(rest[k] == children[k]);
                    }
                }
                assert forall|n: u64| #[trigger]
                    sets.blobs.contains(n) <==> has_blob(children, seq_of, n) by {
                    assert(earlier.blobs.contains(n) <==> has_blob(rest, seq_of, n));
                    if has_blob(rest, seq_of, n) {
                        let k = choose|k: int|
                            0 <= k < rest.len() && seq_of.contains_key(#[trigger] rest[k])
                                && seq_of[rest[k]] == ObjectSeq::Blob(n);
                        assert(children[k] == rest[k]);
                    }
                    if has_blob(children, seq_of, n) && seq_of[last] != ObjectSeq::Blob(n) {
                        let k = choose|k: int|
                            0 <= k < children.len() && seq_of.contains_key(#[trigger] children[k])
                                && seq_of[children[k]] == ObjectSeq::Blob(n);
                        assert(rest[k] == children[k]);
                    }
                }
            },
            Err(_) => {
                if children_numbered(rest, seq_of) is Err {
                    let k = choose|k: int|
                        0 <= k < rest.len() && (!seq_of.contains_key(#[trigger] rest[k])
                            || seq_of[rest[k]] is Tag);
                    assert(children[k] == rest[k]);
                }
            },
        }
    }
}

/// A tree is recorded with the numbers of all of its entries, each among its
/// own kind, and nothing else; what is no tree has none. It fails exactly where
/// an entry of a tree is no tree or blob with a number.
pub proof fn a_tree_is_recorded_with_its_entries(
    object: NewObject,
    seq_of: Map<ObjectId, ObjectSeq>,
)
    ensures
        match own_entries(object, seq_of) {
            Ok(sets) => {
                &&& object.kind == Kind::Tree ==> !has_other(object.children@, seq_of)
                &&& forall|n: u64| #[trigger]
                    sets.trees.contains(n) <==> object.kind == Kind::Tree && has_tree(
                        object.children@,
                        seq_of,
                        n,
                    )
                &&& forall|n: u64| #[trigger]
                    sets.blobs.contains(n) <==> object.kind == Kind::Tree && has_blob(
                        object.children@,
                        seq_of,
                        n,
                    )
            },
            Err(_) => object.kind == Kind::Tree && has_other(object.children@, seq_of),
        },
{
    lemma_children(object.children@, seq_of);
}

/// Whether a commit that is to be recorded was written to a segment.
pub open spec fn is_written_to(
    to_insert: Seq<ObjectId>,
    commits: Map<ObjectId, NewCommit>,
    segment: Ulid,
) -> bool {
    exists|i: int|
        0 <= i < to_insert.len() && commits.contains_key(#[trigger] to_insert[i])
            && commits[to_insert[i]].segment.id == segment
}

/// The segments of a push are those that its commits were written to, each of
/// them once.
pub proof fn each_segment_is_named_once(
    to_insert: Seq<ObjectId>,
    commits: Map<ObjectId, NewCommit>,
)
    ensures
        segments_of(to_insert, commits).no_duplicates(),
        forall|segment: Ulid| #[trigger]
            segments_of(to_insert, commits).contains(segment) <==> is_written_to(
                to_insert,
                commits,
                segment,
            ),
    decreases to_insert.len(),
{
    if to_insert.len() > 0 {
        let rest = to_insert.drop_last();
        let last = to_insert.last();
        let earlier = segments_of(rest, commits);
        each_segment_is_named_once(rest, commits);
        assert(to_insert[to_insert.len() - 1] == last);
        assert forall|segment: Ulid| #[trigger]
            segments_of(to_insert, commits).contains(segment) <==> is_written_to(
                to_insert,
                commits,
                segment,
            ) by {
            lemma_push_contains(earlier, commits[last].segment.id, segment);
            assert(earlier.contains(segment) <==> is_written_to(rest, commits, segment));
            if is_written_to(rest, commits, segment) {
                let i = choose|i: int|
                    0 <= i < rest.len() && commits.contains_key(#[trigger] rest[i])
                        && commits[rest[i]].segment.id == segment;
                assert(to_insert[i] == rest[i]);
            }
            if is_written_to(to_insert, commits, segment) && !(commits.contains_key(last)
                && commits[last].segment.id == segment) {
                let i = choose|i: int|
                    0 <= i < to_insert.len() && commits.contains_key(#[trigger] to_insert[i])
                        && commits[to_insert[i]].segment.id == segment;
                assert(rest[i] == to_insert[i]);
            }
        }
    }
}

/// Whether an object with work was written to a pack.
pub open spec fn is_in_pack(work: Relevant, pack: ObjectId) -> bool {
    exists|k: int| 0 <= k < work.fresh@.len() && (#[trigger] work.fresh@[k]).pack_sha == pack
}

/// Whether a pack holds an object with work that has the number `seq`.
pub open spec fn holds_number(
    relevant: Seq<Relevant>,
    objects: Seq<NewObject>,
    seq_of: Map<ObjectId, ObjectSeq>,
    pack: ObjectId,
    seq: ObjectSeq,
) -> bool {
    exists|i: int|
        0 <= i < relevant.len() && is_in_pack(#[trigger] relevant[i], pack)
            && seq_of.contains_key(objects[relevant[i].at as int].oid)
            && seq_of[objects[relevant[i].at as int].oid] == seq
}

/// Whether a pack holds an object with work.
pub open spec fn holds_some(relevant: Seq<Relevant>, pack: ObjectId) -> bool {
    exists|i: int| 0 <= i < relevant.len() && is_in_pack(#[trigger] relevant[i], pack)
}

/// Whether an object that was written to a pack is a tag, or has no number.
pub open spec fn has_unfit(
    relevant: Seq<Relevant>,
    objects: Seq<NewObject>,
    seq_of: Map<ObjectId, ObjectSeq>,
) -> bool {
    exists|i: int|
        0 <= i < relevant.len() && (#[trigger] relevant[i]).fresh@.len() > 0 && (
        !seq_of.contains_key(objects[relevant[i].at as int].oid)
            || seq_of[objects[relevant[i].at as int].oid] is Tag)
}

/// Whether one of `fresh` lies in a pack.
spec fn names_pack(fresh: Seq<PackImageLocation>, pack: ObjectId) -> bool {
    exists|k: int| 0 <= k < fresh.len() && (#[trigger] fresh[k]).pack_sha == pack
}

proof fn lemma_with_packed(
    map: Map<ObjectId, SeqSets>,
    fresh: Seq<PackImageLocation>,
    seq: ObjectSeq,
    pack: ObjectId,
    n: u64,
)
    requires
        !(seq is Tag),
    ensures
        ({
            let after = with_packed(map, fresh, seq);
            let named = names_pack(fresh, pack);
            &&& after.contains_key(pack) <==> map.contains_key(pack) || named
            &&& after.contains_key(pack) && after[pack].trees.contains(n) <==> map.contains_key(
                pack,
            ) && map[pack].trees.contains(n) || named && seq == ObjectSeq::Tree(n)
            &&& after.contains_key(pack) && after[pack].blobs.contains(n) <==> map.contains_key(
                pack,
            ) && map[pack].blobs.contains(n) || named && seq == ObjectSeq::Blob(n)
        }),
    decreases fresh.len(),
{
    if fresh.len() > 0 {
        let rest = fresh.drop_last();
        lemma_with_packed(map, rest, seq, pack, n);
        assert(fresh[fresh.len() - 1] == fresh.last());
        if names_pack(rest, pack) {
            let k = choose|k: int| 0 <= k < rest.len() && (#[trigger] rest[k]).pack_sha == pack;
            assert(fresh[k] == rest[k]);
        }
        if names_pack(fresh, pack) && fresh.last().pack_sha != pack {
            let k = choose|k: int| 0 <= k < fresh.len() && (#[trigger] fresh[k]).pack_sha == pack;
            assert(rest[k] == fresh[k]);
        }
    }
}

proof fn lemma_holds_number(
    relevant: Seq<Relevant>,
    objects: Seq<NewObject>,
    seq_of: Map<ObjectId, ObjectSeq>,
    pack: ObjectId,
    seq: ObjectSeq,
)
    requires
        relevant.len() > 0,
    ensures
        ({
            let last = relevant.last();
            let oid = objects[last.at as int].oid;
            &&& holds_number(relevant, objects, seq_of, pack, seq) <==> holds_number(
                relevant.drop_last(),
                objects,
                seq_of,
                pack,
                seq,
            ) || is_in_pack(last, pack) && seq_of.contains_key(oid) && seq_of[oid] == seq
            &&& holds_some(relevant, pack) <==> holds_some(relevant.drop_last(), pack)
                || is_in_pack(last, pack)
        }),
{
    let rest = relevant.drop_last();
    let last = relevant.last();
    let oid = objects[last.at as int].oid;
    assert(relevant[relevant.len() - 1] == last);
    if holds_number(rest, objects, seq_of, pack, seq) {
        let i = choose|i: int|
            0 <= i < rest.len() && is_in_pack(#[trigger] rest[i], pack) && seq_of.contains_key(
                objects[rest[i].at as int].oid,
            ) && seq_of[objects[rest[i].at as int].oid] == seq;
        assert(relevant[i] == rest[i]);
    }
    if holds_number(relevant, objects, seq_of, pack, seq) && !(is_in_pack(last, pack)
        && seq_of.contains_key(oid) && seq_of[oid] == seq) {
        let i = choose|i: int|
            0 <= i < relevant.len() && is_in_pack(#[trigger] relevant[i], pack)
                && seq_of.contains_key(objects[relevant[i].at as int].oid)
                && seq_of[objects[relevant[i].at as int].oid] == seq;
        assert(rest[i] == relevant[i]);
    }
    if holds_some(rest, pack) {
        let i = choose|i: int| 0 <= i < rest.len() && is_in_pack(#[trigger] rest[i], pack);
        assert(relevant[i] == rest[i]);
    }
    if holds_some(relevant, pack) && !is_in_pack(last, pack) {
        let i = choose|i: int| 0 <= i < relevant.len() && is_in_pack(#[trigger] relevant[i], pack);
        assert(rest[i] == relevant[i]);
    }
}

/// A pack is recorded with the numbers of all the trees and blobs that were
/// written to it, each among its own kind, and with no other number. It fails
/// exactly where what was written to a pack is a tag, or has no number.
pub proof fn a_pack_is_recorded_with_its_objects(
    relevant: Seq<Relevant>,
    objects: Seq<NewObject>,
    seq_of: Map<ObjectId, ObjectSeq>,
    pack: ObjectId,
    n: u64,
)
    ensures
        match packed(relevant, objects, seq_of) {
            Ok(sets) => {
                &&& !has_unfit(relevant, objects, seq_of)
                &&& sets.contains_key(pack) <==> holds_some(relevant, pack)
                &&& sets.contains_key(pack) && sets[pack].trees.contains(n) <==> holds_number(
                    relevant,
                    objects,
                    seq_of,
                    pack,
                    ObjectSeq::Tree(n),
                )
                &&& sets.contains_key(pack) && sets[pack].blobs.contains(n) <==> holds_number(
                    relevant,
                    objects,
                    seq_of,
                    pack,
                    ObjectSeq::Blob(n),
                )
            },
            Err(_) => has_unfit(relevant, objects, seq_of),
        },
    decreases relevant.len(),
{
    if relevant.len() > 0 {
        let rest = relevant.drop_last();
        let last = relevant.last();
        let oid = objects[last.at as int].oid;
        a_pack_is_recorded_with_its_objects(rest, objects, seq_of, pack, n);
        assert(relevant[relevant.len() - 1] == last);
        if has_unfit(rest, objects, seq_of) {
            let i = choose|i: int|
                0 <= i < rest.len() && (#[trigger] rest[i]).fresh@.len() > 0 && (
                !seq_of.contains_key(objects[rest[i].at as int].oid)
                    || seq_of[objects[rest[i].at as int].oid] is Tag);
            assert(relevant[i] == rest[i]);
        }
        if packed(relevant, objects, seq_of) is Ok {
            let earlier = packed(rest, objects, seq_of)->Ok_0;
            if has_unfit(relevant, objects, seq_of) {
                let i = choose|i: int|
                    0 <= i < relevant.len() && (#[trigger] relevant[i]).fresh@.len() > 0 && (
                    !seq_of.contains_key(objects[relevant[i].at as int].oid)
                        || seq_of[objects[relevant[i].at as int].oid] is Tag);
                assert(rest[i] == relevant[i]);
            }
            lemma_holds_number(relevant, objects, seq_of, pack, ObjectSeq::Tree(n));
            lemma_holds_number(relevant, objects, seq_of, pack, ObjectSeq::Blob(n));
            if last.fresh@.len() > 0 {
                lemma_with_packed(earlier, last.fresh@, seq_of[oid], pack, n);
                assert(names_pack(last.fresh@, pack) <==> is_in_pack(last, pack));
            }
        }
    }
}

/// Whether an object is brought here for the first time.
pub open spec fn is_new_object(objects: Seq<NewObject>, fresh: Seq<ObjectId>) -> spec_fn(
    Relevant,
) -> bool {
    |work: Relevant| fresh.contains(objects[work.at as int].oid)
}

/// Whether an object that is known gains a place, and which.
pub open spec fn gains(
    work: Relevant,
    objects: Seq<NewObject>,
    fresh: Seq<ObjectId>,
    commits: Map<ObjectId, NewCommit>,
    commit_seq_of: Map<ObjectId, i64>,
    seq_of: Map<ObjectId, ObjectSeq>,
    added: (u64, Kind, Location),
) -> bool {
    let object = objects[work.at as int];
    let places = places_gained(work.fresh@, object.kind, commits, commit_seq_of, seq_of);
    &&& !fresh.contains(object.oid)
    &&& places is Ok && places->Ok_0.contains(added.2)
    &&& seq_of.contains_key(object.oid)
    &&& added.0 == bare(seq_of[object.oid])
    &&& added.1 == object.kind
}

/// Whether one of the objects with work gains a place.
pub open spec fn some_gains(
    relevant: Seq<Relevant>,
    objects: Seq<NewObject>,
    fresh: Seq<ObjectId>,
    commits: Map<ObjectId, NewCommit>,
    commit_seq_of: Map<ObjectId, i64>,
    seq_of: Map<ObjectId, ObjectSeq>,
    added: (u64, Kind, Location),
) -> bool {
    exists|i: int|
        0 <= i < relevant.len() && gains(
            #[trigger] relevant[i],
            objects,
            fresh,
            commits,
            commit_seq_of,
            seq_of,
            added,
        )
}

/// Every object with work is written: as a record of its own where it is new,
/// under its number, with its places and with its entries; and otherwise by the
/// places that it gains, under the number that it has. Nothing else is written.
pub proof fn each_object_is_written(
    relevant: Seq<Relevant>,
    objects: Seq<NewObject>,
    fresh: Seq<ObjectId>,
    commits: Map<ObjectId, NewCommit>,
    commit_seq_of: Map<ObjectId, i64>,
    seq_of: Map<ObjectId, ObjectSeq>,
)
    requires
        object_writes(relevant, objects, fresh, commits, commit_seq_of, seq_of) is Ok,
    ensures
        ({
            let writes = object_writes(
                relevant,
                objects,
                fresh,
                commits,
                commit_seq_of,
                seq_of,
            )->Ok_0;
            let new = relevant.filter(is_new_object(objects, fresh));
            &&& writes.fresh.len() == new.len()
            &&& forall|j: int|
                0 <= j < new.len() ==> {
                    let object = objects[new[j].at as int];
                    let record = #[trigger] writes.fresh[j];
                    &&& record.oid == object.oid
                    &&& record.kind == object.kind
                    &&& seq_of.contains_key(object.oid)
                    &&& record.seq == bare(seq_of[object.oid])
                    &&& places_gained(
                        new[j].fresh@,
                        object.kind,
                        commits,
                        commit_seq_of,
                        seq_of,
                    ) == Ok::<Seq<Location>, Error>(record.locations)
                    &&& own_entries(object, seq_of) == Ok::<SeqSets, Error>(record.children)
                }
            &&& forall|added: (u64, Kind, Location)| #[trigger]
                writes.added.contains(added) <==> some_gains(
                    relevant,
                    objects,
                    fresh,
                    commits,
                    commit_seq_of,
                    seq_of,
                    added,
                )
        }),
    decreases relevant.len(),
{
    reveal(Seq::filter);
    if relevant.len() > 0 {
        let rest = relevant.drop_last();
        let last = relevant.last();
        let object = objects[last.at as int];
        assert(relevant[relevant.len() - 1] == last);
        each_object_is_written(rest, objects, fresh, commits, commit_seq_of, seq_of);
        let earlier = object_writes(rest, objects, fresh, commits, commit_seq_of, seq_of)->Ok_0;
        let writes = object_writes(
            relevant,
            objects,
            fresh,
            commits,
            commit_seq_of,
            seq_of,
        )->Ok_0;
        let before = rest.filter(is_new_object(objects, fresh));
        let new = relevant.filter(is_new_object(objects, fresh));
        assert forall|j: int| 0 <= j < new.len() implies {
            let object = objects[new[j].at as int];
            let record = #[trigger] writes.fresh[j];
            &&& record.oid == object.oid
            &&& record.kind == object.kind
            &&& seq_of.contains_key(object.oid)
            &&& record.seq == bare(seq_of[object.oid])
            &&& places_gained(
                new[j].fresh@,
                object.kind,
                commits,
                commit_seq_of,
                seq_of,
            ) == Ok::<Seq<Location>, Error>(record.locations)
            &&& own_entries(object, seq_of) == Ok::<SeqSets, Error>(record.children)
        } by {
            if j < before.len() {
                assert(new[j] == before[j]);
                assert(writes.fresh[j] == earlier.fresh[j]);
            }
        }
        let places = places_gained(
            last.fresh@,
            object.kind,
            commits,
            commit_seq_of,
            seq_of,
        )->Ok_0;
        assert forall|added: (u64, Kind, Location)| #[trigger]
            writes.added.contains(added) <==> some_gains(
                relevant,
                objects,
                fresh,
                commits,
                commit_seq_of,
                seq_of,
                added,
            ) by {
            assert(earlier.added.contains(added) <==> some_gains(
                rest,
                objects,
                fresh,
                commits,
                commit_seq_of,
                seq_of,
                added,
            ));
            if earlier.added.contains(added) {
                let k = choose|k: int| 0 <= k < earlier.added.len() && earlier.added[k] == added;
                assert(writes.added[k] == added);
                let i = choose|i: int|
                    0 <= i < rest.len() && gains(
                        #[trigger] rest[i],
                        objects,
                        fresh,
                        commits,
                        commit_seq_of,
                        seq_of,
                        added,
                    );
                assert(relevant[i] == rest[i]);
            }
            if gains(last, objects, fresh, commits, commit_seq_of, seq_of, added) {
                let k = choose|k: int| 0 <= k < places.len() && places[k] == added.2;
                assert(writes.added[earlier.added.len() + k] == added);
            }
            if writes.added.contains(added) && !earlier.added.contains(added) {
                let k = choose|k: int| 0 <= k < writes.added.len() && writes.added[k] == added;
                if k < earlier.added.len() {
                    assert(earlier.added[k] == added);
                }
                assert(!fresh.contains(object.oid));
                assert(places[k - earlier.added.len()] == added.2);
                assert(places.contains(added.2));
                assert(gains(last, objects, fresh, commits, commit_seq_of, seq_of, added));
            }
            if some_gains(relevant, objects, fresh, commits, commit_seq_of, seq_of, added)
                && !gains(last, objects, fresh, commits, commit_seq_of, seq_of, added) {
                let i = choose|i: int|
                    0 <= i < relevant.len() && gains(
                        #[trigger] relevant[i],
                        objects,
                        fresh,
                        commits,
                        commit_seq_of,
                        seq_of,
                        added,
                    );
                assert(rest[i] == relevant[i]);
            }
        }
    }
}

} // verus!
