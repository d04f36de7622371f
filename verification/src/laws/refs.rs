//! What holds of moving refs.

use vstd::prelude::*;

use crate::metadata::refs::{RefUpdate, RefUpdateRejection};
use crate::metadata::rows::{Ref, RepoRows};
use crate::object::{Kind, ObjectId};

verus! {

/// The id that stands for no object.
pub open spec fn no_object() -> ObjectId {
    ObjectId { high: 0, low: 0 }
}

/// Whether a name starts with `refs/heads/`.
pub open spec fn is_under_heads(name: Seq<char>) -> bool {
    &&& name.len() >= 11
    &&& name[0] == 'r' && name[1] == 'e' && name[2] == 'f' && name[3] == 's' && name[4] == '/'
    &&& name[5] == 'h' && name[6] == 'e' && name[7] == 'a' && name[8] == 'd' && name[9] == 's'
    &&& name[10] == '/'
}

/// Whether the table that a ref belongs to has it at `oid`.
pub open spec fn stands_at_value(rows: RepoRows, name: Seq<char>, oid: ObjectId) -> bool {
    if is_under_heads(name) {
        rows.branches.contains_key(name) && rows.branches[name].oid == oid
    } else {
        rows.others.contains_key(name) && rows.others[name].oid == oid
    }
}

/// Whether the table that a ref belongs to has it.
pub open spec fn exists_as_ref(rows: RepoRows, name: Seq<char>) -> bool {
    if is_under_heads(name) {
        rows.branches.contains_key(name)
    } else {
        rows.others.contains_key(name)
    }
}

/// Branches are the refs under `refs/heads/`, and no others.
pub proof fn heads_are_branches(name: Seq<char>)
    ensures
        is_under_heads(name) <==> crate::metadata::refs::is_branch(name),
{
    reveal_strlit("refs/heads/");
    let prefix = "refs/heads/"@;
    assert(prefix.len() == 11);
    if is_under_heads(name) {
        assert(name.take(11) =~= prefix);
    }
    if crate::metadata::refs::is_branch(name) {
        assert forall|i: int| 0 <= i < 11 implies name[i] == #[trigger] prefix[i] by {
            assert(name.take(11)[i] == prefix[i]);
        }
        assert(prefix[0] == 'r' && prefix[1] == 'e' && prefix[2] == 'f' && prefix[3] == 's');
        assert(prefix[4] == '/' && prefix[5] == 'h' && prefix[6] == 'e' && prefix[7] == 'a');
        assert(prefix[8] == 'd' && prefix[9] == 's' && prefix[10] == '/');
    }
}

/// An update that lands had its guard met, whether it moves the ref or deletes
/// it, and an update that names no value to replace lands only as a delete or
/// where the ref is not there. A branch lands on a commit that is numbered, and
/// no name lands that git would not take.
pub proof fn an_update_that_lands_had_its_guard_met(rows: RepoRows, update: RefUpdate, funny: bool)
    requires
        rows.refusal(update, funny) is None,
    ensures
        !funny,
        update.old_id != no_object() ==> stands_at_value(rows, update.refname@, update.old_id),
        update.old_id == no_object() && update.new_id != no_object() ==> !exists_as_ref(
            rows,
            update.refname@,
        ),
        update.new_id != no_object() && is_under_heads(update.refname@)
            ==> rows.identities.contains_key(update.new_id)
            && rows.identities[update.new_id].kind == Kind::Commit,
{
    heads_are_branches(update.refname@);
}

/// An update lands where nothing speaks against it: its name is one that git
/// takes, the ref has the value that it names, or is not there where it names
/// none, and a branch is sent to a commit that is numbered.
pub proof fn an_update_with_its_guard_met_lands(rows: RepoRows, update: RefUpdate, funny: bool)
    requires
        !funny,
        update.old_id != no_object() ==> stands_at_value(rows, update.refname@, update.old_id),
        update.new_id != no_object() && update.old_id == no_object() ==> !exists_as_ref(
            rows,
            update.refname@,
        ),
        update.new_id != no_object() && is_under_heads(update.refname@)
            ==> rows.identities.contains_key(update.new_id)
            && rows.identities[update.new_id].kind == Kind::Commit,
    ensures
        rows.refusal(update, funny) is None,
{
    heads_are_branches(update.refname@);
}

/// Each reason that an update is refused for is true of it, and the reasons
/// before it are not.
pub proof fn a_refusal_is_true(rows: RepoRows, update: RefUpdate, funny: bool)
    requires
        rows.refusal(update, funny) is Some,
    ensures
        match rows.refusal(update, funny)->0 {
            RefUpdateRejection::InvalidRefname => funny,
            RefUpdateRejection::NonFastForward => {
                &&& !funny
                &&& update.old_id != no_object()
                &&& !stands_at_value(rows, update.refname@, update.old_id)
            },
            RefUpdateRejection::UnknownCommit => {
                &&& !funny
                &&& update.old_id != no_object() ==> stands_at_value(
                    rows,
                    update.refname@,
                    update.old_id,
                )
                &&& update.new_id != no_object()
                &&& is_under_heads(update.refname@)
                &&& !(rows.identities.contains_key(update.new_id)
                    && rows.identities[update.new_id].kind == Kind::Commit)
            },
            RefUpdateRejection::AlreadyExists => {
                &&& !funny
                &&& update.old_id == no_object()
                &&& update.new_id != no_object()
                &&& exists_as_ref(rows, update.refname@)
                &&& is_under_heads(update.refname@) ==> rows.identities.contains_key(update.new_id)
                    && rows.identities[update.new_id].kind == Kind::Commit
            },
        },
{
    heads_are_branches(update.refname@);
}

/// An update that replaces a value is refused as no fast-forward exactly where
/// the ref does not have that value.
pub proof fn a_missed_guard_is_no_fast_forward(rows: RepoRows, update: RefUpdate)
    ensures
        rows.refusal(update, false) == Some(RefUpdateRejection::NonFastForward)
            <==> update.old_id != no_object() && !stands_at_value(
            rows,
            update.refname@,
            update.old_id,
        ),
{
    heads_are_branches(update.refname@);
}

/// What an update does to the rows: a refused one nothing, one that lands puts
/// its ref at its value and time or takes it away, and every other row stays.
pub proof fn an_update_moves_its_ref_alone(rows: RepoRows, update: RefUpdate, funny: bool, now: i64)
    ensures
        ({
            let after = rows.updated(update, funny, now);
            let name = update.refname@;
            let lands = rows.refusal(update, funny) is None;
            &&& !lands ==> after == rows
            &&& lands && update.new_id != no_object() && is_under_heads(name)
                ==> after.branches.contains_key(name) && after.branches[name] == (Ref {
                oid: update.new_id,
                updated: now,
            })
            &&& lands && update.new_id != no_object() && !is_under_heads(name)
                ==> after.others.contains_key(name) && after.others[name] == (Ref {
                oid: update.new_id,
                updated: now,
            })
            &&& lands && update.new_id == no_object() ==> !exists_as_ref(after, name)
            &&& forall|other: Seq<char>|
                other != name || !is_under_heads(name) ==> {
                    &&& #[trigger] after.branches.contains_key(other)
                        == rows.branches.contains_key(other)
                    &&& rows.branches.contains_key(other) ==> after.branches[other]
                        == rows.branches[other]
                }
            &&& forall|other: Seq<char>|
                other != name || is_under_heads(name) ==> {
                    &&& #[trigger] after.others.contains_key(other) == rows.others.contains_key(
                        other,
                    )
                    &&& rows.others.contains_key(other) ==> after.others[other]
                        == rows.others[other]
                }
            &&& after.storage_key == rows.storage_key
            &&& after.default_branch == rows.default_branch
            &&& after.deleted_at == rows.deleted_at
            &&& after.counters == rows.counters
            &&& after.identities == rows.identities
            &&& after.by_seq == rows.by_seq
            &&& after.segments == rows.segments
            &&& after.gathering == rows.gathering
        }),
{
    heads_are_branches(update.refname@);
}

/// Of two updates that replace the same value of a ref by another one, or by
/// none, the second is refused once the first landed.
pub proof fn a_value_is_replaced_once(
    rows: RepoRows,
    first: RefUpdate,
    second: RefUpdate,
    funny: bool,
    now: i64,
)
    requires
        first.refname@ == second.refname@,
        second.old_id != no_object(),
        first.new_id != second.old_id,
        rows.refusal(first, false) is None,
    ensures
        rows.updated(first, false, now).refusal(second, funny) is Some,
        rows.updated(first, false, now).updated(second, funny, now) == rows.updated(
            first,
            false,
            now,
        ),
{
    heads_are_branches(first.refname@);
}

/// Updates are applied one after the other, each to what those before it left.
pub proof fn updates_follow_each_other(
    rows: RepoRows,
    front: Seq<(RefUpdate, bool)>,
    next: (RefUpdate, bool),
    now: i64,
)
    ensures
        rows.updated_all(Seq::empty(), now) == rows,
        rows.updated_all(front.push(next), now) == rows.updated_all(front, now).updated(
            next.0,
            next.1,
            now,
        ),
{
    assert(front.push(next).drop_last() =~= front);
}

} // verus!
