//! What holds of what a pusher is told, and of what a hook is asked.

use vstd::prelude::*;

use crate::deps::hex::{hex_of, id_spelled};
use crate::ingest::graph::ObjectRefs;
use crate::ingest::hooks::{
    asks_again, command_for, has_landed, is_force, is_judged, judged, landed_places, unjudged,
    RefCommand, RefJudgement, Verdict,
};
use crate::ingest::ref_updates::{
    answers, is_listed, is_non_commit, is_out, is_stale, kept_places, outcome_of, picks,
    pre_rejected, refusals, reported, set_aside, PushRejection, RefUpdateOutcome, Refusal,
};
use crate::laws::refs::{exists_as_ref, is_under_heads, no_object, stands_at_value};
use crate::metadata::refs::{RefUpdate, RefUpdateRejection, RefUpdateResult};
use crate::metadata::rows::RepoRows;
use crate::object::ObjectId;

verus! {

proof fn lemma_answered(
    rejected: Map<Seq<char>, Refusal>,
    applied: Seq<RefUpdateResult>,
    name: Seq<char>,
    k: int,
)
    requires
        0 <= k < applied.len(),
        applied[k].refname@ == name,
        forall|m: int| k < m < applied.len() ==> (#[trigger] applied[m]).refname@ != name,
    ensures
        answers(rejected, applied).contains_key(name),
        answers(rejected, applied)[name] is Ok <==> applied[k].result is Ok,
        applied[k].result matches Err(why) ==> answers(rejected, applied)[name] == Err::<
            (),
            Refusal,
        >(Refusal::RefStore(why)),
    decreases applied.len(),
{
    if k < applied.len() - 1 {
        let front = applied.drop_last();
        assert forall|m: int| k < m < front.len() implies (#[trigger] front[m]).refname@ != name by {
            assert(applied[m].refname@ != name);
        }
        assert(applied[applied.len() - 1].refname@ != name);
        lemma_answered(rejected, front, name, k);
    }
}

proof fn lemma_unanswered(
    rejected: Map<Seq<char>, Refusal>,
    applied: Seq<RefUpdateResult>,
    name: Seq<char>,
)
    requires
        forall|m: int| 0 <= m < applied.len() ==> (#[trigger] applied[m]).refname@ != name,
    ensures
        answers(rejected, applied).contains_key(name) == rejected.contains_key(name),
        rejected.contains_key(name) ==> answers(rejected, applied)[name] == Err::<(), Refusal>(
            rejected[name],
        ),
    decreases applied.len(),
{
    if applied.len() > 0 {
        let front = applied.drop_last();
        assert forall|m: int| 0 <= m < front.len() implies (#[trigger] front[m]).refname@
            != name by {
            assert(applied[m].refname@ != name);
        }
        assert(applied[applied.len() - 1].refname@ != name);
        lemma_unanswered(rejected, front, name);
    }
}

/// What the ref store answered for a ref is what the update that names it first
/// is reported with: that it landed exactly where the store says so, and
/// otherwise the store's own reason. Where the store answered twice, its last
/// answer counts.
pub proof fn the_store_s_answer_is_reported(
    updates: Seq<RefUpdate>,
    i: int,
    rejected: Map<Seq<char>, Refusal>,
    screened: Seq<String>,
    applied: Seq<RefUpdateResult>,
    k: int,
)
    requires
        0 <= i < updates.len(),
        forall|j: int| 0 <= j < i ==> (#[trigger] updates[j]).refname@ != updates[i].refname@,
        0 <= k < applied.len(),
        applied[k].refname@ == updates[i].refname@,
        forall|m: int|
            k < m < applied.len() ==> (#[trigger] applied[m]).refname@ != updates[i].refname@,
    ensures
        ({
            let told = reported(updates, i, answers(set_aside(rejected, screened), applied));
            &&& told is Ok <==> applied[k].result is Ok
            &&& applied[k].result matches Err(why) ==> told == Err::<(), Refusal>(
                Refusal::RefStore(why),
            )
        }),
{
    lemma_answered(set_aside(rejected, screened), applied, updates[i].refname@, k);
}

/// An update that the ref store did not answer for is never reported as landed:
/// it is reported with the reason it was rejected for, as one that would not go
/// forward where it was screened, and as unaccounted for otherwise. Neither is
/// one that names a ref again.
pub proof fn what_the_store_did_not_answer_did_not_land(
    updates: Seq<RefUpdate>,
    i: int,
    rejected: Map<Seq<char>, Refusal>,
    screened: Seq<String>,
    applied: Seq<RefUpdateResult>,
)
    requires
        0 <= i < updates.len(),
    ensures
        ({
            let name = updates[i].refname@;
            let told = reported(updates, i, answers(set_aside(rejected, screened), applied));
            let again = exists|j: int| 0 <= j < i && (#[trigger] updates[j]).refname@ == name;
            let unanswered = forall|m: int|
                0 <= m < applied.len() ==> (#[trigger] applied[m]).refname@ != name;
            let passed_over = exists|s: int|
                0 <= s < screened.len() && (#[trigger] screened[s])@ == name;
            &&& again ==> told == Err::<(), Refusal>(Refusal::Internal)
            &&& !again && unanswered && rejected.contains_key(name) ==> told == Err::<(), Refusal>(
                rejected[name],
            )
            &&& !again && unanswered && !rejected.contains_key(name) && passed_over ==> told
                == Err::<(), Refusal>(Refusal::RefStore(RefUpdateRejection::NonFastForward))
            &&& !again && unanswered && !rejected.contains_key(name) && !passed_over ==> told
                == Err::<(), Refusal>(Refusal::Internal)
        }),
{
    let name = updates[i].refname@;
    if forall|m: int| 0 <= m < applied.len() ==> (#[trigger] applied[m]).refname@ != name {
        lemma_unanswered(set_aside(rejected, screened), applied, name);
    }
}

/// An outcome shows what it is: landed as landed, and each rejection as itself.
pub proof fn an_outcome_shows_what_it_is(result: Result<(), PushRejection>)
    ensures
        outcome_of(result) is Ok <==> result is Ok,
        result matches Err(why) ==> outcome_of(result) == Err::<(), Refusal>(
            match why {
                PushRejection::MissingObjects => Refusal::MissingObjects,
                PushRejection::FunnyRefname => Refusal::FunnyRefname,
                PushRejection::NonCommitObject => Refusal::NonCommitObject,
                PushRejection::Policy(reason) => Refusal::Policy(reason@),
                PushRejection::RefStore(rejection) => Refusal::RefStore(rejection),
                PushRejection::Internal => Refusal::Internal,
            },
        ),
{
}

/// What is known of rejections, name by name.
pub proof fn rejections_are_by_name(map: Map<Seq<char>, PushRejection>, name: Seq<char>)
    ensures
        refusals(map).contains_key(name) == map.contains_key(name),
        map.contains_key(name) ==> refusals(map)[name] == map[name]@,
{
}

/// What is screened as stale is what the ref store would refuse as no
/// fast-forward, where what was read of the refs is what the store has: of the
/// updates that replace one value by another, both or neither.
pub proof fn a_stale_update_is_one_the_store_refuses(
    update: RefUpdate,
    existing: Map<Seq<char>, String>,
    rows: RepoRows,
)
    requires
        existing.contains_key(update.refname@) == exists_as_ref(rows, update.refname@),
        forall|oid: ObjectId| #[trigger]
            stands_at_value(rows, update.refname@, oid) ==> id_spelled(
                existing[update.refname@]@,
            ) == Some(oid),
    ensures
        update.new_id != no_object() ==> (is_stale(update, existing, no_object())
            <==> rows.refusal(update, false) == Some(RefUpdateRejection::NonFastForward)),
        is_stale(update, existing, no_object()) ==> update.old_id != no_object() && update.new_id
            != no_object(),
{
    crate::laws::refs::a_missed_guard_is_no_fast_forward(rows, update);
    let name = update.refname@;
    if exists_as_ref(rows, name) {
        let held = if is_under_heads(name) {
            rows.branches[name].oid
        } else {
            rows.others[name].oid
        };
        assert(stands_at_value(rows, name, held));
    }
}

/// An update is stale exactly where it replaces a value by another and the ref,
/// as it was read, has neither that value nor is there with it.
pub proof fn a_stale_update_expects_another_value(
    update: RefUpdate,
    existing: Map<Seq<char>, String>,
    null: ObjectId,
)
    ensures
        update.old_id == null ==> !is_stale(update, existing, null),
        update.new_id == null ==> !is_stale(update, existing, null),
        existing.contains_key(update.refname@) && id_spelled(existing[update.refname@]@) == Some(
            update.old_id,
        ) ==> !is_stale(update, existing, null),
        update.old_id != null && update.new_id != null && !existing.contains_key(update.refname@)
            ==> is_stale(update, existing, null),
        update.old_id != null && update.new_id != null && existing.contains_key(update.refname@)
            && id_spelled(existing[update.refname@]@) != Some(update.old_id) ==> is_stale(
            update,
            existing,
            null,
        ),
{
}

/// A branch is kept from what the push itself shows to be no commit; no other
/// ref is, and nothing that the push does not bring.
pub proof fn a_branch_is_kept_from_what_is_no_commit(
    update: RefUpdate,
    push: Map<ObjectId, ObjectRefs>,
    null: ObjectId,
)
    ensures
        is_non_commit(update, push, null) ==> {
            &&& is_under_heads(update.refname@)
            &&& update.new_id != null
            &&& push.contains_key(update.new_id)
            &&& !(push[update.new_id] is Commit)
        },
        update.new_id != null && is_under_heads(update.refname@) && push.contains_key(update.new_id)
            && (push[update.new_id] is Tree || push[update.new_id] is Blob
            || push[update.new_id] is Tag) ==> is_non_commit(update, push, null),
{
    crate::laws::refs::heads_are_branches(update.refname@);
}

/// A name is picked exactly where an update of that name is.
pub proof fn a_name_is_picked_with_its_update(
    updates: Seq<RefUpdate>,
    picked: spec_fn(int) -> bool,
    i: int,
    name: Seq<char>,
)
    ensures
        0 <= i < updates.len() && picked(i) ==> picks(
            updates,
            updates.len() as int,
            picked,
            updates[i].refname@,
        ),
        (forall|k: int|
            0 <= k < updates.len() && (#[trigger] updates[k]).refname@ == name ==> !picked(k))
            ==> !picks(updates, updates.len() as int, picked, name),
{
}

/// The places that are kept are those of the updates that are to be kept, each
/// once and in their order.
pub proof fn the_kept_are_kept_in_order(
    updates: Seq<RefUpdate>,
    keep: spec_fn(RefUpdate) -> bool,
    at: usize,
)
    requires
        updates.len() <= usize::MAX,
    ensures
        kept_places(updates, keep).contains(at) <==> at < updates.len() && keep(
            updates[at as int],
        ),
        forall|i: int, j: int|
            0 <= i < j < kept_places(updates, keep).len() ==> (#[trigger] kept_places(
                updates,
                keep,
            )[i]) < (#[trigger] kept_places(updates, keep)[j]),
    decreases updates.len(),
{
    crate::ingest::ref_updates::lemma_kept_places(updates, keep);
    if updates.len() > 0 {
        let front = updates.drop_last();
        let earlier = kept_places(front, keep);
        let all = kept_places(updates, keep);
        the_kept_are_kept_in_order(front, keep, at);
        crate::ingest::ref_updates::lemma_kept_places(front, keep);
        assert forall|i: int, j: int| 0 <= i < j < all.len() implies (#[trigger] all[i]) < (
        #[trigger] all[j]) by {
            assert(all[i] == earlier[i]);
            assert(earlier.contains(earlier[i]));
            if j < earlier.len() {
                assert(all[j] == earlier[j]);
            }
        }
    }
}

/// A name is out exactly where it was rejected or screened.
pub proof fn a_name_is_out_where_it_was_put_out(
    rejected: Map<Seq<char>, PushRejection>,
    screened: Seq<String>,
    name: Seq<char>,
)
    ensures
        rejected.contains_key(name) ==> is_out(rejected, screened, name),
        forall|s: int| 0 <= s < screened.len() ==> is_out(rejected, screened, (#[trigger] screened[s])@),
        !rejected.contains_key(name) && (forall|s: int|
            0 <= s < screened.len() ==> (#[trigger] screened[s])@ != name) ==> !is_out(
            rejected,
            screened,
            name,
        ),
{
    assert forall|s: int| 0 <= s < screened.len() implies is_out(
        rejected,
        screened,
        (#[trigger] screened[s])@,
    ) by {
        assert(is_listed(screened, screened[s]@));
    }
}

/// Nothing is rejected before but for a reason: every rejection comes from one
/// of the three checks, and every update that one of them speaks against is
/// rejected.
pub proof fn a_rejection_has_a_reason(
    disconnected: Set<Seq<char>>,
    funny: Map<Seq<char>, Refusal>,
    non_commit: Set<Seq<char>>,
    name: Seq<char>,
)
    ensures
        ({
            let rejected = pre_rejected(disconnected, funny, non_commit);
            &&& rejected.contains_key(name) <==> disconnected.contains(name)
                || funny.contains_key(name) || non_commit.contains(name)
            &&& non_commit.contains(name) ==> rejected[name] == Refusal::NonCommitObject
            &&& !non_commit.contains(name) && funny.contains_key(name) ==> rejected[name]
                == funny[name]
            &&& disconnected.contains(name) && !funny.contains_key(name) && !non_commit.contains(
                name,
            ) ==> rejected[name] == Refusal::MissingObjects
        }),
{
}

/// A command shows both sides of its update: what it replaces, unless it
/// creates, and what it sets, unless it deletes; and it is a force exactly where
/// it replaces one value by another that does not come from it.
pub proof fn a_command_shows_its_update(update: RefUpdate, ancestor: bool, null: ObjectId)
    ensures
        ({
            let shown = command_for(update, ancestor, null);
            &&& shown.refname == update.refname@
            &&& update.new_id == null ==> shown.new_id is None && shown.old_id == Some(
                hex_of(update.old_id.bytes()),
            )
            &&& update.new_id != null ==> shown.new_id == Some(hex_of(update.new_id.bytes()))
            &&& update.new_id != null && update.old_id == null ==> shown.old_id is None
            &&& update.old_id != null ==> shown.old_id == Some(hex_of(update.old_id.bytes()))
            &&& shown.force <==> update.old_id != null && update.new_id != null && !ancestor
            &&& is_force(update, null, ancestor) == shown.force
        }),
{
}

/// What a hook's answers say of a ref: nothing where none names it, a refusal
/// where one of them refuses it, for the first reason that was given, and
/// otherwise that it is allowed.
pub proof fn a_refusal_outweighs(judgements: Seq<RefJudgement>, name: Seq<char>)
    ensures
        judged(judgements, name) is None <==> forall|i: int|
            0 <= i < judgements.len() ==> (#[trigger] judgements[i]).refname@ != name,
        forall|i: int|
            0 <= i < judgements.len() && (#[trigger] judgements[i]).refname@ == name && (
            judgements[i].verdict matches Verdict::Refuse(_)) ==> (judged(judgements, name)
                matches Some(Some(_))),
        judged(judgements, name) matches Some(Some(reason)) ==> exists|i: int|
            0 <= i < judgements.len() && refuses_first(judgements, i, name, reason),
    decreases judgements.len(),
{
    if judgements.len() > 0 {
        let front = judgements.drop_last();
        let last = judgements.last();
        a_refusal_outweighs(front, name);
        assert forall|i: int|
            0 <= i < judgements.len() && (#[trigger] judgements[i]).refname@ == name && (
            judgements[i].verdict matches Verdict::Refuse(_)) implies (judged(judgements, name)
            matches Some(Some(_))) by {
            if i < front.len() {
                assert(front[i] == judgements[i]);
            }
        }
        if judged(judgements, name) is None {
            assert forall|i: int| 0 <= i < judgements.len() implies (
            #[trigger] judgements[i]).refname@ != name by {
                if i < front.len() {
                    assert(front[i].refname@ != name);
                }
            }
        }
        if forall|i: int|
            0 <= i < judgements.len() ==> (#[trigger] judgements[i]).refname@ != name {
            assert forall|i: int| 0 <= i < front.len() implies (#[trigger] front[i]).refname@
                != name by {
                assert(judgements[i].refname@ != name);
            }
            assert(judgements[judgements.len() - 1].refname@ != name);
        }
        if let Some(Some(reason)) = judged(judgements, name) {
            if judged(front, name) matches Some(Some(_)) {
                let i = choose|i: int|
                    0 <= i < front.len() && refuses_first(front, i, name, reason);
                assert forall|k: int|
                    0 <= k < i && (#[trigger] judgements[k]).refname@ == name implies !(
                judgements[k].verdict matches Verdict::Refuse(_)) by {
                    assert(front[k] == judgements[k]);
                }
                assert(refuses_first(judgements, i, name, reason));
            } else {
                let n = judgements.len() - 1;
                assert forall|k: int|
                    0 <= k < n && (#[trigger] judgements[k]).refname@ == name implies !(
                judgements[k].verdict matches Verdict::Refuse(_)) by {
                    assert(front[k] == judgements[k]);
                }
                assert(refuses_first(judgements, n, name, reason));
            }
        }
    }
}

/// Whether judgement `i` is the first that refuses `name`, and for `reason`.
pub open spec fn refuses_first(
    judgements: Seq<RefJudgement>,
    i: int,
    name: Seq<char>,
    reason: Seq<char>,
) -> bool {
    &&& judgements[i].refname@ == name
    &&& judgements[i].verdict matches Verdict::Refuse(given)
    &&& given@ == reason
    &&& forall|k: int|
        0 <= k < i && (#[trigger] judgements[k]).refname@ == name ==> !(
        judgements[k].verdict matches Verdict::Refuse(_))
}

/// The commands that were left unjudged are those whose ref no judgement names,
/// and those that ask for a ref again: where none is left, every command is
/// judged, and no two ask for one ref.
pub proof fn nothing_is_left_unjudged(
    commands: Seq<RefCommand>,
    judgements: Seq<RefJudgement>,
)
    ensures
        unjudged(commands, judgements).len() == 0 <==> {
            &&& forall|i: int|
                0 <= i < commands.len() ==> exists|k: int|
                    0 <= k < judgements.len() && (#[trigger] judgements[k]).refname@ == (
                    #[trigger] commands[i]).refname@
            &&& forall|i: int, j: int|
                0 <= i < j < commands.len() ==> (#[trigger] commands[i]).refname@ != (
                #[trigger] commands[j]).refname@
        },
        unjudged(commands, judgements).len() <= commands.len(),
    decreases commands.len(),
{
    if commands.len() > 0 {
        let front = commands.drop_last();
        let n = commands.len() - 1;
        let last = commands.last();
        nothing_is_left_unjudged(front, judgements);
        a_refusal_outweighs(judgements, last.refname@);
        if unjudged(commands, judgements).len() == 0 {
            assert(is_judged(commands, judgements, n));
            assert forall|i: int| 0 <= i < commands.len() implies exists|k: int|
                0 <= k < judgements.len() && (#[trigger] judgements[k]).refname@ == (
                #[trigger] commands[i]).refname@ by {
                if i < n {
                    assert(front[i] == commands[i]);
                }
            }
            assert forall|i: int, j: int| 0 <= i < j < commands.len() implies (
            #[trigger] commands[i]).refname@ != (#[trigger] commands[j]).refname@ by {
                if j < n {
                    assert(front[i].refname@ != front[j].refname@);
                } else {
                    assert(!asks_again(commands, n));
                }
            }
        }
        if (forall|i: int|
            0 <= i < commands.len() ==> exists|k: int|
                0 <= k < judgements.len() && (#[trigger] judgements[k]).refname@ == (
                #[trigger] commands[i]).refname@) && (forall|i: int, j: int|
            0 <= i < j < commands.len() ==> (#[trigger] commands[i]).refname@ != (
            #[trigger] commands[j]).refname@) {
            assert forall|i: int| 0 <= i < front.len() implies exists|k: int|
                0 <= k < judgements.len() && (#[trigger] judgements[k]).refname@ == (
                #[trigger] front[i]).refname@ by {
                assert(commands[i] == front[i]);
            }
            assert forall|i: int, j: int| 0 <= i < j < front.len() implies (
            #[trigger] front[i]).refname@ != (#[trigger] front[j]).refname@ by {
                assert(commands[i].refname@ != commands[j].refname@);
            }
            assert(commands[n] == last);
            assert(!asks_again(commands, n));
            assert(is_judged(commands, judgements, n));
        }
    }
}

/// The hook is told of exactly the commands whose ref an outcome says landed,
/// in their order.
pub proof fn the_hook_is_told_what_landed(
    commands: Seq<RefCommand>,
    outcomes: Seq<RefUpdateOutcome>,
    at: usize,
)
    requires
        commands.len() <= usize::MAX,
    ensures
        landed_places(commands, outcomes).contains(at) <==> at < commands.len() && exists|i: int|
            0 <= i < outcomes.len() && (#[trigger] outcomes[i]).refname@
                == commands[at as int].refname@ && outcomes[i].result is Ok,
        forall|i: int|
            0 <= i < landed_places(commands, outcomes).len() ==> (#[trigger] landed_places(
                commands,
                outcomes,
            )[i]) < commands.len(),
        forall|i: int, j: int|
            0 <= i < j < landed_places(commands, outcomes).len() ==> (#[trigger] landed_places(
                commands,
                outcomes,
            )[i]) < (#[trigger] landed_places(commands, outcomes)[j]),
    decreases commands.len(),
{
    if commands.len() > 0 {
        let front = commands.drop_last();
        let last = (commands.len() - 1) as usize;
        the_hook_is_told_what_landed(front, outcomes, at);
        let earlier = landed_places(front, outcomes);
        let all = landed_places(commands, outcomes);
        crate::ingest::lists::lemma_push_contains(earlier, last, at);
        if has_landed(outcomes, commands.last().refname@) {
            assert(all == earlier.push(last));
        } else {
            assert(all == earlier);
        }
        if earlier.contains(at) {
            assert(front[at as int] == commands[at as int]);
        }
    }
}

} // verus!
