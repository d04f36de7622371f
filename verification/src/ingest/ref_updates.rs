//! Screening a push's ref updates, and saying what became of each.

use vstd::prelude::*;
use vstd::string::*;

use crate::deps::hex::{id_from_hex, id_spelled};
use crate::ingest::graph::ObjectRefs;
use crate::ingest::lists::lemma_push_contains;
use crate::metadata::refs::{
    is_branch, is_branch_refname, RefUpdate, RefUpdateRejection, RefUpdateResult,
};
use crate::object::ObjectId;
use crate::ordmap::{keyed, lemma_keyed_all, lemma_keyed_next, stands_at, OrdMap, OrdSet};

verus! {

/// Why a push's ref update did not land.
#[derive(Debug)]
pub enum PushRejection {
    /// The new value, or something it needs, is neither in the push nor stored.
    MissingObjects,
    /// A refname that git itself would not accept.
    FunnyRefname,
    /// A branch update to what is known not to be a commit.
    NonCommitObject,
    /// The repository's hook refused it, for this reason.
    Policy(String),
    /// The ref store refused it.
    RefStore(RefUpdateRejection),
    /// Nothing was recorded for this refname.
    Internal,
}

/// Why a push's ref update did not land.
#[verifier::ext_equal]
pub enum Refusal {
    MissingObjects,
    FunnyRefname,
    NonCommitObject,
    Policy(Seq<char>),
    RefStore(RefUpdateRejection),
    Internal,
}

impl View for PushRejection {
    type V = Refusal;

    open spec fn view(&self) -> Refusal {
        match self {
            PushRejection::MissingObjects => Refusal::MissingObjects,
            PushRejection::FunnyRefname => Refusal::FunnyRefname,
            PushRejection::NonCommitObject => Refusal::NonCommitObject,
            PushRejection::Policy(reason) => Refusal::Policy(reason@),
            PushRejection::RefStore(rejection) => Refusal::RefStore(*rejection),
            PushRejection::Internal => Refusal::Internal,
        }
    }
}

impl Refusal {
    /// What a refusal is called on the wire.
    pub open spec fn wire_text(self) -> Seq<char> {
        match self {
            Refusal::MissingObjects => "missing-objects"@,
            Refusal::FunnyRefname => "funny refname"@,
            Refusal::NonCommitObject => "non-commit object"@,
            Refusal::Policy(reason) => reason,
            Refusal::RefStore(rejection) => rejection.wire_text(),
            Refusal::Internal => "internal error: no result for ref update"@,
        }
    }
}

impl PushRejection {
    /// What the rejection is called on the wire.
    pub fn message(&self) -> (message: String)
        ensures
            message@ == self@.wire_text(),
    {
        match self {
            PushRejection::MissingObjects => "missing-objects".to_owned(),
            PushRejection::FunnyRefname => "funny refname".to_owned(),
            PushRejection::NonCommitObject => "non-commit object".to_owned(),
            PushRejection::Policy(reason) => reason.as_str().to_owned(),
            PushRejection::RefStore(rejection) => rejection.message().to_owned(),
            PushRejection::Internal => "internal error: no result for ref update".to_owned(),
        }
    }

    /// The same rejection again.
    pub fn duplicate(&self) -> (copy: PushRejection)
        ensures
            copy@ == self@,
    {
        match self {
            PushRejection::MissingObjects => PushRejection::MissingObjects,
            PushRejection::FunnyRefname => PushRejection::FunnyRefname,
            PushRejection::NonCommitObject => PushRejection::NonCommitObject,
            PushRejection::Policy(reason) => PushRejection::Policy(reason.as_str().to_owned()),
            PushRejection::RefStore(rejection) => PushRejection::RefStore(*rejection),
            PushRejection::Internal => PushRejection::Internal,
        }
    }
}

/// Rejections by refname.
pub open spec fn refusals(map: Map<Seq<char>, PushRejection>) -> Map<Seq<char>, Refusal> {
    Map::new(|name: Seq<char>| map.contains_key(name), |name: Seq<char>| map[name]@)
}

/// What became of one ref update of a push.
#[derive(Debug)]
pub struct RefUpdateOutcome {
    pub refname: String,
    pub result: Result<(), PushRejection>,
}

/// What became of a ref update.
pub open spec fn outcome_of(result: Result<(), PushRejection>) -> Result<(), Refusal> {
    match result {
        Ok(_) => Ok(()),
        Err(rejection) => Err(rejection@),
    }
}

/// What applying a push's ref updates produced.
#[derive(Debug)]
pub struct Applied {
    /// One per update asked for, in their order.
    pub outcomes: Vec<RefUpdateOutcome>,
    /// Lines for whoever pushed.
    pub messages: Vec<String>,
}

/// What taking a push in established about its ref updates.
///
/// What is rejected never reaches the ref store. Neither does what is screened,
/// which would not go forward: nothing was stored for it, and no hook is shown
/// it.
#[derive(Debug)]
pub struct Ingested {
    pub rejected: OrdMap<String, PushRejection>,
    pub screened: Vec<String>,
}

/// Whether an update expects another value than the ref has.
///
/// A ref that has none, or none that names an object, has the null id.
pub open spec fn is_stale(
    update: RefUpdate,
    existing: Map<Seq<char>, String>,
    null: ObjectId,
) -> bool {
    let current = if existing.contains_key(update.refname@) {
        match id_spelled(existing[update.refname@]@) {
            Some(id) => id,
            None => null,
        }
    } else {
        null
    };
    update.old_id != null && update.new_id != null && update.old_id != current
}

/// Whether one of the first `n` updates names `refname` and is picked.
pub open spec fn picks(
    updates: Seq<RefUpdate>,
    n: int,
    picked: spec_fn(int) -> bool,
    refname: Seq<char>,
) -> bool {
    exists|i: int| 0 <= i < n && (#[trigger] updates[i]).refname@ == refname && picked(i)
}

/// One more update, picked or not.
proof fn lemma_picks_next(
    updates: Seq<RefUpdate>,
    n: int,
    picked: spec_fn(int) -> bool,
    refname: Seq<char>,
)
    requires
        0 <= n < updates.len(),
    ensures
        picks(updates, n + 1, picked, refname) <==> picks(updates, n, picked, refname) || picked(n)
            && updates[n].refname@ == refname,
{
    if picks(updates, n, picked, refname) {
        let i = choose|i: int|
            0 <= i < n && (#[trigger] updates[i]).refname@ == refname && picked(i);
        assert(updates[i].refname@ == refname);
    }
    if picked(n) && updates[n].refname@ == refname {
        assert(updates[n].refname@ == refname);
    }
}

/// The refs that an update would move from another value than they have: those
/// are not written for, and the ref store says so when it is asked.
pub fn nff_rejected_refs(
    updates: &[RefUpdate],
    existing_refs: &OrdMap<String, String>,
    null: ObjectId,
) -> (rejected: OrdSet<String>)
    ensures
        forall|name: Seq<char>| #[trigger]
            rejected@.contains(name) <==> picks(
                updates@,
                updates@.len() as int,
                |i: int| is_stale(updates@[i], existing_refs@, null),
                name,
            ),
{
    let ghost picked = |i: int| is_stale(updates@[i], existing_refs@, null);
    let mut rejected: OrdSet<String> = OrdSet::new();
    let mut i: usize = 0;
    while i < updates.len()
        invariant
            i <= updates@.len(),
            picked == (|i: int| is_stale(updates@[i], existing_refs@, null)),
            forall|name: Seq<char>| #[trigger]
                rejected@.contains(name) <==> picks(updates@, i as int, picked, name),
        decreases updates@.len() - i,
    {
        let update = &updates[i];
        let ghost before = rejected@;
        if update.old_id != null && update.new_id != null {
            let current: ObjectId = match existing_refs.get(&update.refname) {
                Some(value) => match id_from_hex(value.as_str()) {
                    Some(id) => id,
                    None => null,
                },
                None => null,
            };
            if update.old_id != current {
                let _ = rejected.insert(update.refname.as_str().to_owned());
            }
        }
        proof {
            assert forall|name: Seq<char>| #[trigger] rejected@.contains(name) <==> picks(
                updates@,
                i as int + 1,
                picked,
                name,
            ) by {
                lemma_picks_next(updates@, i as int, picked, name);
                assert(before.contains(name) <==> picks(updates@, i as int, picked, name));
            }
        }
        i += 1;
    }
    rejected
}

/// Whether a branch update's new value is known not to be a commit.
pub open spec fn is_non_commit(
    update: RefUpdate,
    push: Map<ObjectId, ObjectRefs>,
    null: ObjectId,
) -> bool {
    update.new_id != null && is_branch(update.refname@) && push.contains_key(update.new_id)
        && !(push[update.new_id] is Commit)
}

/// Branch updates whose new value is known, from the push itself, not to be a
/// commit.
///
/// A value that the push does not carry is left alone: whether it is there at
/// all is another question, with another answer.
pub fn non_commit_branch_updates(
    updates: &[RefUpdate],
    object_refs: &OrdMap<ObjectId, ObjectRefs>,
    null: ObjectId,
) -> (rejected: OrdSet<String>)
    ensures
        forall|name: Seq<char>| #[trigger]
            rejected@.contains(name) <==> picks(
                updates@,
                updates@.len() as int,
                |i: int| is_non_commit(updates@[i], object_refs@, null),
                name,
            ),
{
    let ghost picked = |i: int| is_non_commit(updates@[i], object_refs@, null);
    let mut rejected: OrdSet<String> = OrdSet::new();
    let mut i: usize = 0;
    while i < updates.len()
        invariant
            i <= updates@.len(),
            picked == (|i: int| is_non_commit(updates@[i], object_refs@, null)),
            forall|name: Seq<char>| #[trigger]
                rejected@.contains(name) <==> picks(updates@, i as int, picked, name),
        decreases updates@.len() - i,
    {
        let update = &updates[i];
        let ghost before = rejected@;
        if update.new_id != null && is_branch_refname(update.refname.as_str()) {
            let other = match object_refs.get(&update.new_id) {
                Some(ObjectRefs::Commit { .. }) => false,
                Some(_) => true,
                None => false,
            };
            if other {
                let _ = rejected.insert(update.refname.as_str().to_owned());
            }
        }
        proof {
            assert forall|name: Seq<char>| #[trigger] rejected@.contains(name) <==> picks(
                updates@,
                i as int + 1,
                picked,
                name,
            ) by {
                lemma_picks_next(updates@, i as int, picked, name);
                assert(before.contains(name) <==> picks(updates@, i as int, picked, name));
            }
        }
        i += 1;
    }
    rejected
}

/// Refnames refused for their shape alone; `funny` says of each update whether
/// git would accept its refname.
///
/// Which namespaces a repository takes is for its hook to say.
pub fn refname_rejections(updates: &[RefUpdate], funny: &[bool]) -> (rejected: OrdMap<
    String,
    PushRejection,
>)
    requires
        funny@.len() == updates@.len(),
    ensures
        forall|name: Seq<char>| #[trigger]
            rejected@.contains_key(name) <==> picks(
                updates@,
                updates@.len() as int,
                |i: int| funny@[i],
                name,
            ),
        forall|name: Seq<char>| #[trigger]
            rejected@.contains_key(name) ==> rejected@[name]@ == Refusal::FunnyRefname,
{
    let ghost picked = |i: int| funny@[i];
    let mut rejected: OrdMap<String, PushRejection> = OrdMap::new();
    let mut i: usize = 0;
    while i < updates.len()
        invariant
            i <= updates@.len(),
            funny@.len() == updates@.len(),
            picked == (|i: int| funny@[i]),
            forall|name: Seq<char>| #[trigger]
                rejected@.contains_key(name) <==> picks(updates@, i as int, picked, name),
            forall|name: Seq<char>| #[trigger]
                rejected@.contains_key(name) ==> rejected@[name]@ == Refusal::FunnyRefname,
        decreases updates@.len() - i,
    {
        let ghost before = rejected@;
        if funny[i] {
            let _ = rejected.insert(
                updates[i].refname.as_str().to_owned(),
                PushRejection::FunnyRefname,
            );
        }
        proof {
            assert forall|name: Seq<char>| #[trigger] rejected@.contains_key(name) <==> picks(
                updates@,
                i as int + 1,
                picked,
                name,
            ) by {
                lemma_picks_next(updates@, i as int, picked, name);
                assert(before.contains_key(name) <==> picks(updates@, i as int, picked, name));
            }
        }
        i += 1;
    }
    rejected
}

/// Why an update never reaches the ref store: what is not a commit counts
/// before a funny name, and that before missing objects.
pub open spec fn pre_rejected(
    connectivity_failures: Set<Seq<char>>,
    refname_rejected: Map<Seq<char>, Refusal>,
    non_commit_rejected: Set<Seq<char>>,
) -> Map<Seq<char>, Refusal> {
    Map::new(
        |name: Seq<char>|
            connectivity_failures.contains(name) || refname_rejected.contains_key(name)
                || non_commit_rejected.contains(name),
        |name: Seq<char>|
            if non_commit_rejected.contains(name) {
                Refusal::NonCommitObject
            } else if refname_rejected.contains_key(name) {
                refname_rejected[name]
            } else {
                Refusal::MissingObjects
            },
    )
}

/// Put every name of a set into a map, under one rejection.
fn reject_all(
    map: &mut OrdMap<String, PushRejection>,
    names: &OrdSet<String>,
    rejection: &PushRejection,
)
    ensures
        refusals(final(map)@) == Map::new(
            |name: Seq<char>| old(map)@.contains_key(name) || names@.contains(name),
            |name: Seq<char>|
                if names@.contains(name) {
                    rejection@
                } else {
                    old(map)@[name]@
                },
        ),
{
    let items = names.as_items();
    let ghost was = map@;
    let mut i: usize = 0;
    while i < items.len()
        invariant
            i <= items@.len(),
            forall|name: Seq<char>| #[trigger]
                map@.contains_key(name) <==> was.contains_key(name) || named_within(
                    items@,
                    i as int,
                    name,
                ),
            forall|name: Seq<char>| #[trigger]
                map@.contains_key(name) ==> map@[name]@ == (if named_within(
                    items@,
                    i as int,
                    name,
                ) {
                    rejection@
                } else {
                    was[name]@
                }),
        decreases items@.len() - i,
    {
        let ghost before = map@;
        let _ = map.insert(items[i].0.as_str().to_owned(), rejection.duplicate());
        proof {
            assert forall|name: Seq<char>| named_within(
                items@,
                i as int + 1,
                name,
            ) <==> #[trigger] named_within(items@, i as int, name) || items@[i as int].0@
                == name by {
                if named_within(items@, i as int, name) {
                    let k = choose|k: int| 0 <= k < i && (#[trigger] items@[k]).0@ == name;
                    assert(items@[k].0@ == name);
                }
                if items@[i as int].0@ == name {
                    assert(items@[i as int].0@ == name);
                }
            }
            assert forall|name: Seq<char>| #[trigger]
                map@.contains_key(name) <==> was.contains_key(name) || named_within(
                    items@,
                    i as int + 1,
                    name,
                ) by {
                assert(before.contains_key(name) <==> was.contains_key(name) || named_within(
                    items@,
                    i as int,
                    name,
                ));
            }
            assert forall|name: Seq<char>| #[trigger] map@.contains_key(name) implies map@[name]@
                == (if named_within(items@, i as int + 1, name) {
                rejection@
            } else {
                was[name]@
            }) by {
                if name != items@[i as int].0@ {
                    assert(before.contains_key(name));
                    assert(named_within(items@, i as int, name) <==> named_within(
                        items@,
                        i as int + 1,
                        name,
                    ));
                }
            }
        }
        i += 1;
    }
    proof {
        assert forall|name: Seq<char>| #[trigger] named_within(
            items@,
            items@.len() as int,
            name,
        ) <==> names@.contains(name) by {
            if names@.contains(name) {
                let k = choose|k: int| stands_at(items@, name, k);
                assert(items@[k].0@ == name);
            }
            if named_within(items@, items@.len() as int, name) {
                let k = choose|k: int| 0 <= k < items@.len() && (#[trigger] items@[k]).0@ == name;
                assert(stands_at(items@, name, k));
            }
        }
        assert(refusals(map@) =~= Map::new(
            |name: Seq<char>| was.contains_key(name) || names@.contains(name),
            |name: Seq<char>|
                if names@.contains(name) {
                    rejection@
                } else {
                    was[name]@
                },
        ));
    }
}

/// Whether one of the first `n` items is called `name`.
spec fn named_within(items: Seq<(String, ())>, n: int, name: Seq<char>) -> bool {
    exists|k: int| 0 <= k < n && (#[trigger] items[k]).0@ == name
}

/// Put every rejection of one map over those of another.
pub fn extend_rejected(
    map: &mut OrdMap<String, PushRejection>,
    more: &OrdMap<String, PushRejection>,
)
    ensures
        refusals(final(map)@) == refusals(old(map)@).union_prefer_right(refusals(more@)),
{
    let pairs = more.as_entries();
    let ghost was = refusals(map@);
    let mut i: usize = 0;
    while i < pairs.len()
        invariant
            i <= pairs@.len(),
            forall|k: int|
                0 <= k < pairs@.len() ==> more@.contains_key((#[trigger] pairs@[k]).0@)
                    && more@[pairs@[k].0@] == pairs@[k].1,
            forall|name: Seq<char>| #[trigger]
                map@.contains_key(name) <==> was.contains_key(name) || keyed(
                    pairs@,
                    i as int,
                    name,
                ),
            forall|name: Seq<char>| #[trigger]
                map@.contains_key(name) ==> map@[name]@ == (if keyed(pairs@, i as int, name) {
                    more@[name]@
                } else {
                    was[name]
                }),
        decreases pairs@.len() - i,
    {
        proof {
            lemma_keyed_next(pairs@, i as int);
        }
        let _ = map.insert(pairs[i].0.as_str().to_owned(), pairs[i].1.duplicate());
        i += 1;
    }
    proof {
        lemma_keyed_all(pairs@);
        assert(refusals(map@) =~= was.union_prefer_right(refusals(more@)));
    }
}

/// The updates that never reach the ref store, with the one reason that counts.
pub fn build_pre_rejected(
    connectivity_failures: &OrdSet<String>,
    refname_rejected: &OrdMap<String, PushRejection>,
    non_commit_rejected: &OrdSet<String>,
) -> (rejected: OrdMap<String, PushRejection>)
    ensures
        refusals(rejected@) == pre_rejected(
            connectivity_failures@,
            refusals(refname_rejected@),
            non_commit_rejected@,
        ),
{
    let mut rejected: OrdMap<String, PushRejection> = OrdMap::new();
    reject_all(&mut rejected, connectivity_failures, &PushRejection::MissingObjects);
    let ghost first = refusals(rejected@);
    extend_rejected(&mut rejected, refname_rejected);
    let ghost second = refusals(rejected@);
    let ghost held = rejected@;
    reject_all(&mut rejected, non_commit_rejected, &PushRejection::NonCommitObject);
    proof {
        let third = refusals(rejected@);
        let want = pre_rejected(
            connectivity_failures@,
            refusals(refname_rejected@),
            non_commit_rejected@,
        );
        assert forall|name: Seq<char>| #[trigger] third.contains_key(name) <==> want.contains_key(
            name,
        ) by {
            assert(second.contains_key(name) <==> first.contains_key(name) || refusals(
                refname_rejected@,
            ).contains_key(name));
        }
        assert forall|name: Seq<char>| #[trigger] third.contains_key(name) implies third[name]
            == want[name] by {
            let named = refusals(refname_rejected@);
            assert(second.contains_key(name) <==> first.contains_key(name) || named.contains_key(
                name,
            ));
            assert(held.contains_key(name) <==> second.contains_key(name));
            if !non_commit_rejected@.contains(name) {
                assert(third[name] == held[name]@);
                assert(second[name] == held[name]@);
                if named.contains_key(name) {
                    assert(second[name] == named[name]);
                } else {
                    assert(first.contains_key(name));
                    assert(second[name] == first[name]);
                    assert(connectivity_failures@.contains(name));
                }
            }
        }
        assert(third =~= want);
    }
    rejected
}

/// Where the updates stand that are to be kept.
pub open spec fn kept_places(
    updates: Seq<RefUpdate>,
    keep: spec_fn(RefUpdate) -> bool,
) -> Seq<usize>
    decreases updates.len(),
{
    if updates.len() == 0 {
        Seq::empty()
    } else {
        let earlier = kept_places(updates.drop_last(), keep);
        if keep(updates.last()) {
            earlier.push((updates.len() - 1) as usize)
        } else {
            earlier
        }
    }
}

/// The updates whose new value has to be walked: not those that delete, nor
/// those that are screened out.
pub fn to_check(updates: &[RefUpdate], pre_screened: &OrdSet<String>, null: ObjectId) -> (places: Vec<
    usize,
>)
    ensures
        places@ == kept_places(
            updates@,
            |update: RefUpdate| update.new_id != null && !pre_screened@.contains(update.refname@),
        ),
{
    let ghost keep = |update: RefUpdate|
        update.new_id != null && !pre_screened@.contains(update.refname@);
    let mut places: Vec<usize> = Vec::new();
    let mut i: usize = 0;
    assert(updates@.take(0) =~= Seq::<RefUpdate>::empty());
    while i < updates.len()
        invariant
            i <= updates@.len(),
            keep == (|update: RefUpdate|
                update.new_id != null && !pre_screened@.contains(update.refname@)),
            places@ == kept_places(updates@.take(i as int), keep),
        decreases updates@.len() - i,
    {
        assert(updates@.take(i as int + 1).drop_last() =~= updates@.take(i as int));
        if updates[i].new_id != null && !pre_screened.contains(&updates[i].refname) {
            places.push(i);
        }
        i += 1;
    }
    assert(updates@.take(i as int) =~= updates@);
    places
}

/// The updates that are not among `names`.
pub fn not_among(updates: &[RefUpdate], names: &OrdSet<String>) -> (places: Vec<usize>)
    ensures
        places@ == kept_places(updates@, |update: RefUpdate| !names@.contains(update.refname@)),
{
    let ghost keep = |update: RefUpdate| !names@.contains(update.refname@);
    let mut places: Vec<usize> = Vec::new();
    let mut i: usize = 0;
    assert(updates@.take(0) =~= Seq::<RefUpdate>::empty());
    while i < updates.len()
        invariant
            i <= updates@.len(),
            keep == (|update: RefUpdate| !names@.contains(update.refname@)),
            places@ == kept_places(updates@.take(i as int), keep),
        decreases updates@.len() - i,
    {
        assert(updates@.take(i as int + 1).drop_last() =~= updates@.take(i as int));
        if !names.contains(&updates[i].refname) {
            places.push(i);
        }
        i += 1;
    }
    assert(updates@.take(i as int) =~= updates@);
    places
}

/// Whether a list has a name.
pub open spec fn is_listed(names: Seq<String>, name: Seq<char>) -> bool {
    exists|i: int| 0 <= i < names.len() && (#[trigger] names[i])@ == name
}

/// Whether a name is out: it was rejected, or screened.
pub open spec fn is_out(
    rejected: Map<Seq<char>, PushRejection>,
    screened: Seq<String>,
    name: Seq<char>,
) -> bool {
    rejected.contains_key(name) || is_listed(screened, name)
}

/// The names of a list, as a set.
fn listed(names: &[String]) -> (set: OrdSet<String>)
    ensures
        forall|name: Seq<char>| #[trigger] set@.contains(name) <==> is_listed(names@, name),
{
    let mut set: OrdSet<String> = OrdSet::new();
    let mut i: usize = 0;
    while i < names.len()
        invariant
            i <= names@.len(),
            forall|name: Seq<char>| #[trigger]
                set@.contains(name) <==> is_listed(names@.take(i as int), name),
        decreases names@.len() - i,
    {
        let _ = set.insert(names[i].as_str().to_owned());
        proof {
            lemma_listed_next(names@, i as int);
        }
        i += 1;
    }
    assert(names@.take(i as int) =~= names@);
    set
}

proof fn lemma_listed_next(names: Seq<String>, i: int)
    requires
        0 <= i < names.len(),
    ensures
        forall|name: Seq<char>| #[trigger]
            is_listed(names.take(i + 1), name) <==> is_listed(names.take(i), name) || name
                == names[i]@,
{
    let shorter = names.take(i);
    let longer = names.take(i + 1);
    assert forall|name: Seq<char>| #[trigger] is_listed(longer, name) <==> is_listed(shorter, name)
        || name == names[i]@ by {
        if is_listed(shorter, name) {
            let k = choose|k: int| 0 <= k < shorter.len() && (#[trigger] shorter[k])@ == name;
            assert(longer[k]@ == name);
        }
        if name == names[i]@ {
            assert(longer[i]@ == name);
        }
        if is_listed(longer, name) {
            let k = choose|k: int| 0 <= k < longer.len() && (#[trigger] longer[k])@ == name;
            if k < i {
                assert(shorter[k]@ == name);
            }
        }
    }
}

/// The updates that reach the ref store: those that are neither rejected nor
/// screened.
pub fn to_apply(
    updates: &[RefUpdate],
    rejected: &OrdMap<String, PushRejection>,
    screened: &[String],
) -> (places: Vec<usize>)
    ensures
        places@ == kept_places(
            updates@,
            |update: RefUpdate| !is_out(rejected@, screened@, update.refname@),
        ),
{
    let passed_over = listed(screened);
    let ghost keep = |update: RefUpdate| !is_out(rejected@, screened@, update.refname@);
    let mut places: Vec<usize> = Vec::new();
    let mut i: usize = 0;
    assert(updates@.take(0) =~= Seq::<RefUpdate>::empty());
    while i < updates.len()
        invariant
            i <= updates@.len(),
            forall|name: Seq<char>| #[trigger]
                passed_over@.contains(name) <==> is_listed(screened@, name),
            keep == (|update: RefUpdate| !is_out(rejected@, screened@, update.refname@)),
            places@ == kept_places(updates@.take(i as int), keep),
        decreases updates@.len() - i,
    {
        assert(updates@.take(i as int + 1).drop_last() =~= updates@.take(i as int));
        if !rejected.contains_key(&updates[i].refname) && !passed_over.contains(
            &updates[i].refname,
        ) {
            places.push(i);
        }
        i += 1;
    }
    assert(updates@.take(i as int) =~= updates@);
    places
}

/// Every name that is out before the hook is asked.
pub fn already_out(ingested: &Ingested) -> (out: OrdSet<String>)
    ensures
        forall|name: Seq<char>| #[trigger]
            out@.contains(name) <==> is_out(ingested.rejected@, ingested.screened@, name),
{
    let mut out = listed(ingested.screened.as_slice());
    let ghost screened = out@;
    let pairs = ingested.rejected.as_entries();
    let mut i: usize = 0;
    while i < pairs.len()
        invariant
            i <= pairs@.len(),
            forall|name: Seq<char>| #[trigger]
                out@.contains(name) <==> screened.contains(name) || keyed(pairs@, i as int, name),
        decreases pairs@.len() - i,
    {
        proof {
            lemma_keyed_next(pairs@, i as int);
        }
        let _ = out.insert(pairs[i].0.as_str().to_owned());
        i += 1;
    }
    proof {
        lemma_keyed_all(pairs@);
    }
    out
}

/// What is out, and why: a screened name is one that would not go forward.
pub open spec fn set_aside(rejected: Map<Seq<char>, Refusal>, screened: Seq<String>) -> Map<
    Seq<char>,
    Refusal,
> {
    Map::new(
        |name: Seq<char>| rejected.contains_key(name) || is_listed(screened, name),
        |name: Seq<char>|
            if rejected.contains_key(name) {
                rejected[name]
            } else {
                Refusal::RefStore(RefUpdateRejection::NonFastForward)
            },
    )
}

/// What is known of each refname once the ref store answered: its answer over
/// what was rejected before.
pub open spec fn answers(rejected: Map<Seq<char>, Refusal>, applied: Seq<RefUpdateResult>) -> Map<
    Seq<char>,
    Result<(), Refusal>,
>
    decreases applied.len(),
{
    if applied.len() == 0 {
        Map::new(
            |name: Seq<char>| rejected.contains_key(name),
            |name: Seq<char>| Err(rejected[name]),
        )
    } else {
        let last = applied.last();
        answers(rejected, applied.drop_last()).insert(
            last.refname@,
            match last.result {
                Ok(_) => Ok(()),
                Err(rejection) => Err(Refusal::RefStore(rejection)),
            },
        )
    }
}

/// Whether an earlier update names the same ref.
pub open spec fn is_repeated(updates: Seq<RefUpdate>, i: int) -> bool {
    exists|j: int| 0 <= j < i && (#[trigger] updates[j]).refname@ == updates[i].refname@
}

/// What is reported of update `i`. An answer is reported once: a ref that is
/// named again has none left.
pub open spec fn reported(
    updates: Seq<RefUpdate>,
    i: int,
    known: Map<Seq<char>, Result<(), Refusal>>,
) -> Result<(), Refusal> {
    if known.contains_key(updates[i].refname@) && !is_repeated(updates, i) {
        known[updates[i].refname@]
    } else {
        Err(Refusal::Internal)
    }
}

/// Answers by refname.
spec fn answer_views(map: Map<Seq<char>, Result<(), PushRejection>>) -> Map<
    Seq<char>,
    Result<(), Refusal>,
> {
    Map::new(|name: Seq<char>| map.contains_key(name), |name: Seq<char>| outcome_of(map[name]))
}

/// What became of every update: what was rejected or screened before, and what
/// the ref store answered for the rest.
pub fn resolve_ref_updates(
    updates: &[RefUpdate],
    rejected: &OrdMap<String, PushRejection>,
    screened: &[String],
    applied: &[RefUpdateResult],
) -> (outcomes: Vec<RefUpdateOutcome>)
    ensures
        outcomes@.len() == updates@.len(),
        forall|i: int|
            0 <= i < updates@.len() ==> {
                &&& (#[trigger] outcomes@[i]).refname@ == updates@[i].refname@
                &&& outcome_of(outcomes@[i].result) == reported(
                    updates@,
                    i,
                    answers(set_aside(refusals(rejected@), screened@), applied@),
                )
            },
{
    let mut known: OrdMap<String, Result<(), PushRejection>> = OrdMap::new();
    let ghost behind = Refusal::RefStore(RefUpdateRejection::NonFastForward);
    let mut i: usize = 0;
    while i < screened.len()
        invariant
            i <= screened@.len(),
            behind == Refusal::RefStore(RefUpdateRejection::NonFastForward),
            forall|name: Seq<char>| #[trigger]
                known@.contains_key(name) <==> is_listed(screened@.take(i as int), name),
            forall|name: Seq<char>| #[trigger]
                known@.contains_key(name) ==> outcome_of(known@[name]) == Err::<(), Refusal>(
                    behind,
                ),
        decreases screened@.len() - i,
    {
        let _ = known.insert(
            screened[i].as_str().to_owned(),
            Err(PushRejection::RefStore(RefUpdateRejection::NonFastForward)),
        );
        proof {
            lemma_listed_next(screened@, i as int);
        }
        i += 1;
    }
    assert(screened@.take(i as int) =~= screened@);
    let pairs = rejected.as_entries();
    let mut i: usize = 0;
    while i < pairs.len()
        invariant
            i <= pairs@.len(),
            behind == Refusal::RefStore(RefUpdateRejection::NonFastForward),
            forall|k: int|
                0 <= k < pairs@.len() ==> rejected@.contains_key((#[trigger] pairs@[k]).0@)
                    && rejected@[pairs@[k].0@] == pairs@[k].1,
            forall|name: Seq<char>| #[trigger]
                known@.contains_key(name) <==> is_listed(screened@, name) || keyed(
                    pairs@,
                    i as int,
                    name,
                ),
            forall|name: Seq<char>| #[trigger]
                known@.contains_key(name) ==> outcome_of(known@[name]) == Err::<(), Refusal>(
                    if keyed(pairs@, i as int, name) {
                        rejected@[name]@
                    } else {
                        behind
                    },
                ),
        decreases pairs@.len() - i,
    {
        proof {
            lemma_keyed_next(pairs@, i as int);
        }
        let _ = known.insert(pairs[i].0.as_str().to_owned(), Err(pairs[i].1.duplicate()));
        i += 1;
    }
    proof {
        lemma_keyed_all(pairs@);
        assert(applied@.take(0) =~= Seq::<RefUpdateResult>::empty());
        assert(answer_views(known@) =~= answers(
            set_aside(refusals(rejected@), screened@),
            applied@.take(0),
        ));
    }
    let mut i: usize = 0;
    while i < applied.len()
        invariant
            i <= applied@.len(),
            answer_views(known@) == answers(
                set_aside(refusals(rejected@), screened@),
                applied@.take(i as int),
            ),
        decreases applied@.len() - i,
    {
        let ghost before = known@;
        let result: Result<(), PushRejection> = match applied[i].result {
            Ok(_) => Ok(()),
            Err(rejection) => Err(PushRejection::RefStore(rejection)),
        };
        let ghost said = outcome_of(result);
        let _ = known.insert(applied[i].refname.as_str().to_owned(), result);
        proof {
            assert(applied@.take(i as int + 1).drop_last() =~= applied@.take(i as int));
            assert(answer_views(known@) =~= answer_views(before).insert(
                applied@[i as int].refname@,
                said,
            ));
        }
        i += 1;
    }
    assert(applied@.take(i as int) =~= applied@);
    let ghost all = answers(set_aside(refusals(rejected@), screened@), applied@);
    let mut outcomes: Vec<RefUpdateOutcome> = Vec::new();
    let mut i: usize = 0;
    while i < updates.len()
        invariant
            i <= updates@.len(),
            outcomes@.len() == i,
            all == answers(set_aside(refusals(rejected@), screened@), applied@),
            forall|name: Seq<char>| #[trigger]
                known@.contains_key(name) <==> all.contains_key(name) && !named_before(
                    updates@,
                    i as int,
                    name,
                ),
            forall|name: Seq<char>| #[trigger]
                known@.contains_key(name) ==> outcome_of(known@[name]) == all[name],
            forall|k: int|
                0 <= k < i ==> {
                    &&& (#[trigger] outcomes@[k]).refname@ == updates@[k].refname@
                    &&& outcome_of(outcomes@[k].result) == reported(updates@, k, all)
                },
        decreases updates@.len() - i,
    {
        let ghost before = known@;
        let result = match known.remove(&updates[i].refname) {
            Some(result) => result,
            None => Err(PushRejection::Internal),
        };
        proof {
            let name = updates@[i as int].refname@;
            assert(before.contains_key(name) <==> all.contains_key(name) && !named_before(
                updates@,
                i as int,
                name,
            ));
            assert(is_repeated(updates@, i as int) <==> named_before(updates@, i as int, name));
            assert(outcome_of(result) == reported(updates@, i as int, all));
            assert forall|other: Seq<char>| #[trigger]
                known@.contains_key(other) <==> all.contains_key(other) && !named_before(
                    updates@,
                    i as int + 1,
                    other,
                ) by {
                assert(before.contains_key(other) <==> all.contains_key(other) && !named_before(
                    updates@,
                    i as int,
                    other,
                ));
                if named_before(updates@, i as int, other) {
                    let j = choose|j: int|
                        0 <= j < i && (#[trigger] updates@[j]).refname@ == other;
                    assert(updates@[j].refname@ == other);
                }
                if other == name {
                    assert(updates@[i as int].refname@ == other);
                }
            }
        }
        outcomes.push(RefUpdateOutcome { refname: updates[i].refname.as_str().to_owned(), result });
        i += 1;
    }
    outcomes
}

/// Whether one of the first `n` updates names `name`.
spec fn named_before(updates: Seq<RefUpdate>, n: int, name: Seq<char>) -> bool {
    exists|j: int| 0 <= j < n && (#[trigger] updates[j]).refname@ == name
}

/// Of several reasons against one update, the one that counts is that its value
/// is no commit, then that its name is funny, then that objects are missing;
/// and an update against which there is none is not rejected.
pub proof fn the_strongest_reason_counts(
    connectivity_failures: Set<Seq<char>>,
    refname_rejected: Map<Seq<char>, Refusal>,
    non_commit_rejected: Set<Seq<char>>,
    name: Seq<char>,
)
    requires
        refname_rejected.contains_key(name) ==> refname_rejected[name] == Refusal::FunnyRefname,
    ensures
        ({
            let rejected = pre_rejected(
                connectivity_failures,
                refname_rejected,
                non_commit_rejected,
            );
            if non_commit_rejected.contains(name) {
                rejected.contains_key(name) && rejected[name] == Refusal::NonCommitObject
            } else if refname_rejected.contains_key(name) {
                rejected.contains_key(name) && rejected[name] == Refusal::FunnyRefname
            } else if connectivity_failures.contains(name) {
                rejected.contains_key(name) && rejected[name] == Refusal::MissingObjects
            } else {
                !rejected.contains_key(name)
            }
        }),
{
}

/// A ref that was rejected before is reported with that reason, and one that was
/// screened as one that would not go forward, whatever the ref store answered
/// for the others.
pub proof fn a_rejection_is_reported(
    updates: Seq<RefUpdate>,
    rejected: Map<Seq<char>, Refusal>,
    screened: Seq<String>,
    applied: Seq<RefUpdateResult>,
    i: int,
)
    requires
        0 <= i < updates.len(),
        !is_repeated(updates, i),
        rejected.contains_key(updates[i].refname@) || is_listed(screened, updates[i].refname@),
        forall|k: int|
            0 <= k < applied.len() ==> (#[trigger] applied[k]).refname@ != updates[i].refname@,
    ensures
        reported(updates, i, answers(set_aside(rejected, screened), applied)) == Err::<
            (),
            Refusal,
        >(
            if rejected.contains_key(updates[i].refname@) {
                rejected[updates[i].refname@]
            } else {
                Refusal::RefStore(RefUpdateRejection::NonFastForward)
            },
        ),
    decreases applied.len(),
{
    if applied.len() > 0 {
        let shorter = applied.drop_last();
        assert forall|k: int| 0 <= k < shorter.len() implies (#[trigger] shorter[k]).refname@
            != updates[i].refname@ by {
            assert(applied[k].refname@ != updates[i].refname@);
        }
        assert(applied[applied.len() - 1].refname@ != updates[i].refname@);
        a_rejection_is_reported(updates, rejected, screened, shorter, i);
    }
}

/// Where an update is kept, and where one is not.
pub(crate) proof fn lemma_kept_places(updates: Seq<RefUpdate>, keep: spec_fn(RefUpdate) -> bool)
    requires
        updates.len() <= usize::MAX,
    ensures
        forall|at: usize| #[trigger]
            kept_places(updates, keep).contains(at) <==> at < updates.len() && keep(
                updates[at as int],
            ),
    decreases updates.len(),
{
    if updates.len() > 0 {
        let shorter = updates.drop_last();
        let last = (updates.len() - 1) as usize;
        lemma_kept_places(shorter, keep);
        assert forall|at: usize| #[trigger]
            kept_places(updates, keep).contains(at) <==> at < updates.len() && keep(
                updates[at as int],
            ) by {
            lemma_push_contains(kept_places(shorter, keep), last, at);
            assert(kept_places(shorter, keep).contains(at) <==> at < shorter.len() && keep(
                shorter[at as int],
            ));
        }
    }
}

} // verus!
