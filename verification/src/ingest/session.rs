//! What a push decides on its way from its pack to the refs.

use vstd::prelude::*;

use crate::ingest::graph::ObjectRefs;
use crate::ingest::ref_updates::{
    build_pre_rejected, is_listed, is_non_commit, is_stale, nff_rejected_refs,
    non_commit_branch_updates, picks, pre_rejected, refname_rejections, refusals, Ingested,
    PushRejection, Refusal,
};
use crate::metadata::refs::RefUpdate;
use crate::object::ObjectId;
use crate::ordmap::{
    keyed, lemma_keyed_all, lemma_keyed_next, stands_at, OrdKey, OrdMap, OrdSet,
};

verus! {

/// Whether a pack follows a push's commands: none does where all of them
/// delete.
pub fn carries_pack(updates: &[RefUpdate], null: ObjectId) -> (carries: bool)
    ensures
        carries == exists|i: int| 0 <= i < updates@.len() && (#[trigger] updates@[i]).new_id != null,
{
    let mut i: usize = 0;
    while i < updates.len()
        invariant
            i <= updates@.len(),
            forall|k: int| 0 <= k < i ==> (#[trigger] updates@[k]).new_id == null,
        decreases updates@.len() - i,
    {
        if updates[i].new_id != null {
            return true;
        }
        i += 1;
    }
    false
}

/// The updates that are out before anything is stored, so that nothing is
/// stored for a ref that nothing will point to.
#[derive(Debug)]
pub struct Screened {
    /// Those that would not go forward, as far as is known yet.
    pub stale: OrdSet<String>,
    /// Those whose name git would not take.
    pub refname: OrdMap<String, PushRejection>,
    /// Those that would put something other than a commit on a branch.
    pub non_commit: OrdSet<String>,
    /// All of them.
    pub names: OrdSet<String>,
}

/// Add the names of one set to another.
fn add_names(names: &mut OrdSet<String>, more: &OrdSet<String>)
    ensures
        final(names)@ == old(names)@.union(more@),
{
    let items = more.as_items();
    let ghost before = names@;
    let mut i: usize = 0;
    while i < items.len()
        invariant
            i <= items@.len(),
            forall|name: Seq<char>| #[trigger]
                names@.contains(name) <==> before.contains(name) || keyed(items@, i as int, name),
        decreases items@.len() - i,
    {
        proof {
            lemma_keyed_next(items@, i as int);
        }
        let _ = names.insert(items[i].0.as_str().to_owned());
        i += 1;
    }
    proof {
        assert forall|name: Seq<char>| #[trigger] names@.contains(name) <==> before.union(
            more@,
        ).contains(name) by {
            if more@.contains(name) {
                let k = choose|k: int| stands_at(items@, name, k);
                assert(items@[k].0.name() == name);
            }
            if keyed(items@, i as int, name) {
                let k = choose|k: int| 0 <= k < i && (#[trigger] items@[k]).0.name() == name;
                assert(stands_at(items@, name, k));
            }
        }
        assert(names@ =~= before.union(more@));
    }
}

/// Add the names that a map is keyed by to a set.
fn add_keys(names: &mut OrdSet<String>, more: &OrdMap<String, PushRejection>)
    ensures
        final(names)@ == old(names)@.union(more@.dom()),
{
    let items = more.as_entries();
    let ghost before = names@;
    let mut i: usize = 0;
    while i < items.len()
        invariant
            i <= items@.len(),
            forall|name: Seq<char>| #[trigger]
                names@.contains(name) <==> before.contains(name) || keyed(items@, i as int, name),
        decreases items@.len() - i,
    {
        proof {
            lemma_keyed_next(items@, i as int);
        }
        let _ = names.insert(items[i].0.as_str().to_owned());
        i += 1;
    }
    proof {
        lemma_keyed_all(items@);
        assert(names@ =~= before.union(more@.dom()));
    }
}

/// Screen a push's updates, where `funny` says of each whether git would not
/// take its name.
pub fn screen(
    updates: &[RefUpdate],
    existing: &OrdMap<String, String>,
    funny: &[bool],
    object_refs: &OrdMap<ObjectId, ObjectRefs>,
    null: ObjectId,
) -> (screened: Screened)
    requires
        funny@.len() == updates@.len(),
    ensures
        forall|name: Seq<char>| #[trigger]
            screened.stale@.contains(name) <==> picks(
                updates@,
                updates@.len() as int,
                |i: int| is_stale(updates@[i], existing@, null),
                name,
            ),
        forall|name: Seq<char>| #[trigger]
            screened.refname@.contains_key(name) <==> picks(
                updates@,
                updates@.len() as int,
                |i: int| funny@[i],
                name,
            ),
        forall|name: Seq<char>| #[trigger]
            screened.refname@.contains_key(name) ==> screened.refname@[name]@
                == Refusal::FunnyRefname,
        forall|name: Seq<char>| #[trigger]
            screened.non_commit@.contains(name) <==> picks(
                updates@,
                updates@.len() as int,
                |i: int| is_non_commit(updates@[i], object_refs@, null),
                name,
            ),
        screened.names@ == screened.stale@.union(screened.refname@.dom()).union(
            screened.non_commit@,
        ),
{
    let stale = nff_rejected_refs(updates, existing, null);
    let refname = refname_rejections(updates, funny);
    let non_commit = non_commit_branch_updates(updates, object_refs, null);
    let mut names: OrdSet<String> = OrdSet::new();
    add_names(&mut names, &stale);
    assert(names@ =~= stale@);
    add_keys(&mut names, &refname);
    add_names(&mut names, &non_commit);
    Screened { stale, refname, non_commit, names }
}

/// What storing a push comes to: which of its updates are out and why, and
/// which were passed over since they looked stale.
pub fn conclude(screened: &Screened, connectivity_failures: &OrdSet<String>) -> (ingested: Ingested)
    ensures
        refusals(ingested.rejected@) == pre_rejected(
            connectivity_failures@,
            refusals(screened.refname@),
            screened.non_commit@,
        ),
        forall|name: Seq<char>| #[trigger]
            screened.stale@.contains(name) <==> is_listed(ingested.screened@, name),
{
    let rejected = build_pre_rejected(
        connectivity_failures,
        &screened.refname,
        &screened.non_commit,
    );
    let items = screened.stale.as_items();
    let mut names: Vec<String> = Vec::new();
    let mut i: usize = 0;
    while i < items.len()
        invariant
            i <= items@.len(),
            names@.len() == i,
            forall|k: int| 0 <= k < i ==> (#[trigger] names@[k])@ == items@[k].0@,
        decreases items@.len() - i,
    {
        names.push(items[i].0.as_str().to_owned());
        i += 1;
    }
    proof {
        assert forall|name: Seq<char>| #[trigger]
            screened.stale@.contains(name) <==> is_listed(names@, name) by {
            if screened.stale@.contains(name) {
                let k = choose|k: int| stands_at(items@, name, k);
                assert(names@[k]@ == name);
            }
            if is_listed(names@, name) {
                let k = choose|k: int| 0 <= k < names@.len() && (#[trigger] names@[k])@ == name;
                assert(stands_at(items@, name, k));
            }
        }
    }
    Ingested { rejected, screened: names }
}

} // verus!
