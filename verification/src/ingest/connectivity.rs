//! Whether a pushed ref's history is complete: every object that its new value
//! reaches is in the push or recorded already.

use std::collections::VecDeque;

use vstd::prelude::*;

use crate::ingest::graph::ObjectRefs;
use crate::ingest::lists::IdList;
use crate::ingest::rounds::is_commit_of;
use crate::metadata::refs::RefUpdate;
use crate::model::ObjectMeta;
use crate::object::ObjectId;
use crate::ordmap::{OrdMap, OrdSet};

verus! {

/// Whether one step goes from `from` to `to`: the push has the first, and it
/// names the second.
pub open spec fn steps_to(push: Map<ObjectId, ObjectRefs>, from: ObjectId, to: ObjectId) -> bool {
    push.contains_key(from) && push[from].named().contains(to)
}

/// Whether a run of ids is a path from `tip`.
pub open spec fn is_path(
    push: Map<ObjectId, ObjectRefs>,
    tip: ObjectId,
    path: Seq<ObjectId>,
) -> bool {
    &&& path.len() > 0
    &&& path[0] == tip
    &&& forall|i: int|
        0 <= i < path.len() - 1 ==> steps_to(push, #[trigger] path[i], path[i + 1])
}

/// Whether `oid` is reached from `tip` through objects of the push.
pub open spec fn reaches(push: Map<ObjectId, ObjectRefs>, tip: ObjectId, oid: ObjectId) -> bool {
    exists|path: Seq<ObjectId>| #[trigger] is_path(push, tip, path) && path.last() == oid
}

proof fn lemma_reaches_tip(push: Map<ObjectId, ObjectRefs>, tip: ObjectId)
    ensures
        reaches(push, tip, tip),
{
    let path = seq![tip];
    assert(is_path(push, tip, path));
    assert(path.last() == tip);
}

proof fn lemma_reaches_next(
    push: Map<ObjectId, ObjectRefs>,
    tip: ObjectId,
    from: ObjectId,
    to: ObjectId,
)
    requires
        reaches(push, tip, from),
        steps_to(push, from, to),
    ensures
        reaches(push, tip, to),
{
    let path = choose|path: Seq<ObjectId>| #[trigger]
        is_path(push, tip, path) && path.last() == from;
    let longer = path.push(to);
    assert forall|i: int| 0 <= i < longer.len() - 1 implies steps_to(
        push,
        #[trigger] longer[i],
        longer[i + 1],
    ) by {
        if i < path.len() - 1 {
            assert(steps_to(push, path[i], path[i + 1]));
        }
    }
    assert(is_path(push, tip, longer));
    assert(longer.last() == to);
}

/// A set that holds `tip` and every step from what it holds, holds all that is
/// reached.
proof fn lemma_closed(
    push: Map<ObjectId, ObjectRefs>,
    tip: ObjectId,
    visited: Set<ObjectId>,
    path: Seq<ObjectId>,
)
    requires
        visited.contains(tip),
        forall|from: ObjectId, to: ObjectId|
            visited.contains(from) && #[trigger] steps_to(push, from, to) ==> visited.contains(to),
        is_path(push, tip, path),
    ensures
        visited.contains(path.last()),
    decreases path.len(),
{
    if path.len() > 1 {
        let shorter = path.drop_last();
        assert forall|i: int| 0 <= i < shorter.len() - 1 implies steps_to(
            push,
            #[trigger] shorter[i],
            shorter[i + 1],
        ) by {
            assert(steps_to(push, path[i], path[i + 1]));
        }
        lemma_closed(push, tip, visited, shorter);
        assert(steps_to(push, path[path.len() - 2], path[path.len() - 1]));
    }
}

/// What a walk from a ref's new value met.
#[derive(Debug)]
pub struct Walked {
    /// Every object it met.
    pub visited: OrdSet<ObjectId>,
    /// Those that the push does not carry, each once: the store has to have
    /// them.
    pub store_checks: Vec<ObjectId>,
}

/// Walk everything that `tip` needs, through the objects of the push.
pub fn walk(tip: ObjectId, pack: &OrdMap<ObjectId, ObjectRefs>) -> (walked: Walked)
    ensures
        forall|oid: ObjectId| #[trigger]
            walked.visited@.contains(oid) <==> reaches(pack@, tip, oid),
        walked.store_checks@.no_duplicates(),
        forall|oid: ObjectId| #[trigger]
            walked.store_checks@.contains(oid) <==> reaches(pack@, tip, oid)
                && !pack@.contains_key(oid),
{
    let ghost push = pack@;
    let mut queue: VecDeque<ObjectId> = VecDeque::new();
    let mut visited: OrdSet<ObjectId> = OrdSet::new();
    let mut store_checks = IdList::new();
    queue.push_back(tip);
    let pairs = pack.as_entries();
    proof {
        lemma_reaches_tip(push, tip);
        assert(queue@[0] == tip);
    }
    loop
        invariant
            push == pack@,
            push.dom().finite(),
            forall|oid: ObjectId| #[trigger] queue@.contains(oid) ==> reaches(push, tip, oid),
            forall|oid: ObjectId| #[trigger] visited@.contains(oid) ==> reaches(push, tip, oid),
            visited@.contains(tip) || queue@.contains(tip),
            forall|from: ObjectId, to: ObjectId|
                visited@.contains(from) && #[trigger] steps_to(push, from, to) ==> visited@.contains(
                    to,
                ) || queue@.contains(to),
            forall|oid: ObjectId| #[trigger]
                store_checks@.contains(oid) <==> visited@.contains(oid) && !push.contains_key(oid),
        ensures
            queue@.len() == 0,
        decreases push.dom().difference(visited@).len(), queue@.len(),
    {
        let ghost queued = queue@;
        let ghost seen = visited@;
        let sha = match queue.pop_front() {
            Some(sha) => sha,
            None => {
                break;
            },
        };
        proof {
            assert(queued =~= seq![sha] + queue@);
            assert(queued[0] == sha);
            assert(queued.contains(sha));
            assert forall|oid: ObjectId| #[trigger] queued.contains(oid) implies oid == sha
                || queue@.contains(oid) by {
                let i = choose|i: int| 0 <= i < queued.len() && queued[i] == oid;
                if i > 0 {
                    assert(queue@[i - 1] == oid);
                }
            }
            assert forall|oid: ObjectId| #[trigger] queue@.contains(oid) implies queued.contains(
                oid,
            ) by {
                let i = choose|i: int| 0 <= i < queue@.len() && queue@[i] == oid;
                assert(queued[i + 1] == oid);
            }
        }
        if visited.insert(sha) {
            match pack.get(&sha) {
                Some(refs) => {
                    let deps = refs.deps();
                    let ghost rest = queue@;
                    let mut i: usize = 0;
                    while i < deps.len()
                        invariant
                            i <= deps@.len(),
                            queue@ == rest + deps@.take(i as int),
                        decreases deps@.len() - i,
                    {
                        queue.push_back(deps[i]);
                        i += 1;
                        assert(queue@ =~= rest + deps@.take(i as int));
                    }
                    proof {
                        assert(deps@.take(i as int) =~= deps@);
                        assert(queue@ == rest + deps@);
                        assert forall|oid: ObjectId| #[trigger] queue@.contains(oid) <==> rest.contains(
                            oid,
                        ) || deps@.contains(oid) by {
                            lemma_concat(rest, deps@, oid);
                        }
                        assert forall|oid: ObjectId| #[trigger] queue@.contains(
                            oid,
                        ) implies reaches(push, tip, oid) by {
                            if deps@.contains(oid) {
                                assert(steps_to(push, sha, oid));
                                lemma_reaches_next(push, tip, sha, oid);
                            }
                        }
                        assert(push.dom().contains(sha));
                        let before = push.dom().difference(seen);
                        let after = push.dom().difference(visited@);
                        assert(after =~= before.remove(sha));
                        assert(before.contains(sha));
                    }
                },
                None => {
                    let _ = store_checks.put(sha);
                    assert(push.dom().difference(visited@) =~= push.dom().difference(seen));
                },
            }
        } else {
            assert(visited@ =~= seen);
        }
        proof {
            assert forall|from: ObjectId, to: ObjectId|
                visited@.contains(from) && #[trigger] steps_to(push, from, to) implies visited@.contains(
                to,
            ) || queue@.contains(to) by {
                if from == sha && !seen.contains(sha) {
                    assert(push[sha].named().contains(to));
                } else {
                    assert(seen.contains(from));
                    assert(seen.contains(to) || queued.contains(to));
                }
            }
        }
    }
    proof {
        assert(queue@.len() == 0);
        assert forall|oid: ObjectId| reaches(push, tip, oid) implies #[trigger] visited@.contains(
            oid,
        ) by {
            let path = choose|path: Seq<ObjectId>| #[trigger]
                is_path(push, tip, path) && path.last() == oid;
            lemma_closed(push, tip, visited@, path);
        }
    }
    Walked { visited, store_checks: store_checks.into_vec() }
}

proof fn lemma_concat(a: Seq<ObjectId>, b: Seq<ObjectId>, oid: ObjectId)
    ensures
        (a + b).contains(oid) <==> a.contains(oid) || b.contains(oid),
{
    let all = a + b;
    if a.contains(oid) {
        let i = choose|i: int| 0 <= i < a.len() && a[i] == oid;
        assert(all[i] == oid);
    }
    if b.contains(oid) {
        let i = choose|i: int| 0 <= i < b.len() && b[i] == oid;
        assert(all[a.len() + i] == oid);
    }
    if all.contains(oid) && !a.contains(oid) {
        let i = choose|i: int| 0 <= i < all.len() && all[i] == oid;
        assert(b[i - a.len()] == oid);
    }
}

/// Whether something recorded `oid`, and did not only number it.
pub open spec fn is_recorded(found: Map<ObjectId, ObjectMeta>, oid: ObjectId) -> bool {
    found.contains_key(oid) && found[oid].is_held()
}

/// Whether the store has everything that it has to have.
pub fn all_recorded(store_checks: &[ObjectId], found: &OrdMap<ObjectId, ObjectMeta>) -> (connected:
    bool)
    ensures
        connected == forall|i: int|
            0 <= i < store_checks@.len() ==> is_recorded(found@, #[trigger] store_checks@[i]),
{
    let mut i: usize = 0;
    while i < store_checks.len()
        invariant
            i <= store_checks@.len(),
            forall|k: int|
                0 <= k < i ==> is_recorded(found@, #[trigger] store_checks@[k]),
        decreases store_checks@.len() - i,
    {
        let stored = match found.get(&store_checks[i]) {
            Some(meta) => meta.is_stored(),
            None => false,
        };
        if !stored {
            assert(!is_recorded(found@, store_checks@[i as int]));
            return false;
        }
        i += 1;
    }
    true
}

/// A push is connected where every object that its tip reaches is in the push or
/// recorded.
pub proof fn connected_means_complete(
    push: Map<ObjectId, ObjectRefs>,
    tip: ObjectId,
    store_checks: Seq<ObjectId>,
    found: Map<ObjectId, ObjectMeta>,
)
    requires
        forall|oid: ObjectId| #[trigger]
            store_checks.contains(oid) <==> reaches(push, tip, oid) && !push.contains_key(oid),
    ensures
        (forall|i: int|
            0 <= i < store_checks.len() ==> is_recorded(found, #[trigger] store_checks[i])) <==> (
        forall|oid: ObjectId| #[trigger]
            reaches(push, tip, oid) ==> push.contains_key(oid) || is_recorded(found, oid)),
{
    if forall|i: int|
        0 <= i < store_checks.len() ==> is_recorded(found, #[trigger] store_checks[i]) {
        assert forall|oid: ObjectId| #[trigger] reaches(push, tip, oid) implies push.contains_key(
            oid,
        ) || is_recorded(found, oid) by {
            if !push.contains_key(oid) {
                assert(store_checks.contains(oid));
                let i = choose|i: int| 0 <= i < store_checks.len() && store_checks[i] == oid;
                assert(is_recorded(found, store_checks[i]));
            }
        }
    }
    if forall|oid: ObjectId| #[trigger]
        reaches(push, tip, oid) ==> push.contains_key(oid) || is_recorded(found, oid) {
        assert forall|i: int| 0 <= i < store_checks.len() implies is_recorded(
            found,
            #[trigger] store_checks[i],
        ) by {
            assert(store_checks.contains(store_checks[i]));
            assert(reaches(push, tip, store_checks[i]));
        }
    }
}

/// The commits that connected refs reach, and the refs that are not connected.
///
/// `checked` says which updates were walked, and `results` of each whether it is
/// connected and what the walk met.
pub fn sort_connectivity(
    updates: &[RefUpdate],
    checked: &[usize],
    results: &[(bool, OrdSet<ObjectId>)],
    object_refs: &OrdMap<ObjectId, ObjectRefs>,
) -> (sorted: (OrdSet<ObjectId>, OrdSet<String>))
    requires
        checked@.len() == results@.len(),
        forall|k: int| 0 <= k < checked@.len() ==> (#[trigger] checked@[k]) < updates@.len(),
    ensures
        forall|oid: ObjectId| #[trigger]
            sorted.0@.contains(oid) <==> is_commit_of(object_refs@, oid) && exists|k: int|
                0 <= k < results@.len() && (#[trigger] results@[k]).0 && results@[k].1@.contains(
                    oid,
                ),
        forall|name: Seq<char>| #[trigger]
            sorted.1@.contains(name) <==> exists|k: int|
                0 <= k < results@.len() && !(#[trigger] results@[k]).0
                    && updates@[checked@[k] as int].refname@ == name,
{
    let mut commits: OrdSet<ObjectId> = OrdSet::new();
    let mut failures: OrdSet<String> = OrdSet::new();
    let mut k: usize = 0;
    while k < results.len()
        invariant
            k <= results@.len(),
            checked@.len() == results@.len(),
            forall|j: int| 0 <= j < checked@.len() ==> (#[trigger] checked@[j]) < updates@.len(),
            forall|oid: ObjectId| #[trigger]
                commits@.contains(oid) <==> is_commit_of(object_refs@, oid) && exists|j: int|
                    0 <= j < k && (#[trigger] results@[j]).0 && results@[j].1@.contains(oid),
            forall|name: Seq<char>| #[trigger]
                failures@.contains(name) <==> exists|j: int|
                    0 <= j < k && !(#[trigger] results@[j]).0
                        && updates@[checked@[j] as int].refname@ == name,
        decreases results@.len() - k,
    {
        let ghost commits0 = commits@;
        let ghost failures0 = failures@;
        if results[k].0 {
            let items = results[k].1.as_items();
            let mut i: usize = 0;
            while i < items.len()
                invariant
                    i <= items@.len(),
                    forall|oid: ObjectId| #[trigger]
                        commits@.contains(oid) <==> commits0.contains(oid) || is_commit_of(
                            object_refs@,
                            oid,
                        ) && exists|j: int| 0 <= j < i && (#[trigger] items@[j]).0 == oid,
                decreases items@.len() - i,
            {
                let ghost before = commits@;
                let oid = items[i].0;
                let is_commit = match object_refs.get(&oid) {
                    Some(ObjectRefs::Commit { .. }) => true,
                    _ => false,
                };
                if is_commit {
                    let _ = commits.insert(oid);
                }
                proof {
                    assert forall|other: ObjectId| #[trigger]
                        commits@.contains(other) <==> commits0.contains(other) || is_commit_of(
                            object_refs@,
                            other,
                        ) && exists|j: int| 0 <= j < i + 1 && (#[trigger] items@[j]).0 == other by {
                        assert(before.contains(other) <==> commits0.contains(other)
                            || is_commit_of(object_refs@, other) && exists|j: int|
                            0 <= j < i && (#[trigger] items@[j]).0 == other);
                        if exists|j: int| 0 <= j < i && (#[trigger] items@[j]).0 == other {
                            let j = choose|j: int| 0 <= j < i && (#[trigger] items@[j]).0 == other;
                            assert(items@[j].0 == other);
                        }
                        if other == oid {
                            assert(items@[i as int].0 == other);
                        }
                    }
                }
                i += 1;
            }
            proof {
                let visited = results@[k as int].1@;
                assert forall|oid: ObjectId| #[trigger] visited.contains(oid) <==> exists|j: int|
                    0 <= j < items@.len() && (#[trigger] items@[j]).0 == oid by {
                    if visited.contains(oid) {
                        let j = choose|j: int| crate::ordmap::stands_at(items@, oid, j);
                        assert(items@[j].0 == oid);
                    }
                    if exists|j: int| 0 <= j < items@.len() && (#[trigger] items@[j]).0 == oid {
                        let j = choose|j: int|
                            0 <= j < items@.len() && (#[trigger] items@[j]).0 == oid;
                        assert(crate::ordmap::stands_at(items@, oid, j));
                    }
                }
            }
        } else {
            let _ = failures.insert(updates[checked[k]].refname.as_str().to_owned());
        }
        proof {
            assert forall|oid: ObjectId| #[trigger]
                commits@.contains(oid) <==> is_commit_of(object_refs@, oid) && exists|j: int|
                    0 <= j < k + 1 && (#[trigger] results@[j]).0 && results@[j].1@.contains(
                        oid,
                    ) by {
                if commits0.contains(oid) {
                    let j = choose|j: int|
                        0 <= j < k && (#[trigger] results@[j]).0 && results@[j].1@.contains(oid);
                    assert(results@[j].0);
                }
                if results@[k as int].0 && results@[k as int].1@.contains(oid) {
                    assert(results@[k as int].0);
                }
            }
            assert forall|name: Seq<char>| #[trigger]
                failures@.contains(name) <==> exists|j: int|
                    0 <= j < k + 1 && !(#[trigger] results@[j]).0
                        && updates@[checked@[j] as int].refname@ == name by {
                if failures0.contains(name) {
                    let j = choose|j: int|
                        0 <= j < k && !(#[trigger] results@[j]).0
                            && updates@[checked@[j] as int].refname@ == name;
                    assert(!results@[j].0);
                }
                if !results@[k as int].0 && updates@[checked@[k as int] as int].refname@ == name {
                    assert(!results@[k as int].0);
                }
            }
        }
        k += 1;
    }
    (commits, failures)
}

} // verus!
