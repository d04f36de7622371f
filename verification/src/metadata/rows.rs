//! The rows of one repository, and what each write does to them.

use vstd::prelude::*;

use crate::metadata::refs::{is_branch, RefUpdate, RefUpdateRejection};
use crate::model::Identity;
use crate::object::{Kind, ObjectId};
use crate::objects::location::Ulid;

verus! {

/// A repository's stable internal number.
#[derive(Clone, Copy, Debug, PartialEq, Eq, Structural, Hash)]
pub struct RepoId(pub i64);

/// A random key that a repository's stored objects are named by, so that the
/// storage layout does not depend on how repositories are numbered.
#[derive(Clone, Copy, Debug, PartialEq, Eq, Structural, Hash)]
pub struct StorageKey(pub u128);

/// One ref, and when it last moved, in microseconds since the epoch.
#[derive(Clone, Copy, Debug, PartialEq, Eq, Structural)]
pub struct Ref {
    pub oid: ObjectId,
    pub updated: i64,
}

/// One repository's rows.
#[verifier::ext_equal]
pub struct RepoRows {
    /// None for a repository that was mentioned but never created.
    pub storage_key: Option<StorageKey>,
    pub default_branch: Seq<char>,
    pub deleted_at: Option<i64>,
    /// The next number of each kind that is counted.
    pub counters: Map<Kind, i64>,
    pub identities: Map<ObjectId, Identity>,
    /// The same rows read the other way.
    pub by_seq: Map<(Kind, i64), ObjectId>,
    pub branches: Map<Seq<char>, Ref>,
    pub others: Map<Seq<char>, Ref>,
    /// Pack images this repository names, and when each was retired.
    pub segments: Map<Ulid, Option<i64>>,
    /// Whether a maintenance pass holds it.
    pub gathering: bool,
}

impl RepoRows {
    /// The rows of a repository that nothing is known of.
    pub open spec fn empty() -> RepoRows {
        RepoRows {
            storage_key: None,
            default_branch: Seq::empty(),
            deleted_at: None,
            counters: Map::empty(),
            identities: Map::empty(),
            by_seq: Map::empty(),
            branches: Map::empty(),
            others: Map::empty(),
            segments: Map::empty(),
            gathering: false,
        }
    }

    /// The refs of one namespace.
    pub open spec fn table(self, branch: bool) -> Map<Seq<char>, Ref> {
        if branch {
            self.branches
        } else {
            self.others
        }
    }

    /// The rows with the refs of one namespace replaced.
    pub open spec fn with_table(self, branch: bool, table: Map<Seq<char>, Ref>) -> RepoRows {
        if branch {
            RepoRows { branches: table, ..self }
        } else {
            RepoRows { others: table, ..self }
        }
    }

    /// Whether `oid` is numbered as a commit, which a branch tip must be.
    pub open spec fn numbers_commit(self, oid: ObjectId) -> bool {
        self.identities.contains_key(oid) && self.identities[oid].kind == Kind::Commit
    }

    /// What a ref points at.
    pub open spec fn points_at(self, refname: Seq<char>) -> Option<ObjectId> {
        let table = self.table(is_branch(refname));
        if table.contains_key(refname) {
            Some(table[refname].oid)
        } else {
            None
        }
    }

    /// Whether an update is refused, and why.
    ///
    /// A stale guard is a non-fast-forward whatever it was pointed at; only
    /// then is the tip looked at, and only then whether the ref was there. A
    /// name that git would not take is refused before any of these.
    pub open spec fn refusal(self, update: RefUpdate, funny: bool) -> Option<RefUpdateRejection> {
        let branch = is_branch(update.refname@);
        let held = self.points_at(update.refname@);
        if funny {
            Some(RefUpdateRejection::InvalidRefname)
        } else if !update.is_unguarded() && held != Some(update.old_id) {
            Some(RefUpdateRejection::NonFastForward)
        } else if update.deletes() {
            None
        } else if branch && !self.numbers_commit(update.new_id) {
            Some(RefUpdateRejection::UnknownCommit)
        } else if update.is_unguarded() && held is Some {
            Some(RefUpdateRejection::AlreadyExists)
        } else {
            None
        }
    }

    /// The rows once `update` was applied at `now`: unchanged where it is
    /// refused.
    pub open spec fn updated(self, update: RefUpdate, funny: bool, now: i64) -> RepoRows {
        let branch = is_branch(update.refname@);
        if self.refusal(update, funny) is Some {
            self
        } else if update.deletes() {
            self.with_table(branch, self.table(branch).remove(update.refname@))
        } else {
            self.with_table(
                branch,
                self.table(branch).insert(
                    update.refname@,
                    Ref { oid: update.new_id, updated: now },
                ),
            )
        }
    }

    /// The rows once all of `updates` were applied, one after the other.
    pub open spec fn updated_all(
        self,
        updates: Seq<(RefUpdate, bool)>,
        now: i64,
    ) -> RepoRows
        decreases updates.len(),
    {
        if updates.len() == 0 {
            self
        } else {
            let (update, funny) = updates.last();
            self.updated_all(updates.drop_last(), now).updated(update, funny, now)
        }
    }

    /// The rows with a counter for each kind, leaving those that are there.
    pub open spec fn counted(self) -> RepoRows {
        RepoRows {
            counters: Map::new(
                |kind: Kind| true,
                |kind: Kind|
                    if self.counters.contains_key(kind) {
                        self.counters[kind]
                    } else {
                        0
                    },
            ),
            ..self
        }
    }

    /// The rows once `named` were recorded, one after the other.
    pub open spec fn recorded(self, named: Seq<(ObjectId, Identity)>) -> RepoRows
        decreases named.len(),
    {
        if named.len() == 0 {
            self
        } else {
            let before = self.recorded(named.drop_last());
            let (oid, identity) = named.last();
            RepoRows {
                identities: before.identities.insert(oid, identity),
                by_seq: before.by_seq.insert((identity.kind, identity.seq), oid),
                ..before
            }
        }
    }

    /// Whether one of `named` is numbered already.
    pub open spec fn races(self, named: Seq<(ObjectId, Identity)>) -> bool {
        exists|i: int|
            0 <= i < named.len() && self.identities.contains_key((#[trigger] named[i]).0)
    }
}

/// A refused update leaves every row as it was.
pub proof fn a_refused_update_changes_nothing(
    rows: RepoRows,
    update: RefUpdate,
    funny: bool,
    now: i64,
)
    requires
        rows.refusal(update, funny) is Some,
    ensures
        rows.updated(update, funny, now) == rows,
{
}

/// An update that lands leaves the ref where it was sent, and every other ref
/// where it was.
pub proof fn a_landed_update_moves_its_ref_alone(
    rows: RepoRows,
    update: RefUpdate,
    funny: bool,
    now: i64,
    other: Seq<char>,
)
    requires
        rows.refusal(update, funny) is None,
    ensures
        rows.updated(update, funny, now).points_at(update.refname@) == (if update.deletes() {
            None
        } else {
            Some(update.new_id)
        }),
        other != update.refname@ ==> rows.updated(update, funny, now).points_at(other)
            == rows.points_at(other),
        rows.updated(update, funny, now).identities == rows.identities,
{
}

/// A branch that moved points at a commit the repository numbers.
pub proof fn a_branch_points_at_a_commit(
    rows: RepoRows,
    update: RefUpdate,
    funny: bool,
    now: i64,
)
    requires
        rows.refusal(update, funny) is None,
        is_branch(update.refname@),
        !update.deletes(),
    ensures
        rows.numbers_commit(update.new_id),
        rows.updated(update, funny, now).points_at(update.refname@) == Some(update.new_id),
{
}

impl RepoRows {
    /// Branches stand in one table and every other ref in the other.
    pub open spec fn tables_apart(self) -> bool {
        &&& forall|name: Seq<char>| #[trigger] self.branches.contains_key(name) ==> is_branch(name)
        &&& forall|name: Seq<char>| #[trigger] self.others.contains_key(name) ==> !is_branch(name)
    }

    /// The refs of both tables.
    pub open spec fn all_refs(self) -> Map<Seq<char>, Ref> {
        self.branches.union_prefer_right(self.others)
    }

    /// The rows once `count` numbers of `kind` were handed out.
    pub open spec fn allocated(self, kind: Kind, count: u64) -> RepoRows {
        let next = self.counters[kind];
        RepoRows {
            counters: self.counters.insert(
                kind,
                if next + count > i64::MAX {
                    i64::MAX
                } else {
                    (next + count) as i64
                },
            ),
            ..self
        }
    }
}

/// Whatever is updated, branches and other refs stay in tables of their own, so
/// that a name stands in one of them at most.
pub proof fn tables_stay_apart(rows: RepoRows, updates: Seq<(RefUpdate, bool)>, now: i64)
    requires
        rows.tables_apart(),
    ensures
        RepoRows::empty().tables_apart(),
        rows.updated_all(updates, now).tables_apart(),
        forall|name: Seq<char>| #[trigger]
            rows.all_refs().contains_key(name) ==> {
                &&& rows.table(is_branch(name)).contains_key(name)
                &&& rows.table(is_branch(name))[name] == rows.all_refs()[name]
                &&& !rows.table(!is_branch(name)).contains_key(name)
            },
    decreases updates.len(),
{
    if updates.len() > 0 {
        tables_stay_apart(rows, updates.drop_last(), now);
    }
}

/// A counter hands out dense ranges, and each kind is counted on its own: what
/// a second allocation hands out follows what the first did, and no other
/// kind's counter moves.
pub proof fn ranges_are_dense(rows: RepoRows, kind: Kind, count: u64, other: Kind)
    requires
        rows.counters.contains_key(kind),
        rows.counters[kind] + count <= i64::MAX,
    ensures
        rows.allocated(kind, count).counters[kind] == rows.counters[kind] + count,
        other != kind ==> rows.allocated(kind, count).counters.contains_key(other)
            == rows.counters.contains_key(other),
        other != kind && rows.counters.contains_key(other) ==> rows.allocated(
            kind,
            count,
        ).counters[other] == rows.counters[other],
{
}

/// What was recorded reads back both ways, for an id that the batch names once
/// and whose number it gives to nothing else.
pub proof fn recorded_reads_back(rows: RepoRows, named: Seq<(ObjectId, Identity)>, i: int)
    requires
        0 <= i < named.len(),
        forall|j: int|
            0 <= j < named.len() && j != i ==> (#[trigger] named[j]).0 != named[i].0 && (
            named[j].1.kind, named[j].1.seq) != (named[i].1.kind, named[i].1.seq),
    ensures
        rows.recorded(named).identities.contains_key(named[i].0),
        rows.recorded(named).identities[named[i].0] == named[i].1,
        rows.recorded(named).by_seq.contains_key((named[i].1.kind, named[i].1.seq)),
        rows.recorded(named).by_seq[(named[i].1.kind, named[i].1.seq)] == named[i].0,
    decreases named.len(),
{
    let last = named.len() - 1;
    if i < last {
        let front = named.drop_last();
        assert forall|j: int| 0 <= j < front.len() && j != i implies (#[trigger] front[j]).0
            != front[i].0 && (front[j].1.kind, front[j].1.seq) != (
        front[i].1.kind, front[i].1.seq) by {
            assert(front[j] == named[j]);
        }
        recorded_reads_back(rows, front, i);
        assert(named[last].0 != named[i].0);
    }
}

} // verus!
