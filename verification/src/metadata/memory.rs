//! The rows of every repository, in a map.
//!
//! For a local stack with nothing to install. Nothing here is durable, and
//! nothing is shared between processes. Whoever holds it says what time it is.

use vstd::prelude::*;
use vstd::string::*;

use crate::deps::hex::{hex, hex_of};
use crate::error::Error;
use crate::metadata::refs::{
    is_branch, is_branch_refname, ok_result, reject_result, RefUpdate, RefUpdateRejection,
    RefUpdateResult,
};
use crate::metadata::rows::{Ref, RepoId, RepoRows, StorageKey};
use crate::metadata::store::Raced;
use crate::model::Identity;
use crate::object::{Kind, ObjectId};
use crate::objects::location::Ulid;
use crate::ordmap::{held, in_order, stands_at, Order, OrdKey, OrdMap, OrdSet};

verus! {

impl OrdKey for Ulid {
    type Name = Ulid;

    open spec fn name(&self) -> Ulid {
        *self
    }

    open spec fn before(a: Ulid, b: Ulid) -> bool {
        a.0 < b.0
    }

    proof fn before_is_strict(a: Ulid, b: Ulid) {
    }

    proof fn before_is_transitive(a: Ulid, b: Ulid, c: Ulid) {
    }

    fn compare(&self, other: &Ulid) -> (order: Order) {
        if self.0 < other.0 {
            Order::Before
        } else if self.0 > other.0 {
            Order::After
        } else {
            Order::Same
        }
    }
}

impl OrdKey for i64 {
    type Name = i64;

    open spec fn name(&self) -> i64 {
        *self
    }

    open spec fn before(a: i64, b: i64) -> bool {
        a < b
    }

    proof fn before_is_strict(a: i64, b: i64) {
    }

    proof fn before_is_transitive(a: i64, b: i64, c: i64) {
    }

    fn compare(&self, other: &i64) -> (order: Order) {
        if *self < *other {
            Order::Before
        } else if *self > *other {
            Order::After
        } else {
            Order::Same
        }
    }
}

/// The number that a kind's column holds.
pub open spec fn kind_rank(kind: Kind) -> u8 {
    match kind {
        Kind::Commit => 1,
        Kind::Tree => 2,
        Kind::Blob => 3,
        Kind::Tag => 4,
    }
}

fn rank(kind: Kind) -> (rank: u8)
    ensures
        rank == kind_rank(kind),
{
    match kind {
        Kind::Commit => 1,
        Kind::Tree => 2,
        Kind::Blob => 3,
        Kind::Tag => 4,
    }
}

/// A number with the kind whose space it is in.
#[derive(Clone, Copy, Debug, PartialEq, Eq, Structural)]
pub struct SeqKey {
    pub kind: Kind,
    pub seq: i64,
}

impl OrdKey for SeqKey {
    type Name = (Kind, i64);

    open spec fn name(&self) -> (Kind, i64) {
        (self.kind, self.seq)
    }

    open spec fn before(a: (Kind, i64), b: (Kind, i64)) -> bool {
        kind_rank(a.0) < kind_rank(b.0) || (a.0 == b.0 && a.1 < b.1)
    }

    proof fn before_is_strict(a: (Kind, i64), b: (Kind, i64)) {
    }

    proof fn before_is_transitive(a: (Kind, i64), b: (Kind, i64), c: (Kind, i64)) {
    }

    fn compare(&self, other: &SeqKey) -> (order: Order) {
        let (a, b) = (rank(self.kind), rank(other.kind));
        if a < b {
            Order::Before
        } else if a > b {
            Order::After
        } else if self.seq < other.seq {
            Order::Before
        } else if self.seq > other.seq {
            Order::After
        } else {
            Order::Same
        }
    }
}

impl OrdKey for Kind {
    type Name = Kind;

    open spec fn name(&self) -> Kind {
        *self
    }

    open spec fn before(a: Kind, b: Kind) -> bool {
        kind_rank(a) < kind_rank(b)
    }

    proof fn before_is_strict(a: Kind, b: Kind) {
    }

    proof fn before_is_transitive(a: Kind, b: Kind, c: Kind) {
    }

    fn compare(&self, other: &Kind) -> (order: Order) {
        let (a, b) = (rank(*self), rank(*other));
        if a < b {
            Order::Before
        } else if a > b {
            Order::After
        } else {
            Order::Same
        }
    }
}

/// One repository's rows, as they are held.
#[derive(Debug, PartialEq)]
struct Repo {
    storage_key: Option<StorageKey>,
    default_branch: String,
    deleted_at: Option<i64>,
    counters: OrdMap<Kind, i64>,
    identities: OrdMap<ObjectId, Identity>,
    by_seq: OrdMap<SeqKey, ObjectId>,
    branches: OrdMap<String, Ref>,
    others: OrdMap<String, Ref>,
    segments: OrdMap<Ulid, Option<i64>>,
    gathering: bool,
}

impl View for Repo {
    type V = RepoRows;

    closed spec fn view(&self) -> RepoRows {
        RepoRows {
            storage_key: self.storage_key,
            default_branch: self.default_branch@,
            deleted_at: self.deleted_at,
            counters: self.counters@,
            identities: self.identities@,
            by_seq: self.by_seq@,
            branches: self.branches@,
            others: self.others@,
            segments: self.segments@,
            gathering: self.gathering,
        }
    }
}

/// A resolved repository.
#[derive(Debug, PartialEq)]
pub struct RepoMetadata {
    /// The repository's stable internal number.
    pub id: RepoId,
    /// The key that its stored objects are named by.
    pub storage_key: StorageKey,
    /// What `HEAD` currently resolves to, e.g. `refs/heads/main`.
    pub default_branch: String,
}

/// A resolved repository, in a contract.
#[verifier::ext_equal]
pub struct RepoFacts {
    pub id: RepoId,
    pub storage_key: StorageKey,
    pub default_branch: Seq<char>,
}

impl View for RepoMetadata {
    type V = RepoFacts;

    open spec fn view(&self) -> RepoFacts {
        RepoFacts {
            id: self.id,
            storage_key: self.storage_key,
            default_branch: self.default_branch@,
        }
    }
}

/// What a repository is, for one that was created.
pub open spec fn facts_of(id: RepoId, rows: RepoRows) -> Option<RepoFacts> {
    match rows.storage_key {
        Some(storage_key) => Some(
            RepoFacts { id, storage_key, default_branch: rows.default_branch },
        ),
        None => None,
    }
}

impl Repo {
    fn new() -> (repo: Repo)
        ensures
            repo@ == RepoRows::empty(),
    {
        Repo {
            storage_key: None,
            default_branch: String::new(),
            deleted_at: None,
            counters: OrdMap::new(),
            identities: OrdMap::new(),
            by_seq: OrdMap::new(),
            branches: OrdMap::new(),
            others: OrdMap::new(),
            segments: OrdMap::new(),
            gathering: false,
        }
    }

    /// What a resolved repository is, for one that exists.
    fn meta(&self, id: RepoId) -> (meta: Option<RepoMetadata>)
        ensures
            match meta {
                Some(meta) => facts_of(id, self@) == Some(meta@),
                None => facts_of(id, self@) is None,
            },
    {
        match self.storage_key {
            None => None,
            Some(storage_key) => Some(
                RepoMetadata { id, storage_key, default_branch: self.default_branch.clone() },
            ),
        }
    }

    /// What a ref points at.
    fn held_at(&self, refname: &String, branch: bool) -> (oid: Option<ObjectId>)
        requires
            branch == is_branch(refname@),
        ensures
            oid == self@.points_at(refname@),
    {
        let found = if branch {
            self.branches.get(refname)
        } else {
            self.others.get(refname)
        };
        match found {
            Some(one) => Some(one.oid),
            None => None,
        }
    }

    fn numbers_commit(&self, oid: ObjectId) -> (numbered: bool)
        ensures
            numbered == self@.numbers_commit(oid),
    {
        match self.identities.get(&oid) {
            Some(identity) => identity.kind == Kind::Commit,
            None => false,
        }
    }

    /// Whether an update is refused, and why.
    fn refusal(&self, update: &RefUpdate, funny: bool) -> (refusal: Option<RefUpdateRejection>)
        ensures
            refusal == self@.refusal(*update, funny),
    {
        if funny {
            return Some(RefUpdateRejection::InvalidRefname);
        }
        let branch: bool = is_branch_refname(update.refname.as_str());
        let held = self.held_at(&update.refname, branch);
        let creating: bool = update.is_create();
        let guarded: bool = match held {
            Some(oid) => oid == update.old_id,
            None => false,
        };
        if !creating && !guarded {
            // Decided before the tip is: a stale guard is a non-fast-forward
            // whatever it was pointed at.
            return Some(RefUpdateRejection::NonFastForward);
        }
        if update.is_delete() {
            return None;
        }
        if branch && !self.numbers_commit(update.new_id) {
            return Some(RefUpdateRejection::UnknownCommit);
        }
        if creating && held.is_some() {
            return Some(RefUpdateRejection::AlreadyExists);
        }
        None
    }

    /// Applies one update.
    fn apply(&mut self, update: &RefUpdate, funny: bool, now: i64) -> (r: RefUpdateResult)
        ensures
            final(self)@ == old(self)@.updated(*update, funny, now),
            r.refname@ == update.refname@,
            r.result == (match old(self)@.refusal(*update, funny) {
                Some(rejection) => Err::<(), RefUpdateRejection>(rejection),
                None => Ok(()),
            }),
    {
        if let Some(rejection) = self.refusal(update, funny) {
            return reject_result(update.refname.as_str(), rejection);
        }
        let branch: bool = is_branch_refname(update.refname.as_str());
        if update.is_delete() {
            if branch {
                let _ = self.branches.remove(&update.refname);
            } else {
                let _ = self.others.remove(&update.refname);
            }
        } else {
            let moved = Ref { oid: update.new_id, updated: now };
            if branch {
                let _ = self.branches.insert(update.refname.clone(), moved);
            } else {
                let _ = self.others.insert(update.refname.clone(), moved);
            }
        }
        ok_result(update.refname.as_str())
    }

    /// One counter per kind, leaving any that are already there.
    fn count_each(&mut self)
        ensures
            final(self)@ == old(self)@.counted(),
    {
        self.count_kind(Kind::Commit);
        self.count_kind(Kind::Tree);
        self.count_kind(Kind::Blob);
        self.count_kind(Kind::Tag);
        proof {
            let after = self@.counters;
            assert forall|kind: Kind| #[trigger] after.contains_key(kind) by {
                match kind {
                    Kind::Commit => {},
                    Kind::Tree => {},
                    Kind::Blob => {},
                    Kind::Tag => {},
                }
            }
            assert(after =~= old(self)@.counted().counters);
        }
    }

    fn count_kind(&mut self, kind: Kind)
        ensures
            final(self)@ == (RepoRows {
                counters: if old(self)@.counters.contains_key(kind) {
                    old(self)@.counters
                } else {
                    old(self)@.counters.insert(kind, 0)
                },
                ..old(self)@
            }),
    {
        if !self.counters.contains_key(&kind) {
            let _ = self.counters.insert(kind, 0);
        }
    }
}


/// The rows of every repository that was mentioned, as they are held.
spec fn rows_of(repos: Map<i64, Repo>) -> Map<i64, RepoRows> {
    Map::new(|id: i64| repos.contains_key(id), |id: i64| repos[id]@)
}

/// A microsecond count as the seconds a caller is answered in.
pub open spec fn in_secs(micros: i64) -> i64 {
    if micros >= 0 {
        (micros as int / 1_000_000) as i64
    } else {
        (-((-micros) / 1_000_000)) as i64
    }
}

/// A microsecond count as the seconds a caller is answered in.
pub fn secs(micros: i64) -> (r: i64)
    ensures
        r == in_secs(micros),
{
    if micros >= 0 {
        micros / 1_000_000
    } else {
        let up: i128 = -(micros as i128);
        (-(up / 1_000_000)) as i64
    }
}

/// A grace window back from `now`, in microseconds; what does not fit stops at
/// the ends of the range.
pub open spec fn window_start(now: i64, grace_secs: u64) -> i64 {
    let window = grace_secs * 1_000_000;
    let capped = if window > i64::MAX {
        i64::MAX as int
    } else {
        window
    };
    let start = now - capped;
    if start < i64::MIN {
        i64::MIN
    } else {
        start as i64
    }
}

/// A grace window back from `now`, in the same units the stamps are in.
pub fn cutoff(now: i64, grace_secs: u64) -> (r: i64)
    ensures
        r == window_start(now, grace_secs),
{
    let window: u128 = grace_secs as u128 * 1_000_000;
    let capped: i128 = if window > 0x7fff_ffff_ffff_ffff {
        0x7fff_ffff_ffff_ffff
    } else {
        window as i128
    };
    let start: i128 = now as i128 - capped;
    if start < i64::MIN as i128 {
        i64::MIN
    } else {
        start as i64
    }
}

/// What the store holds.
#[verifier::ext_equal]
pub struct MemoryState {
    /// The number of the repository created last.
    pub last_id: i64,
    /// The rows of every repository that was mentioned.
    pub repos: Map<i64, RepoRows>,
}

impl MemoryState {
    /// The rows of one repository.
    ///
    /// Absent and empty answer every question alike.
    pub open spec fn rows(self, id: RepoId) -> RepoRows {
        if self.repos.contains_key(id.0) {
            self.repos[id.0]
        } else {
            RepoRows::empty()
        }
    }

    /// The state with one repository's rows replaced.
    pub open spec fn with_rows(self, id: RepoId, rows: RepoRows) -> MemoryState {
        MemoryState { repos: self.repos.insert(id.0, rows), ..self }
    }

    /// A repository that is there: created, and not deleted.
    pub open spec fn resolved(self, id: RepoId) -> Option<RepoFacts> {
        if self.rows(id).deleted_at is Some {
            None
        } else {
            facts_of(id, self.rows(id))
        }
    }
}

/// The rows of every repository, in memory.
#[derive(Debug, PartialEq)]
pub struct Memory {
    last_id: i64,
    repos: OrdMap<i64, Repo>,
}

impl View for Memory {
    type V = MemoryState;

    closed spec fn view(&self) -> MemoryState {
        MemoryState { last_id: self.last_id, repos: rows_of(self.repos@) }
    }
}

impl Memory {
    /// An empty store.
    pub fn new() -> (memory: Memory)
        ensures
            memory@ == (MemoryState { last_id: 0, repos: Map::empty() }),
    {
        let memory = Memory { last_id: 0, repos: OrdMap::new() };
        assert(memory@.repos =~= Map::<i64, RepoRows>::empty());
        memory
    }

    /// Take one repository's rows out, or start them.
    fn take(&mut self, id: RepoId) -> (repo: Repo)
        ensures
            repo@ == old(self)@.rows(id),
            final(self)@.last_id == old(self)@.last_id,
            final(self)@.repos == old(self)@.repos.remove(id.0),
    {
        let repo = match self.repos.remove(&id.0) {
            Some(repo) => repo,
            None => Repo::new(),
        };
        assert(self@.repos =~= old(self)@.repos.remove(id.0));
        repo
    }

    /// Put one repository's rows back.
    fn put(&mut self, id: RepoId, repo: Repo)
        ensures
            final(self)@ == old(self)@.with_rows(id, repo@),
    {
        let ghost rows = repo@;
        let _ = self.repos.insert(id.0, repo);
        assert(self@.repos =~= old(self)@.repos.insert(id.0, rows));
    }

    /// Create a repository, with a counter per kind so it can take a push.
    ///
    /// Its key is the caller's to draw.
    pub fn create(&mut self, default_branch: Option<&str>, storage_key: StorageKey) -> (made:
        RepoMetadata)
        requires
            old(self)@.last_id < i64::MAX,
        ensures
            made.id == RepoId((old(self)@.last_id + 1) as i64),
            made.storage_key == storage_key,
            made.default_branch@ == (match default_branch {
                Some(branch) => branch@,
                None => "refs/heads/main"@,
            }),
            final(self)@ == (MemoryState {
                last_id: made.id.0,
                ..old(self)@.with_rows(
                    made.id,
                    (RepoRows {
                        storage_key: Some(storage_key),
                        default_branch: made.default_branch@,
                        ..old(self)@.rows(made.id)
                    }).counted(),
                )
            }),
    {
        let id = RepoId(self.last_id + 1);
        let branch: String = match default_branch {
            Some(branch) => branch.to_owned(),
            None => "refs/heads/main".to_owned(),
        };
        let mut repo = self.take(id);
        repo.storage_key = Some(storage_key);
        repo.default_branch = branch.clone();
        repo.count_each();
        self.put(id, repo);
        self.last_id = id.0;
        let made = RepoMetadata { id, storage_key, default_branch: branch };
        assert(self@.repos =~= old(self)@.repos.insert(id.0, self@.rows(id)));
        made
    }

    /// This repository, or none if it is absent or deleted.
    pub fn lookup(&self, id: RepoId) -> (found: Option<RepoMetadata>)
        ensures
            match found {
                Some(found) => self@.resolved(id) == Some(found@),
                None => self@.resolved(id) is None,
            },
    {
        match self.repos.get(&id.0) {
            None => None,
            Some(repo) => {
                if repo.deleted_at.is_some() {
                    None
                } else {
                    repo.meta(id)
                }
            },
        }
    }

    /// Make sure `repo` has a counter per kind.
    pub fn create_counters(&mut self, id: RepoId)
        ensures
            final(self)@ == old(self)@.with_rows(id, old(self)@.rows(id).counted()),
    {
        let mut repo = self.take(id);
        repo.count_each();
        self.put(id, repo);
        assert(self@.repos =~= old(self)@.repos.insert(id.0, self@.rows(id)));
    }

    /// Take `count` numbers out of `kind`'s space, returning the first.
    ///
    /// A counter that reaches the end of its column stays there.
    pub fn allocate(&mut self, id: RepoId, kind: Kind, count: u64) -> (r: Result<i64, Error>)
        ensures
            ({
                let rows = old(self)@.rows(id);
                let next = rows.counters[kind];
                match r {
                    Ok(first) => {
                        &&& 0 < count <= i64::MAX
                        &&& rows.counters.contains_key(kind)
                        &&& first == next
                        &&& final(self)@ == old(self)@.with_rows(id, rows.allocated(kind, count))
                    },
                    Err(e) => {
                        &&& forall|other: RepoId| #[trigger]
                            final(self)@.rows(other) == old(self)@.rows(other)
                        &&& final(self)@.last_id == old(self)@.last_id
                        &&& e == (if count == 0 {
                            Error::NothingToAllocate
                        } else if count > i64::MAX {
                            Error::BatchTooLarge
                        } else {
                            Error::NoCounter
                        })
                        &&& 0 < count <= i64::MAX ==> !rows.counters.contains_key(kind)
                    },
                }
            }),
    {
        if count == 0 {
            return Err(Error::NothingToAllocate);
        }
        if count > 0x7fff_ffff_ffff_ffff {
            return Err(Error::BatchTooLarge);
        }
        let mut repo = self.take(id);
        let found: Option<i64> = match repo.counters.get(&kind) {
            Some(next) => Some(*next),
            None => None,
        };
        match found {
            None => {
                self.put(id, repo);
                Err(Error::NoCounter)
            },
            Some(first) => {
                let after: i128 = first as i128 + count as i128;
                let next: i64 = if after > 0x7fff_ffff_ffff_ffff {
                    i64::MAX
                } else {
                    after as i64
                };
                let _ = repo.counters.insert(kind, next);
                self.put(id, repo);
                assert(self@.repos =~= old(self)@.repos.insert(id.0, self@.rows(id)));
                Ok(first)
            },
        }
    }

    /// Record what `named` are called, all of them or none.
    ///
    /// A batch that names one already numbered leaves nothing behind.
    pub fn record(&mut self, id: RepoId, named: &[(ObjectId, Identity)]) -> (r: Result<(), Raced>)
        ensures
            match r {
                Ok(_) => {
                    &&& !old(self)@.rows(id).races(named@)
                    &&& final(self)@ == old(self)@.with_rows(
                        id,
                        old(self)@.rows(id).recorded(named@),
                    )
                },
                Err(_) => {
                    &&& old(self)@.rows(id).races(named@)
                    &&& final(self)@.last_id == old(self)@.last_id
                    &&& forall|other: RepoId| #[trigger]
                        final(self)@.rows(other) == old(self)@.rows(other)
                },
            },
    {
        let mut repo = self.take(id);
        let ghost rows = repo@;
        // Checked before anything lands, so a batch that loses the race leaves
        // nothing behind.
        let mut i: usize = 0;
        while i < named.len()
            invariant
                i <= named@.len(),
                repo@ == rows,
                rows == old(self)@.rows(id),
                self@.last_id == old(self)@.last_id,
                self@.repos == old(self)@.repos.remove(id.0),
                forall|j: int|
                    0 <= j < i ==> !rows.identities.contains_key((#[trigger] named@[j]).0),
            decreases named@.len() - i,
        {
            if repo.identities.contains_key(&named[i].0) {
                assert(rows.identities.contains_key(named@[i as int].0));
                self.put(id, repo);
                return Err(Raced);
            }
            i = i + 1;
        }
        let mut i: usize = 0;
        assert(named@.take(0) =~= Seq::<(ObjectId, Identity)>::empty());
        while i < named.len()
            invariant
                i <= named@.len(),
                repo@ == rows.recorded(named@.take(i as int)),
            decreases named@.len() - i,
        {
            let (oid, identity) = named[i];
            assert(named@.take(i + 1).drop_last() =~= named@.take(i as int));
            let _ = repo.identities.insert(oid, identity);
            let _ = repo.by_seq.insert(SeqKey { kind: identity.kind, seq: identity.seq }, oid);
            i = i + 1;
        }
        assert(named@.take(i as int) =~= named@);
        self.put(id, repo);
        assert(self@.repos =~= old(self)@.repos.insert(id.0, self@.rows(id)));
        Ok(())
    }

    /// What every id that `repo` holds is; ids it does not hold are absent.
    pub fn identify(&self, id: RepoId, oids: &[ObjectId]) -> (found: OrdMap<ObjectId, Identity>)
        ensures
            found@ == self@.rows(id).identities.restrict(oids@.to_set()),
    {
        let mut found: OrdMap<ObjectId, Identity> = OrdMap::new();
        let ghost identities = self@.rows(id).identities;
        let mut i: usize = 0;
        assert(identities.restrict(oids@.take(0).to_set()) =~= Map::<ObjectId, Identity>::empty());
        while i < oids.len()
            invariant
                i <= oids@.len(),
                identities == self@.rows(id).identities,
                found@ == identities.restrict(oids@.take(i as int).to_set()),
            decreases oids@.len() - i,
        {
            let oid = oids[i];
            let ghost before = found@;
            if let Some(repo) = self.repos.get(&id.0) {
                if let Some(identity) = repo.identities.get(&oid) {
                    let _ = found.insert(oid, *identity);
                }
            }
            proof {
                lemma_next(oids@, i as int);
                assert(found@ =~= identities.restrict(oids@.take(i + 1).to_set()));
            }
            i = i + 1;
        }
        assert(oids@.take(i as int) =~= oids@);
        found
    }

    /// The id of every number named in `kind`'s space.
    pub fn oids_of(&self, id: RepoId, kind: Kind, seqs: &[i64]) -> (found: OrdMap<i64, ObjectId>)
        ensures
            forall|seq: i64| #[trigger]
                found@.contains_key(seq) <==> seqs@.contains(seq) && self@.rows(
                    id,
                ).by_seq.contains_key((kind, seq)),
            forall|seq: i64| #[trigger]
                found@.contains_key(seq) ==> found@[seq] == self@.rows(id).by_seq[(kind, seq)],
    {
        let mut found: OrdMap<i64, ObjectId> = OrdMap::new();
        let ghost by_seq = self@.rows(id).by_seq;
        let mut i: usize = 0;
        while i < seqs.len()
            invariant
                i <= seqs@.len(),
                by_seq == self@.rows(id).by_seq,
                forall|seq: i64| #[trigger]
                    found@.contains_key(seq) <==> seqs@.take(i as int).contains(seq)
                        && by_seq.contains_key((kind, seq)),
                forall|seq: i64| #[trigger]
                    found@.contains_key(seq) ==> found@[seq] == by_seq[(kind, seq)],
            decreases seqs@.len() - i,
        {
            let seq: i64 = seqs[i];
            let ghost before = found@;
            if let Some(repo) = self.repos.get(&id.0) {
                if let Some(oid) = repo.by_seq.get(&SeqKey { kind, seq }) {
                    let _ = found.insert(seq, *oid);
                }
            }
            proof {
                lemma_next(seqs@, i as int);
                assert forall|other: i64| #[trigger]
                    found@.contains_key(other) <==> seqs@.take(i + 1).contains(other)
                        && by_seq.contains_key((kind, other)) by {
                    assert(seqs@.take(i + 1).to_set().contains(other) == seqs@.take(
                        i + 1,
                    ).contains(other));
                    assert(seqs@.take(i as int).to_set().contains(other) == seqs@.take(
                        i as int,
                    ).contains(other));
                }
            }
            i = i + 1;
        }
        assert(seqs@.take(i as int) =~= seqs@);
        found
    }

    /// Mark it deleted, reporting whether this call is what did it.
    pub fn mark_deleted(&mut self, id: RepoId, now: i64) -> (did: bool)
        ensures
            did == (old(self)@.rows(id).deleted_at is None),
            final(self)@ == old(self)@.with_rows(
                id,
                if did {
                    (RepoRows { deleted_at: Some(now), ..old(self)@.rows(id) })
                } else {
                    old(self)@.rows(id)
                },
            ),
    {
        let mut repo = self.take(id);
        let did: bool = repo.deleted_at.is_none();
        if did {
            repo.deleted_at = Some(now);
        }
        self.put(id, repo);
        assert(self@.repos =~= old(self)@.repos.insert(id.0, self@.rows(id)));
        did
    }

    /// Apply `updates`, each guarded by its own compare-and-set.
    ///
    /// Beside each update stands whether git would refuse its name.
    pub fn update_refs(&mut self, id: RepoId, updates: &[(RefUpdate, bool)], now: i64) -> (results:
        Vec<RefUpdateResult>)
        ensures
            final(self)@ == old(self)@.with_rows(
                id,
                old(self)@.rows(id).updated_all(updates@, now),
            ),
            results@.len() == updates@.len(),
            forall|i: int|
                0 <= i < updates@.len() ==> {
                    let before = old(self)@.rows(id).updated_all(updates@.take(i), now);
                    &&& (#[trigger] results@[i]).refname@ == updates@[i].0.refname@
                    &&& results@[i].result == (match before.refusal(updates@[i].0, updates@[i].1) {
                        Some(rejection) => Err::<(), RefUpdateRejection>(rejection),
                        None => Ok(()),
                    })
                },
    {
        let mut repo = self.take(id);
        let ghost rows = repo@;
        let mut results: Vec<RefUpdateResult> = Vec::new();
        let mut i: usize = 0;
        assert(updates@.take(0) =~= Seq::<(RefUpdate, bool)>::empty());
        while i < updates.len()
            invariant
                i <= updates@.len(),
                repo@ == rows.updated_all(updates@.take(i as int), now),
                results@.len() == i,
                forall|j: int|
                    0 <= j < i ==> {
                        let before = rows.updated_all(updates@.take(j), now);
                        &&& (#[trigger] results@[j]).refname@ == updates@[j].0.refname@
                        &&& results@[j].result == (match before.refusal(
                            updates@[j].0,
                            updates@[j].1,
                        ) {
                            Some(rejection) => Err::<(), RefUpdateRejection>(rejection),
                            None => Ok(()),
                        })
                    },
            decreases updates@.len() - i,
        {
            let (update, funny) = &updates[i];
            assert(updates@.take(i + 1).drop_last() =~= updates@.take(i as int));
            results.push(repo.apply(update, *funny, now));
            i = i + 1;
        }
        assert(updates@.take(i as int) =~= updates@);
        self.put(id, repo);
        assert(self@.repos =~= old(self)@.repos.insert(id.0, self@.rows(id)));
        results
    }

    /// Whether this caller now holds the repository's maintenance lock.
    ///
    /// Refused rather than waited on.
    pub fn hold_maintenance(&mut self, id: RepoId) -> (got: bool)
        ensures
            got == !old(self)@.rows(id).gathering,
            final(self)@ == old(self)@.with_rows(
                id,
                (RepoRows { gathering: true, ..old(self)@.rows(id) }),
            ),
    {
        let mut repo = self.take(id);
        let got: bool = !repo.gathering;
        repo.gathering = true;
        self.put(id, repo);
        assert(self@.repos =~= old(self)@.repos.insert(id.0, self@.rows(id)));
        got
    }

    /// Gives the maintenance lock back.
    pub fn release_maintenance(&mut self, id: RepoId)
        ensures
            final(self)@ == old(self)@.with_rows(
                id,
                (RepoRows { gathering: false, ..old(self)@.rows(id) }),
            ),
    {
        let mut repo = self.take(id);
        repo.gathering = false;
        self.put(id, repo);
        assert(self@.repos =~= old(self)@.repos.insert(id.0, self@.rows(id)));
    }

    /// Takes a repository apart, the row naming it included.
    pub fn erase(&mut self, id: RepoId)
        ensures
            final(self)@ == (MemoryState {
                repos: old(self)@.repos.remove(id.0),
                ..old(self)@
            }),
            final(self)@.rows(id) == RepoRows::empty(),
    {
        let _ = self.take(id);
    }
}

/// A repository as a listing reports it.
#[derive(Debug, PartialEq)]
pub struct RepoSummary {
    /// The repository itself.
    pub repo: RepoMetadata,
    /// When its default branch last moved; none until a first push.
    pub last_push_unix_seconds: Option<i64>,
}

/// One ref as a listing reports it: where it points, and when it last moved.
#[derive(Debug, PartialEq)]
pub struct RefEntry {
    /// The full refname, e.g. `refs/heads/main`.
    pub refname: String,
    /// What it points at.
    pub oid: ObjectId,
    /// When it last moved, in seconds since the epoch.
    pub updated_unix_seconds: i64,
}

/// When a repository's default branch last moved.
pub open spec fn last_push_of(rows: RepoRows) -> Option<i64> {
    if rows.branches.contains_key(rows.default_branch) {
        Some(in_secs(rows.branches[rows.default_branch].updated))
    } else {
        None
    }
}

/// Whether a listing names a repository: one that was created, and is not
/// deleted or, where `before` says so, was deleted before then.
pub open spec fn is_listed(rows: RepoRows, before: Option<i64>) -> bool {
    &&& rows.storage_key is Some
    &&& match before {
        None => rows.deleted_at is None,
        Some(cut) => rows.deleted_at matches Some(at) && at < cut,
    }
}

/// What a listing of repositories says: every one that `before` selects, in
/// ascending order, and no other.
pub open spec fn lists(state: MemoryState, before: Option<i64>, found: Seq<RepoMetadata>) -> bool {
    &&& forall|i: int, j: int|
        0 <= i < j < found.len() ==> (#[trigger] found[i]).id.0 < (#[trigger] found[j]).id.0
    &&& forall|i: int|
        0 <= i < found.len() ==> {
            &&& state.repos.contains_key((#[trigger] found[i]).id.0)
            &&& is_listed(state.rows(found[i].id), before)
            &&& facts_of(found[i].id, state.rows(found[i].id)) == Some(found[i]@)
        }
    &&& forall|id: i64| #[trigger]
        state.repos.contains_key(id) && is_listed(state.repos[id], before) ==> exists|i: int|
            0 <= i < found.len() && (#[trigger] found[i]).id.0 == id
}

impl Memory {
    fn listing(&self, before: Option<i64>) -> (found: Vec<RepoMetadata>)
        ensures
            lists(self@, before, found@),
    {
        let repos = self.repos.as_entries();
        let mut found: Vec<RepoMetadata> = Vec::new();
        let mut i: usize = 0;
        while i < repos.len()
            invariant
                i <= repos@.len(),
                repos@ == self.repos.entries(),
                in_order(repos@),
                self.repos@ == held(repos@),
                forall|j: int|
                    0 <= j < repos@.len() ==> self.repos@.contains_key((#[trigger] repos@[j]).0)
                        && self.repos@[repos@[j].0] == repos@[j].1,
                forall|a: int, b: int|
                    0 <= a < b < found@.len() ==> (#[trigger] found@[a]).id.0 < (
                    #[trigger] found@[b]).id.0,
                forall|a: int|
                    0 <= a < found@.len() ==> {
                        &&& self@.repos.contains_key((#[trigger] found@[a]).id.0)
                        &&& is_listed(self@.rows(found@[a].id), before)
                        &&& facts_of(found@[a].id, self@.rows(found@[a].id)) == Some(found@[a]@)
                        &&& exists|j: int| 0 <= j < i && (#[trigger] repos@[j]).0 == found@[a].id.0
                    },
                forall|j: int|
                    0 <= j < i && is_listed((#[trigger] repos@[j]).1@, before) ==> exists|a: int|
                        0 <= a < found@.len() && (#[trigger] found@[a]).id.0 == repos@[j].0,
            decreases repos@.len() - i,
        {
            let (id, repo) = &repos[i];
            let ghost shown = found@;
            let wanted: bool = match (before, repo.deleted_at) {
                (None, None) => true,
                (None, Some(_)) => false,
                (Some(_), None) => false,
                (Some(cut), Some(at)) => at < cut,
            };
            if wanted {
                if let Some(meta) = repo.meta(RepoId(*id)) {
                    found.push(meta);
                }
            }
            proof {
                let at = i as int;
                assert(self@.rows(RepoId(repos@[at].0)) == repos@[at].1@);
                assert forall|a: int, b: int| 0 <= a < b < found@.len() implies (
                #[trigger] found@[a]).id.0 < (#[trigger] found@[b]).id.0 by {
                    assert(shown[a] == found@[a]);
                    let j = choose|j: int| 0 <= j < i && (#[trigger] repos@[j]).0 == found@[a].id.0;
                    assert(repos@[j].0 < repos@[at].0);
                    if b < shown.len() {
                        assert(shown[b] == found@[b]);
                    }
                }
                assert forall|j: int|
                    0 <= j < i + 1 && is_listed((#[trigger] repos@[j]).1@, before) implies exists|
                    a: int,
                | 0 <= a < found@.len() && (#[trigger] found@[a]).id.0 == repos@[j].0 by {
                    if j < i {
                        let a = choose|a: int|
                            0 <= a < shown.len() && (#[trigger] shown[a]).id.0 == repos@[j].0;
                        assert(found@[a] == shown[a]);
                    } else {
                        assert(found@.len() == shown.len() + 1);
                        assert(found@[shown.len() as int].id.0 == repos@[j].0);
                    }
                }
                assert forall|a: int| 0 <= a < found@.len() implies {
                    &&& self@.repos.contains_key((#[trigger] found@[a]).id.0)
                    &&& is_listed(self@.rows(found@[a].id), before)
                    &&& facts_of(found@[a].id, self@.rows(found@[a].id)) == Some(found@[a]@)
                    &&& exists|j: int| 0 <= j < i + 1 && (#[trigger] repos@[j]).0 == found@[a].id.0
                } by {
                    if a < shown.len() {
                        assert(found@[a] == shown[a]);
                        let j = choose|j: int|
                            0 <= j < i && (#[trigger] repos@[j]).0 == found@[a].id.0;
                        assert(0 <= j < i + 1 && repos@[j].0 == found@[a].id.0);
                    } else {
                        assert(repos@[at].0 == found@[a].id.0);
                    }
                }
            }
            i = i + 1;
        }
        proof {
            assert forall|id: i64| #[trigger]
                self@.repos.contains_key(id) && is_listed(self@.repos[id], before) implies exists|
                i: int,
            | 0 <= i < found@.len() && (#[trigger] found@[i]).id.0 == id by {
                let j = choose|j: int| stands_at(repos@, id, j);
                assert(repos@[j].0 == id);
            }
        }
        found
    }

    /// Every repository not deleted, in ascending order.
    pub fn all(&self) -> (found: Vec<RepoMetadata>)
        ensures
            lists(self@, None, found@),
    {
        self.listing(None)
    }

    /// Every repository deleted longer ago than `grace_secs`, in ascending
    /// order.
    pub fn deleted(&self, grace_secs: u64, now: i64) -> (found: Vec<RepoMetadata>)
        ensures
            lists(self@, Some(window_start(now, grace_secs)), found@),
    {
        self.listing(Some(cutoff(now, grace_secs)))
    }

    /// Keeps these pack images alive against the sweep.
    pub fn register_segments(&mut self, id: RepoId, ids: &[Ulid])
        ensures
            final(self)@ == old(self)@.with_rows(
                id,
                (RepoRows {
                    segments: registered(old(self)@.rows(id).segments, ids@),
                    ..old(self)@.rows(id)
                }),
            ),
    {
        let mut repo = self.take(id);
        let ghost rows = repo@;
        let mut i: usize = 0;
        assert(registered(rows.segments, ids@.take(0)) =~= rows.segments);
        while i < ids.len()
            invariant
                i <= ids@.len(),
                repo@ == (RepoRows {
                    segments: registered(rows.segments, ids@.take(i as int)),
                    ..rows
                }),
            decreases ids@.len() - i,
        {
            if !repo.segments.contains_key(&ids[i]) {
                let _ = repo.segments.insert(ids[i], None);
            }
            proof {
                lemma_next(ids@, i as int);
                lemma_in_set(ids@.take(i + 1));
                lemma_in_set(ids@.take(i as int));
                assert(repo@.segments =~= registered(rows.segments, ids@.take(i + 1)));
            }
            i = i + 1;
        }
        assert(ids@.take(i as int) =~= ids@);
        self.put(id, repo);
        assert(self@.repos =~= old(self)@.repos.insert(id.0, self@.rows(id)));
    }

    /// Stamps these pack images as copied elsewhere, leaving the rows.
    pub fn retire_segments(&mut self, id: RepoId, ids: &[Ulid], now: i64)
        ensures
            final(self)@ == old(self)@.with_rows(
                id,
                (RepoRows {
                    segments: retired(old(self)@.rows(id).segments, ids@, now),
                    ..old(self)@.rows(id)
                }),
            ),
    {
        let mut repo = self.take(id);
        let ghost rows = repo@;
        let mut i: usize = 0;
        assert(retired(rows.segments, ids@.take(0), now) =~= rows.segments);
        while i < ids.len()
            invariant
                i <= ids@.len(),
                repo@ == (RepoRows {
                    segments: retired(rows.segments, ids@.take(i as int), now),
                    ..rows
                }),
            decreases ids@.len() - i,
        {
            let stamp: Option<Option<i64>> = match repo.segments.get(&ids[i]) {
                Some(retired) => Some(*retired),
                None => None,
            };
            if let Some(None) = stamp {
                let _ = repo.segments.insert(ids[i], Some(now));
            }
            proof {
                lemma_next(ids@, i as int);
                lemma_in_set(ids@.take(i + 1));
                lemma_in_set(ids@.take(i as int));
                assert(repo@.segments =~= retired(rows.segments, ids@.take(i + 1), now));
            }
            i = i + 1;
        }
        assert(ids@.take(i as int) =~= ids@);
        self.put(id, repo);
        assert(self@.repos =~= old(self)@.repos.insert(id.0, self@.rows(id)));
    }

    /// Which of `ids` the repository still names as holding a pack image.
    pub fn referenced_segments(&self, id: RepoId, ids: &[Ulid]) -> (found: OrdSet<Ulid>)
        ensures
            found@ == ids@.to_set().intersect(self@.rows(id).segments.dom()),
    {
        self.segments_where(id, ids, false)
    }

    /// Which of `ids` still hold an image nothing has copied elsewhere.
    pub fn live_segments(&self, id: RepoId, ids: &[Ulid]) -> (found: OrdSet<Ulid>)
        ensures
            found@ == Set::new(
                |one: Ulid|
                    ids@.contains(one) && self@.rows(id).segments.contains_key(one) && self@.rows(
                        id,
                    ).segments[one] is None,
            ),
    {
        let found = self.segments_where(id, ids, true);
        proof {
            lemma_in_set(ids@);
            assert(found@ =~= Set::new(
                |one: Ulid|
                    ids@.contains(one) && self@.rows(id).segments.contains_key(one) && self@.rows(
                        id,
                    ).segments[one] is None,
            ));
        }
        found
    }

    fn segments_where(&self, id: RepoId, ids: &[Ulid], live: bool) -> (found: OrdSet<Ulid>)
        ensures
            found@ == ids@.to_set().intersect(
                Set::new(
                    |one: Ulid|
                        self@.rows(id).segments.contains_key(one) && (live ==> self@.rows(
                            id,
                        ).segments[one] is None),
                ),
            ),
            !live ==> found@ == ids@.to_set().intersect(self@.rows(id).segments.dom()),
    {
        let mut found: OrdSet<Ulid> = OrdSet::new();
        let ghost wanted = Set::new(
            |one: Ulid|
                self@.rows(id).segments.contains_key(one) && (live ==> self@.rows(id).segments[one]
                    is None),
        );
        let mut i: usize = 0;
        assert(ids@.take(0).to_set().intersect(wanted) =~= Set::<Ulid>::empty());
        while i < ids.len()
            invariant
                i <= ids@.len(),
                wanted == Set::new(
                    |one: Ulid|
                        self@.rows(id).segments.contains_key(one) && (live ==> self@.rows(
                            id,
                        ).segments[one] is None),
                ),
                found@ == ids@.take(i as int).to_set().intersect(wanted),
            decreases ids@.len() - i,
        {
            let one = ids[i];
            let mut take_it: bool = false;
            if let Some(repo) = self.repos.get(&id.0) {
                if let Some(stamp) = repo.segments.get(&one) {
                    take_it = !live || stamp.is_none();
                }
            }
            assert(take_it == wanted.contains(one));
            if take_it {
                let _ = found.insert(one);
            }
            proof {
                lemma_next(ids@, i as int);
                assert(found@ =~= ids@.take(i + 1).to_set().intersect(wanted));
            }
            i = i + 1;
        }
        assert(ids@.take(i as int) =~= ids@);
        assert(!live ==> ids@.to_set().intersect(wanted) =~= ids@.to_set().intersect(
            self@.rows(id).segments.dom(),
        ));
        found
    }
}

/// `segments` without those stamped before `cut`.
pub open spec fn kept_segments(segments: Map<Ulid, Option<i64>>, cut: i64) -> Map<
    Ulid,
    Option<i64>,
> {
    segments.restrict(
        Set::new(
            |one: Ulid|
                segments.contains_key(one) && !(segments[one] matches Some(at) && at < cut),
        ),
    )
}

/// Keep the segments that were not stamped before `cut`.
fn keep_segments(segments: OrdMap<Ulid, Option<i64>>, cut: i64) -> (kept: OrdMap<Ulid, Option<i64>>)
    ensures
        kept@ == kept_segments(segments@, cut),
{
    let ghost whole = segments@;
    let mut left = segments;
    let mut kept: OrdMap<Ulid, Option<i64>> = OrdMap::new();
    loop
        invariant
            forall|one: Ulid|
                #![trigger left@.contains_key(one)]
                #![trigger kept@.contains_key(one)]
                if left@.contains_key(one) {
                    &&& whole.contains_key(one) && left@[one] == whole[one]
                    &&& !kept@.contains_key(one)
                } else {
                    &&& kept@.contains_key(one) == kept_segments(whole, cut).contains_key(one)
                    &&& kept@.contains_key(one) ==> kept@[one] == whole[one]
                },
        ensures
            kept@ == kept_segments(whole, cut),
        decreases left.entries().len(),
    {
        match left.pop() {
            None => {
                assert forall|one: Ulid| #[trigger] kept@.contains_key(one) == kept_segments(
                    whole,
                    cut,
                ).contains_key(one) by {
                    assert(!left@.contains_key(one));
                }
                assert(kept@ =~= kept_segments(whole, cut));
                break;
            },
            Some((one, stamp)) => {
                let old_enough: bool = match stamp {
                    Some(at) => at < cut,
                    None => false,
                };
                if !old_enough {
                    let _ = kept.insert(one, stamp);
                }
            },
        }
    }
    kept
}

/// The refs of one table, as they go over the wire.
pub open spec fn wired(table: Map<Seq<char>, Ref>) -> Map<Seq<char>, Seq<char>> {
    Map::new(|name: Seq<char>| table.contains_key(name), |name: Seq<char>|
        hex_of(table[name].oid.bytes()))
}

/// What a map of texts says.
pub open spec fn texts(map: Map<Seq<char>, String>) -> Map<Seq<char>, Seq<char>> {
    Map::new(|name: Seq<char>| map.contains_key(name), |name: Seq<char>| map[name]@)
}

/// Put the refs of one table into `refs`.
fn put_refs(table: &OrdMap<String, Ref>, refs: &mut OrdMap<String, String>)
    ensures
        texts(final(refs)@) == texts(old(refs)@).union_prefer_right(wired(table@)),
{
    let entries = table.as_entries();
    let ghost first = texts(refs@);
    let mut i: usize = 0;
    while i < entries.len()
        invariant
            i <= entries@.len(),
            entries@ == table.entries(),
            in_order(entries@),
            table@ == held(entries@),
            forall|j: int|
                0 <= j < entries@.len() ==> table@.contains_key((#[trigger] entries@[j]).0@)
                    && table@[entries@[j].0@] == entries@[j].1,
            forall|name: Seq<char>| #[trigger]
                texts(refs@).contains_key(name) <==> first.contains_key(name) || exists|j: int|
                    0 <= j < i && (#[trigger] entries@[j]).0@ == name,
            forall|j: int|
                0 <= j < i ==> texts(refs@)[(#[trigger] entries@[j]).0@] == hex_of(
                    entries@[j].1.oid.bytes(),
                ),
            forall|name: Seq<char>|
                !table@.contains_key(name) && first.contains_key(name) ==> #[trigger] texts(
                    refs@,
                )[name] == first[name],
        decreases entries@.len() - i,
    {
        let (name, one) = &entries[i];
        let ghost before = texts(refs@);
        let text = hex(one.oid);
        let ghost shown = text@;
        let _ = refs.insert(name.clone(), text);
        proof {
            assert(texts(refs@) =~= before.insert(name@, shown));
            assert forall|other: Seq<char>| #[trigger]
                texts(refs@).contains_key(other) <==> first.contains_key(other) || exists|j: int|
                    0 <= j < i + 1 && (#[trigger] entries@[j]).0@ == other by {
                if other == name@ {
                    assert(entries@[i as int].0@ == other);
                } else if before.contains_key(other) && !first.contains_key(other) {
                    let j = choose|j: int| 0 <= j < i && (#[trigger] entries@[j]).0@ == other;
                    assert(0 <= j < i + 1 && entries@[j].0@ == other);
                }
            }
            assert forall|j: int| 0 <= j < i + 1 implies texts(refs@)[(#[trigger] entries@[j]).0@]
                == hex_of(entries@[j].1.oid.bytes()) by {
                if j < i {
                    <String as OrdKey>::before_is_strict(entries@[j].0@, entries@[i as int].0@);
                }
            }
        }
        i = i + 1;
    }
    proof {
        let all = first.union_prefer_right(wired(table@));
        assert forall|name: Seq<char>| #[trigger] texts(refs@).contains_key(name)
            <==> all.contains_key(name) by {
            if table@.contains_key(name) {
                let j = choose|j: int| stands_at(entries@, name, j);
                assert(entries@[j].0@ == name);
            }
        }
        assert forall|name: Seq<char>| #[trigger] texts(refs@).contains_key(name) implies texts(
            refs@,
        )[name] == all[name] by {
            if table@.contains_key(name) {
                let j = choose|j: int| stands_at(entries@, name, j);
                assert(entries@[j].0@ == name);
            }
        }
        assert(texts(refs@) =~= all);
    }
}

impl Memory {
    /// Drop the rows of segments retired longer than `grace_secs` ago, and say
    /// how many there were.
    pub fn drop_retired_segments(&mut self, id: RepoId, grace_secs: u64, now: i64) -> (dropped: u64)
        ensures
            ({
                let rows = old(self)@.rows(id);
                let kept = kept_segments(rows.segments, window_start(now, grace_secs));
                &&& final(self)@ == old(self)@.with_rows(id, (RepoRows { segments: kept, ..rows }))
                &&& dropped == rows.segments.len() - kept.len()
            }),
    {
        let cut: i64 = cutoff(now, grace_secs);
        let mut repo = self.take(id);
        let ghost rows = repo@;
        let before: usize = repo.segments.as_entries().len();
        let segments = repo.segments;
        let kept = keep_segments(segments, cut);
        let after: usize = kept.as_entries().len();
        proof {
            assert(kept@.dom().subset_of(rows.segments.dom()));
            vstd::set_lib::lemma_len_subset(kept@.dom(), rows.segments.dom());
        }
        repo.segments = kept;
        self.put(id, repo);
        assert(self@.repos =~= old(self)@.repos.insert(id.0, self@.rows(id)));
        (before - after) as u64
    }

    /// The repository's refs, keyed by name, with `HEAD` made up.
    pub fn refs_for(&self, repo: &RepoMetadata) -> (refs: OrdMap<String, String>)
        ensures
            ({
                let rows = self@.rows(repo.id);
                texts(refs@) == wired(rows.branches).union_prefer_right(wired(rows.others)).insert(
                    "HEAD"@,
                    "ref: "@ + repo.default_branch@,
                )
            }),
    {
        let mut refs: OrdMap<String, String> = OrdMap::new();
        assert(texts(refs@) =~= Map::<Seq<char>, Seq<char>>::empty());
        let ghost rows = self@.rows(repo.id);
        match self.repos.get(&repo.id.0) {
            Some(held_rows) => {
                put_refs(&held_rows.branches, &mut refs);
                assert(Map::<Seq<char>, Seq<char>>::empty().union_prefer_right(wired(rows.branches))
                    =~= wired(rows.branches));
                put_refs(&held_rows.others, &mut refs);
            },
            None => {
                assert(wired(rows.branches).union_prefer_right(wired(rows.others)) =~= Map::<
                    Seq<char>,
                    Seq<char>,
                >::empty());
            },
        }
        let ghost before = texts(refs@);
        let mut head: String = "ref: ".to_owned();
        head.append(repo.default_branch.as_str());
        let ghost shown = head@;
        let _ = refs.insert("HEAD".to_owned(), head);
        assert(texts(refs@) =~= before.insert("HEAD"@, shown));
        refs
    }

    /// Just the refs named, for a caller that knows what it wants.
    pub fn refs_matching(&self, id: RepoId, refnames: &[String]) -> (refs: OrdMap<String, String>)
        ensures
            forall|name: Seq<char>| #[trigger]
                texts(refs@).contains_key(name) <==> named_in(refnames@, name) && (self@.rows(
                    id,
                ).branches.contains_key(name) || self@.rows(id).others.contains_key(name)),
            forall|name: Seq<char>| #[trigger]
                texts(refs@).contains_key(name) ==> texts(refs@)[name] == hex_of(
                    (if self@.rows(id).branches.contains_key(name) {
                        self@.rows(id).branches[name]
                    } else {
                        self@.rows(id).others[name]
                    }).oid.bytes(),
                ),
    {
        let mut refs: OrdMap<String, String> = OrdMap::new();
        let ghost rows = self@.rows(id);
        let mut i: usize = 0;
        while i < refnames.len()
            invariant
                i <= refnames@.len(),
                rows == self@.rows(id),
                forall|name: Seq<char>| #[trigger]
                    texts(refs@).contains_key(name) <==> named_in(refnames@.take(i as int), name)
                        && (rows.branches.contains_key(name) || rows.others.contains_key(name)),
                forall|name: Seq<char>| #[trigger]
                    texts(refs@).contains_key(name) ==> texts(refs@)[name] == hex_of(
                        (if rows.branches.contains_key(name) {
                            rows.branches[name]
                        } else {
                            rows.others[name]
                        }).oid.bytes(),
                    ),
            decreases refnames@.len() - i,
        {
            let name = &refnames[i];
            let ghost before = texts(refs@);
            let found: Option<ObjectId> = match self.repos.get(&id.0) {
                None => None,
                Some(repo) => match repo.branches.get(name) {
                    Some(one) => Some(one.oid),
                    None => match repo.others.get(name) {
                        Some(one) => Some(one.oid),
                        None => None,
                    },
                },
            };
            if let Some(oid) = found {
                let text = hex(oid);
                let ghost shown = text@;
                let _ = refs.insert(name.clone(), text);
                assert(texts(refs@) =~= before.insert(name@, shown));
            }
            proof {
                assert forall|other: Seq<char>| #[trigger] named_in(refnames@.take(i + 1), other)
                    <==> named_in(refnames@.take(i as int), other) || other == name@ by {
                    lemma_named_next(refnames@, i as int, other);
                }
            }
            i = i + 1;
        }
        assert(refnames@.take(i as int) =~= refnames@);
        refs
    }
}

/// The numbers of the repositories that summaries speak of, in order.
pub open spec fn summary_ids(found: Seq<RepoSummary>) -> Seq<i64> {
    found.map_values(|one: RepoSummary| one.repo.id.0)
}

/// The numbers among `repos` that are there.
pub open spec fn present_ids(state: MemoryState, repos: Seq<RepoId>) -> Seq<i64> {
    repos.filter(|id: RepoId| state.resolved(id) is Some).map_values(|id: RepoId| id.0)
}

impl Memory {
    /// When a repository's default branch last moved.
    fn last_push(&self, repo: &RepoMetadata) -> (at: Option<i64>)
        requires
            repo.default_branch@ == self@.rows(repo.id).default_branch,
        ensures
            at == last_push_of(self@.rows(repo.id)),
    {
        match self.repos.get(&repo.id.0) {
            None => None,
            Some(rows) => match rows.branches.get(&repo.default_branch) {
                None => None,
                Some(one) => Some(secs(one.updated)),
            },
        }
    }

    /// Those of `repos` still present, in ascending order, each with its last
    /// push.
    ///
    /// Fewer than asked for is an answer: a lister holds no lock on a delete.
    pub fn summarize(&self, repos: &[RepoId]) -> (found: Vec<RepoSummary>)
        ensures
            forall|i: int, j: int|
                0 <= i < j < found@.len() ==> (#[trigger] found@[i]).repo.id.0 <= (
                #[trigger] found@[j]).repo.id.0,
            summary_ids(found@).to_multiset() == present_ids(self@, repos@).to_multiset(),
            forall|i: int|
                0 <= i < found@.len() ==> {
                    let id = (#[trigger] found@[i]).repo.id;
                    &&& self@.resolved(id) == Some(found@[i].repo@)
                    &&& found@[i].last_push_unix_seconds == last_push_of(self@.rows(id))
                },
    {
        let mut found: Vec<RepoSummary> = Vec::new();
        let mut k: usize = 0;
        proof {
            reveal(Seq::filter);
            assert(repos@.take(0) =~= Seq::<RepoId>::empty());
            assert(summary_ids(found@) =~= present_ids(self@, repos@.take(0)));
        }
        while k < repos.len()
            invariant
                k <= repos@.len(),
                forall|i: int, j: int|
                    0 <= i < j < found@.len() ==> (#[trigger] found@[i]).repo.id.0 <= (
                    #[trigger] found@[j]).repo.id.0,
                summary_ids(found@).to_multiset() == present_ids(
                    self@,
                    repos@.take(k as int),
                ).to_multiset(),
                forall|i: int|
                    0 <= i < found@.len() ==> {
                        let id = (#[trigger] found@[i]).repo.id;
                        &&& self@.resolved(id) == Some(found@[i].repo@)
                        &&& found@[i].last_push_unix_seconds == last_push_of(self@.rows(id))
                    },
            decreases repos@.len() - k,
        {
            let ghost before = found@;
            proof {
                reveal(Seq::filter);
                assert(repos@.take(k + 1).drop_last() =~= repos@.take(k as int));
            }
            let ghost present = present_ids(self@, repos@.take(k as int));
            let looked_up = self.lookup(repos[k]);
            if let Some(repo) = looked_up {
                let last_push_unix_seconds: Option<i64> = self.last_push(&repo);
                let ghost id = repo.id.0;
                let mut at: usize = 0;
                while at < found.len() && found[at].repo.id.0 <= repo.id.0
                    invariant
                        at <= found@.len(),
                        found@ == before,
                        forall|i: int|
                            0 <= i < at ==> (#[trigger] found@[i]).repo.id.0 <= repo.id.0,
                    decreases found@.len() - at,
                {
                    at = at + 1;
                }
                let one = RepoSummary { repo, last_push_unix_seconds };
                found.insert(at, one);
                proof {
                    assert forall|i: int, j: int| 0 <= i < j < found@.len() implies (
                    #[trigger] found@[i]).repo.id.0 <= (#[trigger] found@[j]).repo.id.0 by {
                        let x = if i < at {
                            i
                        } else {
                            i - 1
                        };
                        let y = if j < at {
                            j
                        } else {
                            j - 1
                        };
                        if i != at {
                            assert(found@[i] == before[x]);
                        }
                        if j != at {
                            assert(found@[j] == before[y]);
                        }
                        if i == at && at < before.len() {
                            assert(before[at as int].repo.id.0 > id);
                        }
                    }
                    assert forall|i: int| 0 <= i < found@.len() implies {
                        let id = (#[trigger] found@[i]).repo.id;
                        &&& self@.resolved(id) == Some(found@[i].repo@)
                        &&& found@[i].last_push_unix_seconds == last_push_of(self@.rows(id))
                    } by {
                        if i < at {
                            assert(found@[i] == before[i]);
                        } else if i > at {
                            assert(found@[i] == before[i - 1]);
                        }
                    }
                    assert(summary_ids(found@) =~= summary_ids(before).insert(at as int, id));
                    lemma_multiset_insert(summary_ids(before), at as int, id);
                    assert(present_ids(self@, repos@.take(k + 1)) =~= present.push(id));
                    vstd::seq_lib::to_multiset_build(present, id);
                }
            } else {
                assert(present_ids(self@, repos@.take(k + 1)) =~= present);
            }
            k = k + 1;
        }
        assert(repos@.take(k as int) =~= repos@);
        found
    }

    /// Every ref the repository has, branches and everything else alike, in
    /// ascending order of their names.
    pub fn ref_listing(&self, id: RepoId) -> (found: Vec<RefEntry>)
        ensures
            forall|i: int, j: int|
                0 <= i < j < found@.len() ==> crate::text::name_before(
                    (#[trigger] found@[i]).refname@,
                    (#[trigger] found@[j]).refname@,
                ),
            forall|i: int|
                0 <= i < found@.len() ==> {
                    let name = (#[trigger] found@[i]).refname@;
                    let refs = self@.rows(id).all_refs();
                    &&& refs.contains_key(name)
                    &&& found@[i].oid == refs[name].oid
                    &&& found@[i].updated_unix_seconds == in_secs(refs[name].updated)
                },
            forall|name: Seq<char>| #[trigger]
                self@.rows(id).all_refs().contains_key(name) ==> exists|i: int|
                    0 <= i < found@.len() && (#[trigger] found@[i]).refname@ == name,
    {
        let ghost rows = self@.rows(id);
        let mut all: OrdMap<String, Ref> = OrdMap::new();
        if let Some(repo) = self.repos.get(&id.0) {
            put_table(&repo.branches, &mut all);
            put_table(&repo.others, &mut all);
        }
        assert(all@ =~= rows.all_refs());
        let entries = all.as_entries();
        let mut found: Vec<RefEntry> = Vec::new();
        let mut i: usize = 0;
        while i < entries.len()
            invariant
                i <= entries@.len(),
                found@.len() == i,
                forall|j: int|
                    0 <= j < i ==> {
                        &&& (#[trigger] found@[j]).refname@ == entries@[j].0@
                        &&& found@[j].oid == entries@[j].1.oid
                        &&& found@[j].updated_unix_seconds == in_secs(entries@[j].1.updated)
                    },
            decreases entries@.len() - i,
        {
            let (name, one) = &entries[i];
            found.push(
                RefEntry {
                    refname: name.clone(),
                    oid: one.oid,
                    updated_unix_seconds: secs(one.updated),
                },
            );
            i = i + 1;
        }
        proof {
            assert forall|j: int| 0 <= j < found@.len() implies {
                let name = (#[trigger] found@[j]).refname@;
                let refs = self@.rows(id).all_refs();
                &&& refs.contains_key(name)
                &&& found@[j].oid == refs[name].oid
                &&& found@[j].updated_unix_seconds == in_secs(refs[name].updated)
            } by {
                assert(all@.contains_key(entries@[j].0@));
            }
            assert forall|name: Seq<char>| #[trigger]
                self@.rows(id).all_refs().contains_key(name) implies exists|i: int|
                    0 <= i < found@.len() && (#[trigger] found@[i]).refname@ == name by {
                assert(all@.contains_key(name));
                let j = choose|j: int| stands_at(entries@, name, j);
                assert(entries@[j].0@ == name);
                assert(found@[j].refname@ == name);
            }
        }
        found
    }
}

/// Put the refs of one table into `all`.
fn put_table(table: &OrdMap<String, Ref>, all: &mut OrdMap<String, Ref>)
    ensures
        final(all)@ == old(all)@.union_prefer_right(table@),
{
    let entries = table.as_entries();
    let ghost first = all@;
    let mut i: usize = 0;
    while i < entries.len()
        invariant
            i <= entries@.len(),
            entries@ == table.entries(),
            in_order(entries@),
            table@ == held(entries@),
            forall|j: int|
                0 <= j < entries@.len() ==> table@.contains_key((#[trigger] entries@[j]).0@)
                    && table@[entries@[j].0@] == entries@[j].1,
            forall|name: Seq<char>| #[trigger]
                all@.contains_key(name) <==> first.contains_key(name) || exists|j: int|
                    0 <= j < i && (#[trigger] entries@[j]).0@ == name,
            forall|j: int| 0 <= j < i ==> all@[(#[trigger] entries@[j]).0@] == entries@[j].1,
            forall|name: Seq<char>|
                !table@.contains_key(name) && first.contains_key(name) ==> #[trigger] all@[name]
                    == first[name],
        decreases entries@.len() - i,
    {
        let (name, one) = &entries[i];
        let ghost before = all@;
        let _ = all.insert(name.clone(), *one);
        proof {
            assert forall|other: Seq<char>| #[trigger]
                all@.contains_key(other) <==> first.contains_key(other) || exists|j: int|
                    0 <= j < i + 1 && (#[trigger] entries@[j]).0@ == other by {
                if other == name@ {
                    assert(entries@[i as int].0@ == other);
                } else if before.contains_key(other) && !first.contains_key(other) {
                    let j = choose|j: int| 0 <= j < i && (#[trigger] entries@[j]).0@ == other;
                    assert(0 <= j < i + 1 && entries@[j].0@ == other);
                }
            }
            assert forall|j: int| 0 <= j < i + 1 implies all@[(#[trigger] entries@[j]).0@]
                == entries@[j].1 by {
                if j < i {
                    <String as OrdKey>::before_is_strict(entries@[j].0@, entries@[i as int].0@);
                }
            }
        }
        i = i + 1;
    }
    proof {
        let both = first.union_prefer_right(table@);
        assert forall|name: Seq<char>| #[trigger] all@.contains_key(name) <==> both.contains_key(
            name,
        ) by {
            if table@.contains_key(name) {
                let j = choose|j: int| stands_at(entries@, name, j);
                assert(entries@[j].0@ == name);
            }
        }
        assert forall|name: Seq<char>| #[trigger] all@.contains_key(name) implies all@[name]
            == both[name] by {
            if table@.contains_key(name) {
                let j = choose|j: int| stands_at(entries@, name, j);
                assert(entries@[j].0@ == name);
            }
        }
        assert(all@ =~= both);
    }
}

proof fn lemma_multiset_insert<T>(s: Seq<T>, i: int, x: T)
    requires
        0 <= i <= s.len(),
    ensures
        s.insert(i, x).to_multiset() == s.to_multiset().insert(x),
{
    broadcast use vstd::seq_lib::group_to_multiset_ensures;

    let with = s.insert(i, x);
    assert(with.remove(i) =~= s);
    assert(with[i] == x);
    assert(with.contains(x));
    assert(with.to_multiset().count(x) > 0);
    assert(with.to_multiset() =~= with.to_multiset().remove(x).insert(x));
}

/// Whether `name` is one of `names`.
pub open spec fn named_in(names: Seq<String>, name: Seq<char>) -> bool {
    exists|i: int| 0 <= i < names.len() && (#[trigger] names[i])@ == name
}

proof fn lemma_named_next(names: Seq<String>, i: int, name: Seq<char>)
    requires
        0 <= i < names.len(),
    ensures
        named_in(names.take(i + 1), name) <==> named_in(names.take(i), name) || name == names[i]@,
{
    let (short, long) = (names.take(i), names.take(i + 1));
    if named_in(short, name) {
        let j = choose|j: int| 0 <= j < short.len() && (#[trigger] short[j])@ == name;
        assert(long[j]@ == name);
    }
    if named_in(long, name) {
        let j = choose|j: int| 0 <= j < long.len() && (#[trigger] long[j])@ == name;
        if j < i {
            assert(short[j]@ == name);
        }
    }
    assert(long[i] == names[i]);
}

/// `segments` with `ids` named: those that are there keep their stamp.
pub open spec fn registered(segments: Map<Ulid, Option<i64>>, ids: Seq<Ulid>) -> Map<
    Ulid,
    Option<i64>,
> {
    Map::new(
        |one: Ulid| segments.contains_key(one) || ids.contains(one),
        |one: Ulid|
            if segments.contains_key(one) {
                segments[one]
            } else {
                None
            },
    )
}

/// `segments` with those of `ids` stamped that have no stamp yet.
pub open spec fn retired(segments: Map<Ulid, Option<i64>>, ids: Seq<Ulid>, now: i64) -> Map<
    Ulid,
    Option<i64>,
> {
    Map::new(
        |one: Ulid| segments.contains_key(one),
        |one: Ulid|
            if ids.contains(one) && segments[one] is None {
                Some(now)
            } else {
                segments[one]
            },
    )
}

/// A retired image keeps its row and is no longer live.
pub proof fn a_retired_image_stays_referenced(
    segments: Map<Ulid, Option<i64>>,
    ids: Seq<Ulid>,
    now: i64,
    one: Ulid,
)
    requires
        ids.contains(one),
        segments.contains_key(one),
    ensures
        retired(segments, ids, now).contains_key(one),
        retired(segments, ids, now)[one] is Some,
{
}

proof fn lemma_in_set<T>(s: Seq<T>)
    ensures
        forall|x: T| #[trigger] s.contains(x) <==> s.to_set().contains(x),
{
}

/// The next element joins what was taken so far.
proof fn lemma_next<T>(s: Seq<T>, i: int)
    requires
        0 <= i < s.len(),
    ensures
        s.take(i + 1).to_set() == s.take(i).to_set().insert(s[i]),
{
    assert(s.take(i + 1) =~= s.take(i).push(s[i]));
    assert forall|x: T| #[trigger] s.take(i + 1).to_set().contains(x) <==> s.take(
        i,
    ).to_set().insert(s[i]).contains(x) by {
        let (short, long) = (s.take(i), s.take(i + 1));
        if long.contains(x) {
            let j = choose|j: int| 0 <= j < long.len() && long[j] == x;
            if j < i {
                assert(short[j] == x);
            }
        }
        if short.contains(x) {
            let j = choose|j: int| 0 <= j < short.len() && short[j] == x;
            assert(long[j] == x);
        }
        assert(long[i] == s[i]);
    }
    assert(s.take(i + 1).to_set() =~= s.take(i).to_set().insert(s[i]));
}

} // verus!
