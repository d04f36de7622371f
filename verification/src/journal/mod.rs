//! One write's index rows, held until they all land together.
//!
//! [`Journal`] is the write as a value: what was listed, what pack images it
//! keeps alive, and which it retires. [`MemoryLedger`] lands one, all of it or
//! none. A commit listed in the graph while its objects are not is one no
//! later push ever records the objects of, so the four lists land as one.

use vstd::prelude::*;

use crate::metadata::memory::{registered, retired, Memory, MemoryState};
use crate::metadata::rows::{RepoId, RepoRows};
use crate::objects::index::KeyRange;
use crate::objects::location::Ulid;

verus! {

/// One of the four segmented lists the engine keeps.
#[derive(Clone, Copy, Debug, PartialEq, Eq, Structural, Hash)]
pub enum Index {
    /// What a commit points at, keyed by commit seq.
    CommitGraph,
    /// Where a commit's pack image is, and what it holds.
    CommitPacks,
    /// Where a tree is stored, and what its entries are.
    Trees,
    /// Where a blob is stored.
    Blobs,
}

impl Index {
    /// The list's place among the four.
    pub open spec fn place(self) -> int {
        match self {
            Index::CommitGraph => 0,
            Index::CommitPacks => 1,
            Index::Trees => 2,
            Index::Blobs => 3,
        }
    }

    /// Every list, for a caller that has to visit each in turn.
    pub fn all() -> (all: [Index; 4])
        ensures
            forall|index: Index| #[trigger] all@[index.place()] == index,
    {
        let all = [Index::CommitGraph, Index::CommitPacks, Index::Trees, Index::Blobs];
        assert(forall|index: Index| #[trigger] all@[index.place()] == index);
        all
    }

    /// This list's one of four, in the order of [`Index::all`].
    pub fn of<T>(self, each: &[T; 4]) -> (one: &T)
        ensures
            *one == each@[self.place()],
    {
        match self {
            Index::CommitGraph => &each[0],
            Index::CommitPacks => &each[1],
            Index::Trees => &each[2],
            Index::Blobs => &each[3],
        }
    }
}

/// Which value a segment belongs to, and where its objects live.
#[derive(Debug, PartialEq)]
pub struct Scope {
    pub id: i64,
    pub prefix: String,
}

/// A segment, already encoded and, where it is not held here, already put.
#[derive(Debug, PartialEq)]
pub struct Written {
    /// The name it is stored under.
    pub id: u128,
    /// The numbers it spans.
    pub range: KeyRange,
    /// How often it was merged.
    pub tier: u32,
    /// Its bytes; none for one that stands in the bucket.
    pub body: Option<Vec<u8>>,
    /// How many bytes it is.
    pub bytes: u64,
}

/// One segment to list, and where it belongs.
#[derive(Debug, PartialEq)]
pub struct Listing {
    /// Which list it goes in.
    pub index: Index,
    /// Which value within that list.
    pub scope: Scope,
    /// The segment.
    pub segment: Written,
}

/// Every row one write adds to the indexes, and to what keeps them alive.
///
/// A plain value: appending does no I/O and cannot fail.
#[derive(Debug, PartialEq)]
pub struct Journal {
    listed: Vec<Listing>,
    registered: Vec<Ulid>,
    retired: Vec<Ulid>,
}

/// What a journal holds.
#[verifier::ext_equal]
pub struct JournalState {
    pub listed: Seq<Listing>,
    pub registered: Seq<Ulid>,
    pub retired: Seq<Ulid>,
}

impl JournalState {
    /// Whether the write would land no rows at all.
    pub open spec fn is_empty(self) -> bool {
        self.listed.len() == 0 && self.registered.len() == 0 && self.retired.len() == 0
    }
}

impl View for Journal {
    type V = JournalState;

    closed spec fn view(&self) -> JournalState {
        JournalState {
            listed: self.listed@,
            registered: self.registered@,
            retired: self.retired@,
        }
    }
}

impl Journal {
    /// A journal with nothing in it.
    pub fn new() -> (journal: Journal)
        ensures
            journal@ == (JournalState {
                listed: Seq::empty(),
                registered: Seq::empty(),
                retired: Seq::empty(),
            }),
            journal@.is_empty(),
    {
        Journal { listed: Vec::new(), registered: Vec::new(), retired: Vec::new() }
    }

    /// Lists `segment` under `scope` of `index`.
    pub fn list(&mut self, index: Index, scope: Scope, segment: Written)
        ensures
            final(self)@ == (JournalState {
                listed: old(self)@.listed.push(Listing { index, scope, segment }),
                ..old(self)@
            }),
    {
        self.listed.push(Listing { index, scope, segment });
    }

    /// Keeps these pack images alive against the sweep.
    pub fn register(&mut self, segments: &[Ulid])
        ensures
            final(self)@ == (JournalState {
                registered: old(self)@.registered + segments@,
                ..old(self)@
            }),
    {
        self.registered.extend_from_slice(segments);
        assert(self@.registered =~= old(self)@.registered + segments@);
    }

    /// Hands these pack images to the sweep, a grace window from now.
    pub fn retire(&mut self, segments: &[Ulid])
        ensures
            final(self)@ == (JournalState {
                retired: old(self)@.retired + segments@,
                ..old(self)@
            }),
    {
        self.retired.extend_from_slice(segments);
        assert(self@.retired =~= old(self)@.retired + segments@);
    }

    /// Whether this write would land no rows at all.
    pub fn is_empty(&self) -> (empty: bool)
        ensures
            empty == self@.is_empty(),
    {
        self.listed.len() == 0 && self.registered.len() == 0 && self.retired.len() == 0
    }

    /// The segments to list.
    pub fn listed(&self) -> (listed: &[Listing])
        ensures
            listed@ == self@.listed,
    {
        self.listed.as_slice()
    }

    /// The pack images to keep.
    pub fn registered(&self) -> (registered: &[Ulid])
        ensures
            registered@ == self@.registered,
    {
        self.registered.as_slice()
    }

    /// The pack images to retire.
    pub fn retired(&self) -> (retired: &[Ulid])
        ensures
            retired@ == self@.retired,
    {
        self.retired.as_slice()
    }
}

/// What a ledger holds: the four lists as one run, and the rows.
#[verifier::ext_equal]
pub struct LedgerState {
    pub rows: MemoryState,
    pub listed: Seq<Listing>,
}

impl LedgerState {
    /// The ledger once `journal` landed against `repo` at `now`: every row of
    /// it, or none where there is none.
    pub open spec fn committed(self, repo: RepoId, journal: JournalState, now: i64) -> LedgerState {
        let rows = self.rows.rows(repo);
        let kept = registered(rows.segments, journal.registered);
        if journal.is_empty() {
            self
        } else {
            LedgerState {
                rows: self.rows.with_rows(
                    repo,
                    RepoRows { segments: retired(kept, journal.retired, now), ..rows },
                ),
                listed: self.listed + journal.listed,
            }
        }
    }

    /// What one list holds for one value.
    pub open spec fn catalog(self, index: Index, scope_id: i64) -> Seq<Listing> {
        self.listed.filter(|l: Listing| l.index == index && l.scope.id == scope_id)
    }
}

/// A journal landed in memory, for a stack with no database to land it in.
#[derive(Debug, PartialEq)]
pub struct MemoryLedger {
    rows: Memory,
    listed: Vec<Listing>,
}

impl View for MemoryLedger {
    type V = LedgerState;

    closed spec fn view(&self) -> LedgerState {
        LedgerState { rows: self.rows@, listed: self.listed@ }
    }
}

impl MemoryLedger {
    /// A ledger over `rows`, with empty lists.
    pub fn in_memory(rows: Memory) -> (ledger: MemoryLedger)
        ensures
            ledger@ == (LedgerState { rows: rows@, listed: Seq::empty() }),
    {
        MemoryLedger { rows, listed: Vec::new() }
    }

    /// The rows that the ledger lands in.
    pub fn rows(&self) -> (rows: &Memory)
        ensures
            rows@ == self@.rows,
    {
        &self.rows
    }

    /// The rows that the ledger lands in, to write what no journal carries.
    pub fn rows_mut(&mut self) -> (rows: &mut Memory)
        ensures
            rows@ == old(self)@.rows,
            final(self)@ == (LedgerState { rows: final(rows)@, ..old(self)@ }),
    {
        &mut self.rows
    }

    /// How many segments one list holds for one value.
    pub fn count(&self, index: Index, scope_id: i64) -> (n: usize)
        ensures
            n == self@.catalog(index, scope_id).len(),
    {
        let ghost wanted = |l: Listing| l.index == index && l.scope.id == scope_id;
        let mut n: usize = 0;
        let mut i: usize = 0;
        proof {
            reveal(Seq::filter);
            assert(self.listed@.take(0) =~= Seq::<Listing>::empty());
        }
        while i < self.listed.len()
            invariant
                i <= self.listed@.len(),
                n <= i,
                wanted == (|l: Listing| l.index == index && l.scope.id == scope_id),
                n == self.listed@.take(i as int).filter(wanted).len(),
            decreases self.listed@.len() - i,
        {
            proof {
                reveal(Seq::filter);
                assert(self.listed@.take(i + 1).drop_last() =~= self.listed@.take(i as int));
            }
            if self.listed[i].index == index && self.listed[i].scope.id == scope_id {
                n = n + 1;
            }
            i = i + 1;
        }
        assert(self.listed@.take(i as int) =~= self.listed@);
        n
    }

    /// Lands every row of `journal` against `repo`, or none of them.
    pub fn commit(&mut self, repo: RepoId, journal: Journal, now: i64)
        ensures
            final(self)@ == old(self)@.committed(repo, journal@, now),
    {
        if journal.is_empty() {
            return;
        }
        let mut listed = journal.listed;
        self.listed.append(&mut listed);
        self.rows.register_segments(repo, journal.registered.as_slice());
        self.rows.retire_segments(repo, journal.retired.as_slice(), now);
        proof {
            let before = old(self)@;
            assert(self@.rows.repos =~= before.committed(repo, journal@, now).rows.repos);
        }
    }

    /// Lands it only if no other maintenance pass holds `repo`, and says
    /// whether it did.
    ///
    /// The hold lasts for as long as the write does.
    pub fn commit_held(&mut self, repo: RepoId, journal: Journal, now: i64) -> (landed: bool)
        ensures
            landed == !old(self)@.rows.rows(repo).gathering,
            forall|id: RepoId| #[trigger]
                final(self)@.rows.rows(id) == (if landed {
                    old(self)@.committed(repo, journal@, now).rows.rows(id)
                } else {
                    old(self)@.rows.rows(id)
                }),
            final(self)@.listed == (if landed {
                old(self)@.committed(repo, journal@, now).listed
            } else {
                old(self)@.listed
            }),
            final(self)@.rows.last_id == old(self)@.rows.last_id,
    {
        if !self.rows.hold_maintenance(repo) {
            return false;
        }
        self.commit(repo, journal, now);
        self.rows.release_maintenance(repo);
        true
    }

    /// Takes a repository apart: its rows, its four lists, and the row that
    /// names it.
    pub fn erase(&mut self, repo: RepoId)
        ensures
            final(self)@.rows == (MemoryState {
                repos: old(self)@.rows.repos.remove(repo.0),
                ..old(self)@.rows
            }),
            final(self)@.rows.rows(repo) == RepoRows::empty(),
            forall|id: RepoId|
                id != repo ==> #[trigger] final(self)@.rows.rows(id) == old(self)@.rows.rows(id),
            final(self)@.listed == old(self)@.listed.filter(|l: Listing| l.scope.id != repo.0),
    {
        let ghost other = |l: Listing| l.scope.id != repo.0;
        let mut left: Vec<Listing> = Vec::new();
        std::mem::swap(&mut left, &mut self.listed);
        let mut kept: Vec<Listing> = Vec::new();
        let ghost whole = left@;
        proof {
            assert(whole.filter(other) =~= left@.filter(other) + kept@);
        }
        loop
            invariant
                other == (|l: Listing| l.scope.id != repo.0),
                whole.filter(other) == left@.filter(other) + kept@,
            ensures
                kept@ == whole.filter(other),
            decreases left@.len(),
        {
            let ghost before = left@;
            let ghost done = kept@;
            match left.pop() {
                None => {
                    proof {
                        reveal(Seq::filter);
                        assert(before.filter(other) + done =~= done);
                    }
                    break;
                },
                Some(listing) => {
                    if listing.scope.id != repo.0 {
                        kept.insert(0, listing);
                    }
                    proof {
                        reveal(Seq::filter);
                        assert(before.drop_last() =~= left@);
                        assert(before.filter(other) + done =~= left@.filter(other) + kept@);
                    }
                },
            }
        }
        self.listed = kept;
        // Last, since everything else is keyed by it.
        self.rows.erase(repo);
    }
}

/// An empty journal is not a write.
pub proof fn an_empty_journal_lands_nothing(
    state: LedgerState,
    repo: RepoId,
    journal: JournalState,
    now: i64,
)
    requires
        journal.is_empty(),
    ensures
        state.committed(repo, journal, now) == state,
{
}

} // verus!
