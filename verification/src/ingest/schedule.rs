//! Which entry of a pack is worked on when.
//!
//! An entry can be blocked in two ways: one that names its base by position
//! hangs off that entry, and one that names it by id waits for an entry that
//! turns out to be it, unless the repository has it. Both are released by the
//! base's content. Released entries go to the front, so that a chain is
//! followed to its end before the next one starts.

use std::collections::VecDeque;

use vstd::prelude::*;

use crate::error::Error;
use crate::ingest::content::Content;
use crate::ingest::graph::runs;
use crate::ingest::lists::lemma_push_contains;
use crate::ingest::pack::{EntryBase, ScannedEntry};
use crate::ingest::resolve::{
    an_entry_hangs_off_its_base, capped, cost_of, dependents_by_index, hanging_off, BaseView,
    JobBase, IN_FLIGHT_BYTES, IN_FLIGHT_ENTRIES,
};
use crate::object::{Kind, ObjectId};
use crate::ordmap::OrdMap;

verus! {

/// Where an entry stands.
#[derive(Clone, Copy, Debug, PartialEq, Eq, Structural)]
pub enum Progress {
    /// Its base is not at hand.
    Blocked,
    /// Its base is at hand, and nobody works on it.
    Ready,
    /// Somebody works on it.
    Running,
    /// What it is is known.
    Done,
}

/// An entry whose base is at hand.
#[derive(Debug)]
pub struct Pending {
    pub at: usize,
    pub base: JobBase,
}

impl View for Pending {
    type V = (usize, BaseView);

    open spec fn view(&self) -> (usize, BaseView) {
        (self.at, self.base@)
    }
}

/// Where every entry of a pack stands.
#[verifier::ext_equal]
pub struct ScheduleState {
    pub entries: Seq<ScannedEntry>,
    /// What is ready, the next one first.
    pub ready: Seq<(usize, BaseView)>,
    /// Who waits for which object.
    pub waiting: Map<ObjectId, Seq<usize>>,
    pub progress: Seq<Progress>,
    pub in_flight: usize,
    pub in_flight_bytes: usize,
    /// What the entries that are done turned out to be.
    pub oids: Seq<ObjectId>,
}

/// How many entries stand like this.
pub open spec fn count(progress: Seq<Progress>, like: Progress) -> nat
    decreases progress.len(),
{
    if progress.len() == 0 {
        0
    } else {
        count(progress.drop_last(), like) + (if progress.last() == like {
            1nat
        } else {
            0nat
        })
    }
}

proof fn lemma_count_update(progress: Seq<Progress>, at: int, to: Progress, like: Progress)
    requires
        0 <= at < progress.len(),
    ensures
        count(progress.update(at, to), like) == count(progress, like) - (if progress[at] == like {
            1int
        } else {
            0int
        }) + (if to == like {
            1int
        } else {
            0int
        }),
        progress[at] == like ==> count(progress, like) > 0,
    decreases progress.len(),
{
    let shorter = progress.drop_last();
    if at == progress.len() - 1 {
        assert(progress.update(at, to).drop_last() =~= shorter);
    } else {
        assert(progress.update(at, to).drop_last() =~= shorter.update(at, to));
        lemma_count_update(shorter, at, to, like);
    }
}

proof fn lemma_count_bounds(progress: Seq<Progress>, like: Progress)
    ensures
        count(progress, like) <= progress.len(),
        count(progress, like) == progress.len() <==> forall|at: int|
            0 <= at < progress.len() ==> #[trigger] progress[at] == like,
    decreases progress.len(),
{
    if progress.len() > 0 {
        let shorter = progress.drop_last();
        lemma_count_bounds(shorter, like);
        if forall|at: int| 0 <= at < progress.len() ==> #[trigger] progress[at] == like {
            assert forall|at: int| 0 <= at < shorter.len() implies #[trigger] shorter[at]
                == like by {
                assert(progress[at] == like);
            }
        }
        if count(progress, like) == progress.len() {
            assert forall|at: int| 0 <= at < progress.len() implies #[trigger] progress[at]
                == like by {
                if at < shorter.len() {
                    assert(shorter[at] == like);
                }
            }
        }
    }
}

/// The list of those who wait for an object.
pub open spec fn waiters(waiting: Map<ObjectId, Seq<usize>>, oid: ObjectId) -> Seq<usize> {
    if waiting.contains_key(oid) {
        waiting[oid]
    } else {
        Seq::empty()
    }
}

/// What is ready and who waits at the start, given the bases that the
/// repository has.
pub open spec fn seeded(
    entries: Seq<ScannedEntry>,
    bases: Map<ObjectId, (Kind, Seq<u8>)>,
) -> (Seq<(usize, BaseView)>, Map<ObjectId, Seq<usize>>)
    decreases entries.len(),
{
    if entries.len() == 0 {
        (Seq::empty(), Map::empty())
    } else {
        let (ready, waiting) = seeded(entries.drop_last(), bases);
        let at = (entries.len() - 1) as usize;
        match entries.last().base {
            EntryBase::Whole(kind) => (ready.push((at, BaseView { kind, content: None })), waiting),
            EntryBase::InPack(_) => (ready, waiting),
            EntryBase::Ref(oid) => if bases.contains_key(oid) {
                let (kind, content) = bases[oid];
                (ready.push((at, BaseView { kind, content: Some(content) })), waiting)
            } else {
                (ready, waiting.insert(oid, waiters(waiting, oid).push(at)))
            },
        }
    }
}

/// Where an entry stands at the start.
pub open spec fn starts_as(
    entry: ScannedEntry,
    bases: Map<ObjectId, (Kind, Seq<u8>)>,
) -> Progress {
    match entry.base {
        EntryBase::Whole(_) => Progress::Ready,
        EntryBase::InPack(_) => Progress::Blocked,
        EntryBase::Ref(oid) => if bases.contains_key(oid) {
            Progress::Ready
        } else {
            Progress::Blocked
        },
    }
}

/// Entries put before those that are ready, each in front of the one before.
pub open spec fn fronted(
    released: Seq<usize>,
    base: BaseView,
    ready: Seq<(usize, BaseView)>,
) -> Seq<(usize, BaseView)> {
    Seq::new(
        released.len() + ready.len(),
        |i: int|
            if i < released.len() {
                (released[released.len() - 1 - i], base)
            } else {
                ready[i - released.len()]
            },
    )
}

/// Entries marked as ready.
pub open spec fn readied(progress: Seq<Progress>, released: Seq<usize>) -> Seq<Progress> {
    Seq::new(
        progress.len(),
        |at: int|
            if released.contains(at as usize) {
                Progress::Ready
            } else {
                progress[at]
            },
    )
}

impl ScheduleState {
    /// Whether one more entry may be worked on: as long as the count and the
    /// bytes allow it, and in any case when nothing else is.
    pub open spec fn has_room(self) -> bool {
        self.in_flight < IN_FLIGHT_ENTRIES && (self.in_flight == 0 || self.in_flight_bytes
            < IN_FLIGHT_BYTES)
    }

    /// The schedule once its next entry was handed out at a cost.
    pub open spec fn handing_out(self, cost: usize) -> ScheduleState {
        ScheduleState {
            ready: self.ready.drop_first(),
            progress: self.progress.update(self.ready[0].0 as int, Progress::Running),
            in_flight: (self.in_flight + 1) as usize,
            in_flight_bytes: capped(self.in_flight_bytes as nat, cost as nat),
            ..self
        }
    }

    /// Those that the content of entry `at`, which is `oid`, releases.
    pub open spec fn released_by(self, at: usize, oid: ObjectId) -> Seq<usize> {
        hanging_off(self.entries, at) + waiters(self.waiting, oid)
    }

    /// The schedule once entry `at` is known to be `oid`, with this content.
    pub open spec fn knowing(
        self,
        at: usize,
        cost: usize,
        oid: ObjectId,
        content: BaseView,
    ) -> ScheduleState {
        let released = self.released_by(at, oid);
        ScheduleState {
            entries: self.entries,
            ready: fronted(released, content, self.ready),
            waiting: self.waiting.remove(oid),
            progress: readied(self.progress.update(at as int, Progress::Done), released),
            in_flight: (self.in_flight - 1) as usize,
            in_flight_bytes: if self.in_flight_bytes < cost {
                0
            } else {
                (self.in_flight_bytes - cost) as usize
            },
            oids: self.oids.update(at as int, oid),
        }
    }

    /// Whether an entry's base is not at hand.
    pub open spec fn is_held_up(self, at: int) -> bool {
        match self.entries[at].base {
            EntryBase::Whole(_) => false,
            EntryBase::InPack(base) => base >= self.entries.len() || self.progress[base as int]
                != Progress::Done,
            EntryBase::Ref(oid) => waiters(self.waiting, oid).contains(at as usize),
        }
    }

    /// What is ready is so once, and nothing else is.
    #[verifier::opaque]
    pub open spec fn ready_is_ready(self) -> bool {
        &&& forall|i: int|
            0 <= i < self.ready.len() ==> (#[trigger] self.ready[i]).0 < self.progress.len()
                && self.progress[self.ready[i].0 as int] == Progress::Ready
        &&& forall|i: int, j: int|
            0 <= i < j < self.ready.len() ==> (#[trigger] self.ready[i]).0 != (
            #[trigger] self.ready[j]).0
        &&& forall|at: int|
            0 <= at < self.progress.len() && (#[trigger] self.progress[at]) == Progress::Ready
                ==> exists|i: int| 0 <= i < self.ready.len() && (#[trigger] self.ready[i]).0 == at
    }

    /// Who waits for an object is blocked by it, and listed once.
    #[verifier::opaque]
    pub open spec fn waiting_is_blocked(self) -> bool {
        &&& forall|oid: ObjectId| #[trigger]
            self.waiting.contains_key(oid) ==> self.waiting[oid].no_duplicates()
        &&& forall|oid: ObjectId, at: usize| #[trigger]
            waiters(self.waiting, oid).contains(at) ==> at < self.entries.len()
                && self.progress[at as int] == Progress::Blocked && self.entries[at as int].base
                == EntryBase::Ref(oid)
    }

    /// An entry is blocked while its base is not at hand, and no longer.
    #[verifier::opaque]
    pub open spec fn blocked_is_held_up(self) -> bool {
        &&& forall|at: int|
            #![trigger self.entries[at]]
            0 <= at < self.entries.len() && self.progress[at] == Progress::Blocked
                ==> self.is_held_up(at)
        &&& forall|at: int|
            #![trigger self.entries[at]]
            0 <= at < self.entries.len() && self.progress[at] != Progress::Blocked ==> (
            self.entries[at].base matches EntryBase::InPack(base) ==> base < self.entries.len()
                && self.progress[base as int] == Progress::Done)
    }

    /// Nobody waits for what is known.
    #[verifier::opaque]
    pub open spec fn nobody_waits_for_known(self) -> bool {
        forall|at: int|
            0 <= at < self.progress.len() && (#[trigger] self.progress[at]) == Progress::Done
                ==> !self.waiting.contains_key(self.oids[at])
    }

    /// What holds of every schedule: an entry is blocked, ready once, worked on
    /// or done, and blocked only while its base is not at hand.
    pub open spec fn is_consistent(self) -> bool {
        &&& self.entries.len() <= usize::MAX
        &&& self.progress.len() == self.entries.len()
        &&& self.oids.len() == self.entries.len()
        &&& self.in_flight == count(self.progress, Progress::Running)
        &&& self.ready_is_ready()
        &&& self.waiting_is_blocked()
        &&& self.blocked_is_held_up()
        &&& self.nobody_waits_for_known()
    }
}

/// What the start looks like.
proof fn lemma_seeded(entries: Seq<ScannedEntry>, bases: Map<ObjectId, (Kind, Seq<u8>)>)
    requires
        entries.len() <= usize::MAX,
    ensures
        ({
            let (ready, waiting) = seeded(entries, bases);
            &&& forall|i: int|
                0 <= i < ready.len() ==> (#[trigger] ready[i]).0 < entries.len() && starts_as(
                    entries[ready[i].0 as int],
                    bases,
                ) == Progress::Ready
            &&& forall|i: int, j: int|
                0 <= i < j < ready.len() ==> (#[trigger] ready[i]).0 != (#[trigger] ready[j]).0
            &&& forall|at: int|
                0 <= at < entries.len() && starts_as(#[trigger] entries[at], bases)
                    == Progress::Ready ==> exists|i: int|
                    0 <= i < ready.len() && (#[trigger] ready[i]).0 == at
            &&& forall|oid: ObjectId| #[trigger]
                waiting.contains_key(oid) ==> waiting[oid].no_duplicates()
            &&& forall|oid: ObjectId, at: usize| #[trigger]
                waiters(waiting, oid).contains(at) <==> at < entries.len()
                    && entries[at as int].base == EntryBase::Ref(oid) && !bases.contains_key(oid)
        }),
    decreases entries.len(),
{
    if entries.len() > 0 {
        let shorter = entries.drop_last();
        lemma_seeded(shorter, bases);
        let (ready0, waiting0) = seeded(shorter, bases);
        let (ready, waiting) = seeded(entries, bases);
        let last = (entries.len() - 1) as usize;
        assert forall|i: int| 0 <= i < ready.len() implies (#[trigger] ready[i]).0 < entries.len()
            && starts_as(entries[ready[i].0 as int], bases) == Progress::Ready by {
            if i < ready0.len() {
                assert(ready[i] == ready0[i]);
                assert(shorter[ready0[i].0 as int] == entries[ready0[i].0 as int]);
            }
        }
        assert forall|i: int, j: int| 0 <= i < j < ready.len() implies (#[trigger] ready[i]).0 != (
        #[trigger] ready[j]).0 by {
            assert(ready[i] == ready0[i]);
            if j < ready0.len() {
                assert(ready[j] == ready0[j]);
            }
        }
        assert forall|at: int|
            0 <= at < entries.len() && starts_as(#[trigger] entries[at], bases)
                == Progress::Ready implies exists|i: int|
            0 <= i < ready.len() && (#[trigger] ready[i]).0 == at by {
            if at < shorter.len() {
                assert(shorter[at] == entries[at]);
                let i = choose|i: int| 0 <= i < ready0.len() && (#[trigger] ready0[i]).0 == at;
                assert(ready[i].0 == at);
            } else {
                assert(ready[ready0.len() as int].0 == at);
            }
        }
        assert forall|oid: ObjectId, at: usize| #[trigger]
            waiters(waiting, oid).contains(at) <==> at < entries.len()
                && entries[at as int].base == EntryBase::Ref(oid) && !bases.contains_key(oid) by {
            let earlier = waiters(waiting0, oid);
            assert(earlier.contains(at) <==> at < shorter.len() && shorter[at as int].base
                == EntryBase::Ref(oid) && !bases.contains_key(oid));
            lemma_push_contains(earlier, last, at);
            if at < shorter.len() {
                assert(shorter[at as int] == entries[at as int]);
            }
        }
        assert forall|oid: ObjectId| #[trigger] waiting.contains_key(
            oid,
        ) implies waiting[oid].no_duplicates() by {
            let earlier = waiters(waiting0, oid);
            assert(earlier.contains(last) ==> last < shorter.len());
        }
    } else {
        let (ready, waiting) = seeded(entries, bases);
        assert forall|oid: ObjectId, at: usize| !#[trigger] waiters(waiting, oid).contains(at) by {}
    }
}

/// A schedule at its start is consistent.
proof fn lemma_start(state: ScheduleState, bases: Map<ObjectId, (Kind, Seq<u8>)>)
    requires
        state.entries.len() <= usize::MAX,
        (state.ready, state.waiting) == seeded(state.entries, bases),
        state.progress.len() == state.entries.len(),
        state.oids.len() == state.entries.len(),
        forall|at: int|
            0 <= at < state.entries.len() ==> (#[trigger] state.progress[at]) == starts_as(
                state.entries[at],
                bases,
            ),
        state.in_flight == 0,
    ensures
        state.is_consistent(),
        count(state.progress, Progress::Done) == 0,
{
    lemma_none(state.progress, Progress::Running);
    lemma_none(state.progress, Progress::Done);
    assert(state.ready == seeded(state.entries, bases).0);
    assert(state.waiting == seeded(state.entries, bases).1);
    assert(state.ready_is_ready()) by {
        reveal(ScheduleState::ready_is_ready);
        lemma_seeded(state.entries, bases);
        assert forall|i: int| 0 <= i < state.ready.len() implies (#[trigger] state.ready[i]).0
            < state.progress.len() && state.progress[state.ready[i].0 as int]
            == Progress::Ready by {
            assert(state.progress[state.ready[i].0 as int] == starts_as(
                state.entries[state.ready[i].0 as int],
                bases,
            ));
        }
        assert forall|at: int|
            0 <= at < state.progress.len() && (#[trigger] state.progress[at])
                == Progress::Ready implies exists|i: int|
            0 <= i < state.ready.len() && (#[trigger] state.ready[i]).0 == at by {
            assert(starts_as(state.entries[at], bases) == Progress::Ready);
        }
    }
    assert(state.waiting_is_blocked()) by {
        reveal(ScheduleState::waiting_is_blocked);
        lemma_seeded(state.entries, bases);
        assert forall|oid: ObjectId, at: usize| #[trigger]
            waiters(state.waiting, oid).contains(at) implies at < state.entries.len()
            && state.progress[at as int] == Progress::Blocked && state.entries[at as int].base
            == EntryBase::Ref(oid) by {
            assert(state.progress[at as int] == starts_as(state.entries[at as int], bases));
        }
    }
    assert(state.blocked_is_held_up()) by {
        reveal(ScheduleState::blocked_is_held_up);
        lemma_seeded(state.entries, bases);
        assert forall|at: int|
            #![trigger state.entries[at]]
            0 <= at < state.entries.len() && state.progress[at]
                == Progress::Blocked implies state.is_held_up(at) by {
            assert(starts_as(state.entries[at], bases) == Progress::Blocked);
            if let EntryBase::Ref(oid) = state.entries[at].base {
                assert(waiters(state.waiting, oid).contains(at as usize));
            }
        }
    }
    assert(state.nobody_waits_for_known()) by {
        reveal(ScheduleState::nobody_waits_for_known);
    }
}

proof fn lemma_none(progress: Seq<Progress>, like: Progress)
    requires
        forall|at: int| 0 <= at < progress.len() ==> #[trigger] progress[at] != like,
    ensures
        count(progress, like) == 0,
    decreases progress.len(),
{
    if progress.len() > 0 {
        let shorter = progress.drop_last();
        assert forall|at: int| 0 <= at < shorter.len() implies #[trigger] shorter[at] != like by {
            assert(progress[at] != like);
        }
        assert(progress[progress.len() - 1] != like);
        lemma_none(shorter, like);
    }
}

/// Handing an entry out leaves a schedule consistent.
proof fn lemma_hand_out(state: ScheduleState, cost: usize)
    requires
        state.is_consistent(),
        state.ready.len() > 0,
        state.in_flight < IN_FLIGHT_ENTRIES,
    ensures
        state.handing_out(cost).is_consistent(),
        count(state.handing_out(cost).progress, Progress::Done) == count(
            state.progress,
            Progress::Done,
        ),
{
    let next = state.handing_out(cost);
    let at = state.ready[0].0 as int;
    assert(at < state.progress.len() && state.progress[at] == Progress::Ready) by {
        reveal(ScheduleState::ready_is_ready);
    }
    lemma_count_update(state.progress, at, Progress::Running, Progress::Running);
    lemma_count_update(state.progress, at, Progress::Running, Progress::Done);
    assert(next.ready_is_ready()) by {
        reveal(ScheduleState::ready_is_ready);
        assert forall|i: int| 0 <= i < next.ready.len() implies (#[trigger] next.ready[i]).0
            < next.progress.len() && next.progress[next.ready[i].0 as int] == Progress::Ready by {
            assert(next.ready[i] == state.ready[i + 1]);
            assert(state.ready[0].0 != state.ready[i + 1].0);
        }
        assert forall|i: int, j: int| 0 <= i < j < next.ready.len() implies (
        #[trigger] next.ready[i]).0 != (#[trigger] next.ready[j]).0 by {
            assert(state.ready[i + 1].0 != state.ready[j + 1].0);
        }
        assert forall|a: int|
            0 <= a < next.progress.len() && (#[trigger] next.progress[a])
                == Progress::Ready implies exists|i: int|
            0 <= i < next.ready.len() && (#[trigger] next.ready[i]).0 == a by {
            assert(state.progress[a] == Progress::Ready);
            let i = choose|i: int| 0 <= i < state.ready.len() && (#[trigger] state.ready[i]).0 == a;
            assert(i > 0);
            assert(next.ready[i - 1].0 == a);
        }
    }
    assert(next.waiting_is_blocked()) by {
        reveal(ScheduleState::waiting_is_blocked);
        assert forall|oid: ObjectId, a: usize| #[trigger]
            waiters(next.waiting, oid).contains(a) implies a < next.entries.len()
            && next.progress[a as int] == Progress::Blocked && next.entries[a as int].base
            == EntryBase::Ref(oid) by {
            assert(waiters(state.waiting, oid).contains(a));
        }
    }
    assert(next.blocked_is_held_up()) by {
        reveal(ScheduleState::blocked_is_held_up);
        assert forall|a: int|
            #![trigger next.entries[a]]
            0 <= a < next.entries.len() && next.progress[a]
                == Progress::Blocked implies next.is_held_up(a) by {
            assert(state.entries[a] == next.entries[a]);
            assert(state.is_held_up(a));
        }
    }
    assert(next.nobody_waits_for_known()) by {
        reveal(ScheduleState::nobody_waits_for_known);
        assert forall|a: int|
            0 <= a < next.progress.len() && (#[trigger] next.progress[a])
                == Progress::Done implies !next.waiting.contains_key(next.oids[a]) by {
            assert(state.progress[a] == Progress::Done);
        }
    }
}

/// What a released run looks like: each once, all of them blocked so far.
proof fn lemma_released(state: ScheduleState, at: usize, oid: ObjectId)
    requires
        state.is_consistent(),
        at < state.entries.len(),
        state.progress[at as int] == Progress::Running,
    ensures
        state.released_by(at, oid).no_duplicates(),
        forall|a: usize| #[trigger]
            state.released_by(at, oid).contains(a) <==> hanging_off(state.entries, at).contains(a)
                || waiters(state.waiting, oid).contains(a),
        forall|a: usize| #[trigger]
            state.released_by(at, oid).contains(a) ==> a < state.entries.len()
                && state.progress[a as int] == Progress::Blocked && a != at,
{
    let hanging = hanging_off(state.entries, at);
    let waits = waiters(state.waiting, oid);
    let released = state.released_by(at, oid);
    an_entry_hangs_off_its_base(state.entries, at);
    assert(waits.no_duplicates() && forall|a: usize| #[trigger]
        waits.contains(a) ==> a < state.entries.len() && state.progress[a as int]
            == Progress::Blocked && state.entries[a as int].base == EntryBase::Ref(oid)) by {
        reveal(ScheduleState::waiting_is_blocked);
    }
    assert forall|a: usize| #[trigger] released.contains(a) <==> hanging.contains(a)
        || waits.contains(a) by {
        if released.contains(a) {
            let i = choose|i: int| 0 <= i < released.len() && released[i] == a;
            if i < hanging.len() {
                assert(hanging[i] == a);
            } else {
                assert(waits[i - hanging.len()] == a);
            }
        }
        if hanging.contains(a) {
            let i = choose|i: int| 0 <= i < hanging.len() && hanging[i] == a;
            assert(released[i] == a);
        }
        if waits.contains(a) {
            let i = choose|i: int| 0 <= i < waits.len() && waits[i] == a;
            assert(released[hanging.len() + i] == a);
        }
    }
    assert forall|a: usize| #[trigger] released.contains(a) implies a < state.entries.len()
        && state.progress[a as int] == Progress::Blocked && a != at by {
        if hanging.contains(a) {
            if state.progress[a as int] != Progress::Blocked {
                reveal(ScheduleState::blocked_is_held_up);
                assert(state.entries[a as int].base == EntryBase::InPack(at));
                assert(state.progress[at as int] == Progress::Done);
            }
        }
    }
    assert(released.no_duplicates()) by {
        assert forall|i: int, j: int|
            0 <= i < released.len() && 0 <= j < released.len() && i != j implies released[i]
            != released[j] by {
            let h = hanging.len() as int;
            if i < h && j >= h {
                assert(hanging.contains(hanging[i]));
                assert(waits.contains(waits[j - h]));
            } else if i >= h && j < h {
                assert(hanging.contains(hanging[j]));
                assert(waits.contains(waits[i - h]));
            } else if i >= h {
                assert(waits[i - h] != waits[j - h]);
            }
        }
    }
}

/// Knowing an entry leaves a schedule consistent, with one more known.
proof fn lemma_know(
    state: ScheduleState,
    at: usize,
    cost: usize,
    oid: ObjectId,
    content: BaseView,
)
    requires
        state.is_consistent(),
        at < state.entries.len(),
        state.progress[at as int] == Progress::Running,
    ensures
        state.knowing(at, cost, oid, content).is_consistent(),
        count(state.knowing(at, cost, oid, content).progress, Progress::Done) == count(
            state.progress,
            Progress::Done,
        ) + 1,
        state.in_flight > 0,
{
    let next = state.knowing(at, cost, oid, content);
    let released = state.released_by(at, oid);
    let marked = state.progress.update(at as int, Progress::Done);
    lemma_released(state, at, oid);
    lemma_count_update(state.progress, at as int, Progress::Done, Progress::Running);
    lemma_count_update(state.progress, at as int, Progress::Done, Progress::Done);
    lemma_readied(marked, released, Progress::Running);
    lemma_readied(marked, released, Progress::Done);
    let r = released.len() as int;
    assert(next.ready_is_ready()) by {
        reveal(ScheduleState::ready_is_ready);
        assert forall|i: int| 0 <= i < next.ready.len() implies (#[trigger] next.ready[i]).0
            < next.progress.len() && next.progress[next.ready[i].0 as int] == Progress::Ready by {
            if i < r {
                assert(released.contains(released[r - 1 - i]));
            } else {
                let a = state.ready[i - r].0;
                assert(state.progress[a as int] == Progress::Ready);
                assert(!released.contains(a));
            }
        }
        assert forall|i: int, j: int| 0 <= i < j < next.ready.len() implies (
        #[trigger] next.ready[i]).0 != (#[trigger] next.ready[j]).0 by {
            if j < r {
                assert(released[r - 1 - i] != released[r - 1 - j]);
            } else if i < r {
                assert(released.contains(released[r - 1 - i]));
                assert(state.progress[state.ready[j - r].0 as int] == Progress::Ready);
            } else {
                assert(state.ready[i - r].0 != state.ready[j - r].0);
            }
        }
        assert forall|a: int|
            0 <= a < next.progress.len() && (#[trigger] next.progress[a])
                == Progress::Ready implies exists|i: int|
            0 <= i < next.ready.len() && (#[trigger] next.ready[i]).0 == a by {
            if released.contains(a as usize) {
                let k = choose|k: int| 0 <= k < r && released[k] == a as usize;
                assert(next.ready[r - 1 - k].0 == a);
            } else {
                assert(state.progress[a] == Progress::Ready);
                let i = choose|i: int|
                    0 <= i < state.ready.len() && (#[trigger] state.ready[i]).0 == a;
                assert(next.ready[r + i].0 == a);
            }
        }
    }
    assert(next.waiting_is_blocked()) by {
        reveal(ScheduleState::waiting_is_blocked);
        assert forall|other: ObjectId| #[trigger] next.waiting.contains_key(
            other,
        ) implies next.waiting[other].no_duplicates() by {
            assert(state.waiting.contains_key(other));
        }
        assert forall|other: ObjectId, a: usize| #[trigger]
            waiters(next.waiting, other).contains(a) implies a < next.entries.len()
            && next.progress[a as int] == Progress::Blocked && next.entries[a as int].base
            == EntryBase::Ref(other) by {
            assert(other != oid);
            assert(waiters(state.waiting, other).contains(a));
            if released.contains(a) {
                if hanging_off(state.entries, at).contains(a) {
                    an_entry_hangs_off_its_base(state.entries, at);
                } else {
                    assert(waiters(state.waiting, oid).contains(a));
                }
            }
        }
    }
    assert(next.blocked_is_held_up()) by {
        reveal(ScheduleState::blocked_is_held_up);
        an_entry_hangs_off_its_base(state.entries, at);
        assert forall|a: int|
            #![trigger next.entries[a]]
            0 <= a < next.entries.len() && next.progress[a]
                == Progress::Blocked implies next.is_held_up(a) by {
            assert(state.entries[a] == next.entries[a]);
            assert(!released.contains(a as usize));
            assert(state.progress[a] == Progress::Blocked);
            assert(state.is_held_up(a));
            match state.entries[a].base {
                EntryBase::Whole(_) => {},
                EntryBase::InPack(base) => {
                    if base < state.entries.len() {
                        assert(!hanging_off(state.entries, at).contains(a as usize));
                        assert(base != at);
                        assert(next.progress[base as int] != Progress::Done);
                    }
                },
                EntryBase::Ref(other) => {
                    assert(other != oid);
                },
            }
        }
        assert forall|a: int|
            #![trigger next.entries[a]]
            0 <= a < next.entries.len() && next.progress[a] != Progress::Blocked implies (
        next.entries[a].base matches EntryBase::InPack(base) ==> base < next.entries.len()
            && next.progress[base as int] == Progress::Done) by {
            assert(state.entries[a] == next.entries[a]);
            if let EntryBase::InPack(base) = next.entries[a].base {
                if released.contains(a as usize) {
                    if !hanging_off(state.entries, at).contains(a as usize) {
                        reveal(ScheduleState::waiting_is_blocked);
                        assert(waiters(state.waiting, oid).contains(a as usize));
                    }
                    assert(base == at);
                    assert(!released.contains(at));
                } else {
                    assert(state.progress[a] != Progress::Blocked);
                    assert(state.progress[base as int] == Progress::Done);
                    assert(!released.contains(base));
                }
            }
        }
    }
    assert(next.nobody_waits_for_known()) by {
        reveal(ScheduleState::nobody_waits_for_known);
        assert forall|a: int|
            0 <= a < next.progress.len() && (#[trigger] next.progress[a])
                == Progress::Done implies !next.waiting.contains_key(next.oids[a]) by {
            if a != at {
                assert(state.progress[a] == Progress::Done);
            }
        }
    }
}

/// Readying blocked entries changes no other count.
proof fn lemma_readied(progress: Seq<Progress>, released: Seq<usize>, like: Progress)
    requires
        progress.len() <= usize::MAX,
        forall|a: usize| #[trigger]
            released.contains(a) ==> a < progress.len() && progress[a as int] == Progress::Blocked,
        like == Progress::Running || like == Progress::Done,
    ensures
        count(readied(progress, released), like) == count(progress, like),
{
    lemma_same_count(progress, readied(progress, released), like);
}

proof fn lemma_same_count(a: Seq<Progress>, b: Seq<Progress>, like: Progress)
    requires
        a.len() == b.len(),
        forall|i: int| 0 <= i < a.len() ==> (#[trigger] a[i] == like <==> b[i] == like),
    ensures
        count(a, like) == count(b, like),
    decreases a.len(),
{
    if a.len() > 0 {
        let x = a.drop_last();
        let y = b.drop_last();
        assert forall|i: int| 0 <= i < x.len() implies (#[trigger] x[i] == like <==> y[i]
            == like) by {
            assert(a[i] == x[i]);
        }
        assert(a[a.len() - 1] == like <==> b[a.len() - 1] == like);
        lemma_same_count(x, y, like);
    }
}

/// The schedule of one pack.
#[derive(Debug)]
pub struct Schedule {
    entries: Vec<ScannedEntry>,
    by_index: Vec<Vec<usize>>,
    by_id: OrdMap<ObjectId, Vec<usize>>,
    ready: VecDeque<Pending>,
    progress: Vec<Progress>,
    in_flight: usize,
    in_flight_bytes: usize,
    identified: usize,
    oids: Vec<ObjectId>,
}

/// What was given of the repository's objects.
pub open spec fn base_contents(bases: Map<ObjectId, (Kind, Content)>) -> Map<
    ObjectId,
    (Kind, Seq<u8>),
> {
    Map::new(|oid: ObjectId| bases.contains_key(oid), |oid: ObjectId| (bases[oid].0, bases[oid].1@))
}

impl View for Schedule {
    type V = ScheduleState;

    closed spec fn view(&self) -> ScheduleState {
        ScheduleState {
            entries: self.entries@,
            ready: self.ready@.map_values(|pending: Pending| pending@),
            waiting: runs(self.by_id@),
            progress: self.progress@,
            in_flight: self.in_flight,
            in_flight_bytes: self.in_flight_bytes,
            oids: self.oids@,
        }
    }
}

impl Schedule {
    pub closed spec fn wf(self) -> bool {
        &&& self@.is_consistent()
        &&& self.identified == count(self.progress@, Progress::Done)
        &&& self.by_index@.len() == self.entries@.len()
        &&& forall|base: int|
            0 <= base < self.entries@.len() ==> (#[trigger] self.by_index@[base])@ == hanging_off(
                self.entries@,
                base as usize,
            )
    }

    /// Start on a pack, given what the repository has of the bases that its
    /// entries name by id.
    pub fn new(entries: Vec<ScannedEntry>, bases: &OrdMap<ObjectId, (Kind, Content)>) -> (schedule:
        Schedule)
        ensures
            schedule.wf(),
            schedule@.entries == entries@,
            (schedule@.ready, schedule@.waiting) == seeded(entries@, base_contents(bases@)),
            forall|at: int|
                0 <= at < entries@.len() ==> (#[trigger] schedule@.progress[at]) == starts_as(
                    entries@[at],
                    base_contents(bases@),
                ),
            schedule@.in_flight == 0,
            schedule@.in_flight_bytes == 0,
    {
        let ghost given = base_contents(bases@);
        let ghost shown = |pending: Pending| pending@;
        let by_index = dependents_by_index(entries.as_slice());
        let mut by_id: OrdMap<ObjectId, Vec<usize>> = OrdMap::new();
        let mut ready: VecDeque<Pending> = VecDeque::new();
        let mut progress: Vec<Progress> = Vec::new();
        let mut oids: Vec<ObjectId> = Vec::new();
        let mut at: usize = 0;
        proof {
            assert(entries@.take(0) =~= Seq::<ScannedEntry>::empty());
            assert(ready@.map_values(shown) =~= Seq::<(usize, BaseView)>::empty());
            assert(runs(by_id@) =~= Map::<ObjectId, Seq<usize>>::empty());
        }
        while at < entries.len()
            invariant
                at <= entries@.len(),
                given == base_contents(bases@),
                shown == (|pending: Pending| pending@),
                progress@.len() == at,
                oids@.len() == at,
                forall|k: int|
                    0 <= k < at ==> (#[trigger] progress@[k]) == starts_as(entries@[k], given),
                (ready@.map_values(shown), runs(by_id@)) == seeded(entries@.take(at as int), given),
            decreases entries@.len() - at,
        {
            let ghost ready0 = ready@;
            let ghost waiting0 = runs(by_id@);
            assert(entries@.take(at as int + 1).drop_last() =~= entries@.take(at as int));
            match entries[at].base {
                EntryBase::Whole(kind) => {
                    ready.push_back(Pending { at, base: JobBase { kind, content: None } });
                    progress.push(Progress::Ready);
                    assert(ready@.map_values(shown) =~= ready0.map_values(shown).push(
                        (at, BaseView { kind, content: None }),
                    ));
                },
                EntryBase::InPack(_) => {
                    progress.push(Progress::Blocked);
                },
                EntryBase::Ref(oid) => {
                    match bases.get(&oid) {
                        Some((kind, content)) => {
                            ready.push_back(
                                Pending {
                                    at,
                                    base: JobBase { kind: *kind, content: Some(content.share()) },
                                },
                            );
                            progress.push(Progress::Ready);
                            assert(given.contains_key(oid));
                            assert(ready@.map_values(shown) =~= ready0.map_values(shown).push(
                                (at, BaseView { kind: *kind, content: Some(content@) }),
                            ));
                        },
                        None => {
                            assert(!given.contains_key(oid));
                            let mut list: Vec<usize> = match by_id.remove(&oid) {
                                Some(list) => list,
                                None => Vec::new(),
                            };
                            assert(list@ =~= waiters(waiting0, oid));
                            list.push(at);
                            let _ = by_id.insert(oid, list);
                            progress.push(Progress::Blocked);
                            assert(runs(by_id@) =~= waiting0.insert(
                                oid,
                                waiters(waiting0, oid).push(at),
                            ));
                        },
                    }
                },
            }
            oids.push(ObjectId::null());
            at += 1;
        }
        assert(entries@.take(at as int) =~= entries@);
        let schedule = Schedule {
            entries,
            by_index,
            by_id,
            ready,
            progress,
            in_flight: 0,
            in_flight_bytes: 0,
            identified: 0,
            oids,
        };
        proof {
            lemma_start(schedule@, given);
        }
        schedule
    }

    /// The next entry to work on, with what it costs while it is, or none while
    /// there is no room or nothing is ready.
    pub fn next(&mut self) -> (job: Option<(Pending, usize)>)
        requires
            old(self).wf(),
        ensures
            final(self).wf(),
            match job {
                Some((pending, cost)) => {
                    &&& old(self)@.has_room()
                    &&& old(self)@.ready.len() > 0
                    &&& pending@ == old(self)@.ready[0]
                    &&& pending.at < old(self)@.entries.len()
                    &&& cost == capped(
                        match pending.base@.content {
                            Some(content) => content.len(),
                            None => 0,
                        },
                        old(self)@.entries[pending.at as int].decompressed_size as nat,
                    )
                    &&& final(self)@ == old(self)@.handing_out(cost)
                },
                None => {
                    &&& !(old(self)@.has_room() && old(self)@.ready.len() > 0)
                    &&& final(self)@ == old(self)@
                },
            },
    {
        let ghost before = self@;
        let ghost shown = |pending: Pending| pending@;
        if !(self.in_flight < IN_FLIGHT_ENTRIES && (self.in_flight == 0 || self.in_flight_bytes
            < IN_FLIGHT_BYTES)) {
            return None;
        }
        let ghost ready0 = self.ready@;
        match self.ready.pop_front() {
            None => {
                assert(self@ =~= before);
                None
            },
            Some(pending) => {
                let at: usize = pending.at;
                proof {
                    assert(before.ready[0] == pending@);
                    reveal(ScheduleState::ready_is_ready);
                    assert(before.ready[0].0 < before.progress.len());
                }
                let cost: usize = cost_of(&self.entries[at], &pending.base);
                self.in_flight_bytes = self.in_flight_bytes.saturating_add(cost);
                self.in_flight = self.in_flight + 1;
                self.progress.set(at, Progress::Running);
                proof {
                    lemma_hand_out(before, cost);
                    assert(self@.ready =~= before.ready.drop_first());
                    assert(self@ =~= before.handing_out(cost));
                }
                Some((pending, cost))
            },
        }
    }

    /// Whether somebody works on entry `at`.
    pub fn is_running(&self, at: usize) -> (running: bool)
        requires
            self.wf(),
        ensures
            running == (at < self@.progress.len() && self@.progress[at as int]
                == Progress::Running),
    {
        at < self.progress.len() && self.progress[at] == Progress::Running
    }

    /// Take in what entry `at` turned out to be, and release what it blocked.
    pub fn record(&mut self, at: usize, cost: usize, oid: ObjectId, kind: Kind, content: &Content)
        requires
            old(self).wf(),
            at < old(self)@.progress.len(),
            old(self)@.progress[at as int] == Progress::Running,
        ensures
            final(self).wf(),
            final(self)@ == old(self)@.knowing(
                at,
                cost,
                oid,
                (BaseView { kind, content: Some(content@) }),
            ),
    {
        let ghost before = self@;
        let ghost base = BaseView { kind, content: Some(content@) };
        let ghost shown = |pending: Pending| pending@;
        let ghost released = before.released_by(at, oid);
        let ghost hanging = hanging_off(before.entries, at);
        let ghost waits = waiters(before.waiting, oid);
        proof {
            lemma_know(before, at, cost, oid, base);
            lemma_released(before, at, oid);
            lemma_count_bounds(before.progress, Progress::Done);
            lemma_count_bounds(before.knowing(at, cost, oid, base).progress, Progress::Done);
        }
        self.identified = self.identified + 1;
        self.in_flight = self.in_flight - 1;
        self.in_flight_bytes = self.in_flight_bytes.saturating_sub(cost);
        self.oids.set(at, oid);
        self.progress.set(at, Progress::Done);
        let waiting: Vec<usize> = match self.by_id.remove(&oid) {
            Some(list) => list,
            None => Vec::new(),
        };
        assert(waiting@ =~= waits);
        assert(runs(self.by_id@) =~= before.waiting.remove(oid));
        let ghost marked = before.progress.update(at as int, Progress::Done);
        let ghost fixed = *self;
        proof {
            assert(released.take(0) =~= Seq::<usize>::empty());
            assert(self.ready@.map_values(shown) =~= fronted(
                released.take(0),
                base,
                before.ready,
            ));
            assert(self.progress@ =~= readied(marked, released.take(0)));
        }
        let total: usize = self.by_index[at].len();
        let mut i: usize = 0;
        while i < total
            invariant
                i <= total,
                total == hanging.len(),
                at < before.entries.len(),
                shown == (|pending: Pending| pending@),
                base == (BaseView { kind, content: Some(content@) }),
                released == hanging + waits,
                self.entries@ == before.entries,
                self.by_index == fixed.by_index,
                self.by_index@.len() == before.entries.len(),
                self.by_index@[at as int]@ == hanging,
                self.by_id == fixed.by_id,
                self.oids == fixed.oids,
                self.in_flight == fixed.in_flight,
                self.in_flight_bytes == fixed.in_flight_bytes,
                self.identified == fixed.identified,
                marked.len() == before.entries.len(),
                forall|a: usize| #[trigger] released.contains(a) ==> a < marked.len(),
                self.ready@.map_values(shown) == fronted(
                    released.take(i as int),
                    base,
                    before.ready,
                ),
                self.progress@ == readied(marked, released.take(i as int)),
            decreases total - i,
        {
            let blocked: usize = self.by_index[at][i];
            assert(released[i as int] == blocked);
            assert(released.contains(blocked));
            self.release(
                blocked,
                kind,
                content,
                Ghost(marked),
                Ghost(released.take(i as int)),
                Ghost(before.ready),
            );
            assert(released.take(i as int + 1) =~= released.take(i as int).push(blocked));
            i += 1;
        }
        let ghost h = hanging.len() as int;
        let mut k: usize = 0;
        while k < waiting.len()
            invariant
                k <= waiting@.len(),
                waiting@ == waits,
                h == hanging.len(),
                shown == (|pending: Pending| pending@),
                base == (BaseView { kind, content: Some(content@) }),
                released == hanging + waits,
                self.entries@ == before.entries,
                self.by_index == fixed.by_index,
                self.by_id == fixed.by_id,
                self.oids == fixed.oids,
                self.in_flight == fixed.in_flight,
                self.in_flight_bytes == fixed.in_flight_bytes,
                self.identified == fixed.identified,
                marked.len() == before.entries.len(),
                forall|a: usize| #[trigger] released.contains(a) ==> a < marked.len(),
                self.ready@.map_values(shown) == fronted(released.take(h + k), base, before.ready),
                self.progress@ == readied(marked, released.take(h + k)),
            decreases waiting@.len() - k,
        {
            let blocked: usize = waiting[k];
            assert(released[h + k] == blocked);
            assert(released.contains(blocked));
            self.release(
                blocked,
                kind,
                content,
                Ghost(marked),
                Ghost(released.take(h + k)),
                Ghost(before.ready),
            );
            assert(released.take(h + k + 1) =~= released.take(h + k).push(blocked));
            k += 1;
        }
        proof {
            assert(released.take(h + k) =~= released);
            assert(self@ =~= before.knowing(at, cost, oid, base));
        }
    }

    /// Put a released entry in front of those that are ready.
    fn release(
        &mut self,
        blocked: usize,
        kind: Kind,
        content: &Content,
        Ghost(marked): Ghost<Seq<Progress>>,
        Ghost(released): Ghost<Seq<usize>>,
        Ghost(ready): Ghost<Seq<(usize, BaseView)>>,
    )
        requires
            old(self).ready@.map_values(|pending: Pending| pending@) == fronted(
                released,
                (BaseView { kind, content: Some(content@) }),
                ready,
            ),
            old(self).progress@ == readied(marked, released),
            blocked < marked.len(),
        ensures
            final(self).ready@.map_values(|pending: Pending| pending@) == fronted(
                released.push(blocked),
                (BaseView { kind, content: Some(content@) }),
                ready,
            ),
            final(self).progress@ == readied(marked, released.push(blocked)),
            final(self).entries == old(self).entries,
            final(self).by_index == old(self).by_index,
            final(self).by_id == old(self).by_id,
            final(self).oids == old(self).oids,
            final(self).in_flight == old(self).in_flight,
            final(self).in_flight_bytes == old(self).in_flight_bytes,
            final(self).identified == old(self).identified,
    {
        let ghost base = BaseView { kind, content: Some(content@) };
        let ghost shown = |pending: Pending| pending@;
        let ghost before = self.ready@.map_values(shown);
        self.ready.push_front(
            Pending { at: blocked, base: JobBase { kind, content: Some(content.share()) } },
        );
        self.progress.set(blocked, Progress::Ready);
        let n: usize = self.progress.len();
        proof {
            assert(marked.len() == n);
            let longer = released.push(blocked);
            assert(self.ready@.map_values(shown) =~= seq![(blocked, base)] + before);
            assert(seq![(blocked, base)] + fronted(released, base, ready) =~= fronted(
                longer,
                base,
                ready,
            ));
            assert(self.progress@ =~= readied(marked, longer)) by {
                assert forall|at: int| 0 <= at < marked.len() implies #[trigger] self.progress@[at]
                    == readied(marked, longer)[at] by {
                    lemma_push_contains(released, blocked, at as usize);
                }
            }
        }
    }

    /// How many entries are known.
    pub fn identified(&self) -> (n: usize)
        requires
            self.wf(),
        ensures
            n == count(self@.progress, Progress::Done),
    {
        self.identified
    }

    /// Whether nothing is worked on and nothing is ready.
    pub fn is_at_rest(&self) -> (at_rest: bool)
        ensures
            at_rest == (self@.in_flight == 0 && self@.ready.len() == 0),
    {
        self.in_flight == 0 && self.ready.len() == 0
    }

    /// What each entry turned out to be, once nothing is left to work on.
    ///
    /// Fails where some entry is not known: then its base is neither in the
    /// pack nor stored.
    pub fn finish(self) -> (oids: Result<Vec<ObjectId>, Error>)
        requires
            self.wf(),
        ensures
            match oids {
                Ok(oids) => {
                    &&& forall|at: int|
                        0 <= at < self@.progress.len() ==> #[trigger] self@.progress[at]
                            == Progress::Done
                    &&& oids@ == self@.oids
                },
                Err(error) => error == Error::BasesMissing && exists|at: int|
                    0 <= at < self@.progress.len() && #[trigger] self@.progress[at]
                        != Progress::Done,
            },
    {
        proof {
            lemma_count_bounds(self.progress@, Progress::Done);
        }
        if self.identified == self.entries.len() {
            Ok(self.oids)
        } else {
            Err(Error::BasesMissing)
        }
    }
}

/// Once nothing is left to work on, an entry that is not known deltas against
/// one that is not known either, or against an object that no entry of the pack
/// turned out to be.
pub proof fn what_is_left_lacks_its_base(state: ScheduleState, at: int)
    requires
        state.is_consistent(),
        state.in_flight == 0,
        state.ready.len() == 0,
        0 <= at < state.entries.len(),
        state.progress[at] != Progress::Done,
    ensures
        match state.entries[at].base {
            EntryBase::Whole(_) => false,
            EntryBase::InPack(base) => base >= state.entries.len() || state.progress[base as int]
                != Progress::Done,
            EntryBase::Ref(oid) => forall|other: int|
                0 <= other < state.entries.len() && #[trigger] state.progress[other]
                    == Progress::Done ==> state.oids[other] != oid,
        },
{
    reveal(ScheduleState::ready_is_ready);
    reveal(ScheduleState::blocked_is_held_up);
    reveal(ScheduleState::nobody_waits_for_known);
    if state.progress[at] == Progress::Running {
        lemma_count_update(state.progress, at, Progress::Running, Progress::Running);
    }
    assert(state.progress[at] == Progress::Blocked);
    assert(state.entries[at] == state.entries[at]);
    assert(state.is_held_up(at));
}

} // verus!
