//! Walks over the object index that read as they go.
//!
//! A walk says what it wants read next, is handed what was read, and goes on
//! from there; nothing here reads anything itself.

use vstd::prelude::*;

use crate::deps::bitmap::{treemap_insert, treemap_union, treemap_values};
use crate::model::{CommitPackLocation, PackImageLocation};
use crate::objects::format::ObjectView;
use crate::objects::index::{Object, ObjectIndex};
use crate::objects::location::Location;
use crate::objects::read::{children_in, introducing_of};
use crate::seqs::{ObjectSeqs, SeqSets};

verus! {

/// The trees that some tree of `from` has as direct entries.
pub open spec fn trees_below(index: Map<u64, ObjectView>, from: Set<u64>) -> Set<u64> {
    Set::new(
        |seq: u64| exists|tree: u64| from.contains(tree) && (#[trigger] children_in(
            index,
            tree,
        )).trees.contains(seq),
    )
}

/// The blobs that some tree of `from` has as direct entries.
pub open spec fn blobs_below(index: Map<u64, ObjectView>, from: Set<u64>) -> Set<u64> {
    Set::new(
        |seq: u64| exists|tree: u64| from.contains(tree) && (#[trigger] children_in(
            index,
            tree,
        )).blobs.contains(seq),
    )
}

/// The trees within `depth` steps of `roots`.
pub open spec fn trees_within(index: Map<u64, ObjectView>, roots: Set<u64>, depth: nat) -> Set<u64>
    decreases depth,
{
    if depth == 0 {
        roots
    } else {
        let nearer = trees_within(index, roots, (depth - 1) as nat);
        nearer.union(trees_below(index, nearer))
    }
}

/// Where a tree walk stands.
#[verifier::ext_equal]
pub struct TreeWalkState {
    /// Every tree and blob met so far.
    pub seen: SeqSets,
    /// The trees whose entries are wanted next.
    pub frontier: Set<u64>,
}

impl TreeWalkState {
    /// Where the walk stands once the entries of its frontier were read from
    /// `index`.
    ///
    /// Only trees go back on the frontier: a blob has no entries.
    pub open spec fn stepped(self, index: Map<u64, ObjectView>) -> TreeWalkState {
        let trees = trees_below(index, self.frontier);
        TreeWalkState {
            seen: SeqSets {
                trees: self.seen.trees.union(trees),
                blobs: self.seen.blobs.union(blobs_below(index, self.frontier)),
            },
            frontier: trees.difference(self.seen.trees),
        }
    }

    /// Whether the walk from `roots` has met all trees within `depth` steps and
    /// all blobs short of that.
    pub open spec fn is_at(
        self,
        index: Map<u64, ObjectView>,
        roots: Set<u64>,
        depth: nat,
    ) -> bool {
        &&& self.seen.trees == trees_within(index, roots, depth)
        &&& if depth == 0 {
            self.seen.blobs == Set::<u64>::empty() && self.frontier == roots
        } else {
            let nearer = trees_within(index, roots, (depth - 1) as nat);
            &&& self.seen.blobs == blobs_below(index, nearer)
            &&& self.frontier == self.seen.trees.difference(nearer)
        }
    }
}

/// Each step of a tree walk goes one level deeper.
pub proof fn a_step_goes_one_deeper(
    state: TreeWalkState,
    index: Map<u64, ObjectView>,
    roots: Set<u64>,
    depth: nat,
)
    requires
        state.is_at(index, roots, depth),
    ensures
        state.stepped(index).is_at(index, roots, depth + 1),
{
    let next = state.stepped(index);
    let here = trees_within(index, roots, depth);
    if depth == 0 {
        assert(next.seen.trees =~= trees_within(index, roots, 1));
        assert(next.seen.blobs =~= blobs_below(index, here));
        assert(next.frontier =~= next.seen.trees.difference(here));
    } else {
        let nearer = trees_within(index, roots, (depth - 1) as nat);
        assert forall|seq: u64|
            {
                &&& #[trigger] here.union(trees_below(index, state.frontier)).contains(seq)
                    <==> here.union(trees_below(index, here)).contains(seq)
            } by {
            if trees_below(index, here).contains(seq) {
                let tree = choose|tree: u64|
                    here.contains(tree) && (#[trigger] children_in(index, tree)).trees.contains(
                        seq,
                    );
                if nearer.contains(tree) {
                    assert(trees_below(index, nearer).contains(seq));
                } else {
                    assert(state.frontier.contains(tree));
                }
            }
        }
        assert(next.seen.trees =~= trees_within(index, roots, depth + 1));
        assert forall|seq: u64| #[trigger] next.seen.blobs.contains(seq) <==> blobs_below(
            index,
            here,
        ).contains(seq) by {
            if blobs_below(index, here).contains(seq) {
                let tree = choose|tree: u64|
                    here.contains(tree) && (#[trigger] children_in(index, tree)).blobs.contains(
                        seq,
                    );
                if nearer.contains(tree) {
                    assert(blobs_below(index, nearer).contains(seq));
                } else {
                    assert(state.frontier.contains(tree));
                }
            }
            if blobs_below(index, nearer).contains(seq) {
                let tree = choose|tree: u64|
                    nearer.contains(tree) && (#[trigger] children_in(index, tree)).blobs.contains(
                        seq,
                    );
                assert(here.contains(tree));
            }
        }
        assert(next.seen.blobs =~= blobs_below(index, here));
        assert(next.frontier =~= next.seen.trees.difference(here));
    }
}

/// A walk whose frontier ran out has met everything there is to meet: no tree
/// it saw has a tree or a blob that it did not.
pub proof fn a_finished_walk_is_closed(
    state: TreeWalkState,
    index: Map<u64, ObjectView>,
    roots: Set<u64>,
    depth: nat,
)
    requires
        state.is_at(index, roots, depth),
        state.frontier == Set::<u64>::empty(),
    ensures
        trees_below(index, state.seen.trees).subset_of(state.seen.trees),
        state.seen.blobs == blobs_below(index, state.seen.trees),
        roots.subset_of(state.seen.trees),
{
    if depth == 0 {
        assert(state.seen.trees =~= Set::<u64>::empty());
        assert(blobs_below(index, state.seen.trees) =~= Set::<u64>::empty());
        assert(trees_below(index, state.seen.trees) =~= Set::<u64>::empty());
    } else {
        let nearer = trees_within(index, roots, (depth - 1) as nat);
        assert(state.seen.trees =~= nearer) by {
            assert forall|seq: u64| state.seen.trees.contains(seq) implies nearer.contains(seq) by {
                if !nearer.contains(seq) {
                    assert(state.frontier.contains(seq));
                }
            }
        }
        lemma_roots_stay(index, roots, depth);
    }
}

proof fn lemma_roots_stay(index: Map<u64, ObjectView>, roots: Set<u64>, depth: nat)
    ensures
        roots.subset_of(trees_within(index, roots, depth)),
    decreases depth,
{
    if depth > 0 {
        lemma_roots_stay(index, roots, (depth - 1) as nat);
    }
}

/// Every distinct tree and blob below some roots, level by level.
pub struct TreeWalk {
    seen: ObjectSeqs,
    frontier: Vec<u64>,
}

impl View for TreeWalk {
    type V = TreeWalkState;

    closed spec fn view(&self) -> TreeWalkState {
        TreeWalkState { seen: self.seen@, frontier: self.frontier@.to_set() }
    }
}

impl TreeWalk {
    /// A walk from `roots`.
    pub fn new(roots: &[u64]) -> (walk: TreeWalk)
        ensures
            walk@ == (TreeWalkState {
                seen: SeqSets { trees: roots@.to_set(), blobs: Set::empty() },
                frontier: roots@.to_set(),
            }),
            forall|index: Map<u64, ObjectView>| #[trigger] walk@.is_at(index, roots@.to_set(), 0),
    {
        let mut seen = ObjectSeqs::new();
        let mut frontier: Vec<u64> = Vec::new();
        let mut i: usize = 0;
        assert(seen@.trees =~= roots@.take(0).to_set());
        while i < roots.len()
            invariant
                i <= roots@.len(),
                frontier@ == roots@.take(i as int),
                seen@.trees == roots@.take(i as int).to_set(),
                seen@.blobs == Set::<u64>::empty(),
            decreases roots@.len() - i,
        {
            seen.insert_tree(roots[i]);
            frontier.push(roots[i]);
            proof {
                assert(roots@.take(i + 1) =~= roots@.take(i as int).push(roots@[i as int]));
                lemma_push_set(roots@.take(i as int), roots@[i as int]);
            }
            i = i + 1;
        }
        assert(roots@.take(i as int) =~= roots@);
        TreeWalk { seen, frontier }
    }

    /// The trees whose entries are wanted next; none once the walk is done.
    pub fn frontier(&self) -> (frontier: &[u64])
        ensures
            frontier@.to_set() == self@.frontier,
    {
        self.frontier.as_slice()
    }

    /// Go on with what was read of the frontier.
    pub fn step(&mut self, index: &ObjectIndex)
        ensures
            final(self)@ == old(self)@.stepped(index@),
    {
        let ghost start = self@;
        let mut next: Vec<u64> = Vec::new();
        let mut i: usize = 0;
        proof {
            lemma_below_nothing(index@);
            assert(self.frontier@.take(0).to_set() =~= Set::<u64>::empty());
            assert(start.seen.trees.union(Set::<u64>::empty()) =~= start.seen.trees);
            assert(start.seen.blobs.union(Set::<u64>::empty()) =~= start.seen.blobs);
            assert(next@.to_set() =~= Set::<u64>::empty());
        }
        while i < self.frontier.len()
            invariant
                i <= self.frontier@.len(),
                self.frontier@ == old(self).frontier@,
                start == old(self)@,
                self.seen@.trees == start.seen.trees.union(
                    trees_below(index@, self.frontier@.take(i as int).to_set()),
                ),
                self.seen@.blobs == start.seen.blobs.union(
                    blobs_below(index@, self.frontier@.take(i as int).to_set()),
                ),
                next@.to_set() == trees_below(
                    index@,
                    self.frontier@.take(i as int).to_set(),
                ).difference(start.seen.trees),
            decreases self.frontier@.len() - i,
        {
            let tree: u64 = self.frontier[i];
            let ghost done = self.frontier@.take(i as int);
            let ghost trees_before = self.seen@.trees;
            let ghost blobs_before = self.seen@.blobs;
            let ghost next_before = next@.to_set();
            proof {
                assert(self.frontier@.take(i + 1) =~= done.push(tree));
                lemma_push_set(done, tree);
                lemma_below_one(index@, done.to_set(), tree);
            }
            if let Some(object) = index.get(tree) {
                self.meet(object, &mut next);
            }
            proof {
                let below = children_in(index@, tree);
                assert(self.seen@.trees =~= start.seen.trees.union(
                    trees_below(index@, self.frontier@.take(i + 1).to_set()),
                ));
                assert(self.seen@.blobs =~= start.seen.blobs.union(
                    blobs_below(index@, self.frontier@.take(i + 1).to_set()),
                ));
                assert(next@.to_set() =~= trees_below(
                    index@,
                    self.frontier@.take(i + 1).to_set(),
                ).difference(start.seen.trees));
            }
            i = i + 1;
        }
        assert(self.frontier@.take(i as int) =~= self.frontier@);
        self.frontier = next;
    }

    /// Take in the entries of one tree, putting those trees on `next` that were
    /// not seen before.
    fn meet(&mut self, object: &Object, next: &mut Vec<u64>)
        ensures
            final(self).frontier == old(self).frontier,
            final(self).seen@ == old(self).seen@.union(object@.children),
            final(next)@.to_set() == old(next)@.to_set().union(
                object@.children.trees.difference(old(self).seen@.trees),
            ),
    {
        let ghost start = *self;
        let ghost first = next@.to_set();
        let trees = treemap_values(&object.children.trees);
        let mut i: usize = 0;
        proof {
            assert(trees@.take(0).to_set() =~= Set::<u64>::empty());
            assert(start.seen@.trees.union(Set::<u64>::empty()) =~= start.seen@.trees);
            assert(first.union(Set::<u64>::empty().difference(start.seen@.trees)) =~= first);
        }
        while i < trees.len()
            invariant
                i <= trees@.len(),
                self.frontier == start.frontier,
                self.seen@.blobs == start.seen@.blobs,
                self.seen@.trees == start.seen@.trees.union(trees@.take(i as int).to_set()),
                next@.to_set() == first.union(
                    trees@.take(i as int).to_set().difference(start.seen@.trees),
                ),
            decreases trees@.len() - i,
        {
            let seq: u64 = trees[i];
            let ghost before = next@;
            proof {
                assert(trees@.take(i + 1) =~= trees@.take(i as int).push(seq));
                lemma_push_set(trees@.take(i as int), seq);
            }
            let new: bool = treemap_insert(&mut self.seen.trees, seq);
            if new {
                next.push(seq);
                proof {
                    lemma_push_set(before, seq);
                }
            }
            proof {
                assert(self.seen@.trees =~= start.seen@.trees.union(trees@.take(i + 1).to_set()));
                assert(next@.to_set() =~= first.union(
                    trees@.take(i + 1).to_set().difference(start.seen@.trees),
                ));
            }
            i = i + 1;
        }
        assert(trees@.take(i as int) =~= trees@);
        treemap_union(&mut self.seen.blobs, &object.children.blobs);
    }

    /// Everything the walk met.
    pub fn into_seen(self) -> (seen: ObjectSeqs)
        ensures
            seen@ == self@.seen,
    {
        self.seen
    }
}

proof fn lemma_push_set(s: Seq<u64>, x: u64)
    ensures
        s.push(x).to_set() == s.to_set().insert(x),
{
    assert forall|y: u64| #[trigger] s.push(x).to_set().contains(y) <==> s.to_set().insert(
        x,
    ).contains(y) by {
        let long = s.push(x);
        if s.contains(y) {
            let j = choose|j: int| 0 <= j < s.len() && s[j] == y;
            assert(long[j] == y);
        }
        if long.contains(y) {
            let j = choose|j: int| 0 <= j < long.len() && long[j] == y;
            if j < s.len() {
                assert(s[j] == y);
            }
        }
        assert(long[s.len() as int] == x);
    }
    assert(s.push(x).to_set() =~= s.to_set().insert(x));
}

proof fn lemma_below_nothing(index: Map<u64, ObjectView>)
    ensures
        trees_below(index, Set::empty()) == Set::<u64>::empty(),
        blobs_below(index, Set::empty()) == Set::<u64>::empty(),
{
    assert(trees_below(index, Set::empty()) =~= Set::<u64>::empty());
    assert(blobs_below(index, Set::empty()) =~= Set::<u64>::empty());
}

proof fn lemma_below_one(index: Map<u64, ObjectView>, from: Set<u64>, tree: u64)
    ensures
        trees_below(index, from.insert(tree)) == trees_below(index, from).union(
            children_in(index, tree).trees,
        ),
        blobs_below(index, from.insert(tree)) == blobs_below(index, from).union(
            children_in(index, tree).blobs,
        ),
{
    let more = from.insert(tree);
    assert forall|seq: u64|
        {
            &&& #[trigger] trees_below(index, more).contains(seq) <==> trees_below(
                index,
                from,
            ).union(children_in(index, tree).trees).contains(seq)
        } by {
        if trees_below(index, from).contains(seq) {
            let t = choose|t: u64|
                from.contains(t) && (#[trigger] children_in(index, t)).trees.contains(seq);
            assert(more.contains(t));
        }
        if children_in(index, tree).trees.contains(seq) {
            assert(more.contains(tree));
        }
        if trees_below(index, more).contains(seq) {
            let t = choose|t: u64|
                more.contains(t) && (#[trigger] children_in(index, t)).trees.contains(seq);
            assert(t == tree || from.contains(t));
        }
    }
    assert(trees_below(index, more) =~= trees_below(index, from).union(
        children_in(index, tree).trees,
    ));
    assert forall|seq: u64|
        {
            &&& #[trigger] blobs_below(index, more).contains(seq) <==> blobs_below(
                index,
                from,
            ).union(children_in(index, tree).blobs).contains(seq)
        } by {
        if blobs_below(index, from).contains(seq) {
            let t = choose|t: u64|
                from.contains(t) && (#[trigger] children_in(index, t)).blobs.contains(seq);
            assert(more.contains(t));
        }
        if children_in(index, tree).blobs.contains(seq) {
            assert(more.contains(tree));
        }
        if blobs_below(index, more).contains(seq) {
            let t = choose|t: u64|
                more.contains(t) && (#[trigger] children_in(index, t)).blobs.contains(seq);
            assert(t == tree || from.contains(t));
        }
    }
    assert(blobs_below(index, more) =~= blobs_below(index, from).union(
        children_in(index, tree).blobs,
    ));
}

/// The entries that rebuilding `seq` costs, outermost first, at most `left` of
/// them.
pub open spec fn chain_from(index: Map<u64, ObjectView>, at: Option<u64>, left: nat) -> Seq<Location>
    decreases left,
{
    match at {
        None => Seq::empty(),
        Some(seq) => match introducing_of(index, seq) {
            None => Seq::empty(),
            Some(location) => if left == 0 {
                Seq::empty()
            } else {
                seq![location] + chain_from(index, location.base_seq, (left - 1) as nat)
            },
        },
    }
}

/// The number at which a walk down a chain finds nothing in `index`; none where
/// the chain ends, or has no hop left, before.
pub open spec fn lacks_at(index: Map<u64, ObjectView>, at: Option<u64>, left: nat) -> Option<u64>
    decreases left,
{
    match at {
        None => None,
        Some(seq) => if left == 0 {
            None
        } else if !index.contains_key(seq) {
            Some(seq)
        } else {
            match introducing_of(index, seq) {
                None => None,
                Some(location) => lacks_at(index, location.base_seq, (left - 1) as nat),
            }
        },
    }
}

/// A chain is walked whole however its parts are read: what a part of the index
/// gives, and from where that part ends what the index gives, is what the whole
/// index gives.
pub proof fn a_chain_is_walked_whole(
    index: Map<u64, ObjectView>,
    part: Map<u64, ObjectView>,
    at: Option<u64>,
    left: nat,
)
    requires
        forall|seq: u64| #[trigger]
            part.contains_key(seq) ==> index.contains_key(seq) && index[seq] == part[seq],
    ensures
        ({
            let first = chain_from(part, at, left);
            &&& first.len() <= left
            &&& chain_from(index, at, left) == first + chain_from(
                index,
                lacks_at(part, at, left),
                (left - first.len()) as nat,
            )
        }),
    decreases left,
{
    let first = chain_from(part, at, left);
    if let Some(seq) = at {
        if left > 0 && part.contains_key(seq) {
            match introducing_of(part, seq) {
                None => {
                    assert(first + Seq::<Location>::empty() =~= first);
                },
                Some(location) => {
                    let next = (left - 1) as nat;
                    a_chain_is_walked_whole(index, part, location.base_seq, next);
                    let rest = chain_from(part, location.base_seq, next);
                    let more = chain_from(
                        index,
                        lacks_at(part, location.base_seq, next),
                        (next - rest.len()) as nat,
                    );
                    assert(seq![location] + (rest + more) =~= first + more);
                },
            }
        } else {
            assert(first =~= Seq::<Location>::empty());
            assert(first + chain_from(index, at, left) =~= chain_from(index, at, left));
            assert(chain_from(index, at, 0) =~= Seq::<Location>::empty());
            assert(first + chain_from(index, None, left) =~= chain_from(index, None, left));
        }
    } else {
        assert(first + chain_from(index, None, left) =~= first);
    }
}

/// A walk down one object's delta chain.
///
/// A hop at a time, asking for more only when a base falls outside what was
/// read. Every hop is on the shelf the object itself is on.
pub struct ChainWalk {
    hops: Vec<Location>,
    at: Option<u64>,
    /// How many hops the chain may have beyond the first.
    max_hops: u32,
    /// What was last asked for.
    asked: Option<u64>,
}

/// Where a chain walk stands.
pub struct ChainState {
    pub hops: Seq<Location>,
    pub at: Option<u64>,
    pub max_hops: u32,
    pub asked: Option<u64>,
}

impl ChainState {
    /// How many more hops may follow.
    pub open spec fn left(self) -> nat {
        if self.hops.len() <= self.max_hops {
            (self.max_hops + 1 - self.hops.len()) as nat
        } else {
            0
        }
    }
}

impl View for ChainWalk {
    type V = ChainState;

    closed spec fn view(&self) -> ChainState {
        ChainState {
            hops: self.hops@,
            at: self.at,
            max_hops: self.max_hops,
            asked: self.asked,
        }
    }
}

impl ChainWalk {
    /// A walk from the object numbered `seq`, which the caller has read.
    pub fn new(seq: u64, max_hops: u32) -> (walk: ChainWalk)
        ensures
            walk@ == (ChainState { hops: Seq::empty(), at: Some(seq), max_hops, asked: Some(seq) }),
    {
        ChainWalk { hops: Vec::new(), at: Some(seq), max_hops, asked: Some(seq) }
    }

    /// Go as far as `index` reaches, and say which number to read next; none
    /// once the walk is done.
    ///
    /// A number that was just read and is still not there ends the walk.
    pub fn walk(&mut self, index: &ObjectIndex) -> (wanted: Option<u64>)
        ensures
            final(self)@.max_hops == old(self)@.max_hops,
            final(self)@.hops == old(self)@.hops + chain_from(
                index@,
                old(self)@.at,
                old(self)@.left(),
            ),
            wanted == (match lacks_at(index@, old(self)@.at, old(self)@.left()) {
                Some(seq) if old(self)@.asked != Some(seq) => Some(seq),
                _ => None,
            }),
            wanted is Some ==> final(self)@.at == wanted && final(self)@.asked == wanted,
    {
        let ghost start = self@;
        assert(start.hops + Seq::<Location>::empty() =~= start.hops);
        loop
            invariant
                start == old(self)@,
                self.max_hops == start.max_hops,
                self.asked == start.asked,
                start.hops + chain_from(index@, start.at, start.left()) == self.hops@ + chain_from(
                    index@,
                    self.at,
                    self@.left(),
                ),
                lacks_at(index@, start.at, start.left()) == lacks_at(index@, self.at, self@.left()),
            decreases self@.left(), 1int,
        {
            let seq: u64 = match self.at {
                None => {
                    assert(self.hops@ + Seq::<Location>::empty() =~= self.hops@);
                    return None;
                },
                Some(seq) => seq,
            };
            if self.hops.len() as u64 > self.max_hops as u64 {
                assert(chain_from(index@, self.at, 0) =~= Seq::<Location>::empty());
                assert(self.hops@ + Seq::<Location>::empty() =~= self.hops@);
                return None;
            }
            match index.get(seq) {
                None => {
                    assert(self.hops@ + Seq::<Location>::empty() =~= self.hops@);
                    let known_missing: bool = match self.asked {
                        Some(asked) => asked == seq,
                        None => false,
                    };
                    if known_missing {
                        self.at = None;
                        return None;
                    }
                    self.asked = Some(seq);
                    return Some(seq);
                },
                Some(object) => match object.introducing() {
                    None => {
                        assert(self.hops@ + Seq::<Location>::empty() =~= self.hops@);
                        self.at = None;
                        return None;
                    },
                    Some(location) => {
                        let ghost before = self.hops@;
                        let ghost left = self@.left();
                        let hop = *location;
                        self.hops.push(hop);
                        self.at = hop.base_seq;
                        proof {
                            let rest = chain_from(index@, hop.base_seq, (left - 1) as nat);
                            assert(before + (seq![hop] + rest) =~= self.hops@ + rest);
                        }
                    },
                },
            }
        }
    }

    /// The entries the walk found, as a reader reaches them.
    pub fn locations(&self) -> (found: Vec<CommitPackLocation>)
        ensures
            found@ == self@.hops.map_values(|l: Location| as_hop(l)),
    {
        let ghost shown = |l: Location| as_hop(l);
        let mut found: Vec<CommitPackLocation> = Vec::new();
        let mut i: usize = 0;
        while i < self.hops.len()
            invariant
                i <= self.hops@.len(),
                shown == (|l: Location| as_hop(l)),
                found@ == self.hops@.take(i as int).map_values(shown),
            decreases self.hops@.len() - i,
        {
            let l = self.hops[i];
            found.push(
                CommitPackLocation {
                    image: PackImageLocation {
                        pack_sha: l.pack_oid,
                        offset: l.offset,
                        entry_len: l.entry_len,
                        base: None,
                    },
                    segment: l.segment,
                },
            );
            i = i + 1;
            assert(found@ =~= self.hops@.take(i as int).map_values(shown));
        }
        assert(self.hops@.take(i as int) =~= self.hops@);
        found
    }
}

/// One hop as a reader reaches it.
///
/// The reader takes each entry's base from its own header bytes; the number
/// only exists so the walk can go on.
pub open spec fn as_hop(l: Location) -> CommitPackLocation {
    CommitPackLocation {
        image: PackImageLocation {
            pack_sha: l.pack_oid,
            offset: l.offset,
            entry_len: l.entry_len,
            base: None,
        },
        segment: l.segment,
    }
}

/// How many deltas a chain of `hops` entries costs: one hop is none, and no
/// hop is an object that nothing is recorded of.
pub fn chain_depth(hops: usize) -> (depth: Option<u32>)
    ensures
        depth == (if hops == 0 {
            None
        } else if hops - 1 > u32::MAX {
            Some(u32::MAX)
        } else {
            Some((hops - 1) as u32)
        }),
{
    if hops == 0 {
        None
    } else if hops - 1 > 0xffff_ffff {
        Some(u32::MAX)
    } else {
        Some((hops - 1) as u32)
    }
}

} // verus!
