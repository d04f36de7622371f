//! Lists that hold an id once.

use vstd::prelude::*;

use crate::object::ObjectId;
use crate::ordmap::OrdSet;

verus! {

/// A run of ids with every later occurrence of one left out.
pub open spec fn distinct(ids: Seq<ObjectId>) -> Seq<ObjectId>
    decreases ids.len(),
{
    if ids.len() == 0 {
        Seq::empty()
    } else {
        with_id(distinct(ids.drop_last()), ids.last())
    }
}

/// A list with an id added, unless it is there.
pub open spec fn with_id(list: Seq<ObjectId>, oid: ObjectId) -> Seq<ObjectId> {
    if list.contains(oid) {
        list
    } else {
        list.push(oid)
    }
}

/// Leaving repetitions out leaves no id out, and none twice.
pub proof fn distinct_keeps_each_once(ids: Seq<ObjectId>)
    ensures
        distinct(ids).no_duplicates(),
        forall|oid: ObjectId| #[trigger] distinct(ids).contains(oid) <==> ids.contains(oid),
    decreases ids.len(),
{
    if ids.len() > 0 {
        let earlier = ids.drop_last();
        distinct_keeps_each_once(earlier);
        let list = distinct(earlier);
        lemma_with_id(list, ids.last());
        assert forall|oid: ObjectId| #[trigger] distinct(ids).contains(oid) <==> ids.contains(
            oid,
        ) by {
            assert(ids == earlier.push(ids.last()));
            lemma_push_contains(earlier, ids.last(), oid);
        }
    }
}

/// What a run with one more element holds.
pub(crate) proof fn lemma_push_contains<A>(run: Seq<A>, last: A, x: A)
    ensures
        run.push(last).contains(x) <==> run.contains(x) || x == last,
{
    let longer = run.push(last);
    if run.contains(x) {
        let i = choose|i: int| 0 <= i < run.len() && run[i] == x;
        assert(longer[i] == x);
    }
    if x == last {
        assert(longer[run.len() as int] == x);
    }
    if longer.contains(x) && x != last {
        let i = choose|i: int| 0 <= i < longer.len() && longer[i] == x;
        assert(run[i] == x);
    }
}

/// What a list with an id added holds.
pub(crate) proof fn lemma_with_id(list: Seq<ObjectId>, oid: ObjectId)
    requires
        list.no_duplicates(),
    ensures
        with_id(list, oid).no_duplicates(),
        forall|other: ObjectId| #[trigger]
            with_id(list, oid).contains(other) <==> list.contains(other) || other == oid,
{
    assert forall|other: ObjectId| #[trigger]
        with_id(list, oid).contains(other) <==> list.contains(other) || other == oid by {
        lemma_push_contains(list, oid, other);
    }
}

/// A list under construction that takes an id once.
#[derive(Debug)]
pub struct IdList {
    list: Vec<ObjectId>,
    seen: OrdSet<ObjectId>,
}

impl View for IdList {
    type V = Seq<ObjectId>;

    closed spec fn view(&self) -> Seq<ObjectId> {
        self.list@
    }
}

impl IdList {
    #[verifier::type_invariant]
    spec fn is_consistent(self) -> bool {
        &&& self.list@.no_duplicates()
        &&& forall|oid: ObjectId| #[trigger] self.seen@.contains(oid) <==> self.list@.contains(oid)
    }

    pub fn new() -> (list: IdList)
        ensures
            list@ == Seq::<ObjectId>::empty(),
    {
        IdList { list: Vec::new(), seen: OrdSet::new() }
    }

    /// Add an id, unless it is there already.
    pub fn put(&mut self, oid: ObjectId) -> (new: bool)
        ensures
            final(self)@ == with_id(old(self)@, oid),
            new == !old(self)@.contains(oid),
            final(self)@.no_duplicates(),
            forall|other: ObjectId| #[trigger]
                final(self)@.contains(other) <==> old(self)@.contains(other) || other == oid,
    {
        proof {
            use_type_invariant(&*self);
            lemma_with_id(self.list@, oid);
        }
        let mut taken = IdList::new();
        std::mem::swap(self, &mut taken);
        let IdList { mut list, mut seen } = taken;
        let new = seen.insert(oid);
        if new {
            list.push(oid);
        }
        *self = IdList { list, seen };
        new
    }

    /// Add every id of a run, in its order.
    pub fn put_all(&mut self, ids: &[ObjectId])
        ensures
            final(self)@.no_duplicates(),
            forall|other: ObjectId| #[trigger]
                final(self)@.contains(other) <==> old(self)@.contains(other) || ids@.contains(
                    other,
                ),
    {
        proof {
            use_type_invariant(&*self);
        }
        let mut i: usize = 0;
        while i < ids.len()
            invariant
                i <= ids@.len(),
                self@.no_duplicates(),
                forall|other: ObjectId| #[trigger]
                    self@.contains(other) <==> old(self)@.contains(other) || ids@.take(
                        i as int,
                    ).contains(other),
            decreases ids@.len() - i,
        {
            let ghost before = self@;
            let oid = ids[i];
            let _ = self.put(oid);
            i += 1;
            proof {
                assert(ids@.take(i as int) =~= ids@.take(i as int - 1).push(oid));
                assert forall|other: ObjectId| #[trigger]
                    self@.contains(other) <==> old(self)@.contains(other) || ids@.take(
                        i as int,
                    ).contains(other) by {
                    lemma_push_contains(ids@.take(i as int - 1), oid, other);
                }
            }
        }
        assert(ids@.take(i as int) =~= ids@);
    }

    pub fn contains(&self, oid: ObjectId) -> (found: bool)
        ensures
            found == self@.contains(oid),
    {
        proof {
            use_type_invariant(self);
        }
        self.seen.contains(&oid)
    }

    pub fn into_vec(self) -> (list: Vec<ObjectId>)
        ensures
            list@ == self@,
            list@.no_duplicates(),
    {
        proof {
            use_type_invariant(&self);
        }
        self.list
    }
}

/// What is kept is what is there and passes.
pub(crate) proof fn lemma_filtered<A>(s: Seq<A>, keep: spec_fn(A) -> bool)
    ensures
        forall|x: A| #[trigger] s.filter(keep).contains(x) <==> s.contains(x) && keep(x),
    decreases s.len(),
{
    reveal(Seq::filter);
    if s.len() > 0 {
        let rest = s.drop_last();
        lemma_filtered(rest, keep);
        assert forall|x: A| #[trigger] s.filter(keep).contains(x) <==> s.contains(x) && keep(x) by {
            let kept = rest.filter(keep);
            assert(kept.contains(x) <==> rest.contains(x) && keep(x));
            if s.filter(keep).contains(x) {
                let k = choose|k: int| 0 <= k < s.filter(keep).len() && s.filter(keep)[k] == x;
                if k < kept.len() {
                    assert(kept[k] == x);
                    let i = choose|i: int| 0 <= i < rest.len() && rest[i] == x;
                    assert(s[i] == x);
                } else {
                    assert(s[s.len() - 1] == x);
                }
            }
            if s.contains(x) && keep(x) {
                let i = choose|i: int| 0 <= i < s.len() && s[i] == x;
                if i < rest.len() {
                    assert(rest[i] == x);
                    let k = choose|k: int| 0 <= k < kept.len() && kept[k] == x;
                    assert(s.filter(keep)[k] == x);
                } else {
                    assert(s.filter(keep)[s.filter(keep).len() - 1] == x);
                }
            }
        }
    }
}

} // verus!
