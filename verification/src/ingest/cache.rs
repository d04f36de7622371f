//! Recently rebuilt objects, bounded by their total size.
//!
//! Objects differ by orders of magnitude, so bounding their count would bound
//! nothing.

use vstd::prelude::*;

use crate::deps::cache::{
    all_but, cache_get, cache_pop, cache_put, cached, cached_under, is_at, is_cached, never_evicts,
    new_cache,
};
use crate::deps::shared::bytes_in;
use crate::ingest::content::Content;
use crate::object::ObjectId;

verus! {

/// How much content the cache may hold.
pub const CACHE_BYTES: usize = 134_217_728;

/// Objects above this never enter the cache: one of them would drive everything
/// else out for a hit that nothing is likely to want twice.
pub const MAX_CACHED_BYTES: usize = 16_777_216;

/// What the cache holds, what was used last first: each object's id and its
/// content.
pub type Held = Seq<((u128, u32), Seq<u8>)>;

/// What an object is held under.
pub open spec fn key_of(oid: ObjectId) -> (u128, u32) {
    (oid.high, oid.low)
}

/// How much content is held.
pub open spec fn weight(held: Held) -> nat
    decreases held.len(),
{
    if held.len() == 0 {
        0
    } else {
        weight(held.drop_last()) + held.last().1.len()
    }
}

/// What stays once what was used longest ago has left, until the rest is
/// within the budget.
pub open spec fn trimmed(held: Held) -> Held
    decreases held.len(),
{
    if held.len() == 0 || weight(held) <= CACHE_BYTES {
        held
    } else {
        trimmed(held.drop_last())
    }
}

/// What is held once content is put in.
pub open spec fn put_in(held: Held, oid: ObjectId, content: Seq<u8>) -> Held {
    if content.len() > MAX_CACHED_BYTES {
        held
    } else {
        trimmed(seq![(key_of(oid), content)] + all_but(held, key_of(oid)))
    }
}

/// What is held once an object is asked for.
pub open spec fn asked_for(held: Held, oid: ObjectId) -> Held {
    let key = key_of(oid);
    if is_cached(held, key) {
        seq![(key, cached_under(held, key))] + all_but(held, key)
    } else {
        held
    }
}

/// Whether no object is held twice.
pub open spec fn held_once(held: Held) -> bool {
    forall|i: int, j: int|
        0 <= i < j < held.len() ==> (#[trigger] held[i]).0 != (#[trigger] held[j]).0
}

proof fn lemma_under(held: Held, key: (u128, u32), i: int)
    requires
        held_once(held),
        is_at(held, key, i),
    ensures
        is_cached(held, key),
        cached_under(held, key) == held[i].1,
{
    let j = choose|j: int| is_at(held, key, j);
    assert(held[i].0 == held[j].0);
}

proof fn lemma_weight_front(first: ((u128, u32), Seq<u8>), rest: Held)
    ensures
        weight(seq![first] + rest) == first.1.len() + weight(rest),
    decreases rest.len(),
{
    let all = seq![first] + rest;
    if rest.len() == 0 {
        assert(all.drop_last() =~= Seq::empty());
        assert(weight(all.drop_last()) == 0);
    } else {
        lemma_weight_front(first, rest.drop_last());
        assert(all.drop_last() =~= seq![first] + rest.drop_last());
    }
}

/// What is left without one key.
proof fn lemma_all_but(held: Held, key: (u128, u32))
    requires
        held_once(held),
    ensures
        held_once(all_but(held, key)),
        forall|other: (u128, u32)| #[trigger]
            is_cached(all_but(held, key), other) <==> is_cached(held, other) && other != key,
        weight(all_but(held, key)) == weight(held) - (if is_cached(held, key) {
            cached_under(held, key).len() as int
        } else {
            0
        }),
    decreases held.len(),
{
    reveal(Seq::filter);
    let left = all_but(held, key);
    if held.len() == 0 {
        assert(!is_cached(held, key));
        assert forall|other: (u128, u32)| !#[trigger] is_cached(left, other) by {}
        assert forall|other: (u128, u32)| !#[trigger] is_cached(held, other) by {}
    } else {
        let fewer = held.drop_last();
        let last = held.last();
        lemma_all_but(fewer, key);
        let before = all_but(fewer, key);
        assert forall|other: (u128, u32)| #[trigger]
            is_cached(held, other) <==> is_cached(fewer, other) || other == last.0 by {
            if is_cached(fewer, other) {
                let i = choose|i: int| is_at(fewer, other, i);
                assert(is_at(held, other, i));
            }
            if other == last.0 {
                assert(is_at(held, other, held.len() - 1));
            }
            if is_cached(held, other) && other != last.0 {
                let i = choose|i: int| is_at(held, other, i);
                assert(is_at(fewer, other, i));
            }
        }
        if is_cached(fewer, last.0) {
            let i = choose|i: int| is_at(fewer, last.0, i);
            assert(held[i].0 != held[held.len() - 1].0);
        }
        if is_cached(fewer, key) {
            let i = choose|i: int| is_at(fewer, key, i);
            lemma_under(fewer, key, i);
            assert(is_at(held, key, i));
            lemma_under(held, key, i);
        }
        if last.0 == key {
            assert(is_at(held, key, held.len() - 1));
            lemma_under(held, key, held.len() - 1);
            assert(left == before);
        } else {
            assert(left == before.push(last));
            assert(left.drop_last() =~= before);
            assert forall|other: (u128, u32)| #[trigger]
                is_cached(left, other) <==> is_cached(before, other) || other == last.0 by {
                if is_cached(before, other) {
                    let i = choose|i: int| is_at(before, other, i);
                    assert(is_at(left, other, i));
                }
                if other == last.0 {
                    assert(is_at(left, other, before.len() as int));
                }
                if is_cached(left, other) && other != last.0 {
                    let i = choose|i: int| is_at(left, other, i);
                    assert(is_at(before, other, i));
                }
            }
            assert forall|i: int, j: int| 0 <= i < j < left.len() implies (#[trigger] left[i]).0
                != (#[trigger] left[j]).0 by {
                if j == before.len() {
                    assert(is_at(before, left[i].0, i));
                    assert(is_cached(before, left[i].0));
                }
            }
        }
    }
}

proof fn lemma_was_held(held: Held, key: (u128, u32), i: int)
    requires
        0 <= i < all_but(held, key).len(),
    ensures
        held.contains(all_but(held, key)[i]),
    decreases held.len(),
{
    reveal(Seq::filter);
    if held.len() > 0 {
        let fewer = held.drop_last();
        let item = all_but(held, key)[i];
        if i < all_but(fewer, key).len() {
            lemma_was_held(fewer, key, i);
            let k = choose|k: int| 0 <= k < fewer.len() && fewer[k] == item;
            assert(held[k] == item);
        } else {
            assert(held[held.len() - 1] == item);
        }
    }
}

/// What is held with a key in front.
proof fn lemma_in_front(held: Held, key: (u128, u32), content: Seq<u8>)
    requires
        held_once(held),
    ensures
        held_once(seq![(key, content)] + all_but(held, key)),
        weight(seq![(key, content)] + all_but(held, key)) == content.len() + weight(held) - (
        if is_cached(held, key) {
            cached_under(held, key).len() as int
        } else {
            0
        }),
{
    lemma_all_but(held, key);
    let left = all_but(held, key);
    let all = seq![(key, content)] + left;
    lemma_weight_front((key, content), left);
    assert forall|i: int, j: int| 0 <= i < j < all.len() implies (#[trigger] all[i]).0 != (
    #[trigger] all[j]).0 by {
        assert(all[j] == left[j - 1]);
        if i == 0 {
            assert(is_at(left, left[j - 1].0, j - 1));
            assert(is_cached(left, left[j - 1].0));
        } else {
            assert(all[i] == left[i - 1]);
        }
    }
}

/// Asking for an object changes what was used last, and not what is held.
pub(crate) proof fn lemma_asked_for(held: Held, oid: ObjectId)
    requires
        held_once(held),
    ensures
        forall|other: ObjectId| #[trigger]
            is_cached(asked_for(held, oid), key_of(other)) <==> is_cached(held, key_of(other)),
        forall|other: ObjectId|
            is_cached(held, key_of(other)) ==> #[trigger] cached_under(
                asked_for(held, oid),
                key_of(other),
            ) == cached_under(held, key_of(other)),
        held_once(asked_for(held, oid)),
{
    let key = key_of(oid);
    if is_cached(held, key) {
        lemma_all_but(held, key);
        let left = all_but(held, key);
        let after = asked_for(held, oid);
        assert forall|other: ObjectId| #[trigger] is_cached(after, key_of(other)) <==> is_cached(
            held,
            key_of(other),
        ) by {
            if is_cached(after, key_of(other)) && other != oid {
                let i = choose|i: int| is_at(after, key_of(other), i);
                assert(is_at(left, key_of(other), i - 1));
                assert(is_cached(left, key_of(other)));
            }
            if is_cached(held, key_of(other)) {
                if key_of(other) == key {
                    assert(is_at(after, key, 0));
                } else {
                    assert(is_cached(left, key_of(other)));
                    let i = choose|i: int| is_at(left, key_of(other), i);
                    assert(is_at(after, key_of(other), i + 1));
                }
            }
        }
        lemma_in_front(held, key, cached_under(held, key));
        assert forall|other: ObjectId| is_cached(held, key_of(other)) implies #[trigger] cached_under(
            after,
            key_of(other),
        ) == cached_under(held, key_of(other)) by {
            if key_of(other) == key {
                lemma_under(after, key, 0);
            } else {
                assert(is_cached(left, key_of(other)));
                let i = choose|i: int| is_at(left, key_of(other), i);
                assert(after[i + 1] == left[i]);
                lemma_under(after, key_of(other), i + 1);
                lemma_was_held(held, key, i);
                let k = choose|k: int| 0 <= k < held.len() && held[k] == left[i];
                lemma_under(held, key_of(other), k);
            }
        }
    }
}

/// However much is put in, what is held stays within the budget.
pub proof fn the_budget_is_kept(held: Held)
    ensures
        weight(trimmed(held)) <= CACHE_BYTES,
    decreases held.len(),
{
    if !(held.len() == 0 || weight(held) <= CACHE_BYTES) {
        the_budget_is_kept(held.drop_last());
    }
}

/// What was just put in is at hand, unless it is too large to be held at all.
pub proof fn what_is_put_in_is_at_hand(held: Held, oid: ObjectId, content: Seq<u8>)
    requires
        content.len() <= MAX_CACHED_BYTES,
    ensures
        put_in(held, oid, content).len() > 0,
        put_in(held, oid, content)[0] == (key_of(oid), content),
{
    lemma_first_stays((key_of(oid), content), all_but(held, key_of(oid)));
}

proof fn lemma_first_stays(first: ((u128, u32), Seq<u8>), rest: Held)
    requires
        first.1.len() <= CACHE_BYTES,
    ensures
        trimmed(seq![first] + rest).len() > 0,
        trimmed(seq![first] + rest)[0] == first,
    decreases rest.len(),
{
    let all = seq![first] + rest;
    lemma_weight_front(first, rest);
    if rest.len() > 0 {
        lemma_first_stays(first, rest.drop_last());
        assert(all.drop_last() =~= seq![first] + rest.drop_last());
    }
}

/// Recently rebuilt objects.
pub struct ByteCache {
    // Not bounded by count; `bytes` is the limit.
    lru: lru::LruCache<(u128, u32), bytes::Bytes>,
    bytes: usize,
}

impl View for ByteCache {
    type V = Held;

    closed spec fn view(&self) -> Held {
        cached(self.lru)
    }
}

impl ByteCache {
    /// Whether the count of bytes is right and within the budget.
    pub closed spec fn is_sound(self) -> bool {
        &&& never_evicts(self.lru)
        &&& held_once(self@)
        &&& self.bytes == weight(self@)
        &&& weight(self@) <= CACHE_BYTES
    }

    /// A sound cache holds an object once.
    pub(crate) proof fn lemma_held_once(self)
        requires
            self.is_sound(),
        ensures
            held_once(self@),
    {
    }

    pub fn new() -> (cache: ByteCache)
        ensures
            cache.is_sound(),
            cache@ == Held::empty(),
    {
        ByteCache { lru: new_cache(), bytes: 0 }
    }

    /// How much content is held.
    pub fn bytes(&self) -> (n: usize)
        requires
            self.is_sound(),
        ensures
            n == weight(self@),
            n <= CACHE_BYTES,
    {
        self.bytes
    }

    /// An object's content, if it is held. It counts as used.
    pub fn get(&mut self, oid: ObjectId) -> (hit: Option<Content>)
        requires
            old(self).is_sound(),
        ensures
            final(self).is_sound(),
            final(self)@ == asked_for(old(self)@, oid),
            match hit {
                Some(content) => {
                    &&& is_cached(old(self)@, key_of(oid))
                    &&& content@ == cached_under(old(self)@, key_of(oid))
                },
                None => !is_cached(old(self)@, key_of(oid)),
            },
    {
        let hit = cache_get(&mut self.lru, (oid.high, oid.low));
        match hit {
            Some(bytes) => {
                proof {
                    lemma_in_front(old(self)@, key_of(oid), bytes_in(bytes));
                }
                Some(Content::from_shared(bytes))
            },
            None => None,
        }
    }

    /// Hold an object's content, and let go of what was used longest ago as far
    /// as the budget asks.
    pub fn put(&mut self, oid: ObjectId, content: &Content)
        requires
            old(self).is_sound(),
        ensures
            final(self).is_sound(),
            final(self)@ == put_in(old(self)@, oid, content@),
            weight(final(self)@) <= CACHE_BYTES,
    {
        if content.len() > MAX_CACHED_BYTES {
            return;
        }
        proof {
            lemma_in_front(self@, key_of(oid), content@);
            lemma_all_but(self@, key_of(oid));
        }
        let ghost full = seq![(key_of(oid), content@)] + all_but(self@, key_of(oid));
        if let Some(before) = cache_put(&mut self.lru, (oid.high, oid.low), content.share().into_shared()) {
            let before = Content::from_shared(before);
            self.bytes = self.bytes.saturating_sub(before.len());
        }
        self.bytes = self.bytes.saturating_add(content.len());
        while self.bytes > CACHE_BYTES
            invariant
                never_evicts(self.lru),
                held_once(self@),
                self.bytes == weight(self@),
                trimmed(self@) == trimmed(full),
            decreases self@.len(),
        {
            match cache_pop(&mut self.lru) {
                Some((_, evicted)) => {
                    let evicted = Content::from_shared(evicted);
                    self.bytes = self.bytes.saturating_sub(evicted.len());
                },
                None => {
                    assert(false);
                },
            }
        }
    }
}

} // verus!
