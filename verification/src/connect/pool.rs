//! Bounded storage of idle connections.
use crate::unique::Same;
use vstd::prelude::*;

verus! {

/// The most connections that a pool keeps.
pub const IDLE_POOL_CAPACITY: usize = 64;

/// How long a connection may stay idle, in milliseconds.
pub const IDLE_POOL_LIFETIME: u64 = 60_000;

/// A kept connection: its key, itself and since when it is idle.
pub struct Held<K, V> {
    pub key: K,
    pub value: V,
    pub idle_since: u64,
}

/// What is kept, the longest idle first.
pub open spec fn held_models<K: Same, V>(entries: Seq<Held<K, V>>) -> Seq<Held<K::V, V>> {
    Seq::new(
        entries.len(),
        |i: int|
            Held {
                key: entries[i].key@,
                value: entries[i].value,
                idle_since: entries[i].idle_since,
            },
    )
}

/// The connection has been idle for less than the lifetime.
pub open spec fn is_live(idle_since: u64, lifetime: u64, now: u64) -> bool {
    now < idle_since || now - idle_since < lifetime
}

/// What is left when connections that were idle too long are dropped.
pub open spec fn pruned<K, V>(s: Seq<Held<K, V>>, lifetime: u64, now: u64) -> Seq<Held<K, V>>
    decreases s.len(),
{
    if s.len() == 0 {
        s
    } else {
        let rest = pruned(s.drop_last(), lifetime, now);
        if is_live(s.last().idle_since, lifetime, now) {
            rest.push(s.last())
        } else {
            rest
        }
    }
}

/// What is left without the connection of a key.
pub open spec fn without<K, V>(s: Seq<Held<K, V>>, key: K) -> Seq<Held<K, V>>
    decreases s.len(),
{
    if s.len() == 0 {
        s
    } else {
        let rest = without(s.drop_last(), key);
        if s.last().key == key {
            rest
        } else {
            rest.push(s.last())
        }
    }
}

/// The connection of a key.
pub open spec fn held_for<K, V>(s: Seq<Held<K, V>>, key: K) -> Option<V>
    decreases s.len(),
{
    if s.len() == 0 {
        None
    } else if s.last().key == key {
        Some(s.last().value)
    } else {
        held_for(s.drop_last(), key)
    }
}

/// What is kept after a connection was put back: it is the last; where there is no room the
/// longest idle one leaves.
pub open spec fn stored<K, V>(
    s: Seq<Held<K, V>>,
    key: K,
    value: V,
    lifetime: u64,
    capacity: nat,
    now: u64,
) -> Seq<Held<K, V>> {
    let all = without(pruned(s, lifetime, now), key).push(Held { key, value, idle_since: now });
    if all.len() > capacity {
        all.drop_first()
    } else {
        all
    }
}

/// No key occurs twice.
pub open spec fn distinct_keys<K, V>(s: Seq<Held<K, V>>) -> bool {
    forall|i: int, j: int| 0 <= i < j < s.len() ==> #[trigger] s[i].key != #[trigger] s[j].key
}

/// When the first of the kept connections has been idle too long.
pub open spec fn is_deadline<K, V>(s: Seq<Held<K, V>>, lifetime: u64, r: Option<u64>) -> bool {
    match r {
        None => s.len() == 0,
        Some(at) => {
            &&& exists|i: int|
                0 <= i < s.len() && at == clamped_sum((#[trigger] s[i]).idle_since, lifetime)
            &&& forall|i: int|
                0 <= i < s.len() ==> at <= clamped_sum((#[trigger] s[i]).idle_since, lifetime)
        },
    }
}

/// A sum that stops at the largest number.
pub open spec fn clamped_sum(a: u64, b: u64) -> u64 {
    if a + b > u64::MAX {
        u64::MAX
    } else {
        (a + b) as u64
    }
}

proof fn lemma_pruned<K, V>(s: Seq<Held<K, V>>, lifetime: u64, now: u64)
    ensures
        pruned(s, lifetime, now).len() <= s.len(),
        forall|i: int|
            0 <= i < pruned(s, lifetime, now).len() ==> s.contains(
                #[trigger] pruned(s, lifetime, now)[i],
            ),
        distinct_keys(s) ==> distinct_keys(pruned(s, lifetime, now)),
    decreases s.len(),
{
    if s.len() > 0 {
        let rest = pruned(s.drop_last(), lifetime, now);
        let all = pruned(s, lifetime, now);
        lemma_pruned(s.drop_last(), lifetime, now);
        assert forall|i: int| 0 <= i < all.len() implies s.contains(#[trigger] all[i]) by {
            if i < rest.len() {
                assert(s.drop_last().contains(rest[i]));
                let j = choose|j: int| 0 <= j < s.drop_last().len() && s.drop_last()[j] == rest[i];
                assert(s[j] == rest[i]);
            } else {
                assert(all[i] == s[s.len() - 1]);
            }
        }
        if distinct_keys(s) {
            assert(distinct_keys(s.drop_last())) by {
                assert forall|i: int, j: int| 0 <= i < j < s.drop_last().len() implies (
                #[trigger] s.drop_last()[i]).key != (#[trigger] s.drop_last()[j]).key by {
                    assert(s[i].key != s[j].key);
                }
            }
            assert forall|i: int, j: int| 0 <= i < j < all.len() implies (#[trigger] all[i]).key != (
            #[trigger] all[j]).key by {
                if j < rest.len() {
                    assert(rest[i].key != rest[j].key);
                } else {
                    assert(s.drop_last().contains(rest[i]));
                    let k = choose|k: int|
                        0 <= k < s.drop_last().len() && s.drop_last()[k] == rest[i];
                    assert(s[k].key != s[s.len() - 1].key);
                }
            }
        }
    }
}

proof fn lemma_without<K, V>(s: Seq<Held<K, V>>, key: K)
    ensures
        without(s, key).len() <= s.len(),
        forall|i: int|
            0 <= i < without(s, key).len() ==> s.contains(#[trigger] without(s, key)[i])
                && without(s, key)[i].key != key,
        distinct_keys(s) ==> distinct_keys(without(s, key)),
    decreases s.len(),
{
    if s.len() > 0 {
        let rest = without(s.drop_last(), key);
        let all = without(s, key);
        lemma_without(s.drop_last(), key);
        assert forall|i: int| 0 <= i < all.len() implies s.contains(#[trigger] all[i]) && all[i].key
            != key by {
            if i < rest.len() {
                assert(s.drop_last().contains(rest[i]));
                let j = choose|j: int| 0 <= j < s.drop_last().len() && s.drop_last()[j] == rest[i];
                assert(s[j] == rest[i]);
            } else {
                assert(all[i] == s[s.len() - 1]);
            }
        }
        if distinct_keys(s) {
            assert(distinct_keys(s.drop_last())) by {
                assert forall|i: int, j: int| 0 <= i < j < s.drop_last().len() implies (
                #[trigger] s.drop_last()[i]).key != (#[trigger] s.drop_last()[j]).key by {
                    assert(s[i].key != s[j].key);
                }
            }
            assert forall|i: int, j: int| 0 <= i < j < all.len() implies (#[trigger] all[i]).key != (
            #[trigger] all[j]).key by {
                if j < rest.len() {
                    assert(rest[i].key != rest[j].key);
                } else {
                    assert(s.drop_last().contains(rest[i]));
                    let k = choose|k: int|
                        0 <= k < s.drop_last().len() && s.drop_last()[k] == rest[i];
                    assert(s[k].key != s[s.len() - 1].key);
                }
            }
        }
    }
}

/// Where no connection has the key nothing changes.
proof fn lemma_without_absent<K, V>(s: Seq<Held<K, V>>, key: K)
    requires
        forall|i: int| 0 <= i < s.len() ==> (#[trigger] s[i]).key != key,
    ensures
        without(s, key) == s,
        held_for(s, key) is None,
    decreases s.len(),
{
    if s.len() > 0 {
        let rest = s.drop_last();
        assert forall|i: int| 0 <= i < rest.len() implies (#[trigger] rest[i]).key != key by {
            assert(s[i].key != key);
        }
        lemma_without_absent(rest, key);
        assert(rest.push(s.last()) =~= s);
    }
}

/// Where exactly one connection has the key, that one is found and leaves.
proof fn lemma_without_at<K, V>(s: Seq<Held<K, V>>, key: K, at: int)
    requires
        distinct_keys(s),
        0 <= at < s.len(),
        s[at].key == key,
    ensures
        without(s, key) == s.remove(at),
        held_for(s, key) == Some(s[at].value),
    decreases s.len(),
{
    let rest = s.drop_last();
    assert(distinct_keys(rest)) by {
        assert forall|i: int, j: int| 0 <= i < j < rest.len() implies (#[trigger] rest[i]).key != (
        #[trigger] rest[j]).key by {
            assert(s[i].key != s[j].key);
        }
    }
    if at == s.len() - 1 {
        assert forall|i: int| 0 <= i < rest.len() implies (#[trigger] rest[i]).key != key by {
            assert(s[i].key != s[at].key);
        }
        lemma_without_absent(rest, key);
        assert(rest =~= s.remove(at));
    } else {
        assert(s[at].key != s[s.len() - 1].key);
        lemma_without_at(rest, key, at);
        assert(rest.remove(at).push(s.last()) =~= s.remove(at));
    }
}

/// A pool of idle connections. No key is kept twice, and no more than the capacity is kept.
pub struct IdlePool<K: Same, V> {
    entries: Vec<Held<K, V>>,
    capacity: usize,
    lifetime: u64,
}

impl<K: Same, V> View for IdlePool<K, V> {
    type V = Seq<Held<K::V, V>>;

    closed spec fn view(&self) -> Seq<Held<K::V, V>> {
        held_models(self.entries@)
    }
}

impl<K: Same, V> IdlePool<K, V> {
    #[verifier::type_invariant]
    spec fn well_formed(self) -> bool {
        &&& self.capacity >= 1
        &&& self.entries@.len() <= self.capacity
        &&& distinct_keys(held_models(self.entries@))
    }

    pub closed spec fn spec_capacity(&self) -> nat {
        self.capacity as nat
    }

    pub closed spec fn spec_lifetime(&self) -> u64 {
        self.lifetime
    }

    /// An empty pool with the usual limits.
    pub fn new() -> (r: IdlePool<K, V>)
        ensures
            r@ == Seq::<Held<K::V, V>>::empty(),
            r.spec_capacity() == IDLE_POOL_CAPACITY,
            r.spec_lifetime() == IDLE_POOL_LIFETIME,
    {
        IdlePool::with_limits(IDLE_POOL_CAPACITY, IDLE_POOL_LIFETIME)
    }

    /// An empty pool with limits of its own.
    pub fn with_limits(capacity: usize, lifetime: u64) -> (r: IdlePool<K, V>)
        requires
            capacity > 0,
        ensures
            r@ == Seq::<Held<K::V, V>>::empty(),
            r.spec_capacity() == capacity,
            r.spec_lifetime() == lifetime,
    {
        let entries: Vec<Held<K, V>> = Vec::new();
        assert(held_models(entries@) =~= Seq::empty());
        IdlePool { entries, capacity, lifetime }
    }

    pub fn len(&self) -> (r: usize)
        ensures
            r == self@.len(),
            r <= self.spec_capacity(),
    {
        proof {
            use_type_invariant(self);
        }
        self.entries.len()
    }

    /// Takes everything out and leaves the pool empty.
    fn release(&mut self) -> (r: Vec<Held<K, V>>)
        ensures
            held_models(r@) == old(self)@,
            r@.len() <= old(self).spec_capacity(),
            distinct_keys(held_models(r@)),
            final(self)@ == Seq::<Held<K::V, V>>::empty(),
            final(self).spec_capacity() == old(self).spec_capacity(),
            final(self).spec_lifetime() == old(self).spec_lifetime(),
    {
        proof {
            use_type_invariant(&*self);
        }
        let mut entries: Vec<Held<K, V>> = Vec::new();
        assert(held_models(entries@) =~= Seq::empty());
        std::mem::swap(&mut entries, &mut self.entries);
        entries
    }

    /// Drops every connection.
    pub fn clear(&mut self)
        ensures
            final(self)@ == Seq::<Held<K::V, V>>::empty(),
            final(self).spec_capacity() == old(self).spec_capacity(),
            final(self).spec_lifetime() == old(self).spec_lifetime(),
    {
        let _ = self.release();
    }

    /// Drops the connections that were idle too long.
    pub fn prune(&mut self, now: u64)
        ensures
            final(self)@ == pruned(old(self)@, old(self).spec_lifetime(), now),
            final(self).spec_capacity() == old(self).spec_capacity(),
            final(self).spec_lifetime() == old(self).spec_lifetime(),
    {
        proof {
            use_type_invariant(&*self);
        }
        let lifetime: u64 = self.lifetime;
        let mut entries: Vec<Held<K, V>> = self.release();
        let ghost before = old(self)@;
        prune_entries(&mut entries, lifetime, now);
        proof {
            lemma_pruned(before, lifetime, now);
        }
        self.entries = entries;
    }

    /// Takes the connection of a key out, where it is still usable. A connection that no longer is
    /// leaves the pool all the same.
    pub fn take_if_reusable<F: Fn(&V) -> bool>(&mut self, key: &K, now: u64, reusable: F) -> (r:
        Option<V>)
        requires
            forall|value: V| #[trigger] call_requires(reusable, (&value,)),
        ensures
            final(self)@ == without(pruned(old(self)@, old(self).spec_lifetime(), now), key@),
            match held_for(pruned(old(self)@, old(self).spec_lifetime(), now), key@) {
                None => r is None,
                Some(value) => match r {
                    Some(taken) => taken == value && call_ensures(reusable, (&value,), true),
                    None => call_ensures(reusable, (&value,), false),
                },
            },
            final(self).spec_capacity() == old(self).spec_capacity(),
            final(self).spec_lifetime() == old(self).spec_lifetime(),
    {
        proof {
            use_type_invariant(&*self);
        }
        let lifetime: u64 = self.lifetime;
        let mut entries: Vec<Held<K, V>> = self.release();
        let ghost before = old(self)@;
        prune_entries(&mut entries, lifetime, now);
        proof {
            lemma_pruned(before, lifetime, now);
            lemma_without(pruned(before, lifetime, now), key@);
        }
        let taken: Option<V> = remove_entry(&mut entries, key);
        self.entries = entries;
        match taken {
            None => None,
            Some(value) => if reusable(&value) {
                Some(value)
            } else {
                None
            },
        }
    }

    /// Keeps a connection, where it is usable. One that was kept under the same key leaves, and so
    /// does the longest idle one where there is no room.
    pub fn put_if_reusable<F: Fn(&V) -> bool>(&mut self, key: K, value: V, now: u64, reusable: F)
        requires
            call_requires(reusable, (&value,)),
        ensures
            ({
                &&& call_ensures(reusable, (&value,), true)
                &&& final(self)@ == stored(
                    old(self)@,
                    key@,
                    value,
                    old(self).spec_lifetime(),
                    old(self).spec_capacity(),
                    now,
                )
            }) || (call_ensures(reusable, (&value,), false) && final(self)@ == old(self)@),
            final(self)@.len() <= final(self).spec_capacity(),
            distinct_keys(final(self)@),
            final(self).spec_capacity() == old(self).spec_capacity(),
            final(self).spec_lifetime() == old(self).spec_lifetime(),
    {
        proof {
            use_type_invariant(&*self);
        }
        if !reusable(&value) {
            return;
        }
        let lifetime: u64 = self.lifetime;
        let capacity: usize = self.capacity;
        let mut entries: Vec<Held<K, V>> = self.release();
        let ghost before = old(self)@;
        prune_entries(&mut entries, lifetime, now);
        let ghost kept = pruned(before, lifetime, now);
        let ghost rest = without(kept, key@);
        proof {
            lemma_pruned(before, lifetime, now);
            lemma_without(kept, key@);
        }
        let _ = remove_entry(&mut entries, &key);
        let ghost was = entries@;
        let ghost model = Held { key: key@, value, idle_since: now };
        entries.push(Held { key, value, idle_since: now });
        let ghost all = rest.push(model);
        proof {
            assert(held_models(entries@) =~= held_models(was).push(model));
            assert forall|i: int, j: int| 0 <= i < j < all.len() implies (#[trigger] all[i]).key != (
            #[trigger] all[j]).key by {
                if j < rest.len() {
                    assert(rest[i].key != rest[j].key);
                } else {
                    assert(all[i] == rest[i]);
                }
            }
        }
        if entries.len() > capacity {
            let ghost full = entries@;
            let _ = entries.remove(0);
            proof {
                assert(held_models(entries@) =~= all.drop_first());
                let left = all.drop_first();
                assert forall|i: int, j: int| 0 <= i < j < left.len() implies (#[trigger] left[i]).key
                    != (#[trigger] left[j]).key by {
                    assert(all[i + 1].key != all[j + 1].key);
                }
            }
        }
        self.entries = entries;
    }

    /// When the pool should be pruned next.
    pub fn next_deadline(&self) -> (r: Option<u64>)
        ensures
            is_deadline(self@, self.spec_lifetime(), r),
    {
        let mut least: Option<u64> = None;
        let mut i: usize = 0;
        while i < self.entries.len()
            invariant
                i <= self.entries.len(),
                is_deadline(self@.take(i as int), self.lifetime, least),
            decreases self.entries.len() - i,
        {
            let at: u64 = self.entries[i].idle_since.saturating_add(self.lifetime);
            let ghost was = self@.take(i as int);
            let ghost next = self@.take(i + 1);
            proof {
                assert(next =~= was.push(self@[i as int]));
                assert(at == clamped_sum(self@[i as int].idle_since, self.lifetime));
                assert(next[i as int] == self@[i as int]);
            }
            match least {
                None => {
                    least = Some(at);
                },
                Some(so_far) => {
                    proof {
                        let k = choose|k: int|
                            0 <= k < was.len() && so_far == clamped_sum(
                                (#[trigger] was[k]).idle_since,
                                self.lifetime,
                            );
                        assert(next[k] == was[k]);
                        assert forall|j: int| 0 <= j < was.len() implies so_far <= clamped_sum(
                            (#[trigger] next[j]).idle_since,
                            self.lifetime,
                        ) by {
                            assert(next[j] == was[j]);
                        }
                    }
                    if at < so_far {
                        least = Some(at);
                    }
                },
            }
            i += 1;
        }
        assert(self@.take(i as int) =~= self@);
        least
    }
}

fn prune_entries<K: Same, V>(entries: &mut Vec<Held<K, V>>, lifetime: u64, now: u64)
    ensures
        held_models(final(entries)@) == pruned(held_models(old(entries)@), lifetime, now),
        final(entries)@.len() <= old(entries)@.len(),
{
    let ghost all = held_models(entries@);
    let total: usize = entries.len();
    let mut seen: usize = 0;
    let mut i: usize = 0;
    assert(all.take(0) =~= Seq::empty());
    assert(all.skip(0) =~= all);
    while seen < total
        invariant
            seen <= total,
            total == all.len(),
            i <= seen,
            entries@.len() == i + (total - seen),
            i == pruned(all.take(seen as int), lifetime, now).len(),
            held_models(entries@) == pruned(all.take(seen as int), lifetime, now) + all.skip(
                seen as int,
            ),
        decreases total - seen,
    {
        let ghost was = pruned(all.take(seen as int), lifetime, now);
        let ghost before = entries@;
        proof {
            assert(all.take(seen + 1).drop_last() =~= all.take(seen as int));
            assert(all.take(seen + 1).last() == all[seen as int]);
            assert(held_models(before)[i as int] == all.skip(seen as int)[0]);
        }
        let since: u64 = entries[i].idle_since;
        if now < since || now - since < lifetime {
            proof {
                assert(held_models(entries@) =~= was.push(all[seen as int]) + all.skip(seen + 1));
            }
            i += 1;
        } else {
            let _ = entries.remove(i);
            proof {
                assert(held_models(entries@) =~= held_models(before).remove(i as int));
                assert(held_models(entries@) =~= was + all.skip(seen + 1));
            }
        }
        seen += 1;
    }
    proof {
        assert(all.take(total as int) =~= all);
        assert(held_models(entries@) =~= pruned(all, lifetime, now));
    }
}

fn remove_entry<K: Same, V>(entries: &mut Vec<Held<K, V>>, key: &K) -> (r: Option<V>)
    requires
        distinct_keys(held_models(old(entries)@)),
    ensures
        held_models(final(entries)@) == without(held_models(old(entries)@), key@),
        r == held_for(held_models(old(entries)@), key@),
        final(entries)@.len() <= old(entries)@.len(),
{
    let ghost all = held_models(entries@);
    let mut i: usize = 0;
    while i < entries.len()
        invariant
            i <= entries.len(),
            all == held_models(entries@),
            entries@ == old(entries)@,
            distinct_keys(all),
            forall|j: int| 0 <= j < i ==> (#[trigger] all[j]).key != key@,
        decreases entries.len() - i,
    {
        if entries[i].key.same(key) {
            proof {
                lemma_without_at(all, key@, i as int);
            }
            let held: Held<K, V> = entries.remove(i);
            proof {
                assert(held_models(entries@) =~= all.remove(i as int));
            }
            return Some(held.value);
        }
        i += 1;
    }
    proof {
        lemma_without_absent(all, key@);
    }
    None
}

/// A connection that was put back is what a later request for its key gets, as long as it is not
/// idle too long and nothing else was put in between.
pub proof fn a_stored_connection_is_found_again<K, V>(
    s: Seq<Held<K, V>>,
    key: K,
    value: V,
    lifetime: u64,
    capacity: nat,
    stored_at: u64,
    now: u64,
)
    requires
        capacity >= 1,
        stored_at <= now,
        now - stored_at < lifetime,
    ensures
        held_for(
            pruned(stored(s, key, value, lifetime, capacity, stored_at), lifetime, now),
            key,
        ) == Some(value),
{
    let all = stored(s, key, value, lifetime, capacity, stored_at);
    let last = Held { key, value, idle_since: stored_at };
    assert(all.len() >= 1);
    assert(all.last() == last);
    let kept = pruned(all, lifetime, now);
    assert(kept.last() == last);
}

/// A connection that has been idle for its lifetime is not handed out, and neither is one that was
/// never put back.
pub proof fn an_expired_connection_is_gone<K, V>(
    s: Seq<Held<K, V>>,
    key: K,
    lifetime: u64,
    now: u64,
)
    requires
        forall|i: int|
            0 <= i < s.len() && (#[trigger] s[i]).key == key ==> !is_live(
                s[i].idle_since,
                lifetime,
                now,
            ),
    ensures
        held_for(pruned(s, lifetime, now), key) is None,
    decreases s.len(),
{
    if s.len() > 0 {
        let rest = s.drop_last();
        assert forall|i: int| 0 <= i < rest.len() && (#[trigger] rest[i]).key == key implies !is_live(
            rest[i].idle_since,
            lifetime,
            now,
        ) by {
            assert(s[i] == rest[i]);
        }
        an_expired_connection_is_gone(rest, key, lifetime, now);
        assert(s.last() == s[s.len() - 1]);
        let kept = pruned(rest, lifetime, now);
        assert(kept.push(s.last()).drop_last() =~= kept);
    }
}

/// Where the pool is full of fresh connections, putting back one of a new key drops the one that
/// was put back first and no other.
pub proof fn a_full_pool_drops_the_oldest<K, V>(
    s: Seq<Held<K, V>>,
    key: K,
    value: V,
    lifetime: u64,
    now: u64,
)
    requires
        s.len() >= 1,
        forall|i: int|
            0 <= i < s.len() ==> is_live((#[trigger] s[i]).idle_since, lifetime, now),
        forall|i: int| 0 <= i < s.len() ==> (#[trigger] s[i]).key != key,
    ensures
        stored(s, key, value, lifetime, s.len(), now) == s.drop_first().push(
            Held { key, value, idle_since: now },
        ),
{
    lemma_pruned_all(s, lifetime, now);
    lemma_without_absent(s, key);
    let new = Held { key, value, idle_since: now };
    assert(s.push(new).drop_first() =~= s.drop_first().push(new));
}

proof fn lemma_pruned_all<K, V>(s: Seq<Held<K, V>>, lifetime: u64, now: u64)
    requires
        forall|i: int|
            0 <= i < s.len() ==> is_live((#[trigger] s[i]).idle_since, lifetime, now),
    ensures
        pruned(s, lifetime, now) == s,
    decreases s.len(),
{
    if s.len() > 0 {
        let rest = s.drop_last();
        assert forall|i: int| 0 <= i < rest.len() implies is_live(
            (#[trigger] rest[i]).idle_since,
            lifetime,
            now,
        ) by {
            assert(s[i] == rest[i]);
        }
        lemma_pruned_all(rest, lifetime, now);
        assert(s.last() == s[s.len() - 1]);
        assert(rest.push(s.last()) =~= s);
    }
}

} // verus!
