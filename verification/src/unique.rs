//! Sets kept as lists without repetitions.
use vstd::prelude::*;

verus! {

/// Values that can be compared by what they stand for.
pub trait Same: View + Sized {
    fn same(&self, other: &Self) -> (r: bool)
        ensures
            r == (self@ == other@),
    ;
}

/// The models of a list of values.
pub open spec fn models<T: Same>(entries: Seq<T>) -> Set<T::V> {
    Set::new(|m: T::V| exists|i: int| 0 <= i < entries.len() && #[trigger] entries[i]@ == m)
}

/// A set of values, each held once.
#[derive(Debug)]
pub struct UniqueSet<T: Same> {
    entries: Vec<T>,
}

impl<T: Same> View for UniqueSet<T> {
    type V = Set<T::V>;

    closed spec fn view(&self) -> Set<T::V> {
        models(self.entries@)
    }
}

impl<T: Same> UniqueSet<T> {
    #[verifier::type_invariant]
    spec fn well_formed(self) -> bool {
        forall|i: int, j: int|
            0 <= i < j < self.entries@.len() ==> #[trigger] self.entries@[i]@
                != #[trigger] self.entries@[j]@
    }

    pub fn new() -> (r: UniqueSet<T>)
        ensures
            r@ == Set::<T::V>::empty(),
    {
        let r = UniqueSet { entries: Vec::new() };
        assert(r@ =~= Set::empty());
        r
    }

    pub fn is_empty(&self) -> (r: bool)
        ensures
            r == (self@ == Set::<T::V>::empty()),
    {
        if self.entries.len() == 0 {
            assert(self@ =~= Set::empty());
            true
        } else {
            assert(self@.contains(self.entries@[0]@));
            false
        }
    }

    /// How many different entries there are.
    pub fn len(&self) -> (r: usize)
        ensures
            self@.finite(),
            r == self@.len(),
    {
        proof {
            use_type_invariant(self);
            lemma_models_len(self.entries@);
        }
        self.entries.len()
    }

    /// The number of entries kept.
    pub closed spec fn spec_count(&self) -> nat {
        self.entries@.len()
    }

    /// The entry at an index.
    pub closed spec fn at(&self, i: int) -> T {
        self.entries@[i]
    }

    pub fn count(&self) -> (r: usize)
        ensures
            r == self.spec_count(),
    {
        self.entries.len()
    }

    pub fn get(&self, i: usize) -> (r: &T)
        requires
            i < self.spec_count(),
        ensures
            *r == self.at(i as int),
    {
        &self.entries[i]
    }

    /// Every kept entry is in the set.
    pub proof fn lemma_at(&self, i: int)
        requires
            0 <= i < self.spec_count(),
        ensures
            self@.contains(self.at(i)@),
    {
        assert(self.entries@[i]@ == self.at(i)@);
    }

    /// Every member of the set is kept at some index.
    pub proof fn lemma_index(&self, m: T::V) -> (i: int)
        requires
            self@.contains(m),
        ensures
            0 <= i < self.spec_count(),
            self.at(i)@ == m,
    {
        choose|i: int| 0 <= i < self.entries@.len() && #[trigger] self.entries@[i]@ == m
    }

    pub fn contains(&self, entry: &T) -> (r: bool)
        ensures
            r == self@.contains(entry@),
    {
        let mut i: usize = 0;
        while i < self.entries.len()
            invariant
                i <= self.entries@.len(),
                forall|j: int| 0 <= j < i ==> #[trigger] self.entries@[j]@ != entry@,
            decreases self.entries@.len() - i,
        {
            if self.entries[i].same(entry) {
                assert(self.entries@[i as int]@ == entry@);
                return true;
            }
            i += 1;
        }
        false
    }

    pub fn insert(&mut self, entry: T)
        ensures
            final(self)@ == old(self)@.insert(entry@),
    {
        if self.contains(&entry) {
            assert(self@ =~= self@.insert(entry@));
            return;
        }
        proof {
            use_type_invariant(&*self);
        }
        let ghost before = self.entries@;
        let mut entries: Vec<T> = Vec::new();
        std::mem::swap(&mut entries, &mut self.entries);
        entries.push(entry);
        proof {
            let after = entries@;
            assert forall|m: T::V|
                models(after).contains(m) <==> models(before).insert(entry@).contains(m) by {
                if models(after).contains(m) {
                    let i = choose|i: int| 0 <= i < after.len() && #[trigger] after[i]@ == m;
                    if i < before.len() {
                        assert(before[i]@ == m);
                    }
                }
                if models(before).contains(m) {
                    let i = choose|i: int| 0 <= i < before.len() && #[trigger] before[i]@ == m;
                    assert(after[i]@ == m);
                }
                assert(after[before.len() as int]@ == entry@);
            }
            assert(models(after) =~= models(before).insert(entry@));
            assert forall|i: int, j: int| 0 <= i < j < after.len() implies #[trigger] after[i]@
                != #[trigger] after[j]@ by {
                if j == before.len() {
                    assert(models(before).contains(before[i]@));
                } else {
                    assert(before[i]@ != before[j]@);
                }
            }
        }
        self.entries = entries;
    }

    /// Takes in every entry of another set.
    pub fn extend(&mut self, other: UniqueSet<T>)
        ensures
            final(self)@ == old(self)@.union(other@),
    {
        let ghost start = self@;
        let ghost all = other.entries@;
        let mut rest: Vec<T> = other.entries;
        assert(start.union(models(Seq::<T>::empty())) =~= start);
        assert(all.subrange(rest@.len() as int, all.len() as int) =~= Seq::empty());
        while rest.len() > 0
            invariant
                rest@.len() <= all.len(),
                rest@ == all.subrange(0, rest@.len() as int),
                self@ == start.union(
                    models(all.subrange(rest@.len() as int, all.len() as int)),
                ),
            decreases rest@.len(),
        {
            let ghost n = rest@.len() as int;
            let ghost done = all.subrange(n, all.len() as int);
            match rest.pop() {
                Some(entry) => {
                    proof {
                        let more = all.subrange(n - 1, all.len() as int);
                        assert(entry == all[n - 1]);
                        assert forall|m: T::V|
                            models(more).contains(m) <==> models(done).insert(
                                entry@,
                            ).contains(m) by {
                            if models(more).contains(m) {
                                let i = choose|i: int|
                                    0 <= i < more.len() && #[trigger] more[i]@ == m;
                                if i > 0 {
                                    assert(done[i - 1]@ == m);
                                }
                            }
                            if models(done).contains(m) {
                                let i = choose|i: int|
                                    0 <= i < done.len() && #[trigger] done[i]@ == m;
                                assert(more[i + 1]@ == m);
                            }
                            assert(more[0]@ == entry@);
                        }
                        assert(start.union(models(more)) =~= start.union(models(done)).insert(
                            entry@,
                        ));
                    }
                    self.insert(entry);
                },
                None => {},
            }
        }
        assert(all.subrange(0, all.len() as int) =~= all);
    }
}

/// Without repetitions, there are as many models as values.
proof fn lemma_models_len<T: Same>(entries: Seq<T>)
    requires
        forall|i: int, j: int|
            0 <= i < j < entries.len() ==> #[trigger] entries[i]@ != #[trigger] entries[j]@,
    ensures
        models(entries).finite(),
        models(entries).len() == entries.len(),
    decreases entries.len(),
{
    if entries.len() == 0 {
        assert(models(entries) =~= Set::empty());
    } else {
        let rest = entries.drop_last();
        lemma_models_len(rest);
        let last = entries.last()@;
        assert forall|m: T::V|
            models(entries).contains(m) <==> models(rest).insert(last).contains(m) by {
            if models(entries).contains(m) {
                let i = choose|i: int| 0 <= i < entries.len() && #[trigger] entries[i]@ == m;
                if i < rest.len() {
                    assert(rest[i]@ == m);
                }
            }
            if models(rest).contains(m) {
                let i = choose|i: int| 0 <= i < rest.len() && #[trigger] rest[i]@ == m;
                assert(entries[i]@ == m);
            }
            assert(entries[entries.len() - 1]@ == last);
        }
        assert(models(entries) =~= models(rest).insert(last));
        assert(!models(rest).contains(last)) by {
            if models(rest).contains(last) {
                let i = choose|i: int| 0 <= i < rest.len() && #[trigger] rest[i]@ == last;
                assert(entries[i]@ != entries[entries.len() - 1]@);
            }
        }
    }
}

} // verus!
