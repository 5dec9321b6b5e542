use vstd::prelude::*;

verus! {

/// `order` without `entity`; the others keep their order.
pub open spec fn order_without(order: Seq<u64>, entity: u64) -> Seq<u64> {
    order.filter(|x: u64| x != entity)
}

/// `order` with `entity` appended, unless it is there already.
pub open spec fn order_with(order: Seq<u64>, entity: u64) -> Seq<u64> {
    if order.contains(entity) {
        order
    } else {
        order.push(entity)
    }
}

/// The members of `s` in the order in which they first occur.
pub open spec fn first_occurrences(s: Seq<u64>) -> Seq<u64>
    decreases s.len(),
{
    if s.len() == 0 {
        s
    } else {
        order_with(first_occurrences(s.drop_last()), s.last())
    }
}

/// Keeping only first occurrences leaves no repeats.
proof fn lemma_first_occurrences_unique(s: Seq<u64>)
    ensures
        first_occurrences(s).no_duplicates(),
    decreases s.len(),
{
    if s.len() > 0 {
        lemma_first_occurrences_unique(s.drop_last());
        let d = first_occurrences(s.drop_last());
        if !d.contains(s.last()) {
            assert forall|a: int, b: int| 0 <= a < b < d.push(s.last()).len() implies d.push(s.last())[a]
                != d.push(s.last())[b] by {
                if b == d.len() {
                    assert(d.contains(d[a]));
                }
            }
        }
    }
}

/// A sequence without repeats is its own first occurrences.
proof fn lemma_first_occurrences_of_unique(s: Seq<u64>)
    requires
        s.no_duplicates(),
    ensures
        first_occurrences(s) == s,
    decreases s.len(),
{
    if s.len() > 0 {
        let t = s.drop_last();
        assert(t.no_duplicates()) by {
            assert forall|a: int, b: int| 0 <= a < b < t.len() implies t[a] != t[b] by {
                assert(t[a] == s[a] && t[b] == s[b]);
            }
        }
        lemma_first_occurrences_of_unique(t);
        assert(!t.contains(s.last())) by {
            if t.contains(s.last()) {
                let k = choose|k: int| 0 <= k < t.len() && t[k] == s.last();
                assert(s[k] == s[s.len() - 1]);
            }
        }
        assert(t.push(s.last()) =~= s);
    }
}

/// A set of entities (by their `Entity::to_bits` value), kept in insertion
/// order without repeats.
pub struct EntitySet {
    items: Vec<u64>,
}

impl View for EntitySet {
    type V = Set<u64>;

    closed spec fn view(&self) -> Set<u64> {
        self.order().to_set()
    }
}

impl EntitySet {
    #[verifier::type_invariant]
    spec fn inv(self) -> bool {
        self.items@.no_duplicates()
    }

    /// The members of the set in iteration order.
    pub closed spec fn order(self) -> Seq<u64> {
        first_occurrences(self.items@)
    }

    /// Creates an empty set.
    pub fn new() -> (r: Self)
        ensures
            r@ == Set::<u64>::empty(),
            r.order() == Seq::<u64>::empty(),
    {
        let r = EntitySet { items: Vec::new() };
        assert(r@ =~= Set::<u64>::empty());
        r
    }

    /// Number of members.
    pub fn len(&self) -> (r: usize)
        ensures
            r == self@.len(),
            r == self.order().len(),
    {
        proof {
            use_type_invariant(self);
            lemma_first_occurrences_of_unique(self.items@);
            self.items@.unique_seq_to_set();
        }
        self.items.len()
    }

    /// Returns true iff the set has no members.
    pub fn is_empty(&self) -> (r: bool)
        ensures
            r == (self@ == Set::<u64>::empty()),
            r == (self.order().len() == 0),
    {
        proof {
            use_type_invariant(self);
            lemma_first_occurrences_of_unique(self.items@);
            self.items@.unique_seq_to_set();
            if self.items.len() > 0 {
                assert(self@.contains(self.items@[0]));
            } else {
                assert(self@ =~= Set::<u64>::empty());
            }
        }
        self.items.len() == 0
    }

    /// Returns true iff `entity` is a member.
    pub fn contains(&self, entity: u64) -> (r: bool)
        ensures
            r == self@.contains(entity),
    {
        proof {
            use_type_invariant(self);
            lemma_first_occurrences_of_unique(self.items@);
        }
        let mut i: usize = 0;
        while i < self.items.len()
            invariant
                i <= self.items.len(),
                forall|j: int| 0 <= j < i ==> self.items@[j] != entity,
                first_occurrences(self.items@) == self.items@,
            decreases self.items.len() - i,
        {
            if self.items[i] == entity {
                proof {
                    assert(self.items@.contains(entity));
                }
                return true;
            }
            i = i + 1;
        }
        false
    }

    /// Adds `entity` (at the end of the iteration order) unless it is already a
    /// member.
    pub fn insert(&mut self, entity: u64)
        ensures
            final(self)@ == old(self)@.insert(entity),
            final(self).order() == order_with(old(self).order(), entity),
    {
        proof {
            use_type_invariant(&*self);
            lemma_first_occurrences_of_unique(self.items@);
        }
        if !self.contains(entity) {
            let mut items: Vec<u64> = Vec::new();
                std::mem::swap(&mut items, &mut self.items);
            let ghost before = items@;
            items.push(entity);
            proof {
                assert(items@ == before.push(entity));
                assert forall|a: int, b: int| 0 <= a < b < items@.len() implies items@[a]
                    != items@[b] by {
                    if b == items@.len() - 1 {
                        assert(before.contains(before[a]));
                    }
                }
                before.lemma_push_to_set_commute(entity);
                lemma_first_occurrences_of_unique(items@);
            }
            self.items = items;
        }
    }

    /// Removes `entity` if it is a member; the others keep their order.
    pub fn remove(&mut self, entity: u64)
        ensures
            final(self)@ == old(self)@.remove(entity),
            final(self).order() == order_without(old(self).order(), entity),
    {
        proof {
            use_type_invariant(&*self);
            lemma_first_occurrences_of_unique(self.items@);
        }
        let mut i: usize = 0;
        while i < self.items.len()
            invariant
                i <= self.items.len(),
                self.items@.no_duplicates(),
                forall|j: int| 0 <= j < i ==> self.items@[j] != entity,
                self.items@ == old(self).items@,
                first_occurrences(old(self).items@) == old(self).items@,
            decreases self.items.len() - i,
        {
            if self.items[i] == entity {
                let mut items: Vec<u64> = Vec::new();
                std::mem::swap(&mut items, &mut self.items);
                let ghost before = items@;
                items.remove(i);
                proof {
                    assert(items@ == before.subrange(0, i as int) + before.subrange(
                        i as int + 1,
                        before.len() as int,
                    ));
                    assert forall|a: int, b: int| 0 <= a < b < items@.len() implies items@[a]
                        != items@[b] by {
                        let a0 = if a < i { a } else { a + 1 };
                        let b0 = if b < i { b } else { b + 1 };
                        assert(items@[a] == before[a0]);
                        assert(items@[b] == before[b0]);
                    }
                    assert forall|x: u64| items@.to_set().contains(x) <==> before.to_set().remove(entity).contains(x) by {
                        if items@.to_set().contains(x) {
                            let k = choose|k: int| 0 <= k < items@.len() && items@[k] == x;
                            let k0 = if k < i { k } else { k + 1 };
                            assert(before[k0] == x);
                            assert(k0 != i);
                        }
                        if before.to_set().remove(entity).contains(x) {
                            let k = choose|k: int| 0 <= k < before.len() && before[k] == x;
                            assert(k != i);
                            let k1 = if k < i { k } else { k - 1 };
                            assert(items@[k1] == x);
                        }
                    }
                    assert(items@.to_set() =~= before.to_set().remove(entity));
                    lemma_filter_without_unique(before, i as int, entity);
                    lemma_first_occurrences_of_unique(items@);
                }
                self.items = items;
                return;
            }
            i = i + 1;
        }
        proof {
            assert(self.items@.to_set() =~= self.items@.to_set().remove(entity));
            lemma_filter_absent(self.items@, entity);
        }
    }

    /// The members in iteration order.
    pub fn to_vec(&self) -> (r: Vec<u64>)
        ensures
            r@ == self.order(),
            r@.no_duplicates(),
            r@.to_set() == self@,
    {
        proof {
            use_type_invariant(self);
            lemma_first_occurrences_of_unique(self.items@);
        }
        self.items.clone()
    }
}

/// The members of a set are those of its iteration order.
pub proof fn lemma_view_is_order_members(set: EntitySet)
    ensures
        set@ == set.order().to_set(),
{
}

/// A set's iteration order meets each member once.
pub proof fn lemma_order_unique(set: EntitySet)
    ensures
        set.order().no_duplicates(),
{
    lemma_first_occurrences_unique(set.items@);
}

proof fn lemma_filter_absent(s: Seq<u64>, e: u64)
    requires
        forall|j: int| 0 <= j < s.len() ==> s[j] != e,
    ensures
        order_without(s, e) == s,
    decreases s.len(),
{
    reveal_with_fuel(Seq::filter, 1);
    if s.len() > 0 {
        lemma_filter_absent(s.drop_last(), e);
        assert(s.drop_last().push(s.last()) =~= s);
    } else {
        assert(order_without(s, e) =~= s);
    }
}

proof fn lemma_filter_without_unique(s: Seq<u64>, i: int, e: u64)
    requires
        0 <= i < s.len(),
        s[i] == e,
        s.no_duplicates(),
    ensures
        order_without(s, e) == s.subrange(0, i) + s.subrange(i + 1, s.len() as int),
    decreases s.len(),
{
    reveal_with_fuel(Seq::filter, 1);
    let t = s.drop_last();
    if i == s.len() - 1 {
        lemma_filter_absent(t, e);
        assert(t =~= s.subrange(0, i) + s.subrange(i + 1, s.len() as int));
    } else {
        lemma_filter_without_unique(t, i, e);
        assert(s.last() != e);
        assert(t.subrange(0, i) + t.subrange(i + 1, t.len() as int) + seq![s.last()] =~= s.subrange(0, i) + s.subrange(i + 1, s.len() as int));
    }
    assert(s.drop_last().push(s.last()) =~= s);
}

impl Default for EntitySet {
    fn default() -> (r: Self)
        ensures
            r@ == Set::<u64>::empty(),
            r.order() == Seq::<u64>::empty(),
    {
        EntitySet::new()
    }
}

impl Clone for EntitySet {
    fn clone(&self) -> (r: Self)
        ensures
            r@ == self@,
            r.order() == self.order(),
    {
        proof {
            use_type_invariant(self);
            lemma_first_occurrences_of_unique(self.items@);
        }
        EntitySet { items: self.items.clone() }
    }
}

} // verus!
