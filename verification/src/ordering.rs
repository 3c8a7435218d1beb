use vstd::prelude::*;
use std::collections::HashSet;
use vstd::std_specs::iter::IteratorSpec;

verus! {

broadcast use vstd::std_specs::hash::group_hash_axioms;

/// What a node says about its place in an execution order.
pub trait ExecutionOrdering: Sized {
    /// The identifiers this node runs before, those it runs after, and its priority.
    spec fn parts(&self) -> (Set<u64>, Set<u64>, i64);

    /// What `parts` gives of the ordering that `subsume` makes from this one for `superset`.
    spec fn subsumed_parts(&self, superset: Set<u64>) -> (Set<u64>, Set<u64>, i64);

    /// The ordering narrowed to the identifiers that lie in `superset`.
    fn subsume(&self, superset: &HashSet<u64>) -> (r: Self)
        ensures
            r.parts() == self.subsumed_parts(superset@),
    ;

    /// The identifiers this node runs before, those it runs after, and its priority (a larger
    /// value is a higher priority).
    fn consume(self) -> (r: (HashSet<u64>, HashSet<u64>, i64))
        ensures
            (r.0@, r.1@, r.2) == self.parts(),
    ;
}

/// The elements of a set, each once.
pub fn set_items(s: &HashSet<u64>) -> (items: Vec<u64>)
    ensures
        items@.to_set() == s@,
        items@.no_duplicates(),
{
    let mut items: Vec<u64> = Vec::new();
    let ghost keys = vstd::std_specs::hash::spec_hash_keys_iter(s).remaining().unref();
    proof {
        vstd::std_specs::hash::axiom_spec_hash_keys_iter(s);
    }
    for x in it: s.iter()
        invariant
            items@.len() == it.index(),
            forall|i: int| 0 <= i < items@.len() ==> items@[i] == *it.seq()[i],
            it.seq().unref() == keys,
    {
        items.push(*x);
    }
    proof {
        assert(items@ =~= keys);
    }
    items
}

/// The elements of `s` that also lie in `within`, as a new set.
pub fn set_within(s: &HashSet<u64>, within: &HashSet<u64>) -> (r: HashSet<u64>)
    ensures
        r@ == s@.intersect(within@),
        r@.finite(),
{
    let items = set_items(s);
    let mut r: HashSet<u64> = HashSet::new();
    let mut i: usize = 0;
    while i < items.len()
        invariant
            0 <= i <= items.len(),
            items@.to_set() == s@,
            r@ == items@.subrange(0, i as int).to_set().intersect(within@),
            r@.finite(),
        decreases items.len() - i,
    {
        let x = items[i];
        if within.contains(&x) {
            r.insert(x);
        }
        proof {
            assert(items@.subrange(0, i + 1) =~= items@.subrange(0, i as int) + seq![x]);
            Seq::lemma_to_set_insert_commutes(items@.subrange(0, i as int), x);
        }
        i += 1;
        proof {
            assert(r@ =~= items@.subrange(0, i as int).to_set().intersect(within@));
        }
    }
    proof {
        assert(items@.subrange(0, i as int) =~= items@);
    }
    r
}

/// Adds every element of `from` to `into`.
pub fn extend_set(into: &mut HashSet<u64>, from: &HashSet<u64>)
    ensures
        final(into)@ == old(into)@.union(from@),
{
    let items = set_items(from);
    let mut i: usize = 0;
    while i < items.len()
        invariant
            0 <= i <= items.len(),
            items@.to_set() == from@,
            into@ == old(into)@.union(items@.subrange(0, i as int).to_set()),
        decreases items.len() - i,
    {
        let x = items[i];
        into.insert(x);
        proof {
            assert(items@.subrange(0, i + 1) =~= items@.subrange(0, i as int) + seq![x]);
            Seq::lemma_to_set_insert_commutes(items@.subrange(0, i as int), x);
        }
        i += 1;
        proof {
            assert(into@ =~= old(into)@.union(items@.subrange(0, i as int).to_set()));
        }
    }
    proof {
        assert(items@.subrange(0, i as int) =~= items@);
    }
}

/// "Before": this node runs before everything in `before`; everything in `after` runs before
/// this node.
#[derive(Debug)]
pub struct SchedulerOrdering {
    before: HashSet<u64>,
    after: HashSet<u64>,
    priority: i64,
}

impl SchedulerOrdering {
    /// The identifiers this node runs before.
    pub closed spec fn before_set(&self) -> Set<u64> {
        self.before@
    }

    /// The identifiers this node runs after.
    pub closed spec fn after_set(&self) -> Set<u64> {
        self.after@
    }

    /// This node's priority.
    pub closed spec fn priority_value(&self) -> i64 {
        self.priority
    }

    /// Takes in `other`: its befores and afters join these, and its priority replaces this one.
    pub fn consume(&mut self, other: Self)
        ensures
            final(self).before_set() == old(self).before_set().union(other.before_set()),
            final(self).after_set() == old(self).after_set().union(other.after_set()),
            final(self).priority_value() == other.priority_value(),
    {
        extend_set(&mut self.before, &other.before);
        extend_set(&mut self.after, &other.after);
        self.set_priority(other.priority);
    }

    /// Replaces the priority.
    pub fn set_priority(&mut self, new_priority: i64)
        ensures
            final(self).before_set() == old(self).before_set(),
            final(self).after_set() == old(self).after_set(),
            final(self).priority_value() == new_priority,
    {
        self.priority = new_priority;
    }

    /// Adds `system_id` to the identifiers this node runs before.
    pub fn insert_before(self, system_id: u64) -> (r: Self)
        ensures
            r.before_set() == self.before_set().insert(system_id),
            r.after_set() == self.after_set(),
            r.priority_value() == self.priority_value(),
    {
        let mut ordering = self;
        ordering.before.insert(system_id);
        ordering
    }

    /// Adds `system_id` to the identifiers this node runs after.
    pub fn insert_after(self, system_id: u64) -> (r: Self)
        ensures
            r.before_set() == self.before_set(),
            r.after_set() == self.after_set().insert(system_id),
            r.priority_value() == self.priority_value(),
    {
        let mut ordering = self;
        ordering.after.insert(system_id);
        ordering
    }

    /// The identifiers this node runs before.
    pub fn before(&self) -> (r: &HashSet<u64>)
        ensures
            r@ == self.before_set(),
    {
        &self.before
    }

    /// The identifiers this node runs after.
    pub fn after(&self) -> (r: &HashSet<u64>)
        ensures
            r@ == self.after_set(),
    {
        &self.after
    }
}

impl Default for SchedulerOrdering {
    /// No befores, no afters, priority zero.
    fn default() -> (r: Self)
        ensures
            r.before_set() == Set::<u64>::empty(),
            r.after_set() == Set::<u64>::empty(),
            r.priority_value() == 0,
    {
        SchedulerOrdering { before: HashSet::new(), after: HashSet::new(), priority: 0 }
    }
}

impl Clone for SchedulerOrdering {
    /// The same befores, afters and priority.
    fn clone(&self) -> (r: Self)
        ensures
            r.before_set() == self.before_set(),
            r.after_set() == self.after_set(),
            r.priority_value() == self.priority_value(),
    {
        let mut before: HashSet<u64> = HashSet::new();
        extend_set(&mut before, &self.before);
        let mut after: HashSet<u64> = HashSet::new();
        extend_set(&mut after, &self.after);
        proof {
            assert(before@ =~= self.before@);
            assert(after@ =~= self.after@);
        }
        SchedulerOrdering { before, after, priority: self.priority }
    }
}

impl ExecutionOrdering for SchedulerOrdering {
    open spec fn parts(&self) -> (Set<u64>, Set<u64>, i64) {
        (self.before_set(), self.after_set(), self.priority_value())
    }

    open spec fn subsumed_parts(&self, superset: Set<u64>) -> (Set<u64>, Set<u64>, i64) {
        (self.before_set().intersect(superset), self.after_set().intersect(superset), self.priority_value())
    }

    fn subsume(&self, superset: &HashSet<u64>) -> (r: Self)
        ensures
            r.before_set() == self.before_set().intersect(superset@),
            r.after_set() == self.after_set().intersect(superset@),
            r.priority_value() == self.priority_value(),
    {
        SchedulerOrdering {
            before: set_within(&self.before, superset),
            after: set_within(&self.after, superset),
            priority: self.priority,
        }
    }

    fn consume(self) -> (r: (HashSet<u64>, HashSet<u64>, i64))
        ensures
            r.0@ == self.before_set(),
            r.1@ == self.after_set(),
            r.2 == self.priority_value(),
    {
        (self.before, self.after, self.priority)
    }
}

} // verus!
