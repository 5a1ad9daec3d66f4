//! Unique identifiers for shapes.
use vstd::prelude::*;

verus! {

/// Hands out shape identifiers, counting up from zero; after `usize::MAX`
/// it wraps around to zero, as an atomic counter does.
#[derive(Debug)]
pub struct IdCounter {
    next: usize,
}

/// The identifier that follows `id`.
pub open spec fn next_id(id: usize) -> usize {
    if id == usize::MAX {
        0
    } else {
        (id + 1) as usize
    }
}

impl IdCounter {
    /// The identifier that the next allocation returns.
    pub closed spec fn peek(&self) -> usize {
        self.next
    }

    /// A counter whose first identifier is zero.
    pub fn new() -> (c: IdCounter)
        ensures
            c.peek() == 0,
    {
        IdCounter { next: 0 }
    }

    /// Returns the current identifier and advances the counter.
    pub fn get_next_unique_shape_id(&mut self) -> (id: usize)
        ensures
            id == old(self).peek(),
            final(self).peek() == next_id(old(self).peek()),
    {
        let id = self.next;
        self.next = if self.next == usize::MAX {
            0
        } else {
            self.next + 1
        };
        id
    }
}

/// A shape's identifier.
#[derive(Debug)]
pub struct ObjectId {
    id: usize,
}

impl ObjectId {
    pub closed spec fn id_spec(&self) -> usize {
        self.id
    }

    /// A fresh identifier taken from `counter`.
    pub fn new(counter: &mut IdCounter) -> (o: ObjectId)
        ensures
            o.id_spec() == old(counter).peek(),
            final(counter).peek() == next_id(old(counter).peek()),
    {
        ObjectId { id: counter.get_next_unique_shape_id() }
    }

    /// The numeric identifier.
    pub fn get_id(&self) -> (id: usize)
        ensures
            id == self.id_spec(),
    {
        self.id
    }
}

/// The identifier that the counter hands out `n` allocations from now.
pub open spec fn nth_id(start: usize, n: nat) -> usize
    decreases n,
{
    if n == 0 {
        start
    } else {
        next_id(nth_id(start, (n - 1) as nat))
    }
}

/// Identifiers are unique: of the allocations a counter makes before it
/// wraps around, no two return the same identifier.
pub proof fn lemma_ids_unique(start: usize, i: nat, j: nat)
    requires
        i < j,
        start + j <= usize::MAX,
    ensures
        nth_id(start, i) != nth_id(start, j),
{
    lemma_nth_id_value(start, i);
    lemma_nth_id_value(start, j);
}

proof fn lemma_nth_id_value(start: usize, n: nat)
    requires
        start + n <= usize::MAX,
    ensures
        nth_id(start, n) == start + n,
    decreases n,
{
    if n > 0 {
        lemma_nth_id_value(start, (n - 1) as nat);
    }
}

} // verus!
