//! The set of states that a low-level search has generated: cells by their
//! number, each with the times at which it was reached.

use std::collections::HashMap;
use std::collections::HashSet;
use vstd::prelude::*;
use vstd::std_specs::hash::*;

verus! {

/// A set of pairs of a cell number and a time.
pub struct Visited {
    times: HashMap<u128, HashSet<isize>>,
}

impl View for Visited {
    type V = Set<(u128, isize)>;

    closed spec fn view(&self) -> Set<(u128, isize)> {
        Set::new(
            |s: (u128, isize)| self.times@.contains_key(s.0) && self.times@[s.0]@.contains(s.1),
        )
    }
}

impl Visited {
    /// The empty set.
    pub fn new() -> (v: Visited)
        ensures
            v@ == Set::<(u128, isize)>::empty(),
    {
        let v = Visited { times: HashMap::new() };
        assert(v@ =~= Set::<(u128, isize)>::empty());
        v
    }

    /// Whether the set holds the cell at the time.
    pub fn contains(&self, cell: u128, time: isize) -> (r: bool)
        ensures
            r == self@.contains((cell, time)),
    {
        broadcast use group_hash_axioms;

        match self.times.get(&cell) {
            Some(at) => at.contains(&time),
            None => false,
        }
    }

    /// Adds the cell at the time.
    pub fn insert(&mut self, cell: u128, time: isize)
        ensures
            final(self)@ == old(self)@.insert((cell, time)),
    {
        broadcast use group_hash_axioms;

        let mut at = match self.times.remove(&cell) {
            Some(at) => at,
            None => HashSet::new(),
        };
        at.insert(time);
        self.times.insert(cell, at);
        assert(self@ =~= old(self)@.insert((cell, time)));
    }
}

} // verus!
