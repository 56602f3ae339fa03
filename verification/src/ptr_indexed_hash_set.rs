//! A set of node handles keyed by identity.
//!
//! Two waypoints may share their coordinates and still be different nodes,
//! so the search marks nodes by handle, never by value. The handles are kept
//! in a hash set that uses the Fx hash function.

use rustc_hash::FxHashSet;
use rustc_hash::FxHasher;
use std::hash::BuildHasherDefault;
use vstd::prelude::*;

verus! {

#[verifier::external_type_specification]
#[verifier::external_body]
pub struct ExFxHasher(FxHasher);

#[verifier::external_type_specification]
#[verifier::external_body]
#[verifier::reject_recursive_types(H)]
pub struct ExBuildHasherDefault<H>(BuildHasherDefault<H>);

/// `FxHashSet::default`: the new set holds nothing.
#[verifier::external_body]
fn fx_set_new() -> (s: FxHashSet<usize>)
    ensures
        s@ == Set::<usize>::empty(),
{
    FxHashSet::default()
}

/// `HashSet::insert` with the Fx hasher: the handle is in the set afterwards
/// and nothing else changes; the result tells whether it was new.
#[verifier::external_body]
fn fx_set_insert(s: &mut FxHashSet<usize>, value: usize) -> (fresh: bool)
    ensures
        final(s)@ == old(s)@.insert(value),
        fresh == !old(s)@.contains(value),
{
    s.insert(value)
}

/// `HashSet::remove` with the Fx hasher: the handle is gone afterwards and
/// nothing else changes; the result tells whether it was present.
#[verifier::external_body]
fn fx_set_remove(s: &mut FxHashSet<usize>, value: usize) -> (present: bool)
    ensures
        final(s)@ == old(s)@.remove(value),
        present == old(s)@.contains(value),
{
    s.remove(&value)
}

/// `HashSet::contains` with the Fx hasher: membership of the handle.
#[verifier::external_body]
fn fx_set_contains(s: &FxHashSet<usize>, value: usize) -> (present: bool)
    ensures
        present == s@.contains(value),
{
    s.contains(&value)
}

/// `HashSet::iter` with the Fx hasher, collected: every handle of the set
/// once, in an order that is not specified.
#[verifier::external_body]
fn fx_set_handles(s: &FxHashSet<usize>) -> (handles: Vec<usize>)
    ensures
        handles@.to_set() == s@,
        handles@.no_duplicates(),
{
    s.iter().copied().collect()
}

/// A set of node handles. Membership depends on the handle alone, not on
/// what the node holds.
pub struct PtrIndexedHashSet {
    set: FxHashSet<usize>,
}

impl PtrIndexedHashSet {
    /// The handles in the set.
    pub closed spec fn view(&self) -> Set<usize> {
        self.set@
    }

    pub fn new() -> (s: Self)
        ensures
            s@ == Set::<usize>::empty(),
    {
        PtrIndexedHashSet { set: fx_set_new() }
    }

    /// Adds a handle; returns whether it was not in the set before.
    pub fn insert(&mut self, value: usize) -> (fresh: bool)
        ensures
            final(self)@ == old(self)@.insert(value),
            fresh == !old(self)@.contains(value),
    {
        fx_set_insert(&mut self.set, value)
    }

    /// Removes a handle; returns whether it was in the set.
    pub fn remove(&mut self, value: usize) -> (present: bool)
        ensures
            final(self)@ == old(self)@.remove(value),
            present == old(self)@.contains(value),
    {
        fx_set_remove(&mut self.set, value)
    }

    pub fn contains(&self, value: usize) -> (present: bool)
        ensures
            present == self@.contains(value),
    {
        fx_set_contains(&self.set, value)
    }

    /// Walks the set: every handle is handed out exactly once, in an order
    /// that is not specified.
    pub fn iter(&self) -> (it: PtrIndexedHashSetIterator)
        ensures
            it.remaining().to_set() == self@,
            it.remaining().no_duplicates(),
    {
        PtrIndexedHashSetIterator { handles: fx_set_handles(&self.set), position: 0 }
    }
}

/// A walk over the handles of a [`PtrIndexedHashSet`].
pub struct PtrIndexedHashSetIterator {
    handles: Vec<usize>,
    position: usize,
}

impl PtrIndexedHashSetIterator {
    /// The handles not handed out yet, in the order in which they will come.
    pub closed spec fn remaining(&self) -> Seq<usize> {
        if self.position <= self.handles@.len() {
            self.handles@.skip(self.position as int)
        } else {
            Seq::empty()
        }
    }

    /// Hands out the next handle, or nothing when the walk is over.
    pub fn next(&mut self) -> (r: Option<usize>)
        ensures
            old(self).remaining().len() == 0 ==> r.is_none() && final(self).remaining()
                == old(self).remaining(),
            old(self).remaining().len() > 0 ==> r == Some(old(self).remaining()[0])
                && final(self).remaining() == old(self).remaining().skip(1),
    {
        if self.position < self.handles.len() {
            let value = self.handles[self.position];
            self.position = self.position + 1;
            assert(self.handles@.skip(self.position as int) =~= old(self).handles@.skip(
                old(self).position as int,
            ).skip(1));
            Some(value)
        } else {
            None
        }
    }
}

} // verus!
