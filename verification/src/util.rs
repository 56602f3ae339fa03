//! Walking a list in pairs of neighbors.

use vstd::prelude::*;

verus! {

/// The pairs of neighbors of a list, in order. Each pair holds the later
/// item first and the earlier item second.
pub open spec fn windows_of<T>(items: Seq<T>) -> Seq<(T, T)> {
    Seq::new(
        if items.len() > 0 {
            (items.len() - 1) as nat
        } else {
            0
        },
        |i: int| (items[i + 1], items[i]),
    )
}

/// A walk over the pairs of neighbors of a list.
pub struct WindowIterator<T: Copy> {
    items: Vec<T>,
    position: usize,
    previous: Option<T>,
}

impl<T: Copy> WindowIterator<T> {
    /// The invariant of the walk: it remembers the item before the one that
    /// comes next.
    pub closed spec fn wf(&self) -> bool {
        &&& self.position <= self.items@.len()
        &&& match self.previous {
            None => self.position == 0,
            Some(p) => self.position >= 1 && p == self.items@[self.position - 1],
        }
    }

    /// The pairs that are still to come, in order.
    pub closed spec fn remaining(&self) -> Seq<(T, T)> {
        let done = if self.position >= 1 {
            (self.position - 1) as int
        } else {
            0
        };
        if done <= windows_of(self.items@).len() {
            windows_of(self.items@).skip(done)
        } else {
            Seq::empty()
        }
    }

    /// Hands out the next pair, or nothing when the walk is over. A list of
    /// fewer than two items has no pair.
    pub fn next(&mut self) -> (r: Option<(T, T)>)
        requires
            old(self).wf(),
        ensures
            final(self).wf(),
            old(self).remaining().len() == 0 ==> r.is_none() && final(self).remaining().len() == 0,
            old(self).remaining().len() > 0 ==> r == Some(old(self).remaining()[0])
                && final(self).remaining() == old(self).remaining().skip(1),
    {
        if self.previous.is_none() {
            if self.position < self.items.len() {
                self.previous = Some(self.items[self.position]);
                self.position = self.position + 1;
            }
        }
        if self.position >= self.items.len() {
            return None;
        }
        let current = self.items[self.position];
        let previous = self.previous.unwrap();
        let result = (current, previous);
        self.previous = Some(current);
        self.position = self.position + 1;
        proof {
            let all = windows_of(self.items@);
            let done = self.position - 2;
            assert(old(self).remaining() == all.skip(done));
            assert(all.skip(done)[0] == all[done]);
            assert(self.remaining() =~= all.skip(done).skip(1));
        }
        Some(result)
    }
}

/// Lists that can be walked in pairs of neighbors.
pub trait Windows<T: Copy> {
    /// The items of the list, in order.
    spec fn items(&self) -> Seq<T>;

    /// A walk over the pairs of neighbors, which starts with the pair of
    /// the first two items.
    fn windows(self) -> (w: WindowIterator<T>)
        ensures
            w.wf(),
            w.remaining() == windows_of(self.items()),
    ;
}

impl<T: Copy> Windows<T> for Vec<T> {
    open spec fn items(&self) -> Seq<T> {
        self@
    }

    fn windows(self) -> (w: WindowIterator<T>) {
        let w = WindowIterator { items: self, position: 0, previous: None };
        assert(w.remaining() =~= windows_of(self@));
        w
    }
}

} // verus!
