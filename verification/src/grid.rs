use vstd::prelude::*;

use crate::color::RGB;
use crate::vector2::Vector2;

verus! {

/// A mapping from pixel coordinates to color samples, kept as an
/// association list in insertion order; no coordinate appears twice.
pub struct Grid {
    entries: Vec<(Vector2, RGB)>,
}

impl Grid {
    /// The entries, oldest first.
    pub closed spec fn view(&self) -> Seq<(Vector2, RGB)> {
        self.entries@
    }

    /// No coordinate is recorded twice.
    pub open spec fn wf(&self) -> bool {
        forall|i: int, j: int| 0 <= i < j < self@.len() ==> (#[trigger] self@[i]).0 != (#[trigger] self@[j]).0
    }

    /// Whether some entry records coordinate `k`.
    pub open spec fn contains_key(&self, k: Vector2) -> bool {
        exists|i: int| 0 <= i < self@.len() && (#[trigger] self@[i]).0 == k
    }

    pub fn new() -> (r: Grid)
        ensures
            r@ =~= Seq::<(Vector2, RGB)>::empty(),
            r.wf(),
    {
        Grid { entries: Vec::new() }
    }

    /// Index of the entry recording `k`, if one exists.
    fn find_key(&self, k: Vector2) -> (r: Option<usize>)
        ensures
            match r {
                Some(i) => i < self@.len() && self@[i as int].0 == k,
                None => !self.contains_key(k),
            },
    {
        let mut i: usize = 0;
        while i < self.entries.len()
            invariant
                i <= self@.len(),
                forall|j: int| 0 <= j < i ==> (#[trigger] self@[j]).0 != k,
            decreases self@.len() - i,
        {
            let e = self.entries[i];
            if e.0.x == k.x && e.0.y == k.y {
                proof {
                    assert(self@[i as int].0 == k);
                }
                return Some(i);
            }
            i += 1;
        }
        None
    }

    /// Record color `v` at coordinate `k`, replacing any earlier entry
    /// for the same coordinate.
    pub fn insert(&mut self, k: Vector2, v: RGB)
        requires
            old(self).wf(),
        ensures
            final(self).wf(),
            old(self).contains_key(k) ==> exists|i: int|
                0 <= i < old(self)@.len() && (#[trigger] old(self)@[i]).0 == k && final(self)@
                    == old(self)@.update(i, (k, v)),
            !old(self).contains_key(k) ==> final(self)@ == old(self)@.push((k, v)),
    {
        match self.find_key(k) {
            Some(i) => {
                self.entries.set(i, (k, v));
                proof {
                    assert(old(self)@[i as int].0 == k);
                }
            }
            None => {
                self.entries.push((k, v));
                proof {
                    assert forall|i: int, j: int|
                        0 <= i < j < self@.len() implies (#[trigger] self@[i]).0 != (
                    #[trigger] self@[j]).0 by {
                        if j == self@.len() - 1 {
                            assert(old(self)@[i].0 != k);
                        }
                    }
                }
            }
        }
    }

    /// The color recorded at coordinate `k`, if any.
    pub fn get(&self, k: Vector2) -> (r: Option<&RGB>)
        ensures
            match r {
                Some(c) => exists|i: int|
                    0 <= i < self@.len() && #[trigger] self@[i] == (k, *c),
                None => !self.contains_key(k),
            },
    {
        match self.find_key(k) {
            Some(i) => {
                proof {
                    assert(self@[i as int] == (self@[i as int].0, self@[i as int].1));
                }
                Some(&self.entries[i].1)
            }
            None => None,
        }
    }

    /// The recorded coordinates, in entry order.
    pub fn pixels(&self) -> (r: Vec<Vector2>)
        ensures
            r@.len() == self@.len(),
            forall|i: int| 0 <= i < r@.len() ==> (#[trigger] r@[i]) == self@[i].0,
    {
        let mut r: Vec<Vector2> = Vec::new();
        let mut i: usize = 0;
        while i < self.entries.len()
            invariant
                i <= self@.len(),
                r@.len() == i,
                forall|j: int| 0 <= j < i ==> (#[trigger] r@[j]) == self@[j].0,
            decreases self@.len() - i,
        {
            r.push(self.entries[i].0);
            i += 1;
        }
        r
    }

    /// The colors recorded, in entry order, paired with their
    /// coordinates; the iteration a caller would otherwise run itself.
    pub fn for_each(&self) -> (r: Vec<(Vector2, RGB)>)
        ensures
            r@ == self@,
    {
        let mut r: Vec<(Vector2, RGB)> = Vec::new();
        let mut i: usize = 0;
        while i < self.entries.len()
            invariant
                i <= self@.len(),
                r@ =~= self@.subrange(0, i as int),
            decreases self@.len() - i,
        {
            r.push(self.entries[i]);
            i += 1;
        }
        proof {
            assert(r@ =~= self@);
        }
        r
    }
}

} // verus!
