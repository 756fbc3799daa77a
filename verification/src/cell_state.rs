use vstd::prelude::*;

use crate::types::Id;

verus! {

/// Per-cell solver state: either a set of remaining candidate tile
/// identifiers, or a single resolved identifier. A cell only ever moves
/// from unresolved to resolved, never back.
pub struct CellState {
    pub choices: Vec<Id>,
    pub state: Option<Id>,
}

/// The position of the first occurrence of `x` in `s` (meaningful only
/// when `s` contains `x`).
pub open spec fn first_index(s: Seq<Id>, x: Id) -> int
    decreases s.len(),
{
    if s.len() == 0 {
        0
    } else if s[0] == x {
        0
    } else {
        1 + first_index(s.drop_first(), x)
    }
}

/// When `s` contains `x`, `first_index` points at an occurrence of `x` and
/// everything before it differs from `x`.
pub proof fn lemma_first_index(s: Seq<Id>, x: Id)
    requires
        s.contains(x),
    ensures
        0 <= first_index(s, x) < s.len(),
        s[first_index(s, x)] == x,
        forall|j: int| 0 <= j < first_index(s, x) ==> s[j] != x,
    decreases s.len(),
{
    if s.len() == 0 {
    } else if s[0] == x {
    } else {
        let t = s.drop_first();
        assert(t.contains(x)) by {
            let i = choose|i: int| 0 <= i < s.len() && s[i] == x;
            assert(t[i - 1] == x);
        }
        lemma_first_index(t, x);
        assert forall|j: int| 0 <= j < first_index(s, x) implies s[j] != x by {
            if j > 0 {
                assert(s[j] == t[j - 1]);
            }
        }
    }
}

impl CellState {
    /// The candidate identifiers this cell still admits: the resolved
    /// singleton once collapsed, the remaining choices before that.
    pub open spec fn domain(&self) -> Seq<Id> {
        match self.state {
            Some(id) => seq![id],
            None => self.choices@,
        }
    }

    /// Whether this cell has been resolved to a single identifier.
    pub fn is_collapsed(&self) -> (r: bool)
        ensures
            r == self.state.is_some(),
    {
        self.state.is_some()
    }

    /// The candidate identifiers, as a fresh vector.
    pub fn get_choices(&self) -> (r: Vec<Id>)
        ensures
            r@ == self.domain(),
    {
        match self.state {
            Some(id) => {
                let mut v: Vec<Id> = Vec::new();
                v.push(id);
                assert(v@ =~= self.domain());
                v
            }
            None => {
                let mut v: Vec<Id> = Vec::new();
                let mut i: usize = 0;
                while i < self.choices.len()
                    invariant
                        i <= self.choices.len(),
                        v@ =~= self.choices@.subrange(0, i as int),
                    decreases self.choices.len() - i,
                {
                    v.push(self.choices[i]);
                    i += 1;
                }
                assert(v@ =~= self.domain());
                v
            }
        }
    }

    /// Remove the first occurrence of `choice` from the remaining
    /// candidates; a no-op when `choice` is not among them.
    pub fn remove_choice(&mut self, choice: &Id)
        ensures
            final(self).state == old(self).state,
            !old(self).choices@.contains(*choice) ==> final(self).choices@ == old(self).choices@,
            old(self).choices@.contains(*choice) ==> final(self).choices@ == old(
                self,
            ).choices@.remove(first_index(old(self).choices@, *choice)),
    {
        let ghost orig = self.choices@;
        let x = *choice;
        let mut i: usize = 0;
        while i < self.choices.len()
            invariant
                i <= self.choices.len(),
                orig == old(self).choices@,
                self.choices@ == orig,
                self.state == old(self).state,
                forall|j: int| 0 <= j < i ==> orig[j] != x,
                x == *choice,
            decreases self.choices.len() - i,
        {
            if self.choices[i] == x {
                proof {
                    assert(orig.contains(x)) by {
                        assert(orig[i as int] == x);
                    }
                    lemma_first_index(orig, x);
                    assert(first_index(orig, x) == i) by {
                        let fi = first_index(orig, x);
                        if fi < i {
                            assert(orig[fi] != x);
                        }
                        if fi > i {
                            assert(orig[i as int] != x);
                        }
                    }
                }
                self.choices.remove(i);
                return ;
            }
            i += 1;
        }
        proof {
            if orig.contains(x) {
                let k = choose|k: int| 0 <= k < orig.len() && orig[k] == x;
                assert(orig[k] != x);
            }
        }
    }
}

} // verus!
