use vstd::prelude::*;

verus! {

/// A deduplicating LIFO worklist of cell indices pending re-examination.
/// Pushing an element that is already queued is a no-op, so no element ever
/// appears twice and re-propagation of the same coordinate is avoided.
pub struct UniqueStack {
    stack: Vec<usize>,
}

/// What one push leaves on the stack: the stack unchanged when `x` is
/// already queued, the stack with `x` appended otherwise.
pub open spec fn spec_push(s: Seq<usize>, x: usize) -> Seq<usize> {
    if s.contains(x) {
        s
    } else {
        s.push(x)
    }
}

/// Pushing the same element twice leaves exactly what pushing it once
/// leaves: the second push is a no-op.
pub proof fn lemma_push_dedup(s: Seq<usize>, x: usize)
    ensures
        spec_push(spec_push(s, x), x) == spec_push(s, x),
{
    if !s.contains(x) {
        assert(s.push(x)[s.len() as int] == x);
        assert(s.push(x).contains(x));
    }
}

/// Appending `e` to `s` yields a sequence holding exactly the elements of
/// `s` together with `e`.
pub proof fn lemma_push_contains(s: Seq<usize>, e: usize, y: usize)
    ensures
        s.push(e).contains(y) <==> (s.contains(y) || y == e),
{
    assert(s.push(e)[s.len() as int] == e);
    if s.contains(y) {
        let k = choose|k: int| 0 <= k < s.len() && s[k] == y;
        assert(s.push(e)[k] == y);
    }
    if s.push(e).contains(y) {
        let k = choose|k: int| 0 <= k < s.push(e).len() && s.push(e)[k] == y;
        if k < s.len() {
            assert(s[k] == y);
        }
    }
}

/// One deduplicating push yields a worklist holding exactly the old
/// elements together with the pushed one.
pub proof fn lemma_spec_push_contains(s: Seq<usize>, e: usize, y: usize)
    ensures
        spec_push(s, e).contains(y) <==> (s.contains(y) || y == e),
{
    lemma_push_contains(s, e, y);
}

/// What pushing the elements of `xs` in order leaves on a stack that
/// already holds `s`: the in-order deduplicating fold of `xs`.
pub open spec fn spec_push_all(s: Seq<usize>, xs: Seq<usize>) -> Seq<usize>
    decreases xs.len(),
{
    if xs.len() == 0 {
        s
    } else {
        spec_push_all(spec_push(s, xs[0]), xs.drop_first())
    }
}

/// The fold can also take its last push separately.
pub proof fn lemma_push_all_snoc(s: Seq<usize>, xs: Seq<usize>, v: usize)
    ensures
        spec_push_all(s, xs.push(v)) == spec_push(spec_push_all(s, xs), v),
    decreases xs.len(),
{
    if xs.len() == 0 {
        assert(xs.push(v)[0] == v);
        assert(xs.push(v).drop_first() =~= Seq::<usize>::empty());
        assert(xs.push(v).drop_first() == Seq::<usize>::empty());
        assert(spec_push_all(spec_push(s, v), Seq::<usize>::empty()) == spec_push(s, v));
        assert(spec_push_all(s, xs.push(v)) == spec_push_all(
            spec_push(s, v),
            xs.push(v).drop_first(),
        ));
        assert(spec_push_all(s, xs) == s);
    } else {
        assert(xs.push(v)[0] == xs[0]);
        assert(xs.push(v).drop_first() =~= xs.drop_first().push(v));
        assert(xs.push(v).drop_first() == xs.drop_first().push(v));
        lemma_push_all_snoc(spec_push(s, xs[0]), xs.drop_first(), v);
        assert(spec_push_all(s, xs.push(v)) == spec_push_all(
            spec_push(s, xs[0]),
            xs.drop_first().push(v),
        ));
        assert(spec_push_all(s, xs) == spec_push_all(spec_push(s, xs[0]), xs.drop_first()));
    }
}

impl UniqueStack {
    /// The queued elements, oldest first.
    pub closed spec fn view(&self) -> Seq<usize> {
        self.stack@
    }

    /// No element is queued twice.
    pub open spec fn wf(&self) -> bool {
        forall|i: int, j: int|
            0 <= i < j < self@.len() ==> self@[i] != self@[j]
    }

    pub fn new() -> (r: UniqueStack)
        ensures
            r@ =~= Seq::<usize>::empty(),
            r.wf(),
    {
        UniqueStack { stack: Vec::new() }
    }

    /// Whether `x` is queued.
    fn contains(&self, x: usize) -> (r: bool)
        ensures
            r == self@.contains(x),
    {
        let mut i: usize = 0;
        while i < self.stack.len()
            invariant
                i <= self.stack.len(),
                forall|j: int| 0 <= j < i ==> self.stack@[j] != x,
            decreases self.stack.len() - i,
        {
            if self.stack[i] == x {
                return true;
            }
            i += 1;
        }
        false
    }

    /// Remove and return the most recently pushed element, or `None` when
    /// the worklist is empty.
    pub fn pop(&mut self) -> (r: Option<usize>)
        ensures
            match r {
                None => old(self)@.len() == 0 && final(self)@ == old(self)@,
                Some(x) => old(self)@.len() > 0 && x == old(self)@.last() && final(self)@ == old(
                    self,
                )@.drop_last(),
            },
            old(self).wf() ==> final(self).wf(),
    {
        self.stack.pop()
    }

    /// Queue `x`, unless it is already queued.
    pub fn push(&mut self, x: usize)
        ensures
            final(self)@ == spec_push(old(self)@, x),
            old(self).wf() ==> final(self).wf(),
    {
        if !self.contains(x) {
            self.stack.push(x);
        }
    }

    /// Whether the worklist holds no element.
    pub fn is_empty(&self) -> (r: bool)
        ensures
            r == (self@.len() == 0),
    {
        self.stack.len() == 0
    }

    /// A worklist primed with the elements of `xs`, pushed in order: the
    /// result is the in-order deduplicating fold of the array, so its
    /// last distinct element pops first.
    pub fn from<const N: usize>(xs: [usize; N]) -> (r: UniqueStack)
        ensures
            r.wf(),
            r@ == spec_push_all(Seq::<usize>::empty(), xs@),
            forall|x: usize| r@.contains(x) <==> xs@.contains(x),
    {
        let mut r = UniqueStack::new();
        let mut i: usize = 0;
        while i < N
            invariant
                i <= N,
                xs@.len() == N,
                r.wf(),
                r@ == spec_push_all(Seq::<usize>::empty(), xs@.subrange(0, i as int)),
                forall|x: usize| r@.contains(x) <==> xs@.subrange(0, i as int).contains(x),
            decreases N - i,
        {
            let ghost pre = r@;
            r.push(xs[i]);
            proof {
                assert(xs@.subrange(0, i as int + 1) =~= xs@.subrange(0, i as int).push(
                    xs@[i as int],
                ));
                lemma_push_all_snoc(
                    Seq::<usize>::empty(),
                    xs@.subrange(0, i as int),
                    xs@[i as int],
                );
                assert forall|x: usize|
                    r@.contains(x) <==> xs@.subrange(0, i as int + 1).contains(x) by {
                    lemma_spec_push_contains(pre, xs@[i as int], x);
                    lemma_push_contains(xs@.subrange(0, i as int), xs@[i as int], x);
                }
            }
            i += 1;
        }
        proof {
            assert(xs@.subrange(0, N as int) =~= xs@);
        }
        r
    }
}

} // verus!
