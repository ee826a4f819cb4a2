//! A lazy, restartable "apply a function repeatedly" generator, used by
//! callers that want repeated doubling or counting without manual loop
//! state. The values a run produces are pinned down through the step
//! function's own contract: consecutive values are input/output pairs
//! of it.
use vstd::prelude::*;

verus! {

/// A generator holding the value to hand out next and the step function.
pub struct Iterate<I, F> {
    pub current: I,
    pub f: F,
}

/// Starts a generator at `init`: it yields `init` first, then each later
/// value is the step function applied to the one before.
pub fn iterate<I, F: Fn(&I) -> I>(init: I, f: F) -> (r: Iterate<I, F>)
    ensures
        r.current == init,
        r.f == f,
{
    Iterate { current: init, f }
}

impl<I, F: Fn(&I) -> I> Iterate<I, F> {
    /// Hands out the current value and steps the generator past it.
    pub fn next(&mut self) -> (r: Option<I>)
        requires
            call_requires(old(self).f, (&old(self).current,)),
        ensures
            r == Some(old(self).current),
            final(self).f == old(self).f,
            call_ensures(old(self).f, (&old(self).current,), final(self).current),
    {
        let mut next_val = (self.f)(&self.current);
        core::mem::swap(&mut self.current, &mut next_val);
        Some(next_val)
    }

    /// The first `n` values: the start value, each later one produced
    /// from its predecessor by the step function.
    pub fn take(self, n: usize) -> (out: Vec<I>)
        requires
            forall|x: I| call_requires(self.f, (&x,)),
        ensures
            out@.len() == n,
            n > 0 ==> out@[0] == self.current,
            forall|j: int|
                0 <= j < n - 1 ==> call_ensures(self.f, (&out@[j],), #[trigger] out@[j + 1]),
    {
        let ghost f0 = self.f;
        let ghost c0 = self.current;
        let mut it = self;
        let mut out: Vec<I> = Vec::new();
        let mut i: usize = 0;
        while i < n
            invariant
                i <= n,
                out@.len() == i,
                it.f == f0,
                forall|x: I| call_requires(f0, (&x,)),
                i == 0 ==> it.current == c0,
                i > 0 ==> out@[0] == c0,
                i > 0 ==> call_ensures(f0, (&out@[i - 1],), it.current),
                forall|j: int| 0 <= j < i - 1 ==> call_ensures(f0, (&out@[j],), #[trigger] out@[j + 1]),
            decreases n - i,
        {
            match it.next() {
                Some(v) => {
                    out.push(v);
                },
                None => {
                    proof {
                        assert(false);
                    }
                },
            }
            i = i + 1;
        }
        out
    }
}

} // verus!
