use vstd::prelude::*;

verus! {

/// A counter that hands out `val`, `val + step`, `val + 2 * step`, and so on.
pub struct Additive {
    pub val: usize,
    pub step: usize,
}

impl Additive {
    /// The counter that starts at 0 and goes up by 1.
    #[inline]
    pub fn new() -> (r: Self)
        ensures
            r.val == 0,
            r.step == 1,
    {
        Self { val: 0, step: 1 }
    }

    /// Hands out the current number and moves on to the next.
    pub fn stamp(&mut self) -> (r: usize)
        requires
            old(self).val + old(self).step <= usize::MAX,
        ensures
            r == old(self).val,
            final(self).val == old(self).val + old(self).step,
            final(self).step == old(self).step,
    {
        let x = self.val;
        self.val += self.step;
        x
    }
}

} // verus!
