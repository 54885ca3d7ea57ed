//! Windows that slide over a run of samples.

use vstd::prelude::*;
use vstd::slice::slice_subrange;

verus! {

/// Windows of a fixed width over a slice, each starting a fixed step after
/// the one before.
pub struct Slides<'a, T: 'a> {
    v: &'a [T],
    window: usize,
    step: usize,
}

impl<'a, T> Slides<'a, T> {
    /// Windows are not empty, and they leave no gaps.
    #[verifier::type_invariant]
    spec fn leaves_no_gaps(&self) -> bool {
        0 < self.step <= self.window
    }

    /// What is left of the slice: the next window starts at its beginning.
    pub closed spec fn rest(&self) -> Seq<T> {
        self.v@
    }

    /// Width of a window.
    pub closed spec fn window(&self) -> usize {
        self.window
    }

    /// Distance between the starts of two windows.
    pub closed spec fn step(&self) -> usize {
        self.step
    }

    /// Returns the next window, unless what is left of the slice is shorter
    /// than a window, and moves on by one step.
    pub fn next(&mut self) -> (slide: Option<&'a [T]>)
        ensures
            final(self).window() == old(self).window(),
            final(self).step() == old(self).step(),
            match slide {
                None => old(self).window() > old(self).rest().len() && final(self).rest() == old(
                    self,
                ).rest(),
                Some(slide) => {
                    &&& old(self).window() <= old(self).rest().len()
                    &&& slide@ == old(self).rest().subrange(0, old(self).window() as int)
                    &&& final(self).rest() == old(self).rest().subrange(
                        old(self).step() as int,
                        old(self).rest().len() as int,
                    )
                },
            },
    {
        proof {
            use_type_invariant(&*self);
        }
        if self.window > self.v.len() {
            None
        } else {
            let slide = slice_subrange(self.v, 0, self.window);
            self.v = slice_subrange(self.v, self.step, self.v.len());
            Some(slide)
        }
    }
}

/// Returns the windows of width `window` over `slice` that start every
/// `step` elements. Neither may be zero, and windows may not leave gaps.
pub fn slides<T>(slice: &Vec<T>, window: usize, step: usize) -> (slides: Slides<'_, T>)
    requires
        window != 0,
        step != 0,
        window >= step,
    ensures
        slides.rest() == slice@,
        slides.window() == window,
        slides.step() == step,
{
    Slides { v: slice.as_slice(), window, step }
}

} // verus!
