use vstd::prelude::*;

verus! {

/// A pause of a number of frames.
pub struct WaitingAnimator {
    frames_left: u32,
}

impl WaitingAnimator {
    /// The frames that are still to pass.
    pub closed spec fn remaining(&self) -> int {
        self.frames_left as int
    }

    /// A pause of `frames` frames.
    pub fn new(frames: u32) -> (animator: Self)
        ensures
            animator.remaining() == frames,
    {
        Self { frames_left: frames }
    }

    /// Lets one frame pass, if any is left.
    pub fn update(&mut self)
        ensures
            final(self).remaining() == if old(self).remaining() > 0 {
                old(self).remaining() - 1
            } else {
                0
            },
    {
        self.frames_left = self.frames_left.saturating_sub(1);
    }

    /// Whether the pause is over.
    pub fn done(&self) -> (done: bool)
        ensures
            done == (self.remaining() == 0),
    {
        self.frames_left == 0
    }
}

} // verus!
