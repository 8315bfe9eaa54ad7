//! A staging pair for in-place filters: two equally sized sample buffers, an
//! active one that readers see and a scratch one a pass writes into, swapped
//! in one step so a reader never observes a half-written buffer.

use vstd::prelude::*;

verus! {

/// Two sample buffers of equal size (the image size), one active and one
/// scratch.
pub struct PingPongBuffers<T> {
    pub active: Vec<T>,
    pub scratch: Vec<T>,
    pub width: usize,
    pub height: usize,
    pub channels: usize,
}

impl<T: Default + Clone> PingPongBuffers<T> {
    /// Allocates both buffers at the size the dimensions imply, filled with
    /// the element type's default value.
    pub fn new(width: usize, height: usize, channels: usize) -> (r: Self)
        requires
            width as int * height as int <= usize::MAX,
            width as int * height as int * channels as int <= usize::MAX,
        ensures
            r.width == width,
            r.height == height,
            r.channels == channels,
            r.active@.len() == width as int * height as int * channels as int,
            r.scratch@.len() == width as int * height as int * channels as int,
    {
        let size: usize = width * height * channels;
        let mut active: Vec<T> = Vec::new();
        let mut i: usize = 0;
        while i < size
            invariant
                i <= size,
                active@.len() == i,
            decreases size - i,
        {
            active.push(T::default());
            i = i + 1;
        }
        let mut scratch: Vec<T> = Vec::new();
        let mut j: usize = 0;
        while j < size
            invariant
                j <= size,
                scratch@.len() == j,
            decreases size - j,
        {
            scratch.push(T::default());
            j = j + 1;
        }
        Self { active, scratch, width, height, channels }
    }

    /// Exchanges the active and scratch buffers: the one-step handoff that
    /// publishes a finished pass.
    pub fn swap(&mut self)
        ensures
            final(self).active == old(self).scratch,
            final(self).scratch == old(self).active,
            final(self).width == old(self).width,
            final(self).height == old(self).height,
            final(self).channels == old(self).channels,
    {
        core::mem::swap(&mut self.active, &mut self.scratch);
    }

    /// The number of samples each buffer holds.
    pub fn len(&self) -> (r: usize)
        ensures
            r == self.active@.len(),
    {
        self.active.len()
    }

    /// Read access to the active buffer.
    pub fn active_slice(&self) -> (r: &[T])
        ensures
            r@ == self.active@,
    {
        self.active.as_slice()
    }

    /// Write access to the active buffer; its length is fixed.
    pub fn active_slice_mut(&mut self) -> (r: &mut [T])
        ensures
            r@ == old(self).active@,
            final(self).active@ == final(r)@,
            final(self).scratch == old(self).scratch,
            final(self).width == old(self).width,
            final(self).height == old(self).height,
            final(self).channels == old(self).channels,
    {
        self.active.as_mut_slice()
    }

    /// Write access to the scratch buffer; its length is fixed.
    pub fn scratch_slice_mut(&mut self) -> (r: &mut [T])
        ensures
            r@ == old(self).scratch@,
            final(self).scratch@ == final(r)@,
            final(self).active == old(self).active,
            final(self).width == old(self).width,
            final(self).height == old(self).height,
            final(self).channels == old(self).channels,
    {
        self.scratch.as_mut_slice()
    }
}

} // verus!
