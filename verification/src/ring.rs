//! Assembling a fixed-length sample window from buffers of any size.
//!
//! A recorder hands over buffers of whatever size the platform chose, so the
//! window is kept in a ring and read out rotated: the oldest sample is always
//! first, and a visualizer never sees the write cursor as a step in the middle
//! of its drawing.

use vstd::prelude::*;

verus! {

/// The ring slot holding the `i`-th oldest sample when the oldest sits at
/// `write_pos`.
pub open spec fn ring_slot(write_pos: int, i: int, len: int) -> int {
    if write_pos + i < len {
        write_pos + i
    } else {
        write_pos + i - len
    }
}

/// A window of the most recent samples, kept in a ring.
pub struct SampleRing<T> {
    ring: Vec<T>,
    write_pos: usize,
}

impl<T> SampleRing<T> {
    /// The ring holds at least one slot and the write cursor points into it.
    pub closed spec fn well_formed(self) -> bool {
        0 < self.ring.len() && self.write_pos < self.ring.len()
    }

    /// The window, oldest sample first.
    pub closed spec fn window_view(self) -> Seq<T> {
        Seq::new(
            self.ring.len() as nat,
            |i: int| self.ring@[ring_slot(self.write_pos as int, i, self.ring.len() as int)],
        )
    }

}

impl<T: Copy> SampleRing<T> {
    /// A window of `len` copies of `fill`.
    pub fn new(len: usize, fill: T) -> (ring: Self)
        requires
            len > 0,
        ensures
            ring.well_formed(),
            ring.window_view() == Seq::new(len as nat, |i: int| fill),
    {
        let mut slots: Vec<T> = Vec::new();
        while slots.len() < len
            invariant
                slots.len() <= len,
                forall|j: int| 0 <= j < slots.len() ==> slots@[j] == fill,
            decreases len - slots.len(),
        {
            slots.push(fill);
        }
        let ring = SampleRing { ring: slots, write_pos: 0 };
        assert(ring.window_view() =~= Seq::new(len as nat, |i: int| fill));
        ring
    }

    /// The number of samples in the window.
    pub fn len(&self) -> (len: usize)
        requires
            self.well_formed(),
        ensures
            len == self.window_view().len(),
            len > 0,
    {
        self.ring.len()
    }

    /// Moves the window on by one sample: the oldest drops out and `sample`
    /// becomes the newest.
    pub fn push(&mut self, sample: T)
        requires
            old(self).well_formed(),
        ensures
            final(self).well_formed(),
            final(self).window_view() == old(self).window_view().drop_first().push(sample),
    {
        let ghost before = self.window_view();
        let len = self.ring.len();
        let pos = self.write_pos;
        self.ring.set(pos, sample);
        self.write_pos = if pos + 1 == len {
            0
        } else {
            pos + 1
        };
        assert(self.window_view() =~= before.drop_first().push(sample));
    }

    /// Moves the window on by every sample of `samples`, in order.
    pub fn extend(&mut self, samples: &[T])
        requires
            old(self).well_formed(),
        ensures
            final(self).well_formed(),
            final(self).window_view() == (old(self).window_view() + samples@).skip(
                samples@.len() as int,
            ),
    {
        let ghost start = self.window_view();
        let mut j: usize = 0;
        proof {
            assert((start + samples@.take(0)).skip(0) =~= start);
        }
        while j < samples.len()
            invariant
                j <= samples.len(),
                self.window_view() == (start + samples@.take(j as int)).skip(j as int),
                start.len() > 0,
                self.well_formed(),
            decreases samples.len() - j,
        {
            let ghost current = self.window_view();
            self.push(samples[j]);
            proof {
                assert((start + samples@.take(j + 1)).skip(j + 1) =~= current.drop_first().push(
                    samples@[j as int],
                ));
            }
            j = j + 1;
        }
        proof {
            assert(samples@.take(samples.len() as int) =~= samples@);
        }
    }

    /// The window as a vector, oldest sample first.
    pub fn window(&self) -> (window: Vec<T>)
        requires
            self.well_formed(),
        ensures
            window@ == self.window_view(),
    {
        let len = self.ring.len();
        let pos = self.write_pos;
        let mut out: Vec<T> = Vec::new();
        let mut i: usize = 0;
        while i < len
            invariant
                i <= len,
                len == self.ring.len(),
                pos == self.write_pos,
                pos < len,
                self.well_formed(),
                out@ =~= self.window_view().take(i as int),
            decreases len - i,
        {
            let slot = if i < len - pos {
                pos + i
            } else {
                i - (len - pos)
            };
            out.push(self.ring[slot]);
            i = i + 1;
        }
        out
    }
}

/// The window does not depend on how the signal was cut into buffers: moving
/// it on by `first` and then by `second` is moving it on by both at once.
pub proof fn lemma_window_ignores_buffer_sizes<T>(window: Seq<T>, first: Seq<T>, second: Seq<T>)
    ensures
        ((window + first).skip(first.len() as int) + second).skip(second.len() as int) == (window
            + (first + second)).skip((first.len() + second.len()) as int),
{
    assert(((window + first).skip(first.len() as int) + second).skip(second.len() as int) =~= (
    window + (first + second)).skip((first.len() + second.len()) as int));
}

/// A buffer at least as long as the window replaces it outright with the
/// buffer's newest samples.
pub proof fn lemma_long_buffer_fills_window<T>(window: Seq<T>, samples: Seq<T>)
    requires
        samples.len() >= window.len(),
    ensures
        (window + samples).skip(samples.len() as int) == samples.skip(
            samples.len() - window.len(),
        ),
{
    assert((window + samples).skip(samples.len() as int) =~= samples.skip(
        samples.len() - window.len(),
    ));
}

} // verus!
