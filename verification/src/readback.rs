//! Bringing rendered frames back from the device.
//!
//! A ring of staging buffers lets a frame be copied while earlier ones are still
//! on their way. The ring decides which buffer is used next and which frame
//! comes out; the copies themselves are the caller's.
use std::collections::VecDeque;
use vstd::prelude::*;

verus! {

/// A copy that was handed to the device and not yet read.
pub struct PendingCopy<B, C> {
    pub buf: B,
    pub copy: C,
}

/// `depth` staging buffers, of which the pending ones hold frames in the order in
/// which they were submitted.
pub struct ReadbackRing<B, C> {
    pub depth: usize,
    pub free: Vec<B>,
    pub pending: VecDeque<PendingCopy<B, C>>,
}

pub enum ReadbackError {
    /// Every staging buffer is in flight.
    RingSaturated,
    /// Nothing was submitted.
    NoFrame,
}

impl<B, C> ReadbackRing<B, C> {
    /// Every buffer is free, pending, or one of the `held` ones that the caller works with.
    pub open spec fn wf(self, held: int) -> bool {
        &&& self.depth >= 1
        &&& self.free@.len() + self.pending@.len() + held == self.depth
    }

    /// The frames in flight, oldest first.
    pub open spec fn frames(self) -> Seq<C> {
        self.pending@.map_values(|p: PendingCopy<B, C>| p.copy)
    }

    /// A ring with one buffer: every frame is read before the next is rendered.
    pub fn new(buf: B) -> (r: ReadbackRing<B, C>)
        ensures
            r.wf(0),
            r.depth == 1,
            r.free@ == seq![buf],
            r.pending@ == Seq::<PendingCopy<B, C>>::empty(),
    {
        let mut free: Vec<B> = Vec::new();
        free.push(buf);
        ReadbackRing { depth: 1, free, pending: VecDeque::new() }
    }

    /// The buffer to copy the next frame into.
    pub fn begin(&mut self) -> (r: Result<B, ReadbackError>)
        ensures
            final(self).depth == old(self).depth,
            final(self).pending == old(self).pending,
            match r {
                Ok(buf) => {
                    &&& old(self).free@.len() > 0
                    &&& buf == old(self).free@.last()
                    &&& final(self).free@ == old(self).free@.drop_last()
                },
                Err(e) => e is RingSaturated && old(self).free@.len() == 0 && final(self).free@
                    == old(self).free@,
            },
    {
        let last: Option<B> = self.free.pop();
        assert(old(self).free@.len() > 0 ==> self.free@ =~= old(self).free@.drop_last());
        match last {
            Some(buf) => Ok(buf),
            None => Err(ReadbackError::RingSaturated),
        }
    }

    /// Records a submitted copy. While the ring is filling nothing is due; once all
    /// buffers are in flight, the oldest copy is.
    pub fn submitted(&mut self, buf: B, copy: C) -> (due: Option<PendingCopy<B, C>>)
        ensures
            final(self).depth == old(self).depth,
            final(self).free == old(self).free,
            ({
                let queue = old(self).pending@.push(PendingCopy { buf, copy });
                if queue.len() < old(self).depth {
                    due is None && final(self).pending@ == queue
                } else {
                    due == Some(queue[0]) && final(self).pending@ == queue.drop_first()
                }
            }),
    {
        self.pending.push_back(PendingCopy { buf, copy });
        if self.pending.len() < self.depth {
            return None;
        }
        self.take()
    }

    /// The oldest copy in flight, which is now the caller's to read.
    pub fn take(&mut self) -> (due: Option<PendingCopy<B, C>>)
        ensures
            final(self).depth == old(self).depth,
            final(self).free == old(self).free,
            if old(self).pending@.len() > 0 {
                due == Some(old(self).pending@[0]) && final(self).pending@
                    == old(self).pending@.drop_first()
            } else {
                due is None && final(self).pending@ == old(self).pending@
            },
    {
        let due: Option<PendingCopy<B, C>> = self.pending.pop_front();
        assert(old(self).pending@.len() > 0 ==> self.pending@ =~= old(self).pending@.drop_first());
        due
    }

    /// Gives back the buffer of a copy that was read.
    pub fn release(&mut self, buf: B)
        ensures
            final(self).depth == old(self).depth,
            final(self).pending == old(self).pending,
            final(self).free@ == old(self).free@.push(buf),
    {
        self.free.push(buf);
    }

    /// Sets the number of buffers of a drained ring, at least one. Surplus buffers are
    /// dropped; the result is how many are missing.
    pub fn set_depth(&mut self, depth: usize) -> (missing: usize)
        requires
            old(self).pending@.len() == 0,
        ensures
            final(self).pending == old(self).pending,
            final(self).depth == (if depth >= 1 {
                depth
            } else {
                1
            }),
            final(self).free@ == old(self).free@.take(
                if old(self).free@.len() < final(self).depth {
                    old(self).free@.len() as int
                } else {
                    final(self).depth as int
                },
            ),
            missing == final(self).depth - final(self).free@.len(),
    {
        let wanted: usize = if depth >= 1 {
            depth
        } else {
            1
        };
        self.depth = wanted;
        if self.free.len() > wanted {
            self.free.truncate(wanted);
            assert(self.free@ =~= old(self).free@.take(wanted as int));
        } else {
            assert(self.free@ =~= old(self).free@.take(old(self).free@.len() as int));
        }
        wanted - self.free.len()
    }
}

/// Copies `rows` rows of `row` bytes, `pitch` bytes apart, into one contiguous block.
pub fn copy_rows(data: &[u8], pitch: usize, row: usize, rows: usize) -> (out: Vec<u8>)
    requires
        rows > 0 ==> (rows - 1) * pitch + row <= data@.len(),
        row * rows <= usize::MAX,
    ensures
        out@.len() == row * rows,
        forall|y: int, x: int|
            #![trigger out@[y * row + x]]
            0 <= y < rows && 0 <= x < row ==> out@[y * row + x] == data@[y * pitch + x],
{
    let len: usize = data.len();
    let mut out: Vec<u8> = Vec::with_capacity(row * rows);
    let mut y: usize = 0;
    assert(row * 0 == 0);
    while y < rows
        invariant
            y <= rows,
            len == data@.len(),
            rows > 0 ==> (rows - 1) * pitch + row <= data@.len(),
            out@.len() == row * y,
            forall|j: int, x: int|
                #![trigger out@[j * row + x]]
                0 <= j < y && 0 <= x < row ==> out@[j * row + x] == data@[j * pitch + x],
        decreases rows - y,
    {
        let ghost before = out@;
        proof {
            assert(y * pitch + row <= data@.len() && y * pitch >= 0) by (nonlinear_arith)
                requires
                    0 <= y <= rows - 1,
                    (rows - 1) * pitch + row <= data@.len(),
                    pitch >= 0,
                    row >= 0,
            ;
        }
        let start: usize = y * pitch;
        let mut x: usize = 0;
        while x < row
            invariant
                x <= row,
                len == data@.len(),
                start == y * pitch,
                start + row <= data@.len(),
                before.len() == row * y,
                out@.len() == before.len() + x,
                forall|k: int| 0 <= k < before.len() ==> #[trigger] out@[k] == before[k],
                forall|k: int|
                    before.len() <= k < out@.len() ==> #[trigger] out@[k] == data@[start + k
                        - before.len()],
            decreases row - x,
        {
            out.push(data[start + x]);
            x = x + 1;
        }
        proof {
            assert(row * (y + 1) == row * y + row) by (nonlinear_arith);
            assert forall|j: int, x: int|
                #![trigger out@[j * row + x]]
                0 <= j < y + 1 && 0 <= x < row implies out@[j * row + x] == data@[j * pitch + x] by {
                if j < y {
                    assert(0 <= j * row + x < before.len()) by (nonlinear_arith)
                        requires
                            0 <= j < y,
                            0 <= x < row,
                            before.len() == row * y,
                    ;
                    assert(out@[j * row + x] == before[j * row + x]);
                } else {
                    assert(j * row == before.len()) by (nonlinear_arith)
                        requires
                            j == y,
                            before.len() == row * y,
                    ;
                }
            }
        }
        y = y + 1;
    }
    out
}

/// The newest frame of a read that empties the ring: the last one that draining let out, else
/// the one that came when the frame was submitted.
pub fn newest<T>(due: Option<T>, drained: Vec<T>) -> (r: Result<T, ReadbackError>)
    ensures
        r matches Ok(frame) ==> (if drained@.len() > 0 {
            frame == drained@.last()
        } else {
            due == Some(frame)
        }),
        r matches Err(e) ==> drained@.len() == 0 && due is None && e is NoFrame,
{
    let mut all: Vec<T> = drained;
    match all.pop() {
        Some(frame) => Ok(frame),
        None => match due {
            Some(frame) => Ok(frame),
            None => Err(ReadbackError::NoFrame),
        },
    }
}

/// A read that submits the current frame and empties the ring gives that very frame, whatever
/// was in flight.
pub proof fn law_direct_read_is_current<C>(depth: int, in_flight: Seq<C>, copy: C)
    requires
        depth >= 1,
        in_flight.len() < depth,
    ensures
        ({
            let (left, came) = after_submit(depth, in_flight, copy);
            if left.len() > 0 {
                left.last() == copy
            } else {
                came == Some(copy)
            }
        }),
{
}

/// The RGBA pixels of a mapped staging buffer, without the bytes that pad its rows.
pub fn unpad_rgba(mapped: &[u8], w: u32, h: u32, bytes_per_row: u32) -> (out: Vec<u8>)
    requires
        4 * w <= u32::MAX,
        4 * w * h <= usize::MAX,
        h > 0 ==> (h - 1) * bytes_per_row + 4 * w <= mapped@.len(),
    ensures
        out@.len() == 4 * w * h,
        forall|y: int, x: int|
            #![trigger out@[y * (4 * w) + x]]
            0 <= y < h && 0 <= x < 4 * w ==> out@[y * (4 * w) + x] == mapped@[y * bytes_per_row
                + x],
{
    copy_rows(mapped, bytes_per_row as usize, (w * 4) as usize, h as usize)
}

/// What a ring does with one more frame: the frames in flight, and the frame that
/// comes out of a full ring.
pub open spec fn after_submit<C>(
    depth: int,
    in_flight: Seq<C>,
    frame: C,
) -> (Seq<C>, Option<C>) {
    let queue = in_flight.push(frame);
    if queue.len() < depth {
        (queue, None)
    } else {
        (queue.drop_first(), Some(queue[0]))
    }
}

/// The frames that came out, and those still in flight, after submitting `frames` to a
/// ring that starts with `in_flight`.
pub open spec fn after_submits<C>(
    depth: int,
    in_flight: Seq<C>,
    frames: Seq<C>,
) -> (Seq<C>, Seq<C>)
    decreases frames.len(),
{
    if frames.len() == 0 {
        (Seq::empty(), in_flight)
    } else {
        let (came, left) = after_submits(depth, in_flight, frames.drop_last());
        let (next, due) = after_submit(depth, left, frames.last());
        (
            match due {
                Some(frame) => came.push(frame),
                None => came,
            },
            next,
        )
    }
}

/// `submitted` does to the frames in flight what `after_submit` says.
pub proof fn law_submitted_is_one_step<B, C>(
    before: ReadbackRing<B, C>,
    after: ReadbackRing<B, C>,
    due: Option<PendingCopy<B, C>>,
    buf: B,
    copy: C,
)
    requires
        ({
            let queue = before.pending@.push(PendingCopy { buf, copy });
            if queue.len() < before.depth {
                due is None && after.pending@ == queue
            } else {
                due == Some(queue[0]) && after.pending@ == queue.drop_first()
            }
        }),
    ensures
        ({
            let (next, came) = after_submit(before.depth as int, before.frames(), copy);
            &&& after.frames() == next
            &&& (due is None <==> came is None)
            &&& due matches Some(p) ==> came == Some(p.copy)
        }),
{
    let queue = before.pending@.push(PendingCopy { buf, copy });
    let frames = before.frames().push(copy);
    assert(queue.map_values(|p: PendingCopy<B, C>| p.copy) =~= frames);
    let (next, came) = after_submit(before.depth as int, before.frames(), copy);
    assert(after.frames() =~= next);
}

/// No frame is lost, repeated or reordered: what came out, followed by what is still in
/// flight, is what was in flight before, followed by what was submitted.
pub proof fn law_frames_come_out_in_order<C>(depth: int, in_flight: Seq<C>, frames: Seq<C>)
    requires
        depth >= 1,
    ensures
        ({
            let (came, left) = after_submits(depth, in_flight, frames);
            came + left == in_flight + frames
        }),
    decreases frames.len(),
{
    let (came, left) = after_submits(depth, in_flight, frames);
    if frames.len() == 0 {
        assert(came + left =~= in_flight + frames);
    } else {
        law_frames_come_out_in_order(depth, in_flight, frames.drop_last());
        let (before, was) = after_submits(depth, in_flight, frames.drop_last());
        let queue = was.push(frames.last());
        assert(before + queue =~= in_flight + frames) by {
            assert(before + queue =~= (before + was).push(frames.last()));
            assert((in_flight + frames.drop_last()).push(frames.last()) =~= in_flight + frames);
        }
        if queue.len() >= depth {
            assert(before.push(queue[0]) + queue.drop_first() =~= before + queue);
        }
    }
}

/// A frame comes out `depth - 1` submissions after its own: from an empty ring, the
/// first `depth - 1` frames stay in flight and every further submission brings one
/// frame out. With one buffer every frame comes out at once.
pub proof fn law_latency_is_one_less_than_depth<C>(depth: int, frames: Seq<C>)
    requires
        depth >= 1,
    ensures
        ({
            let (came, left) = after_submits(depth, Seq::<C>::empty(), frames);
            &&& left.len() == (if frames.len() < depth {
                frames.len() as int
            } else {
                depth - 1
            })
            &&& came == frames.take(frames.len() - left.len())
            &&& left == frames.skip(frames.len() - left.len())
        }),
    decreases frames.len(),
{
    let (came, left) = after_submits(depth, Seq::<C>::empty(), frames);
    if frames.len() > 0 {
        law_latency_is_one_less_than_depth(depth, frames.drop_last());
    }
    law_frames_come_out_in_order(depth, Seq::<C>::empty(), frames);
    let all = came + left;
    assert(Seq::<C>::empty() + frames =~= frames);
    assert(all.len() == frames.len());
    assert(came =~= frames.take(came.len() as int)) by {
        assert(all.take(came.len() as int) =~= came);
    }
    assert(left =~= frames.skip(came.len() as int)) by {
        assert(all.skip(came.len() as int) =~= left);
    }
}

/// As long as every buffer that is read is given back, a free buffer is there for the
/// next frame.
pub proof fn law_ring_never_saturates<B, C>(ring: ReadbackRing<B, C>)
    requires
        ring.wf(0),
        ring.pending@.len() < ring.depth,
    ensures
        ring.free@.len() > 0,
{
}

} // verus!
