//! Frame pipeline: the bounded FIFO channel that carries ownership of
//! intensity frames from the producer to the consumer, and the two loops'
//! decision logic.
//!
//! The channel transfers each frame whole: the sender gives it up on a
//! successful send, the receiver owns it until it hands it on, so no two
//! sides ever mutate one frame at once. The capacity is small and fixed;
//! when the buffer is full the producer is told to wait (backpressure)
//! rather than frames being dropped. After the channel is closed the
//! consumer drains every buffered frame before it terminates.
//!
//! The asynchronous scheduler that runs the two loops is an external
//! collaborator: it performs the capture, the suspension and the display,
//! and feeds the resulting events into the decision functions here.

use vstd::prelude::*;
use crate::frame::{RawFrame, IntensityFrame, to_intensity, intensity_of};
use crate::convolve::{filter_frame, filtered_data};
use crate::kernel::Kernel;

verus! {

/// The bounded FIFO channel between producer and consumer. Frames leave in
/// exactly the order they entered; a closed channel accepts nothing more
/// but still hands out what it buffered.
pub struct FrameChannel {
    buf: Vec<IntensityFrame>,
    capacity: usize,
    shut: bool,
}

impl FrameChannel {
    /// The buffered frames, oldest first.
    pub closed spec fn queue(&self) -> Seq<IntensityFrame> {
        self.buf@
    }

    /// The fixed capacity the channel was created with.
    pub closed spec fn cap(&self) -> int {
        self.capacity as int
    }

    /// Whether the sending side has been closed.
    pub closed spec fn is_shut(&self) -> bool {
        self.shut
    }

    /// Channel invariant: positive capacity, never over capacity, and every
    /// buffered frame is well-formed.
    pub open spec fn wf(&self) -> bool {
        &&& 1 <= self.cap()
        &&& self.queue().len() <= self.cap()
        &&& forall|i: int| 0 <= i < self.queue().len() ==> self.queue()[i].wf()
    }

    /// Creates an open, empty channel of the given capacity.
    pub fn new(capacity: usize) -> (ch: FrameChannel)
        requires
            1 <= capacity,
        ensures
            ch.wf(),
            ch.cap() == capacity,
            ch.queue() == Seq::<IntensityFrame>::empty(),
            !ch.is_shut(),
    {
        let ch = FrameChannel { buf: Vec::new(), capacity, shut: false };
        proof {
            assert(ch.queue() =~= Seq::<IntensityFrame>::empty());
        }
        ch
    }

    /// Number of frames currently buffered.
    pub fn len(&self) -> (n: usize)
        ensures
            n == self.queue().len(),
    {
        self.buf.len()
    }

    /// Whether the sending side has closed the channel.
    pub fn is_closed(&self) -> (b: bool)
        ensures
            b == self.is_shut(),
    {
        self.shut
    }

    /// Closes the sending side. Buffered frames stay available to the
    /// consumer; nothing more can be enqueued.
    pub fn close(&mut self)
        requires
            old(self).wf(),
        ensures
            final(self).wf(),
            final(self).is_shut(),
            final(self).queue() == old(self).queue(),
            final(self).cap() == old(self).cap(),
    {
        self.shut = true;
    }

    /// Attempts to enqueue a frame. On a closed channel the frame comes
    /// back with the terminal outcome; on a full channel it comes back to
    /// be retried once the consumer caught up (backpressure, no drop); on
    /// success the channel takes ownership and appends it at the tail.
    pub fn try_send(&mut self, fr: IntensityFrame) -> (r: SendOutcome)
        requires
            old(self).wf(),
            fr.wf(),
        ensures
            final(self).wf(),
            final(self).cap() == old(self).cap(),
            final(self).is_shut() == old(self).is_shut(),
            old(self).is_shut() ==> r == SendOutcome::Closed(fr)
                && final(self).queue() == old(self).queue(),
            !old(self).is_shut() && old(self).queue().len() < old(self).cap()
                ==> r == SendOutcome::Sent
                    && final(self).queue() == old(self).queue().push(fr),
            !old(self).is_shut() && old(self).queue().len() == old(self).cap()
                ==> r == SendOutcome::Full(fr)
                    && final(self).queue() == old(self).queue(),
    {
        if self.shut {
            SendOutcome::Closed(fr)
        } else if self.buf.len() == self.capacity {
            SendOutcome::Full(fr)
        } else {
            self.buf.push(fr);
            SendOutcome::Sent
        }
    }

    /// Attempts to dequeue the oldest frame. An empty open channel asks the
    /// consumer to wait; an empty closed channel is the terminal outcome.
    pub fn try_recv(&mut self) -> (r: RecvOutcome)
        requires
            old(self).wf(),
        ensures
            final(self).wf(),
            final(self).cap() == old(self).cap(),
            final(self).is_shut() == old(self).is_shut(),
            old(self).queue().len() > 0 ==> r == RecvOutcome::Received(old(self).queue()[0])
                && final(self).queue() == old(self).queue().drop_first(),
            old(self).queue().len() == 0 && !old(self).is_shut() ==> r == RecvOutcome::Empty
                && final(self).queue() == old(self).queue(),
            old(self).queue().len() == 0 && old(self).is_shut() ==> r == RecvOutcome::Disconnected
                && final(self).queue() == old(self).queue(),
    {
        if self.buf.len() > 0 {
            let fr = self.buf.remove(0);
            proof {
                assert(self.buf@ =~= old(self).buf@.drop_first());
            }
            RecvOutcome::Received(fr)
        } else if self.shut {
            RecvOutcome::Disconnected
        } else {
            RecvOutcome::Empty
        }
    }
}

/// Outcome of one enqueue attempt.
pub enum SendOutcome {
    /// The channel took ownership of the frame.
    Sent,
    /// The channel is at capacity; the frame comes back to be retried.
    Full(IntensityFrame),
    /// The channel is closed; the frame comes back and the producer stops.
    Closed(IntensityFrame),
}

/// Outcome of one dequeue attempt.
pub enum RecvOutcome {
    /// The oldest buffered frame, now owned by the receiver.
    Received(IntensityFrame),
    /// Nothing buffered yet; the consumer should suspend and retry.
    Empty,
    /// Closed and drained: the consumer terminates.
    Disconnected,
}

/// One capture event delivered by the frame source.
pub enum CaptureEvent {
    /// A raw frame arrived.
    Captured(RawFrame),
    /// No frame within the acquisition timeout: transient, the loop goes on.
    TimedOut,
    /// The source is permanently gone: terminal for the producer.
    Unavailable,
}

/// What the producer decided to do with one capture event.
pub enum ProducerStep {
    /// The converted frame was enqueued.
    Enqueued,
    /// The channel is full: wait for the consumer, then resend this frame.
    Retry(IntensityFrame),
    /// The acquisition timed out; nothing was enqueued, the loop goes on.
    SkippedTimeout,
    /// The raw frame did not have three channels: fatal configuration error.
    BadFormat,
    /// Terminal: the source is gone or the channel is closed. When the
    /// source is gone the producer has closed its end of the channel.
    Stopped,
}

/// One step of the producer loop: takes the capture event the source
/// delivered, converts a captured frame to intensity form and enqueues it.
/// A timeout is transient; permanent unavailability closes the channel and
/// stops the loop; a full channel exerts backpressure by handing the frame
/// back; a closed channel is terminal.
pub fn producer_step(ch: &mut FrameChannel, ev: CaptureEvent) -> (r: ProducerStep)
    requires
        old(ch).wf(),
        ev matches CaptureEvent::Captured(rf) ==> rf.wf(),
    ensures
        final(ch).wf(),
        final(ch).cap() == old(ch).cap(),
        ev is TimedOut ==> r == ProducerStep::SkippedTimeout
            && final(ch).queue() == old(ch).queue()
            && final(ch).is_shut() == old(ch).is_shut(),
        ev is Unavailable ==> r == ProducerStep::Stopped
            && final(ch).queue() == old(ch).queue()
            && final(ch).is_shut(),
        ev matches CaptureEvent::Captured(rf) ==> {
            &&& final(ch).is_shut() == old(ch).is_shut()
            &&& rf.channels != 3 ==> r == ProducerStep::BadFormat
                && final(ch).queue() == old(ch).queue()
            &&& rf.channels == 3 && old(ch).is_shut() ==> r == ProducerStep::Stopped
                && final(ch).queue() == old(ch).queue()
            &&& rf.channels == 3 && !old(ch).is_shut()
                && old(ch).queue().len() < old(ch).cap() ==> r == ProducerStep::Enqueued
                && final(ch).queue().len() == old(ch).queue().len() + 1
                && final(ch).queue().drop_last() == old(ch).queue()
                && intensity_of(rf, final(ch).queue().last())
            &&& rf.channels == 3 && !old(ch).is_shut()
                && old(ch).queue().len() == old(ch).cap() ==> {
                &&& final(ch).queue() == old(ch).queue()
                &&& r matches ProducerStep::Retry(g) && intensity_of(rf, g)
            }
        },
{
    match ev {
        CaptureEvent::TimedOut => ProducerStep::SkippedTimeout,
        CaptureEvent::Unavailable => {
            ch.close();
            ProducerStep::Stopped
        },
        CaptureEvent::Captured(rf) => {
            match to_intensity(&rf) {
                Err(_) => ProducerStep::BadFormat,
                Ok(g) => {
                    match ch.try_send(g) {
                        SendOutcome::Sent => {
                            proof {
                                assert(ch.queue().drop_last() =~= old(ch).queue());
                            }
                            ProducerStep::Enqueued
                        },
                        SendOutcome::Full(g) => ProducerStep::Retry(g),
                        SendOutcome::Closed(_) => ProducerStep::Stopped,
                    }
                },
            }
        },
    }
}

/// What the consumer did in one step.
pub enum ConsumerStep {
    /// The oldest frame, filtered in place and ready for the sink.
    Displayed(IntensityFrame),
    /// The channel is empty but open; suspend and retry.
    Idle,
    /// The channel is closed and drained; the loop terminates.
    Finished,
}

/// One step of the consumer loop: dequeues the oldest frame, runs the
/// convolution engine over it and hands the filtered frame out for display.
/// An empty open channel means wait; an empty closed channel ends the loop.
pub fn consumer_step(ch: &mut FrameChannel, kernel: &Kernel) -> (r: ConsumerStep)
    requires
        old(ch).wf(),
        kernel.wf(),
    ensures
        final(ch).wf(),
        final(ch).cap() == old(ch).cap(),
        final(ch).is_shut() == old(ch).is_shut(),
        old(ch).queue().len() > 0 ==> {
            &&& final(ch).queue() == old(ch).queue().drop_first()
            &&& r matches ConsumerStep::Displayed(g) && {
                let fr = old(ch).queue()[0];
                &&& g.wf()
                &&& g.width == fr.width
                &&& g.height == fr.height
                &&& g.data@ == filtered_data(
                    fr.data@, fr.width as int, fr.height as int,
                    kernel.weights@, kernel.size as int)
            }
        },
        old(ch).queue().len() == 0 ==> final(ch).queue() == old(ch).queue(),
        old(ch).queue().len() == 0 && !old(ch).is_shut() ==> r == ConsumerStep::Idle,
        old(ch).queue().len() == 0 && old(ch).is_shut() ==> r == ConsumerStep::Finished,
{
    match ch.try_recv() {
        RecvOutcome::Received(mut fr) => {
            filter_frame(&mut fr, kernel);
            ConsumerStep::Displayed(fr)
        },
        RecvOutcome::Empty => ConsumerStep::Idle,
        RecvOutcome::Disconnected => ConsumerStep::Finished,
    }
}

/// Pipeline ordering: enqueueing appends at the tail only, so every frame
/// already buffered keeps its queue position. Together with [`drain`], whose
/// displayed frame `i` stems from queue position `i`, frames enqueued with
/// monotonic identifiers reach the sink in exactly the order they were
/// captured.
pub proof fn lemma_enqueue_keeps_order(
    before: Seq<IntensityFrame>, after: Seq<IntensityFrame>, i: int,
)
    requires
        after.len() == before.len() + 1,
        after.drop_last() == before,
        0 <= i < before.len(),
    ensures
        after[i] == before[i],
{
    assert(after.drop_last()[i] == after[i]);
}

/// Drains a closed channel: processes and returns every buffered frame, in
/// exactly the order it was enqueued, before the consumer terminates. The
/// frame at queue position `i` comes out as displayed frame `i`, filtered;
/// none is dropped.
pub fn drain(ch: &mut FrameChannel, kernel: &Kernel) -> (out: Vec<IntensityFrame>)
    requires
        old(ch).wf(),
        old(ch).is_shut(),
        kernel.wf(),
    ensures
        final(ch).wf(),
        final(ch).is_shut(),
        final(ch).queue().len() == 0,
        out@.len() == old(ch).queue().len(),
        forall|i: int| #![trigger out@[i]] 0 <= i < out@.len() ==> {
            let fr = old(ch).queue()[i];
            &&& out@[i].wf()
            &&& out@[i].width == fr.width
            &&& out@[i].height == fr.height
            &&& out@[i].data@ == filtered_data(
                fr.data@, fr.width as int, fr.height as int,
                kernel.weights@, kernel.size as int)
        },
{
    let mut out: Vec<IntensityFrame> = Vec::new();
    loop
        invariant
            ch.wf(),
            ch.is_shut(),
            kernel.wf(),
            out@.len() + ch.queue().len() == old(ch).queue().len(),
            forall|j: int| 0 <= j < ch.queue().len()
                ==> ch.queue()[j] == old(ch).queue()[out@.len() + j],
            forall|i: int| #![trigger out@[i]] 0 <= i < out@.len() ==> {
                let fr = old(ch).queue()[i];
                &&& out@[i].wf()
                &&& out@[i].width == fr.width
                &&& out@[i].height == fr.height
                &&& out@[i].data@ == filtered_data(
                    fr.data@, fr.width as int, fr.height as int,
                    kernel.weights@, kernel.size as int)
            },
        ensures
            ch.wf(),
            ch.is_shut(),
            ch.queue().len() == 0,
            out@.len() == old(ch).queue().len(),
            forall|i: int| #![trigger out@[i]] 0 <= i < out@.len() ==> {
                let fr = old(ch).queue()[i];
                &&& out@[i].wf()
                &&& out@[i].width == fr.width
                &&& out@[i].height == fr.height
                &&& out@[i].data@ == filtered_data(
                    fr.data@, fr.width as int, fr.height as int,
                    kernel.weights@, kernel.size as int)
            },
        decreases ch.queue().len(),
    {
        match consumer_step(ch, kernel) {
            ConsumerStep::Displayed(g) => {
                out.push(g);
            },
            ConsumerStep::Idle => {
                proof {
                    // The channel is closed, so an empty queue ends the
                    // loop as Finished; Idle cannot occur here.
                    assert(false);
                }
            },
            ConsumerStep::Finished => {
                break;
            },
        }
    }
    out
}

} // verus!
