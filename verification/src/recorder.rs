//! The frame recorder: a ring buffer of the most recent frames.
use crate::frame::FrameData;
use std::collections::VecDeque;
use vstd::prelude::*;

verus! {

/// The frames after one more has arrived: where there is no room left, the oldest one goes. A ring
/// for no frames holds none.
pub open spec fn ring_push<T>(frames: Seq<T>, max_frames: nat, frame: T) -> Seq<T> {
    if max_frames == 0 {
        Seq::empty()
    } else if frames.len() >= max_frames {
        frames.drop_first().push(frame)
    } else {
        frames.push(frame)
    }
}

/// The frames after more of them have arrived, one after the other.
pub open spec fn ring_push_all<T>(frames: Seq<T>, max_frames: nat, arrivals: Seq<T>) -> Seq<T>
    decreases arrivals.len(),
{
    if arrivals.len() == 0 {
        frames
    } else {
        ring_push(
            ring_push_all(frames, max_frames, arrivals.drop_last()),
            max_frames,
            arrivals.last(),
        )
    }
}

/// Keeps the most recent frames, in the order of their arrival.
pub struct FrameRecorder {
    buffer: VecDeque<FrameData>,
    max_frames: usize,
}

impl FrameRecorder {
    /// The recorded frames, the oldest one first.
    pub closed spec fn frames(&self) -> Seq<FrameData> {
        self.buffer@
    }

    /// The largest number of frames that the recorder holds.
    pub closed spec fn max_frames(&self) -> nat {
        self.max_frames as nat
    }

    /// There are never more frames than the recorder is made for.
    #[verifier::type_invariant]
    pub open spec fn wf(self) -> bool {
        self.frames().len() <= self.max_frames()
    }

    /// An empty recorder that holds up to `max_frames` frames.
    pub fn new(max_frames: usize) -> (recorder: FrameRecorder)
        ensures
            recorder.frames() == Seq::<FrameData>::empty(),
            recorder.max_frames() == max_frames,
    {
        FrameRecorder { buffer: VecDeque::new(), max_frames }
    }

    /// Records a frame that has arrived. A recorder for no frames drops it.
    pub fn record(&mut self, frame: FrameData)
        ensures
            final(self).frames() == ring_push(old(self).frames(), old(self).max_frames(), frame),
            final(self).max_frames() == old(self).max_frames(),
    {
        proof {
            use_type_invariant(&*self);
        }
        if self.max_frames == 0 {
            return;
        }
        let mut buffer: VecDeque<FrameData> = VecDeque::new();
        std::mem::swap(&mut buffer, &mut self.buffer);
        if buffer.len() >= self.max_frames {
            let _ = buffer.pop_front();
        }
        buffer.push_back(frame);
        self.buffer = buffer;
    }

    /// The most recent frame; there is none where nothing is recorded.
    pub fn latest_frame(&self) -> (frame: Option<FrameData>)
        ensures
            frame is Some <==> self.frames().len() > 0,
            frame matches Some(f) ==> f == self.frames().last(),
    {
        let count = self.buffer.len();
        if count == 0 {
            None
        } else {
            Some(self.buffer[count - 1].clone())
        }
    }

    /// The most recent frame, as `latest_frame` has it.
    pub fn get_latest_frame(&self) -> (frame: Option<FrameData>)
        ensures
            frame is Some <==> self.frames().len() > 0,
            frame matches Some(f) ==> f == self.frames().last(),
    {
        self.latest_frame()
    }
}

/// A frame that was just recorded is the latest one, where the ring holds any.
pub proof fn lemma_recorded_frame_is_latest<T>(frames: Seq<T>, max_frames: nat, frame: T)
    requires
        max_frames > 0,
    ensures
        ring_push(frames, max_frames, frame).len() > 0,
        ring_push(frames, max_frames, frame).last() == frame,
{
}

/// A ring never grows beyond the number of frames that it is made for.
pub proof fn lemma_capacity_is_kept<T>(frames: Seq<T>, max_frames: nat, frame: T)
    requires
        frames.len() <= max_frames,
    ensures
        ring_push(frames, max_frames, frame).len() <= max_frames,
{
}

/// Whatever has arrived, the ring holds the most recent frames in the order of their arrival: all
/// of them as long as there is room, and as many as there is room for from then on.
pub proof fn lemma_ring_holds_most_recent<T>(frames: Seq<T>, max_frames: nat, arrivals: Seq<T>)
    requires
        frames.len() <= max_frames,
    ensures
        ({
            let all = frames + arrivals;
            let held = ring_push_all(frames, max_frames, arrivals);
            if all.len() <= max_frames {
                held == all
            } else {
                held == all.skip(all.len() - max_frames)
            }
        }),
    decreases arrivals.len(),
{
    let all = frames + arrivals;
    if arrivals.len() == 0 {
        assert(all =~= frames);
    } else {
        let earlier = frames + arrivals.drop_last();
        lemma_ring_holds_most_recent(frames, max_frames, arrivals.drop_last());
        assert(all =~= earlier.push(arrivals.last()));
        let before = ring_push_all(frames, max_frames, arrivals.drop_last());
        let held = ring_push_all(frames, max_frames, arrivals);
        if all.len() <= max_frames {
            assert(held =~= all);
        } else if earlier.len() <= max_frames {
            assert(held =~= all.skip(1));
        } else {
            assert(held =~= all.skip(all.len() - max_frames));
        }
    }
}

/// A new recorder is empty and made for as many frames as it is told.
pub proof fn lemma_new_recorder_is_empty(
    max_frames: usize,
    recorder: FrameRecorder,
    latest: Option<FrameData>,
)
    requires
        call_ensures(FrameRecorder::new, (max_frames,), recorder),
        call_ensures(FrameRecorder::latest_frame, (&recorder,), latest),
    ensures
        recorder.frames().len() == 0,
        recorder.max_frames() == max_frames,
        latest is None,
{
}

/// Recording puts the frame behind the others and lets go of the oldest one only where there would
/// be too many: of the recorded frames and the new one, the last `max_frames` are held, whatever
/// that number and however many there are.
pub proof fn lemma_recording_keeps_the_last_frames(recorder: &mut FrameRecorder, frame: FrameData)
    requires
        old(recorder).frames().len() <= old(recorder).max_frames(),
        call_ensures(FrameRecorder::record, (recorder, frame), ()),
    ensures
        final(recorder).max_frames() == old(recorder).max_frames(),
        ({
            let before = old(recorder).frames();
            let after = final(recorder).frames();
            let max_frames = old(recorder).max_frames();
            &&& after.len() == if before.len() < max_frames {
                before.len() + 1
            } else {
                max_frames
            }
            &&& after.len() > 0 ==> after[after.len() - 1] == frame
            &&& forall|i: int|
                0 <= i < after.len() - 1 ==> #[trigger] after[i] == before[before.len() + 1
                    - after.len() + i]
        }),
{
}

/// The latest frame is the one that was just recorded, by either way of asking. A recorder for no
/// frames has none.
pub proof fn lemma_latest_frame_was_just_recorded(
    recorder: &mut FrameRecorder,
    frame: FrameData,
    latest: Option<FrameData>,
    latest_too: Option<FrameData>,
)
    requires
        old(recorder).frames().len() <= old(recorder).max_frames(),
        call_ensures(FrameRecorder::record, (recorder, frame), ()),
        call_ensures(FrameRecorder::latest_frame, (&*final(recorder),), latest),
        call_ensures(FrameRecorder::get_latest_frame, (&*final(recorder),), latest_too),
    ensures
        latest == latest_too,
        latest == if old(recorder).max_frames() > 0 {
            Some(frame)
        } else {
            None
        },
{
}

/// The latest frame is the last of the recorded ones, by either way of asking.
pub proof fn lemma_latest_frame_is_the_last(
    recorder: FrameRecorder,
    latest: Option<FrameData>,
    latest_too: Option<FrameData>,
)
    requires
        call_ensures(FrameRecorder::latest_frame, (&recorder,), latest),
        call_ensures(FrameRecorder::get_latest_frame, (&recorder,), latest_too),
    ensures
        latest == latest_too,
        latest is None <==> recorder.frames().len() == 0,
        latest matches Some(frame) ==> frame == recorder.frames()[recorder.frames().len() - 1],
{
}

} // verus!
