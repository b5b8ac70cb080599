//! Frame counting for the two simulation loops: the runner that stops after
//! ten seconds' worth of frames, and the server that broadcasts every few
//! frames and reports its rate every sixty.
use vstd::prelude::*;

verus! {

/// Counts the frames of a run that lasts ten seconds at its frame rate.
pub struct RunnerClock {
    frame_count: u64,
    max_frames: u64,
}

impl RunnerClock {
    /// The frames counted so far.
    pub closed spec fn frames(&self) -> u64 {
        self.frame_count
    }

    /// The frame count at which the run stops.
    pub closed spec fn limit(&self) -> u64 {
        self.max_frames
    }

    /// A clock for a run at `fps` frames per second: it stops after
    /// `fps * 10` frames.
    pub fn new(fps: u32) -> (c: Self)
        requires
            fps * 10 <= u32::MAX,
        ensures
            c.frames() == 0,
            c.limit() == fps * 10,
    {
        let max: u32 = fps * 10;
        RunnerClock { frame_count: 0, max_frames: max as u64 }
    }

    /// Counts a finished frame and tells whether the run stops now: once the
    /// count has reached the limit.
    pub fn finish_frame(&mut self) -> (stop: bool)
        requires
            old(self).frames() < u64::MAX,
        ensures
            final(self).frames() == old(self).frames() + 1,
            final(self).limit() == old(self).limit(),
            stop == (final(self).frames() >= final(self).limit()),
    {
        self.frame_count = self.frame_count + 1;
        self.frame_count >= self.max_frames
    }

    /// The frames counted so far.
    pub fn frame_count(&self) -> (r: u64)
        ensures
            r == self.frames(),
    {
        self.frame_count
    }
}

/// Counts the frames of the broadcasting server: a frame is broadcast when
/// its number is a multiple of the broadcast rate and someone listens, and
/// the rate is reported every sixty frames.
pub struct BroadcastClock {
    frame_count: u32,
    broadcast_rate: u32,
}

impl BroadcastClock {
    /// The frames counted so far.
    pub closed spec fn frames(&self) -> u32 {
        self.frame_count
    }

    /// Every how many frames a frame is broadcast.
    pub closed spec fn rate(&self) -> u32 {
        self.broadcast_rate
    }

    /// A clock that broadcasts every `broadcast_rate`-th frame.
    pub fn new(broadcast_rate: u32) -> (c: Self)
        requires
            broadcast_rate > 0,
        ensures
            c.frames() == 0,
            c.rate() == broadcast_rate,
    {
        BroadcastClock { frame_count: 0, broadcast_rate }
    }

    /// Whether the current frame is broadcast, with `receivers` listening.
    pub fn broadcast_due(&self, receivers: usize) -> (r: bool)
        requires
            self.rate() > 0,
        ensures
            r == (self.frames() % self.rate() == 0 && receivers > 0),
    {
        self.frame_count % self.broadcast_rate == 0 && receivers > 0
    }

    /// Counts a finished frame and tells whether the rate is reported now.
    pub fn finish_frame(&mut self) -> (report: bool)
        requires
            old(self).frames() < u32::MAX,
        ensures
            final(self).frames() == old(self).frames() + 1,
            final(self).rate() == old(self).rate(),
            report == (final(self).frames() % 60 == 0),
    {
        self.frame_count = self.frame_count + 1;
        self.frame_count % 60 == 0
    }
}

} // verus!
