use vstd::prelude::*;

verus! {

/// What `next_wait` falls back to when the silence window has already
/// passed: 100 ms in nanoseconds.
pub const FALLBACK_WAIT_NANOS: u64 = 100_000_000;

/// Drives the lifecycle of a scan loop. All instants are nanosecond
/// readings of one monotonic clock, supplied by the caller.
///
/// The timer holds three marks: a hard deadline past which the loop must
/// stop, a minimum runtime before which silence never stops it, and the
/// longest silence tolerated after that.
#[derive(Debug)]
pub struct ScanTimer {
    /// The instant past which the loop must stop.
    pub hard_deadline: u64,
    /// The instant before which silence never stops the loop.
    pub min_runtime: u64,
    /// The longest silence tolerated after the minimum runtime.
    pub max_silence: u64,
    /// When a relevant packet was last seen.
    pub last_seen: u64,
}

pub open spec fn sat_add(a: u64, b: u64) -> u64 {
    if a + b > u64::MAX {
        u64::MAX
    } else {
        (a + b) as u64
    }
}

pub open spec fn sat_sub(a: u64, b: u64) -> u64 {
    if a >= b {
        (a - b) as u64
    } else {
        0
    }
}

impl ScanTimer {
    pub open spec fn spec_hard_deadline(&self) -> u64 {
        self.hard_deadline
    }

    pub open spec fn spec_min_runtime(&self) -> u64 {
        self.min_runtime
    }

    pub open spec fn spec_max_silence(&self) -> u64 {
        self.max_silence
    }

    pub open spec fn spec_last_seen(&self) -> u64 {
        self.last_seen
    }

    pub fn new(now: u64, max_total_duration: u64, min_runtime_duration: u64, max_silence: u64) -> (t:
        ScanTimer)
        ensures
            t.spec_hard_deadline() == sat_add(now, max_total_duration),
            t.spec_min_runtime() == sat_add(now, min_runtime_duration),
            t.spec_max_silence() == max_silence,
            t.spec_last_seen() == now,
    {
        ScanTimer {
            hard_deadline: now.saturating_add(max_total_duration),
            min_runtime: now.saturating_add(min_runtime_duration),
            max_silence,
            last_seen: now,
        }
    }

    /// A relevant packet arrived: the silence window starts over.
    pub fn mark_seen(&mut self, now: u64)
        ensures
            final(self).spec_last_seen() == now,
            final(self).spec_hard_deadline() == old(self).spec_hard_deadline(),
            final(self).spec_min_runtime() == old(self).spec_min_runtime(),
            final(self).spec_max_silence() == old(self).spec_max_silence(),
    {
        self.last_seen = now;
    }

    /// How long to wait for the next event: the remainder of the silence
    /// window, or the fixed fallback once the window has run out.
    pub fn next_wait(&self, now: u64) -> (r: u64)
        ensures
            r == if sat_sub(now, self.spec_last_seen()) <= self.spec_max_silence() {
                (self.spec_max_silence() - sat_sub(now, self.spec_last_seen())) as u64
            } else {
                FALLBACK_WAIT_NANOS
            },
    {
        let elapsed: u64 = if now >= self.last_seen {
            now - self.last_seen
        } else {
            0
        };
        if elapsed <= self.max_silence {
            self.max_silence - elapsed
        } else {
            FALLBACK_WAIT_NANOS
        }
    }

    pub open spec fn spec_is_expired(&self, now: u64) -> bool {
        ||| now > self.hard_deadline
        ||| (now > self.min_runtime && sat_sub(now, self.last_seen) >= self.max_silence)
    }

    /// Whether the loop must stop: past the hard deadline, or past the
    /// minimum runtime with the silence window exhausted.
    pub fn is_expired(&self, now: u64) -> (r: bool)
        ensures
            r == self.spec_is_expired(now),
    {
        if now > self.hard_deadline {
            return true;
        }
        let elapsed: u64 = if now >= self.last_seen {
            now - self.last_seen
        } else {
            0
        };
        now > self.min_runtime && elapsed >= self.max_silence
    }

    /// Whether a read timeout should end the loop: only once the minimum
    /// runtime has passed.
    pub fn should_break_on_timeout(&self, now: u64) -> (r: bool)
        ensures
            r == (now >= self.spec_min_runtime()),
    {
        now >= self.min_runtime
    }
}

} // verus!
