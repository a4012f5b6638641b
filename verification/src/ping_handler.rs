use vstd::prelude::*;

verus! {

/// Milliseconds after which an unanswered ping is considered lost.
pub const PING_TIMEOUT_MS: u64 = 5000;

/// The reported round-trip time, clamped below 5 s.
pub open spec fn ping_ms_spec(t: u64, now: u64) -> u32 {
    if now as int >= t as int + PING_TIMEOUT_MS as int {
        4999u32
    } else if now >= t {
        (now - t) as u32
    } else {
        0u32
    }
}

/// Measures round-trip time by timing how long a reliable message's ack
/// takes to come back.
pub struct PingHandler {
    /// The seq_id whose ack is being timed, and when it was sent.
    pub waiting_ping: Option<(u32, u64)>,
    /// The last measured round trip, in milliseconds.
    pub current_ping: Option<u32>,
}

impl PingHandler {
    pub fn new() -> (r: PingHandler)
        ensures
            r.waiting_ping is None,
            r.current_ping is None,
    {
        PingHandler { waiting_ping: None, current_ping: None }
    }

    /// Start timing `seq_id`, unless an earlier ping is still outstanding
    /// and not yet given up on.
    pub fn ping(&mut self, seq_id: u32, now: u64)
        ensures
            final(self).current_ping == old(self).current_ping,
            match old(self).waiting_ping {
                Some((_, t)) => if now as int >= t as int + PING_TIMEOUT_MS as int {
                    final(self).waiting_ping == Some((seq_id, now))
                } else {
                    final(self).waiting_ping == old(self).waiting_ping
                },
                None => final(self).waiting_ping == Some((seq_id, now)),
            },
    {
        match self.waiting_ping {
            Some((_, t)) => {
                if now >= t && now - t >= PING_TIMEOUT_MS {
                    // the answer never came; time a fresh message instead
                    self.waiting_ping = Some((seq_id, now));
                }
            },
            None => {
                self.waiting_ping = Some((seq_id, now));
            },
        }
    }

    /// The ack for `seq_id` came back: record the round trip if this is the
    /// ping being timed.
    pub fn pong(&mut self, seq_id: u32, now: u64)
        ensures
            match old(self).waiting_ping {
                Some((sid, t)) => if sid == seq_id {
                    final(self).waiting_ping is None && final(self).current_ping == Some(
                        ping_ms_spec(t, now),
                    )
                } else {
                    *final(self) == *old(self)
                },
                None => *final(self) == *old(self),
            },
    {
        let waiting = self.waiting_ping;
        match waiting {
            Some((sid, t)) => {
                if sid == seq_id {
                    let d: u64 = if now >= t {
                        now - t
                    } else {
                        0
                    };
                    let ping_ms: u32 = if d >= PING_TIMEOUT_MS {
                        4999
                    } else {
                        d as u32
                    };
                    self.current_ping = Some(ping_ms);
                    self.waiting_ping = None;
                }
            },
            None => {},
        }
    }

    /// The last measured round trip in milliseconds, if one was measured.
    pub fn current_ping_ms(&self) -> (r: Option<u32>)
        ensures
            r == self.current_ping,
    {
        self.current_ping
    }
}

} // verus!
