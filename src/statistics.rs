use vstd::prelude::*;

verus! {

/// Traffic counts a worker gathers before adding them to the shared totals.
#[derive(Clone, Copy, PartialEq, Eq, Structural, Debug)]
pub struct Counters {
    pub requests_received: usize,
    pub responses_sent: usize,
    pub bytes_received: usize,
    pub bytes_sent: usize,
}

impl Counters {
    /// All counts zero.
    pub fn new() -> (r: Counters)
        ensures
            r == (Counters { requests_received: 0, responses_sent: 0, bytes_received: 0, bytes_sent: 0 }),
    {
        Counters { requests_received: 0, responses_sent: 0, bytes_received: 0, bytes_sent: 0 }
    }

    /// Counts a received datagram of `amt` bytes; it counts as a request only if it decoded.
    pub fn record_received(&mut self, amt: usize, decoded: bool)
        requires
            old(self).bytes_received + amt <= usize::MAX,
            old(self).requests_received < usize::MAX,
        ensures
            final(self).bytes_received == old(self).bytes_received + amt,
            final(self).requests_received == old(self).requests_received + if decoded { 1int } else { 0int },
            final(self).responses_sent == old(self).responses_sent,
            final(self).bytes_sent == old(self).bytes_sent,
    {
        self.bytes_received = self.bytes_received + amt;
        if decoded {
            self.requests_received = self.requests_received + 1;
        }
    }

    /// Counts a reply of `amt` bytes that was sent.
    pub fn record_sent(&mut self, amt: usize)
        requires
            old(self).bytes_sent + amt <= usize::MAX,
            old(self).responses_sent < usize::MAX,
        ensures
            final(self).bytes_sent == old(self).bytes_sent + amt,
            final(self).responses_sent == old(self).responses_sent + 1,
            final(self).requests_received == old(self).requests_received,
            final(self).bytes_received == old(self).bytes_received,
    {
        self.bytes_sent = self.bytes_sent + amt;
        self.responses_sent = self.responses_sent + 1;
    }

    /// Returns the counts and resets them to zero.
    pub fn take(&mut self) -> (r: Counters)
        ensures
            r == *old(self),
            *final(self) == (Counters { requests_received: 0, responses_sent: 0, bytes_received: 0, bytes_sent: 0 }),
    {
        let r = *self;
        *self = Counters::new();
        r
    }
}

} // verus!
