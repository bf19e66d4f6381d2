//! The HTTP long-polling transport's state for one logical connection: an
//! outbound queue drained by GET requests and an inbound queue appended by
//! POST requests. Both queues are strict FIFO. The surrounding server wraps
//! one `Polling` value in its own mutual-exclusion lock and calls these
//! methods from its request handlers; every method here is a single
//! critical section.

use vstd::prelude::*;

use crate::b64::b64_len_ok;
use crate::codec::decode_payload;
use crate::codec::decode_payload_spec;
use crate::codec::encode_payload;
use crate::codec::encode_payload_spec;
use crate::codec::jsonp_view;
use crate::codec::seq_view;
use crate::packet::Packet;

verus! {

/// One logical connection's polling state: the two packet queues, the three
/// framing-mode flags, and whether the transport has been closed.
pub struct Polling {
    pub outbound: Vec<Packet>,
    pub inbound: Vec<Packet>,
    pub jsonp: Option<i32>,
    pub b64: bool,
    pub xhr2: bool,
    pub closed: bool,
}

impl Polling {
    /// Well-formedness: the framing flags select at most one of the base64
    /// and binary modes, and in base64 mode every queued outbound payload is
    /// small enough for its base64 text to exist in memory.
    pub open spec fn wf(&self) -> bool {
        &&& !(self.b64 && self.xhr2)
        &&& self.b64 ==> forall|i: int|
            0 <= i < self.outbound@.len() ==> b64_len_ok(#[trigger] self.outbound@[i]@.data)
    }

    /// True when `b` keeps `a`'s mode flags and closed mark.
    pub open spec fn same_config(a: &Polling, b: &Polling) -> bool {
        &&& a.jsonp == b.jsonp
        &&& a.b64 == b.b64
        &&& a.xhr2 == b.xhr2
        &&& a.closed == b.closed
    }

    /// A fresh open transport with the given mode flags and empty queues.
    pub fn new(jsonp: Option<i32>, b64: bool, xhr2: bool) -> (t: Polling)
        requires
            !(b64 && xhr2),
        ensures
            t.wf(),
            t.outbound@.len() == 0,
            t.inbound@.len() == 0,
            t.jsonp == jsonp,
            t.b64 == b64,
            t.xhr2 == xhr2,
            !t.closed,
    {
        Polling {
            outbound: Vec::new(),
            inbound: Vec::new(),
            jsonp,
            b64,
            xhr2,
            closed: false,
        }
    }

    /// The transport's name on the wire.
    pub fn name(&self) -> (r: &'static str)
        ensures
            r@ == "polling"@,
    {
        "polling"
    }

    /// Appends a packet to the outbound queue; a no-op once the transport
    /// is closed. Never blocks on I/O.
    pub fn send(&mut self, packet: Packet)
        requires
            old(self).wf(),
            old(self).b64 ==> b64_len_ok(packet@.data),
        ensures
            final(self).wf(),
            old(self).closed ==> *final(self) == *old(self),
            !old(self).closed ==> final(self).outbound@ == old(self).outbound@.push(packet)
                && final(self).inbound@ == old(self).inbound@ && Self::same_config(
                old(self),
                final(self),
            ),
    {
        if !self.closed {
            self.outbound.push(packet);
        }
    }

    /// Removes and returns the oldest inbound packet (FIFO), or `None` when
    /// the queue is empty or the transport is closed.
    pub fn receive(&mut self) -> (r: Option<Packet>)
        requires
            old(self).wf(),
        ensures
            final(self).wf(),
            old(self).closed || old(self).inbound@.len() == 0 ==> r is None && *final(self)
                == *old(self),
            !old(self).closed && old(self).inbound@.len() > 0 ==> (r matches Some(p) && p
                == old(self).inbound@[0] && final(self).inbound@ == old(self).inbound@.skip(1)
                && final(self).outbound@ == old(self).outbound@ && Self::same_config(
                old(self),
                final(self),
            )),
    {
        if self.closed || self.inbound.len() == 0 {
            None
        } else {
            let p = self.inbound.remove(0);
            proof {
                assert(self.inbound@ =~= old(self).inbound@.skip(1));
            }
            Some(p)
        }
    }

    /// Removes and returns the whole inbound queue, oldest first: reading
    /// drains, so repeated polls never yield duplicates. Returns an empty
    /// queue once the transport is closed.
    pub fn receive_all(&mut self) -> (r: Vec<Packet>)
        requires
            old(self).wf(),
        ensures
            final(self).wf(),
            old(self).closed ==> r@.len() == 0 && *final(self) == *old(self),
            !old(self).closed ==> r@ == old(self).inbound@ && final(self).inbound@.len() == 0
                && final(self).outbound@ == old(self).outbound@ && Self::same_config(
                old(self),
                final(self),
            ),
    {
        let mut r: Vec<Packet> = Vec::new();
        if !self.closed {
            r.append(&mut self.inbound);
            proof {
                assert(r@ =~= old(self).inbound@);
            }
        }
        r
    }

    /// Marks the transport closed and releases both queues; subsequent
    /// `send`, `receive` and `handle_post` calls are deterministic no-ops.
    pub fn close(&mut self)
        requires
            old(self).wf(),
        ensures
            final(self).wf(),
            final(self).closed,
            final(self).outbound@.len() == 0,
            final(self).inbound@.len() == 0,
            final(self).jsonp == old(self).jsonp,
            final(self).b64 == old(self).b64,
            final(self).xhr2 == old(self).xhr2,
    {
        self.closed = true;
        self.outbound.clear();
        self.inbound.clear();
    }

    /// The GET handler's critical section: encodes the whole outbound queue
    /// as one payload under the transport's mode flags and clears the
    /// queue, atomically with respect to concurrent `send` calls.
    pub fn poll_flush(&mut self) -> (r: Vec<u8>)
        requires
            old(self).wf(),
        ensures
            final(self).wf(),
            r@ == encode_payload_spec(
                seq_view(old(self).outbound@),
                jsonp_view(old(self).jsonp),
                old(self).b64,
                old(self).xhr2,
            ),
            final(self).outbound@.len() == 0,
            final(self).inbound@ == old(self).inbound@,
            final(self).jsonp == old(self).jsonp,
            final(self).b64 == old(self).b64,
            final(self).xhr2 == old(self).xhr2,
            final(self).closed == old(self).closed,
    {
        let body = encode_payload(&self.outbound, self.jsonp, self.b64, self.xhr2);
        self.outbound.clear();
        body
    }

    /// The POST handler's critical section: decodes one request body under
    /// the transport's mode flags and appends the packets to the inbound
    /// queue in decoded order. Returns false, leaving the queues untouched,
    /// when the body does not decode or the transport is closed.
    pub fn handle_post(&mut self, body: Vec<u8>) -> (ok: bool)
        requires
            old(self).wf(),
        ensures
            final(self).wf(),
            final(self).outbound@ == old(self).outbound@,
            final(self).jsonp == old(self).jsonp,
            final(self).b64 == old(self).b64,
            final(self).xhr2 == old(self).xhr2,
            final(self).closed == old(self).closed,
            old(self).closed ==> !ok && final(self).inbound@ == old(self).inbound@,
            !old(self).closed ==> match decode_payload_spec(body@, old(self).b64, old(self).xhr2) {
                Some(views) => ok && seq_view(final(self).inbound@) == seq_view(
                    old(self).inbound@,
                ) + views,
                None => !ok && final(self).inbound@ == old(self).inbound@,
            },
    {
        if self.closed {
            return false;
        }
        match decode_payload(body, self.b64, self.xhr2) {
            None => false,
            Some(mut ps) => {
                proof {
                    assert(seq_view(old(self).inbound@ + ps@) =~= seq_view(old(self).inbound@)
                        + seq_view(ps@));
                }
                self.inbound.append(&mut ps);
                true
            },
        }
    }
}

} // verus!
