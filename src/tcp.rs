use crate::connection::{room, TcpConnection, TcpEndpoint};
use vstd::prelude::*;

verus! {

/// The two sides of a TCP flow: the accepted inbound socket and the outbound one.
#[derive(Clone, Copy, Debug, PartialEq, Eq, Structural)]
pub enum Side {
    Local,
    Remote,
}

/// The other side.
pub open spec fn peer_of(s: Side) -> Side {
    match s {
        Side::Local => Side::Remote,
        Side::Remote => Side::Local,
    }
}

/// What a `recv` on one side gave.
pub enum RecvOutcome {
    /// Bytes arrived (a read of zero bytes counts as end of stream).
    Data(Vec<u8>),
    /// The peer closed its end.
    Eof,
    /// Nothing to read now.
    WouldBlock,
    /// Any other error.
    Failed,
}

/// What a `send` to one side gave.
pub enum SendOutcome {
    /// This many bytes were taken.
    Sent(usize),
    /// The socket buffer is full.
    WouldBlock,
    /// Any other error.
    Failed,
}

/// The next thing the event loop does for a flow.
pub enum TcpAction {
    /// Nothing more for this event.
    Idle,
    /// Read `SO_ERROR` of the outbound socket and report it with `on_connect_result`.
    CheckConnect,
    /// `recv` at most `max` bytes on `side` and report with `on_received`.
    Recv { side: Side, max: usize },
    /// `send` `bytes` (the pending bytes of `from`) to the other side and report with `on_sent`.
    Send { from: Side, bytes: Vec<u8> },
    /// Register `side` for readability, and for writability too when `writable`.
    Watch { side: Side, writable: bool },
    /// The connect finished: register the outbound socket for readability only,
    /// then run a readable pass on the local side.
    Connected,
    /// Close both sockets and drop the flow.
    Close,
}

/// The endpoint of `c` on side `s`.
pub open spec fn endpoint(c: TcpConnection, s: Side) -> TcpEndpoint {
    match s {
        Side::Local => c.local,
        Side::Remote => c.remote,
    }
}

/// The fields a relay step never changes.
pub open spec fn same_identity(a: TcpConnection, b: TcpConnection) -> bool {
    &&& a.local.handle() == b.local.handle()
    &&& a.remote.handle() == b.remote.handle()
    &&& a.local.capacity() == b.local.capacity()
    &&& a.remote.capacity() == b.remote.capacity()
    &&& a.addr_s == b.addr_s
    &&& a.create_time == b.create_time
    &&& a.last_active_time == b.last_active_time
    &&& a.pipe_l2r == b.pipe_l2r
    &&& a.pipe_r2l == b.pipe_r2l
}

/// Both endpoints are well formed.
pub open spec fn conn_wf(c: TcpConnection) -> bool {
    c.local.wf() && c.remote.wf()
}

/// `a` is the action that sends the pending bytes of side `from` of `c`.
pub open spec fn sends_pending(a: TcpAction, c: TcpConnection, from: Side) -> bool {
    a matches TcpAction::Send { from: f, bytes } && f == from && bytes@ == endpoint(c, from).pending()
}

/// `a` is a receive on side `s` of `c`, into the whole buffer.
pub open spec fn receives(a: TcpAction, c: TcpConnection, s: Side) -> bool {
    a matches TcpAction::Recv { side, max } && side == s && max == endpoint(c, s).capacity()
}

/// `a` registers side `s`, with writability as given.
pub open spec fn watches(a: TcpAction, s: Side, w: bool) -> bool {
    a matches TcpAction::Watch { side, writable } && side == s && writable == w
}

/// The drain step for side `s`: forward what is pending, else read more.
pub open spec fn drain_step(a: TcpAction, c: TcpConnection, s: Side) -> bool {
    if endpoint(c, s).pending().len() > 0 {
        sends_pending(a, c, s)
    } else {
        receives(a, c, s)
    }
}

/// What a readable event on side `s` of `c` leads to.
pub open spec fn readable_spec(c: TcpConnection, s: Side, a: TcpAction) -> bool {
    if c.remote_connecting {
        if s == Side::Remote {
            a is CheckConnect
        } else {
            a is Idle
        }
    } else {
        drain_step(a, c, s)
    }
}

/// What a writable event on side `s` of `c` leads to.
pub open spec fn writable_spec(c: TcpConnection, s: Side, a: TcpAction) -> bool {
    if c.remote_connecting {
        if s == Side::Remote {
            a is CheckConnect
        } else {
            a is Idle
        }
    } else if endpoint(c, peer_of(s)).pending().len() > 0 {
        sends_pending(a, c, peer_of(s))
    } else {
        watches(a, s, false)
    }
}

/// The connect result `so_error` takes `o` to `f` with action `a`.
pub open spec fn connect_spec(o: TcpConnection, f: TcpConnection, so_error: i32, a: TcpAction) -> bool {
    &&& same_identity(f, o)
    &&& f.local == o.local
    &&& f.remote == o.remote
    &&& so_error == 0 ==> a is Connected && !f.remote_connecting
    &&& so_error != 0 ==> a is Close && f.remote_connecting == o.remote_connecting
}

/// A received chunk fits in the room of side `s` of `c`.
pub open spec fn recv_fits(c: TcpConnection, s: Side, out: RecvOutcome) -> bool {
    out matches RecvOutcome::Data(bytes) ==> bytes@.len() <= room(endpoint(c, s))
}

/// The outcome `out` of a `recv` on side `s` takes `o` to `f` with action `a`.
pub open spec fn received_spec(o: TcpConnection, f: TcpConnection, s: Side, out: RecvOutcome, a: TcpAction) -> bool {
    &&& same_identity(f, o)
    &&& f.remote_connecting == o.remote_connecting
    &&& endpoint(f, peer_of(s)) == endpoint(o, peer_of(s))
    &&& match out {
            RecvOutcome::Data(bytes) => if bytes@.len() == 0 {
                a is Close && endpoint(f, s) == endpoint(o, s)
            } else {
                &&& endpoint(f, s).pending() == endpoint(o, s).pending() + bytes@
                &&& endpoint(o, s).pending().len() == 0 ==> endpoint(f, s).begin_spec() == 0
                &&& endpoint(o, s).pending().len() > 0 ==> endpoint(f, s).begin_spec() == endpoint(o, s).begin_spec()
                &&& sends_pending(a, f, s)
            },
            RecvOutcome::Eof => a is Close && endpoint(f, s) == endpoint(o, s),
            RecvOutcome::Failed => a is Close && endpoint(f, s) == endpoint(o, s),
            RecvOutcome::WouldBlock => {
                &&& endpoint(f, s) == endpoint(o, s)
                &&& if endpoint(o, s).pending().len() > 0 {
                    watches(a, peer_of(s), true)
                } else {
                    a is Idle
                }
            },
        }
}

/// The outcome `out` of a `send` of the pending bytes of side `from` takes
/// `o` to `f` with action `a`; `flushing` tells a flush from a read pass.
pub open spec fn sent_spec(o: TcpConnection, f: TcpConnection, from: Side, out: SendOutcome, flushing: bool, a: TcpAction) -> bool {
    &&& same_identity(f, o)
    &&& f.remote_connecting == o.remote_connecting
    &&& endpoint(f, peer_of(from)) == endpoint(o, peer_of(from))
    &&& match out {
            SendOutcome::Sent(n) => if n == 0 {
                a is Close && endpoint(f, from) == endpoint(o, from)
            } else {
                let p = endpoint(o, from).pending();
                let taken = if n <= p.len() { n as int } else { p.len() as int };
                &&& endpoint(f, from).pending() == p.skip(taken)
                &&& endpoint(f, from).begin_spec() == endpoint(o, from).begin_spec() + taken
                &&& if taken < p.len() {
                    sends_pending(a, f, from)
                } else if flushing {
                    watches(a, peer_of(from), false)
                } else {
                    receives(a, f, from)
                }
            },
            SendOutcome::WouldBlock => {
                &&& endpoint(f, from) == endpoint(o, from)
                &&& watches(a, peer_of(from), true)
            },
            SendOutcome::Failed => a is Close && endpoint(f, from) == endpoint(o, from),
        }
}

fn other(s: Side) -> (r: Side)
    ensures
        r == peer_of(s),
{
    match s {
        Side::Local => Side::Remote,
        Side::Remote => Side::Local,
    }
}

impl TcpConnection {
    fn side_pending_len(&self, s: Side) -> (r: usize)
        requires
            conn_wf(*self),
        ensures
            r == endpoint(*self, s).pending().len(),
    {
        match s {
            Side::Local => self.local.pending_len(),
            Side::Remote => self.remote.pending_len(),
        }
    }

    fn drain(&self, s: Side) -> (a: TcpAction)
        requires
            conn_wf(*self),
        ensures
            drain_step(a, *self, s),
    {
        let ep = match s {
            Side::Local => &self.local,
            Side::Remote => &self.remote,
        };
        if ep.pending_len() > 0 {
            TcpAction::Send { from: s, bytes: ep.read_slice() }
        } else {
            TcpAction::Recv { side: s, max: ep.buf_size() }
        }
    }

    /// Side `s` became readable. While the outbound connect is in flight a
    /// readable outbound socket means the connect finished, and the local side
    /// waits; otherwise the side's pending bytes go out first, else it reads.
    pub fn on_readable(&self, s: Side) -> (a: TcpAction)
        requires
            conn_wf(*self),
        ensures
            readable_spec(*self, s, a),
    {
        if self.remote_connecting {
            match s {
                Side::Remote => TcpAction::CheckConnect,
                Side::Local => TcpAction::Idle,
            }
        } else {
            self.drain(s)
        }
    }

    /// Side `s` became writable: during the connect this is its completion on
    /// the outbound side; otherwise the bytes waiting for `s` (pending on the
    /// other side) are flushed, and with none left `s` goes back to readability only.
    pub fn on_writable(&self, s: Side) -> (a: TcpAction)
        requires
            conn_wf(*self),
        ensures
            writable_spec(*self, s, a),
    {
        if self.remote_connecting {
            match s {
                Side::Remote => TcpAction::CheckConnect,
                Side::Local => TcpAction::Idle,
            }
        } else {
            let from = other(s);
            let ep = match from {
                Side::Local => &self.local,
                Side::Remote => &self.remote,
            };
            if ep.pending_len() > 0 {
                TcpAction::Send { from, bytes: ep.read_slice() }
            } else {
                TcpAction::Watch { side: s, writable: false }
            }
        }
    }

    /// The outbound connect reported `so_error`: zero completes it, anything
    /// else ends the flow.
    pub fn on_connect_result(&mut self, so_error: i32) -> (a: TcpAction)
        requires
            conn_wf(*old(self)),
        ensures
            conn_wf(*final(self)),
            connect_spec(*old(self), *final(self), so_error, a),
    {
        if so_error == 0 {
            self.remote_connecting = false;
            TcpAction::Connected
        } else {
            TcpAction::Close
        }
    }

    /// A `recv` on side `s` gave `out`. Received bytes are queued after the
    /// pending ones and forwarded; end of stream and errors end the flow; with
    /// nothing to read, a side that still holds bytes has its peer watched for
    /// writability.
    pub fn on_received(&mut self, s: Side, out: RecvOutcome) -> (a: TcpAction)
        requires
            conn_wf(*old(self)),
            recv_fits(*old(self), s, out),
        ensures
            conn_wf(*final(self)),
            received_spec(*old(self), *final(self), s, out, a),
    {
        match out {
            RecvOutcome::Data(bytes) => {
                if bytes.len() == 0 {
                    return TcpAction::Close;
                }
                proof {
                    assert(bytes@.take(bytes@.len() as int) =~= bytes@);
                }
                match s {
                    Side::Local => {
                        self.local.fill(bytes.as_slice());
                        TcpAction::Send { from: s, bytes: self.local.read_slice() }
                    },
                    Side::Remote => {
                        self.remote.fill(bytes.as_slice());
                        TcpAction::Send { from: s, bytes: self.remote.read_slice() }
                    },
                }
            },
            RecvOutcome::Eof => TcpAction::Close,
            RecvOutcome::Failed => TcpAction::Close,
            RecvOutcome::WouldBlock => {
                if self.side_pending_len(s) > 0 {
                    TcpAction::Watch { side: other(s), writable: true }
                } else {
                    TcpAction::Idle
                }
            },
        }
    }

    /// A `send` of the pending bytes of side `from` gave `out`. Sent bytes leave
    /// the queue; once it is empty a read pass (`flushing` false) reads on
    /// `from` again, and a flush (`flushing` true) puts the receiving side back
    /// to readability only. A full socket buffer has the receiving side watched
    /// for writability; a send of zero bytes or an error ends the flow.
    pub fn on_sent(&mut self, from: Side, out: SendOutcome, flushing: bool) -> (a: TcpAction)
        requires
            conn_wf(*old(self)),
        ensures
            conn_wf(*final(self)),
            sent_spec(*old(self), *final(self), from, out, flushing, a),
    {
        match out {
            SendOutcome::Sent(n) => {
                if n == 0 {
                    return TcpAction::Close;
                }
                let p = self.side_pending_len(from);
                let taken = if n <= p { n } else { p };
                match from {
                    Side::Local => self.local.consume(taken),
                    Side::Remote => self.remote.consume(taken),
                }
                if taken < p {
                    match from {
                        Side::Local => TcpAction::Send { from, bytes: self.local.read_slice() },
                        Side::Remote => TcpAction::Send { from, bytes: self.remote.read_slice() },
                    }
                } else if flushing {
                    TcpAction::Watch { side: other(from), writable: false }
                } else {
                    match from {
                        Side::Local => TcpAction::Recv { side: from, max: self.local.buf_size() },
                        Side::Remote => TcpAction::Recv { side: from, max: self.remote.buf_size() },
                    }
                }
            },
            SendOutcome::WouldBlock => TcpAction::Watch { side: other(from), writable: true },
            SendOutcome::Failed => TcpAction::Close,
        }
    }
}

/// One step of a byte relay through an endpoint buffer.
pub enum RelayStep {
    /// Bytes received, queued after the pending ones.
    Receive(Seq<u8>),
    /// Up to this many pending bytes sent to the peer.
    Send(nat),
}

/// Replays `steps` on a queue that starts with `pending`; returns the bytes
/// sent to the peer and those still queued.
pub open spec fn replay(pending: Seq<u8>, steps: Seq<RelayStep>) -> (Seq<u8>, Seq<u8>)
    decreases steps.len(),
{
    if steps.len() == 0 {
        (Seq::empty(), pending)
    } else {
        match steps[0] {
            RelayStep::Receive(x) => replay(pending + x, steps.skip(1)),
            RelayStep::Send(n) => {
                let k = if n <= pending.len() { n as int } else { pending.len() as int };
                let rest = replay(pending.skip(k), steps.skip(1));
                (pending.take(k) + rest.0, rest.1)
            },
        }
    }
}

/// All bytes received over `steps`, in order.
pub open spec fn received(steps: Seq<RelayStep>) -> Seq<u8>
    decreases steps.len(),
{
    if steps.len() == 0 {
        Seq::empty()
    } else {
        match steps[0] {
            RelayStep::Receive(x) => x + received(steps.skip(1)),
            RelayStep::Send(_) => received(steps.skip(1)),
        }
    }
}

/// A relay delivers bytes in the order received: what was sent, followed by
/// what is still queued, is what was queued at first followed by everything
/// received.
pub proof fn lemma_relay_in_order(pending: Seq<u8>, steps: Seq<RelayStep>)
    ensures
        replay(pending, steps).0 + replay(pending, steps).1 == pending + received(steps),
    decreases steps.len(),
{
    if steps.len() > 0 {
        match steps[0] {
            RelayStep::Receive(x) => {
                lemma_relay_in_order(pending + x, steps.skip(1));
                assert(pending + x + received(steps.skip(1)) =~= pending + (x + received(steps.skip(1))));
            },
            RelayStep::Send(n) => {
                let k = if n <= pending.len() { n as int } else { pending.len() as int };
                lemma_relay_in_order(pending.skip(k), steps.skip(1));
                let rest = replay(pending.skip(k), steps.skip(1));
                assert(pending.take(k) + rest.0 + rest.1 =~= pending.take(k) + (rest.0 + rest.1));
                assert(pending.take(k) + pending.skip(k) =~= pending);
                assert(pending.take(k) + (pending.skip(k) + received(steps.skip(1))) =~= pending + received(
                    steps.skip(1),
                ));
            },
        }
    } else {
        assert(Seq::<u8>::empty() + pending =~= pending + Seq::<u8>::empty());
    }
}

} // verus!
