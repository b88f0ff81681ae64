use crate::address::Address;
use crate::fd_manager::Fd64;
use crate::log::get_current_time;
use vstd::prelude::*;

verus! {

/// One side of a TCP flow: its handle and a buffer of bytes received on this
/// side and not yet sent to the peer. The pending bytes are
/// `data[begin .. begin + data_len]`.
pub struct TcpEndpoint {
    fd64: Fd64,
    data: Vec<u8>,
    begin: usize,
    data_len: usize,
}

impl TcpEndpoint {
    /// The pending bytes lie inside the buffer.
    pub closed spec fn wf(&self) -> bool {
        &&& self.begin + self.data_len <= self.data@.len()
        &&& self.data@.len() <= usize::MAX
    }

    pub closed spec fn handle(&self) -> Fd64 {
        self.fd64
    }

    /// The size of the buffer.
    pub closed spec fn capacity(&self) -> nat {
        self.data@.len()
    }

    pub closed spec fn begin_spec(&self) -> nat {
        self.begin as nat
    }

    /// The bytes waiting to be sent to the peer, oldest first.
    pub closed spec fn pending(&self) -> Seq<u8> {
        self.data@.subrange(self.begin as int, self.begin + self.data_len)
    }

    /// Offset plus pending length stays within the buffer.
    pub open spec fn bounded(&self) -> bool {
        self.begin_spec() + self.pending().len() <= self.capacity()
    }

    /// Every well-formed endpoint keeps its pending bytes inside its buffer.
    pub proof fn lemma_wf_bounded(&self)
        requires
            self.wf(),
        ensures
            self.bounded(),
    {
    }

    pub fn new(fd64: Fd64, buf_size: usize) -> (r: Self)
        ensures
            r.wf(),
            r.handle() == fd64,
            r.capacity() == buf_size,
            r.begin_spec() == 0,
            r.pending() == Seq::<u8>::empty(),
    {
        TcpEndpoint { fd64, data: vec![0u8; buf_size], begin: 0, data_len: 0 }
    }

    pub fn fd64(&self) -> (r: Fd64)
        ensures
            r == self.handle(),
    {
        self.fd64
    }

    /// The size of the buffer.
    pub fn buf_size(&self) -> (r: usize)
        requires
            self.wf(),
        ensures
            r == self.capacity(),
    {
        self.data.len()
    }

    /// Drops the pending bytes.
    pub fn clear(&mut self)
        requires
            old(self).wf(),
        ensures
            final(self).wf(),
            final(self).handle() == old(self).handle(),
            final(self).capacity() == old(self).capacity(),
            final(self).begin_spec() == 0,
            final(self).pending() == Seq::<u8>::empty(),
    {
        self.begin = 0;
        self.data_len = 0;
    }

    /// The number of pending bytes.
    pub fn pending_len(&self) -> (r: usize)
        requires
            self.wf(),
        ensures
            r == self.pending().len(),
            self.bounded(),
    {
        self.data_len
    }

    /// Room left after the pending bytes.
    pub fn available_space(&self) -> (r: usize)
        requires
            self.wf(),
        ensures
            self.bounded(),
            r == self.capacity() - (self.begin_spec() + self.pending().len()),
    {
        self.data.len() - (self.begin + self.data_len)
    }

    /// A copy of the pending bytes.
    pub fn read_slice(&self) -> (r: Vec<u8>)
        requires
            self.wf(),
        ensures
            r@ == self.pending(),
            self.bounded(),
    {
        let mut out: Vec<u8> = Vec::with_capacity(self.data_len);
        let mut i: usize = 0;
        while i < self.data_len
            invariant
                self.wf(),
                i <= self.data_len,
                out@ == self.data@.subrange(self.begin as int, self.begin + i),
            decreases self.data_len - i,
        {
            out.push(self.data[self.begin + i]);
            i += 1;
            proof {
                assert(out@ =~= self.data@.subrange(self.begin as int, self.begin + i));
            }
        }
        out
    }

    /// The buffer offset at which the next received bytes are stored.
    pub fn write_pos(&self) -> (r: usize)
        requires
            self.wf(),
        ensures
            r == (if self.pending().len() == 0 { 0 } else { self.begin_spec() + self.pending().len() }),
    {
        if self.data_len == 0 {
            0
        } else {
            self.begin + self.data_len
        }
    }

    /// Stores received bytes after the pending ones, as many as fit; an empty
    /// buffer first moves back to offset 0. Returns how many were stored.
    pub fn fill(&mut self, bytes: &[u8]) -> (n: usize)
        requires
            old(self).wf(),
        ensures
            final(self).wf(),
            final(self).handle() == old(self).handle(),
            final(self).capacity() == old(self).capacity(),
            n <= bytes@.len(),
            n == (if bytes@.len() <= room(*old(self)) { bytes@.len() as int } else { room(*old(self)) as int }),
            final(self).pending() == old(self).pending() + bytes@.take(n as int),
            old(self).pending().len() == 0 ==> final(self).begin_spec() == 0,
            old(self).pending().len() > 0 ==> final(self).begin_spec() == old(self).begin_spec(),
            final(self).bounded(),
    {
        if self.data_len == 0 {
            self.begin = 0;
        }
        let start = self.begin + self.data_len;
        let space = self.data.len() - start;
        let n = if bytes.len() <= space { bytes.len() } else { space };
        let ghost before = self.data@;
        let ghost b0 = self.begin;
        let ghost l0 = self.data_len;
        let ghost f0 = self.fd64;
        let mut i: usize = 0;
        while i < n
            invariant
                self.begin == b0,
                self.data_len == l0,
                self.fd64 == f0,
                start == b0 + l0,
                start + n <= self.data@.len(),
                self.data@.len() <= usize::MAX,
                self.data@.len() == before.len(),
                i <= n,
                n <= bytes@.len(),
                forall|j: int| 0 <= j < start ==> self.data@[j] == before[j],
                forall|j: int| 0 <= j < i ==> self.data@[start + j] == bytes@[j],
            decreases n - i,
        {
            self.data.set(start + i, bytes[i]);
            i += 1;
        }
        self.data_len = self.data_len + n;
        proof {
            assert(self.data@.subrange(self.begin as int, self.begin + self.data_len) =~= before.subrange(
                self.begin as int,
                start as int,
            ) + bytes@.take(n as int));
        }
        n
    }

    /// Marks the first `n` pending bytes as sent to the peer.
    pub fn consume(&mut self, n: usize)
        requires
            old(self).wf(),
            n <= old(self).pending().len(),
        ensures
            final(self).wf(),
            final(self).handle() == old(self).handle(),
            final(self).capacity() == old(self).capacity(),
            final(self).pending() == old(self).pending().skip(n as int),
            final(self).begin_spec() == old(self).begin_spec() + n,
            final(self).bounded(),
    {
        self.begin = self.begin + n;
        self.data_len = self.data_len - n;
        proof {
            assert(self.data@.subrange(self.begin as int, self.begin + self.data_len) =~= old(
                self,
            ).pending().skip(n as int));
        }
    }
}

/// Room after the pending bytes of `e`, counting an empty buffer as wholly free.
pub open spec fn room(e: TcpEndpoint) -> nat {
    if e.pending().len() == 0 {
        e.capacity()
    } else {
        (e.capacity() - (e.begin_spec() + e.pending().len())) as nat
    }
}

/// Milliseconds from `last` to `now`, zero if `now` is earlier.
pub open spec fn idle_at(last: u64, now: u64) -> u64 {
    if now >= last {
        (now - last) as u64
    } else {
        0
    }
}

/// `c` last active at `t`.
pub open spec fn tcp_active_at(c: TcpConnection, t: u64) -> TcpConnection {
    TcpConnection { last_active_time: t, ..c }
}

/// `s` last active at `t`.
pub open spec fn udp_active_at(s: UdpSession, t: u64) -> UdpSession {
    UdpSession { last_active_time: t, ..s }
}

/// A pair of pipe descriptors for the kernel splice path, with the number of
/// bytes the pipe holds.
#[derive(Clone, Copy, Debug)]
pub struct SplicePipe {
    pub read_fd: i32,
    pub write_fd: i32,
    pub pending: usize,
}

/// A TCP flow: the inbound (`local`) side, the outbound (`remote`) side, the
/// printable client address, and its timestamps in milliseconds.
pub struct TcpConnection {
    pub local: TcpEndpoint,
    pub remote: TcpEndpoint,
    pub addr_s: String,
    pub create_time: u64,
    pub last_active_time: u64,
    /// The outbound non-blocking connect has not completed yet.
    pub remote_connecting: bool,
    pub pipe_l2r: Option<SplicePipe>,
    pub pipe_r2l: Option<SplicePipe>,
}

impl TcpConnection {
    pub fn new(
        local_fd: Fd64,
        remote_fd: Fd64,
        addr_s: String,
        create_time: u64,
        buf_size: usize,
        remote_connecting: bool,
    ) -> (r: Self)
        ensures
            r.local.wf(),
            r.remote.wf(),
            r.local.begin_spec() == 0,
            r.remote.begin_spec() == 0,
            r.local.handle() == local_fd,
            r.remote.handle() == remote_fd,
            r.local.capacity() == buf_size,
            r.remote.capacity() == buf_size,
            r.local.pending() == Seq::<u8>::empty(),
            r.remote.pending() == Seq::<u8>::empty(),
            r.addr_s@ == addr_s@,
            r.create_time == create_time,
            r.last_active_time == create_time,
            r.remote_connecting == remote_connecting,
            r.pipe_l2r.is_none(),
            r.pipe_r2l.is_none(),
    {
        TcpConnection {
            local: TcpEndpoint::new(local_fd, buf_size),
            remote: TcpEndpoint::new(remote_fd, buf_size),
            addr_s,
            create_time,
            last_active_time: create_time,
            remote_connecting,
            pipe_l2r: None,
            pipe_r2l: None,
        }
    }

    /// Records activity at time `now`.
    pub fn update_active_at(&mut self, now: u64)
        ensures
            *final(self) == (TcpConnection { last_active_time: now, ..*old(self) }),
    {
        self.last_active_time = now;
    }

    /// Records activity at the current time.
    pub fn update_active(&mut self)
        ensures
            exists|t: u64| *final(self) == #[trigger] tcp_active_at(*old(self), t),
    {
        let now = get_current_time();
        self.update_active_at(now);
        proof {
            assert(*self == tcp_active_at(*old(self), now));
        }
    }

    /// Milliseconds since the last activity, as seen at `now` (0 if `now` is earlier).
    pub fn idle_duration_at(&self, now: u64) -> (r: u64)
        ensures
            r == (if now >= self.last_active_time { now - self.last_active_time } else { 0 }),
    {
        if now >= self.last_active_time {
            now - self.last_active_time
        } else {
            0
        }
    }

    /// Milliseconds since the last activity.
    pub fn idle_duration(&self) -> (r: u64)
        ensures
            exists|t: u64| r == #[trigger] idle_at(self.last_active_time, t),
    {
        let now = get_current_time();
        let r = self.idle_duration_at(now);
        proof {
            assert(r == idle_at(self.last_active_time, now));
        }
        r
    }

    /// Detaches both splice pipes and returns them, for the caller to close.
    pub fn close_pipes(&mut self) -> (r: Vec<SplicePipe>)
        ensures
            final(self).pipe_l2r.is_none(),
            final(self).pipe_r2l.is_none(),
            r@ == (match old(self).pipe_l2r {
                Some(p) => seq![p],
                None => Seq::empty(),
            }) + (match old(self).pipe_r2l {
                Some(p) => seq![p],
                None => Seq::empty(),
            }),
            final(self).last_active_time == old(self).last_active_time,
            final(self).remote_connecting == old(self).remote_connecting,
    {
        let mut r: Vec<SplicePipe> = Vec::new();
        if let Some(p) = self.pipe_l2r {
            r.push(p);
        }
        if let Some(p) = self.pipe_r2l {
            r.push(p);
        }
        self.pipe_l2r = None;
        self.pipe_r2l = None;
        proof {
            assert(r@ =~= (match old(self).pipe_l2r {
                Some(p) => seq![p],
                None => Seq::empty(),
            }) + (match old(self).pipe_r2l {
                Some(p) => seq![p],
                None => Seq::empty(),
            }));
        }
        r
    }
}

/// A UDP session: the client's address, the handle of the connected outbound
/// socket, the listener's handle, and timestamps in milliseconds.
pub struct UdpSession {
    pub address: Address,
    pub fd64: Fd64,
    pub local_listen_fd: Fd64,
    pub addr_s: String,
    pub create_time: u64,
    pub last_active_time: u64,
}

impl UdpSession {
    pub fn new(address: Address, fd64: Fd64, local_listen_fd: Fd64, addr_s: String, create_time: u64) -> (r: Self)
        ensures
            r.address == address,
            r.fd64 == fd64,
            r.local_listen_fd == local_listen_fd,
            r.addr_s@ == addr_s@,
            r.create_time == create_time,
            r.last_active_time == create_time,
    {
        UdpSession { address, fd64, local_listen_fd, addr_s, create_time, last_active_time: create_time }
    }

    /// Records activity at time `now`.
    pub fn update_active_at(&mut self, now: u64)
        ensures
            *final(self) == (UdpSession { last_active_time: now, ..*old(self) }),
    {
        self.last_active_time = now;
    }

    /// Records activity at the current time.
    pub fn update_active(&mut self)
        ensures
            exists|t: u64| *final(self) == #[trigger] udp_active_at(*old(self), t),
    {
        let now = get_current_time();
        self.update_active_at(now);
        proof {
            assert(*self == udp_active_at(*old(self), now));
        }
    }

    /// Milliseconds since the last activity, as seen at `now` (0 if `now` is earlier).
    pub fn idle_duration_at(&self, now: u64) -> (r: u64)
        ensures
            r == (if now >= self.last_active_time { now - self.last_active_time } else { 0 }),
    {
        if now >= self.last_active_time {
            now - self.last_active_time
        } else {
            0
        }
    }

    /// Milliseconds since the last activity.
    pub fn idle_duration(&self) -> (r: u64)
        ensures
            exists|t: u64| r == #[trigger] idle_at(self.last_active_time, t),
    {
        let now = get_current_time();
        let r = self.idle_duration_at(now);
        proof {
            assert(r == idle_at(self.last_active_time, now));
        }
        r
    }
}

} // verus!
