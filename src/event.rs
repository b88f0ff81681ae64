use crate::address::Address;
use crate::connection::{room, TcpConnection, UdpSession};
use crate::fd_manager::{Fd64, FdManager};
use crate::lru::is_expired;
use crate::manager::{
    sweep_bound, sweep_too_soon, tcp_uses, udp_has_addr, udp_has_remote, TcpConnectionManager, UdpSessionManager,
};
use crate::stats::TrafficStats;
use crate::config::MAX_DATA_LEN_UDP;
use crate::stats::sat_add;
use crate::tcp::{
    connect_spec, endpoint, readable_spec, received_spec, recv_fits, sent_spec, writable_spec, RecvOutcome, SendOutcome, Side,
    TcpAction,
};
use std::collections::HashMap;
use vstd::prelude::*;

verus! {

broadcast use vstd::std_specs::hash::group_hash_axioms;

/// Poller tokens for registered handles: a bijection between the handles
/// that have a token and their tokens, with tokens handed out in increasing order.
pub struct TokenManager {
    fd64_to_token: HashMap<u64, usize>,
    token_to_fd64: HashMap<usize, u64>,
    counter: usize,
}

impl TokenManager {
    /// The token of each handle that has one.
    pub closed spec fn tokens(&self) -> Map<u64, usize> {
        self.fd64_to_token@
    }

    /// The handle of each token in use.
    pub closed spec fn handles(&self) -> Map<usize, u64> {
        self.token_to_fd64@
    }

    /// The token the next registration gets.
    pub closed spec fn next_token(&self) -> usize {
        self.counter
    }

    pub closed spec fn wf(&self) -> bool {
        &&& forall|h: u64| #[trigger] self.fd64_to_token@.contains_key(h) ==> self.token_to_fd64@.contains_key(
            self.fd64_to_token@[h],
        ) && self.token_to_fd64@[self.fd64_to_token@[h]] == h
        &&& forall|t: usize| #[trigger] self.token_to_fd64@.contains_key(t) ==> self.fd64_to_token@.contains_key(
            self.token_to_fd64@[t],
        ) && self.fd64_to_token@[self.token_to_fd64@[t]] == t && t < self.counter
    }

    /// Tokens start at `first`.
    pub fn new(first: usize) -> (r: Self)
        ensures
            r.wf(),
            r.tokens() == Map::<u64, usize>::empty(),
            r.handles() == Map::<usize, u64>::empty(),
            r.next_token() == first,
    {
        TokenManager { fd64_to_token: HashMap::new(), token_to_fd64: HashMap::new(), counter: first }
    }

    /// Whether another token can be handed out.
    pub fn can_generate(&self) -> (r: bool)
        ensures
            r == (self.next_token() < usize::MAX),
    {
        self.counter < usize::MAX
    }

    /// Gives `fd64` a fresh token (a token it had before stops being in use).
    pub fn generate_token(&mut self, fd64: Fd64) -> (t: usize)
        requires
            old(self).wf(),
            old(self).next_token() < usize::MAX,
        ensures
            final(self).wf(),
            t == old(self).next_token(),
            final(self).next_token() == t + 1,
            !old(self).handles().contains_key(t),
            final(self).tokens() == old(self).tokens().insert(fd64.0, t),
            final(self).handles() == (if old(self).tokens().contains_key(fd64.0) {
                old(self).handles().remove(old(self).tokens()[fd64.0])
            } else {
                old(self).handles()
            }).insert(t, fd64.0),
    {
        let t = self.counter;
        match self.fd64_to_token.get(&fd64.0) {
            Some(old_t) => {
                let old_t = *old_t;
                self.token_to_fd64.remove(&old_t);
            },
            None => {},
        }
        self.fd64_to_token.insert(fd64.0, t);
        self.token_to_fd64.insert(t, fd64.0);
        self.counter = t + 1;
        proof {
            assert forall|h: u64| #[trigger] self.fd64_to_token@.contains_key(h) implies self.token_to_fd64@.contains_key(
                self.fd64_to_token@[h],
            ) && self.token_to_fd64@[self.fd64_to_token@[h]] == h by {
                if h != fd64.0 {
                    let k = old(self).fd64_to_token@[h];
                    assert(old(self).token_to_fd64@[k] == h);
                    assert(k < t);
                    if old(self).fd64_to_token@.contains_key(fd64.0) {
                        assert(k != old(self).fd64_to_token@[fd64.0]);
                    }
                }
            }
            assert forall|k: usize| #[trigger] self.token_to_fd64@.contains_key(k) implies self.fd64_to_token@.contains_key(
                self.token_to_fd64@[k],
            ) && self.fd64_to_token@[self.token_to_fd64@[k]] == k && k < self.counter by {
                if k != t {
                    let h = old(self).token_to_fd64@[k];
                    assert(old(self).fd64_to_token@[h] == k);
                    if h == fd64.0 {
                        assert(!self.token_to_fd64@.contains_key(k));
                    }
                }
            }
        }
        t
    }

    /// The token of `fd64`.
    pub fn get_token(&self, fd64: &Fd64) -> (r: Option<usize>)
        requires
            self.wf(),
        ensures
            r == (if self.tokens().contains_key(fd64.0) { Some(self.tokens()[fd64.0]) } else { None::<usize> }),
    {
        match self.fd64_to_token.get(&fd64.0) {
            Some(t) => Some(*t),
            None => None,
        }
    }

    /// The handle of `token`.
    pub fn get_fd64(&self, token: usize) -> (r: Option<Fd64>)
        requires
            self.wf(),
        ensures
            r == (if self.handles().contains_key(token) {
                Some(Fd64(self.handles()[token]))
            } else {
                None::<Fd64>
            }),
    {
        match self.token_to_fd64.get(&token) {
            Some(h) => Some(Fd64(*h)),
            None => None,
        }
    }

    /// Drops the token of `fd64`; returns it.
    pub fn remove(&mut self, fd64: &Fd64) -> (r: Option<usize>)
        requires
            old(self).wf(),
        ensures
            final(self).wf(),
            final(self).next_token() == old(self).next_token(),
            r == (if old(self).tokens().contains_key(fd64.0) {
                Some(old(self).tokens()[fd64.0])
            } else {
                None::<usize>
            }),
            final(self).tokens() == old(self).tokens().remove(fd64.0),
            final(self).handles() == (if old(self).tokens().contains_key(fd64.0) {
                old(self).handles().remove(old(self).tokens()[fd64.0])
            } else {
                old(self).handles()
            }),
    {
        match self.fd64_to_token.remove(&fd64.0) {
            Some(t) => {
                self.token_to_fd64.remove(&t);
                proof {
                    assert forall|h: u64| #[trigger] self.fd64_to_token@.contains_key(h) implies self.token_to_fd64@.contains_key(
                        self.fd64_to_token@[h],
                    ) && self.token_to_fd64@[self.fd64_to_token@[h]] == h by {
                        assert(old(self).token_to_fd64@[old(self).fd64_to_token@[h]] == h);
                    }
                    assert forall|k: usize| #[trigger] self.token_to_fd64@.contains_key(k) implies self.fd64_to_token@.contains_key(
                        self.token_to_fd64@[k],
                    ) && self.fd64_to_token@[self.token_to_fd64@[k]] == k && k < self.counter by {
                        assert(old(self).fd64_to_token@[old(self).token_to_fd64@[k]] == k);
                    }
                }
                Some(t)
            },
            None => {
                proof {
                    assert(old(self).tokens().remove(fd64.0) =~= old(self).tokens());
                }
                None
            },
        }
    }
}

/// What a readiness event is for.
pub enum EventTarget {
    /// The TCP listener can accept.
    TcpAccept,
    /// The UDP listener has a datagram.
    UdpDatagram,
    /// The outbound socket of a UDP session has a response.
    UdpResponse(Fd64),
    /// A socket of a TCP flow is ready.
    TcpFlow { fd64: Fd64, readable: bool, writable: bool },
    /// Nothing to do: an unknown or closed token, or an event no one waits for.
    Ignore,
}

/// What leaving a TCP flow takes: deregister the tokens, then close the
/// descriptors.
pub struct ClosedTcpFlow {
    pub record: TcpConnection,
    pub local_raw: Option<i32>,
    pub remote_raw: Option<i32>,
    pub local_token: Option<usize>,
    pub remote_token: Option<usize>,
}

/// What leaving a UDP session takes: deregister the token, then close the descriptor.
pub struct ClosedUdpSession {
    pub record: UdpSession,
    pub remote_raw: Option<i32>,
    pub remote_token: Option<usize>,
}

/// A new TCP flow: its handles and tokens.
pub struct OpenedTcpFlow {
    pub local: Fd64,
    pub remote: Fd64,
    pub local_token: usize,
    pub remote_token: usize,
}

/// The state of the forwarding loop: the descriptor registry, the poller
/// tokens, both tables and the traffic counters. The connection gauges always
/// equal the table sizes.
pub struct ForwarderCore {
    registry: FdManager,
    tokens: TokenManager,
    tcp: TcpConnectionManager,
    udp: UdpSessionManager,
    stats: TrafficStats,
    max_connections: usize,
    timer_interval: u64,
    last_tick: u64,
    tcp_listen_token: Option<usize>,
    udp_listen_token: Option<usize>,
}

impl ForwarderCore {
    pub closed spec fn tcp_records(&self) -> Seq<TcpConnection> {
        self.tcp.records()
    }

    /// The TCP table.
    pub closed spec fn tcp_table(&self) -> TcpConnectionManager {
        self.tcp
    }

    /// The UDP table.
    pub closed spec fn udp_table(&self) -> UdpSessionManager {
        self.udp
    }

    pub closed spec fn udp_records(&self) -> Seq<UdpSession> {
        self.udp.records()
    }

    pub closed spec fn counters(&self) -> TrafficStats {
        self.stats
    }

    pub closed spec fn live(&self) -> Map<u64, i32> {
        self.registry.live()
    }

    /// The token of each handle that has one.
    pub closed spec fn handle_tokens(&self) -> Map<u64, usize> {
        self.tokens.tokens()
    }

    /// One more handle and one more token can be handed out.
    pub closed spec fn room_for_listener(&self) -> bool {
        &&& self.registry.next_handle() < u64::MAX
        &&& self.tokens.next_token() < usize::MAX
    }

    /// The handles of all flows are pairwise distinct.
    pub proof fn lemma_flow_handles_distinct(&self)
        requires
            self.wf(),
        ensures
            crate::manager::tcp_handles_distinct(self.tcp_records()),
    {
        self.tcp.lemma_handles_distinct();
    }

    /// Client addresses and remote handles of the sessions are pairwise distinct.
    pub proof fn lemma_session_keys_distinct(&self)
        requires
            self.wf(),
        ensures
            crate::manager::udp_keys_distinct(self.udp_records()),
    {
        self.udp.lemma_keys_distinct();
    }

    pub closed spec fn token_handles(&self) -> Map<usize, u64> {
        self.tokens.handles()
    }

    pub closed spec fn connection_limit(&self) -> usize {
        self.max_connections
    }

    /// Two more handles and two more tokens can be handed out, and the TCP
    /// gauge can grow.
    pub closed spec fn room_for_flow(&self) -> bool {
        &&& self.registry.next_handle() + 1 < u64::MAX
        &&& self.tokens.next_token() + 1 < usize::MAX
        &&& self.stats.tcp_connections < u64::MAX
    }

    /// Two more handles and one more token can be handed out, and the UDP
    /// gauge can grow.
    pub closed spec fn room_for_session(&self) -> bool {
        &&& self.registry.next_handle() + 1 < u64::MAX
        &&& self.tokens.next_token() < usize::MAX
        &&& self.stats.udp_sessions < u64::MAX
    }

    pub closed spec fn last_tick_time(&self) -> u64 {
        self.last_tick
    }

    pub closed spec fn tick_interval(&self) -> u64 {
        self.timer_interval
    }

    pub closed spec fn tcp_listener_token(&self) -> Option<usize> {
        self.tcp_listen_token
    }

    pub closed spec fn udp_listener_token(&self) -> Option<usize> {
        self.udp_listen_token
    }

    pub closed spec fn wf(&self) -> bool {
        &&& self.registry.wf()
        &&& self.tokens.wf()
        &&& self.tcp.wf()
        &&& self.udp.wf()
        &&& self.stats.tcp_connections == self.tcp.records().len()
        &&& self.stats.udp_sessions == self.udp.records().len()
        &&& forall|i: int|
            0 <= i < self.tcp.records().len() ==> (#[trigger] self.tcp.records()[i]).local.handle().0
                < self.registry.next_handle() && self.tcp.records()[i].remote.handle().0 < self.registry.next_handle()
        &&& forall|i: int|
            0 <= i < self.udp.records().len() ==> (#[trigger] self.udp.records()[i]).fd64.0
                < self.registry.next_handle()
        &&& forall|h: u64| #[trigger] self.tokens.tokens().contains_key(h) ==> h < self.registry.next_handle()
    }

    /// The connection gauges equal the table sizes.
    pub proof fn lemma_gauges_match(&self)
        requires
            self.wf(),
        ensures
            self.counters().tcp_connections == self.tcp_records().len(),
            self.counters().udp_sessions == self.udp_records().len(),
    {
    }

    pub fn new(
        max_connections: usize,
        timer_interval: u64,
        tcp_timeout: u64,
        udp_timeout: u64,
        conn_clear_ratio: u32,
        conn_clear_min: u32,
        disable_conn_clear: bool,
    ) -> (r: Self)
        requires
            conn_clear_ratio > 0,
        ensures
            r.wf(),
            r.tcp_records().len() == 0,
            r.udp_records().len() == 0,
            r.connection_limit() == max_connections,
    {
        ForwarderCore {
            registry: FdManager::new(),
            tokens: TokenManager::new(1),
            tcp: TcpConnectionManager::new(tcp_timeout, conn_clear_ratio, conn_clear_min, disable_conn_clear),
            udp: UdpSessionManager::new(udp_timeout, conn_clear_ratio, conn_clear_min, disable_conn_clear),
            stats: TrafficStats::new(),
            max_connections,
            timer_interval,
            last_tick: 0,
            tcp_listen_token: None,
            udp_listen_token: None,
        }
    }

    /// The TCP table.
    pub fn tcp(&self) -> (r: &TcpConnectionManager)
        ensures
            r.records() == self.tcp_records(),
    {
        &self.tcp
    }

    /// The UDP table.
    pub fn udp(&self) -> (r: &UdpSessionManager)
        ensures
            r.records() == self.udp_records(),
    {
        &self.udp
    }

    /// The descriptor registry.
    pub fn registry(&self) -> (r: &FdManager)
        ensures
            r.live() == self.live(),
    {
        &self.registry
    }

    /// The poller tokens.
    pub fn tokens(&self) -> (r: &TokenManager)
        ensures
            r.handles() == self.token_handles(),
    {
        &self.tokens
    }

    /// The traffic counters.
    pub fn stats(&self) -> (r: &TrafficStats)
        ensures
            *r == self.counters(),
    {
        &self.stats
    }

    /// Registers a listener descriptor; returns its token, or `None` when no
    /// handle or token is left. `tcp` tells the TCP listener from the UDP one.
    pub fn register_listener(&mut self, raw: i32, now: u64, tcp: bool) -> (r: Option<usize>)
        requires
            old(self).wf(),
        ensures
            final(self).wf(),
            final(self).tcp_records() == old(self).tcp_records(),
            final(self).udp_records() == old(self).udp_records(),
            final(self).counters() == old(self).counters(),
            r is Some <==> old(self).room_for_listener(),
            r matches Some(t) ==> {
                &&& final(self).token_handles().contains_key(t)
                &&& final(self).live().contains_key(final(self).token_handles()[t])
                &&& final(self).live()[final(self).token_handles()[t]] == raw
                &&& tcp ==> final(self).tcp_listener_token() == Some(t)
                &&& !tcp ==> final(self).udp_listener_token() == Some(t)
            },
    {
        if !self.registry.can_create() || !self.tokens.can_generate() {
            return None;
        }
        let h = self.registry.get_or_create(raw, now);
        proof {
            self.registry.lemma_live_below_next(h.0);
        }
        let t = self.tokens.generate_token(h);
        if tcp {
            self.tcp_listen_token = Some(t);
        } else {
            self.udp_listen_token = Some(t);
        }
        Some(t)
    }

    /// What an event on `token` is for.
    pub fn classify(&self, token: usize, readable: bool, writable: bool) -> (r: EventTarget)
        requires
            self.wf(),
        ensures
            self.tcp_listener_token() == Some(token) ==> (if readable {
                r is TcpAccept
            } else {
                r is Ignore
            }),
            self.tcp_listener_token() != Some(token) && self.udp_listener_token() == Some(token) ==> (if readable {
                r is UdpDatagram
            } else {
                r is Ignore
            }),
            self.tcp_listener_token() != Some(token) && self.udp_listener_token() != Some(token) ==> {
                let h = self.token_handles()[token];
                if !self.token_handles().contains_key(token) || !self.live().contains_key(h) {
                    r is Ignore
                } else if udp_has_remote(self.udp_records(), Fd64(h)) {
                    if readable {
                        r == EventTarget::UdpResponse(Fd64(h))
                    } else {
                        r is Ignore
                    }
                } else {
                    r == (EventTarget::TcpFlow { fd64: Fd64(h), readable, writable })
                }
            },
    {
        if self.tcp_listen_token == Some(token) {
            return if readable {
                EventTarget::TcpAccept
            } else {
                EventTarget::Ignore
            };
        }
        if self.udp_listen_token == Some(token) {
            return if readable {
                EventTarget::UdpDatagram
            } else {
                EventTarget::Ignore
            };
        }
        match self.tokens.get_fd64(token) {
            Some(h) => {
                if !self.registry.exist(h) {
                    EventTarget::Ignore
                } else if self.udp.get_session_by_fd64(&h).is_some() {
                    if readable {
                        EventTarget::UdpResponse(h)
                    } else {
                        EventTarget::Ignore
                    }
                } else {
                    EventTarget::TcpFlow { fd64: h, readable, writable }
                }
            },
            None => EventTarget::Ignore,
        }
    }

    /// Whether a new TCP flow may be accepted: fewer flows than the limit.
    pub fn tcp_accept_allowed(&self) -> (r: bool)
        ensures
            r == (self.tcp_records().len() < self.connection_limit()),
    {
        self.tcp.len() < self.max_connections
    }

    /// Whether a new UDP session may be created: fewer sessions than the limit.
    pub fn udp_session_allowed(&self) -> (r: bool)
        ensures
            r == (self.udp_records().len() < self.connection_limit()),
    {
        self.udp.len() < self.max_connections
    }

    /// Records a new TCP flow over the accepted descriptor `local_raw` and the
    /// outbound `remote_raw`: fresh handles and tokens, a table record, and
    /// the gauge. `None` (nothing changed) when handles or tokens ran out.
    pub fn open_tcp_flow(
        &mut self,
        local_raw: i32,
        remote_raw: i32,
        addr_s: String,
        now: u64,
        buf_size: usize,
        remote_connecting: bool,
    ) -> (r: Option<OpenedTcpFlow>)
        requires
            old(self).wf(),
        ensures
            final(self).wf(),
            final(self).udp_records() == old(self).udp_records(),
            r is Some <==> old(self).room_for_flow() && local_raw != remote_raw,
            r is None ==> final(self).tcp_records() == old(self).tcp_records(),
            r matches Some(f) ==> {
                &&& final(self).tcp_records().len() == old(self).tcp_records().len() + 1
                &&& final(self).tcp_records().take(old(self).tcp_records().len() as int) == old(self).tcp_records()
                &&& final(self).tcp_records().last().local.handle() == f.local
                &&& final(self).tcp_records().last().remote.handle() == f.remote
                &&& final(self).tcp_records().last().remote_connecting == remote_connecting
                &&& final(self).live().contains_key(f.local.0)
                &&& final(self).live()[f.local.0] == local_raw
                &&& final(self).live().contains_key(f.remote.0)
                &&& final(self).live()[f.remote.0] == remote_raw
                &&& final(self).token_handles()[f.local_token] == f.local.0
                &&& final(self).token_handles()[f.remote_token] == f.remote.0
            },
    {
        if self.registry.can_create() && self.tokens.can_generate() && local_raw != remote_raw
            && self.stats.tcp_connections < u64::MAX {
        } else {
            return None;
        }
        let local = self.registry.create(local_raw, now);
        if !self.registry.can_create() || !self.tokens.can_generate() {
            self.registry.close(local);
            return None;
        }
        let remote = self.registry.create(remote_raw, now);
        let local_token = self.tokens.generate_token(local);
        if !self.tokens.can_generate() {
            self.tokens.remove(&local);
            self.registry.close(local);
            self.registry.close(remote);
            return None;
        }
        let remote_token = self.tokens.generate_token(remote);
        proof {
            assert(!tcp_uses(self.tcp.records(), local)) by {
                if tcp_uses(self.tcp.records(), local) {
                    let i = choose|i: int| 0 <= i < self.tcp.records().len() && crate::manager::tcp_touches(#[trigger] self.tcp.records()[i], local);
                    assert(self.tcp.records()[i].local.handle().0 < old(self).registry.next_handle());
                }
            }
            assert(!tcp_uses(self.tcp.records(), remote)) by {
                if tcp_uses(self.tcp.records(), remote) {
                    let i = choose|i: int| 0 <= i < self.tcp.records().len() && crate::manager::tcp_touches(#[trigger] self.tcp.records()[i], remote);
                    assert(self.tcp.records()[i].local.handle().0 < old(self).registry.next_handle());
                }
            }
        }
        self.tcp.new_connection_counted(&mut self.stats, local, remote, addr_s, now, buf_size, remote_connecting);
        proof {
            let s = self.tcp.records();
            assert forall|i: int| 0 <= i < s.len() implies (#[trigger] s[i]).local.handle().0 < self.registry.next_handle()
                && s[i].remote.handle().0 < self.registry.next_handle() by {
                if i < s.len() - 1 {
                    assert(s[i] == old(self).tcp.records()[i]);
                }
            }
        }
        Some(OpenedTcpFlow { local, remote, local_token, remote_token })
    }

    /// Ends the TCP flow that uses handle `h` on either side: removes its
    /// record, tokens and handles and lowers the gauge; returns what the caller
    /// deregisters and closes. `None` when no flow uses `h`.
    pub fn close_tcp_flow(&mut self, h: &Fd64) -> (r: Option<ClosedTcpFlow>)
        requires
            old(self).wf(),
        ensures
            final(self).wf(),
            final(self).udp_records() == old(self).udp_records(),
            r is None <==> !tcp_uses(old(self).tcp_records(), *h),
            r is None ==> final(self).tcp_records() == old(self).tcp_records(),
            forall|x: u64| #[trigger] final(self).live().contains_key(x) ==> old(self).live().contains_key(x),
            forall|x: u64|
                #[trigger] final(self).handle_tokens().contains_key(x) ==> old(self).handle_tokens().contains_key(x),
            r matches Some(c) ==> {
                &&& exists|j: int|
                    0 <= j < old(self).tcp_records().len() && crate::manager::tcp_touches(
                        #[trigger] old(self).tcp_records()[j],
                        *h,
                    ) && c.record == old(self).tcp_records()[j] && final(self).tcp_records() == old(
                        self,
                    ).tcp_records().remove(j)
                &&& !final(self).live().contains_key(c.record.local.handle().0)
                &&& !final(self).live().contains_key(c.record.remote.handle().0)
                &&& !final(self).handle_tokens().contains_key(c.record.local.handle().0)
                &&& !final(self).handle_tokens().contains_key(c.record.remote.handle().0)
                &&& forall|t: usize| #[trigger] final(self).token_handles().contains_key(t)
                    ==> final(self).token_handles()[t] != c.record.local.handle().0
                    && final(self).token_handles()[t] != c.record.remote.handle().0
                &&& !tcp_uses(final(self).tcp_records(), c.record.local.handle())
                &&& !tcp_uses(final(self).tcp_records(), c.record.remote.handle())
                &&& final(self).counters().tcp_connections == final(self).tcp_records().len()
            },
    {
        let (i, _side) = match self.tcp.locate(h) {
            Some(p) => p,
            None => {
                proof {
                    assert(!tcp_uses(old(self).tcp_records(), *h));
                }
                return None;
            },
        };
        let local = self.tcp.local_handle_at(i);
        let record = match self.tcp.erase_counted(&mut self.stats, &local) {
            Some(c) => c,
            None => {
                proof {
                    assert(false);
                }
                return None;
            },
        };
        let remote = record.remote.fd64();
        let local_token = self.tokens.remove(&local);
        let remote_token = self.tokens.remove(&remote);
        let local_raw = self.registry.close(local);
        let remote_raw = self.registry.close(remote);
        proof {
            let s = self.tcp.records();
            let j = choose|j: int|
                0 <= j < old(self).tcp.records().len() && #[trigger] old(self).tcp.records()[j].local.handle()
                    == local && record == old(self).tcp.records()[j] && s == old(self).tcp.records().remove(j);
            old(self).tcp.lemma_any_side_selects_record(i as int, j);
            assert(j == i);
            assert(crate::manager::tcp_touches(old(self).tcp.records()[i as int], *h));
            assert(record == old(self).tcp_records()[j]);
            assert(self.tcp_records() == old(self).tcp_records().remove(j));
            assert(!self.live().contains_key(record.local.handle().0));
            assert(!self.live().contains_key(record.remote.handle().0));
            assert forall|k: int| 0 <= k < s.len() implies (#[trigger] s[k]).local.handle().0 < self.registry.next_handle()
                && s[k].remote.handle().0 < self.registry.next_handle() by {
                let k2 = if k < j { k } else { k + 1 };
                assert(s[k] == old(self).tcp.records()[k2]);
            }
            old(self).tcp.lemma_handles_distinct();
            assert forall|k: int| 0 <= k < s.len() implies !crate::manager::tcp_touches(#[trigger] s[k], local)
                && !crate::manager::tcp_touches(s[k], remote) by {
                let k2 = if k < j { k } else { k + 1 };
                assert(s[k] == old(self).tcp.records()[k2]);
            }
            assert forall|t: usize| #[trigger] self.tokens.handles().contains_key(t) implies self.tokens.handles()[t]
                != local.0 && self.tokens.handles()[t] != remote.0 by {
                assert(self.tokens.tokens()[self.tokens.handles()[t]] == t);
            }
        }
        Some(ClosedTcpFlow { record, local_raw, remote_raw, local_token, remote_token })
    }

    /// Records a new UDP session of `client` over the connected outbound
    /// descriptor `remote_raw`, replying through listener `listen_raw`. `None`
    /// (nothing changed) when the client has a session or handles or tokens
    /// ran out.
    pub fn open_udp_session(
        &mut self,
        client: Address,
        remote_raw: i32,
        listen_raw: i32,
        addr_s: String,
        now: u64,
    ) -> (r: Option<(Fd64, usize)>)
        requires
            old(self).wf(),
        ensures
            final(self).wf(),
            final(self).tcp_records() == old(self).tcp_records(),
            r is Some <==> !udp_has_addr(old(self).udp_records(), client) && old(self).room_for_session()
                && listen_raw != remote_raw,
            r is None ==> final(self).udp_records() == old(self).udp_records(),
            r matches Some((h, t)) ==> {
                &&& final(self).udp_records().len() == old(self).udp_records().len() + 1
                &&& final(self).udp_records().take(old(self).udp_records().len() as int) == old(self).udp_records()
                &&& final(self).udp_records().last().address == client
                &&& final(self).udp_records().last().fd64 == h
                &&& final(self).live()[h.0] == remote_raw
                &&& final(self).token_handles()[t] == h.0
            },
    {
        if self.udp.index_of(&client).is_some() {
            return None;
        }
        if self.registry.can_create() && self.tokens.can_generate() && self.stats.udp_sessions < u64::MAX {
        } else {
            return None;
        }
        let remote = self.registry.create(remote_raw, now);
        if !self.registry.can_create() {
            self.registry.close(remote);
            return None;
        }
        let listen = self.registry.get_or_create(listen_raw, now);
        proof {
            assert(self.registry.live().contains_key(remote.0));
            if listen.0 != remote.0 && listen_raw == remote_raw {
                self.registry.lemma_live_injective(listen.0, remote.0);
            }
        }
        if listen.0 == remote.0 {
            self.registry.close(remote);
            return None;
        }
        let token = self.tokens.generate_token(remote);
        proof {
            assert(!udp_has_remote(self.udp.records(), remote)) by {
                if udp_has_remote(self.udp.records(), remote) {
                    let i = choose|i: int| 0 <= i < self.udp.records().len() && (#[trigger] self.udp.records()[i]).fd64 == remote;
                    assert(self.udp.records()[i].fd64.0 < old(self).registry.next_handle());
                }
            }
        }
        self.udp.new_session_counted(&mut self.stats, client, remote, listen, addr_s, now);
        proof {
            let s = self.udp.records();
            assert forall|i: int| 0 <= i < s.len() implies (#[trigger] s[i]).fd64.0 < self.registry.next_handle() by {
                if i < s.len() - 1 {
                    assert(s[i] == old(self).udp.records()[i]);
                }
            }
            let t = self.tcp.records();
            assert forall|i: int| 0 <= i < t.len() implies (#[trigger] t[i]).local.handle().0 < self.registry.next_handle()
                && t[i].remote.handle().0 < self.registry.next_handle() by {
                assert(t[i] == old(self).tcp.records()[i]);
            }
        }
        Some((remote, token))
    }

    /// Ends the session of `client`: removes its record, token and handle and
    /// lowers the gauge; returns what the caller deregisters and closes.
    pub fn close_udp_session(&mut self, client: &Address) -> (r: Option<ClosedUdpSession>)
        requires
            old(self).wf(),
        ensures
            final(self).wf(),
            final(self).tcp_records() == old(self).tcp_records(),
            r is None <==> !udp_has_addr(old(self).udp_records(), *client),
            r is None ==> final(self).udp_records() == old(self).udp_records(),
            forall|x: u64| #[trigger] final(self).live().contains_key(x) ==> old(self).live().contains_key(x),
            forall|x: u64|
                #[trigger] final(self).handle_tokens().contains_key(x) ==> old(self).handle_tokens().contains_key(x),
            r matches Some(c) ==> exists|j: int|
                0 <= j < old(self).udp_records().len() && (#[trigger] old(self).udp_records()[j]).address == *client
                    && c.record == old(self).udp_records()[j] && final(self).udp_records() == old(
                    self,
                ).udp_records().remove(j),
            r matches Some(c) ==> {
                &&& !final(self).live().contains_key(c.record.fd64.0)
                &&& !final(self).handle_tokens().contains_key(c.record.fd64.0)
                &&& forall|t: usize| #[trigger] final(self).token_handles().contains_key(t)
                    ==> final(self).token_handles()[t] != c.record.fd64.0
                &&& !udp_has_addr(final(self).udp_records(), *client)
                &&& final(self).counters().udp_sessions == final(self).udp_records().len()
            },
    {
        let record = match self.udp.erase_counted(&mut self.stats, client) {
            Some(c) => c,
            None => return None,
        };
        let remote_token = self.tokens.remove(&record.fd64);
        let remote_raw = self.registry.close(record.fd64);
        proof {
            let s = self.udp.records();
            let j = choose|j: int|
                0 <= j < old(self).udp.records().len() && (#[trigger] old(self).udp.records()[j]).address == *client
                    && record == old(self).udp.records()[j] && s == old(self).udp.records().remove(j);
            assert forall|k: int| 0 <= k < s.len() implies (#[trigger] s[k]).fd64.0 < self.registry.next_handle() by {
                let k2 = if k < j { k } else { k + 1 };
                assert(s[k] == old(self).udp.records()[k2]);
            }
            assert forall|t: usize| #[trigger] self.tokens.handles().contains_key(t) implies self.tokens.handles()[t]
                != record.fd64.0 by {
                assert(self.tokens.tokens()[self.tokens.handles()[t]] == t);
            }
        }
        Some(ClosedUdpSession { record, remote_raw, remote_token })
    }

    /// Whether the eviction tick is due at `now` (more than the tick interval
    /// since the last one); a due tick is recorded.
    pub fn tick_due(&mut self, now: u64) -> (r: bool)
        requires
            old(self).wf(),
        ensures
            final(self).wf(),
            final(self).tcp_records() == old(self).tcp_records(),
            final(self).udp_records() == old(self).udp_records(),
            r == (now >= old(self).last_tick_time() && now - old(self).last_tick_time() > old(self).tick_interval()),
            r ==> final(self).last_tick_time() == now,
            !r ==> final(self).last_tick_time() == old(self).last_tick_time(),
            final(self).tick_interval() == old(self).tick_interval(),
            final(self).live() == old(self).live(),
            final(self).counters() == old(self).counters(),
    {
        if now >= self.last_tick && now - self.last_tick > self.timer_interval {
            self.last_tick = now;
            true
        } else {
            false
        }
    }

    proof fn lemma_tcp_update_keeps_bounds(&self, old_self: Self)
        requires
            old_self.wf(),
            self.registry == old_self.registry,
            self.tokens == old_self.tokens,
            self.udp == old_self.udp,
            self.stats == old_self.stats,
            self.tcp.wf(),
            self.tcp.records().len() == old_self.tcp.records().len(),
            forall|k: int|
                0 <= k < self.tcp.records().len() ==> (#[trigger] self.tcp.records()[k]).local.handle()
                    == old_self.tcp.records()[k].local.handle() && self.tcp.records()[k].remote.handle()
                    == old_self.tcp.records()[k].remote.handle(),
        ensures
            self.wf(),
    {
        assert forall|k: int| 0 <= k < self.tcp.records().len() implies (#[trigger] self.tcp.records()[k]).local.handle().0
            < self.registry.next_handle() && self.tcp.records()[k].remote.handle().0 < self.registry.next_handle() by {
            assert(old_self.tcp.records()[k].local.handle().0 < self.registry.next_handle());
        }
    }

    /// How many received bytes the side of handle `h` can take now (0 for an
    /// unknown handle).
    pub fn recv_room(&self, h: &Fd64) -> (r: usize)
        requires
            self.wf(),
        ensures
            !tcp_uses(self.tcp_records(), *h) ==> r == 0,
            forall|i: int, s: Side|
                0 <= i < self.tcp_records().len() && #[trigger] endpoint(self.tcp_records()[i], s).handle() == *h
                    ==> r == room(endpoint(self.tcp_records()[i], s)),
    {
        self.tcp.room_of(h)
    }

    /// Handle `h` became readable; see [`TcpConnectionManager::relay_readable`].
    pub fn relay_readable(&self, h: &Fd64) -> (a: TcpAction)
        requires
            self.wf(),
        ensures
            !tcp_uses(self.tcp_records(), *h) ==> a is Idle,
            forall|i: int, s: Side|
                0 <= i < self.tcp_records().len() && #[trigger] endpoint(self.tcp_records()[i], s).handle() == *h
                    ==> readable_spec(self.tcp_records()[i], s, a),
    {
        self.tcp.relay_readable(h)
    }

    /// Handle `h` became writable; see [`TcpConnectionManager::relay_writable`].
    pub fn relay_writable(&self, h: &Fd64) -> (a: TcpAction)
        requires
            self.wf(),
        ensures
            !tcp_uses(self.tcp_records(), *h) ==> a is Idle,
            forall|i: int, s: Side|
                0 <= i < self.tcp_records().len() && #[trigger] endpoint(self.tcp_records()[i], s).handle() == *h
                    ==> writable_spec(self.tcp_records()[i], s, a),
    {
        self.tcp.relay_writable(h)
    }

    /// The connect of the flow using `h` reported `so_error`.
    pub fn relay_connect_result(&mut self, h: &Fd64, so_error: i32) -> (a: TcpAction)
        requires
            old(self).wf(),
        ensures
            final(self).wf(),
            final(self).udp_records() == old(self).udp_records(),
            !tcp_uses(old(self).tcp_records(), *h) ==> a is Idle && final(self).tcp_records() == old(self).tcp_records(),
            forall|i: int, s: Side|
                0 <= i < old(self).tcp_records().len() && #[trigger] endpoint(old(self).tcp_records()[i], s).handle()
                    == *h ==> final(self).tcp_records() == old(self).tcp_records().update(
                    i,
                    final(self).tcp_records()[i],
                ) && connect_spec(old(self).tcp_records()[i], final(self).tcp_records()[i], so_error, a),
    {
        let ghost old_self = *self;
        let a = self.tcp.relay_connect_result(h, so_error);
        proof {
            assert forall|k: int| 0 <= k < self.tcp.records().len() implies (#[trigger] self.tcp.records()[k]).local.handle()
                == old_self.tcp.records()[k].local.handle() && self.tcp.records()[k].remote.handle()
                == old_self.tcp.records()[k].remote.handle() by {
                if tcp_uses(old_self.tcp.records(), *h) {
                    let i = choose|i: int| 0 <= i < old_self.tcp.records().len() && crate::manager::tcp_touches(#[trigger] old_self.tcp.records()[i], *h);
                    let s = if old_self.tcp.records()[i].local.handle() == *h { Side::Local } else { Side::Remote };
                    assert(endpoint(old_self.tcp.records()[i], s).handle() == *h);
                }
            }
            if tcp_uses(old_self.tcp.records(), *h) {
                let i = choose|i: int| 0 <= i < old_self.tcp.records().len() && crate::manager::tcp_touches(#[trigger] old_self.tcp.records()[i], *h);
                let s = if old_self.tcp.records()[i].local.handle() == *h { Side::Local } else { Side::Remote };
                assert(endpoint(old_self.tcp.records()[i], s).handle() == *h);
                assert(self.tcp.records().len() == old_self.tcp.records().len());
            }
            self.lemma_tcp_update_keeps_bounds(old_self);
        }
        a
    }

    /// A `recv` on `h` gave `out`.
    pub fn relay_received(&mut self, h: &Fd64, out: RecvOutcome) -> (a: TcpAction)
        requires
            old(self).wf(),
            forall|i: int, s: Side|
                0 <= i < old(self).tcp_records().len() && #[trigger] endpoint(old(self).tcp_records()[i], s).handle()
                    == *h ==> recv_fits(old(self).tcp_records()[i], s, out),
        ensures
            final(self).wf(),
            final(self).udp_records() == old(self).udp_records(),
            !tcp_uses(old(self).tcp_records(), *h) ==> a is Idle && final(self).tcp_records() == old(self).tcp_records(),
            forall|i: int, s: Side|
                0 <= i < old(self).tcp_records().len() && #[trigger] endpoint(old(self).tcp_records()[i], s).handle()
                    == *h ==> final(self).tcp_records() == old(self).tcp_records().update(
                    i,
                    final(self).tcp_records()[i],
                ) && received_spec(old(self).tcp_records()[i], final(self).tcp_records()[i], s, out, a),
    {
        let ghost old_self = *self;
        proof {
            assert forall|i: int, s: Side|
                0 <= i < self.tcp.records().len() && #[trigger] endpoint(self.tcp.records()[i], s).handle() == *h
                    implies recv_fits(self.tcp.records()[i], s, out) by {
                assert(self.tcp_records()[i] == self.tcp.records()[i]);
            }
        }
        let a = self.tcp.relay_received(h, out);
        proof {
            assert forall|k: int| 0 <= k < self.tcp.records().len() implies (#[trigger] self.tcp.records()[k]).local.handle()
                == old_self.tcp.records()[k].local.handle() && self.tcp.records()[k].remote.handle()
                == old_self.tcp.records()[k].remote.handle() by {
                if tcp_uses(old_self.tcp.records(), *h) {
                    let i = choose|i: int| 0 <= i < old_self.tcp.records().len() && crate::manager::tcp_touches(#[trigger] old_self.tcp.records()[i], *h);
                    let s = if old_self.tcp.records()[i].local.handle() == *h { Side::Local } else { Side::Remote };
                    assert(endpoint(old_self.tcp.records()[i], s).handle() == *h);
                }
            }
            if tcp_uses(old_self.tcp.records(), *h) {
                let i = choose|i: int| 0 <= i < old_self.tcp.records().len() && crate::manager::tcp_touches(#[trigger] old_self.tcp.records()[i], *h);
                let s = if old_self.tcp.records()[i].local.handle() == *h { Side::Local } else { Side::Remote };
                assert(endpoint(old_self.tcp.records()[i], s).handle() == *h);
                assert(self.tcp.records().len() == old_self.tcp.records().len());
            }
            self.lemma_tcp_update_keeps_bounds(old_self);
        }
        a
    }

    /// A `send` of the bytes pending on `h` gave `out`.
    pub fn relay_sent(&mut self, h: &Fd64, out: SendOutcome, flushing: bool) -> (a: TcpAction)
        requires
            old(self).wf(),
        ensures
            final(self).wf(),
            final(self).udp_records() == old(self).udp_records(),
            !tcp_uses(old(self).tcp_records(), *h) ==> a is Idle && final(self).tcp_records() == old(self).tcp_records(),
            forall|i: int, s: Side|
                0 <= i < old(self).tcp_records().len() && #[trigger] endpoint(old(self).tcp_records()[i], s).handle()
                    == *h ==> final(self).tcp_records() == old(self).tcp_records().update(
                    i,
                    final(self).tcp_records()[i],
                ) && sent_spec(old(self).tcp_records()[i], final(self).tcp_records()[i], s, out, flushing, a),
    {
        let ghost old_self = *self;
        let a = self.tcp.relay_sent(h, out, flushing);
        proof {
            assert forall|k: int| 0 <= k < self.tcp.records().len() implies (#[trigger] self.tcp.records()[k]).local.handle()
                == old_self.tcp.records()[k].local.handle() && self.tcp.records()[k].remote.handle()
                == old_self.tcp.records()[k].remote.handle() by {
                if tcp_uses(old_self.tcp.records(), *h) {
                    let i = choose|i: int| 0 <= i < old_self.tcp.records().len() && crate::manager::tcp_touches(#[trigger] old_self.tcp.records()[i], *h);
                    let s = if old_self.tcp.records()[i].local.handle() == *h { Side::Local } else { Side::Remote };
                    assert(endpoint(old_self.tcp.records()[i], s).handle() == *h);
                }
            }
            if tcp_uses(old_self.tcp.records(), *h) {
                let i = choose|i: int| 0 <= i < old_self.tcp.records().len() && crate::manager::tcp_touches(#[trigger] old_self.tcp.records()[i], *h);
                let s = if old_self.tcp.records()[i].local.handle() == *h { Side::Local } else { Side::Remote };
                assert(endpoint(old_self.tcp.records()[i], s).handle() == *h);
                assert(self.tcp.records().len() == old_self.tcp.records().len());
            }
            self.lemma_tcp_update_keeps_bounds(old_self);
        }
        a
    }

    /// Records activity at `now` on the flow that uses `h`.
    pub fn touch_tcp(&mut self, h: &Fd64, now: u64)
        requires
            old(self).wf(),
        ensures
            final(self).wf(),
            final(self).udp_records() == old(self).udp_records(),
            final(self).counters() == old(self).counters(),
            !tcp_uses(old(self).tcp_records(), *h) ==> final(self).tcp_records() == old(self).tcp_records(),
            forall|i: int, s: Side|
                0 <= i < old(self).tcp_records().len() && #[trigger] endpoint(old(self).tcp_records()[i], s).handle()
                    == *h ==> final(self).tcp_records() == old(self).tcp_records().update(
                    i,
                    TcpConnection { last_active_time: now, ..old(self).tcp_records()[i] },
                ),
    {
        match self.tcp.locate(h) {
            Some((i, side)) => {
                let local = self.tcp.local_handle_at(i);
                let ghost old_self = *self;
                self.tcp.update_lru_at(&local, now);
                proof {
                    assert(old_self.tcp.records()[i as int].local.handle() == local);
                    assert forall|i2: int, s2: Side|
                        0 <= i2 < old_self.tcp.records().len() && #[trigger] endpoint(old_self.tcp.records()[i2], s2).handle()
                            == *h implies i2 == i by {
                        old_self.tcp.lemma_locate_unique(*h, i as int, side, i2, s2);
                    }
                    self.lemma_tcp_update_keeps_bounds(old_self);
                }
            },
            None => {},
        }
    }

    /// Records activity at `now` on the session of `client`.
    pub fn touch_udp(&mut self, client: &Address, now: u64)
        requires
            old(self).wf(),
        ensures
            final(self).wf(),
            final(self).tcp_records() == old(self).tcp_records(),
            final(self).counters() == old(self).counters(),
            !udp_has_addr(old(self).udp_records(), *client) ==> final(self).udp_records() == old(self).udp_records(),
            forall|i: int|
                0 <= i < old(self).udp_records().len() && (#[trigger] old(self).udp_records()[i]).address == *client
                    ==> final(self).udp_records() == old(self).udp_records().update(
                    i,
                    UdpSession { last_active_time: now, ..old(self).udp_records()[i] },
                ),
    {
        let ghost old_self = *self;
        self.udp.update_lru_at(client, now);
        proof {
            assert forall|k: int| 0 <= k < self.udp.records().len() implies (#[trigger] self.udp.records()[k]).fd64.0
                < self.registry.next_handle() by {
                assert(old_self.udp.records()[k].fd64.0 < self.registry.next_handle());
            }
        }
    }

    /// Counts `n` bytes received on a TCP flow.
    pub fn record_tcp_received(&mut self, n: usize)
        requires
            old(self).wf(),
        ensures
            final(self).wf(),
            final(self).tcp_records() == old(self).tcp_records(),
            final(self).udp_records() == old(self).udp_records(),
            final(self).counters() == (TrafficStats { tcp_bytes_received: sat_add(old(self).counters().tcp_bytes_received, n as u64), ..old(self).counters() }),
    {
        self.stats.add_tcp_received(n);
    }

    /// Counts `n` bytes sent on a TCP flow.
    pub fn record_tcp_sent(&mut self, n: usize)
        requires
            old(self).wf(),
        ensures
            final(self).wf(),
            final(self).tcp_records() == old(self).tcp_records(),
            final(self).udp_records() == old(self).udp_records(),
            final(self).counters() == (TrafficStats { tcp_bytes_sent: sat_add(old(self).counters().tcp_bytes_sent, n as u64), ..old(self).counters() }),
    {
        self.stats.add_tcp_sent(n);
    }

    /// Counts `n` bytes received on a UDP session.
    pub fn record_udp_received(&mut self, n: usize)
        requires
            old(self).wf(),
        ensures
            final(self).wf(),
            final(self).tcp_records() == old(self).tcp_records(),
            final(self).udp_records() == old(self).udp_records(),
            final(self).counters() == (TrafficStats { udp_bytes_received: sat_add(old(self).counters().udp_bytes_received, n as u64), ..old(self).counters() }),
    {
        self.stats.add_udp_received(n);
    }

    /// Counts `n` bytes sent on a UDP session.
    pub fn record_udp_sent(&mut self, n: usize)
        requires
            old(self).wf(),
        ensures
            final(self).wf(),
            final(self).tcp_records() == old(self).tcp_records(),
            final(self).udp_records() == old(self).udp_records(),
            final(self).counters() == (TrafficStats { udp_bytes_sent: sat_add(old(self).counters().udp_bytes_sent, n as u64), ..old(self).counters() }),
    {
        self.stats.add_udp_sent(n);
    }

    /// What to do with a datagram of `len` bytes from `src` on the listener:
    /// drop it when it is over the limit; forward it over the client's
    /// session; refuse it when the table is full; else open a session.
    pub fn on_datagram(&self, src: &Address, len: usize) -> (r: DatagramStep)
        requires
            self.wf(),
        ensures
            len > MAX_UDP_DATAGRAM ==> r is DropOversized,
            len <= MAX_UDP_DATAGRAM ==> match r {
                DatagramStep::Forward(h) => exists|i: int|
                    0 <= i < self.udp_records().len() && (#[trigger] self.udp_records()[i]).address == *src
                        && self.udp_records()[i].fd64 == h,
                DatagramStep::Refuse => !udp_has_addr(self.udp_records(), *src) && self.udp_records().len()
                    >= self.connection_limit(),
                DatagramStep::Open => !udp_has_addr(self.udp_records(), *src) && self.udp_records().len()
                    < self.connection_limit(),
                DatagramStep::DropOversized => false,
            },
    {
        if len > MAX_UDP_DATAGRAM {
            return DatagramStep::DropOversized;
        }
        match self.udp.get_session(src) {
            Some(s) => {
                proof {
                    let i = choose|i: int|
                        0 <= i < self.udp.records().len() && (#[trigger] self.udp.records()[i]).address == *src && *s
                            == self.udp.records()[i];
                    assert(self.udp_records()[i].address == *src && self.udp_records()[i].fd64 == s.fd64);
                }
                DatagramStep::Forward(s.fd64)
            },
            None => {
                if self.udp.len() >= self.max_connections {
                    DatagramStep::Refuse
                } else {
                    DatagramStep::Open
                }
            },
        }
    }

    /// Where a response read on the outbound socket `h` of a session goes:
    /// the listener's descriptor and the client's address.
    pub fn reply_route(&self, h: &Fd64) -> (r: Option<(i32, Address)>)
        requires
            self.wf(),
        ensures
            r matches Some((raw, client)) ==> exists|i: int|
                0 <= i < self.udp_records().len() && (#[trigger] self.udp_records()[i]).fd64 == *h
                    && self.udp_records()[i].address == client && self.live().contains_key(
                    self.udp_records()[i].local_listen_fd.0,
                ) && self.live()[self.udp_records()[i].local_listen_fd.0] == raw,
            r is None ==> !udp_has_remote(self.udp_records(), *h) || exists|i: int|
                0 <= i < self.udp_records().len() && (#[trigger] self.udp_records()[i]).fd64 == *h
                    && !self.live().contains_key(self.udp_records()[i].local_listen_fd.0),
    {
        match self.udp.get_session_by_fd64(h) {
            Some(s) => {
                let ghost i = choose|i: int|
                    0 <= i < self.udp.records().len() && (#[trigger] self.udp.records()[i]).fd64 == *h && *s
                        == self.udp.records()[i];
                match self.registry.to_fd(s.local_listen_fd) {
                    Some(raw) => {
                        proof {
                            assert(self.udp_records()[i].fd64 == *h && self.udp_records()[i].address == s.address);
                        }
                        Some((raw, s.address))
                    },
                    None => {
                        proof {
                            assert(self.udp_records()[i].fd64 == *h);
                        }
                        None
                    },
                }
            },
            None => None,
        }
    }

    /// Ends every flow and session, for shutdown; returns what the caller
    /// deregisters and closes.
    pub fn close_all(&mut self) -> (r: (Vec<ClosedTcpFlow>, Vec<ClosedUdpSession>))
        requires
            old(self).wf(),
        ensures
            final(self).wf(),
            final(self).tcp_records().len() == 0,
            final(self).udp_records().len() == 0,
            r.0@.len() == old(self).tcp_records().len(),
            r.1@.len() == old(self).udp_records().len(),
            forall|k: int|
                0 <= k < r.0@.len() ==> old(self).tcp_records().contains((#[trigger] r.0@[k]).record)
                    && !final(self).live().contains_key(r.0@[k].record.local.handle().0)
                    && !final(self).live().contains_key(r.0@[k].record.remote.handle().0)
                    && !final(self).handle_tokens().contains_key(r.0@[k].record.local.handle().0)
                    && !final(self).handle_tokens().contains_key(r.0@[k].record.remote.handle().0),
            forall|k: int|
                0 <= k < r.1@.len() ==> old(self).udp_records().contains((#[trigger] r.1@[k]).record)
                    && !final(self).live().contains_key(r.1@[k].record.fd64.0)
                    && !final(self).handle_tokens().contains_key(r.1@[k].record.fd64.0),
    {
        let ghost t0 = self.tcp_records();
        let ghost u0 = self.udp_records();
        let mut tcp: Vec<ClosedTcpFlow> = Vec::new();
        while self.tcp.len() > 0
            invariant
                self.wf(),
                t0 == old(self).tcp_records(),
                self.tcp_records().len() + tcp@.len() == t0.len(),
                self.udp_records() == u0,
                u0 == old(self).udp_records(),
                forall|i: int| 0 <= i < self.tcp_records().len() ==> t0.contains(#[trigger] self.tcp_records()[i]),
                forall|k: int|
                    0 <= k < tcp@.len() ==> t0.contains((#[trigger] tcp@[k]).record)
                        && !self.live().contains_key(tcp@[k].record.local.handle().0)
                        && !self.live().contains_key(tcp@[k].record.remote.handle().0)
                        && !self.handle_tokens().contains_key(tcp@[k].record.local.handle().0)
                        && !self.handle_tokens().contains_key(tcp@[k].record.remote.handle().0),
            decreases self.tcp_records().len(),
        {
            let h = self.tcp.local_handle_at(0);
            let ghost before = self.tcp_records();
            let ghost live0 = self.live();
            let ghost tok0 = self.handle_tokens();
            proof {
                assert(crate::manager::tcp_touches(self.tcp.records()[0], h));
            }
            match self.close_tcp_flow(&h) {
                Some(c) => {
                    proof {
                        let j = choose|j: int|
                            0 <= j < before.len() && crate::manager::tcp_touches(#[trigger] before[j], h) && c.record
                                == before[j] && self.tcp_records() == before.remove(j);
                        assert(t0.contains(before[j]));
                        assert forall|i: int| 0 <= i < self.tcp_records().len() implies t0.contains(
                            #[trigger] self.tcp_records()[i],
                        ) by {
                            let k = if i < j { i } else { i + 1 };
                            assert(self.tcp_records()[i] == before[k]);
                        }
                    }
                    let ghost prev = tcp@;
                    tcp.push(c);
                    proof {
                        assert forall|k: int| 0 <= k < tcp@.len() implies t0.contains((#[trigger] tcp@[k]).record)
                            && !self.live().contains_key(tcp@[k].record.local.handle().0)
                            && !self.live().contains_key(tcp@[k].record.remote.handle().0)
                            && !self.handle_tokens().contains_key(tcp@[k].record.local.handle().0)
                            && !self.handle_tokens().contains_key(tcp@[k].record.remote.handle().0) by {
                            if k < prev.len() {
                                assert(tcp@[k] == prev[k]);
                                assert(!live0.contains_key(prev[k].record.local.handle().0));
                                assert(!live0.contains_key(prev[k].record.remote.handle().0));
                                assert(!tok0.contains_key(prev[k].record.local.handle().0));
                                assert(!tok0.contains_key(prev[k].record.remote.handle().0));
                            }
                        }
                    }
                },
                None => {},
            }
        }
        let mut udp: Vec<ClosedUdpSession> = Vec::new();
        while self.udp.len() > 0
            invariant
                self.wf(),
                self.tcp_records().len() == 0,
                u0 == old(self).udp_records(),
                t0 == old(self).tcp_records(),
                self.udp_records().len() + udp@.len() == u0.len(),
                tcp@.len() == t0.len(),
                forall|i: int| 0 <= i < self.udp_records().len() ==> u0.contains(#[trigger] self.udp_records()[i]),
                forall|k: int|
                    0 <= k < tcp@.len() ==> t0.contains((#[trigger] tcp@[k]).record)
                        && !self.live().contains_key(tcp@[k].record.local.handle().0)
                        && !self.live().contains_key(tcp@[k].record.remote.handle().0)
                        && !self.handle_tokens().contains_key(tcp@[k].record.local.handle().0)
                        && !self.handle_tokens().contains_key(tcp@[k].record.remote.handle().0),
                forall|k: int|
                    0 <= k < udp@.len() ==> u0.contains((#[trigger] udp@[k]).record)
                        && !self.live().contains_key(udp@[k].record.fd64.0)
                        && !self.handle_tokens().contains_key(udp@[k].record.fd64.0),
            decreases self.udp_records().len(),
        {
            let a = self.udp.address_at(0);
            let ghost before = self.udp_records();
            let ghost live0 = self.live();
            let ghost tok0 = self.handle_tokens();
            proof {
                assert(self.udp.records()[0].address == a);
            }
            match self.close_udp_session(&a) {
                Some(c) => {
                    proof {
                        let j = choose|j: int|
                            0 <= j < before.len() && (#[trigger] before[j]).address == a && c.record == before[j]
                                && self.udp_records() == before.remove(j);
                        assert(u0.contains(before[j]));
                        assert forall|i: int| 0 <= i < self.udp_records().len() implies u0.contains(
                            #[trigger] self.udp_records()[i],
                        ) by {
                            let k = if i < j { i } else { i + 1 };
                            assert(self.udp_records()[i] == before[k]);
                        }
                        assert forall|k: int| 0 <= k < tcp@.len() implies t0.contains((#[trigger] tcp@[k]).record)
                            && !self.live().contains_key(tcp@[k].record.local.handle().0)
                            && !self.live().contains_key(tcp@[k].record.remote.handle().0)
                            && !self.handle_tokens().contains_key(tcp@[k].record.local.handle().0)
                            && !self.handle_tokens().contains_key(tcp@[k].record.remote.handle().0) by {
                            assert(!live0.contains_key(tcp@[k].record.local.handle().0));
                            assert(!live0.contains_key(tcp@[k].record.remote.handle().0));
                            assert(!tok0.contains_key(tcp@[k].record.local.handle().0));
                            assert(!tok0.contains_key(tcp@[k].record.remote.handle().0));
                        }
                    }
                    let ghost prev = udp@;
                    udp.push(c);
                    proof {
                        assert forall|k: int| 0 <= k < udp@.len() implies u0.contains((#[trigger] udp@[k]).record)
                            && !self.live().contains_key(udp@[k].record.fd64.0)
                            && !self.handle_tokens().contains_key(udp@[k].record.fd64.0) by {
                            if k < prev.len() {
                                assert(udp@[k] == prev[k]);
                                assert(!live0.contains_key(prev[k].record.fd64.0));
                                assert(!tok0.contains_key(prev[k].record.fd64.0));
                            }
                        }
                    }
                },
                None => {},
            }
        }
        (tcp, udp)
    }

    /// The core without the gauges: what holds while a sweep's removals are
    /// being closed.
    closed spec fn wf_but_gauges(&self) -> bool {
        &&& self.registry.wf()
        &&& self.tokens.wf()
        &&& self.tcp.wf()
        &&& self.udp.wf()
        &&& forall|i: int|
            0 <= i < self.tcp.records().len() ==> (#[trigger] self.tcp.records()[i]).local.handle().0
                < self.registry.next_handle() && self.tcp.records()[i].remote.handle().0 < self.registry.next_handle()
        &&& forall|i: int|
            0 <= i < self.udp.records().len() ==> (#[trigger] self.udp.records()[i]).fd64.0
                < self.registry.next_handle()
        &&& forall|h: u64| #[trigger] self.tokens.tokens().contains_key(h) ==> h < self.registry.next_handle()
    }

    /// Runs the eviction sweep of both tables at `now` (see
    /// [`TcpConnectionManager::clear_inactive_at`]) and ends every flow and
    /// session it removed: tokens dropped, handles closed, gauges lowered.
    /// Returns what the caller deregisters and closes.
    pub fn sweep_at(&mut self, now: u64) -> (r: (Vec<ClosedTcpFlow>, Vec<ClosedUdpSession>))
        requires
            old(self).wf(),
        ensures
            final(self).wf(),
            final(self).tcp_records().len() + r.0@.len() == old(self).tcp_records().len(),
            final(self).udp_records().len() + r.1@.len() == old(self).udp_records().len(),
            forall|k: int|
                0 <= k < r.0@.len() ==> old(self).tcp_records().contains(#[trigger] r.0@[k].record),
            forall|k: int|
                0 <= k < r.1@.len() ==> old(self).udp_records().contains(#[trigger] r.1@[k].record),
            forall|k: int|
                0 <= k < r.0@.len() ==> !final(self).live().contains_key((#[trigger] r.0@[k]).record.local.handle().0)
                    && !final(self).live().contains_key(r.0@[k].record.remote.handle().0)
                    && !final(self).handle_tokens().contains_key(r.0@[k].record.local.handle().0)
                    && !final(self).handle_tokens().contains_key(r.0@[k].record.remote.handle().0),
            forall|k: int|
                0 <= k < r.1@.len() ==> !final(self).live().contains_key((#[trigger] r.1@[k]).record.fd64.0)
                    && !final(self).handle_tokens().contains_key(r.1@[k].record.fd64.0),
            ({
                let t = old(self).tcp_table();
                !(t.sweeps_disabled() || sweep_too_soon(t.last_sweep(), now)) && r.0@.len() < sweep_bound(
                    t.records().len(),
                    t.ratio() as nat,
                    t.floor() as nat,
                ) ==> forall|c: int|
                    0 <= c < final(self).tcp_records().len() ==> !is_expired(
                        now,
                        #[trigger] final(self).tcp_records()[c].last_active_time,
                        t.timeout_ms(),
                    )
            }),
            ({
                let u = old(self).udp_table();
                !(u.sweeps_disabled() || sweep_too_soon(u.last_sweep(), now)) && r.1@.len() < sweep_bound(
                    u.records().len(),
                    u.ratio() as nat,
                    u.floor() as nat,
                ) ==> forall|c: int|
                    0 <= c < final(self).udp_records().len() ==> !is_expired(
                        now,
                        #[trigger] final(self).udp_records()[c].last_active_time,
                        u.timeout_ms(),
                    )
            }),
    {
        let ghost tcp0 = self.tcp.records();
        let ghost udp0 = self.udp.records();
        let mut removed_tcp = self.tcp.clear_inactive_at_counted(&mut self.stats, now);
        let mut removed_udp = self.udp.clear_inactive_at_counted(&mut self.stats, now);
        let ghost tcp1 = self.tcp.records();
        let ghost udp1 = self.udp.records();
        let ghost n_tcp = removed_tcp@.len();
        let ghost n_udp = removed_udp@.len();
        proof {
            let s = self.tcp.records();
            assert forall|k: int| 0 <= k < s.len() implies (#[trigger] s[k]).local.handle().0 < self.registry.next_handle()
                && s[k].remote.handle().0 < self.registry.next_handle() by {
                assert(tcp0.contains(s[k]));
                let j = choose|j: int| 0 <= j < tcp0.len() && tcp0[j] == s[k];
                assert(old(self).tcp.records()[j].local.handle().0 < self.registry.next_handle());
            }
            let u = self.udp.records();
            assert forall|k: int| 0 <= k < u.len() implies (#[trigger] u[k]).fd64.0 < self.registry.next_handle() by {
                assert(udp0.contains(u[k]));
                let j = choose|j: int| 0 <= j < udp0.len() && udp0[j] == u[k];
                assert(old(self).udp.records()[j].fd64.0 < self.registry.next_handle());
            }
        }
        let mut closed_tcp: Vec<ClosedTcpFlow> = Vec::new();
        let mut closed_udp: Vec<ClosedUdpSession> = Vec::new();
        while removed_tcp.len() > 0
            invariant
                self.wf_but_gauges(),
                self.tcp.records().len() + removed_tcp@.len() + closed_tcp@.len() == tcp0.len(),
                self.stats.tcp_connections == self.tcp.records().len(),
                self.stats.udp_sessions == self.udp.records().len(),
                self.udp.records().len() + removed_udp@.len() == udp0.len(),
                forall|k: int| 0 <= k < removed_tcp@.len() ==> tcp0.contains(#[trigger] removed_tcp@[k]),
                forall|k: int| 0 <= k < closed_tcp@.len() ==> tcp0.contains(#[trigger] closed_tcp@[k].record),
                forall|k: int| 0 <= k < closed_tcp@.len() ==> !self.registry.live().contains_key((#[trigger] closed_tcp@[k]).record.local.handle().0)
                    && !self.registry.live().contains_key(closed_tcp@[k].record.remote.handle().0)
                    && !self.tokens.tokens().contains_key(closed_tcp@[k].record.local.handle().0)
                    && !self.tokens.tokens().contains_key(closed_tcp@[k].record.remote.handle().0),
                udp0 == old(self).udp.records(),
                tcp0 == old(self).tcp.records(),
                self.tcp.records() == tcp1,
                self.udp.records() == udp1,
                removed_tcp@.len() + closed_tcp@.len() == n_tcp,
                removed_udp@.len() == n_udp,
            decreases removed_tcp@.len(),
        {
            let ghost before_pop = removed_tcp@;
            match removed_tcp.pop() {
                Some(record) => {
                    let local = record.local.fd64();
                    let remote = record.remote.fd64();
                    let local_token = self.tokens.remove(&local);
                    let remote_token = self.tokens.remove(&remote);
                    let local_raw = self.registry.close(local);
                    let remote_raw = self.registry.close(remote);
                    proof {
                        assert(tcp0.contains(record));
                    }
                    closed_tcp.push(ClosedTcpFlow { record, local_raw, remote_raw, local_token, remote_token });
                    proof {
                        assert forall|k: int| 0 <= k < removed_tcp@.len() implies tcp0.contains(#[trigger] removed_tcp@[k]) by {
                            assert(removed_tcp@[k] == before_pop[k]);
                        }
                    }
                },
                None => {},
            }
        }
        while removed_udp.len() > 0
            invariant
                self.wf_but_gauges(),
                self.stats.tcp_connections == self.tcp.records().len(),
                self.stats.udp_sessions == self.udp.records().len(),
                self.udp.records().len() + removed_udp@.len() + closed_udp@.len() == udp0.len(),
                self.tcp.records().len() + closed_tcp@.len() == tcp0.len(),
                forall|k: int| 0 <= k < removed_udp@.len() ==> udp0.contains(#[trigger] removed_udp@[k]),
                forall|k: int| 0 <= k < closed_udp@.len() ==> udp0.contains(#[trigger] closed_udp@[k].record),
                forall|k: int| 0 <= k < closed_tcp@.len() ==> tcp0.contains(#[trigger] closed_tcp@[k].record),
                forall|k: int| 0 <= k < closed_tcp@.len() ==> !self.registry.live().contains_key((#[trigger] closed_tcp@[k]).record.local.handle().0)
                    && !self.registry.live().contains_key(closed_tcp@[k].record.remote.handle().0)
                    && !self.tokens.tokens().contains_key(closed_tcp@[k].record.local.handle().0)
                    && !self.tokens.tokens().contains_key(closed_tcp@[k].record.remote.handle().0),
                forall|k: int| 0 <= k < closed_udp@.len() ==> !self.registry.live().contains_key((#[trigger] closed_udp@[k]).record.fd64.0)
                    && !self.tokens.tokens().contains_key(closed_udp@[k].record.fd64.0),
                udp0 == old(self).udp.records(),
                tcp0 == old(self).tcp.records(),
                self.tcp.records() == tcp1,
                self.udp.records() == udp1,
                closed_tcp@.len() == n_tcp,
                removed_udp@.len() + closed_udp@.len() == n_udp,
            decreases removed_udp@.len(),
        {
            let ghost before_pop = removed_udp@;
            match removed_udp.pop() {
                Some(record) => {
                    let remote_token = self.tokens.remove(&record.fd64);
                    let remote_raw = self.registry.close(record.fd64);
                    proof {
                        assert(udp0.contains(record));
                    }
                    closed_udp.push(ClosedUdpSession { record, remote_raw, remote_token });
                    proof {
                        assert forall|k: int| 0 <= k < removed_udp@.len() implies udp0.contains(#[trigger] removed_udp@[k]) by {
                            assert(removed_udp@[k] == before_pop[k]);
                        }
                    }
                },
                None => {},
            }
        }
        (closed_tcp, closed_udp)
    }
}

/// Largest datagram the forwarder relays, in bytes.
pub const MAX_UDP_DATAGRAM: usize = 65534;

/// What becomes of a datagram that arrived on the UDP listener.
pub enum DatagramStep {
    /// Too long: dropped, the session (if any) stays.
    DropOversized,
    /// Sent over the session whose outbound socket has this handle.
    Forward(Fd64),
    /// The table is full: dropped.
    Refuse,
    /// A session is opened for the client, then the datagram is sent over it.
    Open,
}

/// What a `recv` on a session's outbound socket gave, and what follows.
pub enum ResponseStep {
    /// An error: logged, nothing sent.
    Failed,
    /// Nothing read.
    Empty,
    /// Longer than the limit: dropped.
    DropOversized,
    /// Sent to the client.
    Reply,
}

/// Classifies a response read of `len` bytes (negative on error) into a
/// buffer one byte longer than [`crate::config::MAX_DATA_LEN_UDP`].
pub fn on_response_len(len: i64) -> (r: ResponseStep)
    ensures
        len < 0 ==> r is Failed,
        len == 0 ==> r is Empty,
        len == MAX_DATA_LEN_UDP + 1 ==> r is DropOversized,
        0 < len && len != MAX_DATA_LEN_UDP + 1 ==> r is Reply,
{
    if len < 0 {
        ResponseStep::Failed
    } else if len == 0 {
        ResponseStep::Empty
    } else if len == (MAX_DATA_LEN_UDP as i64) + 1 {
        ResponseStep::DropOversized
    } else {
        ResponseStep::Reply
    }
}

} // verus!
