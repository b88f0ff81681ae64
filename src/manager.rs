use crate::address::Address;
use crate::connection::{room, TcpConnection, UdpSession};
use crate::tcp::{
    conn_wf, connect_spec, endpoint, readable_spec, received_spec, recv_fits, same_identity, sent_spec, writable_spec,
    RecvOutcome, SendOutcome, Side, TcpAction,
};
use crate::fd_manager::Fd64;
use crate::log::get_current_time;
use crate::lru::{is_expired, LruCollector};
use vstd::laws_eq::obeys_concrete_eq;
use crate::stats::TrafficStats;
use std::collections::HashMap;
use vstd::prelude::*;

verus! {

broadcast use vstd::std_specs::hash::group_hash_axioms;

/// Minimum time between two eviction sweeps, in milliseconds.
pub const CONN_CLEAR_INTERVAL_MS: u64 = 1000;

/// How many stale entries one sweep may remove from a table of `size`:
/// `size / ratio + floor`, but never more than `size`.
pub open spec fn sweep_bound(size: nat, ratio: nat, floor: nat) -> nat
    recommends
        ratio > 0,
{
    if size / ratio + floor <= size {
        size / ratio + floor
    } else {
        size
    }
}

/// A sweep at `now` is skipped when less than the interval has passed since
/// the one at `last` (or the clock went back).
pub open spec fn sweep_too_soon(last: u64, now: u64) -> bool {
    now < last || now - last < CONN_CLEAR_INTERVAL_MS
}

/// Computes [`sweep_bound`].
pub fn sweep_count(size: usize, ratio: u32, floor: u32) -> (k: usize)
    requires
        ratio > 0,
    ensures
        k == sweep_bound(size as nat, ratio as nat, floor as nat),
{
    let share = size / (ratio as usize);
    if (floor as usize) <= size - share {
        share + floor as usize
    } else {
        size
    }
}

/// Whether record `c` uses handle `h` on either side.
pub open spec fn tcp_touches(c: TcpConnection, h: Fd64) -> bool {
    c.local.handle() == h || c.remote.handle() == h
}

/// All handles of all records are pairwise distinct.
pub open spec fn tcp_handles_distinct(s: Seq<TcpConnection>) -> bool {
    &&& forall|i: int| 0 <= i < s.len() ==> s[i].local.handle() != s[i].remote.handle()
    &&& forall|i: int, j: int|
        0 <= i < s.len() && 0 <= j < s.len() && i != j ==> {
            &&& s[i].local.handle() != s[j].local.handle()
            &&& s[i].remote.handle() != s[j].remote.handle()
            &&& s[i].local.handle() != s[j].remote.handle()
        }
}

/// Whether some record uses handle `h`.
pub open spec fn tcp_uses(s: Seq<TcpConnection>, h: Fd64) -> bool {
    exists|i: int| 0 <= i < s.len() && tcp_touches(#[trigger] s[i], h)
}

/// Removed records are the stalest: each is at most as recent as every stale
/// record that stayed, and they come oldest first.
pub open spec fn tcp_oldest_first(removed: Seq<TcpConnection>, kept: Seq<TcpConnection>, now: u64, timeout: u64) -> bool {
    &&& forall|x: int, c: int|
        0 <= x < removed.len() && 0 <= c < kept.len() && is_expired(now, kept[c].last_active_time, timeout)
            ==> #[trigger] removed[x].last_active_time <= #[trigger] kept[c].last_active_time
    &&& forall|x: int, y: int|
        0 <= x < y < removed.len() ==> #[trigger] removed[x].last_active_time <= #[trigger] removed[y].last_active_time
}

/// What one eviction sweep at `now` does to the table `o`, giving `f`
/// and the removed records `removed`.
pub open spec fn tcp_sweep_post(o: TcpConnectionManager, f: TcpConnectionManager, now: u64, removed: Seq<TcpConnection>) -> bool {
    &&& f.same_settings(o)
    &&& o.sweeps_disabled() || sweep_too_soon(o.last_sweep(), now) ==> {
        &&& removed.len() == 0
        &&& f.records() == o.records()
        &&& f.last_sweep() == o.last_sweep()
    }
    &&& !(o.sweeps_disabled() || sweep_too_soon(o.last_sweep(), now)) ==> {
        &&& f.last_sweep() == now
        &&& removed.len() <= sweep_bound(
            o.records().len(),
            o.ratio() as nat,
            o.floor() as nat,
        )
        &&& removed.len() < sweep_bound(
            o.records().len(),
            o.ratio() as nat,
            o.floor() as nat,
        ) ==> forall|c: int|
            0 <= c < f.records().len() ==> !is_expired(
                now,
                #[trigger] f.records()[c].last_active_time,
                o.timeout_ms(),
            )
    }
    &&& forall|x: int|
        0 <= x < removed.len() ==> is_expired(
            now,
            (#[trigger] removed[x]).last_active_time,
            o.timeout_ms(),
        )
    &&& forall|x: int| 0 <= x < removed.len() ==> o.records().contains(#[trigger] removed[x])
    &&& tcp_oldest_first(removed, f.records(), now, o.timeout_ms())
    &&& f.records().len() + removed.len() == o.records().len()
    &&& forall|c: int|
        0 <= c < f.records().len() ==> o.records().contains(
            #[trigger] f.records()[c],
        )
    &&& forall|c: int|
        0 <= c < o.records().len() ==> f.records().contains(
            #[trigger] o.records()[c],
        ) || removed.contains(o.records()[c])
}

/// `f` is `o` with the last-active time of the record whose local handle is
/// `h` set to `t`.
pub open spec fn tcp_touched(o: Seq<TcpConnection>, f: Seq<TcpConnection>, h: Fd64, t: u64) -> bool {
    forall|j: int|
        0 <= j < o.len() && #[trigger] o[j].local.handle() == h ==> f == o.update(
            j,
            TcpConnection { last_active_time: t, ..o[j] },
        )
}

/// `f` is `o` with the last-active time of the session of client `a` set to `t`.
pub open spec fn udp_touched(o: Seq<UdpSession>, f: Seq<UdpSession>, a: Address, t: u64) -> bool {
    forall|j: int|
        0 <= j < o.len() && (#[trigger] o[j]).address == a ==> f == o.update(j, UdpSession { last_active_time: t, ..o[j] })
}

/// The TCP connection table: records keyed by their local handle, each also
/// found by its remote handle, aged through an LRU index keyed by local handle.
pub struct TcpConnectionManager {
    connections: Vec<TcpConnection>,
    lru: LruCollector<Fd64, Fd64>,
    last_clear_time: u64,
    timeout: u64,
    conn_clear_ratio: u32,
    conn_clear_min: u32,
    disable_conn_clear: bool,
}

impl TcpConnectionManager {
    /// The records, in insertion order.
    pub closed spec fn records(&self) -> Seq<TcpConnection> {
        self.connections@
    }

    /// Idle time after which a record is stale, in milliseconds.
    pub closed spec fn timeout_ms(&self) -> u64 {
        self.timeout
    }

    pub closed spec fn ratio(&self) -> u32 {
        self.conn_clear_ratio
    }

    pub closed spec fn floor(&self) -> u32 {
        self.conn_clear_min
    }

    pub closed spec fn sweeps_disabled(&self) -> bool {
        self.disable_conn_clear
    }

    /// Time of the last sweep.
    pub closed spec fn last_sweep(&self) -> u64 {
        self.last_clear_time
    }

    pub closed spec fn wf(&self) -> bool {
        &&& self.lru.wf()
        &&& self.lru.entries().len() == self.connections@.len()
        &&& forall|i: int|
            0 <= i < self.connections@.len() ==> #[trigger] self.lru.entries()[i] == (
                self.connections@[i].local.handle(),
                self.connections@[i].local.handle(),
                self.connections@[i].last_active_time,
            )
        &&& forall|i: int|
            0 <= i < self.connections@.len() ==> (#[trigger] self.connections@[i]).local.wf()
                && self.connections@[i].remote.wf()
        &&& tcp_handles_distinct(self.connections@)
        &&& self.conn_clear_ratio > 0
    }

    /// All handles of all records are pairwise distinct.
    pub proof fn lemma_handles_distinct(&self)
        requires
            self.wf(),
        ensures
            tcp_handles_distinct(self.records()),
    {
    }

    /// Both handles of a record select that record and no other.
    pub proof fn lemma_any_side_selects_record(&self, i: int, j: int)
        requires
            self.wf(),
            0 <= i < self.records().len(),
            0 <= j < self.records().len(),
        ensures
            tcp_touches(self.records()[j], self.records()[i].local.handle()) <==> i == j,
            tcp_touches(self.records()[j], self.records()[i].remote.handle()) <==> i == j,
    {
    }

    pub fn new(timeout: u64, conn_clear_ratio: u32, conn_clear_min: u32, disable_conn_clear: bool) -> (r: Self)
        requires
            conn_clear_ratio > 0,
        ensures
            r.wf(),
            r.records() == Seq::<TcpConnection>::empty(),
            r.timeout_ms() == timeout,
            r.ratio() == conn_clear_ratio,
            r.floor() == conn_clear_min,
            r.sweeps_disabled() == disable_conn_clear,
            r.last_sweep() == 0,
    {
        proof {
            reveal(obeys_concrete_eq);
        }
        TcpConnectionManager {
            connections: Vec::new(),
            lru: LruCollector::new(),
            last_clear_time: 0,
            timeout,
            conn_clear_ratio,
            conn_clear_min,
            disable_conn_clear,
        }
    }

    proof fn lemma_lru_has_key(&self, h: Fd64)
        requires
            self.wf(),
        ensures
            crate::lru::has_key(self.lru.entries(), h) <==> exists|i: int|
                0 <= i < self.records().len() && #[trigger] self.records()[i].local.handle() == h,
    {
        if crate::lru::has_key(self.lru.entries(), h) {
            let i = choose|i: int| 0 <= i < self.lru.entries().len() && #[trigger] self.lru.entries()[i].0 == h;
            assert(self.records()[i].local.handle() == h);
        }
        if exists|i: int| 0 <= i < self.records().len() && #[trigger] self.records()[i].local.handle() == h {
            let i = choose|i: int| 0 <= i < self.records().len() && #[trigger] self.records()[i].local.handle() == h;
            assert(self.lru.entries()[i].0 == h);
        }
    }

    /// Adds a record for a new flow whose handles are not yet in the table.
    pub fn new_connection(
        &mut self,
        local_fd: Fd64,
        remote_fd: Fd64,
        addr_s: String,
        create_time: u64,
        buf_size: usize,
        remote_connecting: bool,
    )
        requires
            old(self).wf(),
            local_fd != remote_fd,
            !tcp_uses(old(self).records(), local_fd),
            !tcp_uses(old(self).records(), remote_fd),
        ensures
            final(self).wf(),
            final(self).records().len() == old(self).records().len() + 1,
            final(self).records().take(old(self).records().len() as int) == old(self).records(),
            ({
                let c = final(self).records().last();
                &&& c.local.handle() == local_fd
                &&& c.remote.handle() == remote_fd
                &&& c.local.capacity() == buf_size
                &&& c.remote.capacity() == buf_size
                &&& c.local.pending().len() == 0
                &&& c.remote.pending().len() == 0
                &&& c.addr_s@ == addr_s@
                &&& c.create_time == create_time
                &&& c.last_active_time == create_time
                &&& c.remote_connecting == remote_connecting
            }),
            final(self).same_settings(*old(self)),
            final(self).last_sweep() == old(self).last_sweep(),
    {
        let c = TcpConnection::new(local_fd, remote_fd, addr_s, create_time, buf_size, remote_connecting);
        proof {
            self.lemma_lru_has_key(local_fd);
            if exists|i: int| 0 <= i < self.records().len() && #[trigger] self.records()[i].local.handle() == local_fd {
                let i = choose|i: int| 0 <= i < self.records().len() && #[trigger] self.records()[i].local.handle() == local_fd;
                assert(tcp_touches(self.records()[i], local_fd));
            }
        }
        self.lru.new_key(local_fd, local_fd, create_time);
        self.connections.push(c);
        proof {
            let s = self.connections@;
            assert(s.take(s.len() - 1) =~= old(self).records());
            assert(self.lru.entries() == old(self).lru.entries().push((local_fd, local_fd, create_time)));
            assert forall|i: int| 0 <= i < s.len() implies #[trigger] self.lru.entries()[i] == (
                s[i].local.handle(),
                s[i].local.handle(),
                s[i].last_active_time,
            ) && s[i].local.wf() && s[i].remote.wf() by {
                if i < s.len() - 1 {
                    assert(s[i] == old(self).connections@[i]);
                    assert(self.lru.entries()[i] == old(self).lru.entries()[i]);
                }
            }
            assert forall|i: int, j: int|
                0 <= i < s.len() && 0 <= j < s.len() && i != j implies {
                &&& s[i].local.handle() != s[j].local.handle()
                &&& s[i].remote.handle() != s[j].remote.handle()
                &&& s[i].local.handle() != s[j].remote.handle()
            } by {
                if i == s.len() - 1 {
                    assert(!tcp_touches(s[j], local_fd));
                    assert(!tcp_touches(s[j], remote_fd));
                } else if j == s.len() - 1 {
                    assert(!tcp_touches(s[i], local_fd));
                    assert(!tcp_touches(s[i], remote_fd));
                }
            }
        }
    }

    /// Timeouts and sweep settings are unchanged.
    pub open spec fn same_settings(&self, other: Self) -> bool {
        &&& self.timeout_ms() == other.timeout_ms()
        &&& self.ratio() == other.ratio()
        &&& self.floor() == other.floor()
        &&& self.sweeps_disabled() == other.sweeps_disabled()
    }

    /// The position of the record whose local handle is `h`.
    pub fn index_of_local(&self, h: &Fd64) -> (r: Option<usize>)
        requires
            self.wf(),
        ensures
            match r {
                Some(i) => i < self.records().len() && self.records()[i as int].local.handle() == *h,
                None => forall|i: int|
                    0 <= i < self.records().len() ==> #[trigger] self.records()[i].local.handle() != *h,
            },
    {
        let mut i: usize = 0;
        while i < self.connections.len()
            invariant
                i <= self.connections@.len(),
                forall|j: int| 0 <= j < i ==> #[trigger] self.connections@[j].local.handle() != *h,
            decreases self.connections@.len() - i,
        {
            if self.connections[i].local.fd64().0 == h.0 {
                return Some(i);
            }
            i += 1;
        }
        None
    }

    /// The position of the record that uses `h` on either side.
    pub fn index_of_any(&self, h: &Fd64) -> (r: Option<usize>)
        requires
            self.wf(),
        ensures
            match r {
                Some(i) => i < self.records().len() && tcp_touches(self.records()[i as int], *h),
                None => !tcp_uses(self.records(), *h),
            },
    {
        let mut i: usize = 0;
        while i < self.connections.len()
            invariant
                i <= self.connections@.len(),
                forall|j: int| 0 <= j < i ==> !tcp_touches(#[trigger] self.connections@[j], *h),
            decreases self.connections@.len() - i,
        {
            if self.connections[i].local.fd64().0 == h.0 || self.connections[i].remote.fd64().0 == h.0 {
                return Some(i);
            }
            i += 1;
        }
        None
    }

    /// The record whose local handle is `fd64`.
    pub fn get_connection(&self, fd64: &Fd64) -> (r: Option<&TcpConnection>)
        requires
            self.wf(),
        ensures
            r.is_some() <==> exists|i: int|
                0 <= i < self.records().len() && #[trigger] self.records()[i].local.handle() == *fd64,
            r matches Some(c) ==> exists|i: int|
                0 <= i < self.records().len() && #[trigger] self.records()[i].local.handle() == *fd64 && *c
                    == self.records()[i],
    {
        match self.index_of_local(fd64) {
            Some(i) => Some(&self.connections[i]),
            None => None,
        }
    }

    /// The record that uses `fd64` on either side.
    pub fn get_connection_by_any_fd(&self, fd64: &Fd64) -> (r: Option<&TcpConnection>)
        requires
            self.wf(),
        ensures
            r.is_some() <==> tcp_uses(self.records(), *fd64),
            r matches Some(c) ==> exists|i: int|
                0 <= i < self.records().len() && tcp_touches(#[trigger] self.records()[i], *fd64) && *c
                    == self.records()[i],
    {
        match self.index_of_any(fd64) {
            Some(i) => Some(&self.connections[i]),
            None => None,
        }
    }

    proof fn lemma_remove_keeps_wf(&self, old_self: Self, j: int)
        requires
            old_self.wf(),
            0 <= j < old_self.connections@.len(),
            self.connections@ == old_self.connections@.remove(j),
            self.lru.entries() == old_self.lru.entries().remove(j),
            self.lru.wf(),
            self.conn_clear_ratio == old_self.conn_clear_ratio,
        ensures
            self.wf(),
    {
        let s = self.connections@;
        let o = old_self.connections@;
        assert forall|i: int| 0 <= i < s.len() implies #[trigger] self.lru.entries()[i] == (
            s[i].local.handle(),
            s[i].local.handle(),
            s[i].last_active_time,
        ) && s[i].local.wf() && s[i].remote.wf() && s[i].local.handle() != s[i].remote.handle() by {
            let k = if i < j { i } else { i + 1 };
            assert(s[i] == o[k]);
            assert(old_self.lru.entries()[k] == (o[k].local.handle(), o[k].local.handle(), o[k].last_active_time));
        }
        assert forall|a: int, b: int| 0 <= a < s.len() && 0 <= b < s.len() && a != b implies {
            &&& s[a].local.handle() != s[b].local.handle()
            &&& s[a].remote.handle() != s[b].remote.handle()
            &&& s[a].local.handle() != s[b].remote.handle()
        } by {
            let ka = if a < j { a } else { a + 1 };
            let kb = if b < j { b } else { b + 1 };
            assert(s[a] == o[ka]);
            assert(s[b] == o[kb]);
        }
    }

    /// Removes the record at position `j`, keeping the LRU index in step.
    fn remove_at(&mut self, j: usize) -> (c: TcpConnection)
        requires
            old(self).wf(),
            j < old(self).records().len(),
        ensures
            final(self).wf(),
            c == old(self).records()[j as int],
            final(self).records() == old(self).records().remove(j as int),
            final(self).same_settings(*old(self)),
            final(self).last_sweep() == old(self).last_sweep(),
    {
        let key = self.connections[j].local.fd64();
        let ghost old_self = *self;
        proof {
            assert(self.lru.entries()[j as int].0 == key);
            assert forall|i: int| 0 <= i < self.lru.entries().len() && #[trigger] self.lru.entries()[i].0 == key implies i == j by {
                assert(self.connections@[i].local.handle() == key);
            }
        }
        self.lru.erase(&key);
        let c = self.connections.remove(j);
        proof {
            self.lemma_remove_keeps_wf(old_self, j as int);
        }
        c
    }

    /// Removes the record whose local handle is `fd64`; returns it, if there was one.
    pub fn erase(&mut self, fd64: &Fd64) -> (r: Option<TcpConnection>)
        requires
            old(self).wf(),
        ensures
            final(self).wf(),
            final(self).same_settings(*old(self)),
            final(self).last_sweep() == old(self).last_sweep(),
            match r {
                Some(c) => exists|j: int|
                    0 <= j < old(self).records().len() && #[trigger] old(self).records()[j].local.handle()
                        == *fd64 && c == old(self).records()[j] && final(self).records() == old(
                        self,
                    ).records().remove(j),
                None => final(self).records() == old(self).records() && forall|i: int|
                    0 <= i < old(self).records().len() ==> #[trigger] old(self).records()[i].local.handle()
                        != *fd64,
            },
    {
        match self.index_of_local(fd64) {
            Some(j) => Some(self.remove_at(j)),
            None => None,
        }
    }

    /// As [`Self::new_connection`], and sets the TCP connection gauge of `stats`
    /// to the table size.
    pub fn new_connection_counted(
        &mut self,
        stats: &mut TrafficStats,
        local_fd: Fd64,
        remote_fd: Fd64,
        addr_s: String,
        create_time: u64,
        buf_size: usize,
        remote_connecting: bool,
    )
        requires
            old(self).wf(),
            local_fd != remote_fd,
            !tcp_uses(old(self).records(), local_fd),
            !tcp_uses(old(self).records(), remote_fd),
        ensures
            final(self).wf(),
            final(self).records().len() == old(self).records().len() + 1,
            final(self).records().take(old(self).records().len() as int) == old(self).records(),
            ({
                let c = final(self).records().last();
                &&& c.local.handle() == local_fd
                &&& c.remote.handle() == remote_fd
                &&& c.local.capacity() == buf_size
                &&& c.remote.capacity() == buf_size
                &&& c.local.pending().len() == 0
                &&& c.remote.pending().len() == 0
                &&& c.addr_s@ == addr_s@
                &&& c.create_time == create_time
                &&& c.last_active_time == create_time
                &&& c.remote_connecting == remote_connecting
            }),
            final(self).same_settings(*old(self)),
            final(self).last_sweep() == old(self).last_sweep(),
            *final(stats) == (TrafficStats { tcp_connections: final(self).records().len() as u64, ..*old(stats) }),
    {
        self.new_connection(local_fd, remote_fd, addr_s, create_time, buf_size, remote_connecting);
        stats.tcp_connections = self.connections.len() as u64;
    }

    /// As [`Self::erase`], and sets the TCP connection gauge of `stats`
    /// to the table size.
    pub fn erase_counted(&mut self, stats: &mut TrafficStats, fd64: &Fd64) -> (r: Option<TcpConnection>)
        requires
            old(self).wf(),
        ensures
            final(self).wf(),
            final(self).same_settings(*old(self)),
            final(self).last_sweep() == old(self).last_sweep(),
            match r {
                Some(c) => exists|j: int|
                    0 <= j < old(self).records().len() && #[trigger] old(self).records()[j].local.handle()
                        == *fd64 && c == old(self).records()[j] && final(self).records() == old(
                        self,
                    ).records().remove(j),
                None => final(self).records() == old(self).records() && forall|i: int|
                    0 <= i < old(self).records().len() ==> #[trigger] old(self).records()[i].local.handle()
                        != *fd64,
            },
            *final(stats) == (TrafficStats { tcp_connections: final(self).records().len() as u64, ..*old(stats) }),
    {
        let r = self.erase(fd64);
        stats.tcp_connections = self.connections.len() as u64;
        r
    }

    /// As [`Self::clear_inactive_at`], and sets the TCP connection gauge of `stats`
    /// to the table size.
    pub fn clear_inactive_at_counted(&mut self, stats: &mut TrafficStats, now: u64) -> (removed: Vec<TcpConnection>)
        requires
            old(self).wf(),
        ensures
            final(self).wf(),
            tcp_sweep_post(*old(self), *final(self), now, removed@),
            *final(stats) == (TrafficStats { tcp_connections: final(self).records().len() as u64, ..*old(stats) }),
    {
        let removed = self.clear_inactive_at(now);
        stats.tcp_connections = self.connections.len() as u64;
        removed
    }

    pub fn len(&self) -> (r: usize)
        ensures
            r == self.records().len(),
    {
        self.connections.len()
    }

    pub fn is_empty(&self) -> (r: bool)
        ensures
            r == (self.records().len() == 0),
    {
        self.connections.len() == 0
    }

    /// Records activity at `now` on the flow whose local handle is `fd64`;
    /// returns whether there was one.
    pub fn update_lru_at(&mut self, fd64: &Fd64, now: u64) -> (r: bool)
        requires
            old(self).wf(),
        ensures
            final(self).wf(),
            final(self).same_settings(*old(self)),
            final(self).last_sweep() == old(self).last_sweep(),
            final(self).records().len() == old(self).records().len(),
            r == exists|j: int|
                0 <= j < old(self).records().len() && #[trigger] old(self).records()[j].local.handle() == *fd64,
            forall|j: int|
                0 <= j < old(self).records().len() ==> {
                    let c = #[trigger] final(self).records()[j];
                    let o = old(self).records()[j];
                    &&& c.local == o.local
                    &&& c.remote == o.remote
                    &&& c.addr_s == o.addr_s
                    &&& c.create_time == o.create_time
                    &&& c.remote_connecting == o.remote_connecting
                    &&& c.last_active_time == (if o.local.handle() == *fd64 { now } else { o.last_active_time })
                },
            forall|j: int|
                0 <= j < old(self).records().len() && #[trigger] old(self).records()[j].local.handle() == *fd64
                    ==> final(self).records() == old(self).records().update(
                    j,
                    TcpConnection { last_active_time: now, ..old(self).records()[j] },
                ),
            !r ==> final(self).records() == old(self).records(),
    {
        match self.index_of_local(fd64) {
            Some(j) => {
                let ghost old_self = *self;
                proof {
                    assert forall|i: int| 0 <= i < self.lru.entries().len() && #[trigger] self.lru.entries()[i].0 == *fd64 implies i == j by {
                        assert(self.connections@[i].local.handle() == *fd64);
                    }
                }
                proof {
                    assert(self.lru.entries()[j as int].0 == *fd64);
                }
                self.lru.update(fd64, now);
                self.connections[j].last_active_time = now;
                proof {
                    let s = self.connections@;
                    assert(s == old_self.connections@.update(j as int, s[j as int]));
                    assert forall|i: int| 0 <= i < s.len() implies #[trigger] self.lru.entries()[i] == (
                        s[i].local.handle(),
                        s[i].local.handle(),
                        s[i].last_active_time,
                    ) by {
                        if i != j {
                            assert(s[i] == old_self.connections@[i]);
                        }
                    }
                    assert forall|a: int, b: int| 0 <= a < s.len() && 0 <= b < s.len() && a != b implies {
                        &&& s[a].local.handle() != s[b].local.handle()
                        &&& s[a].remote.handle() != s[b].remote.handle()
                        &&& s[a].local.handle() != s[b].remote.handle()
                    } by {
                        assert(s[a].local == old_self.connections@[a].local);
                        assert(s[b].local == old_self.connections@[b].local);
                        assert(s[a].remote == old_self.connections@[a].remote);
                        assert(s[b].remote == old_self.connections@[b].remote);
                    }
                    assert forall|j2: int| 0 <= j2 < old(self).records().len() && old(self).records()[j2].local.handle() == *fd64 implies j2 == j by {
                        if j2 != j {
                            assert(old_self.connections@[j2].local.handle() != old_self.connections@[j as int].local.handle());
                        }
                    }
                }
                true
            },
            None => false,
        }
    }

    /// Records activity now on the flow whose local handle is `fd64`.
    pub fn update_lru(&mut self, fd64: &Fd64) -> (r: bool)
        requires
            old(self).wf(),
        ensures
            final(self).wf(),
            final(self).same_settings(*old(self)),
            final(self).records().len() == old(self).records().len(),
            r == exists|j: int|
                0 <= j < old(self).records().len() && #[trigger] old(self).records()[j].local.handle() == *fd64,
            !r ==> final(self).records() == old(self).records(),
            exists|t: u64| #[trigger] tcp_touched(old(self).records(), final(self).records(), *fd64, t),
    {
        let now = get_current_time();
        let r = self.update_lru_at(fd64, now);
        proof {
            assert(tcp_touched(old(self).records(), self.records(), *fd64, now));
        }
        r
    }

    /// The position of the stalest record that is stale at `now` (the earliest
    /// among equals), if any.
    fn oldest_expired(&self, now: u64) -> (r: Option<usize>)
        requires
            self.wf(),
        ensures
            match r {
                Some(j) => j < self.records().len() && is_expired(
                    now,
                    self.records()[j as int].last_active_time,
                    self.timeout_ms(),
                ) && forall|c: int|
                    0 <= c < self.records().len() && is_expired(
                        now,
                        self.records()[c].last_active_time,
                        self.timeout_ms(),
                    ) ==> self.records()[j as int].last_active_time <= #[trigger] self.records()[c].last_active_time,
                None => forall|c: int|
                    0 <= c < self.records().len() ==> !is_expired(
                        now,
                        #[trigger] self.records()[c].last_active_time,
                        self.timeout_ms(),
                    ),
            },
    {
        let mut best: Option<usize> = None;
        let mut i: usize = 0;
        while i < self.connections.len()
            invariant
                i <= self.connections@.len(),
                match best {
                    Some(j) => j < i && is_expired(now, self.connections@[j as int].last_active_time, self.timeout)
                        && forall|c: int|
                        0 <= c < i && is_expired(now, self.connections@[c].last_active_time, self.timeout)
                            ==> self.connections@[j as int].last_active_time
                            <= #[trigger] self.connections@[c].last_active_time,
                    None => forall|c: int|
                        0 <= c < i ==> !is_expired(now, #[trigger] self.connections@[c].last_active_time, self.timeout),
                },
            decreases self.connections@.len() - i,
        {
            let t = self.connections[i].last_active_time;
            if now >= t && now - t > self.timeout {
                match best {
                    Some(j) => {
                        if t < self.connections[j].last_active_time {
                            best = Some(i);
                        }
                    },
                    None => {
                        best = Some(i);
                    },
                }
            }
            i += 1;
        }
        best
    }

    /// One bounded eviction sweep at time `now`: unless sweeps are disabled or
    /// the last one was less than the interval ago, removes the stalest stale
    /// records, at most [`sweep_bound`] of them, and returns them oldest first
    /// so that their sockets can be closed.
    pub fn clear_inactive_at(&mut self, now: u64) -> (removed: Vec<TcpConnection>)
        requires
            old(self).wf(),
        ensures
            final(self).wf(),
            tcp_sweep_post(*old(self), *final(self), now, removed@),
    {
        let mut removed: Vec<TcpConnection> = Vec::new();
        if self.disable_conn_clear || now < self.last_clear_time || now - self.last_clear_time
            < CONN_CLEAR_INTERVAL_MS {
            return removed;
        }
        self.last_clear_time = now;
        let k = sweep_count(self.connections.len(), self.conn_clear_ratio, self.conn_clear_min);
        let ghost orig = self.connections@;
        let ghost timeout = self.timeout;
        let mut done = false;
        while !done && removed.len() < k
            invariant
                self.wf(),
                self.timeout == timeout,
                self.same_settings(*old(self)),
                self.last_clear_time == now,
                k == sweep_bound(orig.len(), old(self).ratio() as nat, old(self).floor() as nat),
                removed@.len() <= k,
                done ==> forall|c: int|
                    0 <= c < self.connections@.len() ==> !is_expired(
                        now,
                        #[trigger] self.connections@[c].last_active_time,
                        timeout,
                    ),
                forall|x: int|
                    0 <= x < removed@.len() ==> is_expired(now, (#[trigger] removed@[x]).last_active_time, timeout),
                forall|x: int| 0 <= x < removed@.len() ==> orig.contains(#[trigger] removed@[x]),
                tcp_oldest_first(removed@, self.connections@, now, timeout),
                self.connections@.len() + removed@.len() == orig.len(),
                forall|c: int| 0 <= c < self.connections@.len() ==> orig.contains(#[trigger] self.connections@[c]),
                forall|c: int|
                    0 <= c < orig.len() ==> self.connections@.contains(#[trigger] orig[c]) || removed@.contains(
                        orig[c],
                    ),
            decreases orig.len() - removed@.len() + (if done { 0int } else { 1int }),
        {
            match self.oldest_expired(now) {
                Some(j) => {
                    let ghost before = self.connections@;
                    let ghost removed_before = removed@;
                    proof {
                        assert(orig.contains(before[j as int]));
                    }
                    let c = self.remove_at(j);
                    removed.push(c);
                    proof {
                        let s = self.connections@;
                        assert forall|a: int| 0 <= a < s.len() implies before.contains(#[trigger] s[a]) by {
                            let ka = if a < j { a } else { a + 1 };
                            assert(s[a] == before[ka]);
                        }
                        assert forall|a: int| 0 <= a < before.len() && a != j implies s.contains(#[trigger] before[a]) by {
                            let ka = if a < j { a } else { a - 1 };
                            assert(s[ka] == before[a]);
                        }
                        assert forall|c2: int| 0 <= c2 < orig.len() implies s.contains(#[trigger] orig[c2]) || removed@.contains(orig[c2]) by {
                            if before.contains(orig[c2]) {
                                let a = choose|a: int| 0 <= a < before.len() && before[a] == orig[c2];
                                if a == j {
                                    assert(removed@[removed@.len() - 1] == orig[c2]);
                                } else {
                                    assert(s.contains(before[a]));
                                }
                            } else {
                                assert(removed_before.contains(orig[c2]));
                                let x = choose|x: int| 0 <= x < removed_before.len() && removed_before[x] == orig[c2];
                                assert(removed@[x] == orig[c2]);
                            }
                        }
                        assert forall|x: int| 0 <= x < removed@.len() implies is_expired(now, (#[trigger] removed@[x]).last_active_time, timeout)
                            && orig.contains(removed@[x]) by {
                            if x < removed_before.len() {
                                assert(removed@[x] == removed_before[x]);
                                assert(is_expired(now, removed_before[x].last_active_time, timeout)
                                    && orig.contains(removed_before[x]));
                                assert(orig.contains(removed@[x]));
                            } else {
                                assert(removed@[x] == before[j as int]);
                                assert(is_expired(now, before[j as int].last_active_time, timeout));
                                assert(orig.contains(removed@[x]));
                            }
                        }
                        assert forall|x: int, c2: int|
                            0 <= x < removed@.len() && 0 <= c2 < s.len() && is_expired(now, s[c2].last_active_time, timeout)
                                implies #[trigger] removed@[x].last_active_time <= #[trigger] s[c2].last_active_time by {
                            let kc = if c2 < j { c2 } else { c2 + 1 };
                            assert(s[c2] == before[kc]);
                            if x < removed_before.len() {
                                assert(removed@[x] == removed_before[x]);
                            }
                        }
                        assert forall|x: int, y: int| 0 <= x < y < removed@.len() implies #[trigger] removed@[x].last_active_time
                            <= #[trigger] removed@[y].last_active_time by {
                            if y == removed@.len() - 1 {
                                assert(removed@[y] == before[j as int]);
                                assert(removed@[x] == removed_before[x]);
                            } else {
                                assert(removed@[x] == removed_before[x]);
                                assert(removed@[y] == removed_before[y]);
                            }
                        }
                    }
                },
                None => {
                    done = true;
                },
            }
        }
        removed
    }

    /// One bounded eviction sweep at the current time.
    pub fn clear_inactive(&mut self) -> (removed: Vec<TcpConnection>)
        requires
            old(self).wf(),
        ensures
            final(self).wf(),
            final(self).same_settings(*old(self)),
            final(self).records().len() + removed@.len() == old(self).records().len(),
            exists|t: u64| #[trigger] tcp_sweep_post(*old(self), *final(self), t, removed@),
    {
        let now = get_current_time();
        self.clear_inactive_at(now)
    }

    /// The position and side of the record that uses handle `h`.
    pub fn locate(&self, h: &Fd64) -> (r: Option<(usize, Side)>)
        requires
            self.wf(),
        ensures
            match r {
                Some((i, s)) => i < self.records().len() && endpoint(self.records()[i as int], s).handle() == *h,
                None => !tcp_uses(self.records(), *h),
            },
    {
        match self.index_of_any(h) {
            Some(i) => {
                if self.connections[i].local.fd64().0 == h.0 {
                    Some((i, Side::Local))
                } else {
                    Some((i, Side::Remote))
                }
            },
            None => None,
        }
    }

    /// The local handle of the record at position `i`.
    pub fn local_handle_at(&self, i: usize) -> (r: Fd64)
        requires
            self.wf(),
            i < self.records().len(),
        ensures
            r == self.records()[i as int].local.handle(),
    {
        self.connections[i].local.fd64()
    }

    /// How many received bytes the side of handle `h` can take now (0 for an
    /// unknown handle).
    pub fn room_of(&self, h: &Fd64) -> (r: usize)
        requires
            self.wf(),
        ensures
            !tcp_uses(self.records(), *h) ==> r == 0,
            forall|i: int, s: Side|
                0 <= i < self.records().len() && #[trigger] endpoint(self.records()[i], s).handle() == *h ==> r
                    == room(endpoint(self.records()[i], s)),
    {
        match self.locate(h) {
            Some((i, side)) => {
                proof {
                    assert forall|j: int, t: Side|
                        0 <= j < self.records().len() && #[trigger] endpoint(self.records()[j], t).handle() == *h
                            implies j == i && t == side by {
                        self.lemma_locate_unique(*h, i as int, side, j, t);
                    }
                }
                let ep = match side {
                    Side::Local => &self.connections[i].local,
                    Side::Remote => &self.connections[i].remote,
                };
                if ep.pending_len() == 0 {
                    ep.buf_size()
                } else {
                    ep.available_space()
                }
            },
            None => 0,
        }
    }

    /// A handle names at most one record and side.
    pub proof fn lemma_locate_unique(&self, h: Fd64, i: int, s: Side, j: int, t: Side)
        requires
            self.wf(),
            0 <= i < self.records().len(),
            0 <= j < self.records().len(),
            endpoint(self.records()[i], s).handle() == h,
            endpoint(self.records()[j], t).handle() == h,
        ensures
            i == j && s == t,
    {
    }

    fn conn_mut(&mut self, i: usize) -> (r: &mut TcpConnection)
        requires
            i < old(self).connections@.len(),
        ensures
            *r == old(self).connections@[i as int],
            final(self).connections@ == old(self).connections@.update(i as int, *final(r)),
            final(self).lru == old(self).lru,
            final(self).last_clear_time == old(self).last_clear_time,
            final(self).timeout == old(self).timeout,
            final(self).conn_clear_ratio == old(self).conn_clear_ratio,
            final(self).conn_clear_min == old(self).conn_clear_min,
            final(self).disable_conn_clear == old(self).disable_conn_clear,
    {
        &mut self.connections[i]
    }

    proof fn lemma_replace_keeps_wf(&self, old_self: Self, i: int)
        requires
            old_self.wf(),
            0 <= i < old_self.connections@.len(),
            self.connections@ == old_self.connections@.update(i, self.connections@[i]),
            same_identity(self.connections@[i], old_self.connections@[i]),
            conn_wf(self.connections@[i]),
            self.lru == old_self.lru,
            self.conn_clear_ratio == old_self.conn_clear_ratio,
        ensures
            self.wf(),
    {
        let s = self.connections@;
        let o = old_self.connections@;
        assert forall|k: int| 0 <= k < s.len() implies #[trigger] self.lru.entries()[k] == (
            s[k].local.handle(),
            s[k].local.handle(),
            s[k].last_active_time,
        ) && s[k].local.wf() && s[k].remote.wf() && s[k].local.handle() != s[k].remote.handle() by {
            if k != i {
                assert(s[k] == o[k]);
            }
        }
        assert forall|a: int, b: int| 0 <= a < s.len() && 0 <= b < s.len() && a != b implies {
            &&& s[a].local.handle() != s[b].local.handle()
            &&& s[a].remote.handle() != s[b].remote.handle()
            &&& s[a].local.handle() != s[b].remote.handle()
        } by {
            assert(s[a].local.handle() == o[a].local.handle() && s[a].remote.handle() == o[a].remote.handle());
            assert(s[b].local.handle() == o[b].local.handle() && s[b].remote.handle() == o[b].remote.handle());
        }
    }

    /// Handle `h` became readable: the next step for its flow (nothing for an
    /// unknown handle).
    pub fn relay_readable(&self, h: &Fd64) -> (a: TcpAction)
        requires
            self.wf(),
        ensures
            !tcp_uses(self.records(), *h) ==> a is Idle,
            forall|i: int, s: Side|
                0 <= i < self.records().len() && #[trigger] endpoint(self.records()[i], s).handle() == *h
                    ==> readable_spec(self.records()[i], s, a),
    {
        match self.locate(h) {
            Some((i, s)) => {
                proof {
                    assert forall|j: int, t: Side|
                        0 <= j < self.records().len() && #[trigger] endpoint(self.records()[j], t).handle() == *h
                            implies j == i && t == s by {
                        self.lemma_locate_unique(*h, i as int, s, j, t);
                    }
                }
                self.connections[i].on_readable(s)
            },
            None => TcpAction::Idle,
        }
    }

    /// Handle `h` became writable: the next step for its flow (nothing for an
    /// unknown handle).
    pub fn relay_writable(&self, h: &Fd64) -> (a: TcpAction)
        requires
            self.wf(),
        ensures
            !tcp_uses(self.records(), *h) ==> a is Idle,
            forall|i: int, s: Side|
                0 <= i < self.records().len() && #[trigger] endpoint(self.records()[i], s).handle() == *h
                    ==> writable_spec(self.records()[i], s, a),
    {
        match self.locate(h) {
            Some((i, s)) => {
                proof {
                    assert forall|j: int, t: Side|
                        0 <= j < self.records().len() && #[trigger] endpoint(self.records()[j], t).handle() == *h
                            implies j == i && t == s by {
                        self.lemma_locate_unique(*h, i as int, s, j, t);
                    }
                }
                self.connections[i].on_writable(s)
            },
            None => TcpAction::Idle,
        }
    }

    /// The outbound connect of the flow using handle `h` reported `so_error`.
    pub fn relay_connect_result(&mut self, h: &Fd64, so_error: i32) -> (a: TcpAction)
        requires
            old(self).wf(),
        ensures
            final(self).wf(),
            final(self).same_settings(*old(self)),
            final(self).last_sweep() == old(self).last_sweep(),
            !tcp_uses(old(self).records(), *h) ==> a is Idle && final(self).records() == old(self).records(),
            forall|i: int, s: Side|
                0 <= i < old(self).records().len() && #[trigger] endpoint(old(self).records()[i], s).handle()
                    == *h ==> final(self).records() == old(self).records().update(i, final(self).records()[i])
                    && connect_spec(old(self).records()[i], final(self).records()[i], so_error, a),
    {
        match self.locate(h) {
            Some((i, s)) => {
                let ghost old_self = *self;
                proof {
                    assert forall|j: int, t: Side|
                        0 <= j < self.records().len() && #[trigger] endpoint(self.records()[j], t).handle() == *h
                            implies j == i && t == s by {
                        self.lemma_locate_unique(*h, i as int, s, j, t);
                    }
                }
                let c = self.conn_mut(i);
                let a = c.on_connect_result(so_error);
                proof {
                    self.lemma_replace_keeps_wf(old_self, i as int);
                }
                a
            },
            None => TcpAction::Idle,
        }
    }

    /// A `recv` on handle `h` gave `out`.
    pub fn relay_received(&mut self, h: &Fd64, out: RecvOutcome) -> (a: TcpAction)
        requires
            old(self).wf(),
            forall|i: int, s: Side|
                0 <= i < old(self).records().len() && #[trigger] endpoint(old(self).records()[i], s).handle()
                    == *h ==> recv_fits(old(self).records()[i], s, out),
        ensures
            final(self).wf(),
            final(self).same_settings(*old(self)),
            final(self).last_sweep() == old(self).last_sweep(),
            !tcp_uses(old(self).records(), *h) ==> a is Idle && final(self).records() == old(self).records(),
            forall|i: int, s: Side|
                0 <= i < old(self).records().len() && #[trigger] endpoint(old(self).records()[i], s).handle()
                    == *h ==> final(self).records() == old(self).records().update(i, final(self).records()[i])
                    && received_spec(old(self).records()[i], final(self).records()[i], s, out, a),
    {
        match self.locate(h) {
            Some((i, s)) => {
                let ghost old_self = *self;
                proof {
                    assert forall|j: int, t: Side|
                        0 <= j < self.records().len() && #[trigger] endpoint(self.records()[j], t).handle() == *h
                            implies j == i && t == s by {
                        self.lemma_locate_unique(*h, i as int, s, j, t);
                    }
                }
                let c = self.conn_mut(i);
                let a = c.on_received(s, out);
                proof {
                    self.lemma_replace_keeps_wf(old_self, i as int);
                }
                a
            },
            None => TcpAction::Idle,
        }
    }

    /// A `send` of the bytes pending on handle `h` gave `out`; `flushing`
    /// tells a flush on writability from a read pass.
    pub fn relay_sent(&mut self, h: &Fd64, out: SendOutcome, flushing: bool) -> (a: TcpAction)
        requires
            old(self).wf(),
        ensures
            final(self).wf(),
            final(self).same_settings(*old(self)),
            final(self).last_sweep() == old(self).last_sweep(),
            !tcp_uses(old(self).records(), *h) ==> a is Idle && final(self).records() == old(self).records(),
            forall|i: int, s: Side|
                0 <= i < old(self).records().len() && #[trigger] endpoint(old(self).records()[i], s).handle()
                    == *h ==> final(self).records() == old(self).records().update(i, final(self).records()[i])
                    && sent_spec(old(self).records()[i], final(self).records()[i], s, out, flushing, a),
    {
        match self.locate(h) {
            Some((i, s)) => {
                let ghost old_self = *self;
                proof {
                    assert forall|j: int, t: Side|
                        0 <= j < self.records().len() && #[trigger] endpoint(self.records()[j], t).handle() == *h
                            implies j == i && t == s by {
                        self.lemma_locate_unique(*h, i as int, s, j, t);
                    }
                }
                let c = self.conn_mut(i);
                let a = c.on_sent(s, out, flushing);
                proof {
                    self.lemma_replace_keeps_wf(old_self, i as int);
                }
                a
            },
            None => TcpAction::Idle,
        }
    }
}

/// Sessions have pairwise distinct client addresses and remote handles.
pub open spec fn udp_keys_distinct(s: Seq<UdpSession>) -> bool {
    forall|i: int, j: int|
        0 <= i < s.len() && 0 <= j < s.len() && i != j ==> s[i].address != s[j].address && s[i].fd64
            != s[j].fd64
}

/// Whether some session belongs to client `a`.
pub open spec fn udp_has_addr(s: Seq<UdpSession>, a: Address) -> bool {
    exists|i: int| 0 <= i < s.len() && (#[trigger] s[i]).address == a
}

/// Whether some session's outbound socket has handle `h`.
pub open spec fn udp_has_remote(s: Seq<UdpSession>, h: Fd64) -> bool {
    exists|i: int| 0 <= i < s.len() && (#[trigger] s[i]).fd64 == h
}

/// Removed sessions are the stalest, oldest first.
pub open spec fn udp_oldest_first(removed: Seq<UdpSession>, kept: Seq<UdpSession>, now: u64, timeout: u64) -> bool {
    &&& forall|x: int, c: int|
        0 <= x < removed.len() && 0 <= c < kept.len() && is_expired(now, kept[c].last_active_time, timeout)
            ==> #[trigger] removed[x].last_active_time <= #[trigger] kept[c].last_active_time
    &&& forall|x: int, y: int|
        0 <= x < y < removed.len() ==> #[trigger] removed[x].last_active_time <= #[trigger] removed[y].last_active_time
}

/// What one eviction sweep at `now` does to the table `o`, giving `f`
/// and the removed records `removed`.
pub open spec fn udp_sweep_post(o: UdpSessionManager, f: UdpSessionManager, now: u64, removed: Seq<UdpSession>) -> bool {
    &&& f.same_settings(o)
    &&& o.sweeps_disabled() || sweep_too_soon(o.last_sweep(), now) ==> {
        &&& removed.len() == 0
        &&& f.records() == o.records()
        &&& f.last_sweep() == o.last_sweep()
    }
    &&& !(o.sweeps_disabled() || sweep_too_soon(o.last_sweep(), now)) ==> {
        &&& f.last_sweep() == now
        &&& removed.len() <= sweep_bound(
            o.records().len(),
            o.ratio() as nat,
            o.floor() as nat,
        )
        &&& removed.len() < sweep_bound(
            o.records().len(),
            o.ratio() as nat,
            o.floor() as nat,
        ) ==> forall|c: int|
            0 <= c < f.records().len() ==> !is_expired(
                now,
                #[trigger] f.records()[c].last_active_time,
                o.timeout_ms(),
            )
    }
    &&& forall|x: int|
        0 <= x < removed.len() ==> is_expired(
            now,
            (#[trigger] removed[x]).last_active_time,
            o.timeout_ms(),
        )
    &&& forall|x: int| 0 <= x < removed.len() ==> o.records().contains(#[trigger] removed[x])
    &&& udp_oldest_first(removed, f.records(), now, o.timeout_ms())
    &&& f.records().len() + removed.len() == o.records().len()
    &&& forall|c: int|
        0 <= c < f.records().len() ==> o.records().contains(
            #[trigger] f.records()[c],
        )
    &&& forall|c: int|
        0 <= c < o.records().len() ==> f.records().contains(
            #[trigger] o.records()[c],
        ) || removed.contains(o.records()[c])
}

/// The UDP session table: at most one session per client address, a
/// secondary index from the remote handle to the client address, and an LRU
/// index keyed by client address.
pub struct UdpSessionManager {
    sessions: Vec<UdpSession>,
    fd64_to_addr: HashMap<u64, Address>,
    lru: LruCollector<Address, Address>,
    last_clear_time: u64,
    timeout: u64,
    conn_clear_ratio: u32,
    conn_clear_min: u32,
    disable_conn_clear: bool,
}

impl UdpSessionManager {
    /// The sessions, in creation order.
    pub closed spec fn records(&self) -> Seq<UdpSession> {
        self.sessions@
    }

    /// The secondary index: remote handle to client address.
    pub closed spec fn by_remote(&self) -> Map<u64, Address> {
        self.fd64_to_addr@
    }

    pub closed spec fn timeout_ms(&self) -> u64 {
        self.timeout
    }

    pub closed spec fn ratio(&self) -> u32 {
        self.conn_clear_ratio
    }

    pub closed spec fn floor(&self) -> u32 {
        self.conn_clear_min
    }

    pub closed spec fn sweeps_disabled(&self) -> bool {
        self.disable_conn_clear
    }

    pub closed spec fn last_sweep(&self) -> u64 {
        self.last_clear_time
    }

    /// Timeouts and sweep settings are unchanged.
    pub open spec fn same_settings(&self, other: Self) -> bool {
        &&& self.timeout_ms() == other.timeout_ms()
        &&& self.ratio() == other.ratio()
        &&& self.floor() == other.floor()
        &&& self.sweeps_disabled() == other.sweeps_disabled()
    }

    pub closed spec fn wf(&self) -> bool {
        &&& self.lru.wf()
        &&& self.lru.entries().len() == self.sessions@.len()
        &&& forall|i: int|
            0 <= i < self.sessions@.len() ==> #[trigger] self.lru.entries()[i] == (
                self.sessions@[i].address,
                self.sessions@[i].address,
                self.sessions@[i].last_active_time,
            )
        &&& udp_keys_distinct(self.sessions@)
        &&& forall|i: int|
            0 <= i < self.sessions@.len() ==> self.fd64_to_addr@.contains_key(
                (#[trigger] self.sessions@[i]).fd64.0,
            ) && self.fd64_to_addr@[self.sessions@[i].fd64.0] == self.sessions@[i].address
        &&& forall|h: u64|
            #[trigger] self.fd64_to_addr@.contains_key(h) ==> exists|i: int|
                0 <= i < self.sessions@.len() && (#[trigger] self.sessions@[i]).fd64.0 == h
        &&& self.conn_clear_ratio > 0
    }

    /// The secondary index maps a session's remote handle to its client address.
    pub proof fn lemma_index_of_live_session(&self, i: int)
        requires
            self.wf(),
            0 <= i < self.records().len(),
        ensures
            self.by_remote().contains_key(self.records()[i].fd64.0),
            self.by_remote()[self.records()[i].fd64.0] == self.records()[i].address,
    {
    }

    /// Every entry of the secondary index belongs to a live session.
    pub proof fn lemma_index_only_live(&self, h: u64)
        requires
            self.wf(),
            self.by_remote().contains_key(h),
        ensures
            exists|i: int|
                0 <= i < self.records().len() && (#[trigger] self.records()[i]).fd64.0 == h
                    && self.records()[i].address == self.by_remote()[h],
    {
        let i = choose|i: int| 0 <= i < self.sessions@.len() && (#[trigger] self.sessions@[i]).fd64.0 == h;
        assert(self.records()[i].fd64.0 == h && self.records()[i].address == self.by_remote()[h]);
    }

    pub fn new(timeout: u64, conn_clear_ratio: u32, conn_clear_min: u32, disable_conn_clear: bool) -> (r: Self)
        requires
            conn_clear_ratio > 0,
        ensures
            r.wf(),
            r.records() == Seq::<UdpSession>::empty(),
            r.timeout_ms() == timeout,
            r.ratio() == conn_clear_ratio,
            r.floor() == conn_clear_min,
            r.sweeps_disabled() == disable_conn_clear,
            r.last_sweep() == 0,
    {
        proof {
            reveal(obeys_concrete_eq);
        }
        let r = UdpSessionManager {
            sessions: Vec::new(),
            fd64_to_addr: HashMap::new(),
            lru: LruCollector::new(),
            last_clear_time: 0,
            timeout,
            conn_clear_ratio,
            conn_clear_min,
            disable_conn_clear,
        };
        proof {
            assert(r.fd64_to_addr@ == Map::<u64, Address>::empty());
        }
        r
    }

    /// Adds the session of a client that has none, over an outbound socket whose
    /// handle no session uses.
    pub fn new_session(
        &mut self,
        address: Address,
        fd64: Fd64,
        local_listen_fd: Fd64,
        addr_s: String,
        create_time: u64,
    )
        requires
            old(self).wf(),
            !udp_has_addr(old(self).records(), address),
            !udp_has_remote(old(self).records(), fd64),
        ensures
            final(self).wf(),
            final(self).same_settings(*old(self)),
            final(self).last_sweep() == old(self).last_sweep(),
            final(self).records().len() == old(self).records().len() + 1,
            final(self).records().take(old(self).records().len() as int) == old(self).records(),
            ({
                let s = final(self).records().last();
                &&& s.address == address
                &&& s.fd64 == fd64
                &&& s.local_listen_fd == local_listen_fd
                &&& s.addr_s@ == addr_s@
                &&& s.create_time == create_time
                &&& s.last_active_time == create_time
            }),
            final(self).by_remote() == old(self).by_remote().insert(fd64.0, address),
    {
        proof {
            if crate::lru::has_key(self.lru.entries(), address) {
                let i = choose|i: int| 0 <= i < self.lru.entries().len() && #[trigger] self.lru.entries()[i].0 == address;
                assert(self.sessions@[i].address == address);
            }
            if self.fd64_to_addr@.contains_key(fd64.0) {
                let i = choose|i: int| 0 <= i < self.sessions@.len() && (#[trigger] self.sessions@[i]).fd64.0 == fd64.0;
                assert(self.sessions@[i].fd64 == fd64);
            }
        }
        let s = UdpSession::new(address, fd64, local_listen_fd, addr_s, create_time);
        self.lru.new_key(address, address, create_time);
        self.fd64_to_addr.insert(fd64.0, address);
        self.sessions.push(s);
        proof {
            let v = self.sessions@;
            let n = v.len() - 1;
            assert(v.take(n) =~= old(self).records());
            assert forall|i: int| 0 <= i < v.len() implies #[trigger] self.lru.entries()[i] == (
                v[i].address,
                v[i].address,
                v[i].last_active_time,
            ) && self.fd64_to_addr@.contains_key(v[i].fd64.0) && self.fd64_to_addr@[v[i].fd64.0] == v[i].address by {
                if i < n {
                    assert(v[i] == old(self).sessions@[i]);
                    assert(v[i].fd64 != fd64);
                }
            }
            assert forall|h: u64| #[trigger] self.fd64_to_addr@.contains_key(h) implies exists|i: int|
                0 <= i < v.len() && (#[trigger] v[i]).fd64.0 == h by {
                if h == fd64.0 {
                    assert(v[n].fd64.0 == h);
                } else {
                    let i = choose|i: int| 0 <= i < old(self).sessions@.len() && (#[trigger] old(self).sessions@[i]).fd64.0 == h;
                    assert(v[i] == old(self).sessions@[i]);
                }
            }
            assert forall|i: int, j: int| 0 <= i < v.len() && 0 <= j < v.len() && i != j implies v[i].address
                != v[j].address && v[i].fd64 != v[j].fd64 by {
                if i == n {
                    assert(v[j] == old(self).sessions@[j]);
                } else if j == n {
                    assert(v[i] == old(self).sessions@[i]);
                }
            }
        }
    }

    /// The position of the session of client `address`.
    pub fn index_of(&self, address: &Address) -> (r: Option<usize>)
        requires
            self.wf(),
        ensures
            match r {
                Some(i) => i < self.records().len() && self.records()[i as int].address == *address,
                None => !udp_has_addr(self.records(), *address),
            },
    {
        let mut i: usize = 0;
        while i < self.sessions.len()
            invariant
                i <= self.sessions@.len(),
                forall|j: int| 0 <= j < i ==> (#[trigger] self.sessions@[j]).address != *address,
            decreases self.sessions@.len() - i,
        {
            if self.sessions[i].address == *address {
                return Some(i);
            }
            i += 1;
        }
        None
    }

    /// The client address of the session at position `i`.
    pub fn address_at(&self, i: usize) -> (r: Address)
        requires
            i < self.records().len(),
        ensures
            r == self.records()[i as int].address,
    {
        self.sessions[i].address
    }

    /// The session of client `address`.
    pub fn get_session(&self, address: &Address) -> (r: Option<&UdpSession>)
        requires
            self.wf(),
        ensures
            r.is_some() == udp_has_addr(self.records(), *address),
            r matches Some(s) ==> exists|i: int|
                0 <= i < self.records().len() && (#[trigger] self.records()[i]).address == *address && *s
                    == self.records()[i],
    {
        match self.index_of(address) {
            Some(i) => Some(&self.sessions[i]),
            None => None,
        }
    }

    /// The session whose outbound socket has handle `fd64`, found through the
    /// secondary index.
    pub fn get_session_by_fd64(&self, fd64: &Fd64) -> (r: Option<&UdpSession>)
        requires
            self.wf(),
        ensures
            r.is_some() == udp_has_remote(self.records(), *fd64),
            r matches Some(s) ==> exists|i: int|
                0 <= i < self.records().len() && (#[trigger] self.records()[i]).fd64 == *fd64 && *s
                    == self.records()[i],
    {
        match self.fd64_to_addr.get(&fd64.0) {
            Some(a) => {
                let r = self.get_session(a);
                proof {
                    let i = choose|i: int| 0 <= i < self.sessions@.len() && (#[trigger] self.sessions@[i]).fd64.0 == fd64.0;
                    assert(self.sessions@[i].fd64 == *fd64);
                    assert(self.sessions@[i].address == *a);
                    if let Some(s) = r {
                        let k = choose|k: int| 0 <= k < self.records().len() && (#[trigger] self.records()[k]).address == *a && *s
                            == self.records()[k];
                        assert(k == i);
                    }
                }
                r
            },
            None => {
                proof {
                    if udp_has_remote(self.records(), *fd64) {
                        let i = choose|i: int| 0 <= i < self.sessions@.len() && (#[trigger] self.sessions@[i]).fd64 == *fd64;
                        assert(self.fd64_to_addr@.contains_key(self.sessions@[i].fd64.0));
                    }
                }
                None
            },
        }
    }

    proof fn lemma_remove_keeps_wf(&self, old_self: Self, j: int)
        requires
            old_self.wf(),
            0 <= j < old_self.sessions@.len(),
            self.sessions@ == old_self.sessions@.remove(j),
            self.lru.entries() == old_self.lru.entries().remove(j),
            self.fd64_to_addr@ == old_self.fd64_to_addr@.remove(old_self.sessions@[j].fd64.0),
            self.lru.wf(),
            self.conn_clear_ratio == old_self.conn_clear_ratio,
        ensures
            self.wf(),
    {
        let s = self.sessions@;
        let o = old_self.sessions@;
        assert forall|i: int| 0 <= i < s.len() implies #[trigger] self.lru.entries()[i] == (
            s[i].address,
            s[i].address,
            s[i].last_active_time,
        ) && self.fd64_to_addr@.contains_key(s[i].fd64.0) && self.fd64_to_addr@[s[i].fd64.0] == s[i].address by {
            let k = if i < j { i } else { i + 1 };
            assert(s[i] == o[k]);
            assert(old_self.lru.entries()[k] == (o[k].address, o[k].address, o[k].last_active_time));
            assert(o[k].fd64 != o[j].fd64);
        }
        assert forall|a: int, b: int| 0 <= a < s.len() && 0 <= b < s.len() && a != b implies s[a].address
            != s[b].address && s[a].fd64 != s[b].fd64 by {
            let ka = if a < j { a } else { a + 1 };
            let kb = if b < j { b } else { b + 1 };
            assert(s[a] == o[ka]);
            assert(s[b] == o[kb]);
        }
        assert forall|h: u64| #[trigger] self.fd64_to_addr@.contains_key(h) implies exists|i: int|
            0 <= i < s.len() && (#[trigger] s[i]).fd64.0 == h by {
            let k = choose|k: int| 0 <= k < o.len() && (#[trigger] o[k]).fd64.0 == h;
            assert(k != j);
            let i = if k < j { k } else { k - 1 };
            assert(s[i] == o[k]);
        }
    }

    fn remove_at(&mut self, j: usize) -> (c: UdpSession)
        requires
            old(self).wf(),
            j < old(self).records().len(),
        ensures
            final(self).wf(),
            c == old(self).records()[j as int],
            final(self).records() == old(self).records().remove(j as int),
            final(self).by_remote() == old(self).by_remote().remove(c.fd64.0),
            final(self).same_settings(*old(self)),
            final(self).last_sweep() == old(self).last_sweep(),
    {
        let key = self.sessions[j].address;
        let h = self.sessions[j].fd64.0;
        let ghost old_self = *self;
        proof {
            assert(self.lru.entries()[j as int].0 == key);
            assert forall|i: int| 0 <= i < self.lru.entries().len() && #[trigger] self.lru.entries()[i].0 == key implies i == j by {
                assert(self.sessions@[i].address == key);
            }
        }
        self.lru.erase(&key);
        self.fd64_to_addr.remove(&h);
        let c = self.sessions.remove(j);
        proof {
            self.lemma_remove_keeps_wf(old_self, j as int);
        }
        c
    }

    /// Removes the session of client `address`; returns it, if there was one.
    pub fn erase(&mut self, address: &Address) -> (r: Option<UdpSession>)
        requires
            old(self).wf(),
        ensures
            final(self).wf(),
            final(self).same_settings(*old(self)),
            final(self).last_sweep() == old(self).last_sweep(),
            match r {
                Some(c) => exists|j: int|
                    0 <= j < old(self).records().len() && (#[trigger] old(self).records()[j]).address
                        == *address && c == old(self).records()[j] && final(self).records() == old(
                        self,
                    ).records().remove(j) && final(self).by_remote() == old(self).by_remote().remove(c.fd64.0),
                None => final(self).records() == old(self).records() && !udp_has_addr(old(self).records(), *address),
            },
            !udp_has_addr(final(self).records(), *address),
    {
        match self.index_of(address) {
            Some(j) => {
                let ghost o = self.sessions@;
                let c = self.remove_at(j);
                proof {
                    assert forall|i: int| 0 <= i < self.sessions@.len() implies (#[trigger] self.sessions@[i]).address
                        != *address by {
                        let k = if i < j { i } else { i + 1 };
                        assert(self.sessions@[i] == o[k]);
                    }
                }
                Some(c)
            },
            None => None,
        }
    }

    /// Client addresses and remote handles of the sessions are pairwise distinct.
    pub proof fn lemma_keys_distinct(&self)
        requires
            self.wf(),
        ensures
            udp_keys_distinct(self.records()),
    {
    }

    /// As [`Self::new_session`], and sets the UDP session gauge of `stats`
    /// to the table size.
    pub fn new_session_counted(
        &mut self,
        stats: &mut TrafficStats,
        address: Address,
        fd64: Fd64,
        local_listen_fd: Fd64,
        addr_s: String,
        create_time: u64,
    )
        requires
            old(self).wf(),
            !udp_has_addr(old(self).records(), address),
            !udp_has_remote(old(self).records(), fd64),
        ensures
            final(self).wf(),
            final(self).same_settings(*old(self)),
            final(self).last_sweep() == old(self).last_sweep(),
            final(self).records().len() == old(self).records().len() + 1,
            final(self).records().take(old(self).records().len() as int) == old(self).records(),
            ({
                let s = final(self).records().last();
                &&& s.address == address
                &&& s.fd64 == fd64
                &&& s.local_listen_fd == local_listen_fd
                &&& s.addr_s@ == addr_s@
                &&& s.create_time == create_time
                &&& s.last_active_time == create_time
            }),
            final(self).by_remote() == old(self).by_remote().insert(fd64.0, address),
            *final(stats) == (TrafficStats { udp_sessions: final(self).records().len() as u64, ..*old(stats) }),
    {
        self.new_session(address, fd64, local_listen_fd, addr_s, create_time);
        stats.udp_sessions = self.sessions.len() as u64;
    }

    /// As [`Self::erase`], and sets the UDP session gauge of `stats`
    /// to the table size.
    pub fn erase_counted(&mut self, stats: &mut TrafficStats, address: &Address) -> (r: Option<UdpSession>)
        requires
            old(self).wf(),
        ensures
            final(self).wf(),
            final(self).same_settings(*old(self)),
            final(self).last_sweep() == old(self).last_sweep(),
            match r {
                Some(c) => exists|j: int|
                    0 <= j < old(self).records().len() && (#[trigger] old(self).records()[j]).address
                        == *address && c == old(self).records()[j] && final(self).records() == old(
                        self,
                    ).records().remove(j) && final(self).by_remote() == old(self).by_remote().remove(c.fd64.0),
                None => final(self).records() == old(self).records() && !udp_has_addr(old(self).records(), *address),
            },
            !udp_has_addr(final(self).records(), *address),
            *final(stats) == (TrafficStats { udp_sessions: final(self).records().len() as u64, ..*old(stats) }),
    {
        let r = self.erase(address);
        stats.udp_sessions = self.sessions.len() as u64;
        r
    }

    /// As [`Self::clear_inactive_at`], and sets the UDP session gauge of `stats`
    /// to the table size.
    pub fn clear_inactive_at_counted(&mut self, stats: &mut TrafficStats, now: u64) -> (removed: Vec<UdpSession>)
        requires
            old(self).wf(),
        ensures
            final(self).wf(),
            udp_sweep_post(*old(self), *final(self), now, removed@),
            *final(stats) == (TrafficStats { udp_sessions: final(self).records().len() as u64, ..*old(stats) }),
    {
        let removed = self.clear_inactive_at(now);
        stats.udp_sessions = self.sessions.len() as u64;
        removed
    }

    pub fn len(&self) -> (r: usize)
        ensures
            r == self.records().len(),
    {
        self.sessions.len()
    }

    pub fn is_empty(&self) -> (r: bool)
        ensures
            r == (self.records().len() == 0),
    {
        self.sessions.len() == 0
    }

    /// Records activity at `now` on the session of client `address`; returns
    /// whether there was one.
    pub fn update_lru_at(&mut self, address: &Address, now: u64) -> (r: bool)
        requires
            old(self).wf(),
        ensures
            final(self).wf(),
            final(self).same_settings(*old(self)),
            final(self).last_sweep() == old(self).last_sweep(),
            final(self).by_remote() == old(self).by_remote(),
            final(self).records().len() == old(self).records().len(),
            r == udp_has_addr(old(self).records(), *address),
            forall|j: int|
                0 <= j < old(self).records().len() ==> {
                    let c = #[trigger] final(self).records()[j];
                    let o = old(self).records()[j];
                    &&& c.address == o.address
                    &&& c.fd64 == o.fd64
                    &&& c.local_listen_fd == o.local_listen_fd
                    &&& c.addr_s == o.addr_s
                    &&& c.create_time == o.create_time
                    &&& c.last_active_time == (if o.address == *address { now } else { o.last_active_time })
                },
            forall|j: int|
                0 <= j < old(self).records().len() && (#[trigger] old(self).records()[j]).address == *address
                    ==> final(self).records() == old(self).records().update(
                    j,
                    UdpSession { last_active_time: now, ..old(self).records()[j] },
                ),
            !r ==> final(self).records() == old(self).records(),
    {
        match self.index_of(address) {
            Some(j) => {
                let ghost old_self = *self;
                proof {
                    assert forall|i: int| 0 <= i < self.lru.entries().len() && #[trigger] self.lru.entries()[i].0 == *address implies i == j by {
                        assert(self.sessions@[i].address == *address);
                    }
                    assert(self.lru.entries()[j as int].0 == *address);
                }
                self.lru.update(address, now);
                self.sessions[j].last_active_time = now;
                proof {
                    let s = self.sessions@;
                    assert(s == old_self.sessions@.update(j as int, s[j as int]));
                    assert forall|i: int| 0 <= i < s.len() implies #[trigger] self.lru.entries()[i] == (
                        s[i].address,
                        s[i].address,
                        s[i].last_active_time,
                    ) && self.fd64_to_addr@.contains_key(s[i].fd64.0) && self.fd64_to_addr@[s[i].fd64.0] == s[i].address by {
                        if i != j {
                            assert(s[i] == old_self.sessions@[i]);
                        }
                    }
                    assert forall|a: int, b: int| 0 <= a < s.len() && 0 <= b < s.len() && a != b implies s[a].address
                        != s[b].address && s[a].fd64 != s[b].fd64 by {
                        assert(s[a].address == old_self.sessions@[a].address);
                        assert(s[b].address == old_self.sessions@[b].address);
                        assert(s[a].fd64 == old_self.sessions@[a].fd64);
                        assert(s[b].fd64 == old_self.sessions@[b].fd64);
                    }
                    assert forall|h: u64| #[trigger] self.fd64_to_addr@.contains_key(h) implies exists|i: int|
                        0 <= i < s.len() && (#[trigger] s[i]).fd64.0 == h by {
                        let k = choose|k: int| 0 <= k < old_self.sessions@.len() && (#[trigger] old_self.sessions@[k]).fd64.0 == h;
                        assert(s[k].fd64 == old_self.sessions@[k].fd64);
                    }
                    assert forall|j2: int| 0 <= j2 < old(self).records().len() && old(self).records()[j2].address == *address implies j2 == j by {
                        if j2 != j {
                            assert(old_self.sessions@[j2].address != old_self.sessions@[j as int].address);
                        }
                    }
                }
                true
            },
            None => false,
        }
    }

    /// Records activity now on the session of client `address`.
    pub fn update_lru(&mut self, address: &Address) -> (r: bool)
        requires
            old(self).wf(),
        ensures
            final(self).wf(),
            final(self).same_settings(*old(self)),
            final(self).records().len() == old(self).records().len(),
            r == udp_has_addr(old(self).records(), *address),
            !r ==> final(self).records() == old(self).records(),
            exists|t: u64| #[trigger] udp_touched(old(self).records(), final(self).records(), *address, t),
    {
        let now = get_current_time();
        let r = self.update_lru_at(address, now);
        proof {
            assert(udp_touched(old(self).records(), self.records(), *address, now));
        }
        r
    }

    fn oldest_expired(&self, now: u64) -> (r: Option<usize>)
        requires
            self.wf(),
        ensures
            match r {
                Some(j) => j < self.records().len() && is_expired(
                    now,
                    self.records()[j as int].last_active_time,
                    self.timeout_ms(),
                ) && forall|c: int|
                    0 <= c < self.records().len() && is_expired(
                        now,
                        self.records()[c].last_active_time,
                        self.timeout_ms(),
                    ) ==> self.records()[j as int].last_active_time <= #[trigger] self.records()[c].last_active_time,
                None => forall|c: int|
                    0 <= c < self.records().len() ==> !is_expired(
                        now,
                        #[trigger] self.records()[c].last_active_time,
                        self.timeout_ms(),
                    ),
            },
    {
        let mut best: Option<usize> = None;
        let mut i: usize = 0;
        while i < self.sessions.len()
            invariant
                i <= self.sessions@.len(),
                match best {
                    Some(j) => j < i && is_expired(now, self.sessions@[j as int].last_active_time, self.timeout)
                        && forall|c: int|
                        0 <= c < i && is_expired(now, self.sessions@[c].last_active_time, self.timeout)
                            ==> self.sessions@[j as int].last_active_time
                            <= #[trigger] self.sessions@[c].last_active_time,
                    None => forall|c: int|
                        0 <= c < i ==> !is_expired(now, #[trigger] self.sessions@[c].last_active_time, self.timeout),
                },
            decreases self.sessions@.len() - i,
        {
            let t = self.sessions[i].last_active_time;
            if now >= t && now - t > self.timeout {
                match best {
                    Some(j) => {
                        if t < self.sessions[j].last_active_time {
                            best = Some(i);
                        }
                    },
                    None => {
                        best = Some(i);
                    },
                }
            }
            i += 1;
        }
        best
    }

    /// One bounded eviction sweep at time `now`, as for the TCP table; returns
    /// the removed sessions oldest first.
    pub fn clear_inactive_at(&mut self, now: u64) -> (removed: Vec<UdpSession>)
        requires
            old(self).wf(),
        ensures
            final(self).wf(),
            udp_sweep_post(*old(self), *final(self), now, removed@),
    {
        let mut removed: Vec<UdpSession> = Vec::new();
        if self.disable_conn_clear || now < self.last_clear_time || now - self.last_clear_time
            < CONN_CLEAR_INTERVAL_MS {
            return removed;
        }
        self.last_clear_time = now;
        let k = sweep_count(self.sessions.len(), self.conn_clear_ratio, self.conn_clear_min);
        let ghost orig = self.sessions@;
        let ghost timeout = self.timeout;
        let mut done = false;
        while !done && removed.len() < k
            invariant
                self.wf(),
                self.timeout == timeout,
                self.same_settings(*old(self)),
                self.last_clear_time == now,
                k == sweep_bound(orig.len(), old(self).ratio() as nat, old(self).floor() as nat),
                removed@.len() <= k,
                done ==> forall|c: int|
                    0 <= c < self.sessions@.len() ==> !is_expired(
                        now,
                        #[trigger] self.sessions@[c].last_active_time,
                        timeout,
                    ),
                forall|x: int|
                    0 <= x < removed@.len() ==> is_expired(now, (#[trigger] removed@[x]).last_active_time, timeout),
                forall|x: int| 0 <= x < removed@.len() ==> orig.contains(#[trigger] removed@[x]),
                udp_oldest_first(removed@, self.sessions@, now, timeout),
                self.sessions@.len() + removed@.len() == orig.len(),
                forall|c: int| 0 <= c < self.sessions@.len() ==> orig.contains(#[trigger] self.sessions@[c]),
                forall|c: int|
                    0 <= c < orig.len() ==> self.sessions@.contains(#[trigger] orig[c]) || removed@.contains(
                        orig[c],
                    ),
            decreases orig.len() - removed@.len() + (if done { 0int } else { 1int }),
        {
            match self.oldest_expired(now) {
                Some(j) => {
                    let ghost before = self.sessions@;
                    let ghost removed_before = removed@;
                    proof {
                        assert(orig.contains(before[j as int]));
                    }
                    let c = self.remove_at(j);
                    removed.push(c);
                    proof {
                        let s = self.sessions@;
                        assert forall|a: int| 0 <= a < s.len() implies before.contains(#[trigger] s[a]) by {
                            let ka = if a < j { a } else { a + 1 };
                            assert(s[a] == before[ka]);
                        }
                        assert forall|a: int| 0 <= a < before.len() && a != j implies s.contains(#[trigger] before[a]) by {
                            let ka = if a < j { a } else { a - 1 };
                            assert(s[ka] == before[a]);
                        }
                        assert forall|c2: int| 0 <= c2 < orig.len() implies s.contains(#[trigger] orig[c2]) || removed@.contains(orig[c2]) by {
                            if before.contains(orig[c2]) {
                                let a = choose|a: int| 0 <= a < before.len() && before[a] == orig[c2];
                                if a == j {
                                    assert(removed@[removed@.len() - 1] == orig[c2]);
                                } else {
                                    assert(s.contains(before[a]));
                                }
                            } else {
                                assert(removed_before.contains(orig[c2]));
                                let x = choose|x: int| 0 <= x < removed_before.len() && removed_before[x] == orig[c2];
                                assert(removed@[x] == orig[c2]);
                            }
                        }
                        assert forall|x: int| 0 <= x < removed@.len() implies is_expired(now, (#[trigger] removed@[x]).last_active_time, timeout)
                            && orig.contains(removed@[x]) by {
                            if x < removed_before.len() {
                                assert(removed@[x] == removed_before[x]);
                            } else {
                                assert(removed@[x] == before[j as int]);
                                assert(is_expired(now, before[j as int].last_active_time, timeout));
                            }
                        }
                        assert forall|x: int, c2: int|
                            0 <= x < removed@.len() && 0 <= c2 < s.len() && is_expired(now, s[c2].last_active_time, timeout)
                                implies #[trigger] removed@[x].last_active_time <= #[trigger] s[c2].last_active_time by {
                            let kc = if c2 < j { c2 } else { c2 + 1 };
                            assert(s[c2] == before[kc]);
                            if x < removed_before.len() {
                                assert(removed@[x] == removed_before[x]);
                            }
                        }
                        assert forall|x: int, y: int| 0 <= x < y < removed@.len() implies #[trigger] removed@[x].last_active_time
                            <= #[trigger] removed@[y].last_active_time by {
                            if y == removed@.len() - 1 {
                                assert(removed@[y] == before[j as int]);
                                assert(removed@[x] == removed_before[x]);
                            } else {
                                assert(removed@[x] == removed_before[x]);
                                assert(removed@[y] == removed_before[y]);
                            }
                        }
                    }
                },
                None => {
                    done = true;
                },
            }
        }
        removed
    }

    /// One bounded eviction sweep at the current time.
    pub fn clear_inactive(&mut self) -> (removed: Vec<UdpSession>)
        requires
            old(self).wf(),
        ensures
            final(self).wf(),
            final(self).same_settings(*old(self)),
            final(self).records().len() + removed@.len() == old(self).records().len(),
            exists|t: u64| #[trigger] udp_sweep_post(*old(self), *final(self), t, removed@),
    {
        let now = get_current_time();
        self.clear_inactive_at(now)
    }
}

} // verus!
