use std::collections::HashMap;
use vstd::prelude::*;

verus! {

broadcast use vstd::std_specs::hash::group_hash_axioms;

/// An opaque 64-bit handle for a registered descriptor; handles are never reused.
#[derive(Clone, Copy, Debug, Eq, Hash)]
pub struct Fd64(pub u64);

impl PartialEq for Fd64 {
    fn eq(&self, other: &Fd64) -> (r: bool) {
        self.0 == other.0
    }
}

impl vstd::std_specs::cmp::PartialEqSpecImpl for Fd64 {
    open spec fn obeys_eq_spec() -> bool {
        true
    }

    open spec fn eq_spec(&self, other: &Fd64) -> bool {
        self.0 == other.0
    }
}

impl Fd64 {
    pub fn as_u64(&self) -> (r: u64)
        ensures
            r == self.0,
    {
        self.0
    }
}

/// `m` without the keys that map to `v`.
pub open spec fn without_value(m: Map<u64, i32>, v: i32) -> Map<u64, i32> {
    Map::new(|k: u64| m.contains_key(k) && m[k] != v, |k: u64| m[k])
}

/// When a descriptor was registered and when it was last active, in milliseconds.
#[derive(Clone, Copy, Debug)]
pub struct FdInfo {
    pub create_time: u64,
    pub last_active_time: u64,
}

impl FdInfo {
    pub fn new(create_time: u64) -> (r: Self)
        ensures
            r.create_time == create_time,
            r.last_active_time == create_time,
    {
        FdInfo { create_time, last_active_time: create_time }
    }

    /// Records activity at `now`.
    pub fn update_active(&mut self, now: u64)
        ensures
            final(self).create_time == old(self).create_time,
            final(self).last_active_time == now,
    {
        self.last_active_time = now;
    }
}

/// The descriptor registry: hands out a fresh handle for each registered OS
/// descriptor and maps handles and descriptors both ways. A handle is live
/// from its creation until it is closed, and is never handed out again.
pub struct FdManager {
    fd_to_fd64: HashMap<i32, u64>,
    fd64_to_fd: HashMap<u64, i32>,
    fd_info: HashMap<u64, FdInfo>,
    counter: u64,
}

impl FdManager {
    /// The live handles and their descriptors.
    pub closed spec fn live(&self) -> Map<u64, i32> {
        self.fd64_to_fd@
    }

    /// The activity records of the live handles.
    pub closed spec fn infos(&self) -> Map<u64, FdInfo> {
        self.fd_info@
    }

    /// The handle the next registration gets; every handle ever handed out is smaller.
    pub closed spec fn next_handle(&self) -> u64 {
        self.counter
    }

    pub closed spec fn wf(&self) -> bool {
        &&& self.counter >= 1
        &&& self.fd_info@.dom() == self.fd64_to_fd@.dom()
        &&& forall|h: u64| #[trigger] self.fd64_to_fd@.contains_key(h) ==> h < self.counter
        &&& forall|h: u64| #[trigger] self.fd64_to_fd@.contains_key(h) ==> self.fd_to_fd64@.contains_key(
            self.fd64_to_fd@[h],
        ) && self.fd_to_fd64@[self.fd64_to_fd@[h]] == h
        &&& forall|r: i32| #[trigger] self.fd_to_fd64@.contains_key(r) ==> self.fd64_to_fd@.contains_key(
            self.fd_to_fd64@[r],
        ) && self.fd64_to_fd@[self.fd_to_fd64@[r]] == r
    }

    /// A handle has a descriptor exactly when it is live: what `to_fd` and
    /// `exist` report always agree.
    pub proof fn lemma_to_fd_iff_exist(&self, h: Fd64)
        ensures
            (if self.live().contains_key(h.0) { Some(self.live()[h.0]) } else { None::<i32> }).is_some()
                <==> self.live().contains_key(h.0),
    {
    }

    /// Distinct live handles name distinct descriptors.
    pub proof fn lemma_live_injective(&self, h1: u64, h2: u64)
        requires
            self.wf(),
            self.live().contains_key(h1),
            self.live().contains_key(h2),
            self.live()[h1] == self.live()[h2],
        ensures
            h1 == h2,
    {
    }

    /// Every live handle was handed out before the next one.
    pub proof fn lemma_live_below_next(&self, h: u64)
        requires
            self.wf(),
            self.live().contains_key(h),
        ensures
            h < self.next_handle(),
    {
    }

    pub fn new() -> (r: Self)
        ensures
            r.wf(),
            r.live() == Map::<u64, i32>::empty(),
            r.next_handle() == 1,
    {
        let r = FdManager {
            fd_to_fd64: HashMap::new(),
            fd64_to_fd: HashMap::new(),
            fd_info: HashMap::new(),
            counter: 1,
        };
        proof {
            assert(r.fd_info@.dom() =~= r.fd64_to_fd@.dom());
        }
        r
    }

    /// Makes room for `capacity` more descriptors; nothing else changes.
    pub fn reserve(&mut self, capacity: usize)
        requires
            old(self).wf(),
        ensures
            final(self).wf(),
            final(self).live() == old(self).live(),
            final(self).infos() == old(self).infos(),
            final(self).next_handle() == old(self).next_handle(),
    {
        self.fd_to_fd64.reserve(capacity);
        self.fd64_to_fd.reserve(capacity);
        self.fd_info.reserve(capacity);
    }

    /// Whether another handle can be handed out.
    pub fn can_create(&self) -> (r: bool)
        ensures
            r == (self.next_handle() < u64::MAX),
    {
        self.counter < u64::MAX
    }

    /// Registers descriptor `raw` under a fresh handle. A handle that still
    /// named `raw` (a descriptor closed behind the registry's back and reused)
    /// stops being live.
    pub fn create(&mut self, raw: i32, create_time: u64) -> (r: Fd64)
        requires
            old(self).wf(),
            old(self).next_handle() < u64::MAX,
        ensures
            final(self).wf(),
            r.0 == old(self).next_handle(),
            final(self).next_handle() == old(self).next_handle() + 1,
            !old(self).live().contains_key(r.0),
            final(self).live() == without_value(old(self).live(), raw).insert(r.0, raw),
            final(self).infos()[r.0] == FdInfo::new_spec(create_time),
            forall|h: u64| #[trigger] final(self).live().contains_key(h) && h != r.0 ==> final(self).infos()[h] == old(self).infos()[h],
    {
        let h = self.counter;
        match self.fd_to_fd64.get(&raw) {
            Some(stale) => {
                let stale = *stale;
                self.fd64_to_fd.remove(&stale);
                self.fd_info.remove(&stale);
            },
            None => {},
        }
        let ghost mid64 = self.fd64_to_fd@;
        self.fd_to_fd64.insert(raw, h);
        self.fd64_to_fd.insert(h, raw);
        self.fd_info.insert(h, FdInfo::new(create_time));
        self.counter = h + 1;
        proof {
            assert(mid64 =~= without_value(old(self).fd64_to_fd@, raw)) by {
                assert forall|k: u64| #[trigger] mid64.contains_key(k) <==> without_value(old(self).fd64_to_fd@, raw).contains_key(k) by {
                    if old(self).fd64_to_fd@.contains_key(k) && old(self).fd64_to_fd@[k] == raw {
                        assert(old(self).fd_to_fd64@[raw] == k);
                    }
                }
            }
            assert(self.fd_info@.dom() =~= self.fd64_to_fd@.dom());
            assert forall|r2: i32| #[trigger] self.fd_to_fd64@.contains_key(r2) implies self.fd64_to_fd@.contains_key(
                self.fd_to_fd64@[r2],
            ) && self.fd64_to_fd@[self.fd_to_fd64@[r2]] == r2 by {
                if r2 != raw {
                    let k = old(self).fd_to_fd64@[r2];
                    assert(old(self).fd64_to_fd@[k] == r2);
                    assert(k != h);
                }
            }
            assert forall|k: u64| #[trigger] self.fd64_to_fd@.contains_key(k) implies self.fd_to_fd64@.contains_key(
                self.fd64_to_fd@[k],
            ) && self.fd_to_fd64@[self.fd64_to_fd@[k]] == k by {
                if k != h {
                    assert(old(self).fd64_to_fd@.contains_key(k));
                    assert(old(self).fd64_to_fd@[k] != raw);
                }
            }
        }
        Fd64(h)
    }

    /// The handle of descriptor `raw`, registering it first if it has none
    /// (listener descriptors are shared by many sessions).
    pub fn get_or_create(&mut self, raw: i32, create_time: u64) -> (r: Fd64)
        requires
            old(self).wf(),
            old(self).next_handle() < u64::MAX,
        ensures
            final(self).wf(),
            final(self).live().contains_key(r.0),
            final(self).live()[r.0] == raw,
            old(self).live().contains_key(r.0) ==> *final(self) == *old(self),
            !old(self).live().contains_key(r.0) ==> r.0 == old(self).next_handle() && final(self).live()
                == old(self).live().insert(r.0, raw) && final(self).next_handle() == old(self).next_handle() + 1,
            (exists|h: u64| #[trigger] old(self).live().contains_key(h) && old(self).live()[h] == raw)
                ==> old(self).live().contains_key(r.0),
    {
        match self.fd_to_fd64.get(&raw) {
            Some(h) => Fd64(*h),
            None => {
                proof {
                    assert(without_value(old(self).live(), raw) =~= old(self).live()) by {
                        assert forall|k: u64| #[trigger] old(self).live().contains_key(k) implies old(self).live()[k] != raw by {
                            assert(self.fd_to_fd64@.contains_key(old(self).live()[k]));
                        }
                    }
                }
                self.create(raw, create_time)
            },
        }
    }

    /// The descriptor of `fd64`, if it is live.
    pub fn to_fd(&self, fd64: Fd64) -> (r: Option<i32>)
        requires
            self.wf(),
        ensures
            r == (if self.live().contains_key(fd64.0) { Some(self.live()[fd64.0]) } else { None::<i32> }),
    {
        match self.fd64_to_fd.get(&fd64.0) {
            Some(r) => Some(*r),
            None => None,
        }
    }

    /// Whether `fd64` is live.
    pub fn exist(&self, fd64: Fd64) -> (r: bool)
        requires
            self.wf(),
        ensures
            r == self.live().contains_key(fd64.0),
    {
        self.fd64_to_fd.contains_key(&fd64.0)
    }

    /// The activity record of `fd64`, if it is live.
    pub fn get_info(&self, fd64: &Fd64) -> (r: Option<FdInfo>)
        requires
            self.wf(),
        ensures
            r == (if self.live().contains_key(fd64.0) { Some(self.infos()[fd64.0]) } else { None::<FdInfo> }),
    {
        match self.fd_info.get(&fd64.0) {
            Some(i) => Some(*i),
            None => None,
        }
    }

    /// Whether `fd64` has an activity record, that is, whether it is live.
    pub fn exist_info(&self, fd64: &Fd64) -> (r: bool)
        requires
            self.wf(),
        ensures
            r == self.live().contains_key(fd64.0),
    {
        self.fd_info.contains_key(&fd64.0)
    }

    /// Ends `fd64`: returns its descriptor for the caller to close, or `None`
    /// if it was not live. After this nothing succeeds on `fd64`.
    pub fn close(&mut self, fd64: Fd64) -> (r: Option<i32>)
        requires
            old(self).wf(),
        ensures
            final(self).wf(),
            r == (if old(self).live().contains_key(fd64.0) { Some(old(self).live()[fd64.0]) } else { None::<i32> }),
            final(self).live() == old(self).live().remove(fd64.0),
            final(self).next_handle() == old(self).next_handle(),
            forall|h: u64| #[trigger] final(self).live().contains_key(h) ==> final(self).infos()[h] == old(self).infos()[h],
    {
        match self.fd64_to_fd.remove(&fd64.0) {
            Some(raw) => {
                self.fd_to_fd64.remove(&raw);
                self.fd_info.remove(&fd64.0);
                proof {
                    assert(self.fd_info@.dom() =~= self.fd64_to_fd@.dom());
                    assert forall|r2: i32| #[trigger] self.fd_to_fd64@.contains_key(r2) implies self.fd64_to_fd@.contains_key(
                        self.fd_to_fd64@[r2],
                    ) && self.fd64_to_fd@[self.fd_to_fd64@[r2]] == r2 by {
                        let k = old(self).fd_to_fd64@[r2];
                        assert(old(self).fd64_to_fd@[k] == r2);
                    }
                    assert forall|k: u64| #[trigger] self.fd64_to_fd@.contains_key(k) implies self.fd_to_fd64@.contains_key(
                        self.fd64_to_fd@[k],
                    ) && self.fd_to_fd64@[self.fd64_to_fd@[k]] == k by {
                        assert(old(self).fd_to_fd64@[old(self).fd64_to_fd@[k]] == k);
                    }
                }
                Some(raw)
            },
            None => {
                proof {
                    assert(old(self).live().remove(fd64.0) =~= old(self).live());
                }
                None
            },
        }
    }

    /// Records activity at `now` on `fd64`, if it is live.
    pub fn update_active(&mut self, fd64: &Fd64, now: u64)
        requires
            old(self).wf(),
        ensures
            final(self).wf(),
            final(self).live() == old(self).live(),
            final(self).next_handle() == old(self).next_handle(),
            old(self).live().contains_key(fd64.0) ==> final(self).infos() == old(self).infos().insert(
                fd64.0,
                FdInfo { create_time: old(self).infos()[fd64.0].create_time, last_active_time: now },
            ),
            !old(self).live().contains_key(fd64.0) ==> final(self).infos() == old(self).infos(),
    {
        match self.fd_info.get(&fd64.0) {
            Some(i) => {
                let mut info = *i;
                info.update_active(now);
                self.fd_info.insert(fd64.0, info);
                proof {
                    assert(self.fd_info@.dom() =~= self.fd64_to_fd@.dom());
                }
            },
            None => {},
        }
    }
}

impl FdInfo {
    pub open spec fn new_spec(create_time: u64) -> FdInfo {
        FdInfo { create_time, last_active_time: create_time }
    }
}

} // verus!
