//! A sliding-window rate limiter per client address.
use std::collections::HashMap;
use vstd::prelude::*;

use crate::clock::{duration_nanos, elapsed_since, instant_now};

verus! {

broadcast use vstd::std_specs::hash::group_hash_axioms;

/// A client address: an IPv4 address as its 32 bits or an IPv6 address
/// as its 128 bits.
#[derive(Debug, Clone, Copy, PartialEq, Eq, Structural)]
pub enum ClientAddr {
    V4(u32),
    V6(u128),
}

impl ClientAddr {
    /// The IPv4 address `a.b.c.d`.
    pub fn v4(a: u8, b: u8, c: u8, d: u8) -> (r: ClientAddr)
        ensures
            r == ClientAddr::V4(((a as u32) * 16777216 + (b as u32) * 65536 + (c as u32) * 256
                + d as u32) as u32),
    {
        ClientAddr::V4((a as u32) * 16777216 + (b as u32) * 65536 + (c as u32) * 256 + d as u32)
    }
}

/// The attempt is recent at `now`: less than `window` has passed since `t`
/// (no time has passed when `t` is not before `now`).
pub open spec fn is_recent(t: u128, now: u128, window: u128) -> bool {
    if t <= now {
        now - t < window
    } else {
        0 < window
    }
}

/// The recent attempts of `s`, in their order.
pub open spec fn keep_recent(s: Seq<u128>, now: u128, window: u128) -> Seq<u128>
    decreases s.len(),
{
    if s.len() == 0 {
        s
    } else {
        let rest = keep_recent(s.drop_last(), now, window);
        if is_recent(s.last(), now, window) {
            rest.push(s.last())
        } else {
            rest
        }
    }
}

/// Remembers, per client address, when its attempts were made (in
/// nanoseconds since the limiter was made).
pub struct RateLimiter {
    v4: HashMap<u32, Vec<u128>>,
    v6: HashMap<u128, Vec<u128>>,
    origin: std::time::Instant,
}

impl RateLimiter {
    /// The attempts remembered for `addr`, oldest first.
    pub closed spec fn history(&self, addr: ClientAddr) -> Seq<u128> {
        match addr {
            ClientAddr::V4(k) => if self.v4@.contains_key(k) {
                self.v4@[k]@
            } else {
                Seq::empty()
            },
            ClientAddr::V6(k) => if self.v6@.contains_key(k) {
                self.v6@[k]@
            } else {
                Seq::empty()
            },
        }
    }

    /// A limiter that remembers no attempt.
    pub fn new() -> (r: RateLimiter)
        ensures
            forall|a: ClientAddr| #[trigger] r.history(a) == Seq::<u128>::empty(),
    {
        RateLimiter { v4: HashMap::new(), v6: HashMap::new(), origin: instant_now() }
    }

    fn take_history(&mut self, addr: ClientAddr) -> (r: Vec<u128>)
        ensures
            r@ == old(self).history(addr),
            final(self).history(addr) == Seq::<u128>::empty(),
            forall|a: ClientAddr| a != addr ==> #[trigger] final(self).history(a) == old(
                self,
            ).history(a),
            final(self).origin == old(self).origin,
    {
        match addr {
            ClientAddr::V4(k) => match self.v4.remove(&k) {
                Some(v) => v,
                None => Vec::new(),
            },
            ClientAddr::V6(k) => match self.v6.remove(&k) {
                Some(v) => v,
                None => Vec::new(),
            },
        }
    }

    fn put_history(&mut self, addr: ClientAddr, times: Vec<u128>)
        ensures
            final(self).history(addr) == times@,
            forall|a: ClientAddr| a != addr ==> #[trigger] final(self).history(a) == old(
                self,
            ).history(a),
            final(self).origin == old(self).origin,
    {
        match addr {
            ClientAddr::V4(k) => {
                self.v4.insert(k, times);
            },
            ClientAddr::V6(k) => {
                self.v6.insert(k, times);
            },
        }
    }

    /// Records an attempt by `addr` at `now` (nanoseconds on the limiter's
    /// clock) and tells whether `addr` has made more than `limit` attempts
    /// within `window` nanoseconds, this one included. Attempts older than
    /// the window are forgotten.
    pub fn too_many_attempts_at(&mut self, addr: ClientAddr, limit: usize, window: u128, now: u128) -> (r:
        bool)
        ensures
            final(self).history(addr) == keep_recent(old(self).history(addr), now, window).push(
                now,
            ),
            r == (keep_recent(old(self).history(addr), now, window).len() + 1 > limit),
            forall|a: ClientAddr| a != addr ==> #[trigger] final(self).history(a) == old(
                self,
            ).history(a),
    {
        let times = self.take_history(addr);
        let mut kept: Vec<u128> = Vec::new();
        let mut i: usize = 0;
        while i < times.len()
            invariant
                0 <= i <= times@.len(),
                kept@ == keep_recent(times@.subrange(0, i as int), now, window),
            decreases times@.len() - i,
        {
            let t = times[i];
            let recent = if t <= now {
                now - t < window
            } else {
                0 < window
            };
            proof {
                assert(times@.subrange(0, i + 1).drop_last() =~= times@.subrange(0, i as int));
            }
            if recent {
                kept.push(t);
            }
            i = i + 1;
        }
        assert(times@.subrange(0, times@.len() as int) =~= times@);
        kept.push(now);
        let over = kept.len() > limit;
        self.put_history(addr, kept);
        over
    }

    /// Records an attempt by `addr` now and tells whether `addr` has made
    /// more than `limit` attempts within the last `window` nanoseconds, this
    /// one included. "Now" is read from the monotonic clock, in nanoseconds
    /// since the limiter was made.
    pub fn too_many_attempts(&mut self, addr: ClientAddr, limit: usize, window: u128) -> (r: bool)
        ensures
            exists|now: u128|
                {
                    &&& final(self).history(addr) == #[trigger] keep_recent(
                        old(self).history(addr),
                        now,
                        window,
                    ).push(now)
                    &&& r == (keep_recent(old(self).history(addr), now, window).len() + 1 > limit)
                },
            forall|a: ClientAddr| a != addr ==> #[trigger] final(self).history(a) == old(
                self,
            ).history(a),
    {
        let elapsed = elapsed_since(&self.origin);
        let now = duration_nanos(&elapsed);
        self.too_many_attempts_at(addr, limit, window, now)
    }
}

/// Law: an attempt made less than a window ago is remembered, so within
/// one window the attempts add up and the one after the `limit`-th is
/// refused.
pub proof fn law_recent_attempts_kept(h: Seq<u128>, now: u128, window: u128)
    requires
        forall|i: int| 0 <= i < h.len() ==> #[trigger] h[i] <= now && now - h[i] < window,
    ensures
        keep_recent(h, now, window) == h,
    decreases h.len(),
{
    if h.len() > 0 {
        law_recent_attempts_kept(h.drop_last(), now, window);
        assert(h.drop_last().push(h.last()) =~= h);
    }
}

/// Law: attempts made a whole window ago or earlier are forgotten.
pub proof fn law_old_attempts_forgotten(h: Seq<u128>, now: u128, window: u128)
    requires
        forall|i: int| 0 <= i < h.len() ==> #[trigger] h[i] <= now && now - h[i] >= window,
    ensures
        keep_recent(h, now, window).len() == 0,
    decreases h.len(),
{
    if h.len() > 0 {
        law_old_attempts_forgotten(h.drop_last(), now, window);
    }
}

} // verus!
