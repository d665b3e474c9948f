//! Hybrid logical clock packed into a single 64-bit value.
//!
//! The upper 48 bits hold physical time in microseconds (taken modulo 2^48),
//! the lower 16 bits a logical counter. Ordering is the order of the raw
//! unsigned value.
use vstd::prelude::*;

verus! {

/// Number of distinct counter values (2^16).
pub const COUNTER_SPAN: u64 = 65536;

/// Number of distinct physical values (2^48).
pub const PHYSICAL_SPAN: u64 = 281474976710656;

pub open spec fn physical_of(ts: u64) -> nat {
    (ts as nat) / (COUNTER_SPAN as nat)
}

pub open spec fn counter_of(ts: u64) -> nat {
    (ts as nat) % (COUNTER_SPAN as nat)
}

/// The packed value of a physical part `p < 2^48` and a counter `c < 2^16`.
pub open spec fn pack(p: nat, c: nat) -> nat {
    p * (COUNTER_SPAN as nat) + c
}

/// Packs `(p, c)`; a counter that ran past its 16 bits moves physical time on by
/// one microsecond with counter zero. At the very top of the range the value
/// saturates at `u64::MAX`.
pub open spec fn normalize(p: nat, c: nat) -> u64 {
    if c < COUNTER_SPAN as nat {
        pack(p, c) as u64
    } else if p + 1 < PHYSICAL_SPAN as nat {
        pack(p + 1, 0) as u64
    } else {
        u64::MAX
    }
}

/// The signed 64-bit integer with the same bits as `u` (two's complement).
pub open spec fn signed_of(u: u64) -> i64 {
    if u <= i64::MAX as u64 {
        u as i64
    } else {
        (u as int - 18446744073709551616) as i64
    }
}

pub open spec fn max_nat(a: nat, b: nat) -> nat {
    if a >= b { a } else { b }
}

/// The value a clock at `cur` moves to when it ticks at wall-clock time `wall`
/// (microseconds), observing `remote` if given.
pub open spec fn tick_value(cur: u64, wall: u64, remote: Option<u64>) -> u64 {
    let w = (wall as nat) % (PHYSICAL_SPAN as nat);
    let sp = physical_of(cur);
    let sc = counter_of(cur);
    match remote {
        None => {
            let pn = max_nat(w, sp);
            if pn == sp { normalize(pn, sc + 1) } else { normalize(pn, 0) }
        },
        Some(r) => {
            let rp = physical_of(r);
            let rc = counter_of(r);
            let pn = max_nat(max_nat(w, sp), rp);
            if pn == sp && pn == rp {
                normalize(pn, max_nat(sc, rc) + 1)
            } else if pn == sp {
                normalize(pn, sc + 1)
            } else if pn == rp {
                normalize(pn, rc + 1)
            } else {
                normalize(pn, 0)
            }
        },
    }
}

proof fn lemma_packed_split(ts: u64)
    ensures
        ts as nat == pack(physical_of(ts), counter_of(ts)),
        physical_of(ts) < PHYSICAL_SPAN as nat,
        counter_of(ts) < COUNTER_SPAN as nat,
{
}

proof fn lemma_pack_fits(p: nat, c: nat)
    requires
        p < PHYSICAL_SPAN as nat,
        c < COUNTER_SPAN as nat,
    ensures
        pack(p, c) <= u64::MAX as nat,
        physical_of(pack(p, c) as u64) == p,
        counter_of(pack(p, c) as u64) == c,
{
    assert(p * 65536 <= (281474976710656 - 1) * 65536) by (nonlinear_arith)
        requires p < 281474976710656;
    assert((p * 65536 + c) / 65536 == p && (p * 65536 + c) % 65536 == c) by (nonlinear_arith)
        requires c < 65536;
}

/// Packing is strictly monotone in the physical part.
proof fn lemma_pack_physical_order(p1: nat, c1: nat, p2: nat, c2: nat)
    requires
        p1 < p2,
        c1 < COUNTER_SPAN as nat,
    ensures
        pack(p1, c1) < pack(p2, c2),
{
    assert(p1 * 65536 + c1 < p2 * 65536 + c2) by (nonlinear_arith)
        requires p1 < p2, c1 < 65536;
}

/// A normalized value lies strictly above every packed value with a smaller
/// physical part, or the same physical part and a smaller counter.
proof fn lemma_normalize_above(p: nat, c: nat, q: nat, d: nat)
    requires
        p < PHYSICAL_SPAN as nat,
        q < PHYSICAL_SPAN as nat,
        d < COUNTER_SPAN as nat,
        q < p || (q == p && d < c),
        pack(q, d) < u64::MAX as nat,
    ensures
        pack(q, d) < normalize(p, c) as nat,
{
    if c < COUNTER_SPAN as nat {
        lemma_pack_fits(p, c);
        if q < p {
            lemma_pack_physical_order(q, d, p, c);
        }
    } else if p + 1 < PHYSICAL_SPAN as nat {
        lemma_pack_fits(p + 1, 0);
        lemma_pack_physical_order(q, d, p + 1, 0);
    }
}

/// Local monotonicity: a tick moves the clock strictly past its current value
/// and past the observed remote value, unless that value is already the
/// largest representable one.
pub proof fn lemma_tick_strictly_increases(cur: u64, wall: u64, remote: Option<u64>)
    ensures
        cur < u64::MAX ==> cur < tick_value(cur, wall, remote),
        remote is Some && remote->0 < u64::MAX ==> remote->0 < tick_value(cur, wall, remote),
        cur <= tick_value(cur, wall, remote),
{
    lemma_packed_split(cur);
    let w = (wall as nat) % (PHYSICAL_SPAN as nat);
    let sp = physical_of(cur);
    let sc = counter_of(cur);
    match remote {
        None => {
            let pn = max_nat(w, sp);
            if cur < u64::MAX {
                if pn == sp {
                    lemma_normalize_above(pn, sc + 1, sp, sc);
                } else {
                    lemma_normalize_above(pn, 0, sp, sc);
                }
            }
        },
        Some(r) => {
            lemma_packed_split(r);
            let rp = physical_of(r);
            let rc = counter_of(r);
            let pn = max_nat(max_nat(w, sp), rp);
            let c = if pn == sp && pn == rp {
                max_nat(sc, rc) + 1
            } else if pn == sp {
                sc + 1
            } else if pn == rp {
                rc + 1
            } else {
                0
            };
            assert(tick_value(cur, wall, remote) == normalize(pn, c));
            if cur < u64::MAX {
                lemma_normalize_above(pn, c, sp, sc);
            }
            if r < u64::MAX {
                lemma_normalize_above(pn, c, rp, rc);
            }
        },
    }
}

/// The system clock in microseconds since the Unix epoch; a reading before
/// the epoch counts as zero.
fn wall_clock_micros() -> u64 {
    let t = crate::system::now_micros();
    if t >= 0 {
        t as u64
    } else {
        0
    }
}

/// The packed value of an optional remote clock.
pub open spec fn remote_value(r: Option<HybridLogicalClock>) -> Option<u64> {
    match r {
        Some(c) => Some(c.timestamp),
        None => None,
    }
}

/// A hybrid logical clock value.
#[derive(Debug, Clone, Copy, PartialEq, Eq, Structural, PartialOrd, Ord, Hash)]
pub struct HybridLogicalClock {
    /// The packed `physical:48 | counter:16` value.
    pub timestamp: u64,
}

impl HybridLogicalClock {
    pub open spec fn physical_spec(&self) -> nat {
        physical_of(self.timestamp)
    }

    pub open spec fn counter_spec(&self) -> nat {
        counter_of(self.timestamp)
    }

    /// Builds a clock value from physical microseconds (kept modulo 2^48) and a
    /// counter.
    pub fn new(physical_micros: u64, counter: u16) -> (r: Self)
        ensures
            r.physical_spec() == (physical_micros as nat) % (PHYSICAL_SPAN as nat),
            r.counter_spec() == counter as nat,
            r.timestamp as nat == pack(
                (physical_micros as nat) % (PHYSICAL_SPAN as nat),
                counter as nat,
            ),
    {
        let p = physical_micros % PHYSICAL_SPAN;
        proof {
            lemma_pack_fits(p as nat, counter as nat);
        }
        Self { timestamp: p * COUNTER_SPAN + counter as u64 }
    }

    /// Reinterprets a stored signed timestamp as a clock value.
    pub fn from_timestamp(timestamp: i64) -> (r: Self)
        ensures
            signed_of(r.timestamp) == timestamp,
    {
        if timestamp >= 0 {
            Self { timestamp: timestamp as u64 }
        } else {
            Self { timestamp: u64::MAX - ((-(timestamp + 1)) as u64) }
        }
    }

    /// The raw value as a signed integer, as it is stored.
    pub fn to_timestamp(&self) -> (r: i64)
        ensures
            r == signed_of(self.timestamp),
    {
        if self.timestamp <= i64::MAX as u64 {
            self.timestamp as i64
        } else {
            -((u64::MAX - self.timestamp) as i64) - 1
        }
    }

    /// Physical part, in microseconds modulo 2^48.
    pub fn physical_time(&self) -> (r: u64)
        ensures
            r as nat == self.physical_spec(),
    {
        self.timestamp / COUNTER_SPAN
    }

    /// Logical counter part.
    pub fn counter(&self) -> (r: u16)
        ensures
            r as nat == self.counter_spec(),
    {
        (self.timestamp % COUNTER_SPAN) as u16
    }

    /// The clock at the current wall-clock time, with counter zero.
    pub fn now() -> (r: Self)
        ensures
            r.counter_spec() == 0,
    {
        let w = wall_clock_micros();
        Self::new(w, 0)
    }

    /// Advances the clock as if the wall clock read `wall_micros`, observing
    /// `remote` if given.
    pub fn tick_at(&mut self, wall_micros: u64, remote: Option<Self>)
        ensures
            final(self).timestamp == tick_value(
                old(self).timestamp,
                wall_micros,
                match remote {
                    Some(r) => Some(r.timestamp),
                    None => None,
                },
            ),
            old(self).timestamp < u64::MAX ==> old(self).timestamp < final(self).timestamp,
            remote is Some && remote->0.timestamp < u64::MAX ==> remote->0.timestamp
                < final(self).timestamp,
    {
        let ghost rv = match remote {
            Some(r) => Some(r.timestamp),
            None => None,
        };
        proof {
            lemma_tick_strictly_increases(self.timestamp, wall_micros, rv);
            lemma_packed_split(self.timestamp);
        }
        let w = wall_micros % PHYSICAL_SPAN;
        let sp = self.physical_time();
        let sc = self.counter() as u64;
        let (pn, c) = match remote {
            None => {
                let pn = if w >= sp { w } else { sp };
                if pn == sp { (pn, sc + 1) } else { (pn, 0u64) }
            },
            Some(r) => {
                proof {
                    lemma_packed_split(r.timestamp);
                }
                let rp = r.physical_time();
                let rc = r.counter() as u64;
                let m = if w >= sp { w } else { sp };
                let pn = if m >= rp { m } else { rp };
                if pn == sp && pn == rp {
                    let mc = if sc >= rc { sc } else { rc };
                    (pn, mc + 1)
                } else if pn == sp {
                    (pn, sc + 1)
                } else if pn == rp {
                    (pn, rc + 1)
                } else {
                    (pn, 0u64)
                }
            },
        };
        if c < COUNTER_SPAN {
            proof {
                lemma_pack_fits(pn as nat, c as nat);
            }
            self.timestamp = pn * COUNTER_SPAN + c;
        } else if pn + 1 < PHYSICAL_SPAN {
            proof {
                lemma_pack_fits((pn + 1) as nat, 0);
            }
            self.timestamp = (pn + 1) * COUNTER_SPAN;
        } else {
            self.timestamp = u64::MAX;
        }
    }

    /// Advances the clock at the current wall-clock time, observing `remote`
    /// if given. The result lies strictly above the previous value and above
    /// the remote value (short of the largest representable value).
    pub fn increment(&mut self, remote_time: Option<Self>)
        ensures
            exists|w: u64|
                final(self).timestamp == #[trigger] tick_value(
                    old(self).timestamp,
                    w,
                    remote_value(remote_time),
                ),
            old(self).timestamp < u64::MAX ==> old(self).timestamp < final(self).timestamp,
            remote_time is Some && remote_time->0.timestamp < u64::MAX
                ==> remote_time->0.timestamp < final(self).timestamp,
    {
        let w = wall_clock_micros();
        self.tick_at(w, remote_time);
    }
}

} // verus!
