//! Points in time and spans between them.

use crate::wire;
use crate::wire::Wire;
use vstd::prelude::*;

verus! {

/// A point in time: whole seconds since the Unix epoch, less than zero before
/// it, and the nanoseconds that follow them.
#[derive(Debug, Clone, Copy, PartialEq, Eq, Structural)]
pub struct Timestamp {
    pub secs: i64,
    pub nanos: u32,
}

/// A span of time in nanoseconds.
#[derive(Debug, Clone, Copy, PartialEq, Eq, Structural)]
pub struct Duration {
    pub nanos: u128,
}

impl DeepView for Timestamp {
    type V = Timestamp;

    open spec fn deep_view(&self) -> Timestamp {
        *self
    }
}

impl Duration {
    pub fn from_secs(secs: u64) -> (r: Duration)
        ensures
            r.nanos == secs * 1_000_000_000,
    {
        Duration { nanos: secs as u128 * 1_000_000_000 }
    }

    pub fn from_millis(millis: u64) -> (r: Duration)
        ensures
            r.nanos == millis * 1_000_000,
    {
        Duration { nanos: millis as u128 * 1_000_000 }
    }

    /// Whole seconds.
    pub fn as_secs(&self) -> (r: u128)
        ensures
            r == self.nanos / 1_000_000_000,
    {
        self.nanos / 1_000_000_000
    }
}

impl Timestamp {
    /// Nanoseconds since the epoch.
    pub open spec fn instant(self) -> int {
        self.secs * 1_000_000_000 + self.nanos
    }

    /// How long before `self` the point `earlier` lies, in nanoseconds; nothing
    /// if it lies after.
    pub open spec fn spec_since(self, earlier: Timestamp) -> Option<nat> {
        if earlier.instant() <= self.instant() {
            Some((self.instant() - earlier.instant()) as nat)
        } else {
            None
        }
    }

    /// Milliseconds since the epoch, as far as 64 bits hold them; 0 before it.
    pub open spec fn spec_millis(self) -> nat {
        if self.instant() < 0 {
            0
        } else {
            ((self.instant() / 1_000_000) % 0x1_0000_0000_0000_0000) as nat
        }
    }

    /// How long before `self` the point `earlier` lies; nothing if it lies
    /// after.
    pub fn since(&self, earlier: Timestamp) -> (r: Option<Duration>)
        ensures
            match r {
                Some(d) => self.spec_since(earlier) == Some(d.nanos as nat),
                None => self.spec_since(earlier) is None,
            },
    {
        let a: i128 = self.secs as i128 * 1_000_000_000 + self.nanos as i128;
        let b: i128 = earlier.secs as i128 * 1_000_000_000 + earlier.nanos as i128;
        if b <= a {
            Some(Duration { nanos: (a - b) as u128 })
        } else {
            None
        }
    }

    /// Milliseconds since the epoch, as far as 64 bits hold them; 0 before it.
    pub fn millis(&self) -> (r: u64)
        ensures
            r == self.spec_millis(),
    {
        let all: i128 = self.secs as i128 * 1_000_000_000 + self.nanos as i128;
        if all < 0 {
            return 0;
        }
        let ms: u128 = all as u128 / 1_000_000;
        assert(ms as u64 == ms % 0x1_0000_0000_0000_0000) by (bit_vector);
        ms as u64
    }

    /// The point that lies so many seconds and nanoseconds from the epoch,
    /// before it or not before it. Beyond 64 bits of seconds it is the first
    /// second that they hold, or lies in the last.
    pub fn from_offset(before: bool, secs: u64, nanos: u32) -> (r: Timestamp)
        requires
            nanos < 1_000_000_000,
        ensures
            r.nanos < 1_000_000_000,
            secs <= i64::MAX ==> r.instant() == (if before {
                -(secs * 1_000_000_000 + nanos)
            } else {
                secs * 1_000_000_000 + nanos
            }),
            secs > i64::MAX ==> r == (if before {
                (Timestamp { secs: i64::MIN, nanos: 0 })
            } else {
                (Timestamp { secs: i64::MAX, nanos })
            }),
    {
        if secs > i64::MAX as u64 {
            if before {
                Timestamp { secs: i64::MIN, nanos: 0 }
            } else {
                Timestamp { secs: i64::MAX, nanos }
            }
        } else if !before {
            Timestamp { secs: secs as i64, nanos }
        } else if nanos == 0 {
            Timestamp { secs: -(secs as i64), nanos: 0 }
        } else {
            Timestamp { secs: -(secs as i64) - 1, nanos: 1_000_000_000 - nanos }
        }
    }
}

/// How long one point in time lies before another goes by their seconds and
/// nanoseconds; milliseconds are counted from the epoch, and stay 0 before it.
pub proof fn times_are_counted(a: Timestamp, b: Timestamp)
    ensures
        match b.spec_since(a) {
            Some(span) => span == (b.secs - a.secs) * 1_000_000_000 + b.nanos - a.nanos,
            None => (b.secs - a.secs) * 1_000_000_000 + b.nanos - a.nanos < 0,
        },
        0 <= a.secs && a.nanos < 1_000_000_000 ==> a.spec_millis() == (a.secs * 1000 + a.nanos
            / 1_000_000) % 0x1_0000_0000_0000_0000,
        a.secs < 0 && a.nanos < 1_000_000_000 ==> a.spec_millis() == 0,
{
}

/// `std::time::SystemTime::now`, as the seconds and nanoseconds that it lies
/// from the Unix epoch: `Ok` if not before it, `Err` if before. Nothing is
/// known of the result but that it holds less than a second of nanoseconds.
#[verifier::external_body]
fn system_clock() -> (r: Result<(u64, u32), (u64, u32)>)
    ensures
        match r {
            Ok((_, nanos)) => nanos < 1_000_000_000,
            Err((_, nanos)) => nanos < 1_000_000_000,
        },
{
    match std::time::SystemTime::now().duration_since(std::time::UNIX_EPOCH) {
        Ok(d) => Ok((d.as_secs(), d.subsec_nanos())),
        Err(e) => Err((e.duration().as_secs(), e.duration().subsec_nanos())),
    }
}

/// The time by the system clock, of which nothing is known but its form.
pub(crate) fn system_now() -> (r: Timestamp)
    ensures
        r.nanos < 1_000_000_000,
{
    match system_clock() {
        Ok((secs, nanos)) => Timestamp::from_offset(false, secs, nanos),
        Err((secs, nanos)) => Timestamp::from_offset(true, secs, nanos),
    }
}

/// Milliseconds since the epoch by the system clock.
pub fn epoch_ms() -> (r: u64)
    ensures
        exists|now: Timestamp| now.nanos < 1_000_000_000 && r == #[trigger] now.spec_millis(),
{
    let now = system_now();
    now.millis()
}

/// A time stamp is two integers on the wire; before the epoch it has no
/// encoding. What is read is brought into the normal form with less than a
/// second of nanoseconds.
impl Wire for Timestamp {
    open spec fn wire(v: Timestamp) -> Seq<u8> {
        <(u64, u32) as Wire>::wire((v.secs as u64, v.nanos))
    }

    open spec fn parse(b: Seq<u8>) -> Result<(Timestamp, Seq<u8>), Seq<char>> {
        match <(u64, u32) as Wire>::parse(b) {
            Err(text) => Err(text),
            Ok(((secs, nanos), rest)) => {
                let all = secs + nanos / 1_000_000_000;
                if all > u64::MAX {
                    Err(
                        wire::custom_refusal(
                            "overflow deserializing SystemTime epoch offset"@,
                        ),
                    )
                } else if all > i64::MAX {
                    Err(wire::custom_refusal("overflow deserializing SystemTime"@))
                } else {
                    Ok((Timestamp { secs: all as i64, nanos: nanos % 1_000_000_000 }, rest))
                }
            },
        }
    }

    open spec fn fits(v: Timestamp) -> bool {
        v.nanos < 1_000_000_000 && v.secs >= 0
    }

    open spec fn encodable(v: Timestamp) -> bool {
        v.secs >= 0
    }

    proof fn round_trip(v: Timestamp, rest: Seq<u8>) {
        <(u64, u32) as Wire>::round_trip((v.secs as u64, v.nanos), rest);
    }

    fn is_encodable(&self) -> (r: bool) {
        self.secs >= 0
    }

    fn encode(&self, out: &mut Vec<u8>) {
        (self.secs as u64, self.nanos).encode(out);
    }

    fn decode(b: &[u8]) -> (r: Result<(Timestamp, &[u8]), String>) {
        match <(u64, u32) as Wire>::decode(b) {
            Err(text) => Err(text),
            Ok(((secs, nanos), rest)) => {
                let carry: u64 = nanos as u64 / 1_000_000_000;
                if secs > u64::MAX - carry {
                    Err(wire::bincode_custom("overflow deserializing SystemTime epoch offset"))
                } else if secs + carry > i64::MAX as u64 {
                    Err(wire::bincode_custom("overflow deserializing SystemTime"))
                } else {
                    Ok((Timestamp { secs: (secs + carry) as i64, nanos: nanos % 1_000_000_000 }, rest))
                }
            },
        }
    }
}

/// A time is sent as its whole seconds and the nanoseconds beyond them.
pub proof fn time_layout(t: Timestamp)
    requires
        t.secs >= 0,
    ensures
        <Timestamp as Wire>::wire(t) == wire::varint_bytes(t.secs as nat) + wire::varint_bytes(
            t.nanos as nat,
        ),
{
}

} // verus!
