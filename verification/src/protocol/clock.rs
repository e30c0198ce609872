//! Clock-offset estimation between the host and the phone.
//!
//! The two devices run independent monotonic clocks. To express a phone timestamp in host time,
//! the offset is estimated from one exchange of four timestamps:
//!
//! ```text
//! host sends ClockPing at  t0 (host clock)
//! phone receives it at     t1 (phone clock)
//! phone sends ClockPong at t2 (phone clock)
//! host receives it at      t3 (host clock)
//! ```

use vstd::prelude::*;

verus! {

/// The result of one clock-offset estimation.
#[derive(Debug, Clone, Copy, PartialEq, Eq, Structural)]
pub struct ClockOffset {
    /// Phone clock minus host clock, in microseconds: subtract it from a phone time to get host
    /// time. Negative where the phone is behind.
    pub offset_us: i64,
    /// Round-trip time of the exchange, in microseconds. The offset is off by at most half of it.
    pub rtt_us: u64,
}

/// `a / b` rounded toward zero.
pub open spec fn div_toward_zero(a: int, b: int) -> int
    recommends
        b > 0,
{
    if a >= 0 {
        a / b
    } else {
        -((-a) / b)
    }
}

/// The offset of the phone's clock: the mean of what the two directions suggest, rounded toward
/// zero.
pub open spec fn offset_of(t0: int, t1: int, t2: int, t3: int) -> int {
    div_toward_zero((t1 - t0) + (t2 - t3), 2)
}

/// The time that the two messages spent travelling, at least zero.
pub open spec fn rtt_of(t0: int, t1: int, t2: int, t3: int) -> int {
    if (t3 - t0) - (t2 - t1) < 0 {
        0
    } else {
        (t3 - t0) - (t2 - t1)
    }
}

/// The signed 64-bit value with the low 64 bits of `x`.
pub open spec fn wrap_i64(x: int) -> int {
    let m = x % 0x1_0000_0000_0000_0000;
    if m < 0x8000_0000_0000_0000 {
        m
    } else {
        m - 0x1_0000_0000_0000_0000
    }
}

/// The unsigned 64-bit value with the low 64 bits of `x`.
pub open spec fn wrap_u64(x: int) -> int {
    x % 0x1_0000_0000_0000_0000
}

/// Keep the low 64 bits of `x` as an unsigned number.
pub(crate) fn low_u64(x: i128) -> (r: u64)
    ensures
        r == wrap_u64(x as int),
{
    if x >= 0 {
        (x % 0x1_0000_0000_0000_0000) as u64
    } else {
        let below: i128 = (-(x + 1)) % 0x1_0000_0000_0000_0000;
        (0xffff_ffff_ffff_ffff - below) as u64
    }
}

/// Keep the low 64 bits of `x` as a signed number.
pub(crate) fn low_i64(x: i128) -> (r: i64)
    ensures
        r == wrap_i64(x as int),
{
    let m: u64 = low_u64(x);
    if m < 0x8000_0000_0000_0000 {
        m as i64
    } else {
        (m as i128 - 0x1_0000_0000_0000_0000) as i64
    }
}

/// The estimate from the four timestamps of one exchange.
pub open spec fn estimate_of(t0: u64, t1: u64, t2: u64, t3: u64) -> ClockOffset {
    ClockOffset {
        offset_us: wrap_i64(offset_of(t0 as int, t1 as int, t2 as int, t3 as int)) as i64,
        rtt_us: wrap_u64(rtt_of(t0 as int, t1 as int, t2 as int, t3 as int)) as u64,
    }
}

/// Estimate the clock offset from the four timestamps of one exchange (all in microseconds).
///
/// The arithmetic is done on 128 bits, so no input overflows it; the two results keep their low
/// 64 bits. A capture that is not monotonic gives a round trip of zero.
pub fn estimate(t0: u64, t1: u64, t2: u64, t3: u64) -> (r: ClockOffset)
    ensures
        r == estimate_of(t0, t1, t2, t3),
{
    let a: i128 = t0 as i128;
    let b: i128 = t1 as i128;
    let c: i128 = t2 as i128;
    let d: i128 = t3 as i128;
    let sum: i128 = (b - a) + (c - d);
    let offset: i128 = if sum >= 0 {
        sum / 2
    } else {
        -((-sum) / 2)
    };
    let rtt: i128 = (d - a) - (c - b);
    let travel: i128 = if rtt < 0 {
        0
    } else {
        rtt
    };
    ClockOffset { offset_us: low_i64(offset), rtt_us: low_u64(travel) }
}

/// With the same delay each way and a phone that is ahead by `ahead`, the estimate is exact, and
/// the round trip is the two delays together, however long the phone held the message.
pub proof fn law_symmetric_delay(t0: int, delay: int, ahead: int, hold: int)
    requires
        delay >= 0,
    ensures
        ({
            let t1 = t0 + delay + ahead;
            let t2 = t1 + hold;
            let t3 = t2 - ahead + delay;
            offset_of(t0, t1, t2, t3) == ahead && rtt_of(t0, t1, t2, t3) == 2 * delay
        }),
{
}

/// Whatever the two delays are, the estimate misses the true offset by at most half the round
/// trip, rounded up to a whole microsecond.
pub proof fn law_offset_error_bound(t0: int, up: int, down: int, ahead: int, hold: int)
    requires
        up >= 0,
        down >= 0,
    ensures
        ({
            let t1 = t0 + up + ahead;
            let t2 = t1 + hold;
            let t3 = t2 - ahead + down;
            let miss = offset_of(t0, t1, t2, t3) - ahead;
            let rtt = rtt_of(t0, t1, t2, t3);
            rtt == up + down && -(rtt + 1) <= 2 * miss <= rtt + 1
        }),
{
}

/// On timestamps below 2^62 the two results are the estimates themselves, with nothing cut off.
pub proof fn law_no_wrap(t0: int, t1: int, t2: int, t3: int)
    requires
        0 <= t0 < 0x4000_0000_0000_0000,
        0 <= t1 < 0x4000_0000_0000_0000,
        0 <= t2 < 0x4000_0000_0000_0000,
        0 <= t3 < 0x4000_0000_0000_0000,
    ensures
        wrap_i64(offset_of(t0, t1, t2, t3)) == offset_of(t0, t1, t2, t3),
        wrap_u64(rtt_of(t0, t1, t2, t3)) == rtt_of(t0, t1, t2, t3),
{
}

/// The estimate of an exchange whose two messages took equally long is exact, whenever the phone
/// answered and however long it held the message: the offset is what the phone's clock is ahead by,
/// and the round trip is twice the delay. A phone that is behind gives a negative offset.
pub proof fn law_estimate_is_exact(t0: u64, t1: u64, t2: u64, t3: u64, delay: int, ahead: int)
    requires
        delay >= 0,
        2 * delay <= u64::MAX,
        i64::MIN <= ahead <= i64::MAX,
        t1 == t0 + delay + ahead,
        t3 == t2 - ahead + delay,
    ensures
        estimate_of(t0, t1, t2, t3).offset_us == ahead,
        estimate_of(t0, t1, t2, t3).rtt_us == 2 * delay,
{
}

/// The round trip is the time between sending and receiving on the host without the time that the
/// phone held the message, each taken on its own clock, and zero if that would be negative.
pub proof fn law_round_trip_leaves_out_the_hold(t0: u64, t1: u64, t2: u64, t3: u64)
    ensures
        ({
            let travel = (t3 - t0) - (t2 - t1);
            &&& travel <= 0 ==> estimate_of(t0, t1, t2, t3).rtt_us == 0
            &&& 0 <= travel <= u64::MAX ==> estimate_of(t0, t1, t2, t3).rtt_us == travel
        }),
{
}

/// The offset is half of what the two directions suggest together. Half a microsecond is dropped,
/// so that turning the two clocks around turns the sign and nothing else.
pub proof fn law_offset_is_the_mean(t0: u64, t1: u64, t2: u64, t3: u64)
    requires
        -0x1_0000_0000_0000_0000 < (t1 - t0) + (t2 - t3) < 0x1_0000_0000_0000_0000,
    ensures
        ({
            let both = (t1 - t0) + (t2 - t3);
            let o = estimate_of(t0, t1, t2, t3).offset_us;
            &&& both >= 0 ==> 2 * o <= both <= 2 * o + 1
            &&& both <= 0 ==> 2 * o - 1 <= both <= 2 * o
            &&& estimate_of(t1, t0, t3, t2).offset_us == -o
        }),
{
}

} // verus!
