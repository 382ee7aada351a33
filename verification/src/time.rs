//! Instants and spans of time, in nanoseconds.

use vstd::prelude::*;

verus! {

/// An instant: nanoseconds since the Unix epoch, negative before it.
#[derive(Clone, Copy, Debug, PartialEq, Eq, Structural, Hash)]
pub struct Time {
    pub nanos: i128,
}

/// A span of time, in nanoseconds.
#[derive(Clone, Copy, Debug, PartialEq, Eq, Structural, Hash)]
pub struct Span {
    pub nanos: u128,
}

impl Span {
    /// The empty span.
    pub fn zero() -> (d: Span)
        ensures
            d.nanos == 0,
    {
        Span { nanos: 0 }
    }

    pub fn from_secs(secs: u64) -> (d: Span)
        ensures
            d.nanos == secs * 1_000_000_000,
    {
        Span { nanos: secs as u128 * 1_000_000_000 }
    }

    pub fn is_zero(&self) -> (r: bool)
        ensures
            r == (self.nanos == 0),
    {
        self.nanos == 0
    }
}

impl Time {
    /// The Unix epoch.
    pub fn epoch() -> (t: Time)
        ensures
            t.nanos == 0,
    {
        Time { nanos: 0 }
    }

    /// The instant `secs` seconds after the Unix epoch.
    pub fn from_secs(secs: u64) -> (t: Time)
        ensures
            t.nanos == secs * 1_000_000_000,
    {
        Time { nanos: secs as i128 * 1_000_000_000 }
    }

    /// Whether this instant lies before `other`.
    pub fn before(&self, other: Time) -> (r: bool)
        ensures
            r == (self.nanos < other.nanos),
    {
        self.nanos < other.nanos
    }

    /// The instant `d` earlier, unless it lies before the earliest instant.
    pub fn checked_sub(&self, d: Span) -> (r: Option<Time>)
        ensures
            r == (if self.nanos - d.nanos < i128::MIN {
                None::<Time>
            } else {
                Some(Time { nanos: (self.nanos - d.nanos) as i128 })
            }),
    {
        if self.nanos >= 0 && d.nanos <= self.nanos as u128 {
            return Some(Time { nanos: self.nanos - d.nanos as i128 });
        }
        // How far the result lies before the epoch.
        let limit: u128 = magnitude(i128::MIN);
        let past: u128 = if self.nanos >= 0 {
            d.nanos - self.nanos as u128
        } else {
            let m = magnitude(self.nanos);
            if d.nanos > limit - m {
                return None;
            }
            d.nanos + m
        };
        if past > limit {
            return None;
        }
        if past == 0 {
            return Some(Time { nanos: 0 });
        }
        Some(Time { nanos: -((past - 1) as i128) - 1 })
    }

    /// How much later this instant is than `earlier`; `None` where it is not.
    pub fn duration_since(&self, earlier: Time) -> (r: Option<Span>)
        ensures
            match r {
                Some(d) => self.nanos >= earlier.nanos && d.nanos == self.nanos - earlier.nanos,
                None => self.nanos < earlier.nanos,
            },
    {
        if self.nanos < earlier.nanos {
            return None;
        }
        let d: u128 = if earlier.nanos >= 0 {
            (self.nanos - earlier.nanos) as u128
        } else if self.nanos < 0 {
            (self.nanos - earlier.nanos) as u128
        } else {
            self.nanos as u128 + magnitude(earlier.nanos)
        };
        Some(Span { nanos: d })
    }
}

/// The size of a negative number.
fn magnitude(v: i128) -> (r: u128)
    requires
        v < 0,
    ensures
        r == -v,
{
    (-(v + 1)) as u128 + 1
}

/// The instant floored to a multiple of `interval` since the Unix epoch, in
/// nanoseconds; `now` itself for a zero interval.
pub open spec fn boundary(now: int, interval: nat) -> int {
    if interval == 0 {
        now
    } else {
        now - now % (interval as int)
    }
}

/// The most recent instant at or before `now` that is aligned to `interval`, if
/// it is not before the earliest instant; `now` unchanged for a zero interval.
pub fn checked_interval_boundary(now: Time, interval: Span) -> (r: Option<Time>)
    ensures
        match r {
            Some(t) => t.nanos == boundary(now.nanos as int, interval.nanos as nat),
            None => boundary(now.nanos as int, interval.nanos as nat) < i128::MIN,
        },
{
    let iv: u128 = interval.nanos;
    if iv == 0 {
        return Some(now);
    }
    if now.nanos >= 0 {
        let past: u128 = now.nanos as u128 % iv;
        return now.checked_sub(Span { nanos: past });
    }
    let m: u128 = magnitude(now.nanos);
    let over: u128 = m % iv;
    let past: u128 = if over == 0 {
        0
    } else {
        iv - over
    };
    proof {
        lemma_floor_below_zero(m as int, iv as int);
    }
    now.checked_sub(Span { nanos: past })
}

proof fn lemma_floor_below_zero(m: int, iv: int)
    requires
        m > 0,
        iv > 0,
    ensures
        (-m) % iv == (if m % iv == 0 {
            0
        } else {
            iv - m % iv
        }),
{
    let q = m / iv;
    let over = m % iv;
    vstd::arithmetic::div_mod::lemma_fundamental_div_mod(m, iv);
    vstd::arithmetic::div_mod::lemma_mod_bound(m, iv);
    assert(iv * q == q * iv) by (nonlinear_arith);
    if over == 0 {
        assert(-(q * iv) == (-q) * iv) by (nonlinear_arith);
        vstd::arithmetic::div_mod::lemma_fundamental_div_mod_converse(-m, iv, -q, 0);
    } else {
        assert(-(q * iv) - iv == (-q - 1) * iv) by (nonlinear_arith);
        vstd::arithmetic::div_mod::lemma_fundamental_div_mod_converse(-m, iv, -q - 1, iv - over);
    }
}

/// The most recent instant at or before `now` that is aligned to `interval` (a
/// multiple of it since the Unix epoch); `now` unchanged for a zero interval.
pub fn interval_boundary(now: Time, interval: Span) -> (t: Time)
    requires
        boundary(now.nanos as int, interval.nanos as nat) >= i128::MIN,
    ensures
        t.nanos == boundary(now.nanos as int, interval.nanos as nat),
        interval.nanos == 0 ==> t == now,
        interval.nanos > 0 ==> t.nanos <= now.nanos < t.nanos + interval.nanos && t.nanos as int % (
        interval.nanos as int) == 0,
{
    proof {
        if interval.nanos > 0 {
            lemma_boundary(now.nanos as int, interval.nanos as nat);
        }
    }
    match checked_interval_boundary(now, interval) {
        Some(t) => t,
        None => now,
    }
}

/// A boundary lies at or before the instant, less than one interval away, on a
/// multiple of the interval.
pub proof fn lemma_boundary(now: int, interval: nat)
    requires
        interval > 0,
    ensures
        boundary(now, interval) <= now < boundary(now, interval) + interval,
        boundary(now, interval) % (interval as int) == 0,
{
    let iv = interval as int;
    let q = now / iv;
    vstd::arithmetic::div_mod::lemma_fundamental_div_mod(now, iv);
    vstd::arithmetic::div_mod::lemma_mod_bound(now, iv);
    assert(iv * q == q * iv) by (nonlinear_arith);
    vstd::arithmetic::div_mod::lemma_fundamental_div_mod_converse(now - now % iv, iv, q, 0);
}

/// Boundaries do not move backwards as time moves on, and stay put between two
/// multiples of the interval.
pub proof fn lemma_boundary_monotonic(a: int, b: int, interval: nat)
    requires
        a <= b,
        interval > 0,
    ensures
        boundary(a, interval) <= boundary(b, interval),
        b < boundary(a, interval) + interval ==> boundary(b, interval) == boundary(a, interval),
{
    lemma_boundary(a, interval);
    lemma_boundary(b, interval);
    let iv = interval as int;
    let x = boundary(a, interval);
    let y = boundary(b, interval);
    assert(x / iv * iv == x && y / iv * iv == y) by (nonlinear_arith)
        requires
            x % iv == 0,
            y % iv == 0,
            iv > 0,
    ;
    let m = x / iv;
    let n = y / iv;
    if y < x {
        assert(n < m) by (nonlinear_arith)
            requires
                n * iv < m * iv,
                iv > 0,
        ;
        assert(n * iv + iv <= m * iv) by (nonlinear_arith)
            requires
                n < m,
                iv > 0,
        ;
    }
    if b < x + iv && y > x {
        assert(m < n) by (nonlinear_arith)
            requires
                m * iv < n * iv,
                iv > 0,
        ;
        assert(m * iv + iv <= n * iv) by (nonlinear_arith)
            requires
                m < n,
                iv > 0,
        ;
    }
}

/// A second is a thousand million nanoseconds, and time is counted from the epoch.
pub proof fn lemma_seconds(secs: u64, d: Span, t: Time, zero: Span, epoch: Time)
    requires
        call_ensures(Span::from_secs, (secs,), d),
        call_ensures(Time::from_secs, (secs,), t),
        call_ensures(Span::zero, (), zero),
        call_ensures(Time::epoch, (), epoch),
    ensures
        d.nanos == secs * 1_000_000_000,
        t.nanos == epoch.nanos + d.nanos,
        zero.nanos == 0,
        epoch.nanos == 0,
{
}

/// Going back by a span and asking how long ago that was gives the span; only what lies
/// before the earliest instant cannot be reached.
pub proof fn lemma_spans_and_instants(
    t: Time,
    d: Span,
    earlier: Option<Time>,
    u: Time,
    since: Option<Span>,
)
    requires
        call_ensures(Time::checked_sub, (&t, d), earlier),
        call_ensures(Time::duration_since, (&t, u), since),
    ensures
        earlier is None <==> t.nanos - d.nanos < i128::MIN,
        earlier matches Some(e) ==> e.nanos + d.nanos == t.nanos,
        since is None <==> t.nanos < u.nanos,
        since matches Some(s) ==> u.nanos + s.nanos == t.nanos,
        earlier == Some(u) ==> since == Some(d),
{
}

/// An instant is before another, and a span is empty, by their nanoseconds.
pub proof fn lemma_comparisons(a: Time, b: Time, d: Span, before: bool, empty: bool)
    requires
        call_ensures(Time::before, (&a, b), before),
        call_ensures(Span::is_zero, (&d,), empty),
    ensures
        before <==> a.nanos < b.nanos,
        empty <==> d.nanos == 0,
{
}

/// A boundary is the latest multiple of the interval that is not after `now`: there is
/// none between it and `now`. It is missing only where it lies before the earliest instant.
pub proof fn lemma_boundary_is_the_latest(
    now: Time,
    interval: Span,
    r: Option<Time>,
    k: int,
)
    requires
        interval.nanos > 0,
        call_ensures(checked_interval_boundary, (now, interval), r),
    ensures
        r matches Some(t) ==> {
            &&& t.nanos <= now.nanos
            &&& t.nanos as int % (interval.nanos as int) == 0
            &&& k * interval.nanos <= now.nanos ==> k * interval.nanos <= t.nanos
        },
        r is None && k * interval.nanos <= now.nanos ==> k * interval.nanos < i128::MIN,
{
    let iv = interval.nanos as int;
    let x = boundary(now.nanos as int, interval.nanos as nat);
    lemma_boundary(now.nanos as int, interval.nanos as nat);
    let m = x / iv;
    assert(m * iv == x) by (nonlinear_arith)
        requires
            m == x / iv,
            x % iv == 0,
            iv > 0,
    ;
    if k * iv <= now.nanos && k * iv > x {
        assert(k > m) by (nonlinear_arith)
            requires
                k * iv > m * iv,
                iv > 0,
        ;
        assert(k * iv >= m * iv + iv) by (nonlinear_arith)
            requires
                k > m,
                iv > 0,
        ;
    }
}

/// Without an interval the boundary is the instant itself.
pub proof fn lemma_no_interval(now: Time, interval: Span, r: Option<Time>)
    requires
        interval.nanos == 0,
        call_ensures(checked_interval_boundary, (now, interval), r),
    ensures
        r == Some(now),
{
}

/// Both forms of the boundary agree.
pub proof fn lemma_boundaries_agree(now: Time, interval: Span, r: Option<Time>, t: Time)
    requires
        boundary(now.nanos as int, interval.nanos as nat) >= i128::MIN,
        call_ensures(checked_interval_boundary, (now, interval), r),
        call_ensures(interval_boundary, (now, interval), t),
    ensures
        r == Some(t),
{
}

} // verus!
