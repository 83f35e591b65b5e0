//! The proxy's counters and how they are shown.

use vstd::prelude::*;

use crate::proxy::text;
use crate::proxy::text::{decimal_text, signed_decimal_text};

verus! {

/// What the proxy has counted since it started. A counter that overflows wraps around.
#[derive(Debug, Clone, Copy)]
pub struct Stats {
    pub connections_total: u64,
    pub connections_active: i64,
    pub connections_ws: u64,
    pub connections_tcp_fallback: u64,
    pub connections_cfproxy: u64,
    pub connections_bad: u64,
    pub connections_masked: u64,
    pub ws_errors: u64,
    pub bytes_up: u64,
    pub bytes_down: u64,
    pub pool_hits: u64,
    pub pool_misses: u64,
    pub cf_pool_hits: u64,
    pub cf_pool_misses: u64,
}

/// All counters at zero.
pub open spec fn zero_stats() -> Stats {
    Stats {
        connections_total: 0,
        connections_active: 0,
        connections_ws: 0,
        connections_tcp_fallback: 0,
        connections_cfproxy: 0,
        connections_bad: 0,
        connections_masked: 0,
        ws_errors: 0,
        bytes_up: 0,
        bytes_down: 0,
        pool_hits: 0,
        pool_misses: 0,
        cf_pool_hits: 0,
        cf_pool_misses: 0,
    }
}

impl Default for Stats {
    fn default() -> (stats: Self)
        ensures
            stats == zero_stats(),
    {
        Self::new()
    }
}

/// The share of hits among all requests to a pool, `n/a` before the first request.
pub open spec fn pool_share(hits: u64, misses: u64) -> Seq<char> {
    if hits + misses > 0 {
        text::decimal(hits as nat) + "/"@ + text::decimal((hits + misses) as nat)
    } else {
        "n/a"@
    }
}

fn pool_share_text(hits: u64, misses: u64) -> (out: String)
    requires
        hits + misses <= u64::MAX,
    ensures
        out@ == pool_share(hits, misses),
{
    let total: u64 = hits + misses;
    if total > 0 {
        let mut out = decimal_text(hits);
        out.append("/");
        out.append(decimal_text(total).as_str());
        out
    } else {
        "n/a".to_owned()
    }
}

impl Stats {
    /// All counters at zero.
    pub fn new() -> (stats: Self)
        ensures
            stats == zero_stats(),
    {
        Stats {
            connections_total: 0,
            connections_active: 0,
            connections_ws: 0,
            connections_tcp_fallback: 0,
            connections_cfproxy: 0,
            connections_bad: 0,
            connections_masked: 0,
            ws_errors: 0,
            bytes_up: 0,
            bytes_down: 0,
            pool_hits: 0,
            pool_misses: 0,
            cf_pool_hits: 0,
            cf_pool_misses: 0,
        }
    }

    /// The line that shows all counters.
    pub open spec fn summary_line(self) -> Seq<char> {
        "total="@ + text::decimal(self.connections_total as nat) + " active="@
            + text::signed_decimal(self.connections_active as int) + " ws="@ + text::decimal(
            self.connections_ws as nat,
        ) + " tcp_fb="@ + text::decimal(self.connections_tcp_fallback as nat) + " cf="@
            + text::decimal(self.connections_cfproxy as nat) + " bad="@ + text::decimal(
            self.connections_bad as nat,
        ) + " masked="@ + text::decimal(self.connections_masked as nat) + " err="@
            + text::decimal(self.ws_errors as nat) + " pool="@ + pool_share(
            self.pool_hits,
            self.pool_misses,
        ) + " cf_pool="@ + pool_share(self.cf_pool_hits, self.cf_pool_misses) + " up="@
            + human_size(self.bytes_up as nat) + " down="@ + human_size(self.bytes_down as nat)
    }

    /// Shows all counters in one line.
    pub fn summary(&self) -> (out: String)
        requires
            self.pool_hits + self.pool_misses <= u64::MAX,
            self.cf_pool_hits + self.cf_pool_misses <= u64::MAX,
        ensures
            out@ == self.summary_line(),
    {
        let mut out = "total=".to_owned();
        out.append(decimal_text(self.connections_total).as_str());
        out.append(" active=");
        out.append(signed_decimal_text(self.connections_active).as_str());
        out.append(" ws=");
        out.append(decimal_text(self.connections_ws).as_str());
        out.append(" tcp_fb=");
        out.append(decimal_text(self.connections_tcp_fallback).as_str());
        out.append(" cf=");
        out.append(decimal_text(self.connections_cfproxy).as_str());
        out.append(" bad=");
        out.append(decimal_text(self.connections_bad).as_str());
        out.append(" masked=");
        out.append(decimal_text(self.connections_masked).as_str());
        out.append(" err=");
        out.append(decimal_text(self.ws_errors).as_str());
        out.append(" pool=");
        out.append(pool_share_text(self.pool_hits, self.pool_misses).as_str());
        out.append(" cf_pool=");
        out.append(pool_share_text(self.cf_pool_hits, self.cf_pool_misses).as_str());
        out.append(" up=");
        out.append(human_bytes(self.bytes_up).as_str());
        out.append(" down=");
        out.append(human_bytes(self.bytes_down).as_str());
        out
    }

    /// Counts a connection that has been accepted.
    pub fn connection_opened(&mut self)
        ensures
            *final(self) == (Stats {
                connections_total: old(self).connections_total.wrapping_add(1),
                connections_active: old(self).connections_active.wrapping_add(1),
                ..*old(self)
            }),
    {
        self.connections_total = self.connections_total.wrapping_add(1);
        self.connections_active = self.connections_active.wrapping_add(1);
    }

    /// Counts a connection that has ended.
    pub fn connection_closed(&mut self)
        ensures
            *final(self) == (Stats {
                connections_active: old(self).connections_active.wrapping_sub(1),
                ..*old(self)
            }),
    {
        self.connections_active = self.connections_active.wrapping_sub(1);
    }

    /// Counts a connection that has been passed on to the masking domain.
    pub fn connection_masked(&mut self)
        ensures
            *final(self) == (Stats {
                connections_masked: old(self).connections_masked.wrapping_add(1),
                ..*old(self)
            }),
    {
        self.connections_masked = self.connections_masked.wrapping_add(1);
    }
}

/// `a / d` to the nearest whole number, and to the even one of two that are as near.
pub open spec fn rounded_quotient(a: nat, d: nat) -> nat {
    let q = a / d;
    let r = a % d;
    if 2 * r < d || (2 * r == d && q % 2 == 0) {
        q
    } else {
        q + 1
    }
}

/// The distance between the double-precision numbers around `n`.
pub open spec fn double_step(n: nat) -> nat
    decreases n,
{
    if n < 0x20_0000_0000_0000 {
        1
    } else {
        2 * double_step(n / 2)
    }
}

/// The double-precision number nearest to `n`.
pub open spec fn nearest_double(n: nat) -> nat {
    double_step(n) * rounded_quotient(n, double_step(n))
}

/// A number of tenths with one digit behind the point.
pub open spec fn tenths_text(tenths: nat) -> Seq<char> {
    text::decimal(tenths / 10) + "."@ + text::decimal(tenths % 10)
}

/// `size` bytes in units of `unit` bytes, with one digit behind the point.
pub open spec fn in_unit(size: nat, unit: nat, name: Seq<char>) -> Seq<char> {
    tenths_text(rounded_quotient(10 * size, unit)) + name
}

/// A number of bytes in the largest unit that it fills. From 1024 TB on the number counts units
/// of 1024 TB.
pub open spec fn human_size(n: nat) -> Seq<char> {
    if n < 0x400 {
        in_unit(n, 1, "B"@)
    } else if n < 0x10_0000 {
        in_unit(n, 0x400, "KB"@)
    } else if n < 0x4000_0000 {
        in_unit(n, 0x10_0000, "MB"@)
    } else if n < 0x100_0000_0000 {
        in_unit(n, 0x4000_0000, "GB"@)
    } else if n < 0x4_0000_0000_0000 {
        in_unit(n, 0x100_0000_0000, "TB"@)
    } else {
        in_unit(nearest_double(n), 0x4_0000_0000_0000, "TB"@)
    }
}

fn divide_rounded(a: u128, d: u128) -> (q: u128)
    requires
        0 < d < 0x1_0000_0000_0000_0000,
        a < 0x100_0000_0000_0000_0000,
    ensures
        q == rounded_quotient(a as nat, d as nat),
        q <= a / d + 1,
{
    let q: u128 = a / d;
    let r: u128 = a % d;
    proof {
        assert(q <= a) by (nonlinear_arith)
            requires
                d > 0,
                q == a / d,
        ;
    }
    if 2 * r < d || (2 * r == d && q % 2 == 0) {
        q
    } else {
        q + 1
    }
}

/// The double-precision number nearest to `n`.
fn round_to_double(n: u64) -> (out: u128)
    ensures
        out == nearest_double(n as nat),
        out <= 0x2_0000_0000_0000_0000,
{
    let mut step: u128 = 1;
    let mut m: u64 = n;
    while m >= 0x20_0000_0000_0000
        invariant
            double_step(n as nat) == step * double_step(m as nat),
            m as int * step <= n < (m + 1) * step,
            step >= 1,
            step == 1 || m >= 0x10_0000_0000_0000,
            step <= 0x1000,
        decreases m,
    {
        proof {
            let half = (m / 2) as int;
            assert(step * (2 * double_step(half as nat)) == (step * 2) * double_step(half as nat))
                by (nonlinear_arith);
            assert(half * (step * 2) <= m * step) by (nonlinear_arith)
                requires
                    half * 2 <= m,
                    step >= 1,
            ;
            assert((m + 1) * step <= (half + 1) * (step * 2)) by (nonlinear_arith)
                requires
                    m + 1 <= 2 * (half + 1),
                    step >= 1,
            ;
            assert(step <= 0x800) by (nonlinear_arith)
                requires
                    m >= 0x20_0000_0000_0000,
                    m as int * step <= n,
                    n <= 0xffff_ffff_ffff_ffff,
            ;
        }
        m = m / 2;
        step = step * 2;
    }
    assert(double_step(m as nat) == 1);
    assert(step * 1 == step);
    let q = divide_rounded(n as u128, step);
    proof {
        assert(q <= 0x20_0000_0000_0000) by (nonlinear_arith)
            requires
                q <= n as u128 / step + 1,
                n < (m + 1) * step,
                m < 0x20_0000_0000_0000,
                step >= 1,
        ;
    }
    assert(step * q <= 0x1000 * 0x20_0000_0000_0000) by (nonlinear_arith)
        requires
            step <= 0x1000,
            q <= 0x20_0000_0000_0000,
    ;
    step * q
}

/// Writes `size` bytes in units of `unit` bytes.
fn size_in_unit(size: u128, unit: u128, name: &str) -> (out: String)
    requires
        size <= 0x2_0000_0000_0000_0000,
        0 < unit <= 0x4_0000_0000_0000,
        size < 0x1_0000_0000 * unit,
    ensures
        out@ == in_unit(size as nat, unit as nat, name@),
{
    let tenths: u128 = divide_rounded(10 * size, unit);
    proof {
        assert(tenths <= 10 * 0x1_0000_0000 + 1) by (nonlinear_arith)
            requires
                tenths <= (10 * size) as u128 / unit + 1,
                size < 0x1_0000_0000 * unit,
                unit > 0,
                size <= 0x2_0000_0000_0000_0000,
        ;
    }
    let shown: u64 = tenths as u64;
    let mut out = decimal_text(shown / 10);
    out.append(".");
    out.append(decimal_text(shown % 10).as_str());
    out.append(name);
    out
}

/// Shows a number of bytes in the largest unit that it fills.
pub fn human_bytes(n: u64) -> (out: String)
    ensures
        out@ == human_size(n as nat),
{
    let size: u128 = n as u128;
    if n < 0x400 {
        size_in_unit(size, 1, "B")
    } else if n < 0x10_0000 {
        size_in_unit(size, 0x400, "KB")
    } else if n < 0x4000_0000 {
        size_in_unit(size, 0x10_0000, "MB")
    } else if n < 0x100_0000_0000 {
        size_in_unit(size, 0x4000_0000, "GB")
    } else if n < 0x4_0000_0000_0000 {
        size_in_unit(size, 0x100_0000_0000, "TB")
    } else {
        size_in_unit(round_to_double(n), 0x4_0000_0000_0000, "TB")
    }
}

/// Rounding to the nearest whole number: no other is nearer, and of two that are as near the even
/// one is taken.
pub proof fn law_rounded_to_nearest(a: nat, d: nat)
    requires
        d > 0,
    ensures
        ({
            let q = rounded_quotient(a, d);
            &&& 2 * (a - q * d) <= d
            &&& 2 * (q * d - a) <= d
            &&& 2 * (a - q * d) == d || 2 * (q * d - a) == d ==> q % 2 == 0
        }),
{
    let q = a / d;
    let r = a % d;
    assert(a == q * d + r && 0 <= r < d) by (nonlinear_arith)
        requires
            d > 0,
            q == a / d,
            r == a % d,
    ;
    assert((q + 1) * d == q * d + d) by (nonlinear_arith);
}

/// The distance between double-precision numbers: their 53 binary digits are all there are, so
/// from 2 to the power of 53 on a number is at least 2 to the power of 52 times that distance and
/// below 2 to the power of 53 times it. The distance is a power of two.
pub proof fn law_double_step(n: nat)
    ensures
        n < 9007199254740992 ==> double_step(n) == 1,
        n >= 9007199254740992 ==> 4503599627370496 * double_step(n) <= n < 9007199254740992
            * double_step(n),
        exists|k: nat| double_step(n) == #[trigger] vstd::arithmetic::power2::pow2(k),
    decreases n,
{
    if n < 0x20_0000_0000_0000 {
        vstd::arithmetic::power2::lemma2_to64();
        assert(vstd::arithmetic::power2::pow2(0) == 1);
    } else {
        law_double_step(n / 2);
        let k = choose|k: nat|
            double_step(n / 2) == #[trigger] vstd::arithmetic::power2::pow2(k);
        vstd::arithmetic::power2::lemma_pow2_unfold(k + 1);
        assert(double_step(n) == vstd::arithmetic::power2::pow2(k + 1));
    }
}

/// A number of bytes is shown in the largest unit that it fills, from B to TB, each 1024 times the
/// one before it, in tenths of that unit, rounded, with one digit behind the point.
pub proof fn law_human_size(n: nat)
    ensures
        n < 1024 ==> human_size(n) == tenths_text(10 * n) + "B"@,
        1024 <= n < 1048576 ==> human_size(n) == tenths_text(rounded_quotient(10 * n, 1024))
            + "KB"@,
        1048576 <= n < 1073741824 ==> human_size(n) == tenths_text(
            rounded_quotient(10 * n, 1048576),
        ) + "MB"@,
        1073741824 <= n < 1099511627776 ==> human_size(n) == tenths_text(
            rounded_quotient(10 * n, 1073741824),
        ) + "GB"@,
        1099511627776 <= n < 1125899906842624 ==> human_size(n) == tenths_text(
            rounded_quotient(10 * n, 1099511627776),
        ) + "TB"@,
        1125899906842624 <= n < 9007199254740992 ==> human_size(n) == tenths_text(
            rounded_quotient(10 * n, 1125899906842624),
        ) + "TB"@,
        9007199254740992 <= n ==> human_size(n) == tenths_text(
            rounded_quotient(
                10 * (double_step(n) * rounded_quotient(n, double_step(n))),
                1125899906842624,
            ),
        ) + "TB"@,
{
    assert(rounded_quotient(10 * n, 1) == 10 * n);
    law_double_step(n);
    if n < 9007199254740992 {
        assert(rounded_quotient(n, 1) == n);
        assert(1 * rounded_quotient(n, 1) == n);
    }
}

/// Tenths are shown as whole ones, a point, and one digit.
pub proof fn law_tenths(whole: nat, tenth: nat)
    requires
        tenth < 10,
    ensures
        tenths_text(10 * whole + tenth) == text::decimal(whole) + "."@ + text::decimal(tenth),
{
    let t = 10 * whole + tenth;
    assert(t / 10 == whole && t % 10 == tenth);
}

/// The share of hits: the hits and all requests, or that there were none.
pub proof fn law_pool_share(hits: u64, misses: u64)
    ensures
        hits == 0 && misses == 0 ==> pool_share(hits, misses) == "n/a"@,
        hits > 0 || misses > 0 ==> pool_share(hits, misses) == text::decimal(hits as nat) + "/"@
            + text::decimal((hits + misses) as nat),
{
}

/// The line of all counters names each of them and shows it in its place.
pub proof fn law_summary_line(s: Stats)
    ensures
        s.summary_line() == "total="@ + text::decimal(s.connections_total as nat) + " active="@
            + text::signed_decimal(s.connections_active as int) + " ws="@ + text::decimal(
            s.connections_ws as nat,
        ) + " tcp_fb="@ + text::decimal(s.connections_tcp_fallback as nat) + " cf="@
            + text::decimal(s.connections_cfproxy as nat) + " bad="@ + text::decimal(
            s.connections_bad as nat,
        ) + " masked="@ + text::decimal(s.connections_masked as nat) + " err="@ + text::decimal(
            s.ws_errors as nat,
        ) + " pool="@ + pool_share(s.pool_hits, s.pool_misses) + " cf_pool="@ + pool_share(
            s.cf_pool_hits,
            s.cf_pool_misses,
        ) + " up="@ + human_size(s.bytes_up as nat) + " down="@ + human_size(s.bytes_down as nat),
{
}

/// Nothing is counted at the start.
pub proof fn law_counters_start_at_zero()
    ensures
        ({
            let s = zero_stats();
            &&& s.connections_total == 0 && s.connections_active == 0 && s.connections_ws == 0
            &&& s.connections_tcp_fallback == 0 && s.connections_cfproxy == 0
            &&& s.connections_bad == 0 && s.connections_masked == 0 && s.ws_errors == 0
            &&& s.bytes_up == 0 && s.bytes_down == 0 && s.pool_hits == 0 && s.pool_misses == 0
            &&& s.cf_pool_hits == 0 && s.cf_pool_misses == 0
        }),
{
}

} // verus!
