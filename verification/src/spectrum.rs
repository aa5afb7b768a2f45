//! How a spectrum's frequency bins are divided among its bands.
//!
//! Pitch is logarithmic, so equal-width bands would spend most of their width
//! on the top octave and crush everything a listener hears as "the bass" into
//! the first bar. Band edges are therefore spaced logarithmically over the
//! usable bins: edge `i` of `b` bands over `usable` bins sits at
//! `(usable + 1)^(i / b)`, rounded down. Bin 0 is DC and carries no pitch, so
//! edge zero is bin 1 and edge `b` is one past the last usable bin.
//!
//! Logarithmic spacing alone would put the first several edges on the same bin,
//! because a transform's bins are spaced linearly and the bottom of the
//! spectrum is where the log curve is flattest. Each edge is therefore forced
//! at least one bin past the one before it, which makes the lowest bands one
//! bin wide.
//!
//! The power is decided exactly, on unbounded integers: `k` is at most
//! `n^(i / b)` precisely when `k^b <= n^i`.

use crate::bignat::BigNat;
use vstd::arithmetic::power::*;
use vstd::prelude::*;

verus! {

/// Whether `k` is at most `n^(i / b)`, that is whether `k^b <= n^i`.
pub open spec fn within_power(k: int, n: int, i: nat, b: nat) -> bool {
    pow(k, b) <= pow(n, i)
}

/// The largest `k` in `1..=top` with `k^b <= n^i`, or 1 when none above 1 is.
pub open spec fn largest_root_from(n: int, i: nat, b: nat, top: int) -> int
    decreases top,
{
    if top <= 1 {
        1
    } else if within_power(top, n, i, b) {
        top
    } else {
        largest_root_from(n, i, b, top - 1)
    }
}

/// `n^(i / b)` rounded down, and never more than `n`.
pub open spec fn log_floor(n: int, i: nat, b: nat) -> int {
    largest_root_from(n, i, b, n)
}

/// The first bin of band `index` of `band_count`, spaced logarithmically over
/// `usable` bins and forced at least one bin past the edge before it.
///
/// With no bands at all, edge zero is bin 1 and every later edge is one past
/// the last usable bin.
pub open spec fn spec_band_edge(usable: int, band_count: int, index: int) -> int {
    let n = usable + 1;
    let logarithmic = if band_count == 0 {
        if index == 0 {
            1
        } else {
            n
        }
    } else {
        log_floor(n, index as nat, band_count as nat)
    };
    let lifted = if logarithmic > index + 1 {
        logarithmic
    } else {
        index + 1
    };
    if lifted < 1 {
        1
    } else if lifted > n {
        n
    } else {
        lifted
    }
}

/// The half-open range of bins band `index` reads from a spectrum of
/// `spectrum_len` bins, of which bin 0 is DC.
///
/// The range runs from the band's edge to the next band's edge, but always
/// covers at least one bin and never runs past the spectrum.
pub open spec fn spec_band_bins(spectrum_len: int, band_count: int, index: int) -> (int, int) {
    let usable = spectrum_len - 1;
    let start = spec_band_edge(usable, band_count, index);
    let next = spec_band_edge(usable, band_count, index + 1);
    let end = if next > start + 1 {
        next
    } else {
        start + 1
    };
    (
        start,
        if end < spectrum_len {
            end
        } else {
            spectrum_len
        },
    )
}

/// Raising to a power keeps the order of natural numbers.
pub proof fn lemma_pow_base_le(x: int, y: int, e: nat)
    requires
        0 <= x <= y,
    ensures
        0 <= pow(x, e) <= pow(y, e),
    decreases e,
{
    reveal(pow);
    if e > 0 {
        lemma_pow_base_le(x, y, (e - 1) as nat);
        let px = pow(x, (e - 1) as nat);
        let py = pow(y, (e - 1) as nat);
        assert(0 <= x * px <= y * py) by (nonlinear_arith)
            requires
                0 <= x <= y,
                0 <= px <= py,
        ;
    }
}

/// Raising to a positive power keeps the strict order of natural numbers.
pub proof fn lemma_pow_base_lt(x: int, y: int, e: nat)
    requires
        0 <= x < y,
        e >= 1,
    ensures
        pow(x, e) < pow(y, e),
    decreases e,
{
    reveal(pow);
    if e == 1 {
        lemma_pow1(x);
        lemma_pow1(y);
    } else {
        lemma_pow_base_lt(x, y, (e - 1) as nat);
        lemma_pow_base_le(x, x, (e - 1) as nat);
        let px = pow(x, (e - 1) as nat);
        let py = pow(y, (e - 1) as nat);
        assert(x * px < y * py) by (nonlinear_arith)
            requires
                0 <= x < y,
                0 <= px < py,
        ;
    }
}

/// What [`largest_root_from`] finds: a `k` in range with `k^b <= n^i`, above
/// which no `k` up to `top` has it.
pub proof fn lemma_largest_root_from(n: int, i: nat, b: nat, top: int)
    requires
        n >= 1,
        top >= 1,
    ensures
        1 <= largest_root_from(n, i, b, top) <= top,
        within_power(largest_root_from(n, i, b, top), n, i, b),
        forall|k: int|
            largest_root_from(n, i, b, top) < k <= top ==> !#[trigger] within_power(k, n, i, b),
    decreases top,
{
    if top <= 1 {
        lemma1_pow(b);
        lemma_pow_positive(n, i);
    } else if !within_power(top, n, i, b) {
        lemma_largest_root_from(n, i, b, top - 1);
    }
}

/// A `k` in range with `k^b <= n^i` and none above it up to `top` is what
/// [`largest_root_from`] finds.
pub proof fn lemma_largest_root_is(n: int, i: nat, b: nat, top: int, k: int)
    requires
        1 <= k <= top,
        within_power(k, n, i, b),
        forall|j: int| k < j <= top ==> !#[trigger] within_power(j, n, i, b),
    ensures
        largest_root_from(n, i, b, top) == k,
    decreases top,
{
    if top > k {
        assert(!within_power(top, n, i, b));
        lemma_largest_root_is(n, i, b, top - 1, k);
    }
}

/// A `k` up to `n` with `k^b <= n^i` is at most `n^(i / b)` rounded down.
pub proof fn lemma_log_floor_at_least(n: int, i: nat, b: nat, k: int)
    requires
        1 <= k <= n,
        within_power(k, n, i, b),
    ensures
        log_floor(n, i, b) >= k,
{
    lemma_largest_root_from(n, i, b, n);
    if log_floor(n, i, b) < k {
        assert(!within_power(k, n, i, b));
    }
}

/// From `i >= b` on, the power reaches `n` itself.
pub proof fn lemma_log_floor_full(n: int, i: nat, b: nat)
    requires
        n >= 1,
        b <= i,
    ensures
        log_floor(n, i, b) == n,
{
    lemma_pow_increases(n as nat, b, i);
    lemma_largest_root_from(n, i, b, n);
    lemma_log_floor_at_least(n, i, b, n);
}

/// Bernoulli's inequality in integers: `(m+1)^j (m+1-j) <= m^j (m+1)`.
proof fn lemma_bernoulli(m: int, j: nat)
    requires
        m >= 1,
        j <= m + 1,
    ensures
        pow(m + 1, j) * (m + 1 - j) <= pow(m, j) * (m + 1),
    decreases j,
{
    reveal(pow);
    if j == 0 {
        lemma_pow0(m + 1);
        lemma_pow0(m);
    } else {
        let k = (j - 1) as nat;
        lemma_bernoulli(m, k);
        lemma_pow_base_le(m, m + 1, k);
        let a = pow(m + 1, k);
        let c = pow(m, k);
        assert(pow(m + 1, j) == (m + 1) * a);
        assert(pow(m, j) == m * c);
        assert(a * (m - k) * (m + 1) <= a * m * (m + 1 - k)) by (nonlinear_arith)
            requires
                a >= 0,
                k >= 0,
                m - k >= 0,
        ;
        assert(a * m * (m + 1 - k) <= c * (m + 1) * m) by (nonlinear_arith)
            requires
                a * (m + 1 - k) <= c * (m + 1),
                m >= 1,
        ;
        assert((m + 1) * a * (m + 1 - j) <= m * c * (m + 1)) by (nonlinear_arith)
            requires
                a * (m - k) * (m + 1) <= c * (m + 1) * m,
                j == k + 1,
        ;
    }
}

/// One more bin past a root that already clears the diagonal still fits
/// under the next power: `(m+1)^i <= m^(i+1)` once `m >= i + 2`.
proof fn lemma_next_base_power(m: int, i: nat)
    requires
        m >= i + 2,
    ensures
        pow(m + 1, i) <= pow(m, i + 1),
{
    reveal(pow);
    lemma_bernoulli(m, i);
    lemma_pow_base_le(m, m + 1, i);
    lemma_pow_base_le(0, m, i);
    let p = pow(m + 1, i);
    let q = pow(m, i);
    assert(pow(m, i + 1) == m * q);
    assert(p <= m * q) by (nonlinear_arith)
        requires
            p * (m + 1 - i) <= q * (m + 1),
            m + 1 - i >= 3,
            p >= 0,
            q >= 0,
            m >= 2,
    ;
}

/// If `m >= i + 2` is at most `n^(i / b)`, then `m + 1` is at most
/// `n^((i + 1) / b)`: above the diagonal, the logarithmic edges grow by more
/// than a bin per band.
proof fn lemma_next_root(n: int, i: nat, b: nat, m: int)
    requires
        n >= 1,
        b >= 1,
        m >= i + 2,
        within_power(m, n, i, b),
    ensures
        within_power(m + 1, n, i + 1, b),
{
    lemma_pow_increases(m as nat, 1, b);
    lemma_pow1(m);
    if i == 0 {
        lemma_pow0(n);
        assert(false);
    } else {
        lemma_next_base_power(m, i);
        lemma_pow_base_le(0, m + 1, i);
        lemma_pow_base_le(pow(m + 1, i), pow(m, i + 1), b);
        lemma_pow_multiplies(m + 1, i, b);
        lemma_pow_multiplies(m, i + 1, b);
        lemma_pow_base_le(0, m, b);
        lemma_pow_base_le(pow(m, b), pow(n, i), i + 1);
        lemma_pow_multiplies(m, b, i + 1);
        lemma_pow_multiplies(n, i, i + 1);
        lemma_pow_multiplies(n, i + 1, i);
        lemma_pow_multiplies(m + 1, b, i);
        assert((i + 1) * b == b * (i + 1)) by (nonlinear_arith);
        assert(i * (i + 1) == (i + 1) * i) by (nonlinear_arith);
        assert(i * b == b * i) by (nonlinear_arith);
        // ((m+1)^b)^i <= (n^(i+1))^i, and raising to the i-th power keeps order.
        lemma_pow_base_le(0, m + 1, b);
        lemma_pow_base_le(0, n, i + 1);
        if pow(m + 1, b) > pow(n, i + 1) {
            lemma_pow_base_lt(pow(n, i + 1), pow(m + 1, b), i);
        }
    }
}

/// Properties of the root search and the edge built from it, for one index.
proof fn lemma_edge_parts(usable: int, band_count: int, index: int)
    requires
        usable >= 0,
        band_count >= 1,
        index >= 0,
    ensures
        1 <= log_floor(usable + 1, index as nat, band_count as nat) <= usable + 1,
        within_power(
            log_floor(usable + 1, index as nat, band_count as nat),
            usable + 1,
            index as nat,
            band_count as nat,
        ),
        1 <= spec_band_edge(usable, band_count, index) <= usable + 1,
{
    lemma_largest_root_from(usable + 1, index as nat, band_count as nat, usable + 1);
}

/// Edge zero of a nonempty spectrum is bin 1, the first bin past DC.
pub proof fn lemma_first_band_edge(usable: int, band_count: int)
    requires
        usable >= 0,
        band_count >= 1,
    ensures
        spec_band_edge(usable, band_count, 0) == 1,
{
    let n = usable + 1;
    let b = band_count as nat;
    lemma_edge_parts(usable, band_count, 0);
    let r = log_floor(n, 0, b);
    lemma_pow0(n);
    if r >= 2 {
        lemma_pow_increases(r as nat, 1, b);
        lemma_pow1(r);
    }
}

/// The last edge of a spectrum is one past its last usable bin.
pub proof fn lemma_last_band_edge(usable: int, band_count: int)
    requires
        usable >= 0,
        band_count >= 1,
    ensures
        spec_band_edge(usable, band_count, band_count) == usable + 1,
{
    lemma_log_floor_full(usable + 1, band_count as nat, band_count as nat);
}

/// Band edges never go back, and each edge short of the end of the spectrum
/// lies at least one bin before the next one.
pub proof fn lemma_band_edges_increase(usable: int, band_count: int, index: int)
    requires
        usable >= 0,
        band_count >= 1,
        0 <= index < band_count,
    ensures
        spec_band_edge(usable, band_count, index) <= spec_band_edge(usable, band_count, index + 1),
        spec_band_edge(usable, band_count, index) < usable + 1 ==> spec_band_edge(
            usable,
            band_count,
            index,
        ) < spec_band_edge(usable, band_count, index + 1),
{
    let n = usable + 1;
    let b = band_count as nat;
    let i = index as nat;
    lemma_edge_parts(usable, band_count, index);
    lemma_edge_parts(usable, band_count, index + 1);
    let li = log_floor(n, i, b);
    let lj = log_floor(n, i + 1, b);
    // The root for `index` still fits one power up.
    lemma_pow_increases(n as nat, i, i + 1);
    lemma_log_floor_at_least(n, i + 1, b, li);
    if spec_band_edge(usable, band_count, index) < n && li >= index + 2 {
        lemma_next_root(n, i, b, li);
        lemma_log_floor_at_least(n, i + 1, b, li + 1);
    }
}

/// With no more bands than usable bins, the band ranges tile the usable
/// spectrum: the first starts at bin 1, each ends where the next starts, each
/// covers at least one bin, and the last ends at the end of the spectrum.
pub proof fn lemma_band_bins_tile(spectrum_len: int, band_count: int)
    requires
        1 <= band_count < spectrum_len,
    ensures
        spec_band_bins(spectrum_len, band_count, 0).0 == 1,
        spec_band_bins(spectrum_len, band_count, band_count - 1).1 == spectrum_len,
        forall|index: int|
            0 <= index < band_count ==> #[trigger] spec_band_bins(spectrum_len, band_count, index).0
                < spec_band_bins(spectrum_len, band_count, index).1,
        forall|index: int|
            0 <= index < band_count - 1 ==> #[trigger] spec_band_bins(
                spectrum_len,
                band_count,
                index,
            ).1 == spec_band_bins(spectrum_len, band_count, index + 1).0,
{
    let usable = spectrum_len - 1;
    assert forall|index: int| 0 <= index < band_count implies spec_band_bins(
        spectrum_len,
        band_count,
        index,
    ) == (spec_band_edge(usable, band_count, index), spec_band_edge(
        usable,
        band_count,
        index + 1,
    )) && spec_band_edge(usable, band_count, index) < spec_band_edge(
        usable,
        band_count,
        index + 1,
    ) by {
        lemma_band_bin_is_edge_range(spectrum_len, band_count, index);
    }
    lemma_first_band_edge(usable, band_count);
    lemma_last_band_edge(usable, band_count);
    assert(spec_band_bins(spectrum_len, band_count, band_count - 1) == (
        spec_band_edge(usable, band_count, band_count - 1),
        spec_band_edge(usable, band_count, band_count),
    ));
}

/// Below the end of the spectrum, a band's bins run exactly from its edge to
/// the next.
proof fn lemma_band_bin_is_edge_range(spectrum_len: int, band_count: int, index: int)
    requires
        1 <= band_count < spectrum_len,
        0 <= index < band_count,
    ensures
        spec_band_edge(spectrum_len - 1, band_count, index) < spec_band_edge(
            spectrum_len - 1,
            band_count,
            index + 1,
        ),
        spec_band_bins(spectrum_len, band_count, index) == (
            spec_band_edge(spectrum_len - 1, band_count, index),
            spec_band_edge(spectrum_len - 1, band_count, index + 1),
        ),
{
    let usable = spectrum_len - 1;
    let n = spectrum_len;
    let b = band_count as nat;
    let i = index as nat;
    lemma_edge_parts(usable, band_count, index);
    lemma_edge_parts(usable, band_count, index + 1);
    // `n` itself does not fit below the top power, so the root stays below it.
    lemma_largest_root_from(n, i, b, n);
    lemma_pow_strictly_increases(n as nat, i, b);
    assert(!within_power(n, n, i, b));
    lemma_band_edges_increase(usable, band_count, index);
}

/// What an edge is, in terms of the power it rounds: edge `i` of `b` bands
/// over `usable` bins is a bin of the spectrum, at least `i + 1` unless it is
/// the last bin's end; when it is past `i + 1` it is at most
/// `(usable + 1)^(i / b)`, i.e. `edge^b <= (usable + 1)^i`; below the end of the
/// spectrum, the bin after it is already past that power; and it stops at the
/// end only when the power or `i + 1` reaches it.
pub proof fn lemma_band_edge_rounds_power(usable: int, band_count: int, index: int)
    requires
        usable >= 0,
        band_count >= 1,
        index >= 0,
    ensures
        1 <= spec_band_edge(usable, band_count, index) <= usable + 1,
        spec_band_edge(usable, band_count, index) < usable + 1 ==> spec_band_edge(
            usable,
            band_count,
            index,
        ) >= index + 1,
        spec_band_edge(usable, band_count, index) > index + 1 ==> pow(
            spec_band_edge(usable, band_count, index),
            band_count as nat,
        ) <= pow(usable + 1, index as nat),
        spec_band_edge(usable, band_count, index) < usable + 1 ==> pow(
            spec_band_edge(usable, band_count, index) + 1,
            band_count as nat,
        ) > pow(usable + 1, index as nat),
        spec_band_edge(usable, band_count, index) == usable + 1 ==> index + 1 >= usable + 1 || pow(
            usable + 1,
            band_count as nat,
        ) <= pow(usable + 1, index as nat),
{
    let n = usable + 1;
    let b = band_count as nat;
    let i = index as nat;
    lemma_largest_root_from(n, i, b, n);
    let e = spec_band_edge(usable, band_count, index);
    if e < n {
        assert(!within_power(e + 1, n, i, b));
    }
}

/// With no bands, edge zero is bin 1 and every later edge is one past the last
/// usable bin.
pub proof fn lemma_band_edge_without_bands(usable: int, index: int)
    requires
        usable >= 0,
        index >= 0,
    ensures
        spec_band_edge(usable, 0, index) == if index == 0 {
            1
        } else {
            usable + 1
        },
{
}

/// A band's bins start at its edge, never run past the spectrum, cover at
/// least one bin when the edge is inside the spectrum, and end at the next
/// edge unless that would leave the band empty or run past the spectrum.
pub proof fn lemma_band_bins_follow_edges(spectrum_len: int, band_count: int, index: int)
    requires
        spectrum_len >= 1,
        band_count >= 0,
        index >= 0,
    ensures
        spec_band_bins(spectrum_len, band_count, index).0 == spec_band_edge(
            spectrum_len - 1,
            band_count,
            index,
        ),
        spec_band_bins(spectrum_len, band_count, index).0 <= spec_band_bins(
            spectrum_len,
            band_count,
            index,
        ).1 <= spectrum_len,
        spec_band_bins(spectrum_len, band_count, index).0 < spectrum_len ==> spec_band_bins(
            spectrum_len,
            band_count,
            index,
        ).0 < spec_band_bins(spectrum_len, band_count, index).1,
        spec_band_edge(spectrum_len - 1, band_count, index) < spec_band_edge(
            spectrum_len - 1,
            band_count,
            index + 1,
        ) ==> spec_band_bins(spectrum_len, band_count, index).1 == spec_band_edge(
            spectrum_len - 1,
            band_count,
            index + 1,
        ),
{
    if band_count >= 1 {
        lemma_edge_parts(spectrum_len - 1, band_count, index);
        lemma_edge_parts(spectrum_len - 1, band_count, index + 1);
    }
}

/// The largest `k` up to `n` with `k^b <= n^index`, found by bisection.
fn largest_root(n: usize, index: usize, band_count: usize) -> (k: usize)
    requires
        n >= 1,
        band_count >= 1,
    ensures
        k == log_floor(n as int, index as nat, band_count as nat),
{
    let ghost i = index as nat;
    let ghost b = band_count as nat;
    let target = BigNat::pow_u64(n as u64, index);
    assert((n as u64) as int == n as int);
    let mut lo: usize = 1;
    let mut hi: usize = n;
    proof {
        lemma1_pow(b);
        lemma_pow_positive(n as int, i);
    }
    while lo < hi
        invariant
            1 <= lo <= hi <= n,
            i == index as nat,
            b == band_count as nat,
            target.value() == pow(n as int, i),
            within_power(lo as int, n as int, i, b),
            forall|k: int| hi < k <= n ==> !#[trigger] within_power(k, n as int, i, b),
        decreases hi - lo,
    {
        let mid = lo + (hi - lo + 1) / 2;
        let power = BigNat::pow_u64(mid as u64, band_count);
        assert((mid as u64) as int == mid as int);
        if power.le(&target) {
            lo = mid;
        } else {
            proof {
                assert forall|k: int| mid - 1 < k <= n implies !#[trigger] within_power(
                    k,
                    n as int,
                    i,
                    b,
                ) by {
                    lemma_pow_base_le(mid as int, k, b);
                }
            }
            hi = mid - 1;
        }
    }
    proof {
        lemma_largest_root_is(n as int, i, b, n as int, lo as int);
    }
    lo
}

/// The first bin of band `index` out of `band_count`, spaced logarithmically
/// over `usable` bins.
///
/// Edge zero is bin 1 and edge `band_count` is one past the last usable bin,
/// so the edges bound every band as a half-open range; each edge is forced at
/// least one bin past the one before it.
pub fn band_edge(usable: usize, band_count: usize, index: usize) -> (edge: usize)
    requires
        usable < usize::MAX,
        index < usize::MAX,
    ensures
        edge == spec_band_edge(usable as int, band_count as int, index as int),
        1 <= edge <= usable + 1,
        band_count == 0 ==> edge == if index == 0 {
            1
        } else {
            usable + 1
        },
        band_count >= 1 && edge < usable + 1 ==> edge >= index + 1,
        band_count >= 1 && edge > index + 1 ==> pow(edge as int, band_count as nat) <= pow(
            usable + 1,
            index as nat,
        ),
        band_count >= 1 && edge < usable + 1 ==> pow(edge + 1, band_count as nat) > pow(
            usable + 1,
            index as nat,
        ),
        band_count >= 1 && edge == usable + 1 ==> index + 1 >= usable + 1 || pow(
            usable + 1,
            band_count as nat,
        ) <= pow(usable + 1, index as nat),
{
    proof {
        if band_count >= 1 {
            lemma_band_edge_rounds_power(usable as int, band_count as int, index as int);
        }
    }
    let n = usable + 1;
    let logarithmic: usize = if band_count == 0 {
        if index == 0 {
            1
        } else {
            n
        }
    } else if index >= band_count {
        proof {
            lemma_log_floor_full(n as int, index as nat, band_count as nat);
        }
        n
    } else {
        largest_root(n, index, band_count)
    };
    let lifted = if logarithmic > index + 1 {
        logarithmic
    } else {
        index + 1
    };
    if lifted < 1 {
        1
    } else if lifted > n {
        n
    } else {
        lifted
    }
}

/// The half-open range of bins that band `index` of `band_count` reads from a
/// spectrum of `spectrum_len` bins, bin 0 being DC.
pub fn band_bins(spectrum_len: usize, band_count: usize, index: usize) -> (bins: (usize, usize))
    requires
        1 <= spectrum_len < usize::MAX,
        index < usize::MAX - 1,
    ensures
        bins.0 == spec_band_bins(spectrum_len as int, band_count as int, index as int).0,
        bins.1 == spec_band_bins(spectrum_len as int, band_count as int, index as int).1,
        1 <= bins.0 <= bins.1 <= spectrum_len,
{
    let usable = spectrum_len - 1;
    let start = band_edge(usable, band_count, index);
    let next = band_edge(usable, band_count, index + 1);
    let end = if next > start + 1 {
        next
    } else {
        start + 1
    };
    (start, if end < spectrum_len {
        end
    } else {
        spectrum_len
    })
}

} // verus!
