//! Geometry of the metadata region: 512-byte sectors, each holding 496 bytes
//! of payload followed by a 16-byte trail footer.
use vstd::prelude::*;
use vstd::arithmetic::div_mod::{lemma_fundamental_div_mod, lemma_fundamental_div_mod_converse};

verus! {

pub const SECTOR_SIZE: u64 = 512;

pub const PAYLOAD_SIZE: u64 = 496;

pub const FOOTER_SIZE: u64 = 16;

/// Number of sectors, from sector 0, that make up the metadata region.
pub const METADATA_SPACE_SIZE: u64 = 10;

/// Accesses between two shifts of a freshly formatted table.
pub const DEFAULT_ACCESSES_PER_SHIFT: u64 = 500;

/// Sentinel stored in every well-formed table.
pub const MAGIC_IDENTIFIER: u64 = 0x8d2765dd2bc8bf74;

/// Physical offset of the `k`-th payload byte counted from the start of sector `s`.
pub open spec fn phys(s: int, k: int) -> int {
    s * 512 + (k / 496) * 512 + k % 496
}

/// Whether physical offset `x` is a payload byte at or after sector `s`.
pub open spec fn in_view(s: int, x: int) -> bool {
    x >= s * 512 && x % 512 < 496
}

/// Index, counted from the start of sector `s`, of the payload byte at physical offset `x`.
pub open spec fn logical(s: int, x: int) -> int {
    (x / 512 - s) * 496 + x % 512
}

/// Whether the payload bytes `[o, o + len)` counted from sector `s` all lie
/// inside a medium of `mlen` bytes.
pub open spec fn fits(mlen: int, s: int, o: int, len: int) -> bool {
    len == 0 || phys(s, o + len - 1) < mlen
}

/// Whether physical offset `x` lies in a trail footer.
pub open spec fn is_footer(x: int) -> bool {
    x % 512 >= 496
}

pub proof fn lemma_phys(s: int, k: int)
    requires
        s >= 0,
        k >= 0,
    ensures
        in_view(s, phys(s, k)),
        logical(s, phys(s, k)) == k,
        phys(s, k) % 512 == k % 496,
        phys(s, k) >= k,
        phys(s, k) >= s * 512,
{
    let q = k / 496;
    let r = k % 496;
    lemma_fundamental_div_mod(k, 496);
    assert(q >= 0) by (nonlinear_arith)
        requires k >= 0, k == 496 * q + r, 0 <= r < 496;
    let x = phys(s, k);
    assert(x == (s + q) * 512 + r) by (nonlinear_arith)
        requires x == s * 512 + q * 512 + r;
    lemma_fundamental_div_mod_converse(x, 512, s + q, r);
    assert(x >= k) by (nonlinear_arith)
        requires x == (s + q) * 512 + r, k == 496 * q + r, q >= 0, s >= 0;
    assert(x >= s * 512) by (nonlinear_arith)
        requires x == (s + q) * 512 + r, q >= 0, r >= 0;
    assert(logical(s, x) == k) by (nonlinear_arith)
        requires x / 512 == s + q, x % 512 == r, k == 496 * q + r, logical(s, x) == (x / 512 - s) * 496 + x % 512;
}

pub proof fn lemma_logical(s: int, x: int)
    requires
        s >= 0,
        in_view(s, x),
    ensures
        logical(s, x) >= 0,
        phys(s, logical(s, x)) == x,
{
    lemma_fundamental_div_mod(x, 512);
    let a = x / 512 - s;
    let r = x % 512;
    assert(a >= 0) by (nonlinear_arith)
        requires x >= s * 512, x == 512 * (x / 512) + r, 0 <= r < 512, a == x / 512 - s;
    let k = logical(s, x);
    assert(k == a * 496 + r);
    assert(k >= 0) by (nonlinear_arith)
        requires k == a * 496 + r, a >= 0, r >= 0;
    lemma_fundamental_div_mod_converse(k, 496, a, r);
    assert(phys(s, k) == x) by (nonlinear_arith)
        requires phys(s, k) == s * 512 + (k / 496) * 512 + k % 496, k / 496 == a, k % 496 == r,
            x == 512 * (x / 512) + r, a == x / 512 - s;
}

pub proof fn lemma_phys_next(s: int, k: int)
    requires
        s >= 0,
        k >= 0,
    ensures
        phys(s, k + 1) == if k % 496 == 495 { phys(s, k) + 17 } else { phys(s, k) + 1 },
        (phys(s, k) + 1) % 512 == 496 <==> k % 496 == 495,
{
    let q = k / 496;
    let r = k % 496;
    lemma_fundamental_div_mod(k, 496);
    lemma_phys(s, k);
    lemma_fundamental_div_mod(phys(s, k), 512);
    lemma_fundamental_div_mod_converse(phys(s, k) + 1, 512, phys(s, k) / 512, r + 1);
    if r == 495 {
        lemma_fundamental_div_mod_converse(k + 1, 496, q + 1, 0);
        assert(phys(s, k + 1) == phys(s, k) + 17) by (nonlinear_arith)
            requires phys(s, k + 1) == s * 512 + (q + 1) * 512 + 0, phys(s, k) == s * 512 + q * 512 + 495;
    } else {
        lemma_fundamental_div_mod_converse(k + 1, 496, q, r + 1);
    }
}

pub proof fn lemma_phys_monotone(s: int, k1: int, k2: int)
    requires
        s >= 0,
        0 <= k1 <= k2,
    ensures
        phys(s, k1) <= phys(s, k2),
        k1 < k2 ==> phys(s, k1) < phys(s, k2),
{
    lemma_fundamental_div_mod(k1, 496);
    lemma_fundamental_div_mod(k2, 496);
    let q1 = k1 / 496;
    let q2 = k2 / 496;
    let r1 = k1 % 496;
    let r2 = k2 % 496;
    assert(q1 <= q2) by (nonlinear_arith)
        requires k1 == 496 * q1 + r1, k2 == 496 * q2 + r2, 0 <= r1 < 496, 0 <= r2 < 496, k1 <= k2;
    if q1 == q2 {
    } else {
        assert(phys(s, k1) < phys(s, k2)) by (nonlinear_arith)
            requires q1 < q2, 0 <= r1 < 496, 0 <= r2,
                phys(s, k1) == s * 512 + q1 * 512 + r1, phys(s, k2) == s * 512 + q2 * 512 + r2;
    }
}

/// A record of `len` payload bytes that spans at most `units` sectors from
/// sector `s` lies before physical offset `(s + units) * 512`.
pub proof fn lemma_fits_in_units(s: int, units: int, len: int, mlen: int)
    requires
        s >= 0,
        0 < len <= units * 496,
        (s + units) * 512 <= mlen,
    ensures
        fits(mlen, s, 0, len),
{
    let k = len - 1;
    lemma_fundamental_div_mod(k, 496);
    assert(k / 496 <= units - 1) by (nonlinear_arith)
        requires k == 496 * (k / 496) + k % 496, 0 <= k % 496 < 496, k < units * 496;
    assert(phys(s, k) < (s + units) * 512) by (nonlinear_arith)
        requires phys(s, k) == s * 512 + (k / 496) * 512 + k % 496, k / 496 <= units - 1, k % 496 < 496;
}

} // verus!
