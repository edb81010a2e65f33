//! The trail: a 128-bit counter in the footer of every sector of the metadata
//! region, increasing by one from sector to sector in circular order except
//! right after the sector that holds the table.
use vstd::prelude::*;
use crate::codec::{le_value, le_bytes, lemma_le_unique, lemma_le_round_trip, lemma_pow256_16, encode_u128, decode_u128};
use crate::layout::{is_footer, METADATA_SPACE_SIZE};
use crate::metadata_space::view_write;

verus! {

/// Number of sectors of the metadata region, as a mathematical integer.
pub open spec fn region() -> int {
    METADATA_SPACE_SIZE as int
}

/// The trail value stored in the footer of sector `i`.
pub open spec fn footer(m: Seq<u8>, i: int) -> nat {
    le_value(m.subrange(i * 512 + 496, i * 512 + 512))
}

/// The trail value of sector `i` while the table sits at sector `t` and its
/// footer holds `h`.
pub open spec fn trail_value(t: int, h: int, i: int) -> int {
    if i <= t {
        h - (t - i)
    } else {
        h + (i - t) - region()
    }
}

/// Whether the footers of the metadata region form the trail whose head is
/// sector `t`, holding the value `h`.
pub open spec fn trail_ok(m: Seq<u8>, t: int, h: int) -> bool {
    &&& m.len() >= region() * 512
    &&& 0 <= t < region()
    &&& h >= region() - 1
    &&& forall|i: int| 0 <= i < region() ==> #[trigger] footer(m, i) == trail_value(t, h, i)
}

/// The medium with the payload bytes of sector `i` set to zero.
pub open spec fn zeroed(m: Seq<u8>, i: int) -> Seq<u8> {
    Seq::new(m.len(), |x: int| if i * 512 <= x < i * 512 + 496 { 0u8 } else { m[x] })
}

/// The medium with the footer of sector `i` holding `v`.
pub open spec fn stamped(m: Seq<u8>, i: int, v: nat) -> Seq<u8> {
    Seq::new(m.len(), |x: int| if i * 512 + 496 <= x < i * 512 + 512 { le_bytes(v, 16)[x - i * 512 - 496] } else { m[x] })
}

pub proof fn lemma_footer_same(m1: Seq<u8>, m2: Seq<u8>, i: int)
    requires
        0 <= i,
        i * 512 + 512 <= m1.len(),
        i * 512 + 512 <= m2.len(),
        forall|x: int| i * 512 + 496 <= x < i * 512 + 512 ==> m1[x] == m2[x],
    ensures
        footer(m1, i) == footer(m2, i),
{
    assert(m1.subrange(i * 512 + 496, i * 512 + 512) =~= m2.subrange(i * 512 + 496, i * 512 + 512));
}

/// Zeroing a payload changes no footer.
pub proof fn lemma_footer_zeroed(m: Seq<u8>, i: int, j: int)
    requires
        0 <= j,
        j * 512 + 512 <= m.len(),
    ensures
        footer(zeroed(m, i), j) == footer(m, j),
{
    lemma_footer_same(zeroed(m, i), m, j);
}

/// Stamping sector `i` sets its footer and no other.
pub proof fn lemma_footer_stamped(m: Seq<u8>, i: int, v: nat, j: int)
    requires
        0 <= j,
        j * 512 + 512 <= m.len(),
        v < 0x1_0000_0000_0000_0000_0000_0000_0000_0000,
    ensures
        footer(stamped(m, i, v), j) == if j == i { v } else { footer(m, j) },
{
    if j == i {
        lemma_pow256_16();
        lemma_le_round_trip(v, 16);
        assert(stamped(m, i, v).subrange(i * 512 + 496, i * 512 + 512) =~= le_bytes(v, 16));
    } else {
        lemma_footer_same(stamped(m, i, v), m, j);
    }
}

/// A write through a sector view changes no footer.
pub proof fn lemma_footer_view_write(m: Seq<u8>, s: int, o: int, b: Seq<u8>, j: int)
    requires
        0 <= j,
        j * 512 + 512 <= m.len(),
    ensures
        footer(view_write(m, s, o, b), j) == footer(m, j),
{
    let w = view_write(m, s, o, b);
    assert forall|x: int| j * 512 + 496 <= x < j * 512 + 512 implies w[x] == m[x] by {
        assert(is_footer(x)) by (nonlinear_arith)
            requires j * 512 + 496 <= x < j * 512 + 512, is_footer(x) == (x % 512 >= 496);
    }
    lemma_footer_same(w, m, j);
}

/// The trail value in the footer of sector `i`.
pub fn read_footer(medium: &Vec<u8>, i: u64) -> (r: u128)
    requires
        i < METADATA_SPACE_SIZE,
        medium@.len() >= region() * 512,
    ensures
        r as nat == footer(medium@, i as int),
{
    let base: usize = (i * 512 + 496) as usize;
    let mut bytes: Vec<u8> = Vec::new();
    let mut k: usize = 0;
    while k < 16
        invariant
            base == i * 512 + 496,
            base + 16 <= medium@.len(),
            k <= 16,
            bytes@ == medium@.subrange(base as int, base + k),
        decreases 16 - k,
    {
        bytes.push(medium[base + k]);
        k = k + 1;
        proof {
            assert(bytes@ =~= medium@.subrange(base as int, base + k));
        }
    }
    decode_u128(bytes.as_slice())
}

/// Sets the footer of sector `i` to `v`.
pub fn write_footer(medium: &mut Vec<u8>, i: u64, v: u128)
    requires
        i < METADATA_SPACE_SIZE,
        old(medium)@.len() >= region() * 512,
    ensures
        final(medium)@ == stamped(old(medium)@, i as int, v as nat),
{
    let bytes = encode_u128(v);
    proof {
        lemma_le_unique(bytes@);
    }
    let ghost m0 = medium@;
    let base: usize = (i * 512 + 496) as usize;
    let mut k: usize = 0;
    while k < 16
        invariant
            base == i * 512 + 496,
            base + 16 <= m0.len(),
            bytes@ == le_bytes(v as nat, 16),
            bytes@.len() == 16,
            medium@.len() == m0.len(),
            k <= 16,
            forall|x: int| 0 <= x < m0.len() ==> medium@[x] == (if base <= x < base + k { bytes@[x - base] } else { m0[x] }),
        decreases 16 - k,
    {
        medium[base + k] = bytes[k];
        k = k + 1;
    }
    proof {
        assert(medium@ =~= stamped(m0, i as int, v as nat));
    }
}

/// Sets the payload bytes of sector `i` to zero.
pub fn zero_payload(medium: &mut Vec<u8>, i: u64)
    requires
        i < METADATA_SPACE_SIZE,
        old(medium)@.len() >= region() * 512,
    ensures
        final(medium)@ == zeroed(old(medium)@, i as int),
{
    let ghost m0 = medium@;
    let base: usize = (i * 512) as usize;
    let mut k: usize = 0;
    while k < 496
        invariant
            base == i * 512,
            base + 496 <= m0.len(),
            medium@.len() == m0.len(),
            k <= 496,
            forall|x: int| 0 <= x < m0.len() ==> medium@[x] == (if base <= x < base + k { 0u8 } else { m0[x] }),
        decreases 496 - k,
    {
        medium[base + k] = 0;
        k = k + 1;
    }
    proof {
        assert(medium@ =~= zeroed(m0, i as int));
    }
}

} // verus!
