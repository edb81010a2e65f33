//! Fixed-width little-endian integer encoding, as bincode's default
//! configuration lays integers out.
use vstd::prelude::*;
use vstd::arithmetic::div_mod::{lemma_fundamental_div_mod, lemma_fundamental_div_mod_converse};

verus! {

/// The unsigned integer whose little-endian byte sequence is `s`.
pub open spec fn le_value(s: Seq<u8>) -> nat
    decreases s.len(),
{
    if s.len() == 0 {
        0
    } else {
        s[0] as nat + 256 * le_value(s.drop_first())
    }
}

/// The `n` bytes, least significant first, of `v` taken modulo `256^n`.
pub open spec fn le_bytes(v: nat, n: nat) -> Seq<u8>
    decreases n,
{
    if n == 0 {
        Seq::empty()
    } else {
        seq![(v % 256) as u8] + le_bytes(v / 256, (n - 1) as nat)
    }
}

pub proof fn lemma_le_bytes_len(v: nat, n: nat)
    ensures
        le_bytes(v, n).len() == n,
    decreases n,
{
    if n > 0 {
        lemma_le_bytes_len(v / 256, (n - 1) as nat);
    }
}

pub open spec fn pow256(n: nat) -> nat
    decreases n,
{
    if n == 0 {
        1
    } else {
        256 * pow256((n - 1) as nat)
    }
}

/// A byte sequence is the little-endian encoding of its own value.
pub proof fn lemma_le_unique(s: Seq<u8>)
    ensures
        s == le_bytes(le_value(s), s.len()),
    decreases s.len(),
{
    if s.len() > 0 {
        let rest = s.drop_first();
        lemma_le_unique(rest);
        let v = le_value(s);
        lemma_fundamental_div_mod_converse(v as int, 256, le_value(rest) as int, s[0] as int);
        assert(s =~= seq![(v % 256) as u8] + le_bytes(v / 256, (s.len() - 1) as nat));
    }
}

/// Decoding `n` little-endian bytes gives back any value below `256^n`.
pub proof fn lemma_le_round_trip(v: nat, n: nat)
    requires
        v < pow256(n),
    ensures
        le_value(le_bytes(v, n)) == v,
        le_bytes(v, n).len() == n,
    decreases n,
{
    if n > 0 {
        lemma_fundamental_div_mod(v as int, 256);
        assert(v / 256 < pow256((n - 1) as nat)) by (nonlinear_arith)
            requires v < 256 * pow256((n - 1) as nat), v == 256 * (v / 256) + v % 256, v % 256 >= 0;
        lemma_le_round_trip(v / 256, (n - 1) as nat);
        let b = le_bytes(v, n);
        assert(b.drop_first() =~= le_bytes(v / 256, (n - 1) as nat));
    }
}

pub proof fn lemma_pow256_8()
    ensures
        pow256(8) == 0x1_0000_0000_0000_0000,
{
    reveal_with_fuel(pow256, 9);
}

pub proof fn lemma_pow256_16()
    ensures
        pow256(16) == 0x1_0000_0000_0000_0000_0000_0000_0000_0000,
{
    reveal_with_fuel(pow256, 17);
}

/// Relies on `bincode::serialize` for a `u64`: with the legacy configuration
/// (fixed-width integers, little endian, no size limit) it writes exactly eight
/// bytes, least significant first, and writing into a `Vec` cannot fail.
#[verifier::external_body]
pub(crate) fn encode_u64(v: u64) -> (r: Vec<u8>)
    ensures
        r@.len() == 8,
        le_value(r@) == v as nat,
{
    bincode::serialize(&v).unwrap()
}

/// Relies on `bincode::deserialize` for a `u64`: it reads the first eight bytes
/// of the slice as a little-endian integer and fails only on a shorter slice.
#[verifier::external_body]
pub(crate) fn decode_u64(b: &[u8]) -> (r: u64)
    requires
        b@.len() == 8,
    ensures
        r as nat == le_value(b@),
{
    bincode::deserialize::<u64>(b).unwrap()
}

/// Relies on `bincode::serialize` for a `u128`: with the legacy configuration
/// (fixed-width integers, little endian, no size limit) it writes exactly
/// sixteen bytes, least significant first, and writing into a `Vec` cannot fail.
#[verifier::external_body]
pub(crate) fn encode_u128(v: u128) -> (r: Vec<u8>)
    ensures
        r@.len() == 16,
        le_value(r@) == v as nat,
{
    bincode::serialize(&v).unwrap()
}

/// Relies on `bincode::deserialize` for a `u128`: it reads the first sixteen
/// bytes of the slice as a little-endian integer and fails only on a shorter
/// slice.
#[verifier::external_body]
pub(crate) fn decode_u128(b: &[u8]) -> (r: u128)
    requires
        b@.len() == 16,
    ensures
        r as nat == le_value(b@),
{
    bincode::deserialize::<u128>(b).unwrap()
}

} // verus!
