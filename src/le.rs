//! Little-endian encodings of fixed-width integers.
use byteorder::{ByteOrder, LittleEndian};
use vstd::prelude::*;

verus! {

/// The lowest `width` bytes of `n`, least significant first.
pub open spec fn le_bytes(n: nat, width: nat) -> Seq<u8>
    decreases width,
{
    if width == 0 {
        Seq::empty()
    } else {
        seq![(n % 256) as u8] + le_bytes(n / 256, (width - 1) as nat)
    }
}

/// The number whose `width` bytes, least significant first, begin `b`.
pub open spec fn read_le(b: Seq<u8>, width: nat) -> nat
    decreases width,
{
    if width == 0 || b.len() == 0 {
        0
    } else {
        (b[0] as nat + 256 * read_le(b.drop_first(), (width - 1) as nat)) as nat
    }
}

pub open spec fn pow256(width: nat) -> nat
    decreases width,
{
    if width == 0 {
        1
    } else {
        256 * pow256((width - 1) as nat)
    }
}

pub proof fn lemma_pow256_values()
    ensures
        pow256(2) == 65536,
        pow256(4) == 4294967296,
        pow256(8) == 18446744073709551616,
{
    assert(pow256(0) == 1);
    assert(pow256(1) == 256);
    assert(pow256(2) == 65536);
    assert(pow256(3) == 16777216);
    assert(pow256(4) == 4294967296);
    assert(pow256(5) == 1099511627776);
    assert(pow256(6) == 281474976710656);
    assert(pow256(7) == 72057594037927936);
    assert(pow256(8) == 18446744073709551616);
}

/// The two bytes of `n`, least significant first.
pub open spec fn le16(n: u16) -> Seq<u8> {
    le_bytes(n as nat, 2)
}

/// The four bytes of `n`, least significant first.
pub open spec fn le32(n: u32) -> Seq<u8> {
    le_bytes(n as nat, 4)
}

/// The eight bytes of `n`, least significant first.
pub open spec fn le64(n: nat) -> Seq<u8> {
    le_bytes(n, 8)
}

/// The two's-complement bytes of `n`, least significant first.
pub open spec fn le_i16(n: i16) -> Seq<u8> {
    le16(n as u16)
}

pub proof fn lemma_le_bytes_len(n: nat, width: nat)
    ensures
        le_bytes(n, width).len() == width,
    decreases width,
{
    if width > 0 {
        lemma_le_bytes_len(n / 256, (width - 1) as nat);
    }
}

/// Reading back the bytes of a number that fits them gives the number.
pub proof fn lemma_read_le_bytes(n: nat, width: nat)
    requires
        n < pow256(width),
    ensures
        read_le(le_bytes(n, width), width) == n,
    decreases width,
{
    if width > 0 {
        let w1 = (width - 1) as nat;
        let q = n / 256;
        assert(q < pow256(w1)) by (nonlinear_arith)
            requires
                n < 256 * pow256(w1),
                q == n / 256,
        ;
        lemma_read_le_bytes(q, w1);
        lemma_le_bytes_len(q, w1);
        let b = le_bytes(n, width);
        assert(b.drop_first() =~= le_bytes(q, w1));
        assert(n == (n % 256) + 256 * q) by (nonlinear_arith)
            requires
                q == n / 256,
        ;
    }
}

/// Relies on byteorder's `LittleEndian::write_u16`: it stores the two bytes of
/// `n`, least significant first.
#[verifier::external_body]
pub(crate) fn u16_bytes(n: u16) -> (r: Vec<u8>)
    ensures
        r@ == le16(n),
{
    let mut b = vec![0u8; 2];
    LittleEndian::write_u16(&mut b, n);
    b
}

/// Relies on byteorder's `LittleEndian::write_u32`: it stores the four bytes of
/// `n`, least significant first.
#[verifier::external_body]
pub(crate) fn u32_bytes(n: u32) -> (r: Vec<u8>)
    ensures
        r@ == le32(n),
{
    let mut b = vec![0u8; 4];
    LittleEndian::write_u32(&mut b, n);
    b
}

/// Relies on byteorder's `LittleEndian::write_i16`: it stores the two's-complement
/// bytes of `n`, least significant first.
#[verifier::external_body]
pub(crate) fn i16_bytes(n: i16) -> (r: Vec<u8>)
    ensures
        r@ == le_i16(n),
{
    let mut b = vec![0u8; 2];
    LittleEndian::write_i16(&mut b, n);
    b
}

} // verus!
