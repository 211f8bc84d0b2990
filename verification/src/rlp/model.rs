//! Mathematical model of the canonical RLP encoding: minimal big-endian
//! integers, string encodings, and list headers. The decoder's and encoder's
//! contracts are both stated against these functions.

use vstd::prelude::*;

verus! {

/// The minimal big-endian byte representation of `n`: no leading zero bytes,
/// and the empty sequence for zero.
pub open spec fn be_bytes(n: nat) -> Seq<u8>
    decreases n,
{
    if n == 0 {
        Seq::empty()
    } else {
        be_bytes(n / 256).push((n % 256) as u8)
    }
}

/// The value read back from big-endian bytes.
pub open spec fn be_val(s: Seq<u8>) -> nat
    decreases s.len(),
{
    if s.len() == 0 {
        0
    } else {
        (be_val(s.drop_last()) * 256 + s.last()) as nat
    }
}

/// A canonical header: the short form packs the length into the tag byte,
/// the long form appends the minimal big-endian length.
pub open spec fn header_bytes(smalltag: u8, largetag: u8, len: nat) -> Seq<u8> {
    if len <= 55 {
        seq![(smalltag + len) as u8]
    } else {
        seq![(largetag + be_bytes(len).len()) as u8] + be_bytes(len)
    }
}

/// Header of a canonically encoded string of length `len` (absent for the
/// implicit single-byte form, which has no header).
pub open spec fn string_header(len: nat) -> Seq<u8> {
    header_bytes(0x80, 0xB7, len)
}

/// The canonical RLP encoding of a byte string.
pub open spec fn string_enc(payload: Seq<u8>) -> Seq<u8> {
    if payload.len() == 1 && payload[0] < 0x80 {
        payload
    } else {
        string_header(payload.len()) + payload
    }
}

/// Header of a canonically encoded list whose children occupy `len` bytes.
pub open spec fn list_header(len: nat) -> Seq<u8> {
    header_bytes(0xC0, 0xF7, len)
}

/// The canonical RLP encoding of a list with the given concatenated children.
pub open spec fn list_enc(payload: Seq<u8>) -> Seq<u8> {
    list_header(payload.len()) + payload
}

/// Number of bytes in the minimal big-endian form, directly.
pub open spec fn be_len(n: nat) -> nat {
    if n == 0 { 0 }
    else if n < 0x100 { 1 }
    else if n < 0x1_0000 { 2 }
    else if n < 0x100_0000 { 3 }
    else if n < 0x1_0000_0000 { 4 }
    else if n < 0x100_0000_0000 { 5 }
    else if n < 0x1_0000_0000_0000 { 6 }
    else if n < 0x100_0000_0000_0000 { 7 }
    else { 8 }
}

pub proof fn lemma_be_bytes_len(n: nat)
    requires
        n < 0x1_0000_0000_0000_0000,
    ensures
        be_bytes(n).len() == be_len(n),
    decreases n,
{
    if n > 0 {
        lemma_be_bytes_len(n / 256);
    }
}

/// Round trip: reading back the minimal big-endian bytes yields the value.
pub proof fn lemma_be_bytes_val(n: nat)
    ensures
        be_val(be_bytes(n)) == n,
    decreases n,
{
    if n != 0 {
        lemma_be_bytes_val(n / 256);
        assert(be_bytes(n).drop_last() =~= be_bytes(n / 256));
    }
}

/// The minimal big-endian bytes of a positive value never start with zero.
pub proof fn lemma_be_bytes_no_leading_zero(n: nat)
    requires
        n > 0,
    ensures
        be_bytes(n).len() > 0,
        be_bytes(n)[0] != 0,
    decreases n,
{
    if n / 256 > 0 {
        lemma_be_bytes_no_leading_zero(n / 256);
        assert(be_bytes(n)[0] == be_bytes(n / 256)[0]);
    } else {
        assert(be_bytes(0) =~= Seq::<u8>::empty());
        assert(be_bytes(n) =~= seq![(n % 256) as u8]);
        assert(n % 256 == n);
    }
}

/// Big-endian bytes with no leading zero are the minimal form of their value.
pub proof fn lemma_be_val_bytes(s: Seq<u8>)
    requires
        s.len() > 0 ==> s[0] != 0,
    ensures
        be_bytes(be_val(s)) == s,
    decreases s.len(),
{
    if s.len() > 0 {
        lemma_be_val_bytes(s.drop_last());
        let n = be_val(s);
        assert(n == be_val(s.drop_last()) * 256 + s.last());
        assert(n % 256 == s.last() && n / 256 == be_val(s.drop_last())) by (nonlinear_arith)
            requires
                n == be_val(s.drop_last()) * 256 + s.last(),
                0 <= s.last() < 256,
        ;
        if s.len() == 1 {
            assert(be_val(s.drop_last()) == 0);
            assert(n == s.last());
            assert(n != 0);
            assert(be_bytes(n) =~= s);
        } else {
            assert(s.drop_last()[0] == s[0]);
            assert(be_val(s.drop_last()) > 0) by {
                lemma_be_val_positive(s.drop_last());
            }
            assert(n > 0);
            assert(be_bytes(n) =~= be_bytes(be_val(s.drop_last())).push((n % 256) as u8));
            assert(be_bytes(n) =~= s.drop_last().push(s.last()));
            assert(s.drop_last().push(s.last()) =~= s);
        }
    }
}

/// A nonempty big-endian string with a nonzero first byte reads back positive.
pub proof fn lemma_be_val_positive(s: Seq<u8>)
    requires
        s.len() > 0,
        s[0] != 0,
    ensures
        be_val(s) >= 1,
        be_val(s) >= vstd::arithmetic::power::pow(256, (s.len() - 1) as nat),
    decreases s.len(),
{
    vstd::arithmetic::power::lemma_pow_positive(256, (s.len() - 1) as nat);
    if s.len() == 1 {
        assert(be_val(s) == be_val(s.drop_last()) * 256 + s.last());
        assert(vstd::arithmetic::power::pow(256, 0) == 1) by {
            vstd::arithmetic::power::lemma_pow0(256);
        }
    } else {
        let d = s.drop_last();
        assert(d[0] == s[0]);
        lemma_be_val_positive(d);
        let p = vstd::arithmetic::power::pow(256, (d.len() - 1) as nat);
        assert(vstd::arithmetic::power::pow(256, (s.len() - 1) as nat) == p * 256) by {
            vstd::arithmetic::power::lemma_pow1(256);
            vstd::arithmetic::power::lemma_pow_adds(256, (d.len() - 1) as nat, 1);
        }
        assert(be_val(s) == be_val(d) * 256 + s.last());
        assert(be_val(d) * 256 >= p * 256) by (nonlinear_arith)
            requires
                be_val(d) >= p,
        ;
    }
}

} // verus!
