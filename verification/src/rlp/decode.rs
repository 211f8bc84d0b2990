//! The strict RLP decoder. It rejects every non-canonical form: a single-byte
//! string that should have used the implicit form, a long length below 56,
//! length bytes with a leading zero, and any length past the end of the
//! buffer.

use vstd::prelude::*;
use vstd::slice::slice_subrange;

use crate::rlp::model::{
    be_bytes, be_val, lemma_be_bytes_len, lemma_be_bytes_no_leading_zero, lemma_be_bytes_val,
    lemma_be_val_bytes, lemma_be_val_positive, list_enc, string_enc,
};

verus! {

/// The kind of the first RLP value in a buffer.
#[derive(Clone, Copy, PartialEq, Eq, Structural, Debug)]
pub enum Kind {
    Byte,
    String,
    List,
}

/// What `read_size` accepts: at least `slen` bytes, read big-endian, no
/// leading zero, and a value that demands the long form.
pub open spec fn read_size_spec(b: Seq<u8>, slen: int) -> Option<int> {
    if b.len() < slen {
        None
    } else {
        let s = be_val(b.take(slen)) as int;
        if s < 56 || b[0] == 0 {
            None
        } else {
            Some(s)
        }
    }
}

/// What `read_kind` accepts: the kind, tag size and content size of the
/// first value, or nothing where the head is non-canonical.
pub open spec fn read_kind_spec(b: Seq<u8>) -> Option<(Kind, int, int)> {
    if b.len() == 0 {
        None
    } else if b[0] < 0x80 {
        Some((Kind::Byte, 0, 1))
    } else if b[0] < 0xB8 {
        // Reject strings that should have been single bytes.
        if b[0] == 0x81 && b.len() > 1 && b[1] < 0x80 {
            None
        } else {
            Some((Kind::String, 1, b[0] - 0x80))
        }
    } else if b[0] < 0xC0 {
        match read_size_spec(b.skip(1), b[0] - 0xB7) {
            Some(s) => Some((Kind::String, 1 + (b[0] - 0xB7), s)),
            None => None,
        }
    } else if b[0] < 0xF8 {
        Some((Kind::List, 1, b[0] - 0xC0))
    } else {
        match read_size_spec(b.skip(1), b[0] - 0xF7) {
            Some(s) => Some((Kind::List, 1 + (b[0] - 0xF7), s)),
            None => None,
        }
    }
}

/// What `split` returns: the kind, content and remainder of the first value.
pub open spec fn split_spec(b: Seq<u8>) -> Option<(Kind, Seq<u8>, Seq<u8>)> {
    match read_kind_spec(b) {
        None => None,
        Some((k, ts, cs)) => if ts + cs <= b.len() {
            Some((k, b.subrange(ts, ts + cs), b.skip(ts + cs)))
        } else {
            None
        },
    }
}

/// Number of encoded values that exactly fill the buffer, or nothing if the
/// buffer is not a sequence of well-formed values.
pub open spec fn count_values_spec(b: Seq<u8>) -> Option<int>
    decreases b.len(),
{
    if b.len() == 0 {
        Some(0)
    } else {
        match read_kind_spec(b) {
            None => None,
            Some((k, ts, cs)) => if ts + cs < 1 || ts + cs > b.len() {
                None
            } else {
                match count_values_spec(b.skip(ts + cs)) {
                    None => None,
                    Some(n) => Some(n + 1),
                }
            },
        }
    }
}

/// Reads a big-endian length of `slen` bytes, rejecting lengths below 56
/// (which belong in the short form) and leading zero bytes.
fn read_size(b: &[u8], slen: u8) -> (r: Result<u64, ()>)
    requires
        1 <= slen <= 8,
    ensures
        match read_size_spec(b@, slen as int) {
            Some(s) => 0 <= s <= u64::MAX && r == Ok::<u64, ()>(s as u64),
            None => r.is_err(),
        },
{
    if (b.len() as u64) < slen as u64 {
        return Err(());
    }
    let mut s: u64 = 0;
    let mut i: usize = 0;
    while i < slen as usize
        invariant
            i <= slen <= 8,
            b@.len() >= slen,
            s == be_val(b@.take(i as int)),
            s < pow_of_256(i as nat),
        decreases slen - i,
    {
        let byte: u64 = b[i] as u64;
        proof {
            lemma_pow_of_256_step(i as nat);
            assert(s < 0x100_0000_0000_0000);
            assert((s << 8) == s * 256 && ((s << 8) | byte) == s * 256 + byte) by (bit_vector)
                requires
                    s < 0x100_0000_0000_0000 && byte < 0x100,
            ;
            assert(b@.take(i + 1).drop_last() =~= b@.take(i as int));
            assert(b@.take(i + 1).last() == b@[i as int]);
        }
        s = (s << 8) | byte;
        i = i + 1;
    }
    proof {
        assert(b@.take(slen as int) == b@.take(i as int));
    }
    // Reject sizes < 56 (no separate size needed) and leading zero bytes.
    if s < 56 || b[0] == 0 {
        return Err(());
    }
    Ok(s)
}

/// 256 to the power `k`, for the byte-length bounds of `u64` values.
pub open spec fn pow_of_256(k: nat) -> int {
    if k == 0 { 1 }
    else if k == 1 { 0x100 }
    else if k == 2 { 0x1_0000 }
    else if k == 3 { 0x100_0000 }
    else if k == 4 { 0x1_0000_0000 }
    else if k == 5 { 0x100_0000_0000 }
    else if k == 6 { 0x1_0000_0000_0000 }
    else if k == 7 { 0x100_0000_0000_0000 }
    else { 0x1_0000_0000_0000_0000 }
}

proof fn lemma_pow_of_256_step(k: nat)
    requires
        k <= 7,
    ensures
        pow_of_256(k) * 256 <= pow_of_256((k + 1) as nat),
{
}

/// Reads the kind tag of the first value: its kind, the size of the tag
/// itself, and the size of the content.
fn read_kind(buff: &[u8]) -> (r: Result<(Kind, u64, u64), ()>)
    ensures
        match read_kind_spec(buff@) {
            Some((k, ts, cs)) => r == Ok::<(Kind, u64, u64), ()>((k, ts as u64, cs as u64))
                && 0 <= ts <= 9 && 0 <= cs <= u64::MAX && 1 <= ts + cs,
            None => r.is_err(),
        },
{
    if buff.len() == 0 {
        return Err(());
    }
    let b = buff[0];
    if b < 0x80 {
        Ok((Kind::Byte, 0, 1))
    } else if b < 0xB8 {
        let contentsize = (b - 0x80) as u64;
        // Reject strings that should've been single bytes.
        if contentsize == 1 && buff.len() > 1 && buff[1] < 128 {
            return Err(());
        }
        Ok((Kind::String, 1, contentsize))
    } else if b < 0xC0 {
        let tail = slice_subrange(buff, 1, buff.len());
        proof {
            assert(tail@ =~= buff@.skip(1));
        }
        let contentsize = read_size(tail, b - 0xB7)?;
        assert(read_size_spec(buff@.skip(1), (b - 0xB7) as int) == Some(contentsize as int));
        Ok((Kind::String, (b - 0xB7 + 1) as u64, contentsize))
    } else if b < 0xF8 {
        Ok((Kind::List, 1, (b - 0xC0) as u64))
    } else {
        let tail = slice_subrange(buff, 1, buff.len());
        proof {
            assert(tail@ =~= buff@.skip(1));
        }
        let contentsize = read_size(tail, b - 0xF7)?;
        assert(read_size_spec(buff@.skip(1), (b - 0xF7) as int) == Some(contentsize as int));
        Ok((Kind::List, (b - 0xF7 + 1) as u64, contentsize))
    }
}

/// Parses the first RLP value and returns it with any remaining data.
pub(crate) fn split(buff: &[u8]) -> (r: Result<(Kind, &[u8], &[u8]), ()>)
    ensures
        match split_spec(buff@) {
            Some((k, c, rest)) => match r {
                Ok((rk, rc, rr)) => rk == k && rc@ == c && rr@ == rest,
                Err(_) => false,
            },
            None => r.is_err(),
        },
{
    let (k, ts, cs) = read_kind(buff)?;
    let len = buff.len() as u64;
    if ts > len || cs > len - ts {
        return Err(());
    }
    let content_end = (ts + cs) as usize;
    let content = slice_subrange(buff, ts as usize, content_end);
    let rest = slice_subrange(buff, content_end, buff.len());
    proof {
        let (sk, sts, scs) = read_kind_spec(buff@).unwrap();
        assert(content@ =~= buff@.subrange(sts, sts + scs));
        assert(rest@ =~= buff@.skip(sts + scs));
    }
    Ok((k, content, rest))
}

/// Splits a buffer into the content of a list and the bytes after the list.
/// Fails if the first value is not a list.
pub fn split_list(buff: &[u8]) -> (r: Result<(&[u8], &[u8]), ()>)
    ensures
        match split_spec(buff@) {
            Some((k, c, rest)) => if k == Kind::List {
                match r {
                    Ok((rc, rr)) => rc@ == c && rr@ == rest,
                    Err(_) => false,
                }
            } else {
                r.is_err()
            },
            None => r.is_err(),
        },
{
    let (kind, content, rest) = split(buff)?;
    if kind != Kind::List {
        return Err(());
    }
    Ok((content, rest))
}

/// Splits a buffer into the content of a string (or single byte) and the
/// bytes after it. Fails if the first value is a list.
pub fn split_string(buff: &[u8]) -> (r: Result<(&[u8], &[u8]), ()>)
    ensures
        match split_spec(buff@) {
            Some((k, c, rest)) => if k != Kind::List {
                match r {
                    Ok((rc, rr)) => rc@ == c && rr@ == rest,
                    Err(_) => false,
                }
            } else {
                r.is_err()
            },
            None => r.is_err(),
        },
{
    let (k, content, rest) = split(buff)?;
    if k == Kind::List {
        return Err(());
    }
    Ok((content, rest))
}

/// Counts the number of encoded values in the buffer.
pub fn count_values(buff: &[u8]) -> (r: Result<u8, ()>)
    ensures
        match count_values_spec(buff@) {
            Some(n) => if n <= 255 {
                r == Ok::<u8, ()>(n as u8)
            } else {
                r.is_err()
            },
            None => r.is_err(),
        },
{
    let mut rest: &[u8] = buff;
    let mut i: u8 = 0;
    while rest.len() != 0
        invariant
            match count_values_spec(rest@) {
                Some(m) => match count_values_spec(buff@) {
                    Some(n) => n == i + m,
                    None => false,
                },
                None => count_values_spec(buff@).is_none(),
            },
        decreases rest@.len(),
    {
        let (_, tagsize, size) = match read_kind(rest) {
            Ok(t) => t,
            Err(_) => {
                return Err(());
            },
        };
        let len = rest.len() as u64;
        if tagsize > len || size > len - tagsize {
            return Err(());
        }
        let index = (tagsize + size) as usize;
        let new_rest = slice_subrange(rest, index, rest.len());
        proof {
            let (sk, sts, scs) = read_kind_spec(rest@).unwrap();
            assert(new_rest@ =~= rest@.skip(sts + scs));
            lemma_count_values_nonneg(new_rest@);
        }
        rest = new_rest;
        if i == 255 {
            // More values than the count can carry.
            return Err(());
        }
        i = i + 1;
    }
    Ok(i)
}

/// A successful value count is never negative.
pub proof fn lemma_count_values_nonneg(b: Seq<u8>)
    ensures
        count_values_spec(b) matches Some(n) ==> n >= 0,
    decreases b.len(),
{
    if b.len() > 0 {
        match read_kind_spec(b) {
            Some((k, ts, cs)) => {
                if 1 <= ts + cs <= b.len() {
                    lemma_count_values_nonneg(b.skip(ts + cs));
                }
            },
            None => {},
        }
    }
}

/// Appends the canonical RLP encoding of an unsigned integer: the empty
/// string for zero, the byte itself below 128, otherwise a string of the
/// minimal big-endian bytes.
pub fn append_uint64(b: Vec<u8>, i: u64) -> (r: Vec<u8>)
    ensures
        r@ == b@ + string_enc(be_bytes(i as nat)),
{
    let mut b = b;
    let ghost b0 = b@;
    if i == 0 {
        b.push(0x80);
        proof {
            assert(string_enc(be_bytes(0)) =~= seq![0x80u8]);
            assert(b@ =~= b0 + string_enc(be_bytes(i as nat)));
        }
    } else if i < 128 {
        b.push(i as u8);
        proof {
            assert(be_bytes(0) =~= Seq::<u8>::empty());
            assert(be_bytes(i as nat) =~= seq![i as u8]);
            assert(b@ =~= b0 + string_enc(be_bytes(i as nat)));
        }
    } else {
        let mut bytes = crate::rlp::encode::putint(i);
        proof {
            lemma_be_bytes_len(i as nat);
            lemma_first_byte_big(i as nat);
        }
        b.push(0x80 + bytes.len() as u8);
        b.append(&mut bytes);
        proof {
            assert(b@ =~= b0 + string_enc(be_bytes(i as nat)));
        }
    }
    b
}

/// A value of 128 or more never encodes as a single small byte.
proof fn lemma_first_byte_big(n: nat)
    requires
        n >= 128,
    ensures
        be_bytes(n).len() == 1 ==> be_bytes(n)[0] >= 0x80,
{
    if n < 256 {
        assert(be_bytes(0) =~= Seq::<u8>::empty());
        assert(be_bytes(n) =~= seq![(n % 256) as u8]);
    } else {
        lemma_be_bytes_no_leading_zero(n / 256);
        assert(be_bytes(n).len() == be_bytes(n / 256).len() + 1);
    }
}

/// Round trip for strings: the canonical encoding of any payload, followed
/// by arbitrary data, splits back into exactly that payload and that data.
pub proof fn lemma_string_enc_round_trip(p: Seq<u8>, rest: Seq<u8>)
    requires
        p.len() < 0x1_0000_0000_0000_0000,
    ensures
        split_spec(string_enc(p) + rest) == Some::<(Kind, Seq<u8>, Seq<u8>)>(
            (
                if p.len() == 1 && p[0] < 0x80 { Kind::Byte } else { Kind::String },
                p,
                rest,
            ),
        ),
{
    let b = string_enc(p) + rest;
    if p.len() == 1 && p[0] < 0x80 {
        assert(b[0] == p[0]);
        assert(read_kind_spec(b) == Some::<(Kind, int, int)>((Kind::Byte, 0, 1)));
        assert(b.subrange(0, 1) =~= p);
        assert(b.skip(1) =~= rest);
    } else if p.len() <= 55 {
        assert(b =~= seq![(0x80 + p.len()) as u8] + p + rest);
        assert(b[0] == 0x80 + p.len());
        if p.len() == 1 {
            assert(b[0] == 0x81 && b.len() > 1 && b[1] == p[0] && p[0] >= 0x80);
        }
        assert(read_kind_spec(b) == Some::<(Kind, int, int)>((Kind::String, 1, p.len() as int)));
        assert(b.subrange(1, 1 + p.len() as int) =~= p);
        assert(b.skip(1 + p.len() as int) =~= rest);
    } else {
        let sz = be_bytes(p.len());
        lemma_be_bytes_len(p.len());
        lemma_be_bytes_val(p.len());
        lemma_be_bytes_no_leading_zero(p.len());
        let ll = sz.len() as int;
        assert(b =~= seq![(0xB7 + ll) as u8] + sz + p + rest);
        assert(b[0] == 0xB7 + ll && 1 <= ll <= 8);
        assert(0xB8 <= b[0] < 0xC0);
        assert(b.skip(1).take(ll) =~= sz);
        assert(b.skip(1)[0] == sz[0]);
        assert(read_size_spec(b.skip(1), ll) == Some(p.len() as int));
        assert(read_kind_spec(b) == Some::<(Kind, int, int)>((Kind::String, 1 + ll, p.len() as int)));
        assert(b.subrange(1 + ll, 1 + ll + p.len() as int) =~= p);
        assert(b.skip(1 + ll + p.len() as int) =~= rest);
    }
}

/// Round trip for lists: the canonical list encoding of any content,
/// followed by arbitrary data, splits back into that content and that data.
pub proof fn lemma_list_enc_round_trip(c: Seq<u8>, rest: Seq<u8>)
    requires
        c.len() < 0x1_0000_0000_0000_0000,
    ensures
        split_spec(list_enc(c) + rest) == Some::<(Kind, Seq<u8>, Seq<u8>)>((Kind::List, c, rest)),
{
    let b = list_enc(c) + rest;
    if c.len() <= 55 {
        assert(b =~= seq![(0xC0 + c.len()) as u8] + c + rest);
        assert(b[0] == 0xC0 + c.len());
        assert(read_kind_spec(b) == Some::<(Kind, int, int)>((Kind::List, 1, c.len() as int)));
        assert(b.subrange(1, 1 + c.len() as int) =~= c);
        assert(b.skip(1 + c.len() as int) =~= rest);
    } else {
        let sz = be_bytes(c.len());
        lemma_be_bytes_len(c.len());
        lemma_be_bytes_val(c.len());
        lemma_be_bytes_no_leading_zero(c.len());
        let ll = sz.len() as int;
        assert(b =~= seq![(0xF7 + ll) as u8] + sz + c + rest);
        assert(b[0] == 0xF7 + ll && 1 <= ll <= 8);
        assert(b[0] >= 0xF8);
        assert(b.skip(1).take(ll) =~= sz);
        assert(b.skip(1)[0] == sz[0]);
        assert(read_size_spec(b.skip(1), ll) == Some(c.len() as int));
        assert(read_kind_spec(b) == Some::<(Kind, int, int)>((Kind::List, 1 + ll, c.len() as int)));
        assert(b.subrange(1 + ll, 1 + ll + c.len() as int) =~= c);
        assert(b.skip(1 + ll + c.len() as int) =~= rest);
    }
}

/// A counted, non-empty buffer starts with a splittable value, and the
/// remainder counts one value fewer.
pub proof fn lemma_count_values_unfold(b: Seq<u8>)
    requires
        b.len() > 0,
        count_values_spec(b).is_some(),
    ensures
        split_spec(b).is_some(),
        count_values_spec(split_spec(b).unwrap().2).is_some(),
        count_values_spec(b).unwrap() == 1 + count_values_spec(split_spec(b).unwrap().2).unwrap(),
{
    let (k, ts, cs) = read_kind_spec(b).unwrap();
    assert(1 <= ts + cs <= b.len());
}

/// Only the empty buffer counts zero values.
pub proof fn lemma_count_values_zero(b: Seq<u8>)
    requires
        count_values_spec(b) == Some(0int),
    ensures
        b.len() == 0,
{
    if b.len() > 0 {
        lemma_count_values_unfold(b);
        lemma_count_values_nonneg(split_spec(b).unwrap().2);
    }
}

/// A successful split always consumes at least the kind tag: the remainder
/// shrinks, and a list's content is strictly shorter than the buffer.
pub proof fn lemma_split_progress(b: Seq<u8>)
    requires
        split_spec(b).is_some(),
    ensures
        ({
            let (k, c, rest) = split_spec(b).unwrap();
            &&& rest.len() < b.len()
            &&& c.len() + rest.len() <= b.len()
            &&& (k != Kind::Byte ==> c.len() + rest.len() < b.len())
        }),
{
    let (k, ts, cs) = read_kind_spec(b).unwrap();
    assert(ts + cs >= 1 && ts >= 0 && cs >= 0) by {
        if b[0] >= 0xB8 && b[0] < 0xC0 {
            assert(read_size_spec(b.skip(1), b[0] - 0xB7).is_some());
        }
        if b[0] >= 0xF8 {
            assert(read_size_spec(b.skip(1), b[0] - 0xF7).is_some());
        }
    }
    assert(k != Kind::Byte ==> ts >= 1);
}

/// Minimality: whatever the decoder accepts is the canonical encoding of its
/// content followed by the remainder. An encoding that would re-encode to a
/// shorter (or otherwise different) form is therefore rejected.
pub proof fn lemma_split_minimal(b: Seq<u8>)
    requires
        split_spec(b).is_some(),
    ensures
        ({
            let (k, c, rest) = split_spec(b).unwrap();
            b == (if k == Kind::List { list_enc(c) } else { string_enc(c) }) + rest
        }),
{
    let (k, c, rest) = split_spec(b).unwrap();
    let (_, ts, cs) = read_kind_spec(b).unwrap();
    assert(b =~= b.take(ts) + b.subrange(ts, ts + cs) + b.skip(ts + cs));
    if b[0] < 0x80 {
        assert(c =~= seq![b[0]]);
        assert(string_enc(c) =~= b.take(0) + c);
        assert(b =~= string_enc(c) + rest);
    } else if b[0] < 0xB8 {
        assert(ts == 1 && cs == b[0] - 0x80 && cs <= 55);
        if cs == 1 {
            assert(b[0] == 0x81);
            assert(!(b.len() > 1 && b[1] < 0x80));
            assert(b.len() >= 2);
            assert(c[0] == b[1] && c[0] >= 0x80);
        }
        assert(string_enc(c) =~= seq![b[0]] + c);
        assert(b.take(1) =~= seq![b[0]]);
        assert(b =~= string_enc(c) + rest);
    } else if b[0] < 0xC0 {
        let ll = b[0] - 0xB7;
        let szb = b.skip(1).take(ll);
        assert(read_size_spec(b.skip(1), ll) == Some(cs));
        assert(cs == be_val(szb) && cs >= 56 && szb[0] != 0);
        lemma_be_val_bytes(szb);
        assert(be_bytes(cs as nat) == szb);
        assert(string_enc(c) =~= seq![b[0]] + szb + c) by {
            assert(c.len() == cs);
            assert(b[0] == 0xB7 + szb.len());
        }
        assert(b.take(ts) =~= seq![b[0]] + szb);
        assert(b =~= string_enc(c) + rest);
    } else if b[0] < 0xF8 {
        assert(ts == 1 && cs == b[0] - 0xC0 && cs <= 55);
        assert(list_enc(c) =~= seq![b[0]] + c);
        assert(b.take(1) =~= seq![b[0]]);
        assert(b =~= list_enc(c) + rest);
    } else {
        let ll = b[0] - 0xF7;
        let szb = b.skip(1).take(ll);
        assert(read_size_spec(b.skip(1), ll) == Some(cs));
        assert(cs == be_val(szb) && cs >= 56 && szb[0] != 0);
        lemma_be_val_bytes(szb);
        assert(be_bytes(cs as nat) == szb);
        assert(list_enc(c) =~= seq![b[0]] + szb + c) by {
            assert(c.len() == cs);
            assert(b[0] == 0xF7 + szb.len());
        }
        assert(b.take(ts) =~= seq![b[0]] + szb);
        assert(b =~= list_enc(c) + rest);
    }
}

} // verus!
