//! Key encodings: raw key bytes, hex-nibble sequences (one element per
//! nibble, optionally ended by the terminator 16 which marks a value-bearing
//! path), and the compact on-wire form (a flag byte carrying terminator and
//! parity bits, then nibbles packed two per byte).

use vstd::prelude::*;

verus! {

/// A hex key: every element is a nibble below 16, except that the last
/// element may be the terminator 16.
pub open spec fn is_valid_hex_key(s: Seq<u8>) -> bool {
    forall|i: int|
        0 <= i < s.len() ==> (#[trigger] s[i] < 16 || (i == s.len() - 1 && s[i] == 16))
}

/// Whether the hex key ends with the terminator 16.
pub open spec fn has_term_spec(s: Seq<u8>) -> bool {
    s.len() > 0 && s[s.len() - 1] == 16
}

/// The hex key with its terminator stripped, if present.
pub open spec fn strip_term(s: Seq<u8>) -> Seq<u8> {
    if has_term_spec(s) {
        s.drop_last()
    } else {
        s
    }
}

/// Packs an even-length nibble sequence two nibbles per byte.
pub open spec fn pack_nibbles(s: Seq<u8>) -> Seq<u8> {
    Seq::new((s.len() / 2) as nat, |i: int| ((s[2 * i] % 16) * 16 + s[2 * i + 1] % 16) as u8)
}

/// Expands bytes into their high and low nibbles.
pub open spec fn unpack_nibbles(b: Seq<u8>) -> Seq<u8> {
    Seq::new((b.len() * 2) as nat, |i: int|
        if i % 2 == 0 { (b[i / 2] / 16) as u8 } else { (b[i / 2] % 16) as u8 })
}

/// The hex-nibble form of a raw byte key: each byte split into two nibbles,
/// then the terminator.
pub open spec fn keybytes_to_hex_spec(key: Seq<u8>) -> Seq<u8> {
    unpack_nibbles(key) + seq![16u8]
}

/// The compact form of a hex key: flag byte `(terminator << 5) | (odd << 4) |
/// first_nibble_if_odd`, then the remaining nibbles packed two per byte.
pub open spec fn hex_to_compact_spec(h: Seq<u8>) -> Seq<u8> {
    let t: u8 = if has_term_spec(h) { 1 } else { 0 };
    let hx = strip_term(h);
    if hx.len() % 2 == 1 {
        seq![(t * 32 + 16 + hx[0] % 16) as u8] + pack_nibbles(hx.skip(1))
    } else {
        seq![(t * 32) as u8] + pack_nibbles(hx)
    }
}

/// The hex key read back from a compact encoding: the flag byte's own nibbles
/// are unpacked with the rest, then the leading one or two flag nibbles are
/// dropped and the terminator appended if the terminator bit was set.
pub open spec fn compact_to_hex_spec(c: Seq<u8>) -> Seq<u8> {
    if c.len() == 0 {
        Seq::empty()
    } else {
        let nib = unpack_nibbles(c);
        let body = if (c[0] / 16) % 2 == 1 {
            nib.skip(1)
        } else {
            nib.skip(2)
        };
        if c[0] >= 32 {
            body + seq![16u8]
        } else {
            body
        }
    }
}

/// Length of the longest common prefix of two hex keys.
pub fn prefix_len(a: &Vec<u8>, b: &Vec<u8>) -> (i: usize)
    ensures
        i <= a@.len() && i <= b@.len(),
        forall|j: int| 0 <= j < i ==> a@[j] == b@[j],
        i < a@.len() && i < b@.len() ==> a@[i as int] != b@[i as int],
{
    let length = if a.len() > b.len() {
        b.len()
    } else {
        a.len()
    };
    let mut i: usize = 0;
    while i < length
        invariant
            i <= length,
            length <= a@.len() && length <= b@.len(),
            forall|j: int| 0 <= j < i ==> a@[j] == b@[j],
        decreases length - i,
    {
        if a[i] != b[i] {
            return i;
        }
        i = i + 1;
    }
    i
}

/// Whether the key ends with the terminator nibble.
pub fn has_term(s: &[u8]) -> (r: bool)
    ensures
        r == has_term_spec(s@),
{
    if s.len() == 0 {
        false
    } else {
        s[s.len() - 1] == 16
    }
}

/// Copies the tail of a slice starting at `from`.
pub fn suffix(s: &[u8], from: usize) -> (r: Vec<u8>)
    requires
        from <= s@.len(),
    ensures
        r@ == s@.skip(from as int),
{
    let mut r: Vec<u8> = Vec::new();
    let mut i: usize = from;
    while i < s.len()
        invariant
            from <= i <= s@.len(),
            r@ == s@.subrange(from as int, i as int),
        decreases s@.len() - i,
    {
        r.push(s[i]);
        assert(r@ =~= s@.subrange(from as int, i + 1 as int));
        i = i + 1;
    }
    assert(r@ =~= s@.skip(from as int));
    r
}

/// Packs an even-length sequence of nibbles two per byte.
fn decode_nibbles(nibbles: &[u8]) -> (r: Vec<u8>)
    requires
        nibbles@.len() % 2 == 0,
    ensures
        r@ == pack_nibbles(nibbles@),
{
    let mut r: Vec<u8> = Vec::new();
    let mut i: usize = 0;
    while i + 1 < nibbles.len()
        invariant
            i % 2 == 0,
            i <= nibbles@.len(),
            nibbles@.len() % 2 == 0,
            r@.len() == i / 2,
            forall|j: int| 0 <= j < r@.len() ==> r@[j] == pack_nibbles(nibbles@)[j],
        decreases nibbles@.len() - i,
    {
        let hi = nibbles[i];
        let lo = nibbles[i + 1];
        let byte: u8 = (hi << 4) | (lo & 0xF);
        proof {
            assert((hi << 4) | (lo & 0xF) == (hi % 16) * 16 + lo % 16) by (bit_vector);
        }
        r.push(byte);
        i = i + 2;
    }
    assert(i == nibbles@.len());
    assert(r@ =~= pack_nibbles(nibbles@));
    r
}

/// Expands a raw byte key to hex-nibble form with the terminator appended.
pub fn keybytes_to_hex(key: &[u8]) -> (r: Vec<u8>)
    requires
        key@.len() * 2 + 1 <= usize::MAX,
    ensures
        r@ == keybytes_to_hex_spec(key@),
{
    let mut r: Vec<u8> = Vec::new();
    let mut i: usize = 0;
    while i < key.len()
        invariant
            i <= key@.len(),
            key@.len() * 2 + 1 <= usize::MAX,
            r@.len() == 2 * i,
            forall|j: int| 0 <= j < r@.len() ==> r@[j] == unpack_nibbles(key@)[j],
        decreases key@.len() - i,
    {
        r.push(key[i] / 16);
        r.push(key[i] % 16);
        i = i + 1;
    }
    r.push(16);
    assert(r@ =~= keybytes_to_hex_spec(key@));
    r
}

/// Converts a hex key to its compact form.
pub fn hex_to_compact(hex: &[u8]) -> (r: Vec<u8>)
    requires
        is_valid_hex_key(hex@),
    ensures
        r@ == hex_to_compact_spec(hex@),
{
    let term = has_term(hex);
    let hex_len = if term {
        hex.len() - 1
    } else {
        hex.len()
    };
    let t: u8 = if term {
        1
    } else {
        0
    };
    proof {
        assert(strip_term(hex@) == hex@.subrange(0, hex_len as int));
        assert(forall|j: int| 0 <= j < hex_len ==> #[trigger] hex@[j] < 16);
    }
    let mut r: Vec<u8> = Vec::new();
    if hex_len % 2 == 1 {
        let first = hex[0];
        proof {
            assert(first & 0xF == first % 16) by (bit_vector);
        }
        r.push(t * 32 + 16 + (first & 0xF));
        let body = crate::trie::encoding::suffix_range(hex, 1, hex_len);
        let mut packed = decode_nibbles(body.as_slice());
        r.append(&mut packed);
        proof {
            assert(body@ =~= strip_term(hex@).skip(1));
            assert(r@ =~= hex_to_compact_spec(hex@));
        }
    } else {
        r.push(t * 32);
        let body = crate::trie::encoding::suffix_range(hex, 0, hex_len);
        let mut packed = decode_nibbles(body.as_slice());
        r.append(&mut packed);
        proof {
            assert(body@ =~= strip_term(hex@));
            assert(r@ =~= hex_to_compact_spec(hex@));
        }
    }
    r
}

/// Copies the bytes of a slice between `from` and `to`.
pub fn suffix_range(s: &[u8], from: usize, to: usize) -> (r: Vec<u8>)
    requires
        from <= to <= s@.len(),
    ensures
        r@ == s@.subrange(from as int, to as int),
{
    let mut r: Vec<u8> = Vec::new();
    let mut i: usize = from;
    while i < to
        invariant
            from <= i <= to <= s@.len(),
            r@ == s@.subrange(from as int, i as int),
        decreases to - i,
    {
        r.push(s[i]);
        assert(r@ =~= s@.subrange(from as int, i + 1 as int));
        i = i + 1;
    }
    r
}

/// Converts a compact encoding back to hex-nibble form.
pub fn compact_to_hex(compact: &[u8]) -> (r: Vec<u8>)
    requires
        compact@.len() * 2 + 1 <= usize::MAX,
    ensures
        r@ == compact_to_hex_spec(compact@),
{
    if compact.len() == 0 {
        return Vec::new();
    }
    let mut base = keybytes_to_hex(compact);
    // delete terminator flag
    if base[0] < 2 {
        base.pop();
        proof {
            assert(compact@[0] / 16 == unpack_nibbles(compact@)[0]);
            assert(base@ =~= unpack_nibbles(compact@));
        }
    }
    // apply odd flag
    let b0 = base[0];
    proof {
        assert(b0 & 1 == b0 % 2 && b0 & 1 <= 1) by (bit_vector);
        let c0 = compact@[0];
        assert(base@[0] == c0 / 16);
        assert((c0 / 16) % 2 == (c0 / 16) as u8 % 2);
    }
    let chop: usize = 2 - ((b0 & 1) as usize);
    let r = suffix(base.as_slice(), chop);
    proof {
        let c = compact@;
        if c[0] >= 32 {
            assert(c[0] / 16 >= 2);
            assert(base@ =~= unpack_nibbles(c) + seq![16u8]);
            if (c[0] / 16) % 2 == 1 {
                assert(r@ =~= unpack_nibbles(c).skip(1) + seq![16u8]);
            } else {
                assert(r@ =~= unpack_nibbles(c).skip(2) + seq![16u8]);
            }
        } else {
            assert(c[0] / 16 < 2);
            assert(base@ =~= unpack_nibbles(c));
            if (c[0] / 16) % 2 == 1 {
                assert(r@ =~= unpack_nibbles(c).skip(1));
            } else {
                assert(r@ =~= unpack_nibbles(c).skip(2));
            }
        }
        assert(r@ =~= compact_to_hex_spec(c));
    }
    r
}

/// Round trip: converting a well-formed hex key to compact form and back
/// yields the original key, with or without terminator, odd or even length.
pub proof fn lemma_compact_round_trip(h: Seq<u8>)
    requires
        is_valid_hex_key(h),
    ensures
        compact_to_hex_spec(hex_to_compact_spec(h)) == h,
{
    let t: u8 = if has_term_spec(h) { 1 } else { 0 };
    let hx = strip_term(h);
    assert(forall|j: int| 0 <= j < hx.len() ==> #[trigger] hx[j] < 16);
    if t == 1 {
        assert(hx.push(16u8) =~= h);
    } else {
        assert(hx =~= h);
    }
    let c = hex_to_compact_spec(h);
    if hx.len() % 2 == 1 {
        assert(hx[0] % 16 == hx[0]);
        let flag = (t * 32 + 16 + hx[0]) as u8;
        assert(c == seq![flag] + pack_nibbles(hx.skip(1)));
        assert(c[0] == flag && c.len() >= 1);
        if t == 1 {
            assert(flag == 48 + hx[0]);
            assert(flag / 16 == 3 && flag % 16 == hx[0] && flag >= 32);
        } else {
            assert(flag == 16 + hx[0]);
            assert(flag / 16 == 1 && flag % 16 == hx[0] && flag < 32);
        }
        lemma_flag_unpack(flag, hx.skip(1), c);
        let nib = unpack_nibbles(c);
        assert(nib == seq![(flag / 16) as u8, (flag % 16) as u8] + hx.skip(1));
        assert(nib.skip(1) =~= seq![hx[0]] + hx.skip(1));
        assert(seq![hx[0]] + hx.skip(1) =~= hx);
        assert((c[0] / 16) % 2 == 1);
        if t == 1 {
            assert(compact_to_hex_spec(c) == hx + seq![16u8]);
            assert(hx + seq![16u8] =~= h);
        } else {
            assert(compact_to_hex_spec(c) == hx);
        }
    } else {
        let flag = (t * 32) as u8;
        assert(c == seq![flag] + pack_nibbles(hx));
        assert(c[0] == flag && c.len() >= 1);
        if t == 1 {
            assert(flag == 32);
            assert(flag / 16 == 2 && flag % 16 == 0 && flag >= 32);
        } else {
            assert(flag == 0);
            assert(flag / 16 == 0 && flag % 16 == 0 && flag < 32);
        }
        lemma_flag_unpack(flag, hx, c);
        let nib = unpack_nibbles(c);
        assert(nib == seq![(flag / 16) as u8, (flag % 16) as u8] + hx);
        assert(nib.skip(2) =~= hx);
        assert((c[0] / 16) % 2 == 0);
        if t == 1 {
            assert(compact_to_hex_spec(c) == hx + seq![16u8]);
            assert(hx + seq![16u8] =~= h);
        } else {
            assert(compact_to_hex_spec(c) == hx);
        }
    }
}

/// Unpacking a flag byte followed by packed nibbles gives the flag's two
/// nibbles followed by the original nibbles.
proof fn lemma_flag_unpack(flag: u8, x: Seq<u8>, c: Seq<u8>)
    requires
        x.len() % 2 == 0,
        forall|i: int| 0 <= i < x.len() ==> #[trigger] x[i] < 16,
        c == seq![flag] + pack_nibbles(x),
    ensures
        unpack_nibbles(c) == seq![(flag / 16) as u8, (flag % 16) as u8] + x,
{
    lemma_unpack_cons(flag, pack_nibbles(x));
    lemma_unpack_pack(x);
}

/// A canonical compact key: the flag byte uses only its terminator and
/// parity bits, and carries a nibble in its low half exactly when the
/// nibble count is odd.
pub open spec fn is_canonical_compact(c: Seq<u8>) -> bool {
    c.len() >= 1 && c[0] < 64 && ((c[0] / 16) % 2 == 0 ==> c[0] % 16 == 0)
}

/// Round trip in the other direction: a canonical compact key survives
/// decoding to hex form and re-encoding.
#[verifier::rlimit(60)]
pub proof fn lemma_compact_reverse_round_trip(c: Seq<u8>)
    requires
        is_canonical_compact(c),
    ensures
        hex_to_compact_spec(compact_to_hex_spec(c)) == c,
{
    let nib = unpack_nibbles(c);
    assert(forall|i: int| 0 <= i < nib.len() ==> #[trigger] nib[i] < 16);
    let t: u8 = if c[0] >= 32 { 1 } else { 0 };
    let odd = (c[0] / 16) % 2 == 1;
    let body = if odd {
        nib.skip(1)
    } else {
        nib.skip(2)
    };
    let h = compact_to_hex_spec(c);
    lemma_compact_to_hex_valid(c);
    let hx = strip_term(h);
    assert(hx =~= body) by {
        if c[0] >= 32 {
            assert(h =~= body + seq![16u8]);
        } else {
            assert(h =~= body);
        }
    }
    assert(unpack_nibbles(c).skip(2) =~= unpack_nibbles(c.skip(1))) by {
        lemma_unpack_skip(c);
    }
    lemma_pack_unpack(c.skip(1));
    if odd {
        assert(hx.len() % 2 == 1);
        assert(hx[0] == nib[1] && nib[1] == c[0] % 16);
        assert(hx.skip(1) =~= nib.skip(2));
        assert(pack_nibbles(hx.skip(1)) == c.skip(1));
        let flag = (t * 32 + 16 + hx[0] % 16) as u8;
        assert(flag == c[0]) by {
            assert(c[0] / 16 == 2 * t + 1) by {
                if c[0] >= 32 {
                    assert(c[0] / 16 == 3);
                } else {
                    assert(c[0] / 16 == 1);
                }
            }
            assert(c[0] == 16 * (2 * t + 1) + c[0] % 16);
        }
        assert(hex_to_compact_spec(h) =~= seq![c[0]] + c.skip(1));
        assert(seq![c[0]] + c.skip(1) =~= c);
    } else {
        assert(hx.len() % 2 == 0);
        assert(hx =~= nib.skip(2));
        assert(pack_nibbles(hx) == c.skip(1));
        let flag = (t * 32) as u8;
        assert(flag == c[0]) by {
            assert(c[0] % 16 == 0);
            assert(c[0] / 16 == 2 * t) by {
                if c[0] >= 32 {
                    assert(c[0] / 16 == 2);
                } else {
                    assert(c[0] / 16 == 0);
                }
            }
            assert(c[0] == 16 * (2 * t));
        }
        assert(hex_to_compact_spec(h) =~= seq![c[0]] + c.skip(1));
        assert(seq![c[0]] + c.skip(1) =~= c);
    }
}

/// Packing the unpacked nibbles of bytes restores the bytes.
proof fn lemma_pack_unpack(b: Seq<u8>)
    ensures
        pack_nibbles(unpack_nibbles(b)) == b,
{
    let nib = unpack_nibbles(b);
    assert forall|i: int| 0 <= i < b.len() implies pack_nibbles(nib)[i] == b[i] by {
        assert(nib[2 * i] == b[i] / 16 && nib[2 * i + 1] == b[i] % 16);
        assert(((b[i] / 16) % 16) * 16 + (b[i] % 16) % 16 == b[i]);
    }
    assert(pack_nibbles(nib) =~= b);
}

/// Dropping a byte's two nibbles aligns the unpacked forms.
proof fn lemma_unpack_skip(c: Seq<u8>)
    requires
        c.len() >= 1,
    ensures
        unpack_nibbles(c).skip(2) == unpack_nibbles(c.skip(1)),
{
    let lhs = unpack_nibbles(c).skip(2);
    let rhs = unpack_nibbles(c.skip(1));
    assert forall|i: int| 0 <= i < rhs.len() implies lhs[i] == rhs[i] by {
        assert(lhs[i] == unpack_nibbles(c)[i + 2]);
        assert((i + 2) / 2 == i / 2 + 1 && (i + 2) % 2 == i % 2);
        assert(c.skip(1)[i / 2] == c[i / 2 + 1]);
    }
    assert(lhs =~= rhs);
}

/// The compact form of a well-formed hex key is canonical and nonempty.
pub proof fn lemma_compact_is_canonical(k: Seq<u8>)
    requires
        is_valid_hex_key(k),
    ensures
        is_canonical_compact(hex_to_compact_spec(k)),
        hex_to_compact_spec(k).len() >= 1,
{
    let c = hex_to_compact_spec(k);
    let t: u8 = if has_term_spec(k) { 1 } else { 0 };
    let hx = strip_term(k);
    if hx.len() % 2 == 1 {
        assert(hx[0] < 16);
        assert(c[0] == t * 32 + 16 + hx[0] % 16);
        assert((c[0] / 16) % 2 == 1) by {
            if t == 1 {
                assert(c[0] / 16 == 3);
            } else {
                assert(c[0] / 16 == 1);
            }
        }
    } else {
        assert(c[0] == t * 32);
        assert(c[0] % 16 == 0);
    }
}

/// The hex form of a byte key is a well-formed, terminated hex key.
pub proof fn lemma_keybytes_hex_valid(k: Seq<u8>)
    ensures
        is_valid_hex_key(keybytes_to_hex_spec(k)),
        has_term_spec(keybytes_to_hex_spec(k)),
        keybytes_to_hex_spec(k).len() == 2 * k.len() + 1,
{
    let h = keybytes_to_hex_spec(k);
    let nib = unpack_nibbles(k);
    assert(forall|i: int| 0 <= i < nib.len() ==> #[trigger] nib[i] < 16);
    assert(h[h.len() - 1] == 16);
    assert forall|i: int| 0 <= i < h.len() implies (#[trigger] h[i] < 16 || (i == h.len() - 1
        && h[i] == 16)) by {
        if i < h.len() - 1 {
            assert(h[i] == nib[i]);
        }
    }
}

/// A decoded compact key is a well-formed hex key, terminated exactly when
/// the flag byte has its terminator bit.
pub proof fn lemma_compact_to_hex_valid(c: Seq<u8>)
    ensures
        is_valid_hex_key(compact_to_hex_spec(c)),
        has_term_spec(compact_to_hex_spec(c)) <==> (c.len() > 0 && c[0] >= 32),
{
    if c.len() > 0 {
        let nib = unpack_nibbles(c);
        assert(forall|i: int| 0 <= i < nib.len() ==> #[trigger] nib[i] < 16);
        let body = if (c[0] / 16) % 2 == 1 {
            nib.skip(1)
        } else {
            nib.skip(2)
        };
        assert(forall|i: int| 0 <= i < body.len() ==> #[trigger] body[i] < 16);
        let r = compact_to_hex_spec(c);
        if c[0] >= 32 {
            assert(r =~= body + seq![16u8]);
            assert(r[r.len() - 1] == 16);
            assert forall|i: int| 0 <= i < r.len() implies (#[trigger] r[i] < 16 || (i == r.len()
                - 1 && r[i] == 16)) by {
                if i < r.len() - 1 {
                    assert(r[i] == body[i]);
                }
            }
        } else {
            assert(r =~= body);
        }
    }
}

/// Unpacking a packed nibble sequence yields the original nibbles.
proof fn lemma_unpack_pack(s: Seq<u8>)
    requires
        s.len() % 2 == 0,
        forall|i: int| 0 <= i < s.len() ==> #[trigger] s[i] < 16,
    ensures
        unpack_nibbles(pack_nibbles(s)) == s,
{
    let p = pack_nibbles(s);
    assert forall|i: int| 0 <= i < s.len() implies unpack_nibbles(p)[i] == s[i] by {
        let b = p[i / 2];
        assert(b == ((s[2 * (i / 2)] % 16) * 16 + s[2 * (i / 2) + 1] % 16) as u8);
        if i % 2 == 0 {
            assert(2 * (i / 2) == i);
            assert(b / 16 == s[i]) by (nonlinear_arith)
                requires
                    b == (s[i] % 16) * 16 + s[i + 1] % 16,
                    s[i] < 16,
                    s[i + 1] < 16,
            ;
        } else {
            assert(2 * (i / 2) + 1 == i);
            assert(b % 16 == s[i]) by (nonlinear_arith)
                requires
                    b == (s[i - 1] % 16) * 16 + s[i] % 16,
                    s[i - 1] < 16,
                    s[i] < 16,
            ;
        }
    }
    assert(unpack_nibbles(p) =~= s);
}

/// Unpacking a byte followed by more bytes unpacks the head then the rest.
proof fn lemma_unpack_cons(b: u8, rest: Seq<u8>)
    ensures
        unpack_nibbles(seq![b] + rest) == seq![(b / 16) as u8, (b % 16) as u8]
            + unpack_nibbles(rest),
{
    let lhs = unpack_nibbles(seq![b] + rest);
    let rhs = seq![(b / 16) as u8, (b % 16) as u8] + unpack_nibbles(rest);
    assert forall|i: int| 0 <= i < lhs.len() implies lhs[i] == rhs[i] by {
        if i >= 2 {
            assert((seq![b] + rest)[i / 2] == rest[i / 2 - 1]);
            assert((i - 2) / 2 == i / 2 - 1);
            assert((i - 2) % 2 == i % 2);
        }
    }
    assert(lhs =~= rhs);
}

} // verus!
