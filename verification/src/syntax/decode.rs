//! Reversible, non-panicking decoding of native filesystem names into the 32-bit
//! code-point space, and the matching encoders back to native units: Windows UTF-16
//! with unpaired surrogates preserved as their own value, and Unix bytes with each
//! byte that breaks UTF-8 escaped to `U+DC00 + byte`.
use crate::syntax::CodePoint;
use vstd::prelude::*;
use vstd::utf8::*;

verus! {

/// Whether a UTF-16 unit is a high (leading) surrogate.
pub open spec fn is_high_surrogate(u: u16) -> bool {
    0xD800 <= u <= 0xDBFF
}

/// Whether a UTF-16 unit is a low (trailing) surrogate.
pub open spec fn is_low_surrogate(u: u16) -> bool {
    0xDC00 <= u <= 0xDFFF
}

/// The code points of a UTF-16 unit sequence: a high surrogate followed by a low
/// surrogate forms one supplementary code point; every other unit, including an
/// unpaired surrogate, is its own code point.
pub open spec fn utf16_decode(u: Seq<u16>) -> Seq<u32>
    decreases u.len(),
{
    if u.len() == 0 {
        Seq::empty()
    } else if u.len() >= 2 && is_high_surrogate(u[0]) && is_low_surrogate(u[1]) {
        seq![(0x10000 + (u[0] - 0xD800) * 0x400 + (u[1] - 0xDC00)) as u32] + utf16_decode(
            u.skip(2),
        )
    } else {
        seq![u[0] as u32] + utf16_decode(u.drop_first())
    }
}

/// The UTF-16 units of one code point (at most `0x10FFFF`).
pub open spec fn utf16_unit(cp: u32) -> Seq<u16> {
    if cp > 0xFFFF {
        let c = (cp - 0x10000) as u32;
        seq![(0xD800 + (c >> 10)) as u16, (0xDC00 + (c & 0x3FF)) as u16]
    } else {
        seq![cp as u16]
    }
}

/// The UTF-16 units of a code-point sequence.
pub open spec fn utf16_encode(cps: Seq<u32>) -> Seq<u16>
    decreases cps.len(),
{
    if cps.len() == 0 {
        Seq::empty()
    } else {
        utf16_unit(cps[0]) + utf16_encode(cps.drop_first())
    }
}

/// The code points of a byte name: each well-formed UTF-8 scalar decodes to its value,
/// and a byte at which no well-formed scalar starts becomes `U+DC00 + byte`.
pub open spec fn bytes_decode(b: Seq<u8>) -> Seq<u32>
    decreases b.len(),
{
    if b.len() == 0 {
        Seq::empty()
    } else if valid_first_scalar(b) {
        seq![decode_first_scalar(b)] + bytes_decode(b.skip(length_of_first_scalar(b)))
    } else {
        seq![(0xDC00 + b[0]) as u32] + bytes_decode(b.drop_first())
    }
}

/// Whether a code point is an escaped byte (`U+DC80`..=`U+DCFF`).
pub open spec fn is_escaped_byte(cp: u32) -> bool {
    0xDC80 <= cp <= 0xDCFF
}

/// The bytes of one code point: an escaped byte gives back the byte, a scalar its
/// UTF-8 encoding, and anything else the encoding of U+FFFD.
pub open spec fn byte_unit(cp: u32) -> Seq<u8> {
    if is_escaped_byte(cp) {
        seq![(cp - 0xDC00) as u8]
    } else if is_scalar(cp) {
        encode_scalar(cp)
    } else {
        seq![0xEFu8, 0xBFu8, 0xBDu8]
    }
}

/// The bytes of a code-point sequence.
pub open spec fn bytes_encode(cps: Seq<u32>) -> Seq<u8>
    decreases cps.len(),
{
    if cps.len() == 0 {
        Seq::empty()
    } else {
        byte_unit(cps[0]) + bytes_encode(cps.drop_first())
    }
}

/// The code points of a string's characters.
pub open spec fn str_code_points(s: Seq<char>) -> Seq<u32> {
    Seq::new(s.len(), |i: int| s[i] as u32)
}

proof fn lemma_pair_value(hi: u16, lo: u16)
    requires
        is_high_surrogate(hi),
        is_low_surrogate(lo),
    ensures
        ((((hi - 0xD800) as u32) << 10u32) + ((lo - 0xDC00) as u32)) as int == (hi - 0xD800) * 0x400
            + (lo - 0xDC00),
{
    let a = (hi - 0xD800) as u32;
    let b = (lo - 0xDC00) as u32;
    assert(a < 0x400 && b < 0x400);
    assert(a < 0x400 ==> (a << 10u32) == a * 0x400) by (bit_vector);
}

/// Decode a Windows UTF-16 name into code points, preserving unpaired surrogates as
/// their own code-point value. Never panics.
pub fn decode_utf16(units: &[u16]) -> (out: Vec<CodePoint>)
    ensures
        out@ == utf16_decode(units@),
{
    let n = units.len();
    let mut out: Vec<CodePoint> = Vec::new();
    let mut i: usize = 0;
    proof {
        assert(units@.skip(0) =~= units@);
    }
    while i < n
        invariant
            i <= n,
            n == units@.len(),
            utf16_decode(units@) == out@ + utf16_decode(units@.skip(i as int)),
        decreases n - i,
    {
        let u = units[i];
        let ghost rest = units@.skip(i as int);
        if 0xD800 <= u && u <= 0xDBFF && i + 1 < n && 0xDC00 <= units[i + 1] && units[i + 1]
            <= 0xDFFF {
            let lo = units[i + 1];
            proof {
                lemma_pair_value(u, lo);
                assert(rest.skip(2) =~= units@.skip(i + 2));
            }
            let cp = 0x1_0000 + (((u as u32) - 0xD800) << 10) + ((lo as u32) - 0xDC00);
            out.push(cp);
            i += 2;
            assert(utf16_decode(units@) =~= out@ + utf16_decode(units@.skip(i as int)));
        } else {
            proof {
                assert(rest.drop_first() =~= units@.skip(i + 1));
            }
            out.push(u as u32);
            i += 1;
            assert(utf16_decode(units@) =~= out@ + utf16_decode(units@.skip(i as int)));
        }
    }
    assert(units@.skip(n as int) =~= Seq::<u16>::empty());
    assert(out@ =~= out@ + Seq::<u32>::empty());
    out
}


/// Every code point that [`decode_utf16`] produces is at most `0x10FFFF`.
pub proof fn lemma_utf16_decode_bounded(u: Seq<u16>)
    ensures
        forall|i: int| 0 <= i < utf16_decode(u).len() ==> #[trigger] utf16_decode(u)[i] <= 0x10FFFF,
    decreases u.len(),
{
    if u.len() == 0 {
    } else if u.len() >= 2 && is_high_surrogate(u[0]) && is_low_surrogate(u[1]) {
        lemma_utf16_decode_bounded(u.skip(2));
        let d = utf16_decode(u);
        assert(d[0] <= 0x10FFFF);
        assert forall|i: int| 0 <= i < d.len() implies #[trigger] d[i] <= 0x10FFFF by {
            if i > 0 {
                assert(d[i] == utf16_decode(u.skip(2))[i - 1]);
            }
        }
    } else {
        lemma_utf16_decode_bounded(u.drop_first());
        let d = utf16_decode(u);
        assert forall|i: int| 0 <= i < d.len() implies #[trigger] d[i] <= 0x10FFFF by {
            if i > 0 {
                assert(d[i] == utf16_decode(u.drop_first())[i - 1]);
            }
        }
    }
}

proof fn lemma_utf16_unit_of_pair(hi: u16, lo: u16)
    requires
        is_high_surrogate(hi),
        is_low_surrogate(lo),
    ensures
        utf16_unit((0x10000 + (hi - 0xD800) * 0x400 + (lo - 0xDC00)) as u32) == seq![hi, lo],
{
    let a = (hi - 0xD800) as u32;
    let b = (lo - 0xDC00) as u32;
    let c = (a * 0x400 + b) as u32;
    assert(a < 0x400 && b < 0x400 ==> ((a * 0x400 + b) as u32 >> 10u32) == a && ((a * 0x400 + b)
        as u32 & 0x3FFu32) == b) by (bit_vector);
    let cp = (0x10000 + (hi - 0xD800) * 0x400 + (lo - 0xDC00)) as u32;
    assert(cp > 0xFFFF);
    assert((cp - 0x10000) as u32 == c);
    assert(utf16_unit(cp) =~= seq![hi, lo]);
}

/// Decoding UTF-16 loses nothing: encoding the decoded code points gives back the
/// very same units, unpaired surrogates included.
pub proof fn lemma_utf16_round_trip(u: Seq<u16>)
    ensures
        utf16_encode(utf16_decode(u)) == u,
    decreases u.len(),
{
    if u.len() == 0 {
    } else if u.len() >= 2 && is_high_surrogate(u[0]) && is_low_surrogate(u[1]) {
        lemma_utf16_round_trip(u.skip(2));
        lemma_utf16_unit_of_pair(u[0], u[1]);
        let d = utf16_decode(u);
        assert(d.drop_first() =~= utf16_decode(u.skip(2)));
        assert(u =~= seq![u[0], u[1]] + u.skip(2));
    } else {
        lemma_utf16_round_trip(u.drop_first());
        let d = utf16_decode(u);
        assert(d.drop_first() =~= utf16_decode(u.drop_first()));
        assert(utf16_unit(u[0] as u32) =~= seq![u[0]]);
        assert(u =~= seq![u[0]] + u.drop_first());
    }
}

proof fn lemma_utf16_encode_push(cps: Seq<u32>, cp: u32)
    ensures
        utf16_encode(cps.push(cp)) == utf16_encode(cps) + utf16_unit(cp),
    decreases cps.len(),
{
    if cps.len() == 0 {
        let t = cps.push(cp);
        assert(t.len() == 1 && t[0] == cp);
        assert(t.drop_first() =~= Seq::<u32>::empty());
        assert(utf16_encode(t) == utf16_unit(cp) + utf16_encode(t.drop_first()));
        assert(utf16_encode(t) =~= utf16_unit(cp));
        assert(utf16_encode(cps) =~= Seq::<u16>::empty());
    } else {
        lemma_utf16_encode_push(cps.drop_first(), cp);
        assert(cps.push(cp).drop_first() =~= cps.drop_first().push(cp));
    }
}

/// Encode code points back to UTF-16: a supplementary code point becomes a surrogate
/// pair, everything else (including an unpaired surrogate) its own unit. The reverse
/// of [`decode_utf16`].
pub fn encode_utf16(cps: &[CodePoint]) -> (out: Vec<u16>)
    requires
        forall|i: int| 0 <= i < cps@.len() ==> #[trigger] cps@[i] <= 0x10FFFF,
    ensures
        out@ == utf16_encode(cps@),
{
    let n = cps.len();
    let mut out: Vec<u16> = Vec::new();
    let mut i: usize = 0;
    while i < n
        invariant
            i <= n,
            n == cps@.len(),
            forall|j: int| 0 <= j < cps@.len() ==> #[trigger] cps@[j] <= 0x10FFFF,
            out@ == utf16_encode(cps@.take(i as int)),
        decreases n - i,
    {
        let cp = cps[i];
        proof {
            lemma_utf16_encode_push(cps@.take(i as int), cp);
            assert(cps@.take(i + 1) =~= cps@.take(i as int).push(cp));
        }
        if cp > 0xFFFF {
            let c = cp - 0x1_0000;
            assert(c <= 0xFFFFF ==> (c >> 10u32) <= 0x3FF && (c & 0x3FFu32) <= 0x3FF) by (bit_vector);
            out.push(0xD800 + ((c >> 10) as u16));
            out.push(0xDC00 + ((c & 0x3FF) as u16));
        } else {
            out.push(cp as u16);
        }
        i += 1;
    }
    assert(cps@.take(n as int) =~= cps@);
    out
}

/// The width of the well-formed UTF-8 scalar that starts at `b[i..]`, or 0 when none
/// does, together with its value.
fn first_scalar_at(b: &[u8], i: usize) -> (r: (usize, u32))
    requires
        i < b@.len(),
    ensures
        r.0 == 0 <==> !valid_first_scalar(b@.skip(i as int)),
        r.0 != 0 ==> r.0 == length_of_first_scalar(b@.skip(i as int)) && r.1 == decode_first_scalar(
            b@.skip(i as int),
        ),
{
    let ghost s = b@.skip(i as int);
    let n = b.len();
    let b0 = b[i];
    assert(s[0] == b0);
    if b0 <= 0x7F {
        return (1, (b0 & 0x7F) as u32);
    }
    if 0xC0 <= b0 && b0 <= 0xDF {
        if n - i > 1 && 0x80 <= b[i + 1] && b[i + 1] <= 0xBF {
            let b1 = b[i + 1];
            assert(s[1] == b1);
            let cp = (((b0 & 0x1F) as u32) << 6) | ((b1 & 0x3F) as u32);
            if 0x80 <= cp {
                assert(cp <= 0x7FF) by (bit_vector)
                    requires
                        cp == (((b0 & 0x1F) as u32) << 6) | ((b1 & 0x3F) as u32),
                ;
                return (2, cp);
            }
        }
        return (0, 0);
    }
    if 0xE0 <= b0 && b0 <= 0xEF {
        if n - i > 2 && 0x80 <= b[i + 1] && b[i + 1] <= 0xBF && 0x80 <= b[i + 2] && b[i + 2]
            <= 0xBF {
            let b1 = b[i + 1];
            let b2 = b[i + 2];
            assert(s[1] == b1 && s[2] == b2);
            let cp = (((b0 & 0x0F) as u32) << 12) | (((b1 & 0x3F) as u32) << 6) | ((b2 & 0x3F)
                as u32);
            if 0x800 <= cp && !(0xD800 <= cp && cp <= 0xDFFF) {
                return (3, cp);
            }
        }
        return (0, 0);
    }
    if 0xF0 <= b0 && b0 <= 0xF7 {
        if n - i > 3 && 0x80 <= b[i + 1] && b[i + 1] <= 0xBF && 0x80 <= b[i + 2] && b[i + 2]
            <= 0xBF && 0x80 <= b[i + 3] && b[i + 3] <= 0xBF {
            let b1 = b[i + 1];
            let b2 = b[i + 2];
            let b3 = b[i + 3];
            assert(s[1] == b1 && s[2] == b2 && s[3] == b3);
            let cp = (((b0 & 0x07) as u32) << 18) | (((b1 & 0x3F) as u32) << 12) | (((b2 & 0x3F)
                as u32) << 6) | ((b3 & 0x3F) as u32);
            if 0x10000 <= cp && cp <= 0x10FFFF {
                return (4, cp);
            }
        }
        return (0, 0);
    }
    (0, 0)
}

/// Decode a Unix byte name into code points. Valid UTF-8 decodes normally; each byte
/// at which no well-formed scalar starts (always `>= 0x80`) maps to `U+DC00 + byte`.
/// Never panics.
pub fn decode_bytes(bytes: &[u8]) -> (out: Vec<CodePoint>)
    ensures
        out@ == bytes_decode(bytes@),
{
    let n = bytes.len();
    let mut out: Vec<CodePoint> = Vec::new();
    let mut i: usize = 0;
    assert(bytes@.skip(0) =~= bytes@);
    while i < n
        invariant
            i <= n,
            n == bytes@.len(),
            bytes_decode(bytes@) == out@ + bytes_decode(bytes@.skip(i as int)),
        decreases n - i,
    {
        let ghost rest = bytes@.skip(i as int);
        let (w, cp) = first_scalar_at(bytes, i);
        if w == 0 {
            out.push(0xDC00 + bytes[i] as u32);
            assert(rest.drop_first() =~= bytes@.skip(i + 1));
            i += 1;
        } else {
            out.push(cp);
            assert(rest.skip(w as int) =~= bytes@.skip(i + w));
            i += w;
        }
        assert(bytes_decode(bytes@) =~= out@ + bytes_decode(bytes@.skip(i as int)));
    }
    assert(bytes@.skip(n as int) =~= Seq::<u8>::empty());
    assert(out@ =~= out@ + Seq::<u32>::empty());
    out
}

proof fn lemma_width2(b0: u8, b1: u8)
    requires
        0xC0 <= b0 <= 0xDF,
        0x80 <= b1 <= 0xBF,
        0x80 <= codepoint_width_2(b0, b1),
    ensures
        has_width_2_encoding(codepoint_width_2(b0, b1)),
        leading_byte_width_2(codepoint_width_2(b0, b1)) == b0,
        last_continuation_byte(codepoint_width_2(b0, b1)) == b1,
{
    assert(0xC0 <= b0 <= 0xDF && 0x80 <= b1 <= 0xBF ==> {
        let cp = (((b0 & 0x1F) as u32) << 6u32) | ((b1 & 0x3F) as u32);
        &&& cp <= 0x7FF
        &&& (0xC0 | ((cp >> 6u32) & 0x1F) as u8) == b0
        &&& (0x80 | (cp & 0x3F) as u8) == b1
    }) by (bit_vector);
}

proof fn lemma_width3(b0: u8, b1: u8, b2: u8)
    requires
        0xE0 <= b0 <= 0xEF,
        0x80 <= b1 <= 0xBF,
        0x80 <= b2 <= 0xBF,
    ensures
        codepoint_width_3(b0, b1, b2) <= 0xFFFF,
        leading_byte_width_3(codepoint_width_3(b0, b1, b2)) == b0,
        second_last_continuation_byte(codepoint_width_3(b0, b1, b2)) == b1,
        last_continuation_byte(codepoint_width_3(b0, b1, b2)) == b2,
{
    assert(0xE0 <= b0 <= 0xEF && 0x80 <= b1 <= 0xBF && 0x80 <= b2 <= 0xBF ==> {
        let cp = (((b0 & 0x0F) as u32) << 12u32) | (((b1 & 0x3F) as u32) << 6u32) | ((b2 & 0x3F)
            as u32);
        &&& cp <= 0xFFFF
        &&& (0xE0 | ((cp >> 12u32) & 0x0F) as u8) == b0
        &&& (0x80 | ((cp >> 6u32) & 0x3F) as u8) == b1
        &&& (0x80 | (cp & 0x3F) as u8) == b2
    }) by (bit_vector);
}

proof fn lemma_width4(b0: u8, b1: u8, b2: u8, b3: u8)
    requires
        0xF0 <= b0 <= 0xF7,
        0x80 <= b1 <= 0xBF,
        0x80 <= b2 <= 0xBF,
        0x80 <= b3 <= 0xBF,
    ensures
        leading_byte_width_4(codepoint_width_4(b0, b1, b2, b3)) == b0,
        third_last_continuation_byte(codepoint_width_4(b0, b1, b2, b3)) == b1,
        second_last_continuation_byte(codepoint_width_4(b0, b1, b2, b3)) == b2,
        last_continuation_byte(codepoint_width_4(b0, b1, b2, b3)) == b3,
{
    assert(0xF0 <= b0 <= 0xF7 && 0x80 <= b1 <= 0xBF && 0x80 <= b2 <= 0xBF && 0x80 <= b3 <= 0xBF
        ==> {
        let cp = (((b0 & 0x07) as u32) << 18u32) | (((b1 & 0x3F) as u32) << 12u32) | (((b2 & 0x3F)
            as u32) << 6u32) | ((b3 & 0x3F) as u32);
        &&& (0xF0 | ((cp >> 18u32) & 0x7) as u8) == b0
        &&& (0x80 | ((cp >> 12u32) & 0x3F) as u8) == b1
        &&& (0x80 | ((cp >> 6u32) & 0x3F) as u8) == b2
        &&& (0x80 | (cp & 0x3F) as u8) == b3
    }) by (bit_vector);
}

/// A well-formed first scalar re-encodes to exactly the bytes it was decoded from.
proof fn lemma_first_scalar_reencodes(b: Seq<u8>)
    requires
        valid_first_scalar(b),
    ensures
        !is_escaped_byte(decode_first_scalar(b)),
        is_scalar(decode_first_scalar(b)),
        byte_unit(decode_first_scalar(b)) == b.take(length_of_first_scalar(b)),
{
    let cp = decode_first_scalar(b);
    let b0 = b[0];
    if is_leading_byte_width_1(b0) {
        assert(b0 <= 0x7F ==> (b0 & 0x7F) as u32 == b0 as u32 && ((b0 as u32) & 0x7Fu32) as u8 == b0) by (bit_vector);
        assert(byte_unit(cp) =~= b.take(1));
    } else if is_leading_byte_width_2(b0) {
        lemma_width2(b0, b[1]);
        assert(byte_unit(cp) =~= b.take(2));
    } else if is_leading_byte_width_3(b0) {
        lemma_width3(b0, b[1], b[2]);
        assert(byte_unit(cp) =~= b.take(3));
    } else {
        lemma_width4(b0, b[1], b[2], b[3]);
        assert(byte_unit(cp) =~= b.take(4));
    }
}

/// Decoding bytes loses nothing: encoding the decoded code points gives back the
/// very same bytes, including every byte that is not well-formed UTF-8.
pub proof fn lemma_bytes_round_trip(b: Seq<u8>)
    ensures
        bytes_encode(bytes_decode(b)) == b,
    decreases b.len(),
{
    if b.len() == 0 {
    } else if valid_first_scalar(b) {
        let w = length_of_first_scalar(b);
        lemma_bytes_round_trip(b.skip(w));
        lemma_first_scalar_reencodes(b);
        let d = bytes_decode(b);
        assert(d.drop_first() =~= bytes_decode(b.skip(w)));
        assert(b =~= b.take(w) + b.skip(w));
    } else {
        let b0 = b[0];
        if b0 <= 0x7F {
            assert(b0 <= 0x7F ==> (b0 & 0x7F) as u32 == b0 as u32) by (bit_vector);
            assert(valid_first_scalar(b));
        }
        lemma_bytes_round_trip(b.drop_first());
        let d = bytes_decode(b);
        assert(d.drop_first() =~= bytes_decode(b.drop_first()));
        assert(byte_unit(d[0]) =~= seq![b0]);
        assert(b =~= seq![b0] + b.drop_first());
    }
}

proof fn lemma_bytes_encode_push(cps: Seq<u32>, cp: u32)
    ensures
        bytes_encode(cps.push(cp)) == bytes_encode(cps) + byte_unit(cp),
    decreases cps.len(),
{
    if cps.len() == 0 {
        let t = cps.push(cp);
        assert(t.drop_first() =~= Seq::<u32>::empty());
        assert(bytes_encode(t) == byte_unit(cp) + bytes_encode(t.drop_first()));
        assert(bytes_encode(t) =~= byte_unit(cp));
        assert(bytes_encode(cps) =~= Seq::<u8>::empty());
    } else {
        lemma_bytes_encode_push(cps.drop_first(), cp);
        assert(cps.push(cp).drop_first() =~= cps.drop_first().push(cp));
    }
}

/// Encode code points back to native Unix bytes: an escaped byte `U+DC80..=U+DCFF`
/// gives back its byte, a Unicode scalar its UTF-8 encoding, and any other value the
/// encoding of U+FFFD. The reverse of [`decode_bytes`].
pub fn encode_bytes(cps: &[CodePoint]) -> (out: Vec<u8>)
    ensures
        out@ == bytes_encode(cps@),
{
    let n = cps.len();
    let mut out: Vec<u8> = Vec::new();
    let mut i: usize = 0;
    while i < n
        invariant
            i <= n,
            n == cps@.len(),
            out@ == bytes_encode(cps@.take(i as int)),
        decreases n - i,
    {
        let cp = cps[i];
        proof {
            lemma_bytes_encode_push(cps@.take(i as int), cp);
            assert(cps@.take(i + 1) =~= cps@.take(i as int).push(cp));
        }
        let ghost before = out@;
        if 0xDC80 <= cp && cp <= 0xDCFF {
            out.push((cp - 0xDC00) as u8);
        } else if cp <= 0x7F {
            out.push((cp & 0x7F) as u8);
        } else if cp <= 0x7FF {
            out.push(0xC0 | ((cp >> 6) & 0x1F) as u8);
            out.push(0x80 | (cp & 0x3F) as u8);
        } else if cp <= 0xFFFF && !(0xD800 <= cp && cp <= 0xDFFF) {
            out.push(0xE0 | ((cp >> 12) & 0x0F) as u8);
            out.push(0x80 | ((cp >> 6) & 0x3F) as u8);
            out.push(0x80 | (cp & 0x3F) as u8);
        } else if 0x10000 <= cp && cp <= 0x10FFFF {
            out.push(0xF0 | ((cp >> 18) & 0x7) as u8);
            out.push(0x80 | ((cp >> 12) & 0x3F) as u8);
            out.push(0x80 | ((cp >> 6) & 0x3F) as u8);
            out.push(0x80 | (cp & 0x3F) as u8);
        } else {
            out.push(0xEF);
            out.push(0xBF);
            out.push(0xBD);
        }
        assert(out@ =~= before + byte_unit(cp));
        i += 1;
    }
    assert(cps@.take(n as int) =~= cps@);
    out
}

/// Decode a pattern string into code points: each character's scalar value.
pub fn decode_str(s: &str) -> (out: Vec<CodePoint>)
    ensures
        out@ == str_code_points(s@),
{
    let mut out: Vec<CodePoint> = Vec::new();
    for c in it: s.chars()
        invariant
            it.seq() == s@,
            out@ == str_code_points(it.seq().take(it.index() as int)),
    {
        let ghost before = out@;
        out.push(c as u32);
        assert(out@ =~= str_code_points(it.seq().take(it.index() + 1)));
    }
    assert(s@.take(s@.len() as int) =~= s@);
    out
}


/// Whether `cp` is a Unicode scalar value (a code point that is not a surrogate).
pub open spec fn is_scalar(cp: u32) -> bool {
    cp < 0xD800 || (0xE000 <= cp && cp <= 0x10FFFF)
}

/// The character a code point renders as in a lossy string: itself when it is a
/// scalar value, U+FFFD otherwise.
pub open spec fn lossy_char(cp: u32) -> char {
    if is_scalar(cp) {
        cp as char
    } else {
        '\u{FFFD}'
    }
}

/// The lossy rendering of a code-point sequence.
pub open spec fn lossy_chars(cps: Seq<u32>) -> Seq<char> {
    Seq::new(cps.len(), |i: int| lossy_char(cps[i]))
}

/// `char::from_u32`: `Some` of the character exactly when `v` is a scalar value, as
/// std documents it.
#[verifier::external_body]
fn char_from_u32(v: u32) -> (r: Option<char>)
    ensures
        r == (if is_scalar(v) {
            Some(v as char)
        } else {
            None::<char>
        }),
{
    char::from_u32(v)
}

/// `String::push`: appends one character.
#[verifier::external_body]
fn push_char(s: &mut String, c: char)
    ensures
        final(s)@ == old(s)@.push(c),
{
    s.push(c)
}

/// The lossy rendering of code points as characters: each one that is not a scalar
/// value (an unpaired surrogate or an escaped byte) becomes U+FFFD.
pub fn lossy_char_vec(cps: &[CodePoint]) -> (r: Vec<char>)
    ensures
        r@ == lossy_chars(cps@),
{
    let mut out: Vec<char> = Vec::new();
    let mut i: usize = 0;
    while i < cps.len()
        invariant
            i <= cps@.len(),
            out@ == lossy_chars(cps@).take(i as int),
        decreases cps@.len() - i,
    {
        let c = match char_from_u32(cps[i]) {
            Some(c) => c,
            None => '\u{FFFD}',
        };
        out.push(c);
        i += 1;
        assert(out@ =~= lossy_chars(cps@).take(i as int));
    }
    assert(lossy_chars(cps@).take(cps@.len() as int) =~= lossy_chars(cps@));
    out
}

/// Render code points as a `String`, mapping each one that is not a scalar value
/// (an unpaired surrogate or an escaped byte) to U+FFFD.
pub fn lossy_string(cps: &[CodePoint]) -> (r: String)
    ensures
        r@ == lossy_chars(cps@),
{
    let v = lossy_char_vec(cps);
    string_of(v.as_slice())
}

/// A `String` holding exactly `chars`.
pub fn string_of(chars: &[char]) -> (r: String)
    ensures
        r@ == chars@,
{
    let mut out = String::new();
    let mut i: usize = 0;
    while i < chars.len()
        invariant
            i <= chars@.len(),
            out@ == chars@.take(i as int),
        decreases chars@.len() - i,
    {
        push_char(&mut out, chars[i]);
        i += 1;
        assert(out@ =~= chars@.take(i as int));
    }
    assert(chars@.take(chars@.len() as int) =~= chars@);
    out
}

} // verus!

