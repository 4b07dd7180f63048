use vstd::prelude::*;

verus! {

/// The byte standing for the six-bit group `v` in the standard base64
/// alphabet: `A`-`Z`, `a`-`z`, `0`-`9`, `+`, `/`.
pub open spec fn b64_digit(v: u8) -> u8
    recommends
        v < 64,
{
    if v < 26 {
        (65 + v) as u8  // 'A'..='Z'
    } else if v < 52 {
        (71 + v) as u8  // 'a'..='z'
    } else if v < 62 {
        (v - 4) as u8  // '0'..='9'
    } else if v == 62 {
        43  // '+'
    } else {
        47  // '/'
    }
}

/// The six-bit group a byte stands for in the base64 alphabet, if any.
pub open spec fn b64_value(b: u8) -> Option<u8> {
    if 65 <= b && b <= 90 {
        Some((b - 65) as u8)
    } else if 97 <= b && b <= 122 {
        Some((b - 71) as u8)
    } else if 48 <= b && b <= 57 {
        Some((b + 4) as u8)
    } else if b == 43 {
        Some(62u8)
    } else if b == 47 {
        Some(63u8)
    } else {
        None
    }
}

/// The four digits encoding a full group of three bytes.
pub open spec fn encode_group3(b0: u8, b1: u8, b2: u8) -> Seq<u8> {
    seq![
        b64_digit(b0 >> 2),
        b64_digit(((b0 & 3) << 4) | (b1 >> 4)),
        b64_digit(((b1 & 15) << 2) | (b2 >> 6)),
        b64_digit(b2 & 63),
    ]
}

/// A final group of two bytes: three digits and one `=` pad.
pub open spec fn encode_group2(b0: u8, b1: u8) -> Seq<u8> {
    seq![
        b64_digit(b0 >> 2),
        b64_digit(((b0 & 3) << 4) | (b1 >> 4)),
        b64_digit((b1 & 15) << 2),
        61,  // '='
    ]
}

/// A final group of one byte: two digits and two `=` pads.
pub open spec fn encode_group1(b0: u8) -> Seq<u8> {
    seq![b64_digit(b0 >> 2), b64_digit((b0 & 3) << 4), 61, 61]
}

/// Standard base64 with padding, as a function on byte sequences.
pub open spec fn spec_base64_encode(s: Seq<u8>) -> Seq<u8>
    decreases s.len(),
{
    if s.len() >= 3 {
        encode_group3(s[0], s[1], s[2]) + spec_base64_encode(s.skip(3))
    } else if s.len() == 2 {
        encode_group2(s[0], s[1])
    } else if s.len() == 1 {
        encode_group1(s[0])
    } else {
        Seq::empty()
    }
}

/// The three bytes encoded by four digit bytes, or `None` if one of them is
/// outside the alphabet.
pub open spec fn decode_quad(c0: u8, c1: u8, c2: u8, c3: u8) -> Option<Seq<u8>> {
    match (b64_value(c0), b64_value(c1), b64_value(c2), b64_value(c3)) {
        (Some(v0), Some(v1), Some(v2), Some(v3)) => Some(
            seq![(v0 << 2) | (v1 >> 4), ((v1 & 15) << 4) | (v2 >> 2), ((v2 & 3) << 6) | v3],
        ),
        _ => None,
    }
}

/// The bytes encoded by the final four-byte group, honouring `=` padding.
pub open spec fn decode_last_quad(c0: u8, c1: u8, c2: u8, c3: u8) -> Option<Seq<u8>> {
    if c2 == 61 && c3 == 61 {
        match (b64_value(c0), b64_value(c1)) {
            (Some(v0), Some(v1)) => Some(seq![(v0 << 2) | (v1 >> 4)]),
            _ => None,
        }
    } else if c3 == 61 {
        match (b64_value(c0), b64_value(c1), b64_value(c2)) {
            (Some(v0), Some(v1), Some(v2)) => Some(
                seq![(v0 << 2) | (v1 >> 4), ((v1 & 15) << 4) | (v2 >> 2)],
            ),
            _ => None,
        }
    } else {
        decode_quad(c0, c1, c2, c3)
    }
}

/// The inverse reading of [`spec_base64_encode`]: `None` on input that is not
/// a well-formed base64 encoding.
pub open spec fn spec_base64_decode(s: Seq<u8>) -> Option<Seq<u8>>
    decreases s.len(),
{
    if s.len() == 0 {
        Some(Seq::empty())
    } else if s.len() < 4 {
        None
    } else if s.len() == 4 {
        decode_last_quad(s[0], s[1], s[2], s[3])
    } else {
        match (decode_quad(s[0], s[1], s[2], s[3]), spec_base64_decode(s.skip(4))) {
            (Some(front), Some(rest)) => Some(front + rest),
            _ => None,
        }
    }
}

/// Reading a digit back through the alphabet recovers the six-bit group, and
/// a digit byte is never the pad byte `=` and is always ASCII.
pub proof fn lemma_digit_value(v: u8)
    requires
        v < 64,
    ensures
        b64_value(b64_digit(v)) == Some(v),
        b64_digit(v) != 61,
        b64_digit(v) < 128,
{
}

/// The encoding of a non-empty input is at least one full output group long.
pub proof fn lemma_base64_encode_len(s: Seq<u8>)
    ensures
        s.len() == 0 ==> spec_base64_encode(s).len() == 0,
        s.len() > 0 ==> spec_base64_encode(s).len() >= 4,
{
}

/// Every byte the encoder produces is ASCII.
pub proof fn lemma_base64_encode_ascii(s: Seq<u8>)
    ensures
        forall|i: int|
            0 <= i < spec_base64_encode(s).len() ==> #[trigger] spec_base64_encode(s)[i] < 128,
    decreases s.len(),
{
    let e = spec_base64_encode(s);
    if s.len() >= 3 {
        let b0 = s[0];
        let b1 = s[1];
        let b2 = s[2];
        assert((b0 >> 2) < 64 && (((b0 & 3) << 4) | (b1 >> 4)) < 64 && (((b1 & 15) << 2) | (b2
            >> 6)) < 64 && (b2 & 63) < 64) by (bit_vector);
        lemma_digit_value(b0 >> 2);
        lemma_digit_value(((b0 & 3) << 4) | (b1 >> 4));
        lemma_digit_value(((b1 & 15) << 2) | (b2 >> 6));
        lemma_digit_value(b2 & 63);
        lemma_base64_encode_ascii(s.skip(3));
        let front = encode_group3(b0, b1, b2);
        let rest = spec_base64_encode(s.skip(3));
        assert forall|i: int| 0 <= i < e.len() implies #[trigger] e[i] < 128 by {
            if i < 4 {
                assert(e[i] == front[i]);
            } else {
                assert(e[i] == rest[i - 4]);
            }
        }
    } else if s.len() == 2 {
        let b0 = s[0];
        let b1 = s[1];
        assert((b0 >> 2) < 64 && (((b0 & 3) << 4) | (b1 >> 4)) < 64 && ((b1 & 15) << 2)
            < 64) by (bit_vector);
        lemma_digit_value(b0 >> 2);
        lemma_digit_value(((b0 & 3) << 4) | (b1 >> 4));
        lemma_digit_value((b1 & 15) << 2);
    } else if s.len() == 1 {
        let b0 = s[0];
        assert((b0 >> 2) < 64 && ((b0 & 3) << 4) < 64) by (bit_vector);
        lemma_digit_value(b0 >> 2);
        lemma_digit_value((b0 & 3) << 4);
    }
}

/// Law: base64 round-trips — decoding what the encoder produced gives back
/// exactly the original bytes.
pub proof fn lemma_base64_round_trip(s: Seq<u8>)
    ensures
        spec_base64_decode(spec_base64_encode(s)) == Some(s),
    decreases s.len(),
{
    let e = spec_base64_encode(s);
    if s.len() == 0 {
        assert(s =~= Seq::<u8>::empty());
    } else if s.len() == 1 {
        let b0 = s[0];
        assert((b0 >> 2) < 64 && ((b0 & 3) << 4) < 64) by (bit_vector);
        lemma_digit_value(b0 >> 2);
        lemma_digit_value((b0 & 3) << 4);
        assert((((b0 >> 2) << 2) | (((b0 & 3) << 4) >> 4)) == b0) by (bit_vector);
        assert(seq![b0] =~= s);
    } else if s.len() == 2 {
        let b0 = s[0];
        let b1 = s[1];
        assert((b0 >> 2) < 64 && (((b0 & 3) << 4) | (b1 >> 4)) < 64 && ((b1 & 15) << 2)
            < 64) by (bit_vector);
        lemma_digit_value(b0 >> 2);
        lemma_digit_value(((b0 & 3) << 4) | (b1 >> 4));
        lemma_digit_value((b1 & 15) << 2);
        assert((((b0 >> 2) << 2) | ((((b0 & 3) << 4) | (b1 >> 4)) >> 4)) == b0) by (bit_vector);
        assert((((((b0 & 3) << 4) | (b1 >> 4)) & 15) << 4) | (((b1 & 15) << 2) >> 2)
            == b1) by (bit_vector);
        assert(seq![b0, b1] =~= s);
    } else {
        let b0 = s[0];
        let b1 = s[1];
        let b2 = s[2];
        assert((b0 >> 2) < 64 && (((b0 & 3) << 4) | (b1 >> 4)) < 64 && (((b1 & 15) << 2) | (b2
            >> 6)) < 64 && (b2 & 63) < 64) by (bit_vector);
        lemma_digit_value(b0 >> 2);
        lemma_digit_value(((b0 & 3) << 4) | (b1 >> 4));
        lemma_digit_value(((b1 & 15) << 2) | (b2 >> 6));
        lemma_digit_value(b2 & 63);
        assert((((b0 >> 2) << 2) | ((((b0 & 3) << 4) | (b1 >> 4)) >> 4)) == b0) by (bit_vector);
        assert((((((b0 & 3) << 4) | (b1 >> 4)) & 15) << 4) | (((((b1 & 15) << 2) | (b2 >> 6)))
            >> 2) == b1) by (bit_vector);
        assert((((((b1 & 15) << 2) | (b2 >> 6)) & 3) << 6) | (b2 & 63) == b2) by (bit_vector);
        let rest = s.skip(3);
        let erest = spec_base64_encode(rest);
        lemma_base64_round_trip(rest);
        if s.len() == 3 {
            assert(rest.len() == 0);
            assert(e =~= encode_group3(b0, b1, b2));
            assert(decode_last_quad(e[0], e[1], e[2], e[3]) == Some(seq![b0, b1, b2]));
            assert(seq![b0, b1, b2] =~= s);
        } else {
            lemma_base64_encode_len(rest);
            assert(e.len() >= 8);
            assert(e[0] == encode_group3(b0, b1, b2)[0]);
            assert(e[1] == encode_group3(b0, b1, b2)[1]);
            assert(e[2] == encode_group3(b0, b1, b2)[2]);
            assert(e[3] == encode_group3(b0, b1, b2)[3]);
            assert(e.skip(4) =~= erest);
            assert(decode_quad(e[0], e[1], e[2], e[3]) == Some(seq![b0, b1, b2]));
            assert(seq![b0, b1, b2] + rest =~= s);
        }
    }
}

/// The base64 alphabet, executably.
fn base64_digit(v: u8) -> (r: u8)
    requires
        v < 64,
    ensures
        r == b64_digit(v),
{
    if v < 26 {
        65 + v
    } else if v < 52 {
        71 + v
    } else if v < 62 {
        v - 4
    } else if v == 62 {
        43
    } else {
        47
    }
}

/// Appends the encoding of `bytes[i..]` to `out`, one three-byte group per
/// call.
fn encode_from(bytes: &Vec<u8>, i: usize, out: &mut Vec<u8>)
    requires
        i <= bytes@.len(),
    ensures
        final(out)@ == old(out)@ + spec_base64_encode(bytes@.skip(i as int)),
    decreases bytes@.len() - i,
{
    let ghost s = bytes@.skip(i as int);
    let n = bytes.len() - i;
    if n == 0 {
        proof {
            assert(s =~= Seq::<u8>::empty());
            assert(out@ + spec_base64_encode(s) =~= out@);
        }
    } else if n == 1 {
        let b0 = bytes[i];
        proof {
            assert((b0 >> 2) < 64 && ((b0 & 3) << 4) < 64) by (bit_vector);
        }
        out.push(base64_digit(b0 >> 2));
        out.push(base64_digit((b0 & 3) << 4));
        out.push(61);
        out.push(61);
        proof {
            assert(s[0] == b0);
            assert(out@ =~= old(out)@ + encode_group1(b0));
        }
    } else if n == 2 {
        let b0 = bytes[i];
        let b1 = bytes[i + 1];
        proof {
            assert((b0 >> 2) < 64 && (((b0 & 3) << 4) | (b1 >> 4)) < 64 && ((b1 & 15) << 2)
                < 64) by (bit_vector);
        }
        out.push(base64_digit(b0 >> 2));
        out.push(base64_digit(((b0 & 3) << 4) | (b1 >> 4)));
        out.push(base64_digit((b1 & 15) << 2));
        out.push(61);
        proof {
            assert(s[0] == b0 && s[1] == b1);
            assert(out@ =~= old(out)@ + encode_group2(b0, b1));
        }
    } else {
        let b0 = bytes[i];
        let b1 = bytes[i + 1];
        let b2 = bytes[i + 2];
        proof {
            assert((b0 >> 2) < 64 && (((b0 & 3) << 4) | (b1 >> 4)) < 64 && (((b1 & 15) << 2) | (
            b2 >> 6)) < 64 && (b2 & 63) < 64) by (bit_vector);
        }
        out.push(base64_digit(b0 >> 2));
        out.push(base64_digit(((b0 & 3) << 4) | (b1 >> 4)));
        out.push(base64_digit(((b1 & 15) << 2) | (b2 >> 6)));
        out.push(base64_digit(b2 & 63));
        encode_from(bytes, i + 3, out);
        proof {
            assert(s[0] == b0 && s[1] == b1 && s[2] == b2);
            assert(s.skip(3) =~= bytes@.skip(i + 3));
            assert(out@ =~= old(out)@ + encode_group3(b0, b1, b2) + spec_base64_encode(s.skip(3)));
            assert(out@ =~= old(out)@ + spec_base64_encode(s));
        }
    }
}

/// Standard base64 with padding.
pub fn base64_encode(bytes: &Vec<u8>) -> (r: Vec<u8>)
    ensures
        r@ == spec_base64_encode(bytes@),
{
    let mut out: Vec<u8> = Vec::new();
    encode_from(bytes, 0, &mut out);
    proof {
        assert(bytes@.skip(0) =~= bytes@);
        assert(Seq::<u8>::empty() + spec_base64_encode(bytes@) =~= spec_base64_encode(bytes@));
    }
    out
}

} // verus!
