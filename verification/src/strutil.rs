//! Bridging between bytes and strings: the UTF-8 decoding entry point and
//! lemmas connecting ASCII character sequences to their byte encodings.

use crate::numeric::spec_ascii_of;
use vstd::prelude::*;
use vstd::utf8::decode_utf8;
use vstd::utf8::encode_scalar;
use vstd::utf8::encode_utf8;
use vstd::utf8::valid_utf8;

verus! {

#[verifier::external_type_specification]
#[verifier::external_body]
pub struct ExUtf8Error(core::str::Utf8Error);

/// Relies on `core::str::from_utf8`: it succeeds exactly on well-formed
/// UTF-8 and returns the string those bytes encode.
pub assume_specification[ core::str::from_utf8 ](v: &[u8]) -> (r: Result<
    &str,
    core::str::Utf8Error,
>)
    ensures
        (r is Ok) <==> valid_utf8(v@),
        r matches Ok(s) ==> s@ == decode_utf8(v@),
;

/// The characters that a sequence of ASCII bytes spells.
pub open spec fn spec_chars_of_ascii(b: Seq<u8>) -> Seq<char> {
    Seq::new(b.len(), |i: int| b[i] as char)
}

/// An ASCII character sequence encodes to one byte per character.
pub proof fn lemma_ascii_encode(s: Seq<char>)
    requires
        forall|i: int| 0 <= i < s.len() ==> ((#[trigger] s[i]) as u32) < 128,
    ensures
        encode_utf8(s) == spec_ascii_of(s),
    decreases s.len(),
{
    if s.len() == 0 {
        assert(encode_utf8(s) =~= spec_ascii_of(s));
    } else {
        let u = s[0] as u32;
        vstd::utf8::char_is_scalar(s[0]);
        lemma_encode_scalar_bytes(u);
        let rest = s.drop_first();
        assert forall|i: int| 0 <= i < rest.len() implies ((#[trigger] rest[i]) as u32)
            < 128 by {
            assert(rest[i] == s[i + 1]);
        }
        lemma_ascii_encode(rest);
        assert(encode_utf8(s) == encode_scalar(u) + encode_utf8(rest));
        assert(u < 0x80);
        assert(encode_scalar(u) =~= seq![u as u8]);
        assert(encode_scalar(u) == seq![u as u8]);
        let e = encode_utf8(s);
        assert(e.len() == 1 + rest.len());
        assert forall|j: int| 0 <= j < e.len() implies e[j] == spec_ascii_of(s)[j] by {
            if j == 0 {
                assert(e[0] == u as u8);
            } else {
                assert(e[j] == encode_utf8(rest)[j - 1]);
                assert(encode_utf8(rest)[j - 1] == spec_ascii_of(rest)[j - 1]);
                assert(spec_ascii_of(rest)[j - 1] == (rest[j - 1] as u32) as u8);
                assert(rest[j - 1] == s[j]);
            }
        }
        assert(encode_utf8(s) =~= spec_ascii_of(s));
    }
}

/// ASCII bytes are valid UTF-8 and decode to one character per byte.
pub proof fn lemma_chars_of_ascii(b: Seq<u8>)
    requires
        forall|i: int| 0 <= i < b.len() ==> #[trigger] b[i] < 128,
    ensures
        valid_utf8(b),
        decode_utf8(b) == spec_chars_of_ascii(b),
        encode_utf8(spec_chars_of_ascii(b)) == b,
{
    let cs = spec_chars_of_ascii(b);
    assert forall|i: int| 0 <= i < cs.len() implies ((#[trigger] cs[i]) as u32) < 128 by {
        assert(cs[i] == b[i] as char);
    }
    lemma_ascii_encode(cs);
    assert(encode_utf8(cs) =~= b);
    vstd::utf8::encode_utf8_valid_utf8(cs);
    vstd::utf8::encode_utf8_decode_utf8(cs);
}

/// Turns ASCII bytes into the string they spell.
pub fn ascii_to_string(v: &Vec<u8>) -> (r: String)
    requires
        forall|i: int| 0 <= i < v@.len() ==> #[trigger] v@[i] < 128,
    ensures
        r@ == spec_chars_of_ascii(v@),
{
    proof {
        lemma_chars_of_ascii(v@);
    }
    match core::str::from_utf8(v.as_slice()) {
        Ok(s) => s.to_owned(),
        Err(_) => {
            proof {
                assert(false);
            }
            String::new()
        },
    }
}

/// Renders a number as a decimal string.
pub fn dec_u64_string(n: u64) -> (r: String)
    ensures
        r@ == crate::numeric::spec_dec_digits(n as nat),
{
    let mut digits: Vec<u8> = Vec::new();
    crate::numeric::push_dec_u64(&mut digits, n);
    proof {
        let d = crate::numeric::spec_dec_digits(n as nat);
        crate::numeric::lemma_dec_digits_ascii(n as nat);
        assert forall|i: int| 0 <= i < digits@.len() implies #[trigger] digits@[i] < 128 by {
            assert(digits@[i] == (d[i] as u32) as u8);
        }
        lemma_ascii_encode(d);
        lemma_chars_of_ascii(digits@);
        vstd::utf8::encode_utf8_decode_utf8(d);
    }
    ascii_to_string(&digits)
}

/// Appends a string's UTF-8 bytes to `out`.
pub fn push_str_bytes(out: &mut Vec<u8>, s: &str)
    ensures
        final(out)@ == old(out)@ + encode_utf8(s@),
{
    out.extend_from_slice(s.as_bytes());
}

/// Appends decimal digits, tracked at the character level.
pub fn push_dec_chars(out: &mut Vec<u8>, n: u64)
    ensures
        final(out)@ == old(out)@ + encode_utf8(crate::numeric::spec_dec_digits(n as nat)),
{
    crate::numeric::push_dec_u64(out, n);
    proof {
        crate::numeric::lemma_dec_digits_ascii(n as nat);
        lemma_ascii_encode(crate::numeric::spec_dec_digits(n as nat));
    }
}

/// Appends zero-padded hexadecimal digits, tracked at the character level.
pub fn push_hex_padded_chars(out: &mut Vec<u8>, n: u64, width: usize)
    ensures
        final(out)@ == old(out)@ + encode_utf8(
            crate::numeric::spec_zero_pad(
                crate::numeric::spec_hex_digits(n as nat),
                width as nat,
            ),
        ),
{
    crate::numeric::push_hex_u64_padded(out, n, width);
    proof {
        crate::numeric::lemma_hex_digits_ascii(n as nat);
        let d = crate::numeric::spec_hex_digits(n as nat);
        let p = crate::numeric::spec_zero_pad(d, width as nat);
        assert forall|i: int| 0 <= i < p.len() implies ((#[trigger] p[i]) as u32) < 128 by {
            if d.len() >= width as nat {
                assert(p[i] == d[i]);
            } else {
                let z = (width as nat - d.len()) as int;
                if i < z {
                    assert(p[i] == '0');
                } else {
                    assert(p[i] == d[i - z]);
                }
            }
        }
        lemma_ascii_encode(p);
    }
}

/// Appends unpadded hexadecimal digits, tracked at the character level.
pub fn push_hex_chars(out: &mut Vec<u8>, n: u64)
    ensures
        final(out)@ == old(out)@ + encode_utf8(crate::numeric::spec_hex_digits(n as nat)),
{
    crate::numeric::push_hex_u64(out, n);
    proof {
        crate::numeric::lemma_hex_digits_ascii(n as nat);
        lemma_ascii_encode(crate::numeric::spec_hex_digits(n as nat));
    }
}

/// Appends a signed decimal rendering, tracked at the character level.
pub fn push_i32_chars(out: &mut Vec<u8>, v: i32)
    ensures
        final(out)@ == old(out)@ + encode_utf8(crate::numeric::spec_int_digits(v as int)),
{
    crate::numeric::push_i32_dec(out, v);
    proof {
        crate::numeric::lemma_int_digits_ascii(v as int);
        lemma_ascii_encode(crate::numeric::spec_int_digits(v as int));
    }
}

/// UTF-8 encoding distributes over concatenation.
pub proof fn lemma_encode_utf8_concat(a: Seq<char>, b: Seq<char>)
    ensures
        encode_utf8(a + b) == encode_utf8(a) + encode_utf8(b),
    decreases a.len(),
{
    if a.len() == 0 {
        assert(a + b =~= b);
        assert(encode_utf8(a) =~= Seq::<u8>::empty());
        assert(encode_utf8(a) + encode_utf8(b) =~= encode_utf8(b));
    } else {
        lemma_encode_utf8_concat(a.drop_first(), b);
        assert((a + b).drop_first() =~= a.drop_first() + b);
        assert((a + b)[0] == a[0]);
        assert(encode_utf8(a + b) == encode_scalar(a[0] as u32) + (encode_utf8(a.drop_first())
            + encode_utf8(b)));
        assert(encode_scalar(a[0] as u32) + (encode_utf8(a.drop_first()) + encode_utf8(b))
            =~= (encode_scalar(a[0] as u32) + encode_utf8(a.drop_first())) + encode_utf8(b));
    }
}

/// In the encoding of a scalar, either the scalar is ASCII and encodes to
/// exactly its own byte, or every byte of the encoding is at least `0x80`.
pub proof fn lemma_encode_scalar_bytes(u: u32)
    requires
        vstd::utf8::is_scalar(u),
    ensures
        u < 0x80 ==> encode_scalar(u) =~= seq![u as u8],
        u >= 0x80 ==> forall|j: int|
            0 <= j < encode_scalar(u).len() ==> #[trigger] encode_scalar(u)[j] >= 0x80,
{
    if u < 0x80 {
        assert(vstd::utf8::leading_byte_width_1(u) == u as u8) by (bit_vector)
            requires
                u < 0x80,
        ;
    } else {
        assert(vstd::utf8::leading_byte_width_2(u) >= 0x80) by (bit_vector);
        assert(vstd::utf8::leading_byte_width_3(u) >= 0x80) by (bit_vector);
        assert(vstd::utf8::leading_byte_width_4(u) >= 0x80) by (bit_vector);
        assert(vstd::utf8::last_continuation_byte(u) >= 0x80) by (bit_vector);
        assert(vstd::utf8::second_last_continuation_byte(u) >= 0x80) by (bit_vector);
        assert(vstd::utf8::third_last_continuation_byte(u) >= 0x80) by (bit_vector);
    }
}

/// A byte below `0x80` occurs in a string's encoding exactly where the
/// corresponding ASCII character occurs in the string.
pub proof fn lemma_encode_ascii_byte_absent(s: Seq<char>, b: u8)
    requires
        b < 0x80,
        forall|i: int| 0 <= i < s.len() ==> (#[trigger] s[i]) as u32 != b as u32,
    ensures
        forall|j: int| 0 <= j < encode_utf8(s).len() ==> #[trigger] encode_utf8(s)[j] != b,
    decreases s.len(),
{
    if s.len() == 0 {
    } else {
        let u = s[0] as u32;
        vstd::utf8::char_is_scalar(s[0]);
        lemma_encode_scalar_bytes(u);
        let head = encode_scalar(u);
        let rest = s.drop_first();
        assert forall|i: int| 0 <= i < rest.len() implies (#[trigger] rest[i]) as u32
            != b as u32 by {
            assert(rest[i] == s[i + 1]);
        }
        lemma_encode_ascii_byte_absent(rest, b);
        assert(encode_utf8(s) == head + encode_utf8(rest));
        assert forall|j: int| 0 <= j < encode_utf8(s).len() implies #[trigger] encode_utf8(
            s,
        )[j] != b by {
            if j < head.len() {
                assert(encode_utf8(s)[j] == head[j]);
                if u < 0x80 {
                    assert(head[j] == u as u8);
                }
            } else {
                assert(encode_utf8(s)[j] == encode_utf8(rest)[j - head.len()]);
            }
        }
    }
}

} // verus!
