//! Conversions between byte buffers and strings, together with the
//! UTF-8 facts that the containers need.
//!
//! The containers store string contents as UTF-8 bytes inside one shared
//! buffer.  [`vstd::utf8`] gives the mathematical model of the encoding
//! (`encode_utf8`, `valid_utf8` and their round-trip lemmas); the trusted
//! wrappers here connect the standard library's checked decoding functions
//! to that model.
use vstd::prelude::*;
use vstd::utf8::*;

verus! {

/// True when the sequence contains no null character.
pub open spec fn no_nul(s: Seq<char>) -> bool {
    forall|i: int| 0 <= i < s.len() ==> s[i] != '\0'
}

/// True when no sequence in the collection contains a null character.
pub open spec fn all_no_nul(ss: Seq<Seq<char>>) -> bool {
    forall|i: int| 0 <= i < ss.len() ==> no_nul(#[trigger] ss[i])
}

/// Relies on `core::str::from_utf8`: succeeds exactly on valid UTF-8 input,
/// and the returned string slice is a view of the given bytes.
#[verifier::external_body]
pub(crate) fn bytes_to_str(v: &[u8]) -> (r: Option<&str>)
    ensures
        valid_utf8(v@) <==> r is Some,
        r matches Some(s) ==> s@ == decode_utf8(v@) && encode_utf8(s@) == v@,
{
    core::str::from_utf8(v).ok()
}

/// Relies on `String::from_utf8`: succeeds exactly on valid UTF-8 input,
/// and the returned string owns exactly the given bytes.
#[verifier::external_body]
pub(crate) fn bytes_into_string(v: Vec<u8>) -> (r: Option<String>)
    ensures
        valid_utf8(v@) <==> r is Some,
        r matches Some(s) ==> s@ == decode_utf8(v@) && encode_utf8(s@) == v@,
{
    String::from_utf8(v).ok()
}

/// Relies on `String::push`: appends one character at the end.
#[verifier::external_body]
pub(crate) fn string_push_char(s: &mut String, c: char)
    ensures
        final(s)@ == old(s)@.push(c),
{
    s.push(c)
}

/// UTF-8 encodes each character on its own, so the encoding of a
/// concatenation is the concatenation of the encodings.
pub proof fn lemma_encode_utf8_concat(a: Seq<char>, b: Seq<char>)
    ensures
        encode_utf8(a + b) == encode_utf8(a) + encode_utf8(b),
    decreases a.len(),
{
    if a.len() == 0 {
        assert(a + b =~= b);
        assert(encode_utf8(a) + encode_utf8(b) =~= encode_utf8(b));
    } else {
        assert((a + b).len() != 0);
        assert((a + b)[0] == a[0]);
        assert((a + b).drop_first() =~= a.drop_first() + b);
        lemma_encode_utf8_concat(a.drop_first(), b);
        assert(encode_utf8(a + b) =~= encode_utf8(a) + encode_utf8(b));
    }
}

/// Two character sequences with the same UTF-8 encoding are equal.
pub proof fn lemma_encode_utf8_injective(a: Seq<char>, b: Seq<char>)
    requires
        encode_utf8(a) == encode_utf8(b),
    ensures
        a == b,
{
    encode_utf8_decode_utf8(a);
    encode_utf8_decode_utf8(b);
}

/// No byte of the UTF-8 encoding of a nonzero scalar is zero.
proof fn lemma_encode_scalar_no_zero(v: u32)
    requires
        is_scalar(v),
        v != 0,
    ensures
        forall|j: int| 0 <= j < encode_scalar(v).len() ==> encode_scalar(v)[j] != 0,
{
    if has_width_1_encoding(v) {
        assert((v & 0x7F) as u8 != 0) by (bit_vector)
            requires
                1 <= v <= 0x7F,
        ;
    } else if has_width_2_encoding(v) {
        assert(0xC0u8 | ((v >> 6) & 0x1F) as u8 != 0 && 0x80u8 | (v & 0x3F) as u8 != 0)
            by (bit_vector);
    } else if has_width_3_encoding(v) {
        assert(0xE0u8 | ((v >> 12) & 0x0F) as u8 != 0 && 0x80u8 | ((v >> 6) & 0x3F) as u8 != 0
            && 0x80u8 | (v & 0x3F) as u8 != 0) by (bit_vector);
    } else {
        assert(0xF0u8 | ((v >> 18) & 0x7) as u8 != 0 && 0x80u8 | ((v >> 12) & 0x3F) as u8 != 0
            && 0x80u8 | ((v >> 6) & 0x3F) as u8 != 0 && 0x80u8 | (v & 0x3F) as u8 != 0)
            by (bit_vector);
    }
}

/// The encoding of a sequence without null characters contains no zero byte.
pub proof fn lemma_encode_no_nul(s: Seq<char>)
    requires
        no_nul(s),
    ensures
        forall|j: int| 0 <= j < encode_utf8(s).len() ==> encode_utf8(s)[j] != 0,
    decreases s.len(),
{
    if s.len() != 0 {
        let v = s[0] as u32;
        char_is_scalar(s[0]);
        char_u32_cast(s[0], v);
        assert(v != 0) by {
            if v == 0 {
                assert((0u32 as char) == '\0');
            }
        }
        lemma_encode_scalar_no_zero(v);
        lemma_encode_no_nul(s.drop_first());
        assert forall|j: int| 0 <= j < encode_utf8(s).len() implies encode_utf8(s)[j] != 0 by {
            let head = encode_scalar(v);
            let tail = encode_utf8(s.drop_first());
            assert(encode_utf8(s) == head + tail);
            if j < head.len() {
                assert(encode_utf8(s)[j] == head[j]);
            } else {
                assert(encode_utf8(s)[j] == tail[j - head.len()]);
            }
        }
    }
}

/// A sequence with a null character encodes to bytes with a zero byte.
proof fn lemma_nul_gives_zero_byte(s: Seq<char>)
    requires
        !no_nul(s),
    ensures
        exists|j: int| 0 <= j < encode_utf8(s).len() && #[trigger] encode_utf8(s)[j] == 0,
    decreases s.len(),
{
    assert(s.len() > 0);
    if s[0] == '\0' {
        assert(('\0' as u32) == 0);
        assert(has_width_1_encoding(0));
        assert((0u32 & 0x7F) as u8 == 0) by (bit_vector);
        assert(encode_scalar(0)[0] == 0);
        assert(encode_utf8(s)[0] == 0);
    } else {
        let rest = s.drop_first();
        assert(!no_nul(rest)) by {
            let i0 = choose|i: int| 0 <= i < s.len() && s[i] == '\0';
            assert(rest[i0 - 1] == '\0');
        }
        lemma_nul_gives_zero_byte(rest);
        let j0 = choose|j: int|
            0 <= j < encode_utf8(rest).len() && #[trigger] encode_utf8(rest)[j] == 0;
        let head = encode_scalar(s[0] as u32);
        assert(encode_utf8(s) == head + encode_utf8(rest));
        assert(encode_utf8(s)[head.len() + j0] == 0);
    }
}

/// Scans the string's bytes for the null character's one-byte encoding.
pub(crate) fn str_has_nul(s: &str) -> (r: bool)
    ensures
        r == !no_nul(s@),
{
    let bytes = s.as_bytes();
    let n = bytes.len();
    let mut i: usize = 0;
    while i < n
        invariant
            n == bytes@.len(),
            bytes@ == encode_utf8(s@),
            i <= n,
            forall|j: int| 0 <= j < i ==> bytes@[j] != 0,
        decreases n - i,
    {
        if bytes[i] == 0 {
            proof {
                if no_nul(s@) {
                    lemma_encode_no_nul(s@);
                }
            }
            return true;
        }
        i = i + 1;
    }
    proof {
        if !no_nul(s@) {
            lemma_nul_gives_zero_byte(s@);
        }
    }
    false
}

/// Turns bytes that are known to be the encoding of `chars` back into a
/// string slice.
pub(crate) fn decode_exact<'a>(bytes: &'a [u8], Ghost(chars): Ghost<Seq<char>>) -> (r: &'a str)
    requires
        bytes@ == encode_utf8(chars),
    ensures
        r@ == chars,
{
    proof {
        encode_utf8_valid_utf8(chars);
    }
    match bytes_to_str(bytes) {
        Some(s) => {
            proof {
                lemma_encode_utf8_injective(s@, chars);
            }
            s
        },
        None => {
            proof {
                assert(false);
            }
            ""
        },
    }
}

} // verus!
