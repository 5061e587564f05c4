//! The wire form of the containers.
//!
//! A string is encoded as a 4-byte little-endian byte length followed by
//! its UTF-8 bytes.  [`Strings`] and [`StringsNoIndex`] are encoded as a
//! 4-byte little-endian element count followed by that many strings;
//! [`TwoStrs`] as its two strings with no count; [`SmallArrayBox`] over
//! bytes as a 4-byte count followed by the raw elements.  Decoding is
//! strict: it consumes the whole input or fails, and it reports which
//! element was missing when the declared count is not met.
use crate::small_array_box::SmallArrayBox;
use crate::strings::concat_chars;
use crate::strings::Strings;
use crate::strings_no_index::delim_bytes;
use crate::strings_no_index::StringsNoIndex;
use crate::text::all_no_nul;
use crate::text::bytes_to_str;
use crate::text::no_nul;
use crate::two_strs::TwoStrs;
use vstd::prelude::*;
use vstd::slice::slice_subrange;
use vstd::utf8::*;

verus! {

/// The four little-endian bytes of a 32-bit value.
pub open spec fn le4(n: u32) -> Seq<u8> {
    seq![
        (n & 0xFF) as u8,
        ((n >> 8) & 0xFF) as u8,
        ((n >> 16) & 0xFF) as u8,
        ((n >> 24) & 0xFF) as u8,
    ]
}

/// The wire form of one string: length prefix, then UTF-8 bytes.
pub open spec fn enc_str(s: Seq<char>) -> Seq<u8> {
    le4(encode_utf8(s).len() as u32) + encode_utf8(s)
}

/// The wire form of a sequence of strings, back to back.
pub open spec fn enc_str_seq(ss: Seq<Seq<char>>) -> Seq<u8>
    decreases ss.len(),
{
    if ss.len() == 0 {
        Seq::<u8>::empty()
    } else {
        enc_str(ss.first()) + enc_str_seq(ss.drop_first())
    }
}

/// True when every string of the sequence fits the 32-bit length prefix,
/// and the count fits the 32-bit count prefix.
pub open spec fn str_seq_bounded(ss: Seq<Seq<char>>) -> bool {
    &&& ss.len() <= u32::MAX
    &&& forall|i: int| 0 <= i < ss.len() ==> encode_utf8(#[trigger] ss[i]).len() <= u32::MAX
}

/// The wire form of a counted sequence of strings.
pub open spec fn enc_counted(ss: Seq<Seq<char>>) -> Seq<u8> {
    le4(ss.len() as u32) + enc_str_seq(ss)
}

/// The wire form of a pair of strings.
pub open spec fn enc_pair(a: Seq<char>, b: Seq<char>) -> Seq<u8> {
    enc_str(a) + enc_str(b)
}

/// The wire form of a counted sequence of raw bytes.
pub open spec fn enc_byte_seq(bs: Seq<u8>) -> Seq<u8> {
    le4(bs.len() as u32) + bs
}

/// True when `b` is the wire form of contents `m` that a [`Strings`] can
/// hold.
pub open spec fn strings_decodable(b: Seq<u8>, m: Seq<Seq<char>>) -> bool {
    &&& m.len() <= u32::MAX
    &&& encode_utf8(concat_chars(m)).len() <= u32::MAX
    &&& b == enc_counted(m)
}

/// A structured decoding fault.
#[derive(Clone, Copy, Debug, PartialEq, Eq, Structural)]
pub enum DecodeError {
    /// The input ends before the element count.
    Truncated,
    /// The declared element count is not matched: this element is missing
    /// or cut short.
    MissingElement { index: u32 },
    /// An element's bytes are not valid UTF-8.
    InvalidUtf8 { index: u32 },
    /// An element holds a null character, which the container cannot store.
    EmbeddedNul { index: u32 },
    /// The decoded contents would step over the container's capacity.
    CapacityExceeded,
    /// Input bytes remain after the declared contents.
    TrailingBytes,
}

/// The bytes that [`Strings::encode`] returns satisfy the exact premise of
/// [`Strings::decode`]'s success clause for the encoded contents: encoding
/// then decoding yields the contents back.
pub proof fn lemma_strings_round_trip(c: Strings)
    requires
        c.wf(),
    ensures
        strings_decodable(enc_counted(c@), c@),
{
    c.lemma_wf_limits();
}

/// The bytes that [`StringsNoIndex::encode`] returns satisfy the exact
/// premise of [`StringsNoIndex::decode`]'s success clause for the encoded
/// contents: encoding then decoding yields the contents back.
pub proof fn lemma_strings_no_index_round_trip(c: StringsNoIndex)
    requires
        c.wf(),
    ensures
        strings_no_index_decodable(enc_counted(c@), c@),
{
    c.lemma_wf_limits();
}

/// The bytes that [`TwoStrs::encode`] returns satisfy the exact premise of
/// [`TwoStrs::decode`]'s success clause for the encoded pair: encoding then
/// decoding yields the pair back.
pub proof fn lemma_two_strs_round_trip(t: TwoStrs)
    requires
        t.wf(),
        encode_utf8(t@.0).len() <= u32::MAX,
        encode_utf8(t@.1).len() <= u32::MAX,
    ensures
        two_strs_decodable(enc_pair(t@.0, t@.1), t@.0, t@.1),
{
    t.lemma_wf_no_nul();
}

/// The bytes that [`SmallArrayBox::encode`] returns satisfy the exact
/// premise of [`SmallArrayBox::decode`]'s success clause for the encoded
/// elements: encoding then decoding yields the elements back.
pub proof fn lemma_small_array_box_round_trip<const INLINE_LEN: usize>(
    c: SmallArrayBox<u8, INLINE_LEN>,
)
    requires
        c@.len() <= u32::MAX,
    ensures
        byte_seq_decodable(enc_byte_seq(c@), c@),
{
}

/// Distinct values have distinct little-endian bytes.
pub proof fn lemma_le4_injective(a: u32, b: u32)
    requires
        le4(a) == le4(b),
    ensures
        a == b,
{
    assert(le4(a)[0] == le4(b)[0] && le4(a)[1] == le4(b)[1] && le4(a)[2] == le4(b)[2] && le4(a)[3]
        == le4(b)[3]);
    assert(a == b) by (bit_vector)
        requires
            (a & 0xFF) as u8 == (b & 0xFF) as u8,
            ((a >> 8) & 0xFF) as u8 == ((b >> 8) & 0xFF) as u8,
            ((a >> 16) & 0xFF) as u8 == ((b >> 16) & 0xFF) as u8,
            ((a >> 24) & 0xFF) as u8 == ((b >> 24) & 0xFF) as u8,
    ;
}

/// Appending one string extends the wire form at its end.
proof fn lemma_enc_str_seq_push(ss: Seq<Seq<char>>, x: Seq<char>)
    ensures
        enc_str_seq(ss.push(x)) == enc_str_seq(ss) + enc_str(x),
    decreases ss.len(),
{
    if ss.len() == 0 {
        let p = ss.push(x);
        assert(p.len() == 1);
        assert(p.first() == x);
        assert(p.drop_first() =~= Seq::<Seq<char>>::empty());
        assert(enc_str_seq(p.drop_first()) == Seq::<u8>::empty());
        assert(enc_str_seq(p) =~= enc_str_seq(ss) + enc_str(x));
    } else {
        let p = ss.push(x);
        assert(p.len() == ss.len() + 1);
        assert(p.first() == ss.first());
        assert(p.drop_first() =~= ss.drop_first().push(x));
        lemma_enc_str_seq_push(ss.drop_first(), x);
        assert(enc_str_seq(p) == enc_str(ss.first()) + enc_str_seq(p.drop_first()));
        assert(enc_str_seq(p) =~= enc_str_seq(ss) + enc_str(x));
    }
}

/// One piece is no longer than the concatenation of all pieces.
proof fn lemma_piece_le_total(m: Seq<Seq<char>>, i: int)
    requires
        0 <= i < m.len(),
    ensures
        encode_utf8(m[i]).len() <= encode_utf8(concat_chars(m)).len(),
    decreases m.len(),
{
    crate::text::lemma_encode_utf8_concat(concat_chars(m.drop_last()), m.last());
    if i == m.len() - 1 {
    } else {
        lemma_piece_le_total(m.drop_last(), i);
        assert(m.drop_last()[i] == m[i]);
    }
}

/// A prefix of the pieces takes no more bytes than all of them.
proof fn lemma_concat_take_le(m: Seq<Seq<char>>, j: int)
    requires
        0 <= j <= m.len(),
    ensures
        encode_utf8(concat_chars(m.take(j))).len() <= encode_utf8(concat_chars(m)).len(),
    decreases m.len() - j,
{
    if j == m.len() {
        assert(m.take(j) =~= m);
    } else {
        assert(m.take(j + 1).drop_last() =~= m.take(j));
        assert(m.take(j + 1).last() == m[j]);
        crate::text::lemma_encode_utf8_concat(concat_chars(m.take(j)), m[j]);
        assert(concat_chars(m.take(j + 1)) == concat_chars(m.take(j)) + m[j]);
        lemma_concat_take_le(m, j + 1);
    }
}

/// Extending the stored pieces by one extends the concatenation's bytes by
/// that piece's bytes.
proof fn lemma_concat_take_step(m: Seq<Seq<char>>, j: int)
    requires
        0 <= j < m.len(),
    ensures
        encode_utf8(concat_chars(m.take(j + 1))) == encode_utf8(concat_chars(m.take(j)))
            + encode_utf8(m[j]),
{
    assert(m.take(j + 1).drop_last() =~= m.take(j));
    assert(m.take(j + 1).last() == m[j]);
    crate::text::lemma_encode_utf8_concat(concat_chars(m.take(j)), m[j]);
}

/// True when the bytes at `pos` begin with the complete wire form of `x`.
pub open spec fn starts_with_str(b: Seq<u8>, pos: int, x: Seq<char>) -> bool {
    &&& 0 <= pos
    &&& encode_utf8(x).len() <= u32::MAX
    &&& pos + 4 + encode_utf8(x).len() <= b.len()
    &&& b.subrange(pos, pos + 4 + encode_utf8(x).len()) == enc_str(x)
}

/// True when `b` is the complete counted wire form of `ss`.
pub open spec fn wire_counted(b: Seq<u8>, ss: Seq<Seq<char>>) -> bool {
    &&& str_seq_bounded(ss)
    &&& b == enc_counted(ss)
}

/// The views of a sequence of owned strings.
spec fn views_of(vs: Seq<String>) -> Seq<Seq<char>> {
    vs.map_values(|s: String| s@)
}

/// The wire form of a taken prefix is a prefix of the whole wire form.
proof fn lemma_enc_str_seq_take_prefix(ss: Seq<Seq<char>>, j: int)
    requires
        0 <= j <= ss.len(),
    ensures
        enc_str_seq(ss.take(j)).len() <= enc_str_seq(ss).len(),
        enc_str_seq(ss).subrange(0, enc_str_seq(ss.take(j)).len() as int) == enc_str_seq(
            ss.take(j),
        ),
    decreases ss.len() - j,
{
    if j == ss.len() {
        assert(ss.take(j) =~= ss);
        assert(enc_str_seq(ss).subrange(0, enc_str_seq(ss).len() as int) =~= enc_str_seq(ss));
    } else {
        assert(ss.take(j + 1) =~= ss.take(j).push(ss[j]));
        lemma_enc_str_seq_push(ss.take(j), ss[j]);
        lemma_enc_str_seq_take_prefix(ss, j + 1);
        assert(enc_str_seq(ss).subrange(0, enc_str_seq(ss.take(j)).len() as int) =~= enc_str_seq(
            ss.take(j),
        ));
    }
}

/// Where the `i`-th element's wire form stands inside the counted wire form.
proof fn lemma_counted_element(b: Seq<u8>, ss: Seq<Seq<char>>, i: int)
    requires
        wire_counted(b, ss),
        0 <= i < ss.len(),
    ensures
        starts_with_str(b, 4 + enc_str_seq(ss.take(i)).len() as int, ss[i]),
        4 + enc_str_seq(ss.take(i)).len() + 4 + encode_utf8(ss[i]).len() == 4 + enc_str_seq(
            ss.take(i + 1),
        ).len(),
        4 + enc_str_seq(ss.take(i + 1)).len() <= b.len(),
{
    let p = 4 + enc_str_seq(ss.take(i)).len() as int;
    let li = enc_str_seq(ss.take(i)).len() as int;
    let li1 = enc_str_seq(ss.take(i + 1)).len() as int;
    lemma_enc_str_seq_take_prefix(ss, i);
    lemma_enc_str_seq_take_prefix(ss, i + 1);
    assert(ss.take(i + 1) =~= ss.take(i).push(ss[i]));
    lemma_enc_str_seq_push(ss.take(i), ss[i]);
    assert(encode_utf8(ss[i]).len() <= u32::MAX);
    assert(enc_str_seq(ss).subrange(0, li1).subrange(li, li1) =~= enc_str(ss[i]));
    assert(enc_str_seq(ss).subrange(li, li1) =~= enc_str_seq(ss).subrange(0, li1).subrange(
        li,
        li1,
    ));
    assert(b.subrange(p, p + 4 + encode_utf8(ss[i]).len()) =~= enc_str_seq(ss).subrange(li, li1));
    assert(b.subrange(p, p + 4 + encode_utf8(ss[i]).len()) =~= enc_str(ss[i]));
}

/// Two string sequences with the same wire form and the same length are
/// equal.
proof fn lemma_enc_str_seq_injective(a: Seq<Seq<char>>, b: Seq<Seq<char>>)
    requires
        enc_str_seq(a) == enc_str_seq(b),
        a.len() == b.len(),
        str_seq_bounded(a),
        str_seq_bounded(b),
    ensures
        a == b,
    decreases a.len(),
{
    if a.len() == 0 {
        assert(a =~= b);
    } else {
        let d = enc_str_seq(a);
        let ea = encode_utf8(a[0]);
        let eb = encode_utf8(b[0]);
        assert(a.first() == a[0] && b.first() == b[0]);
        assert(d == enc_str(a[0]) + enc_str_seq(a.drop_first()));
        assert(d == enc_str(b[0]) + enc_str_seq(b.drop_first()));
        assert(d.subrange(0, 4) =~= le4(ea.len() as u32));
        assert(d.subrange(0, 4) =~= le4(eb.len() as u32));
        lemma_le4_injective(ea.len() as u32, eb.len() as u32);
        assert(ea.len() <= u32::MAX && eb.len() <= u32::MAX);
        assert(ea.len() == eb.len());
        assert(ea =~= d.subrange(4, 4 + ea.len() as int));
        assert(eb =~= d.subrange(4, 4 + eb.len() as int));
        crate::text::lemma_encode_utf8_injective(a[0], b[0]);
        assert(enc_str_seq(a.drop_first()) =~= d.subrange(
            4 + ea.len() as int,
            d.len() as int,
        ));
        assert(enc_str_seq(b.drop_first()) =~= d.subrange(
            4 + eb.len() as int,
            d.len() as int,
        ));
        assert(str_seq_bounded(a.drop_first())) by {
            assert(forall|i: int|
                0 <= i < a.drop_first().len() ==> #[trigger] a.drop_first()[i] == a[i + 1]);
        }
        assert(str_seq_bounded(b.drop_first())) by {
            assert(forall|i: int|
                0 <= i < b.drop_first().len() ==> #[trigger] b.drop_first()[i] == b[i + 1]);
        }
        lemma_enc_str_seq_injective(a.drop_first(), b.drop_first());
        assert forall|i: int| 0 <= i < a.len() implies a[i] == b[i] by {
            if i > 0 {
                assert(a.drop_first()[i - 1] == a[i]);
                assert(b.drop_first()[i - 1] == b[i]);
            }
        }
        assert(a =~= b);
    }
}

/// One byte sequence is the counted wire form of at most one string
/// sequence.
pub proof fn lemma_wire_counted_unique(b: Seq<u8>, ss1: Seq<Seq<char>>, ss2: Seq<Seq<char>>)
    requires
        wire_counted(b, ss1),
        wire_counted(b, ss2),
    ensures
        ss1 == ss2,
{
    assert(b.subrange(0, 4) =~= le4(ss1.len() as u32));
    assert(b.subrange(0, 4) =~= le4(ss2.len() as u32));
    lemma_le4_injective(ss1.len() as u32, ss2.len() as u32);
    assert(ss1.len() == ss2.len());
    assert(enc_str_seq(ss1) =~= b.subrange(4, b.len() as int));
    assert(enc_str_seq(ss2) =~= b.subrange(4, b.len() as int));
    lemma_enc_str_seq_injective(ss1, ss2);
}

/// Writes the four little-endian bytes of `n`.
fn write_u32_le(out: &mut Vec<u8>, n: u32)
    ensures
        final(out)@ == old(out)@ + le4(n),
{
    proof {
        assert(n & 0xFF < 256 && (n >> 8) & 0xFF < 256 && (n >> 16) & 0xFF < 256 && (n >> 24)
            & 0xFF < 256) by (bit_vector);
    }
    out.push((n & 0xFF) as u8);
    out.push(((n >> 8) & 0xFF) as u8);
    out.push(((n >> 16) & 0xFF) as u8);
    out.push(((n >> 24) & 0xFF) as u8);
    proof {
        assert(out@ =~= old(out)@ + le4(n));
    }
}

/// Reads a 32-bit value from four little-endian bytes.
fn read_u32_le(bytes: &[u8], pos: usize) -> (r: u32)
    requires
        pos + 4 <= bytes@.len(),
    ensures
        le4(r) == bytes@.subrange(pos as int, pos as int + 4),
{
    let b0 = bytes[pos];
    let b1 = bytes[pos + 1];
    let b2 = bytes[pos + 2];
    let b3 = bytes[pos + 3];
    let r = (b0 as u32) | ((b1 as u32) << 8) | ((b2 as u32) << 16) | ((b3 as u32) << 24);
    proof {
        assert((r & 0xFF) as u8 == b0 && ((r >> 8) & 0xFF) as u8 == b1 && ((r >> 16) & 0xFF) as u8
            == b2 && ((r >> 24) & 0xFF) as u8 == b3) by (bit_vector)
            requires
                r == (b0 as u32) | ((b1 as u32) << 8) | ((b2 as u32) << 16) | ((b3 as u32) << 24),
        ;
        assert(le4(r) =~= bytes@.subrange(pos as int, pos as int + 4));
    }
    r
}

/// One record's bytes are no longer than the whole delimited layout.
proof fn lemma_delim_piece_le(m: Seq<Seq<char>>, i: int)
    requires
        0 <= i < m.len(),
    ensures
        encode_utf8(m[i]).len() <= delim_bytes(m).len(),
    decreases m.len(),
{
    if i == 0 {
        assert(m.first() == m[0]);
    } else {
        lemma_delim_piece_le(m.drop_first(), i - 1);
        assert(m.drop_first()[i - 1] == m[i]);
    }
}

/// A prefix of the records takes no more layout bytes than all of them.
proof fn lemma_delim_take_le(m: Seq<Seq<char>>, j: int)
    requires
        0 <= j <= m.len(),
    ensures
        delim_bytes(m.take(j)).len() <= delim_bytes(m).len(),
    decreases m.len() - j,
{
    if j == m.len() {
        assert(m.take(j) =~= m);
    } else {
        assert(m.take(j + 1) =~= m.take(j).push(m[j]));
        crate::strings_no_index::lemma_delim_bytes_push(m.take(j), m[j]);
        lemma_delim_take_le(m, j + 1);
    }
}

/// Storing one more record extends the layout by its bytes and the
/// delimiter.
proof fn lemma_delim_take_step(m: Seq<Seq<char>>, j: int)
    requires
        0 <= j < m.len(),
    ensures
        delim_bytes(m.take(j + 1)).len() == delim_bytes(m.take(j)).len() + encode_utf8(
            m[j],
        ).len() + 1,
{
    assert(m.take(j + 1) =~= m.take(j).push(m[j]));
    crate::strings_no_index::lemma_delim_bytes_push(m.take(j), m[j]);
}

/// Two strings whose wire forms begin at the same place in the same bytes
/// are the same string.
proof fn lemma_enc_str_same_prefix(b: Seq<u8>, pos: int, x: Seq<char>, y: Seq<char>)
    requires
        starts_with_str(b, pos, x),
        starts_with_str(b, pos, y),
    ensures
        x == y,
{
    let lx = encode_utf8(x).len() as int;
    let ly = encode_utf8(y).len() as int;
    assert(b.subrange(pos, pos + 4) =~= b.subrange(pos, pos + 4 + lx).subrange(0, 4));
    assert(b.subrange(pos, pos + 4) =~= b.subrange(pos, pos + 4 + ly).subrange(0, 4));
    assert(enc_str(x).subrange(0, 4) =~= le4(encode_utf8(x).len() as u32));
    assert(enc_str(y).subrange(0, 4) =~= le4(encode_utf8(y).len() as u32));
    lemma_le4_injective(encode_utf8(x).len() as u32, encode_utf8(y).len() as u32);
    assert(lx == ly);
    assert(encode_utf8(x) =~= enc_str(x).subrange(4, 4 + lx));
    assert(encode_utf8(y) =~= enc_str(y).subrange(4, 4 + ly));
    assert(encode_utf8(x) == encode_utf8(y));
    crate::text::lemma_encode_utf8_injective(x, y);
}

/// Reads one length-prefixed string at `*pos`, advancing `*pos` past it.
/// `index` only labels the fault when the read fails.
fn read_str<'a>(bytes: &'a [u8], pos: &mut usize, index: u32) -> (r: Result<&'a str, DecodeError>)
    requires
        *old(pos) <= bytes@.len(),
    ensures
        r matches Ok(s) ==> ({
            &&& encode_utf8(s@).len() <= u32::MAX
            &&& *final(pos) == *old(pos) + 4 + encode_utf8(s@).len()
            &&& *final(pos) <= bytes@.len()
            &&& bytes@.subrange(*old(pos) as int, *final(pos) as int) == enc_str(s@)
        }),
        r matches Err(e) ==> (e == (DecodeError::MissingElement { index }) || e == (
        DecodeError::InvalidUtf8 { index })) && *final(pos) == *old(pos),
        (exists|x: Seq<char>| starts_with_str(bytes@, *old(pos) as int, x)) ==> r is Ok,
{
    let ghost p = *pos as int;
    let n = bytes.len();
    if n - *pos < 4 {
        proof {
            if exists|x: Seq<char>| starts_with_str(bytes@, p, x) {
                let x = choose|x: Seq<char>| starts_with_str(bytes@, p, x);
                assert(false);
            }
        }
        return Err(DecodeError::MissingElement { index });
    }
    let len = read_u32_le(bytes, *pos);
    let rest = n - (*pos + 4);
    proof {
        if exists|x: Seq<char>| starts_with_str(bytes@, p, x) {
            let x = choose|x: Seq<char>| starts_with_str(bytes@, p, x);
            assert(bytes@.subrange(p, p + 4) =~= enc_str(x).subrange(0, 4));
            assert(enc_str(x).subrange(0, 4) =~= le4(encode_utf8(x).len() as u32));
            lemma_le4_injective(len, encode_utf8(x).len() as u32);
            assert(len == encode_utf8(x).len());
        }
    }
    if (len as usize) > rest {
        proof {
            if exists|x: Seq<char>| starts_with_str(bytes@, p, x) {
                let x = choose|x: Seq<char>| starts_with_str(bytes@, p, x);
                assert(false);
            }
        }
        return Err(DecodeError::MissingElement { index });
    }
    let start = *pos + 4;
    let seg = slice_subrange(bytes, start, start + len as usize);
    proof {
        if exists|x: Seq<char>| starts_with_str(bytes@, p, x) {
            let x = choose|x: Seq<char>| starts_with_str(bytes@, p, x);
            let xl = encode_utf8(x).len() as int;
            assert(len == encode_utf8(x).len());
            assert(encode_utf8(x) =~= enc_str(x).subrange(4, 4 + xl));
            assert(bytes@.subrange(p, p + 4 + xl).subrange(4, 4 + xl) =~= bytes@.subrange(
                p + 4,
                p + 4 + xl,
            ));
            assert(seg@ =~= encode_utf8(x));
            encode_utf8_valid_utf8(x);
        }
    }
    match bytes_to_str(seg) {
        None => {
            proof {
                if exists|x: Seq<char>| starts_with_str(bytes@, p, x) {
                    assert(false);
                }
            }
            Err(DecodeError::InvalidUtf8 { index })
        },
        Some(s) => {
            *pos = start + len as usize;
            proof {
                assert(encode_utf8(s@) == seg@);
                assert(bytes@.subrange(p, *pos as int) =~= le4(len) + seg@);
                assert(le4(encode_utf8(s@).len() as u32) == le4(len));
            }
            Ok(s)
        },
    }
}

/// Parses a counted sequence of strings, strictly: the whole input must be
/// consumed.
fn decode_str_vec(bytes: &[u8]) -> (r: Result<Vec<String>, DecodeError>)
    ensures
        r matches Ok(vs) ==> wire_counted(bytes@, views_of(vs@)),
        (exists|ss: Seq<Seq<char>>| wire_counted(bytes@, ss)) ==> r is Ok,
{
    let ghost om: Option<Seq<Seq<char>>> = if exists|ss: Seq<Seq<char>>|
        wire_counted(bytes@, ss) {
        Some(choose|ss: Seq<Seq<char>>| wire_counted(bytes@, ss))
    } else {
        None
    };
    let n = bytes.len();
    if n < 4 {
        proof {
            if om is Some {
                let ss = om->0;
                assert(bytes@.len() >= le4(ss.len() as u32).len());
                assert(false);
            }
        }
        return Err(DecodeError::Truncated);
    }
    let count = read_u32_le(bytes, 0);
    proof {
        if om is Some {
            let ss = om->0;
            assert(bytes@.subrange(0, 4) =~= le4(ss.len() as u32));
            lemma_le4_injective(count, ss.len() as u32);
            assert(count == ss.len());
        }
    }
    let mut pos: usize = 4;
    let mut vs: Vec<String> = Vec::new();
    let mut i: u32 = 0;
    proof {
        assert(views_of(vs@) =~= Seq::<Seq<char>>::empty());
        assert(bytes@.subrange(0, 4) =~= le4(count) + enc_str_seq(views_of(vs@)));
        if om is Some {
            let ss = om->0;
            assert(ss.take(0) =~= Seq::<Seq<char>>::empty());
            assert(views_of(vs@) =~= ss.take(0));
        }
    }
    while i < count
        invariant
            n == bytes@.len(),
            i <= count,
            4 <= pos <= n,
            vs@.len() == i,
            bytes@.subrange(0, pos as int) == le4(count) + enc_str_seq(views_of(vs@)),
            pos == 4 + enc_str_seq(views_of(vs@)).len(),
            str_seq_bounded(views_of(vs@)),
            om matches Some(ss) ==> wire_counted(bytes@, ss) && ss.len() == count && views_of(
                vs@,
            ) == ss.take(i as int),
            om == (if exists|ss: Seq<Seq<char>>| wire_counted(bytes@, ss) {
                Some(choose|ss: Seq<Seq<char>>| wire_counted(bytes@, ss))
            } else {
                None::<Seq<Seq<char>>>
            }),
        decreases count - i,
    {
        proof {
            if om is Some {
                let ss = om->0;
                lemma_counted_element(bytes@, ss, i as int);
            }
        }
        let s = match read_str(bytes, &mut pos, i) {
            Err(e) => {
                proof {
                    if om is Some {
                        let ss = om->0;
                        lemma_counted_element(bytes@, ss, i as int);
                        assert(false);
                    }
                }
                return Err(e);
            },
            Ok(s) => s,
        };
        let ghost old_views = views_of(vs@);
        let ghost old_pos = pos - 4 - encode_utf8(s@).len();
        vs.push(s.to_owned());
        proof {
            assert(views_of(vs@) =~= old_views.push(s@));
            lemma_enc_str_seq_push(old_views, s@);
            assert(bytes@.subrange(0, pos as int) =~= bytes@.subrange(0, old_pos as int)
                + bytes@.subrange(old_pos as int, pos as int));
            assert(str_seq_bounded(views_of(vs@))) by {
                assert(forall|j: int|
                    0 <= j < old_views.len() ==> #[trigger] views_of(vs@)[j] == old_views[j]);
                assert(views_of(vs@)[old_views.len() as int] == s@);
            }
            if om is Some {
                let ss = om->0;
                assert(starts_with_str(bytes@, old_pos as int, ss[i as int]));
                assert(bytes@.subrange(
                    old_pos as int,
                    old_pos as int + 4 + encode_utf8(ss[i as int]).len(),
                ) == enc_str(ss[i as int]));
                assert(bytes@.subrange(old_pos as int, old_pos as int + 4).subrange(0, 4)
                    =~= bytes@.subrange(old_pos as int, old_pos as int + 4));
                assert(bytes@.subrange(old_pos as int, pos as int).subrange(0, 4) =~= le4(
                    encode_utf8(s@).len() as u32,
                ));
                assert(enc_str(ss[i as int]).subrange(0, 4) =~= le4(
                    encode_utf8(ss[i as int]).len() as u32,
                ));
                assert(bytes@.subrange(old_pos as int, old_pos as int + 4) =~= bytes@.subrange(
                    old_pos as int,
                    pos as int,
                ).subrange(0, 4));
                lemma_le4_injective(
                    encode_utf8(s@).len() as u32,
                    encode_utf8(ss[i as int]).len() as u32,
                );
                assert(encode_utf8(s@).len() == encode_utf8(ss[i as int]).len());
                assert(encode_utf8(s@) =~= bytes@.subrange(old_pos as int, pos as int).subrange(
                    4,
                    4 + encode_utf8(s@).len() as int,
                ));
                assert(encode_utf8(ss[i as int]) =~= enc_str(ss[i as int]).subrange(
                    4,
                    4 + encode_utf8(ss[i as int]).len() as int,
                ));
                assert(bytes@.subrange(old_pos as int, pos as int) == enc_str(s@));
                assert(encode_utf8(s@) == encode_utf8(ss[i as int]));
                crate::text::lemma_encode_utf8_injective(s@, ss[i as int]);
                assert(views_of(vs@) =~= ss.take(i as int + 1));
            }
        }
        i = i + 1;
    }
    if pos != n {
        proof {
            if om is Some {
                let ss = om->0;
                assert(ss.take(count as int) =~= ss);
                assert(false);
            }
        }
        return Err(DecodeError::TrailingBytes);
    }
    proof {
        assert(bytes@.subrange(0, n as int) =~= bytes@);
        assert(views_of(vs@).len() == count);
    }
    Ok(vs)
}

impl Strings {
    /// Encodes the container: element count, then every string in order.
    pub fn encode(&self) -> (r: Vec<u8>)
        requires
            self.wf(),
        ensures
            r@ == enc_counted(self@),
            str_seq_bounded(self@),
    {
        proof {
            self.lemma_wf_limits();
        }
        let count = self.len();
        let mut out: Vec<u8> = Vec::new();
        write_u32_le(&mut out, count);
        proof {
            assert(self@.take(0) =~= Seq::<Seq<char>>::empty());
            assert(out@ =~= le4(count) + enc_str_seq(self@.take(0)));
        }
        let mut i: u32 = 0;
        while i < count
            invariant
                self.wf(),
                count == self@.len(),
                i <= count,
                out@ == le4(count) + enc_str_seq(self@.take(i as int)),
            decreases count - i,
        {
            let s = match self.get(i) {
                Some(s) => s,
                None => {
                    proof {
                        assert(false);
                    }
                    ""
                },
            };
            proof {
                lemma_piece_le_total(self@, i as int);
                self.lemma_wf_limits();
            }
            write_u32_le(&mut out, s.len() as u32);
            out.extend_from_slice(s.as_bytes());
            proof {
                assert(self@.take(i as int).push(s@) =~= self@.take(i as int + 1));
                lemma_enc_str_seq_push(self@.take(i as int), s@);
                assert(out@ =~= le4(count) + enc_str_seq(self@.take(i as int + 1)));
            }
            i = i + 1;
        }
        proof {
            assert(self@.take(count as int) =~= self@);
            assert forall|j: int| 0 <= j < self@.len() implies encode_utf8(
                #[trigger] self@[j],
            ).len() <= u32::MAX by {
                lemma_piece_le_total(self@, j);
                self.lemma_wf_limits();
            }
        }
        out
    }

    /// Decodes a container from its wire form.  Succeeds exactly on the
    /// complete wire form of contents within the container's limits, and
    /// then returns a container holding those contents.
    pub fn decode(bytes: &[u8]) -> (r: Result<Strings, DecodeError>)
        ensures
            forall|m: Seq<Seq<char>>|
                #[trigger] strings_decodable(bytes@, m) ==> (r matches Ok(c) && c@ == m),
            r matches Ok(c) ==> c.wf() && bytes@ == enc_counted(c@),
    {
        proof {
            assert forall|m: Seq<Seq<char>>| #[trigger] strings_decodable(bytes@, m)
                implies wire_counted(bytes@, m) by {
                assert forall|j: int| 0 <= j < m.len() implies encode_utf8(
                    #[trigger] m[j],
                ).len() <= u32::MAX by {
                    lemma_piece_le_total(m, j);
                }
            }
        }
        let vs = match decode_str_vec(bytes) {
            Err(e) => {
                return Err(e);
            },
            Ok(vs) => vs,
        };
        let ghost views = views_of(vs@);
        let mut out = Strings::new();
        out.reserve(vs.len());
        let mut i: usize = 0;
        proof {
            assert(out@ =~= views.take(0));
        }
        while i < vs.len()
            invariant
                out.wf(),
                i <= vs@.len(),
                views == views_of(vs@),
                wire_counted(bytes@, views),
                out@ == views.take(i as int),
            decreases vs@.len() - i,
        {
            let s = vs[i].as_str();
            let cur = out.strs_len();
            let sl = s.len();
            proof {
                assert(views[i as int] == s@);
                if exists|m: Seq<Seq<char>>| strings_decodable(bytes@, m) {
                    let m = choose|m: Seq<Seq<char>>| strings_decodable(bytes@, m);
                    assert(wire_counted(bytes@, m)) by {
                        assert forall|j: int| 0 <= j < m.len() implies encode_utf8(
                            #[trigger] m[j],
                        ).len() <= u32::MAX by {
                            lemma_piece_le_total(m, j);
                        }
                    }
                    lemma_wire_counted_unique(bytes@, views, m);
                    lemma_concat_take_step(m, i as int);
                    lemma_concat_take_le(m, i as int + 1);
                    assert(cur + sl <= u32::MAX);
                }
            }
            if sl > (u32::MAX - cur) as usize {
                return Err(DecodeError::CapacityExceeded);
            }
            out.push(s);
            proof {
                assert(out@ =~= views.take(i as int + 1));
            }
            i = i + 1;
        }
        proof {
            assert(views.take(vs@.len() as int) =~= views);
            assert forall|m: Seq<Seq<char>>| #[trigger] strings_decodable(bytes@, m)
                implies out@ == m by {
                assert(wire_counted(bytes@, m)) by {
                    assert forall|j: int| 0 <= j < m.len() implies encode_utf8(
                        #[trigger] m[j],
                    ).len() <= u32::MAX by {
                        lemma_piece_le_total(m, j);
                    }
                }
                lemma_wire_counted_unique(bytes@, views, m);
            }
        }
        Ok(out)
    }
}

/// True when `b` is the wire form of contents `m` that a
/// [`StringsNoIndex`] can hold.
pub open spec fn strings_no_index_decodable(b: Seq<u8>, m: Seq<Seq<char>>) -> bool {
    &&& m.len() <= u32::MAX
    &&& delim_bytes(m).len() <= u32::MAX
    &&& all_no_nul(m)
    &&& b == enc_counted(m)
}

impl StringsNoIndex {
    /// Encodes the container: element count, then every string in order.
    pub fn encode(&self) -> (r: Vec<u8>)
        requires
            self.wf(),
        ensures
            r@ == enc_counted(self@),
            str_seq_bounded(self@),
    {
        proof {
            self.lemma_wf_limits();
        }
        let count = self.len();
        let mut out: Vec<u8> = Vec::new();
        write_u32_le(&mut out, count);
        proof {
            assert(self@.take(0) =~= Seq::<Seq<char>>::empty());
            assert(self@.skip(0) =~= self@);
            assert(out@ =~= le4(count) + enc_str_seq(self@.take(0)));
        }
        let mut it = self.iter();
        let mut i: u32 = 0;
        while i < count
            invariant
                self.wf(),
                count == self@.len(),
                i <= count,
                it.wf(),
                it.remaining() == self@.skip(i as int),
                out@ == le4(count) + enc_str_seq(self@.take(i as int)),
            decreases count - i,
        {
            let s = match it.next() {
                Some(s) => s,
                None => {
                    proof {
                        assert(false);
                    }
                    ""
                },
            };
            proof {
                assert(self@.skip(i as int)[0] == self@[i as int]);
                lemma_delim_piece_le(self@, i as int);
                self.lemma_wf_limits();
            }
            write_u32_le(&mut out, s.len() as u32);
            out.extend_from_slice(s.as_bytes());
            proof {
                assert(self@.take(i as int).push(s@) =~= self@.take(i as int + 1));
                lemma_enc_str_seq_push(self@.take(i as int), s@);
                assert(out@ =~= le4(count) + enc_str_seq(self@.take(i as int + 1)));
                assert(self@.skip(i as int).drop_first() =~= self@.skip(i as int + 1));
            }
            i = i + 1;
        }
        proof {
            assert(self@.take(count as int) =~= self@);
            assert forall|j: int| 0 <= j < self@.len() implies encode_utf8(
                #[trigger] self@[j],
            ).len() <= u32::MAX by {
                lemma_delim_piece_le(self@, j);
                self.lemma_wf_limits();
            }
        }
        out
    }

    /// Decodes a container from its wire form.  Succeeds exactly on the
    /// complete wire form of null-free contents within the container's
    /// limits, and then returns a container holding those contents.
    pub fn decode(bytes: &[u8]) -> (r: Result<StringsNoIndex, DecodeError>)
        ensures
            forall|m: Seq<Seq<char>>|
                #[trigger] strings_no_index_decodable(bytes@, m) ==> (r matches Ok(c) && c@
                    == m),
            r matches Ok(c) ==> c.wf() && bytes@ == enc_counted(c@),
    {
        let vs = match decode_str_vec(bytes) {
            Err(e) => {
                proof {
                    assert forall|m: Seq<Seq<char>>|
                        #[trigger] strings_no_index_decodable(bytes@, m) implies false by {
                        assert(wire_counted(bytes@, m)) by {
                            assert forall|j: int| 0 <= j < m.len() implies encode_utf8(
                                #[trigger] m[j],
                            ).len() <= u32::MAX by {
                                lemma_delim_piece_le(m, j);
                            }
                        }
                    }
                }
                return Err(e);
            },
            Ok(vs) => vs,
        };
        let ghost views = views_of(vs@);
        let mut out = StringsNoIndex::new();
        let mut i: usize = 0;
        proof {
            assert(out@ =~= views.take(0));
        }
        while i < vs.len()
            invariant
                out.wf(),
                i <= vs@.len(),
                views == views_of(vs@),
                wire_counted(bytes@, views),
                out@ == views.take(i as int),
            decreases vs@.len() - i,
        {
            let s = vs[i].as_str();
            proof {
                assert(views[i as int] == s@);
            }
            if crate::text::str_has_nul(s) {
                proof {
                    if exists|m: Seq<Seq<char>>| strings_no_index_decodable(bytes@, m) {
                        let m = choose|m: Seq<Seq<char>>| strings_no_index_decodable(bytes@, m);
                        assert(wire_counted(bytes@, m)) by {
                            assert forall|j: int| 0 <= j < m.len() implies encode_utf8(
                                #[trigger] m[j],
                            ).len() <= u32::MAX by {
                                lemma_delim_piece_le(m, j);
                            }
                        }
                        lemma_wire_counted_unique(bytes@, views, m);
                        assert(no_nul(m[i as int]));
                        assert(false);
                    }
                }
                return Err(DecodeError::EmbeddedNul { index: i as u32 });
            }
            let cur = out.strs_len();
            let sl = s.len();
            proof {
                out.lemma_wf_limits();
                if exists|m: Seq<Seq<char>>| strings_no_index_decodable(bytes@, m) {
                    let m = choose|m: Seq<Seq<char>>| strings_no_index_decodable(bytes@, m);
                    assert(wire_counted(bytes@, m)) by {
                        assert forall|j: int| 0 <= j < m.len() implies encode_utf8(
                            #[trigger] m[j],
                        ).len() <= u32::MAX by {
                            lemma_delim_piece_le(m, j);
                        }
                    }
                    lemma_wire_counted_unique(bytes@, views, m);
                    lemma_delim_take_step(m, i as int);
                    lemma_delim_take_le(m, i as int + 1);
                    assert(cur + sl + 1 <= u32::MAX);
                }
            }
            if sl >= (u32::MAX as usize) - cur {
                return Err(DecodeError::CapacityExceeded);
            }
            out.push(s);
            proof {
                assert(out@ =~= views.take(i as int + 1));
            }
            i = i + 1;
        }
        proof {
            assert(views.take(vs@.len() as int) =~= views);
            assert forall|m: Seq<Seq<char>>| #[trigger] strings_no_index_decodable(bytes@, m)
                implies out@ == m by {
                assert(wire_counted(bytes@, m)) by {
                    assert forall|j: int| 0 <= j < m.len() implies encode_utf8(
                        #[trigger] m[j],
                    ).len() <= u32::MAX by {
                        lemma_delim_piece_le(m, j);
                    }
                }
                lemma_wire_counted_unique(bytes@, views, m);
            }
        }
        Ok(out)
    }
}

/// True when `b` is the wire form of a pair that a [`TwoStrs`] can hold.
pub open spec fn two_strs_decodable(b: Seq<u8>, a: Seq<char>, c: Seq<char>) -> bool {
    &&& encode_utf8(a).len() <= u32::MAX
    &&& encode_utf8(c).len() <= u32::MAX
    &&& no_nul(a)
    &&& no_nul(c)
    &&& b == enc_pair(a, c)
}

impl TwoStrs {
    /// Encodes the pair: both strings in order, with no count prefix.
    pub fn encode(&self) -> (r: Vec<u8>)
        requires
            self.wf(),
            encode_utf8(self@.0).len() <= u32::MAX,
            encode_utf8(self@.1).len() <= u32::MAX,
        ensures
            r@ == enc_pair(self@.0, self@.1),
    {
        let (s1, s2) = self.get();
        let mut out: Vec<u8> = Vec::new();
        write_u32_le(&mut out, s1.len() as u32);
        out.extend_from_slice(s1.as_bytes());
        write_u32_le(&mut out, s2.len() as u32);
        out.extend_from_slice(s2.as_bytes());
        proof {
            assert(out@ =~= enc_pair(self@.0, self@.1));
        }
        out
    }

    /// Decodes a pair from its wire form.  Succeeds exactly on the complete
    /// wire form of two null-free strings that fit the length prefixes, and
    /// then returns a pair holding those strings.
    pub fn decode(bytes: &[u8]) -> (r: Result<TwoStrs, DecodeError>)
        ensures
            forall|a: Seq<char>, c: Seq<char>|
                #[trigger] two_strs_decodable(bytes@, a, c) ==> (r matches Ok(t) && t@ == (a, c)),
            r matches Ok(t) ==> t.wf() && bytes@ == enc_pair(t@.0, t@.1),
    {
        let ghost op: Option<(Seq<char>, Seq<char>)> = if exists|a: Seq<char>, c: Seq<char>|
            two_strs_decodable(bytes@, a, c) {
            Some(choose|a: Seq<char>, c: Seq<char>| two_strs_decodable(bytes@, a, c))
        } else {
            None
        };
        proof {
            if op is Some {
                let (a, c) = op->0;
                assert(bytes@.subrange(0, 4 + encode_utf8(a).len() as int) =~= enc_str(a));
                assert(starts_with_str(bytes@, 0, a));
            }
        }
        let mut pos: usize = 0;
        let s1 = match read_str(bytes, &mut pos, 0) {
            Err(e) => {
                proof {
                    if op is Some {
                        assert(false);
                    }
                }
                return Err(e);
            },
            Ok(s) => s,
        };
        proof {
            if op is Some {
                let (a, c) = op->0;
                assert(starts_with_str(bytes@, 0, s1@));
                lemma_enc_str_same_prefix(bytes@, 0, s1@, a);
                assert(bytes@.subrange(
                    pos as int,
                    pos as int + 4 + encode_utf8(c).len(),
                ) =~= enc_str(c));
                assert(starts_with_str(bytes@, pos as int, c));
            }
        }
        let ghost p1 = pos as int;
        let s2 = match read_str(bytes, &mut pos, 1) {
            Err(e) => {
                proof {
                    if op is Some {
                        assert(false);
                    }
                }
                return Err(e);
            },
            Ok(s) => s,
        };
        proof {
            if op is Some {
                let (a, c) = op->0;
                assert(starts_with_str(bytes@, p1, s2@));
                lemma_enc_str_same_prefix(bytes@, p1, s2@, c);
            }
        }
        if pos != bytes.len() {
            proof {
                if op is Some {
                    assert(false);
                }
            }
            return Err(DecodeError::TrailingBytes);
        }
        if crate::text::str_has_nul(s1) {
            proof {
                if op is Some {
                    assert(false);
                }
            }
            return Err(DecodeError::EmbeddedNul { index: 0 });
        }
        if crate::text::str_has_nul(s2) {
            proof {
                if op is Some {
                    assert(false);
                }
            }
            return Err(DecodeError::EmbeddedNul { index: 1 });
        }
        let t = TwoStrs::new(s1, s2);
        proof {
            crate::two_strs::lemma_strip_nul_id(s1@);
            crate::two_strs::lemma_strip_nul_id(s2@);
            assert(bytes@.subrange(0, p1) == enc_str(s1@));
            assert(bytes@.subrange(p1, pos as int) == enc_str(s2@));
            assert(bytes@ =~= bytes@.subrange(0, p1) + bytes@.subrange(p1, pos as int));
            assert(bytes@ == enc_pair(t@.0, t@.1));
            assert forall|a: Seq<char>, c: Seq<char>| #[trigger] two_strs_decodable(
                bytes@,
                a,
                c,
            ) implies t@ == (a, c) by {
                assert(bytes@.subrange(0, 4 + encode_utf8(a).len() as int) =~= enc_str(a));
                assert(starts_with_str(bytes@, 0, a));
                assert(starts_with_str(bytes@, 0, s1@));
                lemma_enc_str_same_prefix(bytes@, 0, s1@, a);
                assert(bytes@.subrange(p1, p1 + 4 + encode_utf8(c).len() as int) =~= enc_str(c));
                assert(starts_with_str(bytes@, p1, c));
                assert(starts_with_str(bytes@, p1, s2@));
                lemma_enc_str_same_prefix(bytes@, p1, s2@, c);
            }
        }
        Ok(t)
    }
}

/// True when `b` is the wire form of the byte contents `bs`.
pub open spec fn byte_seq_decodable(b: Seq<u8>, bs: Seq<u8>) -> bool {
    &&& bs.len() <= u32::MAX
    &&& b == enc_byte_seq(bs)
}

impl<const INLINE_LEN: usize> SmallArrayBox<u8, INLINE_LEN> {
    /// Encodes the container: element count, then the raw elements.
    pub fn encode(&self) -> (r: Vec<u8>)
        requires
            self@.len() <= u32::MAX,
        ensures
            r@ == enc_byte_seq(self@),
    {
        let elems = self.as_slice();
        let mut out: Vec<u8> = Vec::new();
        write_u32_le(&mut out, elems.len() as u32);
        out.extend_from_slice(elems);
        proof {
            assert(out@ =~= enc_byte_seq(self@));
        }
        out
    }

    /// Decodes a container from its wire form.  Succeeds exactly on the
    /// complete wire form of a byte sequence that fits the count prefix,
    /// and then returns a container holding those bytes, inline when they
    /// fit the inline capacity.
    pub fn decode(bytes: &[u8]) -> (r: Result<Self, DecodeError>)
        ensures
            forall|bs: Seq<u8>|
                #[trigger] byte_seq_decodable(bytes@, bs) ==> (r matches Ok(c) && c@ == bs
                    && c.wf() && (c.spec_is_inline() <==> bs.len() <= INLINE_LEN)),
            r matches Ok(c) ==> c.wf() && bytes@ == enc_byte_seq(c@),
    {
        let n = bytes.len();
        if n < 4 {
            proof {
                assert forall|bs: Seq<u8>| #[trigger] byte_seq_decodable(bytes@, bs)
                    implies false by {
                    assert(bytes@.len() >= le4(bs.len() as u32).len());
                }
            }
            return Err(DecodeError::Truncated);
        }
        let count = read_u32_le(bytes, 0);
        let rem = n - 4;
        proof {
            if exists|bs: Seq<u8>| byte_seq_decodable(bytes@, bs) {
                let bs = choose|bs: Seq<u8>| byte_seq_decodable(bytes@, bs);
                assert(bytes@.subrange(0, 4) =~= le4(bs.len() as u32));
                lemma_le4_injective(count, bs.len() as u32);
                assert(count == bs.len());
            }
        }
        if rem < count as usize {
            proof {
                if exists|bs: Seq<u8>| byte_seq_decodable(bytes@, bs) {
                    assert(false);
                }
            }
            return Err(DecodeError::MissingElement { index: rem as u32 });
        }
        if rem > count as usize {
            proof {
                if exists|bs: Seq<u8>| byte_seq_decodable(bytes@, bs) {
                    assert(false);
                }
            }
            return Err(DecodeError::TrailingBytes);
        }
        let seg = slice_subrange(bytes, 4, n);
        let v = vstd::slice::slice_to_vec(seg);
        let c = SmallArrayBox::<u8, INLINE_LEN>::new(v);
        proof {
            assert(bytes@ =~= enc_byte_seq(c@));
            if exists|bs: Seq<u8>| byte_seq_decodable(bytes@, bs) {
                let bs = choose|bs: Seq<u8>| byte_seq_decodable(bytes@, bs);
                assert(bs =~= bytes@.subrange(4, n as int));
            }
        }
        Ok(c)
    }
}

} // verus!
