//! A delimiter-indexed immutable string blob.
//!
//! All pushed strings are concatenated into one byte buffer, each followed
//! by a single `0x00` delimiter byte.  No offset table is stored, so the
//! container only supports forward sequential access; counting the strings
//! scans the buffer.  (A variant of this layout keeps an element count at
//! the head of the buffer; this implementation omits the prefix and trades
//! a constant-time `len` for a few bytes less overhead.)
//!
//! Pushed strings must not contain the null character: the delimiter byte
//! could otherwise not be told apart from string contents.
use crate::text::all_no_nul;
use crate::text::decode_exact;
use crate::text::lemma_encode_no_nul;
use crate::text::no_nul;
use crate::thin_buffer::byte_buf;
use crate::thin_buffer::byte_buf_as_slice;
use crate::thin_buffer::byte_buf_clone;
use crate::thin_buffer::byte_buf_extend;
use crate::thin_buffer::byte_buf_new;
use crate::thin_buffer::byte_buf_push;
use crate::thin_buffer::byte_buf_reserve;
use crate::thin_buffer::byte_buf_shrink_to_fit;
use vstd::prelude::*;
use vstd::slice::slice_subrange;
use vstd::utf8::*;

verus! {

/// The byte layout of a sequence of records: each string's UTF-8 encoding
/// followed by one `0x00` delimiter.
pub open spec fn delim_bytes(ss: Seq<Seq<char>>) -> Seq<u8>
    decreases ss.len(),
{
    if ss.len() == 0 {
        Seq::<u8>::empty()
    } else {
        encode_utf8(ss.first()) + seq![0u8] + delim_bytes(ss.drop_first())
    }
}

/// Number of zero bytes in a sequence.
pub open spec fn count_zeros(b: Seq<u8>) -> nat
    decreases b.len(),
{
    if b.len() == 0 {
        0
    } else {
        count_zeros(b.drop_last()) + (if b.last() == 0 {
            1nat
        } else {
            0nat
        })
    }
}

proof fn lemma_count_zeros_concat(a: Seq<u8>, b: Seq<u8>)
    ensures
        count_zeros(a + b) == count_zeros(a) + count_zeros(b),
    decreases b.len(),
{
    if b.len() == 0 {
        assert(a + b =~= a);
    } else {
        assert((a + b).drop_last() =~= a + b.drop_last());
        assert((a + b).last() == b.last());
        lemma_count_zeros_concat(a, b.drop_last());
    }
}

proof fn lemma_count_zeros_none(b: Seq<u8>)
    requires
        forall|j: int| 0 <= j < b.len() ==> b[j] != 0,
    ensures
        count_zeros(b) == 0,
    decreases b.len(),
{
    if b.len() != 0 {
        lemma_count_zeros_none(b.drop_last());
    }
}

/// With no embedded null characters, the layout holds exactly one zero byte
/// per record.
proof fn lemma_count_zeros_delim(ss: Seq<Seq<char>>)
    requires
        all_no_nul(ss),
    ensures
        count_zeros(delim_bytes(ss)) == ss.len(),
    decreases ss.len(),
{
    if ss.len() != 0 {
        let head = encode_utf8(ss.first());
        let rest = delim_bytes(ss.drop_first());
        lemma_encode_no_nul(ss.first());
        lemma_count_zeros_none(head);
        lemma_count_zeros_concat(head, seq![0u8]);
        lemma_count_zeros_concat(head + seq![0u8], rest);
        assert(count_zeros(seq![0u8]) == 1) by {
            let z = seq![0u8];
            assert(z.len() == 1);
            assert(z.last() == 0);
            assert(z.drop_last() =~= Seq::<u8>::empty());
            assert(count_zeros(z.drop_last()) == 0);
        }
        assert(all_no_nul(ss.drop_first())) by {
            assert(forall|i: int|
                0 <= i < ss.drop_first().len() ==> #[trigger] ss.drop_first()[i] == ss[i + 1]);
        }
        lemma_count_zeros_delim(ss.drop_first());
    }
}

/// The head of a nonempty layout: the first record's bytes, none of them
/// zero, closed by the first zero byte, with the remaining records after it.
proof fn lemma_delim_first_record(ss: Seq<Seq<char>>)
    requires
        ss.len() > 0,
        all_no_nul(ss),
    ensures
        delim_bytes(ss).len() > encode_utf8(ss[0]).len(),
        delim_bytes(ss)[encode_utf8(ss[0]).len() as int] == 0,
        forall|j: int| 0 <= j < encode_utf8(ss[0]).len() ==> delim_bytes(ss)[j] != 0,
        delim_bytes(ss).subrange(0, encode_utf8(ss[0]).len() as int) == encode_utf8(ss[0]),
        delim_bytes(ss).subrange(
            encode_utf8(ss[0]).len() as int + 1,
            delim_bytes(ss).len() as int,
        ) == delim_bytes(ss.drop_first()),
{
    let head = encode_utf8(ss[0]);
    let rest = delim_bytes(ss.drop_first());
    assert(ss.first() == ss[0]);
    lemma_encode_no_nul(ss[0]);
    assert(delim_bytes(ss) == head + seq![0u8] + rest);
    assert(delim_bytes(ss).subrange(0, head.len() as int) =~= head);
    assert(delim_bytes(ss).subrange(head.len() as int + 1, delim_bytes(ss).len() as int) =~= rest);
}

/// Two record sequences without null characters that lay out to the same
/// bytes are equal: a delimited layout determines its records.
pub proof fn lemma_delim_bytes_injective(a: Seq<Seq<char>>, b: Seq<Seq<char>>)
    requires
        delim_bytes(a) == delim_bytes(b),
        all_no_nul(a),
        all_no_nul(b),
    ensures
        a == b,
    decreases a.len(),
{
    if a.len() == 0 {
        if b.len() != 0 {
            lemma_delim_first_record(b);
        }
        assert(a =~= b);
    } else if b.len() == 0 {
        lemma_delim_first_record(a);
    } else {
        lemma_delim_first_record(a);
        lemma_delim_first_record(b);
        let ea = encode_utf8(a[0]);
        let eb = encode_utf8(b[0]);
        let d = delim_bytes(a);
        assert(ea.len() == eb.len()) by {
            if ea.len() < eb.len() {
                assert(d[ea.len() as int] == 0);
                assert(d[ea.len() as int] != 0);
            }
            if eb.len() < ea.len() {
                assert(d[eb.len() as int] == 0);
                assert(d[eb.len() as int] != 0);
            }
        }
        assert(ea == eb) by {
            assert(ea =~= d.subrange(0, ea.len() as int));
            assert(eb =~= d.subrange(0, eb.len() as int));
        }
        crate::text::lemma_encode_utf8_injective(a[0], b[0]);
        assert(delim_bytes(a.drop_first()) == delim_bytes(b.drop_first()));
        assert(all_no_nul(a.drop_first())) by {
            assert(forall|i: int|
                0 <= i < a.drop_first().len() ==> #[trigger] a.drop_first()[i] == a[i + 1]);
        }
        assert(all_no_nul(b.drop_first())) by {
            assert(forall|i: int|
                0 <= i < b.drop_first().len() ==> #[trigger] b.drop_first()[i] == b[i + 1]);
        }
        lemma_delim_bytes_injective(a.drop_first(), b.drop_first());
        assert(a.len() == b.len());
        assert forall|i: int| 0 <= i < a.len() implies a[i] == b[i] by {
            if i > 0 {
                assert(a.drop_first()[i - 1] == a[i]);
                assert(b.drop_first()[i - 1] == b[i]);
            }
        }
        assert(a =~= b);
    }
}

/// Appending one record extends the layout at its end.
pub(crate) proof fn lemma_delim_bytes_push(ss: Seq<Seq<char>>, x: Seq<char>)
    ensures
        delim_bytes(ss.push(x)) == delim_bytes(ss) + encode_utf8(x) + seq![0u8],
    decreases ss.len(),
{
    if ss.len() == 0 {
        let p = ss.push(x);
        assert(p.len() == 1);
        assert(p.first() == x);
        assert(p.drop_first() =~= Seq::<Seq<char>>::empty());
        assert(delim_bytes(p) == encode_utf8(x) + seq![0u8] + delim_bytes(p.drop_first()));
        assert(delim_bytes(p.drop_first()) == Seq::<u8>::empty());
        assert(delim_bytes(p) =~= delim_bytes(ss) + encode_utf8(x) + seq![0u8]);
    } else {
        let p = ss.push(x);
        assert(p.len() == ss.len() + 1);
        assert(p.first() == ss.first());
        assert(p.drop_first() =~= ss.drop_first().push(x));
        lemma_delim_bytes_push(ss.drop_first(), x);
        assert(delim_bytes(p) == encode_utf8(ss.first()) + seq![0u8] + delim_bytes(
            p.drop_first(),
        ));
        assert(delim_bytes(p.drop_first()) == delim_bytes(ss.drop_first()) + encode_utf8(x)
            + seq![0u8]);
        assert(delim_bytes(p) =~= delim_bytes(ss) + encode_utf8(x) + seq![0u8]);
    }
}

/// Store any string efficiently in an immutable way.
///
/// Can store at most `u32::MAX` strings and only provides
/// `StringsNoIndexIter` and does not provide arbitrary indexing.
pub struct StringsNoIndex {
    strs: thin_vec::ThinVec<u8>,
    contents: Ghost<Seq<Seq<char>>>,
}

impl View for StringsNoIndex {
    type V = Seq<Seq<char>>;

    closed spec fn view(&self) -> Seq<Seq<char>> {
        self.contents@
    }
}

impl StringsNoIndex {
    /// The representation invariant: the buffer is exactly the delimited
    /// layout of the stored strings, and none of them contains a null
    /// character.
    pub closed spec fn wf(self) -> bool {
        &&& byte_buf(self.strs) == delim_bytes(self.contents@)
        &&& all_no_nul(self.contents@)
        &&& self.contents@.len() <= u32::MAX
        &&& byte_buf(self.strs).len() <= u32::MAX
    }

    /// Total number of buffer bytes, delimiters included, as a mathematical
    /// value.
    pub open spec fn spec_strs_len(self) -> nat {
        delim_bytes(self@).len()
    }

    /// The invariant bounds the element count and the total byte length,
    /// and keeps the stored strings free of null characters.
    pub proof fn lemma_wf_limits(&self)
        requires
            self.wf(),
        ensures
            self@.len() <= u32::MAX,
            delim_bytes(self@).len() <= u32::MAX,
            all_no_nul(self@),
    {
    }

    pub fn new() -> (r: Self)
        ensures
            r.wf(),
            r@ == Seq::<Seq<char>>::empty(),
    {
        StringsNoIndex { strs: byte_buf_new(), contents: Ghost(Seq::empty()) }
    }

    /// * `len` - number of strings
    ///
    /// NOTE that this function ignores its argument and is defined just to
    /// be compatible with `Strings`.
    pub fn with_capacity(_len: u32) -> (r: Self)
        ensures
            r.wf(),
            r@ == Seq::<Seq<char>>::empty(),
    {
        Self::new()
    }

    /// Number of stored strings; scans the buffer.
    pub fn len(&self) -> (r: u32)
        requires
            self.wf(),
        ensures
            r == self@.len(),
    {
        let bytes = byte_buf_as_slice(&self.strs);
        proof {
            lemma_count_zeros_delim(self@);
        }
        let ghost all = bytes@;
        let mut cnt: u32 = 0;
        let mut i: usize = 0;
        while i < bytes.len()
            invariant
                bytes@ == all,
                i <= all.len(),
                all.len() <= u32::MAX,
                cnt == count_zeros(all.take(i as int)),
                cnt <= i,
            decreases all.len() - i,
        {
            proof {
                assert(all.take(i as int + 1).drop_last() =~= all.take(i as int));
                assert(all.take(i as int + 1).last() == all[i as int]);
            }
            if bytes[i] == 0 {
                cnt = cnt + 1;
            }
            i = i + 1;
        }
        proof {
            assert(all.take(all.len() as int) =~= all);
        }
        cnt
    }

    pub fn is_empty(&self) -> (r: bool)
        requires
            self.wf(),
        ensures
            r == (self@.len() == 0),
    {
        let bytes = byte_buf_as_slice(&self.strs);
        proof {
            if self@.len() > 0 {
                lemma_delim_first_record(self@);
            }
        }
        bytes.len() == 0
    }

    /// Appends one string.
    ///
    /// * `s` - must not contain a null character.
    ///
    /// The container can hold at most `u32::MAX` strings and at most
    /// `u32::MAX` buffer bytes; a call that would step over either limit is
    /// excluded by precondition instead of aborting at run time.
    pub fn push(&mut self, s: &str)
        requires
            old(self).wf(),
            no_nul(s@),
            old(self)@.len() < u32::MAX,
            old(self).spec_strs_len() + encode_utf8(s@).len() + 1 <= u32::MAX,
        ensures
            final(self).wf(),
            final(self)@ == old(self)@.push(s@),
    {
        let ghost m0 = self.contents@;
        let bytes = s.as_bytes();
        byte_buf_extend(&mut self.strs, bytes);
        byte_buf_push(&mut self.strs, 0);
        self.contents = Ghost(m0.push(s@));
        proof {
            lemma_delim_bytes_push(m0, s@);
            assert(byte_buf(self.strs) =~= delim_bytes(m0) + encode_utf8(s@) + seq![0u8]);
            assert(all_no_nul(m0.push(s@))) by {
                assert(forall|i: int|
                    0 <= i < m0.len() ==> #[trigger] m0.push(s@)[i] == m0[i]);
                assert(m0.push(s@)[m0.len() as int] == s@);
            }
        }
    }

    /// Total number of buffer bytes, delimiters included.
    pub fn strs_len(&self) -> (r: usize)
        requires
            self.wf(),
        ensures
            r == self.spec_strs_len(),
    {
        byte_buf_as_slice(&self.strs).len()
    }

    /// Pre-sizes the byte buffer for `cnt` more bytes.
    pub fn reserve_strs(&mut self, cnt: usize)
        requires
            old(self).wf(),
            old(self).spec_strs_len() + cnt <= u32::MAX,
        ensures
            final(self).wf(),
            final(self)@ == old(self)@,
    {
        byte_buf_reserve(&mut self.strs, cnt);
    }

    pub fn shrink_to_fit(&mut self)
        requires
            old(self).wf(),
        ensures
            final(self).wf(),
            final(self)@ == old(self)@,
    {
        byte_buf_shrink_to_fit(&mut self.strs);
    }

    /// A fresh forward cursor over all stored strings.
    pub fn iter<'a>(&'a self) -> (r: StringsNoIndexIter<'a>)
        requires
            self.wf(),
        ensures
            r.wf(),
            r.remaining() == self@,
    {
        let len = self.len();
        let slice = byte_buf_as_slice(&self.strs);
        proof {
            assert(slice@ == delim_bytes(self@) && all_no_nul(self@) && self@.len() == len);
        }
        let r = StringsNoIndexIter::new(slice, len);
        proof {
            lemma_delim_bytes_injective(r.remaining(), self@);
        }
        r
    }
}

impl Clone for StringsNoIndex {
    /// Copies the buffer; the clone holds the same strings.
    fn clone(&self) -> (r: Self)
        ensures
            r@ == self@,
            self.wf() ==> r.wf(),
    {
        StringsNoIndex { strs: byte_buf_clone(&self.strs), contents: Ghost(self.contents@) }
    }
}

impl Default for StringsNoIndex {
    fn default() -> (r: Self)
        ensures
            r.wf(),
            r@ == Seq::<Seq<char>>::empty(),
    {
        StringsNoIndex::new()
    }
}

/// A forward cursor over the delimited byte layout; yields one string per
/// record.  Each call to [`StringsNoIndex::iter`] starts a fresh scan.
pub struct StringsNoIndexIter<'a>(&'a [u8], u32);

impl<'a> StringsNoIndexIter<'a> {
    /// The cursor's bytes are the delimited layout of some null-free record
    /// sequence, whose length the cursor's counter holds.
    pub closed spec fn wf(self) -> bool {
        exists|ss: Seq<Seq<char>>|
            self.0@ == delim_bytes(ss) && all_no_nul(ss) && ss.len() == self.1
    }

    /// The strings the cursor has not yielded yet, in order.
    pub closed spec fn remaining(self) -> Seq<Seq<char>> {
        choose|ss: Seq<Seq<char>>|
            self.0@ == delim_bytes(ss) && all_no_nul(ss) && ss.len() == self.1
    }

    /// * `strs` - the delimited layout of `len` strings.
    pub fn new(strs: &'a [u8], len: u32) -> (r: Self)
        requires
            exists|ss: Seq<Seq<char>>|
                strs@ == delim_bytes(ss) && all_no_nul(ss) && ss.len() == len,
        ensures
            r.wf(),
            strs@ == delim_bytes(r.remaining()),
            all_no_nul(r.remaining()),
            r.remaining().len() == len,
    {
        StringsNoIndexIter(strs, len)
    }

    /// Number of strings the cursor will still yield.
    pub fn len(&self) -> (r: u32)
        requires
            self.wf(),
        ensures
            r == self.remaining().len(),
    {
        self.1
    }

    /// Yields the next string, or `None` when the cursor is exhausted.
    pub fn next(&mut self) -> (r: Option<&'a str>)
        requires
            old(self).wf(),
        ensures
            final(self).wf(),
            old(self).remaining().len() > 0 ==> (r matches Some(s) && s@ == old(
                self,
            ).remaining()[0] && final(self).remaining() == old(self).remaining().drop_first()),
            old(self).remaining().len() == 0 ==> r is None && *final(self) == *old(self),
    {
        let ghost ss = old(self).remaining();
        if self.0.is_empty() {
            proof {
                if ss.len() > 0 {
                    lemma_delim_first_record(ss);
                }
            }
            return None;
        }
        proof {
            lemma_delim_first_record(ss);
        }
        let ghost enc_len = encode_utf8(ss[0]).len() as int;
        let slice = self.0;
        let mut pos: usize = 0;
        while slice[pos] != 0
            invariant
                slice@ == delim_bytes(ss),
                ss.len() > 0,
                all_no_nul(ss),
                0 <= pos <= enc_len,
                enc_len == encode_utf8(ss[0]).len(),
                enc_len < slice@.len(),
                slice@[enc_len] == 0,
                forall|j: int| 0 <= j < enc_len ==> slice@[j] != 0,
            decreases enc_len - pos,
        {
            pos = pos + 1;
        }
        proof {
            assert(pos == enc_len);
        }
        let head = slice_subrange(slice, 0, pos);
        let s = decode_exact(head, Ghost(ss[0]));
        let rest = slice_subrange(slice, pos + 1, slice.len());
        self.0 = rest;
        self.1 = self.1 - 1;
        proof {
            let tail = ss.drop_first();
            assert(all_no_nul(tail)) by {
                assert(forall|i: int|
                    0 <= i < tail.len() ==> #[trigger] tail[i] == ss[i + 1]);
            }
            assert(self.0@ == delim_bytes(tail) && all_no_nul(tail) && tail.len() == self.1);
            lemma_delim_bytes_injective(self.remaining(), tail);
        }
        Some(s)
    }
}

} // verus!
