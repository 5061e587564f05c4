//! An index-addressable immutable string blob.
//!
//! All pushed strings are concatenated into one byte buffer; a second buffer
//! holds, for every string, the exclusive end offset of its bytes.  The
//! start offset of string `i` is the end offset of string `i - 1` (or 0 for
//! the first string), so any string can be recovered in constant time.
use crate::text::bytes_into_string;
use crate::text::decode_exact;
use crate::text::lemma_encode_utf8_concat;
use crate::thin_buffer::byte_buf;
use crate::thin_buffer::byte_buf_as_slice;
use crate::thin_buffer::byte_buf_clone;
use crate::thin_buffer::byte_buf_new;
use crate::thin_buffer::byte_buf_extend;
use crate::thin_buffer::byte_buf_reserve;
use crate::thin_buffer::byte_buf_shrink_to_fit;
use crate::thin_buffer::end_buf;
use crate::thin_buffer::end_buf_as_slice;
use crate::thin_buffer::end_buf_clone;
use crate::thin_buffer::end_buf_new;
use crate::thin_buffer::end_buf_push;
use crate::thin_buffer::end_buf_reserve;
use crate::thin_buffer::end_buf_shrink_to_fit;
use vstd::prelude::*;
use vstd::slice::slice_subrange;
use vstd::slice::slice_to_vec;
use vstd::utf8::*;

verus! {

/// The concatenation of a sequence of character sequences.
pub open spec fn concat_chars(ss: Seq<Seq<char>>) -> Seq<char>
    decreases ss.len(),
{
    if ss.len() == 0 {
        Seq::<char>::empty()
    } else {
        concat_chars(ss.drop_last()) + ss.last()
    }
}

/// Two containers whose buffers hold the same contents are equally
/// well-formed.
proof fn lemma_same_views_same_wf(a: Strings, b: Strings)
    requires
        a.wf(),
        byte_buf(b.strs) == byte_buf(a.strs),
        end_buf(b.ends) == end_buf(a.ends),
        b@ == a@,
    ensures
        b.wf(),
{
    assert forall|i: int| 0 <= i < b@.len() implies #[trigger] b.seg_start(i) == a.seg_start(
        i,
    ) by {}
}

/// Store any string efficiently in an immutable way.
///
/// Can store at most `u32::MAX` strings, the accumulated length
/// of these strings can be at most `u32::MAX` bytes.
pub struct Strings {
    strs: thin_vec::ThinVec<u8>,
    ends: thin_vec::ThinVec<u32>,
    contents: Ghost<Seq<Seq<char>>>,
}

impl View for Strings {
    type V = Seq<Seq<char>>;

    closed spec fn view(&self) -> Seq<Seq<char>> {
        self.contents@
    }
}

impl Strings {
    /// Start offset (into the byte buffer) of the `i`-th string.
    pub(crate) closed spec fn seg_start(self, i: int) -> int {
        if i == 0 {
            0
        } else {
            end_buf(self.ends)[i - 1] as int
        }
    }

    /// The representation invariant: the offset table is monotone, ends at
    /// the buffer's length, and each offset range holds the UTF-8 encoding
    /// of the corresponding string.
    pub closed spec fn wf(self) -> bool {
        let m = self.contents@;
        let ends = end_buf(self.ends);
        let bytes = byte_buf(self.strs);
        &&& ends.len() == m.len()
        &&& m.len() <= u32::MAX
        &&& bytes.len() <= u32::MAX
        &&& forall|i: int|
            0 <= i < m.len() ==> 0 <= #[trigger] self.seg_start(i) <= ends[i] <= bytes.len()
        &&& forall|i: int|
            0 <= i < m.len() ==> bytes.subrange(self.seg_start(i), ends[i] as int) == encode_utf8(
                #[trigger] m[i],
            )
        &&& bytes == encode_utf8(concat_chars(m))
        &&& m.len() > 0 ==> ends[m.len() - 1] as int == bytes.len()
        &&& m.len() == 0 ==> bytes.len() == 0
    }

    /// Total number of bytes currently stored, as a mathematical value.
    pub open spec fn spec_strs_len(self) -> nat {
        encode_utf8(concat_chars(self@)).len()
    }

    /// The invariant bounds the element count and the total byte length.
    pub proof fn lemma_wf_limits(&self)
        requires
            self.wf(),
        ensures
            self@.len() <= u32::MAX,
            encode_utf8(concat_chars(self@)).len() <= u32::MAX,
    {
    }

    pub fn new() -> (r: Self)
        ensures
            r.wf(),
            r@ == Seq::<Seq<char>>::empty(),
    {
        let r = Strings { strs: byte_buf_new(), ends: end_buf_new(), contents: Ghost(Seq::empty()) };
        proof {
            assert(encode_utf8(concat_chars(r@)) =~= Seq::<u8>::empty());
        }
        r
    }

    /// Appends one string.
    ///
    /// The container can hold at most `u32::MAX` strings and at most
    /// `u32::MAX` accumulated bytes; a call that would step over either
    /// limit is excluded by precondition instead of aborting at run time.
    pub fn push(&mut self, s: &str)
        requires
            old(self).wf(),
            old(self)@.len() < u32::MAX,
            old(self).spec_strs_len() + encode_utf8(s@).len() <= u32::MAX,
        ensures
            final(self).wf(),
            final(self)@ == old(self)@.push(s@),
    {
        let ghost m0 = self.contents@;
        let bytes = s.as_bytes();
        byte_buf_extend(&mut self.strs, bytes);
        let total = byte_buf_as_slice(&self.strs).len();
        proof {
            assert(m0.push(s@).drop_last() =~= m0);
            lemma_encode_utf8_concat(concat_chars(m0), s@);
        }
        end_buf_push(&mut self.ends, total as u32);
        self.contents = Ghost(m0.push(s@));
        proof {
            let m = self.contents@;
            let ends = end_buf(self.ends);
            let all = byte_buf(self.strs);
            let old_bytes = byte_buf(old(self).strs);
            assert(concat_chars(m) == concat_chars(m0) + s@);
            assert(all == encode_utf8(concat_chars(m)));
            assert forall|i: int| 0 <= i < m.len() implies 0 <= #[trigger] self.seg_start(i)
                <= ends[i] <= all.len() by {
                if i < m0.len() {
                    assert(self.seg_start(i) == old(self).seg_start(i));
                    assert(old(self).seg_start(i) <= end_buf(old(self).ends)[i]);
                } else {
                    assert(self.seg_start(i) == old_bytes.len());
                }
            }
            assert forall|i: int| 0 <= i < m.len() implies all.subrange(
                self.seg_start(i),
                ends[i] as int,
            ) == encode_utf8(#[trigger] m[i]) by {
                if i < m0.len() {
                    assert(self.seg_start(i) == old(self).seg_start(i));
                    assert(all.subrange(self.seg_start(i), ends[i] as int) =~= old_bytes.subrange(
                        old(self).seg_start(i),
                        end_buf(old(self).ends)[i] as int,
                    ));
                } else {
                    assert(all.subrange(self.seg_start(i), ends[i] as int) =~= encode_utf8(s@));
                }
            }
        }
    }

    /// Accumulated byte length of all stored strings.
    pub fn strs_len(&self) -> (r: u32)
        requires
            self.wf(),
        ensures
            r == self.spec_strs_len(),
    {
        byte_buf_as_slice(&self.strs).len() as u32
    }

    /// Number of stored strings.
    pub fn len(&self) -> (r: u32)
        requires
            self.wf(),
        ensures
            r == self@.len(),
    {
        end_buf_as_slice(&self.ends).len() as u32
    }

    pub fn is_empty(&self) -> (r: bool)
        requires
            self.wf(),
        ensures
            r == (self@.len() == 0),
    {
        self.len() == 0
    }

    /// Pre-sizes the offset table for `strs_cnt` more strings.
    pub fn reserve(&mut self, strs_cnt: usize)
        requires
            old(self).wf(),
            old(self)@.len() + strs_cnt <= u32::MAX,
        ensures
            final(self).wf(),
            final(self)@ == old(self)@,
    {
        end_buf_reserve(&mut self.ends, strs_cnt);
        proof {
            lemma_same_views_same_wf(*old(self), *self);
        }
    }

    /// Pre-sizes the byte buffer for `cnt` more bytes.
    pub fn reserve_strs(&mut self, cnt: usize)
        requires
            old(self).wf(),
            old(self).spec_strs_len() + cnt <= u32::MAX,
        ensures
            final(self).wf(),
            final(self)@ == old(self)@,
    {
        byte_buf_reserve(&mut self.strs, cnt);
        proof {
            lemma_same_views_same_wf(*old(self), *self);
        }
    }

    pub fn shrink_to_fit(&mut self)
        requires
            old(self).wf(),
        ensures
            final(self).wf(),
            final(self)@ == old(self)@,
    {
        byte_buf_shrink_to_fit(&mut self.strs);
        end_buf_shrink_to_fit(&mut self.ends);
        proof {
            lemma_same_views_same_wf(*old(self), *self);
        }
    }

    /// Returns the `index`-th pushed string, or `None` past the end.
    pub fn get<'a>(&'a self, index: u32) -> (r: Option<&'a str>)
        requires
            self.wf(),
        ensures
            index < self@.len() ==> (r matches Some(s) && s@ == self@[index as int]),
            index >= self@.len() ==> r is None,
    {
        let ends = end_buf_as_slice(&self.ends);
        if (index as usize) >= ends.len() {
            return None;
        }
        let end = ends[index as usize];
        let start: u32 = if index == 0 {
            0
        } else {
            ends[(index - 1) as usize]
        };
        let bytes = byte_buf_as_slice(&self.strs);
        proof {
            assert(0 <= self.seg_start(index as int) <= end_buf(self.ends)[index as int]
                <= byte_buf(self.strs).len());
        }
        let seg = slice_subrange(bytes, start as usize, end as usize);
        Some(decode_exact(seg, Ghost(self@[index as int])))
    }

    /// The concatenation of all stored strings, borrowed.
    ///
    /// This is valid because the byte buffer is exactly the concatenation of
    /// the strings' encodings, with no separators.
    pub fn as_str<'a>(&'a self) -> (r: &'a str)
        requires
            self.wf(),
        ensures
            r@ == concat_chars(self@),
    {
        let bytes = byte_buf_as_slice(&self.strs);
        decode_exact(bytes, Ghost(concat_chars(self@)))
    }

    /// The concatenation of all stored strings, owned; consumes the container.
    pub fn into_str(self) -> (r: String)
        requires
            self.wf(),
        ensures
            r@ == concat_chars(self@),
    {
        let bytes = byte_buf_as_slice(&self.strs);
        let copied = slice_to_vec(bytes);
        proof {
            encode_utf8_valid_utf8(concat_chars(self@));
        }
        match bytes_into_string(copied) {
            Some(s) => {
                proof {
                    crate::text::lemma_encode_utf8_injective(s@, concat_chars(self@));
                }
                s
            },
            None => {
                proof {
                    assert(false);
                }
                String::new()
            },
        }
    }

    /// A fresh forward cursor over all stored strings.
    pub fn iter<'a>(&'a self) -> (r: StringsIter<'a>)
        requires
            self.wf(),
        ensures
            r.wf(),
            r.remaining() == self@,
    {
        let r = StringsIter { strings: self, pos: 0, start: 0 };
        proof {
            assert(r.remaining() =~= self@);
        }
        r
    }
}

impl Clone for Strings {
    /// Copies both buffers; the clone holds the same strings.
    fn clone(&self) -> (r: Self)
        ensures
            r@ == self@,
            self.wf() ==> r.wf(),
    {
        let r = Strings {
            strs: byte_buf_clone(&self.strs),
            ends: end_buf_clone(&self.ends),
            contents: Ghost(self.contents@),
        };
        proof {
            if self.wf() {
                lemma_same_views_same_wf(*self, r);
            }
        }
        r
    }
}

impl Default for Strings {
    fn default() -> (r: Self)
        ensures
            r.wf(),
            r@ == Seq::<Seq<char>>::empty(),
    {
        Strings::new()
    }
}

/// An independent forward cursor over a [`Strings`]; each call to
/// [`Strings::iter`] starts a fresh scan.
pub struct StringsIter<'a> {
    strings: &'a Strings,
    pos: usize,
    start: u32,
}

impl<'a> StringsIter<'a> {
    pub closed spec fn wf(self) -> bool {
        &&& self.strings.wf()
        &&& self.pos <= self.strings@.len()
        &&& self.start as int == self.strings.seg_start(self.pos as int)
    }

    /// The strings the cursor has not yielded yet, in order.
    pub closed spec fn remaining(self) -> Seq<Seq<char>> {
        self.strings@.skip(self.pos as int)
    }

    /// Number of strings the cursor will still yield.
    pub fn len(&self) -> (r: u32)
        requires
            self.wf(),
        ensures
            r == self.remaining().len(),
    {
        let total = end_buf_as_slice(&self.strings.ends).len();
        (total - self.pos) as u32
    }

    /// Yields the next string, or `None` when the cursor is exhausted.
    pub fn next(&mut self) -> (r: Option<&'a str>)
        requires
            old(self).wf(),
        ensures
            final(self).wf(),
            old(self).remaining().len() > 0 ==> (r matches Some(s) && s@ == old(
                self,
            ).remaining()[0] && final(self).remaining() == old(self).remaining().drop_first()),
            old(self).remaining().len() == 0 ==> r is None && *final(self) == *old(self),
    {
        let ends = end_buf_as_slice(&self.strings.ends);
        if self.pos >= ends.len() {
            return None;
        }
        let end = ends[self.pos];
        let bytes = byte_buf_as_slice(&self.strings.strs);
        let seg = slice_subrange(bytes, self.start as usize, end as usize);
        let s = decode_exact(seg, Ghost(self.strings@[self.pos as int]));
        self.pos = self.pos + 1;
        self.start = end;
        proof {
            assert(self.remaining() =~= old(self).remaining().drop_first());
        }
        Some(s)
    }
}

} // verus!
