//! Box of two strings.
//!
//! Both strings are packed into one buffer as `s1 ++ 0x00 ++ s2`; retrieval
//! scans for the single delimiter byte.  Null characters embedded in the
//! inputs are filtered out before encoding, so the delimiter position is
//! always unambiguous.
use crate::text::decode_exact;
use crate::text::lemma_encode_no_nul;
use crate::text::no_nul;
use crate::text::string_push_char;
use vstd::prelude::*;
use vstd::slice::slice_subrange;
use vstd::string::StrSliceExecFns;
use vstd::string::StringExecFns;
use vstd::utf8::*;

verus! {

/// The sequence with every null character removed.
pub open spec fn strip_nul(s: Seq<char>) -> Seq<char> {
    s.filter(|c: char| c != '\0')
}

/// A null-free sequence is unchanged by the filter.
pub proof fn lemma_strip_nul_id(s: Seq<char>)
    requires
        no_nul(s),
    ensures
        strip_nul(s) == s,
    decreases s.len(),
{
    reveal(Seq::<_>::filter);
    if s.len() == 0 {
        assert(strip_nul(s) =~= s);
    } else {
        assert(no_nul(s.drop_last())) by {
            assert(forall|i: int|
                0 <= i < s.drop_last().len() ==> #[trigger] s.drop_last()[i] == s[i]);
        }
        lemma_strip_nul_id(s.drop_last());
        assert(strip_nul(s) =~= s);
    }
}

/// The filtered sequence contains no null character.
proof fn lemma_strip_nul_no_nul(s: Seq<char>)
    ensures
        no_nul(strip_nul(s)),
{
    assert forall|i: int| 0 <= i < strip_nul(s).len() implies strip_nul(s)[i] != '\0' by {
        s.lemma_filter_pred(|c: char| c != '\0', i);
    }
}

/// Removes every null character from `s`.
fn strip_nul_exec(s: &str) -> (r: String)
    ensures
        r@ == strip_nul(s@),
        no_nul(r@),
{
    let n = s.unicode_len();
    let mut out = String::new();
    let mut i: usize = 0;
    proof {
        reveal(Seq::<_>::filter);
        assert(s@.take(0) =~= Seq::<char>::empty());
        assert(strip_nul(s@.take(0)) =~= Seq::<char>::empty());
    }
    while i < n
        invariant
            n == s@.len(),
            i <= n,
            out@ == strip_nul(s@.take(i as int)),
        decreases n - i,
    {
        let c = s.get_char(i);
        proof {
            reveal(Seq::<_>::filter);
            assert(s@.take(i as int + 1).drop_last() =~= s@.take(i as int));
            assert(s@.take(i as int + 1).last() == s@[i as int]);
        }
        if c != '\0' {
            string_push_char(&mut out, c);
        }
        i = i + 1;
    }
    proof {
        assert(s@.take(n as int) =~= s@);
        lemma_strip_nul_no_nul(s@);
    }
    out
}

/// Box of two strings.
/// Store two strings efficiently in an immutable way.
pub struct TwoStrs {
    buf: Vec<u8>,
    contents: Ghost<(Seq<char>, Seq<char>)>,
}

impl View for TwoStrs {
    type V = (Seq<char>, Seq<char>);

    closed spec fn view(&self) -> (Seq<char>, Seq<char>) {
        self.contents@
    }
}

impl TwoStrs {
    /// The representation invariant: the buffer holds the first string's
    /// encoding, one `0x00` delimiter, then the second string's encoding,
    /// and neither string contains a null character.
    pub closed spec fn wf(self) -> bool {
        &&& self.buf@ == encode_utf8(self@.0) + seq![0u8] + encode_utf8(self@.1)
        &&& no_nul(self@.0)
        &&& no_nul(self@.1)
    }

    /// The invariant keeps both stored strings free of null characters.
    pub proof fn lemma_wf_no_nul(&self)
        requires
            self.wf(),
        ensures
            no_nul(self@.0),
            no_nul(self@.1),
    {
    }

    /// Packs the two strings.  Null characters embedded in either input are
    /// filtered out.
    pub fn new(s1: &str, s2: &str) -> (r: Self)
        ensures
            r.wf(),
            r@ == (strip_nul(s1@), strip_nul(s2@)),
    {
        let t1 = strip_nul_exec(s1);
        let t2 = strip_nul_exec(s2);
        let mut buf: Vec<u8> = Vec::new();
        buf.extend_from_slice(t1.as_str().as_bytes());
        buf.push(0);
        buf.extend_from_slice(t2.as_str().as_bytes());
        let r = TwoStrs { buf, contents: Ghost((t1@, t2@)) };
        proof {
            assert(r.buf@ =~= encode_utf8(r@.0) + seq![0u8] + encode_utf8(r@.1));
        }
        r
    }

    /// The pair rendered as text: `(first, second)`.
    pub fn display_string(&self) -> (r: String)
        requires
            self.wf(),
        ensures
            r@ == "("@ + self@.0 + ", "@ + self@.1 + ")"@,
    {
        let (s1, s2) = self.get();
        let mut out = String::from_str("(");
        out.append(s1);
        out.append(", ");
        out.append(s2);
        out.append(")");
        proof {
            assert(out@ =~= "("@ + self@.0 + ", "@ + self@.1 + ")"@);
        }
        out
    }

    /// Returns both strings by locating the delimiter.
    pub fn get<'a>(&'a self) -> (r: (&'a str, &'a str))
        requires
            self.wf(),
        ensures
            r.0@ == self@.0,
            r.1@ == self@.1,
    {
        let ghost a = self@.0;
        let ghost b = self@.1;
        proof {
            lemma_encode_no_nul(a);
        }
        let ghost enc_len = encode_utf8(a).len() as int;
        let bytes = self.buf.as_slice();
        let mut pos: usize = 0;
        while bytes[pos] != 0
            invariant
                bytes@ == encode_utf8(a) + seq![0u8] + encode_utf8(b),
                0 <= pos <= enc_len,
                enc_len == encode_utf8(a).len(),
                enc_len < bytes@.len(),
                bytes@[enc_len] == 0,
                forall|j: int| 0 <= j < enc_len ==> bytes@[j] != 0,
            decreases enc_len - pos,
        {
            pos = pos + 1;
        }
        proof {
            assert(pos == enc_len);
        }
        let head = slice_subrange(bytes, 0, pos);
        let tail = slice_subrange(bytes, pos + 1, bytes.len());
        proof {
            assert(head@ =~= encode_utf8(a));
            assert(tail@ =~= encode_utf8(b));
        }
        (decode_exact(head, Ghost(a)), decode_exact(tail, Ghost(b)))
    }
}

} // verus!
