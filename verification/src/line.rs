//! One input record: its original text, its lowercase text for
//! case-insensitive matching, the lowercase (byte offset, character) pairs
//! the scorer walks, and its stable load-time identity.
use crate::unicode::lower_of;
use vstd::prelude::*;
use vstd::string::StringExecFns;
use vstd::utf8::encode_utf8;

verus! {

/// The byte length of the UTF-8 encoding of a character sequence, as the
/// machine word `str::len` reports.
pub open spec fn byte_len(s: Seq<char>) -> int {
    encode_utf8(s).len() as usize as int
}

/// The pairs the scorer walks: one entry per character of `s`, carrying that
/// character and its byte offset in the UTF-8 encoding of `s`. Offsets are
/// strictly increasing and below `usize::MAX` (a string's byte length is
/// bounded by the largest allocation).
pub open spec fn pairs_of(pairs: Seq<(usize, char)>, s: Seq<char>) -> bool {
    &&& pairs.len() == s.len()
    &&& forall|i: int| 0 <= i < pairs.len() ==> #[trigger] pairs[i].1 == s[i]
    &&& forall|i: int|
        0 <= i < pairs.len() ==> #[trigger] pairs[i].0 as int == byte_len(s.take(i))
    &&& forall|i: int, j: int| 0 <= i < j < pairs.len() ==> pairs[i].0 < pairs[j].0
    &&& forall|i: int| 0 <= i < pairs.len() ==> #[trigger] pairs[i].0 < usize::MAX
}

/// Field-wise equality of two records, the meaning of `==` on `Line`.
pub open spec fn line_eq(a: Line, b: Line) -> bool {
    &&& a.index == b.index
    &&& a.buf@ == b.buf@
    &&& a.low_buf@ == b.low_buf@
    &&& a.low_char_vec@ == b.low_char_vec@
}

#[derive(Debug)]
pub struct Line {
    pub index: usize,
    pub buf: String,
    pub low_buf: String,
    pub low_char_vec: Vec<(usize, char)>,
}

impl Line {
    /// The lowercase text and offset pairs agree with the original text.
    pub open spec fn wf(self) -> bool {
        &&& self.low_buf@ == lower_of(self.buf@)
        &&& pairs_of(self.low_char_vec@, self.low_buf@)
    }

    pub fn new(index: usize, buf: String) -> (r: Line)
        ensures
            r.index == index,
            r.buf == buf,
            r.wf(),
    {
        let low_buf = crate::unicode::lowercase(buf.as_str());
        let low_char_vec = crate::unicode::char_index_pairs(low_buf.as_str());
        Line { index, buf, low_buf, low_char_vec }
    }

    /// The byte length of the original text.
    pub fn len(&self) -> (r: usize)
        ensures
            r as int == byte_len(self.buf@),
    {
        self.buf.as_str().len()
    }

    pub fn from(s: &str) -> (r: Line)
        ensures
            r.index == 0,
            r.buf@ == s@,
            r.wf(),
    {
        Line::new(0, String::from_str(s))
    }
}

impl PartialEq for Line {
    fn eq(&self, other: &Line) -> (r: bool) {
        if !(self.index == other.index && self.buf == other.buf && self.low_buf
            == other.low_buf) {
            return false;
        }
        if self.low_char_vec.len() != other.low_char_vec.len() {
            return false;
        }
        let n = self.low_char_vec.len();
        let mut i: usize = 0;
        while i < n
            invariant
                n == self.low_char_vec.len() == other.low_char_vec.len(),
                0 <= i <= n,
                forall|k: int| 0 <= k < i ==> self.low_char_vec@[k] == other.low_char_vec@[k],
            decreases n - i,
        {
            let a = self.low_char_vec[i];
            let b = other.low_char_vec[i];
            if !(a.0 == b.0 && a.1 == b.1) {
                return false;
            }
            i += 1;
        }
        proof {
            assert(self.low_char_vec@ =~= other.low_char_vec@);
        }
        true
    }
}

impl vstd::std_specs::cmp::PartialEqSpecImpl for Line {
    open spec fn obeys_eq_spec() -> bool {
        true
    }

    open spec fn eq_spec(&self, other: &Line) -> bool {
        line_eq(*self, *other)
    }
}

} // verus!
