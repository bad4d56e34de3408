//! Trusted bindings for the Unicode-dependent operations the matcher and
//! renderer need: lowercasing, character classes, display widths, and the
//! few `String` operations vstd leaves unspecified.
use vstd::prelude::*;
use vstd::string::StrSliceExecFns;

verus! {

/// What `str::to_lowercase` returns for a given character sequence.
pub uninterp spec fn lower_of(s: Seq<char>) -> Seq<char>;

/// Relies on str::to_lowercase: the result depends on the characters alone.
#[verifier::external_body]
pub(crate) fn lowercase(s: &str) -> (r: String)
    ensures
        r@ == lower_of(s@),
{
    s.to_lowercase()
}

/// The first character `char::to_lowercase` yields for a given character.
pub uninterp spec fn char_lower(c: char) -> char;

/// Relies on char::to_lowercase: the mapping depends on the character alone,
/// and always yields at least one character.
#[verifier::external_body]
pub(crate) fn lowercase_char(c: char) -> (r: char)
    ensures
        r == char_lower(c),
{
    match c.to_lowercase().next() {
        Some(l) => l,
        None => c,
    }
}

/// Whether `char::is_alphanumeric` holds of a character.
pub uninterp spec fn is_word_char(c: char) -> bool;

/// Relies on char::is_alphanumeric: the class depends on the character alone.
#[verifier::external_body]
pub(crate) fn alphanumeric(c: char) -> (r: bool)
    ensures
        r == is_word_char(c),
{
    c.is_alphanumeric()
}

/// Whether `char::is_whitespace` holds of a character.
pub uninterp spec fn is_space_char(c: char) -> bool;

/// Relies on char::is_whitespace: the class depends on the character alone.
#[verifier::external_body]
pub(crate) fn whitespace(c: char) -> (r: bool)
    ensures
        r == is_space_char(c),
{
    c.is_whitespace()
}

/// What `unicode_width::UnicodeWidthChar::width` returns for a character:
/// its column width, or none for a control character.
pub uninterp spec fn char_width_of(c: char) -> Option<usize>;

/// Relies on unicode_width's UnicodeWidthChar::width: the width depends on
/// the character alone and its width table holds no entry above three.
#[verifier::external_body]
pub(crate) fn char_width(c: char) -> (r: Option<usize>)
    ensures
        r == char_width_of(c),
        r is Some ==> r->Some_0 <= 3,
{
    unicode_width::UnicodeWidthChar::width(c)
}

/// What `unicode_width::UnicodeWidthStr::width` returns for a character
/// sequence: the display width of the whole string (not always the sum of
/// the characters' widths, because of ligature rules).
pub uninterp spec fn str_width_of(s: Seq<char>) -> usize;

/// Relies on unicode_width's UnicodeWidthStr::width: the width depends on
/// the characters alone.
#[verifier::external_body]
pub(crate) fn chars_width(v: &Vec<char>) -> (r: usize)
    ensures
        r == str_width_of(v@),
{
    let s: String = v.iter().collect();
    unicode_width::UnicodeWidthStr::width(s.as_str())
}

/// Relies on str::char_indices: it yields every character of the string in
/// order, each with its byte offset; offsets strictly increase and stay
/// below the byte length of the string, which is below `usize::MAX`.
#[verifier::external_body]
pub(crate) fn char_index_pairs(s: &str) -> (r: Vec<(usize, char)>)
    ensures
        r@.len() == s@.len(),
        forall|i: int| 0 <= i < r@.len() ==> #[trigger] r@[i].1 == s@[i],
        forall|i: int|
            0 <= i < r@.len() ==> #[trigger] r@[i].0 as int == vstd::utf8::encode_utf8(
                s@.take(i),
            ).len() as int,
        forall|i: int, j: int| 0 <= i < j < r@.len() ==> r@[i].0 < r@[j].0,
        forall|i: int| 0 <= i < r@.len() ==> #[trigger] r@[i].0 < usize::MAX,
{
    s.char_indices().collect()
}

/// Relies on String::push: appends one character at the end.
#[verifier::external_body]
pub(crate) fn push_char(s: &mut String, c: char)
    ensures
        final(s)@ == old(s)@.push(c),
{
    s.push(c)
}

/// Relies on String's FromIterator impl: collects the characters in order.
#[verifier::external_body]
pub(crate) fn chars_to_string(v: &Vec<char>) -> (r: String)
    ensures
        r@ == v@,
{
    v.iter().collect()
}

/// The characters of a string, in order.
pub(crate) fn str_chars(s: &str) -> (r: Vec<char>)
    ensures
        r@ == s@,
{
    let n = s.unicode_len();
    let mut v: Vec<char> = Vec::new();
    let mut i: usize = 0;
    while i < n
        invariant
            n == s@.len(),
            0 <= i <= n,
            v@ == s@.take(i as int),
        decreases n - i,
    {
        v.push(s.get_char(i));
        proof {
            assert(s@.take(i as int).push(s@[i as int]) =~= s@.take(i as int + 1));
        }
        i += 1;
    }
    proof {
        assert(s@.take(n as int) =~= s@);
    }
    v
}

} // verus!
