//! Character-level helpers shared by the rule compiler.
use vstd::prelude::*;

verus! {

/// `pat` occurs in `text` starting at position `pos`.
pub open spec fn starts_with_at(text: Seq<char>, pos: int, pat: Seq<char>) -> bool {
    0 <= pos && pos + pat.len() <= text.len() && text.subrange(pos, pos + pat.len()) == pat
}

/// The characters that carry the Unicode `White_Space` property.
pub open spec fn is_white_space(c: char) -> bool {
    let u = c as u32;
    (0x09 <= u && u <= 0x0d) || u == 0x20 || u == 0x85 || u == 0xa0 || u == 0x1680 || (0x2000
        <= u && u <= 0x200a) || u == 0x2028 || u == 0x2029 || u == 0x202f || u == 0x205f || u
        == 0x3000
}

/// Whether `c` is a white-space character.
pub fn white_space(c: char) -> (r: bool)
    ensures
        r == is_white_space(c),
{
    let u = c as u32;
    (0x09 <= u && u <= 0x0d) || u == 0x20 || u == 0x85 || u == 0xa0 || u == 0x1680 || (0x2000
        <= u && u <= 0x200a) || u == 0x2028 || u == 0x2029 || u == 0x202f || u == 0x205f || u
        == 0x3000
}

/// The characters of `s`, in order.
pub fn chars_of(s: &str) -> (r: Vec<char>)
    ensures
        r@ == s@,
{
    let n = s.unicode_len();
    let mut r: Vec<char> = Vec::new();
    let mut i: usize = 0;
    while i < n
        invariant
            n == s@.len(),
            i <= n,
            r@ == s@.subrange(0, i as int),
        decreases n - i,
    {
        r.push(s.get_char(i));
        i += 1;
    }
    proof {
        assert(r@ =~= s@);
    }
    r
}

/// Whether `pat` occurs in `text` at position `pos`.
pub fn matches_at(text: &Vec<char>, pos: usize, pat: &str) -> (r: bool)
    requires
        pos <= text@.len(),
    ensures
        r == starts_with_at(text@, pos as int, pat@),
{
    let n = pat.unicode_len();
    if n > text.len() - pos {
        return false;
    }
    let tl = text.len();
    let mut i: usize = 0;
    while i < n
        invariant
            n == pat@.len(),
            tl == text@.len(),
            pos + n <= tl,
            i <= n,
            forall|j: int| 0 <= j < i ==> text@[pos + j] == pat@[j],
        decreases n - i,
    {
        if text[pos + i] != pat.get_char(i) {
            proof {
                assert(text@.subrange(pos as int, pos + n)[i as int] != pat@[i as int]);
            }
            return false;
        }
        i += 1;
    }
    proof {
        assert(text@.subrange(pos as int, pos + n) =~= pat@);
    }
    true
}

/// The characters `text[from..to]`.
pub fn slice_chars(text: &Vec<char>, from: usize, to: usize) -> (r: Vec<char>)
    requires
        from <= to <= text@.len(),
    ensures
        r@ == text@.subrange(from as int, to as int),
{
    let mut r: Vec<char> = Vec::new();
    let mut i = from;
    while i < to
        invariant
            from <= i <= to <= text@.len(),
            r@ == text@.subrange(from as int, i as int),
        decreases to - i,
    {
        r.push(text[i]);
        proof {
            assert(r@ =~= text@.subrange(from as int, i + 1));
        }
        i += 1;
    }
    r
}

/// The string whose characters are `text[from..to]`.
pub fn string_of(text: &Vec<char>, from: usize, to: usize) -> (r: String)
    requires
        from <= to <= text@.len(),
    ensures
        r@ == text@.subrange(from as int, to as int),
{
    let mut r = String::new();
    let mut i = from;
    while i < to
        invariant
            from <= i <= to,
            to <= text@.len(),
            r@ == text@.subrange(from as int, i as int),
        decreases to - i,
    {
        push_char(&mut r, text[i]);
        proof {
            assert(r@ =~= text@.subrange(from as int, i + 1));
        }
        i += 1;
    }
    r
}

/// Relies on `String::push`: the character is appended at the end.
#[verifier::external_body]
pub(crate) fn push_char(s: &mut String, c: char)
    ensures
        final(s)@ == old(s)@.push(c),
{
    s.push(c)
}

/// The number of characters in the first extended grapheme cluster of `s`.
pub uninterp spec fn first_grapheme_len(s: Seq<char>) -> nat;

/// Relies on `unicode_segmentation::UnicodeSegmentation::graphemes` (extended clusters):
/// a non-empty string starts with a non-empty cluster, which is a prefix of it.
#[verifier::external_body]
fn grapheme_len(s: &str) -> (n: usize)
    requires
        s@.len() > 0,
    ensures
        n == first_grapheme_len(s@),
        1 <= n <= s@.len(),
{
    match unicode_segmentation::UnicodeSegmentation::graphemes(s, true).next() {
        Some(g) => g.chars().count(),
        None => 0,
    }
}

/// The length, in characters, of the extended grapheme cluster that starts `text` at `pos`.
pub fn grapheme_at(text: &Vec<char>, pos: usize) -> (n: usize)
    requires
        pos < text@.len(),
    ensures
        n == first_grapheme_len(text@.subrange(pos as int, text@.len() as int)),
        1 <= n <= text@.len() - pos,
{
    let rest = string_of(text, pos, text.len());
    grapheme_len(rest.as_str())
}

} // verus!
