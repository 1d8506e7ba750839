//! The text forms of phonemes (`symbol`, `symbol [grapheme]`) and of group names
//! (`name (a)`, `a`), read back into values.
use vstd::prelude::*;

use crate::group::{GroupName, GroupNameView};
use crate::phoneme::{Phoneme, PhonemeView};
use crate::text::{chars_of, is_white_space, string_of, white_space};

verus! {

/// Text that is not a phoneme or a group name in any of its forms.
#[derive(Clone, Copy, Debug, PartialEq, Eq, Structural)]
pub struct InvalidData;

/// A character that may stand in a symbol or a name: no white space, no bracket.
pub open spec fn is_name_char(c: char) -> bool {
    !is_white_space(c) && c != '[' && c != ']'
}

/// The first position from `i` on that is not white space.
pub open spec fn skip_ws(t: Seq<char>, i: int) -> int
    decreases t.len() - i,
{
    if 0 <= i < t.len() && is_white_space(t[i]) {
        skip_ws(t, i + 1)
    } else {
        i
    }
}

/// The end of the run of name characters that starts at `i`.
pub open spec fn name_end(t: Seq<char>, i: int) -> int
    decreases t.len() - i,
{
    if 0 <= i < t.len() && is_name_char(t[i]) {
        name_end(t, i + 1)
    } else {
        i
    }
}

/// The first position from `i` on that holds a name character.
pub open spec fn first_name_char(t: Seq<char>, i: int) -> Option<int>
    decreases t.len() - i,
{
    if i < 0 || i >= t.len() {
        None
    } else if is_name_char(t[i]) {
        Some(i)
    } else {
        first_name_char(t, i + 1)
    }
}

/// The end of the run of non-white-space characters that starts at `i`.
pub open spec fn solid_end(t: Seq<char>, i: int) -> int
    decreases t.len() - i,
{
    if 0 <= i < t.len() && !is_white_space(t[i]) {
        solid_end(t, i + 1)
    } else {
        i
    }
}

/// The last `]` strictly between `lo` and `hi`.
pub open spec fn last_bracket(t: Seq<char>, lo: int, hi: int) -> Option<int>
    decreases hi - lo,
{
    if hi - 1 <= lo || hi - 1 >= t.len() || lo < 0 {
        None
    } else if t[hi - 1] == ']' {
        Some(hi - 1)
    } else {
        last_bracket(t, lo, hi - 1)
    }
}

/// The grapheme written after a symbol that ends at `q`: white space, `[`, white space, the
/// grapheme (no white space), white space, `]`; where no `]` follows the whole run, the
/// grapheme ends at the last `]` inside it.
pub open spec fn grapheme_after(t: Seq<char>, q: int) -> Option<Seq<char>> {
    let i1 = skip_ws(t, q);
    if 0 <= i1 < t.len() && t[i1] == '[' {
        let i2 = skip_ws(t, i1 + 1);
        let r = solid_end(t, i2);
        if r > i2 {
            let r1 = skip_ws(t, r);
            if 0 <= r1 < t.len() && t[r1] == ']' {
                Some(t.subrange(i2, r))
            } else {
                match last_bracket(t, i2, r) {
                    Some(k) => Some(t.subrange(i2, k)),
                    None => None,
                }
            }
        } else {
            None
        }
    } else {
        None
    }
}

/// The phoneme that a text writes: the first run of name characters as its symbol, and the
/// grapheme in brackets after it, if any.
pub open spec fn phoneme_form(t: Seq<char>) -> Option<PhonemeView> {
    match first_name_char(t, 0) {
        None => None,
        Some(p) => {
            let q = name_end(t, p);
            Some(PhonemeView { symbol: t.subrange(p, q), grapheme: grapheme_after(t, q) })
        },
    }
}

/// Whether a character is a decimal digit in the sense of Unicode (general category Nd).
pub uninterp spec fn decimal_digit(c: char) -> bool;

/// Relies on `regex::Regex::is_match` with the class `\d`, which matches the characters of
/// Unicode general category Nd; the ASCII digits are among them.
#[verifier::external_body]
fn is_decimal_digit(c: char) -> (r: bool)
    ensures
        r == decimal_digit(c),
        0x30 <= c as u32 <= 0x39 ==> r,
{
    let mut buf = [0u8; 4];
    match regex::Regex::new(r"^\d$") {
        Ok(re) => re.is_match(c.encode_utf8(&mut buf)),
        Err(_) => false,
    }
}

/// The abbreviation written after a name that ends at `q`: white space, `(`, one character
/// that is neither white space nor a digit, `)`.
pub open spec fn abbrev_after(t: Seq<char>, q: int) -> Option<char> {
    let i1 = skip_ws(t, q);
    if 0 <= i1 && i1 + 2 < t.len() && t[i1] == '(' && !is_white_space(t[i1 + 1]) && !decimal_digit(
        t[i1 + 1],
    ) && t[i1 + 2] == ')' {
        Some(t[i1 + 1])
    } else {
        None
    }
}

/// The group name that a text writes: the first run of name characters with the
/// abbreviation in parentheses after it, or a run of one character alone.
pub open spec fn group_name_form(t: Seq<char>) -> Option<GroupNameView> {
    match first_name_char(t, 0) {
        None => None,
        Some(p) => {
            let q = name_end(t, p);
            match abbrev_after(t, q) {
                Some(a) => Some(GroupNameView::Full { name: t.subrange(p, q), abbrev: a }),
                None => if q - p == 1 {
                    Some(GroupNameView::Abbrev(t[p]))
                } else {
                    None
                },
            }
        },
    }
}

fn skip_ws_exec(t: &Vec<char>, i: usize) -> (r: usize)
    requires
        i <= t@.len(),
    ensures
        r as int == skip_ws(t@, i as int),
        i <= r <= t@.len(),
{
    let mut j = i;
    while j < t.len() && white_space(t[j])
        invariant
            i <= j <= t@.len(),
            skip_ws(t@, i as int) == skip_ws(t@, j as int),
        decreases t@.len() - j,
    {
        j += 1;
    }
    j
}

fn name_end_exec(t: &Vec<char>, i: usize) -> (r: usize)
    requires
        i <= t@.len(),
    ensures
        r as int == name_end(t@, i as int),
        i <= r <= t@.len(),
{
    let mut j = i;
    while j < t.len() && !white_space(t[j]) && t[j] != '[' && t[j] != ']'
        invariant
            i <= j <= t@.len(),
            name_end(t@, i as int) == name_end(t@, j as int),
        decreases t@.len() - j,
    {
        j += 1;
    }
    j
}

fn solid_end_exec(t: &Vec<char>, i: usize) -> (r: usize)
    requires
        i <= t@.len(),
    ensures
        r as int == solid_end(t@, i as int),
        i <= r <= t@.len(),
{
    let mut j = i;
    while j < t.len() && !white_space(t[j])
        invariant
            i <= j <= t@.len(),
            solid_end(t@, i as int) == solid_end(t@, j as int),
        decreases t@.len() - j,
    {
        j += 1;
    }
    j
}

fn first_name_char_exec(t: &Vec<char>) -> (r: Option<usize>)
    ensures
        match r {
            Some(x) => first_name_char(t@, 0) == Some(x as int) && x < t@.len(),
            None => first_name_char(t@, 0) is None,
        },
{
    let mut j: usize = 0;
    while j < t.len()
        invariant
            j <= t@.len(),
            first_name_char(t@, 0) == first_name_char(t@, j as int),
        decreases t@.len() - j,
    {
        if !white_space(t[j]) && t[j] != '[' && t[j] != ']' {
            return Some(j);
        }
        j += 1;
    }
    None
}

fn last_bracket_exec(t: &Vec<char>, lo: usize, hi: usize) -> (r: Option<usize>)
    requires
        lo <= hi <= t@.len(),
    ensures
        match last_bracket(t@, lo as int, hi as int) {
            Some(k) => r == Some(k as usize) && lo < k < hi,
            None => r is None,
        },
{
    let mut h = hi;
    while h - lo > 1 && t[h - 1] != ']'
        invariant
            lo <= h <= hi <= t@.len(),
            last_bracket(t@, lo as int, hi as int) == last_bracket(t@, lo as int, h as int),
        decreases h,
    {
        h -= 1;
    }
    if h - lo > 1 {
        Some(h - 1)
    } else {
        None
    }
}

fn grapheme_after_exec(t: &Vec<char>, q: usize) -> (r: Option<String>)
    requires
        q <= t@.len(),
    ensures
        match grapheme_after(t@, q as int) {
            Some(g) => r matches Some(s) && s@ == g,
            None => r is None,
        },
{
    let i1 = skip_ws_exec(t, q);
    if i1 < t.len() && t[i1] == '[' {
        let i2 = skip_ws_exec(t, i1 + 1);
        let r = solid_end_exec(t, i2);
        if r > i2 {
            let r1 = skip_ws_exec(t, r);
            if r1 < t.len() && t[r1] == ']' {
                Some(string_of(t, i2, r))
            } else {
                match last_bracket_exec(t, i2, r) {
                    Some(k) => Some(string_of(t, i2, k)),
                    None => None,
                }
            }
        } else {
            None
        }
    } else {
        None
    }
}

impl Phoneme {
    /// Reads a phoneme from its text form, `symbol` or `symbol [grapheme]`: the symbol is
    /// the first run of characters that are neither white space nor brackets.
    pub fn parse(content: &str) -> (r: Result<Phoneme, InvalidData>)
        ensures
            match phoneme_form(content@) {
                Some(p) => r matches Ok(ph) && ph@ == p,
                None => r == Err::<Phoneme, InvalidData>(InvalidData),
            },
    {
        let t = chars_of(content);
        match first_name_char_exec(&t) {
            None => Err(InvalidData),
            Some(p) => {
                let q = name_end_exec(&t, p);
                let symbol = string_of(&t, p, q);
                let grapheme = grapheme_after_exec(&t, q);
                Ok(Phoneme { phoneme: symbol, grapheme })
            },
        }
    }
}

impl GroupName {
    /// Reads a group name from its text form, `name (a)` or a single character `a`.
    pub fn parse(content: &str) -> (r: Result<GroupName, InvalidData>)
        ensures
            match group_name_form(content@) {
                Some(n) => r matches Ok(g) && g@ == n,
                None => r == Err::<GroupName, InvalidData>(InvalidData),
            },
    {
        let t = chars_of(content);
        match first_name_char_exec(&t) {
            None => Err(InvalidData),
            Some(p) => {
                let q = name_end_exec(&t, p);
                let i1 = skip_ws_exec(&t, q);
                if t.len() - i1 > 2 && t[i1] == '(' && !white_space(t[i1 + 1]) && !is_decimal_digit(
                    t[i1 + 1],
                ) && t[i1 + 2] == ')' {
                    let name = string_of(&t, p, q);
                    Ok(GroupName::Full { name, abbrev: t[i1 + 1] })
                } else if q - p == 1 {
                    Ok(GroupName::Abbrev(t[p]))
                } else {
                    Err(InvalidData)
                }
            },
        }
    }
}

} // verus!
