//! The top-level shape of a rule line: `TARGET/REPLACEMENT/ENVSTART_ENVEND`, where the
//! first separator may also be the arrow `→` and each field is a run of non-white-space
//! characters.
use vstd::prelude::*;

use crate::text::{is_white_space, slice_chars, white_space};

verus! {

/// A character that may separate the target from the replacement.
pub open spec fn is_arrow(c: char) -> bool {
    c == '/' || c == '\u{2192}'
}

/// The end of the run of non-white-space characters that starts at `p`.
pub open spec fn word_end(text: Seq<char>, p: int) -> int
    decreases text.len() - p,
{
    if p < 0 || p >= text.len() || is_white_space(text[p]) {
        p
    } else {
        word_end(text, p + 1)
    }
}

/// The last position before `end` that holds `c`.
pub open spec fn last_of(w: Seq<char>, end: int, c: char) -> Option<int>
    decreases end,
{
    if end <= 0 || end > w.len() {
        None
    } else if w[end - 1] == c {
        Some(end - 1)
    } else {
        last_of(w, end - 1, c)
    }
}

/// The last position before `end` that holds a separator of the first kind.
pub open spec fn last_arrow(w: Seq<char>, end: int) -> Option<int>
    decreases end,
{
    if end <= 0 || end > w.len() {
        None
    } else if is_arrow(w[end - 1]) {
        Some(end - 1)
    } else {
        last_arrow(w, end - 1)
    }
}

/// The fields of a word that has the rule shape, the earlier ones as long as they can be:
/// the last `_`, the last `/` before it, and the last separator before that divide it.
pub open spec fn split_word(w: Seq<char>) -> Option<Seq<Seq<char>>> {
    match last_of(w, w.len() as int, '_') {
        None => None,
        Some(l) => match last_of(w, l, '/') {
            None => None,
            Some(k) => match last_arrow(w, k) {
                None => None,
                Some(i) => Some(
                    seq![
                        w.subrange(0, i),
                        w.subrange(i + 1, k),
                        w.subrange(k + 1, l),
                        w.subrange(l + 1, w.len() as int),
                    ],
                ),
            },
        },
    }
}

/// The fields of the leftmost match of the rule shape in `text`, from position `p` on.
pub open spec fn split_from(text: Seq<char>, p: int) -> Option<Seq<Seq<char>>>
    decreases text.len() - p,
{
    if p < 0 || p >= text.len() {
        None
    } else {
        match split_word(text.subrange(p, word_end(text, p))) {
            Some(f) => Some(f),
            None => split_from(text, p + 1),
        }
    }
}

/// The four field texts of a rule line, or `None` where the line does not have the shape.
pub open spec fn split_rule(text: Seq<char>) -> Option<Seq<Seq<char>>> {
    split_from(text, 0)
}

fn word_end_exec(text: &Vec<char>, p: usize) -> (r: usize)
    requires
        p <= text@.len(),
    ensures
        r as int == word_end(text@, p as int),
        p <= r <= text@.len(),
{
    let mut q = p;
    while q < text.len() && !white_space(text[q])
        invariant
            p <= q <= text@.len(),
            word_end(text@, p as int) == word_end(text@, q as int),
        decreases text@.len() - q,
    {
        q += 1;
    }
    q
}

fn last_of_exec(text: &Vec<char>, from: usize, end: usize, to: usize, c: char) -> (r: Option<usize>)
    requires
        from <= end <= to <= text@.len(),
    ensures
        match last_of(text@.subrange(from as int, to as int), end - from, c) {
            Some(i) => r == Some((i + from) as usize),
            None => r is None,
        },
{
    let ghost w = text@.subrange(from as int, to as int);
    let mut e = end;
    while e > from && text[e - 1] != c
        invariant
            from <= e <= end <= to <= text@.len(),
            w == text@.subrange(from as int, to as int),
            last_of(w, end - from, c) == last_of(w, e - from, c),
        decreases e,
    {
        e -= 1;
    }
    if e > from {
        Some(e - 1)
    } else {
        None
    }
}

fn last_arrow_exec(text: &Vec<char>, from: usize, end: usize, to: usize) -> (r: Option<usize>)
    requires
        from <= end <= to <= text@.len(),
    ensures
        match last_arrow(text@.subrange(from as int, to as int), end - from) {
            Some(i) => r == Some((i + from) as usize),
            None => r is None,
        },
{
    let ghost w = text@.subrange(from as int, to as int);
    let mut e = end;
    while e > from && text[e - 1] != '/' && text[e - 1] != '\u{2192}'
        invariant
            from <= e <= end <= to <= text@.len(),
            w == text@.subrange(from as int, to as int),
            last_arrow(w, end - from) == last_arrow(w, e - from),
        decreases e,
    {
        e -= 1;
    }
    if e > from {
        Some(e - 1)
    } else {
        None
    }
}

/// The positions in `text` of the three separators of the word `text[from..to]`, if it
/// has the rule shape (see `split_word`).
fn split_word_exec(text: &Vec<char>, from: usize, to: usize) -> (r: Option<(usize, usize, usize)>)
    requires
        from <= to <= text@.len(),
    ensures
        match split_word(text@.subrange(from as int, to as int)) {
            None => r is None,
            Some(f) => match r {
                Some((i, k, l)) => from <= i < k < l < to && f == seq![
                    text@.subrange(from as int, i as int),
                    text@.subrange(i + 1, k as int),
                    text@.subrange(k + 1, l as int),
                    text@.subrange(l + 1, to as int),
                ],
                None => false,
            },
        },
{
    let ghost w = text@.subrange(from as int, to as int);
    match last_of_exec(text, from, to, to, '_') {
        None => None,
        Some(l) => {
            proof {
                lemma_last_of_bounds(w, to - from, '_');
            }
            match last_of_exec(text, from, l, to, '/') {
                None => None,
                Some(k) => {
                    proof {
                        lemma_last_of_bounds(w, l - from, '/');
                    }
                    match last_arrow_exec(text, from, k, to) {
                        None => None,
                        Some(i) => {
                            proof {
                                lemma_last_arrow_bounds(w, k - from);
                                assert(w.subrange(0, i - from) =~= text@.subrange(from as int, i as int));
                                assert(w.subrange(i - from + 1, k - from) =~= text@.subrange(i + 1, k as int));
                                assert(w.subrange(k - from + 1, l - from) =~= text@.subrange(k + 1, l as int));
                                assert(w.subrange(l - from + 1, w.len() as int) =~= text@.subrange(l + 1, to as int));
                            }
                            Some((i, k, l))
                        },
                    }
                },
            }
        },
    }
}

proof fn lemma_last_of_bounds(w: Seq<char>, end: int, c: char)
    ensures
        last_of(w, end, c) matches Some(i) ==> 0 <= i < end && i < w.len(),
    decreases end,
{
    if 0 < end <= w.len() && w[end - 1] != c {
        lemma_last_of_bounds(w, end - 1, c);
    }
}

proof fn lemma_last_arrow_bounds(w: Seq<char>, end: int)
    ensures
        last_arrow(w, end) matches Some(i) ==> 0 <= i < end && i < w.len(),
    decreases end,
{
    if 0 < end <= w.len() && !is_arrow(w[end - 1]) {
        lemma_last_arrow_bounds(w, end - 1);
    }
}

/// The four field texts of a rule line, or `None` where it does not have the rule shape.
pub fn split_rule_exec(raw: &str) -> (r: Option<Vec<Vec<char>>>)
    ensures
        match split_rule(raw@) {
            None => r is None,
            Some(f) => r matches Some(v) && v@.len() == 4 && (forall|i: int|
                0 <= i < 4 ==> #[trigger] v@[i]@ == f[i]),
        },
{
    let text = crate::text::chars_of(raw);
    let mut p: usize = 0;
    while p < text.len()
        invariant
            text@ == raw@,
            p <= text@.len(),
            split_rule(raw@) == split_from(text@, p as int),
        decreases text@.len() - p,
    {
        let e = word_end_exec(&text, p);
        match split_word_exec(&text, p, e) {
            Some((i, k, l)) => {
                let mut v: Vec<Vec<char>> = Vec::new();
                v.push(slice_chars(&text, p, i));
                v.push(slice_chars(&text, i + 1, k));
                v.push(slice_chars(&text, k + 1, l));
                v.push(slice_chars(&text, l + 1, e));
                return Some(v);
            },
            None => {},
        }
        p += 1;
    }
    None
}

} // verus!
