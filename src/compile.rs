//! The field compiler: turns the text of one rule field into tokens, scanning it
//! against the inventory, handling bracketed disjunctions and word boundaries,
//! and allocating representative phonemes for text that matches nothing known.
use vstd::prelude::*;

use crate::element::{lemma_tokens_of_push, tokens_of, Element, Field, Token};
use crate::sc::FieldParseError;
use crate::group::GroupNameView;
use crate::language::{Language, LanguageView};
use crate::rep::{fresh_counts, lemma_fresh_refl, lemma_fresh_trans, RepPool};
use crate::text::{first_grapheme_len, grapheme_at, matches_at, slice_chars, starts_with_at, string_of};

verus! {

/// Why a rule field did not compile.
#[derive(Clone, Copy, Debug, PartialEq, Eq, Structural, Hash)]
pub enum FieldErrorKind {
    /// A `[` inside brackets.
    NestedBrackets,
    /// A second `#` in an environment field.
    MultipleBoundaries,
    /// A `#` in the start environment after another token.
    BoundaryNotAtStart,
    /// A `#` in the end environment before its last character.
    BoundaryNotAtEnd,
    /// A `#` in the target or the replacement.
    BoundaryNotAllowed,
}

impl FieldErrorKind {
    pub open spec fn spec_message(self) -> Seq<char> {
        match self {
            FieldErrorKind::NestedBrackets => "Found nested brackets '[]' in"@,
            FieldErrorKind::MultipleBoundaries => "Multiple word boundary symbols present in"@,
            FieldErrorKind::BoundaryNotAtStart => "Word boundary symbol was not at the beginning of"@,
            FieldErrorKind::BoundaryNotAtEnd => "Word boundary symbol was not at the end of"@,
            FieldErrorKind::BoundaryNotAllowed => "Word boundaries cannot be placed in"@,
        }
    }

    /// The message for this error, which the field's name completes.
    pub fn message(&self) -> (r: &'static str)
        ensures
            r@ == self.spec_message(),
    {
        match self {
            FieldErrorKind::NestedBrackets => "Found nested brackets '[]' in",
            FieldErrorKind::MultipleBoundaries => "Multiple word boundary symbols present in",
            FieldErrorKind::BoundaryNotAtStart => "Word boundary symbol was not at the beginning of",
            FieldErrorKind::BoundaryNotAtEnd => "Word boundary symbol was not at the end of",
            FieldErrorKind::BoundaryNotAllowed => "Word boundaries cannot be placed in",
        }
    }
}

/// What the compiler reads besides the text: the inventory, and the source strings of
/// the rewrite rules in the order they are tried.
pub struct ScanCtx {
    pub lang: LanguageView,
    pub sources: Seq<Seq<char>>,
}

/// The compiler's state within one field text.
pub struct ScanState {
    /// The position of the next character to read.
    pub pos: int,
    /// No token has been emitted yet at the top level of the field.
    pub head: bool,
    /// The field, whose boundary flag records a `#` seen.
    pub field: Field,
    /// The tokens emitted so far at this level.
    pub toks: Seq<Token>,
    /// The symbols of the representative pool.
    pub reps: Seq<Seq<char>>,
}

/// The result of compiling a text: the final state, and the error that stopped it, if any.
pub struct Outcome {
    pub st: ScanState,
    pub err: Option<FieldErrorKind>,
}

/// How many characters a group's name takes at `pos`: the full name if it is there,
/// else 1 for the abbreviation, else 0.
pub open spec fn group_match_len(name: GroupNameView, text: Seq<char>, pos: int) -> int {
    match name {
        GroupNameView::Full { name, abbrev } => if name.len() > 0 && starts_with_at(
            text,
            pos,
            name,
        ) {
            name.len() as int
        } else if 0 <= pos < text.len() && text[pos] == abbrev {
            1
        } else {
            0
        },
        GroupNameView::Abbrev(a) => if 0 <= pos < text.len() && text[pos] == a {
            1
        } else {
            0
        },
    }
}

/// `st` after emitting `t` for the next `n` characters.
pub open spec fn emitted(st: ScanState, t: Token, n: int, nested: bool) -> ScanState {
    ScanState {
        pos: st.pos + n,
        head: st.head && nested,
        field: st.field,
        toks: st.toks.push(t),
        reps: st.reps,
    }
}

/// The scan of the members of one group, from member `m` on: each member whose symbol
/// stands at the cursor is emitted, and the cursor moves past it.
pub open spec fn scan_members(
    lang: LanguageView,
    members: Seq<u64>,
    m: int,
    text: Seq<char>,
    st: ScanState,
    nested: bool,
) -> ScanState
    decreases members.len() - m,
{
    if m < 0 || m >= members.len() {
        st
    } else {
        let sym = lang.phoneme(members[m]).symbol;
        let next = if sym.len() > 0 && starts_with_at(text, st.pos, sym) {
            emitted(st, Token::Phoneme { key: members[m], rep: false }, sym.len() as int, nested)
        } else {
            st
        };
        scan_members(lang, members, m + 1, text, next, nested)
    }
}

/// One pass of the scanner over the groups, from group `g` on: a group whose name
/// stands at the cursor is emitted, otherwise its members are scanned.
pub open spec fn scan_groups(
    lang: LanguageView,
    g: int,
    text: Seq<char>,
    st: ScanState,
    nested: bool,
) -> ScanState
    decreases lang.groups.len() - g,
{
    if g < 0 || g >= lang.groups.len() {
        st
    } else {
        let e = lang.groups[g];
        let n = group_match_len(e.name, text, st.pos);
        let next = if n > 0 {
            emitted(st, Token::Group(e.key), n, nested)
        } else {
            scan_members(lang, e.members, 0, text, st, nested)
        };
        scan_groups(lang, g + 1, text, next, nested)
    }
}

/// Some group's name or abbreviation starts the text at `pos`.
pub open spec fn any_group_matches(lang: LanguageView, text: Seq<char>, pos: int) -> bool {
    exists|g: int|
        0 <= g < lang.groups.len() && #[trigger] lang.groups[g].name.matches(
            text.subrange(pos, text.len() as int),
        )
}

/// The length of the first rewrite source, from source `i` on, that may stand for an
/// unknown token at `pos`: one that is not a known phoneme, that stands at `pos`, where
/// no group name does.
pub open spec fn source_len(ctx: ScanCtx, text: Seq<char>, pos: int, i: int) -> Option<int>
    decreases ctx.sources.len() - i,
{
    if i < 0 || i >= ctx.sources.len() {
        None
    } else {
        let src = ctx.sources[i];
        if src.len() > 0 && !ctx.lang.table_has(src) && !any_group_matches(ctx.lang, text, pos)
            && starts_with_at(text, pos, src) {
            Some(src.len() as int)
        } else {
            source_len(ctx, text, pos, i + 1)
        }
    }
}

/// The length of the unknown token at `pos`: a rewrite source, else one grapheme cluster.
pub open spec fn token_len(ctx: ScanCtx, text: Seq<char>, pos: int) -> int {
    match source_len(ctx, text, pos, 0) {
        Some(n) => n,
        None => {
            let g = first_grapheme_len(text.subrange(pos, text.len() as int));
            if 1 <= g <= text.len() - pos {
                g as int
            } else {
                1
            }
        },
    }
}

/// `st` after allocating a representative phoneme for the unknown token at the cursor.
pub open spec fn rep_step(ctx: ScanCtx, text: Seq<char>, st: ScanState, nested: bool) -> ScanState {
    if st.pos < 0 || st.pos >= text.len() {
        st
    } else {
        let n = token_len(ctx, text, st.pos);
        let next = emitted(st, Token::Phoneme { key: st.reps.len() as u64, rep: true }, n, nested);
        ScanState { reps: st.reps.push(text.subrange(st.pos, st.pos + n)), ..next }
    }
}

/// `j` is the first `]` of the text after `pos`: the one that closes a `[` at `pos`.
pub open spec fn close_at(text: Seq<char>, pos: int, j: int) -> bool {
    &&& pos < j < text.len()
    &&& text[j] == ']'
    &&& forall|k: int| pos < k < j ==> text[k] != ']'
}

/// Where a `#` may stand: the field after the check, or why it may not.
pub open spec fn boundary_check(field: Field, head: bool, tail: bool) -> Result<
    Field,
    FieldErrorKind,
> {
    match field {
        Field::Target | Field::Replacement => Err(FieldErrorKind::BoundaryNotAllowed),
        Field::EnvStart { has_boundary } => if has_boundary {
            Err(FieldErrorKind::MultipleBoundaries)
        } else if !head {
            Err(FieldErrorKind::BoundaryNotAtStart)
        } else {
            Ok(Field::EnvStart { has_boundary: true })
        },
        Field::EnvEnd { has_boundary } => if has_boundary {
            Err(FieldErrorKind::MultipleBoundaries)
        } else if !tail {
            Err(FieldErrorKind::BoundaryNotAtEnd)
        } else {
            Ok(Field::EnvEnd { has_boundary: true })
        },
    }
}

/// One pass of the compiler at the cursor: the scanner; if it did not move, a bracketed
/// disjunction, a boundary, or an unknown token.
pub open spec fn step(ctx: ScanCtx, text: Seq<char>, st: ScanState, nested: bool, tail: bool) -> Outcome
    decreases text.len(), text.len() - st.pos, 0int,
{
    let s1 = scan_groups(ctx.lang, 0, text, st, nested);
    let at = st.pos;
    if s1.pos != at {
        Outcome { st: s1, err: None }
    } else if 0 <= at < text.len() && text[at] == '[' && nested {
        Outcome { st: s1, err: Some(FieldErrorKind::NestedBrackets) }
    } else if 0 <= at < text.len() && text[at] == '[' && exists|j: int| close_at(text, at, j) {
        let j = choose|j: int| close_at(text, at, j);
        let inner = text.subrange(at + 1, j);
        let start = ScanState {
            pos: 0,
            head: s1.head,
            field: s1.field,
            toks: Seq::empty(),
            reps: s1.reps,
        };
        let o = run(ctx, inner, start, true, j == text.len() - 1);
        if o.err is Some {
            Outcome { st: ScanState { field: o.st.field, reps: o.st.reps, ..s1 }, err: o.err }
        } else {
            Outcome {
                st: ScanState {
                    pos: j + 1,
                    head: false,
                    field: o.st.field,
                    toks: s1.toks.push(Token::Any(o.st.toks)),
                    reps: o.st.reps,
                },
                err: None,
            }
        }
    } else if 0 <= at < text.len() && text[at] == '#' {
        let tail_here = if nested {
            tail
        } else {
            at == text.len() - 1
        };
        match boundary_check(s1.field, s1.head, tail_here) {
            Err(k) => Outcome { st: s1, err: Some(k) },
            Ok(f) => Outcome {
                st: ScanState { field: f, ..emitted(s1, Token::Boundary, 1, nested) },
                err: None,
            },
        }
    } else {
        Outcome { st: rep_step(ctx, text, s1, nested), err: None }
    }
}

/// The compiler run on `text` from state `st` until a pass makes no progress or fails.
/// `nested` tells the inside of brackets, where `tail` says whether they close the field.
pub open spec fn run(ctx: ScanCtx, text: Seq<char>, st: ScanState, nested: bool, tail: bool) -> Outcome
    decreases text.len(), text.len() - st.pos, 1int,
{
    if st.pos < 0 || st.pos > text.len() {
        Outcome { st, err: None }
    } else {
        let o = step(ctx, text, st, nested, tail);
        if o.err is Some {
            o
        } else if st.pos < o.st.pos <= text.len() {
            run(ctx, text, o.st, nested, tail)
        } else {
            o
        }
    }
}

/// The compilation of one field's text, with the representative pool `reps`.
pub open spec fn compile_field(ctx: ScanCtx, field: Field, text: Seq<char>, reps: Seq<Seq<char>>) -> Outcome {
    run(
        ctx,
        text,
        ScanState { pos: 0, head: true, field, toks: Seq::empty(), reps },
        false,
        false,
    )
}

/// The compiler's state in one field text, as the executable code holds it.
pub struct Cursor {
    pub pos: usize,
    pub head: bool,
    pub field: Field,
    pub elems: Vec<Element>,
}

/// The state that a cursor and a pool stand for.
pub open spec fn state_of(c: Cursor, reps: Seq<Seq<char>>) -> ScanState {
    ScanState { pos: c.pos as int, head: c.head, field: c.field, toks: tokens_of(c.elems@), reps }
}

/// The context that an inventory and a list of rewrite sources stand for.
pub open spec fn ctx_of(lang: &Language, sources: &Vec<String>) -> ScanCtx {
    ScanCtx { lang: lang@, sources: sources@.map_values(|s: String| s@) }
}

/// Emits `e` for the next `n` characters.
fn emit(cur: &mut Cursor, e: Element, n: usize, nested: bool)
    requires
        old(cur).pos + n <= usize::MAX,
    ensures
        forall|reps: Seq<Seq<char>>|
            state_of(*final(cur), reps) == #[trigger] emitted(
                state_of(*old(cur), reps),
                e@,
                n as int,
                nested,
            ),
{
    proof {
        lemma_tokens_of_push(cur.elems@, e);
    }
    cur.elems.push(e);
    cur.pos = cur.pos + n;
    if !nested {
        cur.head = false;
    }
}

/// The scan of the members of group `gi` (see `scan_members`).
fn scan_members_exec(
    lang: &Language,
    gi: usize,
    text: &Vec<char>,
    cur: &mut Cursor,
    Ghost(reps): Ghost<Seq<Seq<char>>>,
    nested: bool,
)
    requires
        lang.wf(),
        gi < lang@.groups.len(),
        old(cur).pos <= text@.len(),
    ensures
        final(cur).pos <= text@.len(),
        state_of(*final(cur), reps) == scan_members(
            lang@,
            lang@.groups[gi as int].members,
            0,
            text@,
            state_of(*old(cur), reps),
            nested,
        ),
{
    let ghost members = lang@.groups[gi as int].members;
    let n = lang.member_count(gi);
    let tl = text.len();
    let mut m: usize = 0;
    while m < n
        invariant
            tl == text@.len(),
            lang.wf(),
            gi < lang@.groups.len(),
            members == lang@.groups[gi as int].members,
            n == members.len(),
            m <= n,
            cur.pos <= text@.len(),
            scan_members(lang@, members, 0, text@, state_of(*old(cur), reps), nested)
                == scan_members(lang@, members, m as int, text@, state_of(*cur, reps), nested),
        decreases n - m,
    {
        let (k, p) = lang.member_at(gi, m);
        let sym = p.phoneme.as_str();
        let len = sym.unicode_len();
        if len > 0 && matches_at(text, cur.pos, sym) {
            emit(cur, Element::Phoneme { key: k, rep: false }, len, nested);
        }
        m += 1;
    }
}

/// One pass of the scanner over the groups (see `scan_groups`).
fn scan_groups_exec(
    lang: &Language,
    text: &Vec<char>,
    cur: &mut Cursor,
    Ghost(reps): Ghost<Seq<Seq<char>>>,
    nested: bool,
)
    requires
        lang.wf(),
        old(cur).pos <= text@.len(),
    ensures
        final(cur).pos <= text@.len(),
        state_of(*final(cur), reps) == scan_groups(lang@, 0, text@, state_of(*old(cur), reps), nested),
{
    let n = lang.group_count();
    let tl = text.len();
    let mut g: usize = 0;
    while g < n
        invariant
            tl == text@.len(),
            lang.wf(),
            n == lang@.groups.len(),
            g <= n,
            cur.pos <= text@.len(),
            scan_groups(lang@, 0, text@, state_of(*old(cur), reps), nested) == scan_groups(
                lang@,
                g as int,
                text@,
                state_of(*cur, reps),
                nested,
            ),
        decreases n - g,
    {
        let (key, name) = lang.group_at(g);
        let len = group_match_len_exec(name, text, cur.pos);
        if len > 0 {
            emit(cur, Element::Group(key), len, nested);
        } else {
            scan_members_exec(lang, g, text, cur, Ghost(reps), nested);
        }
        g += 1;
    }
}

/// Whether some group's name or abbreviation starts the text at `pos`.
fn any_group_matches_exec(lang: &Language, text: &Vec<char>, pos: usize) -> (r: bool)
    requires
        pos <= text@.len(),
    ensures
        r == any_group_matches(lang@, text@, pos as int),
{
    let n = lang.group_count();
    let mut g: usize = 0;
    while g < n
        invariant
            n == lang@.groups.len(),
            g <= n,
            pos <= text@.len(),
            forall|h: int|
                0 <= h < g ==> !#[trigger] lang@.groups[h].name.matches(
                    text@.subrange(pos as int, text@.len() as int),
                ),
        decreases n - g,
    {
        let (_, name) = lang.group_at(g);
        if name.matches_chars(text, pos) {
            return true;
        }
        g += 1;
    }
    false
}

/// The length of the unknown token at `pos` (see `token_len`).
fn token_len_exec(lang: &Language, sources: &Vec<String>, text: &Vec<char>, pos: usize) -> (r: usize)
    requires
        pos < text@.len(),
    ensures
        r as int == token_len(ctx_of(lang, sources), text@, pos as int),
        1 <= r <= text@.len() - pos,
{
    let ghost ctx = ctx_of(lang, sources);
    let group_here = any_group_matches_exec(lang, text, pos);
    let mut i: usize = 0;
    while i < sources.len()
        invariant
            ctx == ctx_of(lang, sources),
            i <= sources@.len(),
            pos < text@.len(),
            group_here == any_group_matches(lang@, text@, pos as int),
            source_len(ctx, text@, pos as int, 0) == source_len(ctx, text@, pos as int, i as int),
        decreases sources@.len() - i,
    {
        let src = &sources[i];
        let len = src.as_str().unicode_len();
        if len > 0 && !lang.table_has_symbol(src) && !group_here && matches_at(text, pos, src.as_str()) {
            return len;
        }
        i += 1;
    }
    grapheme_at(text, pos)
}

/// Allocates a representative phoneme for the unknown token at the cursor (see `rep_step`).
fn rep_exec(
    lang: &Language,
    sources: &Vec<String>,
    text: &Vec<char>,
    cur: &mut Cursor,
    pool: &mut RepPool,
    nested: bool,
)
    requires
        old(pool).wf(),
        old(cur).pos <= text@.len(),
    ensures
        final(pool).wf(),
        fresh_counts(*old(pool), *final(pool)),
        final(cur).pos <= text@.len(),
        state_of(*final(cur), final(pool)@) == rep_step(
            ctx_of(lang, sources),
            text@,
            state_of(*old(cur), old(pool)@),
            nested,
        ),
{
    proof {
        lemma_fresh_refl(*pool);
    }
    if cur.pos >= text.len() {
        return ;
    }
    let n = token_len_exec(lang, sources, text, cur.pos);
    let t = string_of(text, cur.pos, cur.pos + n);
    let k = pool.allocate(t);
    emit(cur, Element::Phoneme { key: k, rep: true }, n, nested);
}

/// The first `]` of the text after `pos`, if there is one.
fn first_close(text: &Vec<char>, pos: usize) -> (r: Option<usize>)
    requires
        pos < text@.len(),
    ensures
        match r {
            Some(j) => close_at(text@, pos as int, j as int),
            None => !exists|j: int| close_at(text@, pos as int, j),
        },
{
    let n = text.len();
    let mut j = pos + 1;
    while j < n
        invariant
            n == text@.len(),
            pos + 1 <= j <= text@.len(),
            forall|k: int| pos < k < j ==> text@[k] != ']',
        decreases text@.len() - j,
    {
        if text[j] == ']' {
            return Some(j);
        }
        j += 1;
    }
    None
}

/// Checks a `#` at the cursor against the field (see `boundary_check`).
fn boundary_check_exec(field: Field, head: bool, tail: bool) -> (r: Result<Field, FieldErrorKind>)
    ensures
        r == boundary_check(field, head, tail),
{
    match field {
        Field::Target | Field::Replacement => Err(FieldErrorKind::BoundaryNotAllowed),
        Field::EnvStart { has_boundary } => if has_boundary {
            Err(FieldErrorKind::MultipleBoundaries)
        } else if !head {
            Err(FieldErrorKind::BoundaryNotAtStart)
        } else {
            Ok(Field::EnvStart { has_boundary: true })
        },
        Field::EnvEnd { has_boundary } => if has_boundary {
            Err(FieldErrorKind::MultipleBoundaries)
        } else if !tail {
            Err(FieldErrorKind::BoundaryNotAtEnd)
        } else {
            Ok(Field::EnvEnd { has_boundary: true })
        },
    }
}

/// One pass of the compiler at the cursor (see `step`).
fn step_exec(
    lang: &Language,
    sources: &Vec<String>,
    text: &Vec<char>,
    cur: &mut Cursor,
    pool: &mut RepPool,
    nested: bool,
    tail: bool,
) -> (err: Option<FieldErrorKind>)
    requires
        lang.wf(),
        old(pool).wf(),
        old(cur).pos <= text@.len(),
    ensures
        final(pool).wf(),
        fresh_counts(*old(pool), *final(pool)),
        final(cur).pos <= text@.len(),
        step(ctx_of(lang, sources), text@, state_of(*old(cur), old(pool)@), nested, tail)
            == (Outcome { st: state_of(*final(cur), final(pool)@), err }),
    decreases text@.len(), text@.len() - old(cur).pos, 0int,
{
    let ghost ctx = ctx_of(lang, sources);
    let ghost st0 = state_of(*cur, pool@);
    let at = cur.pos;
    proof {
        lemma_fresh_refl(*pool);
    }
    scan_groups_exec(lang, text, cur, Ghost(pool@), nested);
    if cur.pos != at {
        return None;
    }
    if at < text.len() && text[at] == '[' {
        if nested {
            return Some(FieldErrorKind::NestedBrackets);
        }
        match first_close(text, at) {
            Some(j) => {
                proof {
                    let c = choose|c: int| close_at(text@, at as int, c);
                    assert(close_at(text@, at as int, c));
                    if c < j {
                        assert(text@[c] != ']');
                    } else if c > j {
                        assert(text@[j as int] != ']');
                    }
                }
                let inner = slice_chars(text, at + 1, j);
                let mut icur = Cursor { pos: 0, head: cur.head, field: cur.field, elems: Vec::new() };
                proof {
                    assert(tokens_of(icur.elems@) =~= Seq::<Token>::empty());
                }
                let e = run_exec(lang, sources, &inner, &mut icur, pool, true, j == text.len() - 1);
                cur.field = icur.field;
                match e {
                    Some(k) => {
                        return Some(k);
                    },
                    None => {
                        let any = Element::Any(icur.elems);
                        proof {
                            lemma_tokens_of_push(cur.elems@, any);
                        }
                        cur.elems.push(any);
                        cur.pos = j + 1;
                        cur.head = false;
                        return None;
                    },
                }
            },
            None => {},
        }
    } else if at < text.len() && text[at] == '#' {
        let tail_here = if nested {
            tail
        } else {
            at == text.len() - 1
        };
        match boundary_check_exec(cur.field, cur.head, tail_here) {
            Err(k) => {
                return Some(k);
            },
            Ok(f) => {
                emit(cur, Element::Boundary, 1, nested);
                cur.field = f;
                return None;
            },
        }
    }
    rep_exec(lang, sources, text, cur, pool, nested);
    None
}

/// Runs the compiler on `text` until a pass makes no progress or fails (see `run`).
fn run_exec(
    lang: &Language,
    sources: &Vec<String>,
    text: &Vec<char>,
    cur: &mut Cursor,
    pool: &mut RepPool,
    nested: bool,
    tail: bool,
) -> (err: Option<FieldErrorKind>)
    requires
        lang.wf(),
        old(pool).wf(),
        old(cur).pos <= text@.len(),
    ensures
        final(pool).wf(),
        fresh_counts(*old(pool), *final(pool)),
        run(ctx_of(lang, sources), text@, state_of(*old(cur), old(pool)@), nested, tail)
            == (Outcome { st: state_of(*final(cur), final(pool)@), err }),
    decreases text@.len(), text@.len() - old(cur).pos, 1int,
{
    let ghost ctx = ctx_of(lang, sources);
    proof {
        lemma_fresh_refl(*pool);
    }
    loop
        invariant
            lang.wf(),
            pool.wf(),
            fresh_counts(*old(pool), *pool),
            ctx == ctx_of(lang, sources),
            old(cur).pos <= cur.pos <= text@.len(),
            run(ctx, text@, state_of(*old(cur), old(pool)@), nested, tail) == run(
                ctx,
                text@,
                state_of(*cur, pool@),
                nested,
                tail,
            ),
        decreases text@.len() - cur.pos,
    {
        let before = cur.pos;
        let ghost sb = state_of(*cur, pool@);
        let ghost pb = *pool;
        let e = step_exec(lang, sources, text, cur, pool, nested, tail);
        proof {
            lemma_fresh_trans(*old(pool), pb, *pool);
        }
        proof {
            assert(run(ctx, text@, sb, nested, tail) == if e is Some || cur.pos <= before {
                Outcome { st: state_of(*cur, pool@), err: e }
            } else {
                run(ctx, text@, state_of(*cur, pool@), nested, tail)
            });
        }
        if e.is_some() {
            return e;
        }
        if cur.pos <= before {
            return None;
        }
    }
}

/// Compiles a field text from the start of its field, with no tokens before it.
pub(crate) fn compile_text(
    lang: &Language,
    sources: &Vec<String>,
    text: &Vec<char>,
    field: Field,
    pool: &mut RepPool,
) -> (r: (Field, Vec<Element>, Option<FieldErrorKind>))
    requires
        lang.wf(),
        old(pool).wf(),
    ensures
        final(pool).wf(),
        fresh_counts(*old(pool), *final(pool)),
        ({
            let o = compile_field(ctx_of(lang, sources), field, text@, old(pool)@);
            &&& o.st.field == r.0
            &&& o.st.toks == tokens_of(r.1@)
            &&& o.st.reps == final(pool)@
            &&& o.err == r.2
        }),
{
    let mut cur = Cursor { pos: 0, head: true, field, elems: Vec::new() };
    proof {
        assert(tokens_of(cur.elems@) =~= Seq::<Token>::empty());
    }
    let e = run_exec(lang, sources, text, &mut cur, pool, false, false);
    (cur.field, cur.elems, e)
}

impl Field {
    /// Compiles the field text `raw`, appending its tokens to `elements` and allocating a
    /// representative phoneme in `rep_phonemes` for each unknown token. `head` tells that
    /// nothing precedes the text in its field; `nested` tells the inside of brackets, where
    /// `tail` tells that the brackets close the field. A `#` sets this field's boundary flag.
    /// The first error stops the compilation; what was emitted and allocated before it stays.
    pub fn parse(
        &mut self,
        language: &Language,
        rep_phonemes: &mut RepPool,
        rewrite_sources: &Vec<String>,
        elements: &mut Vec<Element>,
        raw: &str,
        head: bool,
        tail: bool,
        nested: bool,
    ) -> (r: Result<(), FieldParseError>)
        requires
            language.wf(),
            old(rep_phonemes).wf(),
        ensures
            final(rep_phonemes).wf(),
            fresh_counts(*old(rep_phonemes), *final(rep_phonemes)),
            ({
                let o = run(
                    ctx_of(language, rewrite_sources),
                    raw@,
                    ScanState {
                        pos: 0,
                        head,
                        field: *old(self),
                        toks: tokens_of(old(elements)@),
                        reps: old(rep_phonemes)@,
                    },
                    nested,
                    tail,
                );
                &&& *final(self) == o.st.field
                &&& tokens_of(final(elements)@) == o.st.toks
                &&& final(rep_phonemes)@ == o.st.reps
                &&& match o.err {
                    None => r is Ok,
                    Some(k) => r == Err::<(), FieldParseError>(
                        FieldParseError { field: o.st.field, kind: k },
                    ),
                }
            }),
    {
        let text = crate::text::chars_of(raw);
        let mut taken: Vec<Element> = Vec::new();
        std::mem::swap(&mut taken, elements);
        let mut cur = Cursor { pos: 0, head, field: *self, elems: taken };
        let e = run_exec(language, rewrite_sources, &text, &mut cur, rep_phonemes, nested, tail);
        *self = cur.field;
        *elements = cur.elems;
        match e {
            None => Ok(()),
            Some(kind) => Err(FieldParseError { field: cur.field, kind }),
        }
    }
}

/// How many characters the group name takes at `pos` (see `group_match_len`).
fn group_match_len_exec(name: &crate::group::GroupName, text: &Vec<char>, pos: usize) -> (r: usize)
    requires
        pos <= text@.len(),
    ensures
        r as int == group_match_len(name@, text@, pos as int),
        pos + r <= text@.len(),
{
    match name {
        crate::group::GroupName::Full { name, abbrev } => {
            let len = name.as_str().unicode_len();
            if len > 0 && matches_at(text, pos, name.as_str()) {
                len
            } else if pos < text.len() && text[pos] == *abbrev {
                1
            } else {
                0
            }
        },
        crate::group::GroupName::Abbrev(a) => {
            if pos < text.len() && text[pos] == *a {
                1
            } else {
                0
            }
        },
    }
}

} // verus!
