//! Laws of the rule compiler, stated over the compiler's model and proved.
use vstd::prelude::*;

use crate::compile::{
    close_at, compile_field, emitted, group_match_len, rep_step, run, scan_groups, scan_members,
    source_len, step, token_len, FieldErrorKind, ScanCtx, ScanState,
};
use crate::element::{Field, Token};
use crate::group::GroupNameView;
use crate::language::LanguageView;
use crate::shape::{last_arrow, last_of, split_from, split_rule, split_word, word_end};
use crate::text::starts_with_at;

verus! {

/// No group abbreviation is `c`, and no full group name and no member symbol holds `c`.
pub open spec fn free_of(lang: LanguageView, c: char) -> bool {
    forall|g: int|
        0 <= g < lang.groups.len() ==> {
            &&& (#[trigger] lang.groups[g]).name.abbrev() != c
            &&& (lang.groups[g].name matches GroupNameView::Full { name, .. } ==> !name.contains(c))
            &&& forall|m: int|
                0 <= m < lang.groups[g].members.len() ==> !lang.phoneme(
                    lang.groups[g].members[m],
                ).symbol.contains(c)
        }
}

/// A pass over members keeps the cursor within the text, moves it forward or leaves the
/// state as it was, and touches neither the field nor the pool.
pub proof fn lemma_members_bounds(
    lang: LanguageView,
    members: Seq<u64>,
    m: int,
    text: Seq<char>,
    st: ScanState,
    nested: bool,
)
    requires
        0 <= st.pos <= text.len(),
    ensures
        ({
            let r = scan_members(lang, members, m, text, st, nested);
            &&& st.pos <= r.pos <= text.len()
            &&& r.field == st.field
            &&& r.reps == st.reps
            &&& r.pos == st.pos ==> r == st
            &&& nested ==> r.head == st.head
            &&& (r.pos > st.pos && !nested) ==> !r.head
        }),
    decreases members.len() - m,
{
    if 0 <= m < members.len() {
        let sym = lang.phoneme(members[m]).symbol;
        let next = if sym.len() > 0 && starts_with_at(text, st.pos, sym) {
            emitted(st, Token::Phoneme { key: members[m], rep: false }, sym.len() as int, nested)
        } else {
            st
        };
        lemma_members_bounds(lang, members, m + 1, text, next, nested);
    }
}

/// A pass over groups keeps the cursor within the text, moves it forward or leaves the
/// state as it was, and touches neither the field nor the pool.
pub proof fn lemma_scan_bounds(lang: LanguageView, g: int, text: Seq<char>, st: ScanState, nested: bool)
    requires
        0 <= st.pos <= text.len(),
    ensures
        ({
            let r = scan_groups(lang, g, text, st, nested);
            &&& st.pos <= r.pos <= text.len()
            &&& r.field == st.field
            &&& r.reps == st.reps
            &&& r.pos == st.pos ==> r == st
            &&& nested ==> r.head == st.head
            &&& (r.pos > st.pos && !nested) ==> !r.head
        }),
    decreases lang.groups.len() - g,
{
    if 0 <= g < lang.groups.len() {
        let e = lang.groups[g];
        let n = group_match_len(e.name, text, st.pos);
        let next = if n > 0 {
            emitted(st, Token::Group(e.key), n, nested)
        } else {
            scan_members(lang, e.members, 0, text, st, nested)
        };
        if n <= 0 {
            lemma_members_bounds(lang, e.members, 0, text, st, nested);
        }
        lemma_scan_bounds(lang, g + 1, text, next, nested);
    }
}

/// Where the inventory is free of the character at `h`, a pass over members that starts
/// at or before `h` does not pass it.
proof fn lemma_members_stop(
    lang: LanguageView,
    members: Seq<u64>,
    m: int,
    text: Seq<char>,
    st: ScanState,
    nested: bool,
    h: int,
)
    requires
        0 <= st.pos <= h < text.len(),
        forall|x: int|
            0 <= x < members.len() ==> !lang.phoneme(#[trigger] members[x]).symbol.contains(text[h]),
    ensures
        scan_members(lang, members, m, text, st, nested).pos <= h,
    decreases members.len() - m,
{
    if 0 <= m < members.len() {
        let sym = lang.phoneme(members[m]).symbol;
        if sym.len() > 0 && starts_with_at(text, st.pos, sym) {
            if st.pos + sym.len() > h {
                assert(sym[h - st.pos] == text.subrange(st.pos, st.pos + sym.len())[h - st.pos]);
                assert(sym.contains(text[h]));
            }
            let next = emitted(st, Token::Phoneme { key: members[m], rep: false }, sym.len() as int, nested);
            lemma_members_stop(lang, members, m + 1, text, next, nested, h);
        } else {
            lemma_members_stop(lang, members, m + 1, text, st, nested, h);
        }
    }
}

/// Where the inventory is free of the character at `h`, a pass over groups that starts
/// at or before `h` does not pass it.
pub proof fn lemma_scan_stop(lang: LanguageView, g: int, text: Seq<char>, st: ScanState, nested: bool, h: int)
    requires
        0 <= st.pos <= h < text.len(),
        free_of(lang, text[h]),
    ensures
        scan_groups(lang, g, text, st, nested).pos <= h,
    decreases lang.groups.len() - g,
{
    if 0 <= g < lang.groups.len() {
        let e = lang.groups[g];
        assert(free_of(lang, text[h]));
        let _ = lang.groups[g];
        let n = group_match_len(e.name, text, st.pos);
        if n > 0 {
            if st.pos + n > h {
                match e.name {
                    GroupNameView::Full { name, abbrev } => {
                        if name.len() > 0 && starts_with_at(text, st.pos, name) {
                            assert(name[h - st.pos] == text.subrange(st.pos, st.pos + name.len())[h - st.pos]);
                            assert(name.contains(text[h]));
                        }
                    },
                    GroupNameView::Abbrev(a) => {},
                }
            }
            lemma_scan_stop(lang, g + 1, text, emitted(st, Token::Group(e.key), n, nested), nested, h);
        } else {
            lemma_members_stop(lang, e.members, 0, text, st, nested, h);
            lemma_members_bounds(lang, e.members, 0, text, st, nested);
            lemma_scan_stop(lang, g + 1, text, scan_members(lang, e.members, 0, text, st, nested), nested, h);
        }
    }
}

/// A pass over groups moves the cursor where a group from `g` on is abbreviated by the
/// character under it.
pub proof fn lemma_scan_moves(lang: LanguageView, g: int, text: Seq<char>, st: ScanState, nested: bool, w: int)
    requires
        0 <= st.pos < text.len(),
        0 <= g <= w < lang.groups.len(),
        lang.groups[w].name.abbrev() == text[st.pos],
    ensures
        scan_groups(lang, g, text, st, nested).pos > st.pos,
    decreases lang.groups.len() - g,
{
    let e = lang.groups[g];
    let n = group_match_len(e.name, text, st.pos);
    if n > 0 {
        let next = emitted(st, Token::Group(e.key), n, nested);
        lemma_scan_bounds(lang, g + 1, text, next, nested);
    } else {
        let next = scan_members(lang, e.members, 0, text, st, nested);
        lemma_members_bounds(lang, e.members, 0, text, st, nested);
        if next.pos > st.pos {
            lemma_scan_bounds(lang, g + 1, text, next, nested);
        } else {
            lemma_scan_moves(lang, g + 1, text, next, nested, w);
        }
    }
}

/// A run over text that holds no `#` and no `[` from the cursor on never fails and
/// leaves the field as it was.
pub proof fn lemma_run_plain(ctx: ScanCtx, text: Seq<char>, st: ScanState, nested: bool, tail: bool)
    requires
        0 <= st.pos <= text.len(),
        forall|i: int| st.pos <= i < text.len() ==> text[i] != '#' && text[i] != '[',
    ensures
        (run(ctx, text, st, nested, tail).err is None),
        run(ctx, text, st, nested, tail).st.field == st.field,
    decreases text.len() - st.pos,
{
    let o = step(ctx, text, st, nested, tail);
    lemma_scan_bounds(ctx.lang, 0, text, st, nested);
    if st.pos < o.st.pos <= text.len() {
        lemma_run_plain(ctx, text, o.st, nested, tail);
    }
}

/// Nothing of the inventory matches at `pos`: no group name or abbreviation, no member symbol.
pub open spec fn unmatched_at(lang: LanguageView, text: Seq<char>, pos: int) -> bool {
    forall|g: int|
        0 <= g < lang.groups.len() ==> {
            &&& group_match_len((#[trigger] lang.groups[g]).name, text, pos) == 0
            &&& forall|m: int|
                0 <= m < lang.groups[g].members.len() ==> {
                    let sym = lang.phoneme(#[trigger] lang.groups[g].members[m]).symbol;
                    !(sym.len() > 0 && starts_with_at(text, pos, sym))
                }
        }
}

proof fn lemma_members_unmatched(
    lang: LanguageView,
    members: Seq<u64>,
    m: int,
    text: Seq<char>,
    st: ScanState,
    nested: bool,
)
    requires
        forall|x: int|
            0 <= x < members.len() ==> {
                let sym = lang.phoneme(#[trigger] members[x]).symbol;
                !(sym.len() > 0 && starts_with_at(text, st.pos, sym))
            },
    ensures
        scan_members(lang, members, m, text, st, nested) == st,
    decreases members.len() - m,
{
    if 0 <= m < members.len() {
        lemma_members_unmatched(lang, members, m + 1, text, st, nested);
    }
}

/// Where nothing of the inventory matches at the cursor, a pass over groups leaves the state as it was.
pub proof fn lemma_scan_unmatched(lang: LanguageView, g: int, text: Seq<char>, st: ScanState, nested: bool)
    requires
        unmatched_at(lang, text, st.pos),
    ensures
        scan_groups(lang, g, text, st, nested) == st,
    decreases lang.groups.len() - g,
{
    if 0 <= g < lang.groups.len() {
        let _ = lang.groups[g];
        lemma_members_unmatched(lang, lang.groups[g].members, 0, text, st, nested);
        lemma_scan_unmatched(lang, g + 1, text, st, nested);
    }
}

/// The length that a rewrite source takes is within the rest of the text.
pub proof fn lemma_source_len(ctx: ScanCtx, text: Seq<char>, pos: int, i: int)
    ensures
        source_len(ctx, text, pos, i) matches Some(n) ==> 1 <= n <= text.len() - pos,
    decreases ctx.sources.len() - i,
{
    if 0 <= i < ctx.sources.len() {
        lemma_source_len(ctx, text, pos, i + 1);
    }
}

/// The state a field's compilation starts from.
pub open spec fn start_state(field: Field, reps: Seq<Seq<char>>) -> ScanState {
    ScanState { pos: 0, head: true, field, toks: Seq::empty(), reps }
}

/// In the target and the replacement, a boundary `#` is refused, where no phoneme or group
/// of the inventory is written with `#`.
pub proof fn boundary_not_allowed_in_core_fields(ctx: ScanCtx, field: Field, reps: Seq<Seq<char>>)
    requires
        field == Field::Target || field == Field::Replacement,
        free_of(ctx.lang, '#'),
    ensures
        compile_field(ctx, field, seq!['#'], reps).err == Some(FieldErrorKind::BoundaryNotAllowed),
{
    let text = seq!['#'];
    let st = start_state(field, reps);
    lemma_scan_stop(ctx.lang, 0, text, st, false, 0);
    lemma_scan_bounds(ctx.lang, 0, text, st, false);
    assert(step(ctx, text, st, false, false).err == Some(FieldErrorKind::BoundaryNotAllowed));
}

/// In the start environment, `##` fails because of the second boundary, where no phoneme
/// or group of the inventory is written with `#`.
pub proof fn double_boundary_in_env_start(ctx: ScanCtx, reps: Seq<Seq<char>>)
    requires
        free_of(ctx.lang, '#'),
    ensures
        compile_field(ctx, (Field::EnvStart { has_boundary: false }), seq!['#', '#'], reps).err
            == Some(FieldErrorKind::MultipleBoundaries),
{
    let text = seq!['#', '#'];
    let st = start_state(Field::EnvStart { has_boundary: false }, reps);
    lemma_scan_stop(ctx.lang, 0, text, st, false, 0);
    lemma_scan_bounds(ctx.lang, 0, text, st, false);
    let o = step(ctx, text, st, false, false);
    assert(o.err is None && o.st.pos == 1);
    assert(o.st.field == Field::EnvStart { has_boundary: true });
    lemma_scan_stop(ctx.lang, 0, text, o.st, false, 1);
    lemma_scan_bounds(ctx.lang, 0, text, o.st, false);
    assert(step(ctx, text, o.st, false, false).err == Some(FieldErrorKind::MultipleBoundaries));
    assert(run(ctx, text, o.st, false, false).err == Some(FieldErrorKind::MultipleBoundaries));
    assert(run(ctx, text, st, false, false) == run(ctx, text, o.st, false, false));
}

/// In the start environment, a boundary followed by text without `#` or `[` compiles and
/// the field records the boundary, where no phoneme or group is written with `#`.
pub proof fn boundary_first_in_env_start(ctx: ScanCtx, rest: Seq<char>, reps: Seq<Seq<char>>)
    requires
        free_of(ctx.lang, '#'),
        forall|i: int| 0 <= i < rest.len() ==> rest[i] != '#' && rest[i] != '[',
    ensures
        ({
            let o = compile_field(ctx, Field::EnvStart { has_boundary: false }, seq!['#'] + rest, reps);
            o.err is None && o.st.field == Field::EnvStart { has_boundary: true }
        }),
{
    let text = seq!['#'] + rest;
    let st = start_state(Field::EnvStart { has_boundary: false }, reps);
    lemma_scan_stop(ctx.lang, 0, text, st, false, 0);
    lemma_scan_bounds(ctx.lang, 0, text, st, false);
    let o = step(ctx, text, st, false, false);
    assert(o.err is None && o.st.pos == 1);
    assert(o.st.field == Field::EnvStart { has_boundary: true });
    assert forall|i: int| 1 <= i < text.len() implies text[i] != '#' && text[i] != '[' by {
        assert(text[i] == rest[i - 1]);
    }
    lemma_run_plain(ctx, text, o.st, false, false);
}

/// In the start environment, a group abbreviation followed by `#` fails because the
/// boundary is not at the start, where no phoneme or group is written with `#`.
pub proof fn boundary_after_group_in_env_start(ctx: ScanCtx, g: int, reps: Seq<Seq<char>>)
    requires
        free_of(ctx.lang, '#'),
        0 <= g < ctx.lang.groups.len(),
    ensures
        compile_field(
            ctx,
            (Field::EnvStart { has_boundary: false }),
            seq![ctx.lang.groups[g].name.abbrev(), '#'],
            reps,
        ).err == Some(FieldErrorKind::BoundaryNotAtStart),
{
    let text = seq![ctx.lang.groups[g].name.abbrev(), '#'];
    let st = start_state(Field::EnvStart { has_boundary: false }, reps);
    lemma_scan_moves(ctx.lang, 0, text, st, false, g);
    lemma_scan_stop(ctx.lang, 0, text, st, false, 1);
    lemma_scan_bounds(ctx.lang, 0, text, st, false);
    let o = step(ctx, text, st, false, false);
    assert(o.err is None && o.st.pos == 1 && !o.st.head);
    lemma_scan_stop(ctx.lang, 0, text, o.st, false, 1);
    lemma_scan_bounds(ctx.lang, 0, text, o.st, false);
    assert(step(ctx, text, o.st, false, false).err == Some(FieldErrorKind::BoundaryNotAtStart));
    assert(run(ctx, text, o.st, false, false).err == Some(FieldErrorKind::BoundaryNotAtStart));
    assert(run(ctx, text, st, false, false) == run(ctx, text, o.st, false, false));
}

/// In the end environment, a group abbreviation followed by `#` compiles and the field
/// records the boundary, where no phoneme or group is written with `#`.
pub proof fn boundary_last_in_env_end(ctx: ScanCtx, g: int, reps: Seq<Seq<char>>)
    requires
        free_of(ctx.lang, '#'),
        0 <= g < ctx.lang.groups.len(),
    ensures
        ({
            let o = compile_field(
                ctx,
                Field::EnvEnd { has_boundary: false },
                seq![ctx.lang.groups[g].name.abbrev(), '#'],
                reps,
            );
            o.err is None && o.st.field == Field::EnvEnd { has_boundary: true }
        }),
{
    let text = seq![ctx.lang.groups[g].name.abbrev(), '#'];
    let st = start_state(Field::EnvEnd { has_boundary: false }, reps);
    lemma_scan_moves(ctx.lang, 0, text, st, false, g);
    lemma_scan_stop(ctx.lang, 0, text, st, false, 1);
    lemma_scan_bounds(ctx.lang, 0, text, st, false);
    let o = step(ctx, text, st, false, false);
    assert(o.err is None && o.st.pos == 1);
    lemma_scan_stop(ctx.lang, 0, text, o.st, false, 1);
    lemma_scan_bounds(ctx.lang, 0, text, o.st, false);
    let o2 = step(ctx, text, o.st, false, false);
    assert(o2.err is None && o2.st.pos == 2 && o2.st.field == Field::EnvEnd { has_boundary: true });
    lemma_scan_bounds(ctx.lang, 0, text, o2.st, false);
    let o3 = step(ctx, text, o2.st, false, false);
    assert(o3.st == o2.st);
    assert(run(ctx, text, o2.st, false, false) == o3);
    assert(run(ctx, text, o.st, false, false) == run(ctx, text, o2.st, false, false));
    assert(run(ctx, text, st, false, false) == run(ctx, text, o.st, false, false));
}

/// Brackets inside brackets are refused, in every field, where no phoneme or group of the
/// inventory is written with `[`.
pub proof fn nested_brackets_refused(ctx: ScanCtx, field: Field, c: char, reps: Seq<Seq<char>>)
    requires
        free_of(ctx.lang, '['),
    ensures
        compile_field(ctx, field, seq!['[', '[', c, ']', ']'], reps).err == Some(
            FieldErrorKind::NestedBrackets,
        ),
{
    let text = seq!['[', '[', c, ']', ']'];
    let st = start_state(field, reps);
    lemma_scan_stop(ctx.lang, 0, text, st, false, 0);
    lemma_scan_bounds(ctx.lang, 0, text, st, false);
    if c == ']' {
        assert(close_at(text, 0, 2));
    } else {
        assert(close_at(text, 0, 3));
    }
    let j = choose|j: int| close_at(text, 0, j);
    assert(close_at(text, 0, j));
    let inner = text.subrange(1, j);
    assert(inner[0] == '[');
    let start = ScanState { pos: 0, head: true, field, toks: Seq::empty(), reps };
    lemma_scan_stop(ctx.lang, 0, inner, start, true, 0);
    lemma_scan_bounds(ctx.lang, 0, inner, start, true);
    assert(step(ctx, inner, start, true, j == text.len() - 1).err == Some(FieldErrorKind::NestedBrackets));
    assert(run(ctx, inner, start, true, j == text.len() - 1).err == Some(FieldErrorKind::NestedBrackets));
    assert(step(ctx, text, st, false, false).err == Some(FieldErrorKind::NestedBrackets));
}

/// A single character that no group is named or abbreviated with and that is no member
/// phoneme's symbol compiles, in the target, to one new representative phoneme that holds it.
pub proof fn unknown_symbol_becomes_representative(ctx: ScanCtx, c: char, reps: Seq<Seq<char>>)
    requires
        c != '#',
        forall|g: int|
            0 <= g < ctx.lang.groups.len() ==> {
                &&& (#[trigger] ctx.lang.groups[g]).name.abbrev() != c
                &&& (ctx.lang.groups[g].name matches GroupNameView::Full { name, .. } ==> name
                    != seq![c])
                &&& forall|m: int|
                    0 <= m < ctx.lang.groups[g].members.len() ==> ctx.lang.phoneme(
                        #[trigger] ctx.lang.groups[g].members[m],
                    ).symbol != seq![c]
            },
    ensures
        ({
            let o = compile_field(ctx, Field::Target, seq![c], reps);
            &&& o.err is None
            &&& o.st.toks == seq![Token::Phoneme { key: reps.len() as u64, rep: true }]
            &&& o.st.reps == reps.push(seq![c])
        }),
{
    let text = seq![c];
    let st = start_state(Field::Target, reps);
    assert forall|g: int| 0 <= g < ctx.lang.groups.len() implies {
        &&& group_match_len((#[trigger] ctx.lang.groups[g]).name, text, 0) == 0
        &&& forall|m: int|
            0 <= m < ctx.lang.groups[g].members.len() ==> {
                let sym = ctx.lang.phoneme(#[trigger] ctx.lang.groups[g].members[m]).symbol;
                !(sym.len() > 0 && starts_with_at(text, 0, sym))
            }
    } by {
        match ctx.lang.groups[g].name {
            GroupNameView::Full { name, abbrev } => {
                if name.len() > 0 && starts_with_at(text, 0, name) {
                    assert(name =~= seq![c]);
                }
            },
            GroupNameView::Abbrev(a) => {},
        }
        assert forall|m: int| 0 <= m < ctx.lang.groups[g].members.len() implies {
            let sym = ctx.lang.phoneme(#[trigger] ctx.lang.groups[g].members[m]).symbol;
            !(sym.len() > 0 && starts_with_at(text, 0, sym))
        } by {
            let sym = ctx.lang.phoneme(ctx.lang.groups[g].members[m]).symbol;
            if sym.len() > 0 && starts_with_at(text, 0, sym) {
                assert(sym =~= seq![c]);
            }
        }
    }
    lemma_scan_unmatched(ctx.lang, 0, text, st, false);
    lemma_source_len(ctx, text, 0, 0);
    assert(token_len(ctx, text, 0) == 1);
    assert(!exists|j: int| close_at(text, 0, j));
    let o = step(ctx, text, st, false, false);
    assert(o.st == rep_step(ctx, text, st, false));
    assert(text.subrange(0, 1) =~= seq![c]);
    assert(o.st.toks =~= seq![Token::Phoneme { key: reps.len() as u64, rep: true }]);
    lemma_scan_bounds(ctx.lang, 0, text, o.st, false);
    let o2 = step(ctx, text, o.st, false, false);
    assert(o2.st == o.st);
    assert(run(ctx, text, o.st, false, false) == o2);
    assert(run(ctx, text, st, false, false) == run(ctx, text, o.st, false, false));
}

proof fn lemma_no_slash(w: Seq<char>, end: int)
    requires
        !w.contains('/'),
    ensures
        last_of(w, end, '/') is None,
    decreases end,
{
    if 0 < end <= w.len() {
        assert(w[end - 1] != '/');
        lemma_no_slash(w, end - 1);
    }
}

proof fn lemma_word_end_bounds(text: Seq<char>, p: int)
    requires
        0 <= p <= text.len(),
    ensures
        p <= word_end(text, p) <= text.len(),
    decreases text.len() - p,
{
    if p < text.len() {
        lemma_word_end_bounds(text, p + 1);
    }
}

proof fn lemma_split_from_none(text: Seq<char>, p: int)
    requires
        !text.contains('/'),
    ensures
        split_from(text, p) is None,
    decreases text.len() - p,
{
    if 0 <= p < text.len() {
        lemma_word_end_bounds(text, p);
        let w = text.subrange(p, word_end(text, p));
        if w.contains('/') {
            let i = choose|i: int| 0 <= i < w.len() && w[i] == '/';
            assert(text[p + i] == '/');
        }
        match last_of(w, w.len() as int, '_') {
            Some(l) => lemma_no_slash(w, l),
            None => {},
        }
        lemma_split_from_none(text, p + 1);
    }
}

/// A line without `/` does not have the rule shape.
pub proof fn no_slash_is_malformed(text: Seq<char>)
    requires
        !text.contains('/'),
    ensures
        split_rule(text) is None,
{
    lemma_split_from_none(text, 0);
}

} // verus!
