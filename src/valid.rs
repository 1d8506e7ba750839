//! Compiled tokens only name what exists: phonemes and groups of the inventory, and
//! representative phonemes of the pool.
use vstd::prelude::*;

use crate::compile::{close_at, emitted, group_match_len, rep_step, run, scan_groups, scan_members, step, ScanCtx, ScanState};
use crate::element::Token;
use crate::language::LanguageView;
use crate::laws::{lemma_members_bounds, lemma_scan_bounds};
use crate::roundtrip::{is_prefix, lemma_render_extend};
use crate::sc::{tok_valid, toks_valid};
use crate::text::starts_with_at;

verus! {

proof fn lemma_valid_push(lang: LanguageView, reps: Seq<Seq<char>>, ts: Seq<Token>, t: Token)
    requires
        toks_valid(lang, reps, ts),
        tok_valid(lang, reps, t),
    ensures
        toks_valid(lang, reps, ts.push(t)),
{
    assert(ts.push(t).subrange(0, ts.len() as int) =~= ts);
}

proof fn lemma_prefix_push(a: Seq<Seq<char>>, x: Seq<char>)
    ensures
        is_prefix(a, a.push(x)),
{
    assert(a.push(x).subrange(0, a.len() as int) =~= a);
}

proof fn lemma_prefix_refl(a: Seq<Seq<char>>)
    ensures
        is_prefix(a, a),
{
    assert(a.subrange(0, a.len() as int) =~= a);
}

proof fn lemma_prefix_trans(a: Seq<Seq<char>>, b: Seq<Seq<char>>, c: Seq<Seq<char>>)
    requires
        is_prefix(a, b),
        is_prefix(b, c),
    ensures
        is_prefix(a, c),
{
    assert(c.subrange(0, a.len() as int) =~= c.subrange(0, b.len() as int).subrange(0, a.len() as int));
}

/// The pool only grows in one pass of the compiler.
pub proof fn lemma_step_grows(ctx: ScanCtx, text: Seq<char>, st: ScanState, nested: bool, tail: bool)
    requires
        0 <= st.pos <= text.len(),
    ensures
        is_prefix(st.reps, step(ctx, text, st, nested, tail).st.reps),
    decreases text.len(), text.len() - st.pos, 0int,
{
    let s1 = scan_groups(ctx.lang, 0, text, st, nested);
    lemma_scan_bounds(ctx.lang, 0, text, st, nested);
    lemma_prefix_refl(st.reps);
    let at = st.pos;
    if s1.pos != at {
    } else if 0 <= at < text.len() && text[at] == '[' && nested {
    } else if 0 <= at < text.len() && text[at] == '[' && exists|j: int| close_at(text, at, j) {
        let j = choose|j: int| close_at(text, at, j);
        let inner = text.subrange(at + 1, j);
        let start = ScanState { pos: 0, head: s1.head, field: s1.field, toks: Seq::empty(), reps: s1.reps };
        lemma_run_grows(ctx, inner, start, true, j == text.len() - 1);
    } else if 0 <= at < text.len() && text[at] == '#' {
    } else if 0 <= at < text.len() {
        let n = crate::compile::token_len(ctx, text, at);
        lemma_prefix_push(st.reps, text.subrange(at, at + n));
    }
}

/// The pool only grows in a run of the compiler.
pub proof fn lemma_run_grows(ctx: ScanCtx, text: Seq<char>, st: ScanState, nested: bool, tail: bool)
    requires
        0 <= st.pos <= text.len(),
    ensures
        is_prefix(st.reps, run(ctx, text, st, nested, tail).st.reps),
    decreases text.len(), text.len() - st.pos, 1int,
{
    let o1 = step(ctx, text, st, nested, tail);
    lemma_step_grows(ctx, text, st, nested, tail);
    if o1.err is None && st.pos < o1.st.pos <= text.len() {
        lemma_run_grows(ctx, text, o1.st, nested, tail);
        lemma_prefix_trans(st.reps, o1.st.reps, run(ctx, text, o1.st, nested, tail).st.reps);
    }
}

proof fn lemma_members_valid(lang: LanguageView, g: int, m: int, text: Seq<char>, st: ScanState, nested: bool)
    requires
        lang.wf(),
        0 <= g < lang.groups.len(),
        toks_valid(lang, st.reps, st.toks),
    ensures
        toks_valid(lang, st.reps, scan_members(lang, lang.groups[g].members, m, text, st, nested).toks),
        scan_members(lang, lang.groups[g].members, m, text, st, nested).reps == st.reps,
    decreases lang.groups[g].members.len() - m,
{
    let members = lang.groups[g].members;
    if 0 <= m < members.len() {
        let sym = lang.phoneme(members[m]).symbol;
        let _ = lang.groups[g];
        if sym.len() > 0 && starts_with_at(text, st.pos, sym) {
            let t = Token::Phoneme { key: members[m], rep: false };
            lemma_valid_push(lang, st.reps, st.toks, t);
            lemma_members_valid(lang, g, m + 1, text, emitted(st, t, sym.len() as int, nested), nested);
        } else {
            lemma_members_valid(lang, g, m + 1, text, st, nested);
        }
    }
}

proof fn lemma_scan_valid(lang: LanguageView, g: int, text: Seq<char>, st: ScanState, nested: bool)
    requires
        lang.wf(),
        0 <= g,
        toks_valid(lang, st.reps, st.toks),
    ensures
        toks_valid(lang, st.reps, scan_groups(lang, g, text, st, nested).toks),
        scan_groups(lang, g, text, st, nested).reps == st.reps,
    decreases lang.groups.len() - g,
{
    if g < lang.groups.len() {
        let e = lang.groups[g];
        let n = group_match_len(e.name, text, st.pos);
        if n > 0 {
            let keys = lang.group_keys();
            assert(keys[g] == e.key);
            assert(lang.has_group(e.key));
            let t = Token::Group(e.key);
            lemma_valid_push(lang, st.reps, st.toks, t);
            lemma_scan_valid(lang, g + 1, text, emitted(st, t, n, nested), nested);
        } else {
            lemma_members_valid(lang, g, 0, text, st, nested);
            lemma_scan_valid(lang, g + 1, text, scan_members(lang, e.members, 0, text, st, nested), nested);
        }
    }
}

/// A pass of the compiler that does not fail keeps every key valid.
pub proof fn lemma_step_valid(ctx: ScanCtx, text: Seq<char>, st: ScanState, nested: bool, tail: bool)
    requires
        ctx.lang.wf(),
        0 <= st.pos <= text.len(),
        toks_valid(ctx.lang, st.reps, st.toks),
        step(ctx, text, st, nested, tail).err is None,
        step(ctx, text, st, nested, tail).st.reps.len() <= u64::MAX,
    ensures
        toks_valid(ctx.lang, step(ctx, text, st, nested, tail).st.reps, step(ctx, text, st, nested, tail).st.toks),
    decreases text.len(), text.len() - st.pos, 0int,
{
    let lang = ctx.lang;
    let o = step(ctx, text, st, nested, tail);
    let s1 = scan_groups(lang, 0, text, st, nested);
    lemma_scan_bounds(lang, 0, text, st, nested);
    lemma_scan_valid(lang, 0, text, st, nested);
    let at = st.pos;
    if s1.pos != at {
    } else if 0 <= at < text.len() && text[at] == '[' && nested {
    } else if 0 <= at < text.len() && text[at] == '[' && exists|j: int| close_at(text, at, j) {
        let j = choose|j: int| close_at(text, at, j);
        let inner = text.subrange(at + 1, j);
        let start = ScanState { pos: 0, head: s1.head, field: s1.field, toks: Seq::empty(), reps: s1.reps };
        let oi = run(ctx, inner, start, true, j == text.len() - 1);
        assert(toks_valid(lang, start.reps, Seq::<Token>::empty()));
        lemma_run_valid(ctx, inner, start, true, j == text.len() - 1);
        lemma_run_grows(ctx, inner, start, true, j == text.len() - 1);
        lemma_render_extend(lang, s1.reps, oi.st.reps, s1.toks);
        lemma_valid_push(lang, oi.st.reps, s1.toks, Token::Any(oi.st.toks));
    } else if 0 <= at < text.len() && text[at] == '#' {
        lemma_valid_push(lang, s1.reps, s1.toks, Token::Boundary);
    } else if 0 <= at < text.len() {
        let n = crate::compile::token_len(ctx, text, at);
        let q = st.reps.push(text.subrange(at, at + n));
        lemma_prefix_push(st.reps, text.subrange(at, at + n));
        lemma_render_extend(lang, st.reps, q, st.toks);
        let t = Token::Phoneme { key: st.reps.len() as u64, rep: true };
        assert(o.st == rep_step(ctx, text, s1, nested));
        assert(tok_valid(lang, q, t));
        lemma_valid_push(lang, q, st.toks, t);
    }
}

/// A run of the compiler that does not fail keeps every key valid.
pub proof fn lemma_run_valid(ctx: ScanCtx, text: Seq<char>, st: ScanState, nested: bool, tail: bool)
    requires
        ctx.lang.wf(),
        0 <= st.pos <= text.len(),
        toks_valid(ctx.lang, st.reps, st.toks),
        run(ctx, text, st, nested, tail).err is None,
        run(ctx, text, st, nested, tail).st.reps.len() <= u64::MAX,
    ensures
        toks_valid(ctx.lang, run(ctx, text, st, nested, tail).st.reps, run(ctx, text, st, nested, tail).st.toks),
    decreases text.len(), text.len() - st.pos, 1int,
{
    let o1 = step(ctx, text, st, nested, tail);
    if st.pos < o1.st.pos <= text.len() {
        lemma_run_grows(ctx, text, o1.st, nested, tail);
        lemma_step_valid(ctx, text, st, nested, tail);
        lemma_run_valid(ctx, text, o1.st, nested, tail);
    } else {
        lemma_step_valid(ctx, text, st, nested, tail);
    }
}

} // verus!
