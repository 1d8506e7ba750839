//! The round trip of a compiled rule through its text form.
use vstd::prelude::*;

use crate::compile::{
    close_at, emitted, group_match_len, rep_step, run, scan_groups, scan_members, step, token_len,
    ScanCtx, ScanState,
};
use crate::element::Token;
use crate::group::GroupNameView;
use crate::language::LanguageView;
use crate::laws::{lemma_members_bounds, lemma_scan_bounds, lemma_source_len};
use crate::element::Field;
use crate::sc::{
    all_ok, compile_fields, edge_boundary, fields_for, is_boundary_like, render_rule, render_tok,
    render_toks, tok_valid, toks_of, toks_valid,
};
use crate::compile::compile_field;
use crate::shape::{is_arrow, last_arrow, last_of, split_from, split_rule, split_word, word_end};
use crate::text::{is_white_space, starts_with_at};

verus! {

/// Every group is named by its abbreviation alone: each token then renders as exactly the
/// text it was read from.
pub open spec fn plain(lang: LanguageView) -> bool {
    &&& lang.wf()
    &&& forall|g: int| 0 <= g < lang.groups.len() ==> (#[trigger] lang.groups[g]).name is Abbrev
}

/// `a` is a prefix of `b`.
pub open spec fn is_prefix<A>(a: Seq<A>, b: Seq<A>) -> bool {
    a.len() <= b.len() && b.subrange(0, a.len() as int) == a
}

/// Rendering distributes over concatenation.
pub proof fn lemma_render_concat(lang: LanguageView, reps: Seq<Seq<char>>, a: Seq<Token>, b: Seq<Token>)
    ensures
        render_toks(lang, reps, a + b) == render_toks(lang, reps, a) + render_toks(lang, reps, b),
        toks_valid(lang, reps, a + b) == (toks_valid(lang, reps, a) && toks_valid(lang, reps, b)),
    decreases b.len(),
{
    if b.len() == 0 {
        assert(a + b =~= a);
        assert(render_toks(lang, reps, a) + render_toks(lang, reps, b) =~= render_toks(lang, reps, a));
    } else {
        let bl = b.subrange(0, b.len() - 1);
        lemma_render_concat(lang, reps, a, bl);
        assert((a + b).subrange(0, (a + b).len() - 1) =~= a + bl);
        assert((a + b)[(a + b).len() - 1] == b[b.len() - 1]);
        assert(render_toks(lang, reps, a + b) =~= render_toks(lang, reps, a) + render_toks(lang, reps, b));
    }
}

/// Rendering a valid token does not change when the pool grows.
pub proof fn lemma_render_tok_extend(lang: LanguageView, r: Seq<Seq<char>>, r2: Seq<Seq<char>>, t: Token)
    requires
        is_prefix(r, r2),
        tok_valid(lang, r, t),
    ensures
        tok_valid(lang, r2, t),
        render_tok(lang, r2, t) == render_tok(lang, r, t),
    decreases t,
{
    match t {
        Token::Phoneme { key, rep } => {
            if rep {
                assert(r2.subrange(0, r.len() as int)[key as int] == r2[key as int]);
            }
        },
        Token::Any(ts) => {
            lemma_render_extend(lang, r, r2, ts);
        },
        _ => {},
    }
}

/// Rendering valid tokens does not change when the pool grows.
pub proof fn lemma_render_extend(lang: LanguageView, r: Seq<Seq<char>>, r2: Seq<Seq<char>>, ts: Seq<Token>)
    requires
        is_prefix(r, r2),
        toks_valid(lang, r, ts),
    ensures
        toks_valid(lang, r2, ts),
        render_toks(lang, r2, ts) == render_toks(lang, r, ts),
    decreases ts,
{
    if ts.len() > 0 {
        lemma_render_extend(lang, r, r2, ts.subrange(0, ts.len() - 1));
        lemma_render_tok_extend(lang, r, r2, ts[ts.len() - 1]);
    }
}

proof fn lemma_prefix_refl<A>(a: Seq<A>)
    ensures
        is_prefix(a, a),
{
    assert(a.subrange(0, a.len() as int) =~= a);
}

proof fn lemma_prefix_trans<A>(a: Seq<A>, b: Seq<A>, c: Seq<A>)
    requires
        is_prefix(a, b),
        is_prefix(b, c),
    ensures
        is_prefix(a, c),
{
    assert(c.subrange(0, a.len() as int) =~= c.subrange(0, b.len() as int).subrange(0, a.len() as int));
}

/// With unique group keys, the group found by a group's key is that group.
proof fn lemma_group_index(lang: LanguageView, g: int)
    requires
        lang.wf(),
        0 <= g < lang.groups.len(),
    ensures
        lang.group_index(lang.groups[g].key) == g,
        lang.has_group(lang.groups[g].key),
{
    let keys = lang.group_keys();
    assert(keys[g] == lang.groups[g].key);
    let j = keys.index_of(lang.groups[g].key);
    assert(keys[j] == keys[g]);
    if j < g {
        assert(keys[j] < keys[g]);
    } else if j > g {
        assert(keys[g] < keys[j]);
    }
}

/// What one pass of the compiler added: the tokens after the old ones, rendering as the
/// characters the cursor passed over, valid against the grown pool.
pub open spec fn reads_back(lang: LanguageView, text: Seq<char>, st: ScanState, r: ScanState) -> bool {
    exists|new: Seq<Token>|
        {
            &&& r.toks == st.toks + new
            &&& toks_valid(lang, r.reps, new)
            &&& #[trigger] render_toks(lang, r.reps, new) == text.subrange(st.pos, r.pos)
        }
}

proof fn lemma_reads_back_refl(lang: LanguageView, text: Seq<char>, st: ScanState)
    requires
        0 <= st.pos <= text.len(),
    ensures
        reads_back(lang, text, st, st),
{
    let new = Seq::<Token>::empty();
    assert(st.toks + new =~= st.toks);
    assert(text.subrange(st.pos, st.pos) =~= Seq::<char>::empty());
    assert(render_toks(lang, st.reps, new) == text.subrange(st.pos, st.pos));
}

/// Chaining two passes: what both added reads back as the characters passed over.
proof fn lemma_reads_back_trans(lang: LanguageView, text: Seq<char>, a: ScanState, b: ScanState, c: ScanState)
    requires
        0 <= a.pos <= b.pos <= c.pos <= text.len(),
        is_prefix(b.reps, c.reps),
        reads_back(lang, text, a, b),
        reads_back(lang, text, b, c),
    ensures
        reads_back(lang, text, a, c),
{
    let n1 = choose|new: Seq<Token>|
        {
            &&& b.toks == a.toks + new
            &&& toks_valid(lang, b.reps, new)
            &&& #[trigger] render_toks(lang, b.reps, new) == text.subrange(a.pos, b.pos)
        };
    let n2 = choose|new: Seq<Token>|
        {
            &&& c.toks == b.toks + new
            &&& toks_valid(lang, c.reps, new)
            &&& #[trigger] render_toks(lang, c.reps, new) == text.subrange(b.pos, c.pos)
        };
    lemma_render_extend(lang, b.reps, c.reps, n1);
    lemma_render_concat(lang, c.reps, n1, n2);
    assert(c.toks =~= a.toks + (n1 + n2));
    assert(text.subrange(a.pos, c.pos) =~= text.subrange(a.pos, b.pos) + text.subrange(b.pos, c.pos));
    assert(render_toks(lang, c.reps, n1 + n2) == text.subrange(a.pos, c.pos));
}

/// Emitting one token that renders as the next `n` characters reads back.
proof fn lemma_reads_back_one(lang: LanguageView, text: Seq<char>, st: ScanState, t: Token, n: int, nested: bool)
    requires
        0 <= st.pos,
        st.pos + n <= text.len(),
        0 <= n,
        tok_valid(lang, st.reps, t),
        render_tok(lang, st.reps, t) == text.subrange(st.pos, st.pos + n),
    ensures
        reads_back(lang, text, st, emitted(st, t, n, nested)),
{
    let new = seq![t];
    assert(st.toks.push(t) =~= st.toks + new);
    assert(new.subrange(0, 0) =~= Seq::<Token>::empty());
    assert(render_toks(lang, st.reps, Seq::<Token>::empty()) =~= Seq::<char>::empty());
    assert(render_toks(lang, st.reps, new) == render_toks(lang, st.reps, new.subrange(0, 0)) + render_tok(lang, st.reps, new[0]));
    assert(render_toks(lang, st.reps, new) =~= render_tok(lang, st.reps, t));
    assert(toks_valid(lang, st.reps, Seq::<Token>::empty()));
    assert(toks_valid(lang, st.reps, new) == (toks_valid(lang, st.reps, new.subrange(0, 0)) && tok_valid(lang, st.reps, new[0])));
    assert(toks_valid(lang, st.reps, new));
    assert(render_toks(lang, st.reps, new) == text.subrange(st.pos, st.pos + n));
    let r = emitted(st, t, n, nested);
    assert(r.toks == st.toks + new && toks_valid(lang, r.reps, new) && render_toks(lang, r.reps, new) == text.subrange(st.pos, r.pos));
}

proof fn lemma_members_read_back(
    lang: LanguageView,
    g: int,
    m: int,
    text: Seq<char>,
    st: ScanState,
    nested: bool,
)
    requires
        plain(lang),
        0 <= g < lang.groups.len(),
        0 <= st.pos <= text.len(),
    ensures
        reads_back(lang, text, st, scan_members(lang, lang.groups[g].members, m, text, st, nested)),
    decreases lang.groups[g].members.len() - m,
{
    let members = lang.groups[g].members;
    if 0 <= m < members.len() {
        let sym = lang.phoneme(members[m]).symbol;
        let _ = lang.groups[g];
        if sym.len() > 0 && starts_with_at(text, st.pos, sym) {
            let t = Token::Phoneme { key: members[m], rep: false };
            let next = emitted(st, t, sym.len() as int, nested);
            lemma_reads_back_one(lang, text, st, t, sym.len() as int, nested);
            lemma_members_read_back(lang, g, m + 1, text, next, nested);
            lemma_members_bounds(lang, members, m + 1, text, next, nested);
            lemma_prefix_refl(next.reps);
            lemma_reads_back_trans(lang, text, st, next, scan_members(lang, members, m + 1, text, next, nested));
        } else {
            lemma_members_read_back(lang, g, m + 1, text, st, nested);
        }
    } else {
        lemma_reads_back_refl(lang, text, st);
    }
}

/// A pass of the scanner over an inventory of the plain kind reads back.
pub proof fn lemma_scan_read_back(lang: LanguageView, g: int, text: Seq<char>, st: ScanState, nested: bool)
    requires
        plain(lang),
        0 <= st.pos <= text.len(),
        0 <= g,
    ensures
        reads_back(lang, text, st, scan_groups(lang, g, text, st, nested)),
    decreases lang.groups.len() - g,
{
    if g < lang.groups.len() {
        let e = lang.groups[g];
        let n = group_match_len(e.name, text, st.pos);
        let next = if n > 0 {
            emitted(st, Token::Group(e.key), n, nested)
        } else {
            scan_members(lang, e.members, 0, text, st, nested)
        };
        if n > 0 {
            lemma_group_index(lang, g);
            assert(e.name is Abbrev);
            assert(n == 1);
            assert(text.subrange(st.pos, st.pos + 1) =~= seq![e.name.abbrev()]);
            lemma_reads_back_one(lang, text, st, Token::Group(e.key), n, nested);
        } else {
            lemma_members_read_back(lang, g, 0, text, st, nested);
            lemma_members_bounds(lang, e.members, 0, text, st, nested);
        }
        lemma_scan_bounds(lang, g + 1, text, next, nested);
        lemma_scan_read_back(lang, g + 1, text, next, nested);
        lemma_prefix_refl(next.reps);
        lemma_reads_back_trans(lang, text, st, next, scan_groups(lang, g + 1, text, next, nested));
    } else {
        lemma_reads_back_refl(lang, text, st);
    }
}

/// One pass of the compiler that does not fail reads back, moving the cursor unless it is
/// at the end.
pub proof fn lemma_step_read_back(ctx: ScanCtx, text: Seq<char>, st: ScanState, nested: bool, tail: bool)
    requires
        plain(ctx.lang),
        0 <= st.pos <= text.len(),
        st.reps.len() + (text.len() - st.pos) <= u64::MAX,
        step(ctx, text, st, nested, tail).err is None,
    ensures
        ({
            let o = step(ctx, text, st, nested, tail);
            &&& st.pos <= o.st.pos <= text.len()
            &&& o.st.reps.len() - st.reps.len() <= o.st.pos - st.pos
            &&& is_prefix(st.reps, o.st.reps)
            &&& reads_back(ctx.lang, text, st, o.st)
            &&& o.st.pos == st.pos ==> st.pos == text.len()
        }),
    decreases text.len(), text.len() - st.pos, 0int,
{
    let lang = ctx.lang;
    let o = step(ctx, text, st, nested, tail);
    let s1 = scan_groups(lang, 0, text, st, nested);
    let at = st.pos;
    lemma_scan_bounds(lang, 0, text, st, nested);
    lemma_scan_read_back(lang, 0, text, st, nested);
    lemma_prefix_refl(st.reps);
    if s1.pos != at {
    } else if 0 <= at < text.len() && text[at] == '[' && nested {
    } else if 0 <= at < text.len() && text[at] == '[' && exists|j: int| close_at(text, at, j) {
        let j = choose|j: int| close_at(text, at, j);
        let inner = text.subrange(at + 1, j);
        let start = ScanState { pos: 0, head: s1.head, field: s1.field, toks: Seq::empty(), reps: s1.reps };
        let oi = run(ctx, inner, start, true, j == text.len() - 1);
        lemma_run_read_back(ctx, inner, start, true, j == text.len() - 1);
        let ni = choose|new: Seq<Token>|
            {
                &&& oi.st.toks == start.toks + new
                &&& toks_valid(lang, oi.st.reps, new)
                &&& #[trigger] render_toks(lang, oi.st.reps, new) == inner.subrange(0, oi.st.pos)
            };
        assert(oi.st.toks =~= ni);
        assert(inner.subrange(0, oi.st.pos) =~= inner);
        let t = Token::Any(ni);
        let new = seq![t];
        assert(render_tok(lang, oi.st.reps, t) == seq!['['] + inner + seq![']']);
        assert(text.subrange(at, j + 1) =~= seq!['['] + inner + seq![']']);
        assert(new.subrange(0, 0) =~= Seq::<Token>::empty());
        assert(render_toks(lang, oi.st.reps, Seq::<Token>::empty()) =~= Seq::<char>::empty());
        assert(render_toks(lang, oi.st.reps, new) == render_toks(lang, oi.st.reps, new.subrange(0, 0))
            + render_tok(lang, oi.st.reps, new[0]));
        assert(render_toks(lang, oi.st.reps, new) =~= text.subrange(at, j + 1));
        assert(toks_valid(lang, oi.st.reps, Seq::<Token>::empty()));
        assert(toks_valid(lang, oi.st.reps, new) == (toks_valid(lang, oi.st.reps, new.subrange(0, 0))
            && tok_valid(lang, oi.st.reps, new[0])));
        assert(o.st.toks =~= st.toks + new);
        assert(o.st.toks == st.toks + new && toks_valid(lang, o.st.reps, new) && render_toks(
            lang,
            o.st.reps,
            new,
        ) == text.subrange(st.pos, o.st.pos));
        assert(o.st.pos == j + 1);
        assert(o.st.reps == oi.st.reps);
        assert(reads_back(lang, text, st, o.st));
        assert(is_prefix(st.reps, o.st.reps));
    } else if 0 <= at < text.len() && text[at] == '#' {
        assert(text.subrange(at, at + 1) =~= seq!['#']);
        lemma_reads_back_one(lang, text, st, Token::Boundary, 1, nested);
        let e = emitted(st, Token::Boundary, 1, nested);
        let new = choose|new: Seq<Token>|
            {
                &&& e.toks == st.toks + new
                &&& toks_valid(lang, e.reps, new)
                &&& #[trigger] render_toks(lang, e.reps, new) == text.subrange(st.pos, e.pos)
            };
        assert(o.st.toks == e.toks && o.st.reps == e.reps && o.st.pos == e.pos);
        assert(render_toks(lang, o.st.reps, new) == text.subrange(st.pos, o.st.pos));
        assert(reads_back(lang, text, st, o.st));
    } else if at < text.len() {
        lemma_source_len(ctx, text, at, 0);
        let n = token_len(ctx, text, at);
        assert(1 <= n <= text.len() - at);
        let t = Token::Phoneme { key: st.reps.len() as u64, rep: true };
        let r = rep_step(ctx, text, st, nested);
        let new = seq![t];
        assert(r.reps[st.reps.len() as int] == text.subrange(at, at + n));
        assert(render_tok(lang, r.reps, t) == text.subrange(at, at + n));
        assert(new.subrange(0, 0) =~= Seq::<Token>::empty());
        assert(render_toks(lang, r.reps, Seq::<Token>::empty()) =~= Seq::<char>::empty());
        assert(render_toks(lang, r.reps, new) == render_toks(lang, r.reps, new.subrange(0, 0))
            + render_tok(lang, r.reps, new[0]));
        assert(render_toks(lang, r.reps, new) =~= text.subrange(at, at + n));
        assert(toks_valid(lang, r.reps, Seq::<Token>::empty()));
        assert(toks_valid(lang, r.reps, new) == (toks_valid(lang, r.reps, new.subrange(0, 0))
            && tok_valid(lang, r.reps, new[0])));
        assert(r.toks =~= st.toks + new);
        assert(r.reps.subrange(0, st.reps.len() as int) =~= st.reps);
        assert(r.toks == st.toks + new && toks_valid(lang, r.reps, new) && render_toks(lang, r.reps, new)
            == text.subrange(st.pos, r.pos));
        assert(o.st == r);
        assert(reads_back(lang, text, st, o.st));
        assert(is_prefix(st.reps, o.st.reps));
    } else {
        lemma_reads_back_refl(lang, text, st);
    }
}

/// A run of the compiler that does not fail reads the whole text back, and only grows the pool.
pub proof fn lemma_run_read_back(ctx: ScanCtx, text: Seq<char>, st: ScanState, nested: bool, tail: bool)
    requires
        plain(ctx.lang),
        0 <= st.pos <= text.len(),
        st.reps.len() + (text.len() - st.pos) <= u64::MAX,
        run(ctx, text, st, nested, tail).err is None,
    ensures
        ({
            let o = run(ctx, text, st, nested, tail);
            &&& o.st.pos == text.len()
            &&& o.st.reps.len() - st.reps.len() <= o.st.pos - st.pos
            &&& is_prefix(st.reps, o.st.reps)
            &&& reads_back(ctx.lang, text, st, o.st)
        }),
    decreases text.len(), text.len() - st.pos, 1int,
{
    let o1 = step(ctx, text, st, nested, tail);
    lemma_step_read_back(ctx, text, st, nested, tail);
    if st.pos < o1.st.pos <= text.len() {
        let o = run(ctx, text, o1.st, nested, tail);
        lemma_run_read_back(ctx, text, o1.st, nested, tail);
        lemma_prefix_trans(st.reps, o1.st.reps, o.st.reps);
        lemma_reads_back_trans(ctx.lang, text, st, o1.st, o.st);
    }
}

proof fn lemma_last_of_some(w: Seq<char>, end: int, c: char)
    requires
        last_of(w, end, c) is Some,
    ensures
        ({
            let p = last_of(w, end, c)->Some_0;
            &&& 0 <= p < end <= w.len()
            &&& w[p] == c
            &&& forall|q: int| p < q < end ==> w[q] != c
        }),
    decreases end,
{
    if 0 < end <= w.len() && w[end - 1] != c {
        lemma_last_of_some(w, end - 1, c);
    }
}

proof fn lemma_last_of_found(w: Seq<char>, end: int, c: char, p: int)
    requires
        0 <= p < end <= w.len(),
        w[p] == c,
        forall|q: int| p < q < end ==> w[q] != c,
    ensures
        last_of(w, end, c) == Some(p),
    decreases end,
{
    if w[end - 1] != c {
        lemma_last_of_found(w, end - 1, c, p);
    }
}

proof fn lemma_last_arrow_some(w: Seq<char>, end: int)
    requires
        last_arrow(w, end) is Some,
    ensures
        ({
            let p = last_arrow(w, end)->Some_0;
            &&& 0 <= p < end <= w.len()
            &&& is_arrow(w[p])
            &&& forall|q: int| p < q < end ==> !is_arrow(w[q])
        }),
    decreases end,
{
    if 0 < end <= w.len() && !is_arrow(w[end - 1]) {
        lemma_last_arrow_some(w, end - 1);
    }
}

proof fn lemma_last_arrow_found(w: Seq<char>, end: int, p: int)
    requires
        0 <= p < end <= w.len(),
        is_arrow(w[p]),
        forall|q: int| p < q < end ==> !is_arrow(w[q]),
    ensures
        last_arrow(w, end) == Some(p),
    decreases end,
{
    if !is_arrow(w[end - 1]) {
        lemma_last_arrow_found(w, end - 1, p);
    }
}

proof fn lemma_word_chars(text: Seq<char>, p: int)
    requires
        0 <= p <= text.len(),
    ensures
        p <= word_end(text, p) <= text.len(),
        forall|i: int| p <= i < word_end(text, p) ==> !is_white_space(text[i]),
    decreases text.len() - p,
{
    if p < text.len() && !is_white_space(text[p]) {
        lemma_word_chars(text, p + 1);
    }
}

proof fn lemma_word_end_all(text: Seq<char>, p: int)
    requires
        0 <= p <= text.len(),
        forall|i: int| 0 <= i < text.len() ==> !is_white_space(text[i]),
    ensures
        word_end(text, p) == text.len(),
    decreases text.len() - p,
{
    if p < text.len() {
        lemma_word_end_all(text, p + 1);
    }
}

/// The fields a rule line splits into: no white space in any, no separator of the first
/// kind in the replacement, no `/` in the start environment, no `_` in the end environment.
pub open spec fn fields_separable(f: Seq<Seq<char>>) -> bool {
    &&& f.len() == 4
    &&& forall|k: int, i: int| 0 <= k < 4 && 0 <= i < f[k].len() ==> !is_white_space(#[trigger] f[k][i])
    &&& forall|i: int| 0 <= i < f[1].len() ==> !is_arrow(#[trigger] f[1][i])
    &&& forall|i: int| 0 <= i < f[2].len() ==> #[trigger] f[2][i] != '/'
    &&& forall|i: int| 0 <= i < f[3].len() ==> #[trigger] f[3][i] != '_'
}

proof fn lemma_split_word_separable(w: Seq<char>)
    requires
        split_word(w) is Some,
        forall|i: int| 0 <= i < w.len() ==> !is_white_space(w[i]),
    ensures
        fields_separable(split_word(w)->Some_0),
        ({
            let f = split_word(w)->Some_0;
            f[0].len() + f[1].len() + f[2].len() + f[3].len() + 3 == w.len()
        }),
{
    let l = last_of(w, w.len() as int, '_')->Some_0;
    lemma_last_of_some(w, w.len() as int, '_');
    let k = last_of(w, l, '/')->Some_0;
    lemma_last_of_some(w, l, '/');
    let i = last_arrow(w, k)->Some_0;
    lemma_last_arrow_some(w, k);
    let f = split_word(w)->Some_0;
    assert forall|a: int, b: int| 0 <= a < 4 && 0 <= b < f[a].len() implies !is_white_space(#[trigger] f[a][b]) by {
        if a == 0 {
            assert(f[a][b] == w[b]);
        } else if a == 1 {
            assert(f[a][b] == w[i + 1 + b]);
        } else if a == 2 {
            assert(f[a][b] == w[k + 1 + b]);
        } else {
            assert(f[a][b] == w[l + 1 + b]);
        }
    }
    assert forall|b: int| 0 <= b < f[1].len() implies !is_arrow(#[trigger] f[1][b]) by {
        assert(f[1][b] == w[i + 1 + b]);
    }
    assert forall|b: int| 0 <= b < f[2].len() implies #[trigger] f[2][b] != '/' by {
        assert(f[2][b] == w[k + 1 + b]);
    }
    assert forall|b: int| 0 <= b < f[3].len() implies #[trigger] f[3][b] != '_' by {
        assert(f[3][b] == w[l + 1 + b]);
    }
}

proof fn lemma_split_from_separable(text: Seq<char>, p: int)
    requires
        split_from(text, p) is Some,
    ensures
        fields_separable(split_from(text, p)->Some_0),
        ({
            let f = split_from(text, p)->Some_0;
            f[0].len() + f[1].len() + f[2].len() + f[3].len() <= text.len()
        }),
    decreases text.len() - p,
{
    if 0 <= p < text.len() {
        lemma_word_chars(text, p);
        let w = text.subrange(p, word_end(text, p));
        if split_word(w) is Some {
            assert forall|i: int| 0 <= i < w.len() implies !is_white_space(w[i]) by {
                assert(w[i] == text[p + i]);
            }
            lemma_split_word_separable(w);
        } else {
            lemma_split_from_separable(text, p + 1);
        }
    }
}

/// The fields of a rule line are separable.
pub proof fn lemma_split_separable(text: Seq<char>)
    requires
        split_rule(text) is Some,
    ensures
        fields_separable(split_rule(text)->Some_0),
        ({
            let f = split_rule(text)->Some_0;
            f[0].len() + f[1].len() + f[2].len() + f[3].len() <= text.len()
        }),
{
    lemma_split_from_separable(text, 0);
}

/// The line `TARGET→REPLACEMENT/ENVSTART_ENVEND`.
pub open spec fn join_fields(f: Seq<Seq<char>>) -> Seq<char> {
    f[0] + seq!['\u{2192}'] + f[1] + seq!['/'] + f[2] + seq!['_'] + f[3]
}

/// Separable fields joined into a line split back into themselves.
pub proof fn lemma_join_split(f: Seq<Seq<char>>)
    requires
        fields_separable(f),
    ensures
        split_rule(join_fields(f)) == Some(f),
{
    let line = join_fields(f);
    let t = f[0].len() as int;
    let r = f[1].len() as int;
    let s = f[2].len() as int;
    let e = f[3].len() as int;
    let i = t;
    let k = t + 1 + r;
    let l = t + 1 + r + 1 + s;
    assert(line.len() == l + 1 + e);
    assert forall|x: int| 0 <= x < line.len() implies !is_white_space(line[x]) by {
        if x < t {
            assert(line[x] == f[0][x]);
        } else if x == i {
        } else if x < k {
            assert(line[x] == f[1][x - i - 1]);
        } else if x == k {
        } else if x < l {
            assert(line[x] == f[2][x - k - 1]);
        } else if x == l {
        } else {
            assert(line[x] == f[3][x - l - 1]);
        }
    }
    lemma_word_end_all(line, 0);
    assert(line.subrange(0, line.len() as int) =~= line);
    assert forall|q: int| l < q < line.len() implies line[q] != '_' by {
        assert(line[q] == f[3][q - l - 1]);
    }
    lemma_last_of_found(line, line.len() as int, '_', l);
    assert forall|q: int| k < q < l implies line[q] != '/' by {
        assert(line[q] == f[2][q - k - 1]);
    }
    lemma_last_of_found(line, l, '/', k);
    assert forall|q: int| i < q < k implies !is_arrow(line[q]) by {
        assert(line[q] == f[1][q - i - 1]);
    }
    lemma_last_arrow_found(line, k, i);
    assert(line.subrange(0, i) =~= f[0]);
    assert(line.subrange(i + 1, k) =~= f[1]);
    assert(line.subrange(k + 1, l) =~= f[2]);
    assert(line.subrange(l + 1, line.len() as int) =~= f[3]);
    assert(seq![f[0], f[1], f[2], f[3]] =~= f);
}

/// Two tokens have the same shape: representative phonemes stand for equal text in their
/// pools, everything else is equal.
pub open spec fn same_tok(r1: Seq<Seq<char>>, t1: Token, r2: Seq<Seq<char>>, t2: Token) -> bool
    decreases t1,
{
    match t1 {
        Token::Phoneme { key: k1, rep } => if rep {
            match t2 {
                Token::Phoneme { key: k2, rep: rep2 } => rep2 && k1 < r1.len() && k2 < r2.len()
                    && r1[k1 as int] == r2[k2 as int],
                _ => false,
            }
        } else {
            t2 == t1
        },
        Token::Any(a1) => match t2 {
            Token::Any(a2) => same_toks(r1, a1, r2, a2),
            _ => false,
        },
        _ => t2 == t1,
    }
}

/// Two token sequences have the same shape, token by token.
pub open spec fn same_toks(r1: Seq<Seq<char>>, a1: Seq<Token>, r2: Seq<Seq<char>>, a2: Seq<Token>) -> bool
    decreases a1,
{
    a1.len() == a2.len() && (a1.len() == 0 || (same_toks(
        r1,
        a1.subrange(0, a1.len() - 1),
        r2,
        a2.subrange(0, a2.len() - 1),
    ) && same_tok(r1, a1[a1.len() - 1], r2, a2[a2.len() - 1])))
}

proof fn lemma_same_push(
    r1: Seq<Seq<char>>,
    a1: Seq<Token>,
    x1: Token,
    r2: Seq<Seq<char>>,
    a2: Seq<Token>,
    x2: Token,
)
    requires
        same_toks(r1, a1, r2, a2),
        same_tok(r1, x1, r2, x2),
    ensures
        same_toks(r1, a1.push(x1), r2, a2.push(x2)),
{
    assert(a1.push(x1).subrange(0, a1.len() as int) =~= a1);
    assert(a2.push(x2).subrange(0, a2.len() as int) =~= a2);
}

proof fn lemma_same_tok_extend(
    r1: Seq<Seq<char>>,
    q1: Seq<Seq<char>>,
    t1: Token,
    r2: Seq<Seq<char>>,
    q2: Seq<Seq<char>>,
    t2: Token,
)
    requires
        is_prefix(r1, q1),
        is_prefix(r2, q2),
        same_tok(r1, t1, r2, t2),
    ensures
        same_tok(q1, t1, q2, t2),
    decreases t1,
{
    match t1 {
        Token::Phoneme { key: k1, rep } => {
            if rep {
                if let Token::Phoneme { key: k2, .. } = t2 {
                    assert(q1.subrange(0, r1.len() as int)[k1 as int] == q1[k1 as int]);
                    assert(q2.subrange(0, r2.len() as int)[k2 as int] == q2[k2 as int]);
                }
            }
        },
        Token::Any(a1) => {
            if let Token::Any(a2) = t2 {
                lemma_same_extend(r1, q1, a1, r2, q2, a2);
            }
        },
        _ => {},
    }
}

proof fn lemma_same_extend(
    r1: Seq<Seq<char>>,
    q1: Seq<Seq<char>>,
    a1: Seq<Token>,
    r2: Seq<Seq<char>>,
    q2: Seq<Seq<char>>,
    a2: Seq<Token>,
)
    requires
        is_prefix(r1, q1),
        is_prefix(r2, q2),
        same_toks(r1, a1, r2, a2),
    ensures
        same_toks(q1, a1, q2, a2),
    decreases a1,
{
    if a1.len() > 0 {
        lemma_same_extend(r1, q1, a1.subrange(0, a1.len() - 1), r2, q2, a2.subrange(0, a2.len() - 1));
        lemma_same_tok_extend(r1, q1, a1[a1.len() - 1], r2, q2, a2[a2.len() - 1]);
    }
}

/// Two compiler states that differ only in their pools and in the keys of their
/// representative phonemes.
pub open spec fn related(s1: ScanState, s2: ScanState) -> bool {
    &&& s1.pos == s2.pos
    &&& s1.head == s2.head
    &&& s1.field == s2.field
    &&& same_toks(s1.reps, s1.toks, s2.reps, s2.toks)
}

/// Both pools grew by the same entries.
pub open spec fn grew_alike(s1: ScanState, o1: ScanState, s2: ScanState, o2: ScanState) -> bool {
    exists|n: Seq<Seq<char>>| o1.reps == s1.reps + n && #[trigger] (o2.reps) == s2.reps + n
}

proof fn lemma_grew_refl(s1: ScanState, s2: ScanState)
    ensures
        grew_alike(s1, s1, s2, s2),
{
    let n = Seq::<Seq<char>>::empty();
    assert(s1.reps + n =~= s1.reps);
    assert(s2.reps + n =~= s2.reps);
}

proof fn lemma_grew_trans(a1: ScanState, b1: ScanState, c1: ScanState, a2: ScanState, b2: ScanState, c2: ScanState)
    requires
        grew_alike(a1, b1, a2, b2),
        grew_alike(b1, c1, b2, c2),
    ensures
        grew_alike(a1, c1, a2, c2),
{
    let n1 = choose|n: Seq<Seq<char>>| b1.reps == a1.reps + n && #[trigger] (b2.reps) == a2.reps + n;
    let n2 = choose|n: Seq<Seq<char>>| c1.reps == b1.reps + n && #[trigger] (c2.reps) == b2.reps + n;
    assert(c1.reps =~= a1.reps + (n1 + n2));
    assert(c2.reps =~= a2.reps + (n1 + n2));
}

proof fn lemma_prefix_of_grown(a: Seq<Seq<char>>, n: Seq<Seq<char>>)
    ensures
        is_prefix(a, a + n),
{
    assert((a + n).subrange(0, a.len() as int) =~= a);
}

proof fn lemma_members_related(
    lang: LanguageView,
    members: Seq<u64>,
    m: int,
    text: Seq<char>,
    s1: ScanState,
    s2: ScanState,
    nested: bool,
)
    requires
        related(s1, s2),
    ensures
        related(scan_members(lang, members, m, text, s1, nested), scan_members(lang, members, m, text, s2, nested)),
        scan_members(lang, members, m, text, s1, nested).reps == s1.reps,
        scan_members(lang, members, m, text, s2, nested).reps == s2.reps,
    decreases members.len() - m,
{
    if 0 <= m < members.len() {
        let sym = lang.phoneme(members[m]).symbol;
        if sym.len() > 0 && starts_with_at(text, s1.pos, sym) {
            let t = Token::Phoneme { key: members[m], rep: false };
            lemma_same_push(s1.reps, s1.toks, t, s2.reps, s2.toks, t);
            lemma_members_related(
                lang,
                members,
                m + 1,
                text,
                emitted(s1, t, sym.len() as int, nested),
                emitted(s2, t, sym.len() as int, nested),
                nested,
            );
        } else {
            lemma_members_related(lang, members, m + 1, text, s1, s2, nested);
        }
    }
}

proof fn lemma_scan_related(lang: LanguageView, g: int, text: Seq<char>, s1: ScanState, s2: ScanState, nested: bool)
    requires
        related(s1, s2),
    ensures
        related(scan_groups(lang, g, text, s1, nested), scan_groups(lang, g, text, s2, nested)),
        scan_groups(lang, g, text, s1, nested).reps == s1.reps,
        scan_groups(lang, g, text, s2, nested).reps == s2.reps,
    decreases lang.groups.len() - g,
{
    if 0 <= g < lang.groups.len() {
        let e = lang.groups[g];
        let n = group_match_len(e.name, text, s1.pos);
        if n > 0 {
            let t = Token::Group(e.key);
            lemma_same_push(s1.reps, s1.toks, t, s2.reps, s2.toks, t);
            lemma_scan_related(lang, g + 1, text, emitted(s1, t, n, nested), emitted(s2, t, n, nested), nested);
        } else {
            lemma_members_related(lang, e.members, 0, text, s1, s2, nested);
            lemma_scan_related(
                lang,
                g + 1,
                text,
                scan_members(lang, e.members, 0, text, s1, nested),
                scan_members(lang, e.members, 0, text, s2, nested),
                nested,
            );
        }
    }
}

/// The pool grew by at most the characters left, and by at most those passed over where
/// nothing failed.
pub open spec fn growth_bounded(text: Seq<char>, s: ScanState, o: ScanState, failed: bool) -> bool {
    &&& o.reps.len() - s.reps.len() <= text.len() - s.pos
    &&& !failed ==> o.reps.len() - s.reps.len() <= o.pos - s.pos
}

/// One pass from two related states: the same error, related results, pools grown alike.
pub proof fn lemma_step_related(ctx: ScanCtx, text: Seq<char>, s1: ScanState, s2: ScanState, nested: bool, tail: bool)
    requires
        related(s1, s2),
        0 <= s1.pos <= text.len(),
        s1.reps.len() + (text.len() - s1.pos) <= u64::MAX,
        s2.reps.len() + (text.len() - s2.pos) <= u64::MAX,
    ensures
        ({
            let o1 = step(ctx, text, s1, nested, tail);
            let o2 = step(ctx, text, s2, nested, tail);
            &&& o1.err == o2.err
            &&& related(o1.st, o2.st)
            &&& grew_alike(s1, o1.st, s2, o2.st)
            &&& growth_bounded(text, s1, o1.st, o1.err is Some)
            &&& growth_bounded(text, s2, o2.st, o2.err is Some)
            &&& s1.pos <= o1.st.pos <= text.len()
        }),
    decreases text.len(), text.len() - s1.pos, 0int,
{
    let lang = ctx.lang;
    let o1 = step(ctx, text, s1, nested, tail);
    let o2 = step(ctx, text, s2, nested, tail);
    let a1 = scan_groups(lang, 0, text, s1, nested);
    let a2 = scan_groups(lang, 0, text, s2, nested);
    let at = s1.pos;
    lemma_scan_related(lang, 0, text, s1, s2, nested);
    lemma_scan_bounds(lang, 0, text, s1, nested);
    lemma_scan_bounds(lang, 0, text, s2, nested);
    lemma_grew_refl(s1, s2);
    if a1.pos != at {
    } else if 0 <= at < text.len() && text[at] == '[' && nested {
    } else if 0 <= at < text.len() && text[at] == '[' && exists|j: int| close_at(text, at, j) {
        let j = choose|j: int| close_at(text, at, j);
        let inner = text.subrange(at + 1, j);
        let t = j == text.len() - 1;
        let st1 = ScanState { pos: 0, head: a1.head, field: a1.field, toks: Seq::empty(), reps: a1.reps };
        let st2 = ScanState { pos: 0, head: a2.head, field: a2.field, toks: Seq::empty(), reps: a2.reps };
        lemma_run_related(ctx, inner, st1, st2, true, t);
        let i1 = run(ctx, inner, st1, true, t);
        let i2 = run(ctx, inner, st2, true, t);
        let n = choose|n: Seq<Seq<char>>| i1.st.reps == st1.reps + n && #[trigger] (i2.st.reps) == st2.reps + n;
        lemma_prefix_of_grown(a1.reps, n);
        lemma_prefix_of_grown(a2.reps, n);
        lemma_same_extend(a1.reps, i1.st.reps, a1.toks, a2.reps, i2.st.reps, a2.toks);
        lemma_same_push(i1.st.reps, a1.toks, Token::Any(i1.st.toks), i2.st.reps, a2.toks, Token::Any(i2.st.toks));
        assert(grew_alike(s1, o1.st, s2, o2.st));
    } else if 0 <= at < text.len() && text[at] == '#' {
        lemma_same_push(a1.reps, a1.toks, Token::Boundary, a2.reps, a2.toks, Token::Boundary);
    } else if at < text.len() {
        lemma_source_len(ctx, text, at, 0);
        let n = token_len(ctx, text, at);
        let x = text.subrange(at, at + n);
        let t1 = Token::Phoneme { key: a1.reps.len() as u64, rep: true };
        let t2 = Token::Phoneme { key: a2.reps.len() as u64, rep: true };
        let q1 = a1.reps.push(x);
        let q2 = a2.reps.push(x);
        assert(q1 =~= a1.reps + seq![x]);
        assert(q2 =~= a2.reps + seq![x]);
        lemma_prefix_of_grown(a1.reps, seq![x]);
        lemma_prefix_of_grown(a2.reps, seq![x]);
        lemma_same_extend(a1.reps, q1, a1.toks, a2.reps, q2, a2.toks);
        assert(same_tok(q1, t1, q2, t2));
        lemma_same_push(q1, a1.toks, t1, q2, a2.toks, t2);
        assert(o1.st.reps == q1 && o2.st.reps == q2);
        assert(grew_alike(s1, o1.st, s2, o2.st));
    } else {
    }
}

/// Runs from two related states: the same error, related results, pools grown alike.
pub proof fn lemma_run_related(ctx: ScanCtx, text: Seq<char>, s1: ScanState, s2: ScanState, nested: bool, tail: bool)
    requires
        related(s1, s2),
        0 <= s1.pos <= text.len(),
        s1.reps.len() + (text.len() - s1.pos) <= u64::MAX,
        s2.reps.len() + (text.len() - s2.pos) <= u64::MAX,
    ensures
        ({
            let o1 = run(ctx, text, s1, nested, tail);
            let o2 = run(ctx, text, s2, nested, tail);
            &&& o1.err == o2.err
            &&& related(o1.st, o2.st)
            &&& grew_alike(s1, o1.st, s2, o2.st)
            &&& growth_bounded(text, s1, o1.st, o1.err is Some)
            &&& growth_bounded(text, s2, o2.st, o2.err is Some)
        }),
    decreases text.len(), text.len() - s1.pos, 1int,
{
    let q1 = step(ctx, text, s1, nested, tail);
    let q2 = step(ctx, text, s2, nested, tail);
    lemma_step_related(ctx, text, s1, s2, nested, tail);
    if q1.err is None && s1.pos < q1.st.pos <= text.len() {
        lemma_run_related(ctx, text, q1.st, q2.st, nested, tail);
        let o1 = run(ctx, text, q1.st, nested, tail);
        let o2 = run(ctx, text, q2.st, nested, tail);
        lemma_grew_trans(s1, q1.st, o1.st, s2, q2.st, o2.st);
    }
}

/// What compiling one field from a related pair of pools gives.
proof fn lemma_field_pair(
    ctx: ScanCtx,
    f: Field,
    text: Seq<char>,
    r: Seq<Seq<char>>,
    q: Seq<Seq<char>>,
)
    requires
        plain(ctx.lang),
        r.len() + text.len() <= u64::MAX,
        q.len() + text.len() <= u64::MAX,
        compile_field(ctx, f, text, r).err is None,
    ensures
        ({
            let o = compile_field(ctx, f, text, r);
            let o2 = compile_field(ctx, f, text, q);
            &&& o2.err is None
            &&& o2.st.field == o.st.field
            &&& same_toks(o.st.reps, o.st.toks, o2.st.reps, o2.st.toks)
            &&& toks_valid(ctx.lang, o.st.reps, o.st.toks)
            &&& render_toks(ctx.lang, o.st.reps, o.st.toks) == text
            &&& is_prefix(r, o.st.reps)
            &&& is_prefix(q, o2.st.reps)
            &&& o.st.reps.len() <= r.len() + text.len()
            &&& o2.st.reps.len() <= q.len() + text.len()
        }),
{
    let s1 = ScanState { pos: 0, head: true, field: f, toks: Seq::empty(), reps: r };
    let s2 = ScanState { pos: 0, head: true, field: f, toks: Seq::empty(), reps: q };
    let o = run(ctx, text, s1, false, false);
    let o2 = run(ctx, text, s2, false, false);
    lemma_run_read_back(ctx, text, s1, false, false);
    let new = choose|new: Seq<Token>|
        {
            &&& o.st.toks == s1.toks + new
            &&& toks_valid(ctx.lang, o.st.reps, new)
            &&& #[trigger] render_toks(ctx.lang, o.st.reps, new) == text.subrange(s1.pos, o.st.pos)
        };
    assert(o.st.toks =~= new);
    assert(text.subrange(0, text.len() as int) =~= text);
    lemma_run_related(ctx, text, s1, s2, false, false);
    let n = choose|n: Seq<Seq<char>>| o.st.reps == s1.reps + n && #[trigger] (o2.st.reps) == s2.reps + n;
    lemma_prefix_of_grown(r, n);
    lemma_prefix_of_grown(q, n);
}

proof fn lemma_same_tok_render(lang: LanguageView, r1: Seq<Seq<char>>, t1: Token, r2: Seq<Seq<char>>, t2: Token)
    requires
        same_tok(r1, t1, r2, t2),
    ensures
        render_tok(lang, r1, t1) == render_tok(lang, r2, t2),
    decreases t1,
{
    if let Token::Any(a1) = t1 {
        if let Token::Any(a2) = t2 {
            lemma_same_render(lang, r1, a1, r2, a2);
        }
    }
}

/// Tokens of the same shape render alike.
proof fn lemma_same_render(lang: LanguageView, r1: Seq<Seq<char>>, a1: Seq<Token>, r2: Seq<Seq<char>>, a2: Seq<Token>)
    requires
        same_toks(r1, a1, r2, a2),
    ensures
        render_toks(lang, r1, a1) == render_toks(lang, r2, a2),
    decreases a1,
{
    if a1.len() > 0 {
        lemma_same_render(lang, r1, a1.subrange(0, a1.len() - 1), r2, a2.subrange(0, a2.len() - 1));
        lemma_same_tok_render(lang, r1, a1[a1.len() - 1], r2, a2[a2.len() - 1]);
    }
}

proof fn lemma_same_tok_boundary(r1: Seq<Seq<char>>, t1: Token, r2: Seq<Seq<char>>, t2: Token)
    requires
        same_tok(r1, t1, r2, t2),
    ensures
        (t1 == Token::Boundary) == (t2 == Token::Boundary),
{
}

proof fn lemma_same_toks_index(r1: Seq<Seq<char>>, a1: Seq<Token>, r2: Seq<Seq<char>>, a2: Seq<Token>)
    requires
        same_toks(r1, a1, r2, a2),
    ensures
        a1.len() == a2.len(),
        forall|i: int| 0 <= i < a1.len() ==> same_tok(r1, #[trigger] a1[i], r2, a2[i]),
    decreases a1.len(),
{
    if a1.len() > 0 {
        let b1 = a1.subrange(0, a1.len() - 1);
        let b2 = a2.subrange(0, a2.len() - 1);
        lemma_same_toks_index(r1, b1, r2, b2);
        assert forall|i: int| 0 <= i < a1.len() implies same_tok(r1, #[trigger] a1[i], r2, a2[i]) by {
            if i < a1.len() - 1 {
                assert(b1[i] == a1[i] && b2[i] == a2[i]);
            }
        }
    }
}

proof fn lemma_same_boundary_like(r1: Seq<Seq<char>>, t1: Token, r2: Seq<Seq<char>>, t2: Token)
    requires
        same_tok(r1, t1, r2, t2),
    ensures
        is_boundary_like(t1) == is_boundary_like(t2),
{
    if let Token::Any(a1) = t1 {
        if let Token::Any(a2) = t2 {
            lemma_same_toks_index(r1, a1, r2, a2);
            if a1.contains(Token::Boundary) {
                let i = choose|i: int| 0 <= i < a1.len() && a1[i] == Token::Boundary;
                lemma_same_tok_boundary(r1, a1[i], r2, a2[i]);
                assert(a2[i] == Token::Boundary);
            }
            if a2.contains(Token::Boundary) {
                let i = choose|i: int| 0 <= i < a2.len() && a2[i] == Token::Boundary;
                lemma_same_tok_boundary(r1, a1[i], r2, a2[i]);
                assert(a1[i] == Token::Boundary);
            }
        }
    }
}

proof fn lemma_same_edge(r1: Seq<Seq<char>>, a1: Seq<Token>, r2: Seq<Seq<char>>, a2: Seq<Token>)
    requires
        same_toks(r1, a1, r2, a2),
    ensures
        edge_boundary(a1) == edge_boundary(a2),
{
    lemma_same_toks_index(r1, a1, r2, a2);
    if a1.len() > 0 {
        lemma_same_boundary_like(r1, a1[0], r2, a2[0]);
        lemma_same_boundary_like(r1, a1[a1.len() - 1], r2, a2[a2.len() - 1]);
    }
}

/// Round trip: a rule compiled against an inventory whose groups are named by their
/// abbreviations alone renders as a line that splits
/// into the same field texts; compiling those again, against any pool, compiles every
/// field, to tokens of the same shape (representative phonemes may get new keys, with the
/// same text) and to the same fields, which render as the same line.
pub proof fn round_trip(ctx: ScanCtx, raw: Seq<char>, r0: Seq<Seq<char>>, r1: Seq<Seq<char>>)
    requires
        plain(ctx.lang),
        split_rule(raw) is Some,
        all_ok(compile_fields(ctx, split_rule(raw)->Some_0, r0)),
        r0.len() + raw.len() <= u64::MAX,
        r1.len() + raw.len() <= u64::MAX,
    ensures
        ({
            let texts = split_rule(raw)->Some_0;
            let os = compile_fields(ctx, texts, r0);
            let line = render_rule(ctx.lang, os[3].st.reps, toks_of(os));
            let os2 = compile_fields(ctx, split_rule(line)->Some_0, r1);
            &&& split_rule(line) == Some(texts)
            &&& all_ok(os2)
            &&& forall|i: int|
                0 <= i < 4 ==> same_toks(
                    os[3].st.reps,
                    #[trigger] os[i].st.toks,
                    os2[3].st.reps,
                    os2[i].st.toks,
                )
            &&& fields_for(toks_of(os2)) == fields_for(toks_of(os))
            &&& render_rule(ctx.lang, os2[3].st.reps, toks_of(os2)) == line
        }),
{
    let lang = ctx.lang;
    let texts = split_rule(raw)->Some_0;
    lemma_split_separable(raw);
    let os = compile_fields(ctx, texts, r0);
    let os2 = compile_fields(ctx, texts, r1);
    assert(os[0].err is None && os[1].err is None && os[2].err is None && os[3].err is None);
    lemma_field_pair(ctx, Field::fresh(0), texts[0], r0, r1);
    lemma_field_pair(ctx, Field::fresh(1), texts[1], os[0].st.reps, os2[0].st.reps);
    lemma_field_pair(ctx, Field::fresh(2), texts[2], os[1].st.reps, os2[1].st.reps);
    lemma_field_pair(ctx, Field::fresh(3), texts[3], os[2].st.reps, os2[2].st.reps);
    let fin = os[3].st.reps;
    let fin2 = os2[3].st.reps;
    lemma_prefix_trans(os[0].st.reps, os[1].st.reps, os[2].st.reps);
    lemma_prefix_trans(os[0].st.reps, os[2].st.reps, fin);
    lemma_prefix_trans(os[1].st.reps, os[2].st.reps, fin);
    lemma_prefix_trans(os2[0].st.reps, os2[1].st.reps, os2[2].st.reps);
    lemma_prefix_trans(os2[0].st.reps, os2[2].st.reps, fin2);
    lemma_prefix_trans(os2[1].st.reps, os2[2].st.reps, fin2);
    lemma_prefix_refl(fin);
    lemma_prefix_refl(fin2);
    assert forall|i: int| 0 <= i < 4 implies same_toks(fin, #[trigger] os[i].st.toks, fin2, os2[i].st.toks)
        && render_toks(lang, fin, os[i].st.toks) == texts[i] by {
        lemma_same_extend(os[i].st.reps, fin, os[i].st.toks, os2[i].st.reps, fin2, os2[i].st.toks);
        lemma_render_extend(lang, os[i].st.reps, fin, os[i].st.toks);
    }
    let line = render_rule(lang, fin, toks_of(os));
    assert(line =~= join_fields(texts));
    lemma_join_split(texts);
    assert(all_ok(os2));
    lemma_same_edge(fin, os[2].st.toks, fin2, os2[2].st.toks);
    lemma_same_edge(fin, os[3].st.toks, fin2, os2[3].st.toks);
    assert(fields_for(toks_of(os2)) =~= fields_for(toks_of(os)));
    lemma_same_render(lang, fin, os[0].st.toks, fin2, os2[0].st.toks);
    lemma_same_render(lang, fin, os[1].st.toks, fin2, os2[1].st.toks);
    lemma_same_render(lang, fin, os[2].st.toks, fin2, os2[2].st.toks);
    lemma_same_render(lang, fin, os[3].st.toks, fin2, os2[3].st.toks);
}

} // verus!
