//! Compiled sound changes: the rule compiler and the rule's text form.
use vstd::prelude::*;

use crate::compile::{
    compile_field, compile_text, ctx_of, FieldErrorKind, Outcome, ScanCtx,
};
use crate::element::{lemma_tokens_of, token_of, tokens_of, Element, Field, FieldKind, Token};
use crate::language::{Language, LanguageView};
use crate::rep::{fresh_counts, lemma_fresh_refl, lemma_fresh_trans, RepPool};
use crate::shape::{split_rule, split_rule_exec};
use crate::text::push_char;
use crate::compile::ScanState;
use crate::roundtrip::{is_prefix, lemma_render_extend};
use crate::valid::{lemma_run_grows, lemma_run_valid};

verus! {

broadcast use vstd::std_specs::vec::axiom_vec_index_decreases, vstd::seq::axiom_seq_index_decreases;

/// A rule field that did not compile, and why.
#[derive(Clone, Copy, Debug, PartialEq, Eq, Structural)]
pub struct FieldParseError {
    /// The field, with the boundary flag it had when compilation stopped.
    pub field: Field,
    pub kind: FieldErrorKind,
}

/// The decimal digit `d`.
pub open spec fn digit(d: nat) -> char {
    if d == 0 {
        '0'
    } else if d == 1 {
        '1'
    } else if d == 2 {
        '2'
    } else if d == 3 {
        '3'
    } else if d == 4 {
        '4'
    } else if d == 5 {
        '5'
    } else if d == 6 {
        '6'
    } else if d == 7 {
        '7'
    } else if d == 8 {
        '8'
    } else {
        '9'
    }
}

/// The decimal numeral of `n`.
pub open spec fn decimal(n: nat) -> Seq<char>
    decreases n,
{
    if n < 10 {
        seq![digit(n)]
    } else {
        decimal(n / 10).push(digit(n % 10))
    }
}

/// Appends the decimal numeral of `n`.
fn push_decimal(out: &mut String, n: usize)
    ensures
        final(out)@ == old(out)@ + decimal(n as nat),
    decreases n,
{
    if n >= 10 {
        push_decimal(out, n / 10);
    }
    let d = n % 10;
    let c = if d == 0 {
        '0'
    } else if d == 1 {
        '1'
    } else if d == 2 {
        '2'
    } else if d == 3 {
        '3'
    } else if d == 4 {
        '4'
    } else if d == 5 {
        '5'
    } else if d == 6 {
        '6'
    } else if d == 7 {
        '7'
    } else if d == 8 {
        '8'
    } else {
        '9'
    };
    push_char(out, c);
    assert(out@ =~= old(out)@ + decimal(n as nat));
}

/// The numbered lines of the errors from `i` on: `    (i) <error>`, separated by line breaks.
pub open spec fn error_lines(errs: Seq<FieldParseError>, i: nat) -> Seq<char>
    decreases errs.len() - i,
{
    if i >= errs.len() {
        Seq::empty()
    } else {
        "    ("@ + decimal(i) + ") "@ + errs[i as int].spec_text() + (if i + 1 == errs.len() {
            Seq::<char>::empty()
        } else {
            seq!['\n']
        }) + error_lines(errs, i + 1)
    }
}

/// The text of a rule line that failed.
pub open spec fn error_text(e: SoundChangeParseError) -> Seq<char> {
    match e {
        SoundChangeParseError::Field(errs, raw) => field_error_text(errs@, raw@),
        SoundChangeParseError::Format(raw) => raw@ + format_help(),
    }
}

/// The text of a rule line whose fields failed: the line, then the errors, numbered.
pub open spec fn field_error_text(errs: Seq<FieldParseError>, raw: Seq<char>) -> Seq<char> {
    raw + " => \n"@ + error_lines(errs, 0)
}

/// What follows a malformed line in its error text.
pub open spec fn format_help() -> Seq<char> {
    " =>\n    Failed to parse sound change, ensure it matches either of the following (permitting whitespace):\n        Target / Replacement / EnvStart _ EnvEnd\n        Target \u{2192} Replacement / EnvStart _ EnvEnd"@
}

impl SoundChangeParseError {
    /// The error as text: the rule line, then each field error on a numbered line, or the
    /// shapes a rule line may take.
    pub fn message(&self) -> (r: String)
        ensures
            r@ == error_text(*self),
    {
        match self {
            SoundChangeParseError::Field(errs, raw) => {
                let mut r = raw.clone();
                r.append(" => \n");
                let ghost head = r@;
                let mut i: usize = 0;
                while i < errs.len()
                    invariant
                        i <= errs@.len(),
                        r@ + error_lines(errs@, i as nat) == head + error_lines(errs@, 0),
                    decreases errs@.len() - i,
                {
                    let ghost before = r@;
                    r.append("    (");
                    push_decimal(&mut r, i);
                    r.append(") ");
                    let m = errs[i].message();
                    r.append(m.as_str());
                    if i + 1 != errs.len() {
                        push_char(&mut r, '\n');
                    }
                    assert(r@ + error_lines(errs@, (i + 1) as nat) =~= before + error_lines(errs@, i as nat));
                    i += 1;
                }
                assert(r@ =~= head + error_lines(errs@, 0));
                r
            },
            SoundChangeParseError::Format(raw) => {
                let mut r = raw.clone();
                r.append(" =>\n    Failed to parse sound change, ensure it matches either of the following (permitting whitespace):\n        Target / Replacement / EnvStart _ EnvEnd\n        Target \u{2192} Replacement / EnvStart _ EnvEnd");
                r
            },
        }
    }
}

impl FieldParseError {
    /// The error as text.
    pub open spec fn spec_text(self) -> Seq<char> {
        self.kind.spec_message() + " `"@ + self.field.spec_name() + "` field"@
    }

    /// The error as text: ``<message> `<field>` field``.
    pub fn message(&self) -> (r: String)
        ensures
            r@ == self.spec_text(),
    {
        let mut r = String::new();
        r.append(self.kind.message());
        r.append(" `");
        r.append(self.field.name());
        r.append("` field");
        assert(r@ =~= self.kind.spec_message() + " `"@ + self.field.spec_name() + "` field"@);
        r
    }
}

/// Why a rule line did not compile.
#[derive(Debug)]
pub enum SoundChangeParseError {
    /// One or more fields failed: their errors in field order, and the rule text.
    Field(Vec<FieldParseError>, String),
    /// The line does not have the shape `TARGET/REPLACEMENT/ENVSTART_ENVEND`.
    Format(String),
}

/// What a compiled rule is: the four fields and their tokens, in the order Target,
/// Replacement, EnvStart, EnvEnd.
pub struct SoundChangeView {
    pub fields: Seq<Field>,
    pub elems: Seq<Seq<Token>>,
}

/// A compiled sound-change rule.
#[derive(Debug)]
pub struct SoundChange {
    target_field: Field,
    replacement_field: Field,
    env_start_field: Field,
    env_end_field: Field,
    target: Vec<Element>,
    replacement: Vec<Element>,
    env_start: Vec<Element>,
    env_end: Vec<Element>,
}

impl View for SoundChange {
    type V = SoundChangeView;

    closed spec fn view(&self) -> SoundChangeView {
        SoundChangeView {
            fields: seq![
                self.target_field,
                self.replacement_field,
                self.env_start_field,
                self.env_end_field,
            ],
            elems: seq![
                tokens_of(self.target@),
                tokens_of(self.replacement@),
                tokens_of(self.env_start@),
                tokens_of(self.env_end@),
            ],
        }
    }
}

/// The token is a boundary, or brackets that hold one.
pub open spec fn is_boundary_like(t: Token) -> bool {
    match t {
        Token::Boundary => true,
        Token::Any(ts) => ts.contains(Token::Boundary),
        _ => false,
    }
}

/// The first or the last token is a boundary, or brackets that hold one.
pub open spec fn edge_boundary(ts: Seq<Token>) -> bool {
    ts.len() > 0 && (is_boundary_like(ts[0]) || is_boundary_like(ts[ts.len() - 1]))
}

/// The fields of a rule with these tokens, the boundary flags read off the tokens.
pub open spec fn fields_for(elems: Seq<Seq<Token>>) -> Seq<Field> {
    seq![
        Field::Target,
        Field::Replacement,
        Field::EnvStart { has_boundary: edge_boundary(elems[2]) },
        Field::EnvEnd { has_boundary: edge_boundary(elems[3]) },
    ]
}

/// The four fields compiled in order, each with the pool the one before left.
pub open spec fn compile_fields(ctx: ScanCtx, texts: Seq<Seq<char>>, reps: Seq<Seq<char>>) -> Seq<Outcome> {
    let o0 = compile_field(ctx, Field::fresh(0), texts[0], reps);
    let o1 = compile_field(ctx, Field::fresh(1), texts[1], o0.st.reps);
    let o2 = compile_field(ctx, Field::fresh(2), texts[2], o1.st.reps);
    let o3 = compile_field(ctx, Field::fresh(3), texts[3], o2.st.reps);
    seq![o0, o1, o2, o3]
}

/// The errors of the fields that failed, in field order.
pub open spec fn errors_of(os: Seq<Outcome>) -> Seq<FieldParseError>
    decreases os.len(),
{
    if os.len() == 0 {
        Seq::empty()
    } else {
        let rest = errors_of(os.subrange(0, os.len() - 1));
        match os[os.len() - 1].err {
            Some(k) => rest.push(FieldParseError { field: os[os.len() - 1].st.field, kind: k }),
            None => rest,
        }
    }
}

/// The tokens of the four compiled fields.
pub open spec fn toks_of(os: Seq<Outcome>) -> Seq<Seq<Token>> {
    seq![os[0].st.toks, os[1].st.toks, os[2].st.toks, os[3].st.toks]
}

/// Every field compiled.
pub open spec fn all_ok(os: Seq<Outcome>) -> bool {
    forall|i: int| 0 <= i < 4 ==> #[trigger] os[i].err is None
}

/// The text a token renders as: a phoneme's symbol (the text the scanner reads it from),
/// a representative phoneme's symbol, a group's abbreviation, `#`, brackets around their contents, or `∅`.
pub open spec fn render_tok(lang: LanguageView, reps: Seq<Seq<char>>, t: Token) -> Seq<char>
    decreases t,
{
    match t {
        Token::Phoneme { key, rep } => if rep {
            reps[key as int]
        } else {
            lang.phoneme(key).symbol
        },
        Token::Group(k) => seq![lang.groups[lang.group_index(k)].name.abbrev()],
        Token::Boundary => seq!['#'],
        Token::Any(ts) => seq!['['] + render_toks(lang, reps, ts) + seq![']'],
        Token::Invalid => seq!['\u{2205}'],
    }
}

/// The text a sequence of tokens renders as.
pub open spec fn render_toks(lang: LanguageView, reps: Seq<Seq<char>>, ts: Seq<Token>) -> Seq<char>
    decreases ts,
{
    if ts.len() == 0 {
        Seq::empty()
    } else {
        render_toks(lang, reps, ts.subrange(0, ts.len() - 1)) + render_tok(
            lang,
            reps,
            ts[ts.len() - 1],
        )
    }
}

/// Every key in the token names a phoneme, a group or a representative phoneme that exists.
pub open spec fn tok_valid(lang: LanguageView, reps: Seq<Seq<char>>, t: Token) -> bool
    decreases t,
{
    match t {
        Token::Phoneme { key, rep } => if rep {
            key < reps.len()
        } else {
            lang.has_phoneme(key)
        },
        Token::Group(k) => lang.has_group(k),
        Token::Any(ts) => toks_valid(lang, reps, ts),
        _ => true,
    }
}

/// Every key in the tokens names something that exists.
pub open spec fn toks_valid(lang: LanguageView, reps: Seq<Seq<char>>, ts: Seq<Token>) -> bool
    decreases ts,
{
    if ts.len() == 0 {
        true
    } else {
        toks_valid(lang, reps, ts.subrange(0, ts.len() - 1)) && tok_valid(lang, reps, ts[ts.len() - 1])
    }
}

/// `toks_valid` holds exactly where every token is valid.
pub proof fn lemma_toks_valid(lang: LanguageView, reps: Seq<Seq<char>>, ts: Seq<Token>)
    ensures
        toks_valid(lang, reps, ts) <==> forall|i: int| 0 <= i < ts.len() ==> tok_valid(lang, reps, #[trigger] ts[i]),
    decreases ts.len(),
{
    if ts.len() > 0 {
        let sub = ts.subrange(0, ts.len() - 1);
        lemma_toks_valid(lang, reps, sub);
        if forall|i: int| 0 <= i < ts.len() ==> tok_valid(lang, reps, #[trigger] ts[i]) {
            assert forall|i: int| 0 <= i < sub.len() implies tok_valid(lang, reps, #[trigger] sub[i]) by {
                assert(sub[i] == ts[i]);
            }
        }
        if toks_valid(lang, reps, ts) {
            assert forall|i: int| 0 <= i < ts.len() implies tok_valid(lang, reps, #[trigger] ts[i]) by {
                if i < ts.len() - 1 {
                    assert(sub[i] == ts[i]);
                }
            }
        }
    }
}

/// The text form of a rule: `TARGET→REPLACEMENT/ENVSTART_ENVEND`.
pub open spec fn render_rule(lang: LanguageView, reps: Seq<Seq<char>>, elems: Seq<Seq<Token>>) -> Seq<char> {
    render_toks(lang, reps, elems[0]) + seq!['\u{2192}'] + render_toks(lang, reps, elems[1]) + seq!['/']
        + render_toks(lang, reps, elems[2]) + seq!['_'] + render_toks(lang, reps, elems[3])
}

/// Where every field compiled, every key of every field is valid against the final pool.
proof fn lemma_fields_valid(ctx: ScanCtx, texts: Seq<Seq<char>>, reps: Seq<Seq<char>>, n: nat)
    requires
        ctx.lang.wf(),
        all_ok(compile_fields(ctx, texts, reps)),
        compile_fields(ctx, texts, reps)[3].st.reps.len() == n,
        n <= u64::MAX,
    ensures
        forall|i: int|
            0 <= i < 4 ==> toks_valid(
                ctx.lang,
                compile_fields(ctx, texts, reps)[3].st.reps,
                #[trigger] compile_fields(ctx, texts, reps)[i].st.toks,
            ),
{
    let os = compile_fields(ctx, texts, reps);
    let fin = os[3].st.reps;
    assert(os[0].err is None && os[1].err is None && os[2].err is None && os[3].err is None);
    let starts = seq![reps, os[0].st.reps, os[1].st.reps, os[2].st.reps];
    assert forall|i: int| 0 <= i < 4 implies is_prefix(starts[i], #[trigger] os[i].st.reps) by {
        let st = ScanState { pos: 0, head: true, field: Field::fresh(i), toks: Seq::empty(), reps: starts[i] };
        lemma_run_grows(ctx, texts[i], st, false, false);
    }
    lemma_prefix_chain(os[0].st.reps, os[1].st.reps, os[2].st.reps, fin);
    assert forall|i: int| 0 <= i < 4 implies toks_valid(ctx.lang, fin, #[trigger] os[i].st.toks) by {
        let st = ScanState { pos: 0, head: true, field: Field::fresh(i), toks: Seq::empty(), reps: starts[i] };
        assert(toks_valid(ctx.lang, starts[i], Seq::<Token>::empty()));
        lemma_run_valid(ctx, texts[i], st, false, false);
        lemma_render_extend(ctx.lang, os[i].st.reps, fin, os[i].st.toks);
    }
}

proof fn lemma_prefix_chain(a: Seq<Seq<char>>, b: Seq<Seq<char>>, c: Seq<Seq<char>>, d: Seq<Seq<char>>)
    requires
        is_prefix(a, b),
        is_prefix(b, c),
        is_prefix(c, d),
    ensures
        is_prefix(a, d),
        is_prefix(b, d),
        is_prefix(c, d),
        is_prefix(d, d),
{
    assert(d.subrange(0, b.len() as int) =~= d.subrange(0, c.len() as int).subrange(0, b.len() as int));
    assert(d.subrange(0, a.len() as int) =~= d.subrange(0, b.len() as int).subrange(0, a.len() as int));
    assert(d.subrange(0, d.len() as int) =~= d);
}

/// `errors_of` of a sequence with one more outcome.
proof fn lemma_errors_of_push(os: Seq<Outcome>, o: Outcome)
    ensures
        errors_of(os.push(o)) == match o.err {
            Some(k) => errors_of(os).push(FieldParseError { field: o.st.field, kind: k }),
            None => errors_of(os),
        },
{
    assert(os.push(o).subrange(0, os.len() as int) =~= os);
}

/// Whether the element is a boundary, or brackets that hold one.
fn boundary_like(e: &Element) -> (r: bool)
    ensures
        r == is_boundary_like(e@),
{
    match e {
        Element::Boundary => true,
        Element::Any(v) => {
            proof {
                lemma_tokens_of(v@);
                assert(e@ == Token::Any(tokens_of(v@)));
            }
            let mut i: usize = 0;
            while i < v.len()
                invariant
                    e@ == Token::Any(tokens_of(v@)),
                    i <= v@.len(),
                    tokens_of(v@).len() == v@.len(),
                    forall|j: int| 0 <= j < v@.len() ==> tokens_of(v@)[j] == token_of(#[trigger] v@[j]),
                    forall|j: int| 0 <= j < i ==> tokens_of(v@)[j] != Token::Boundary,
                decreases v@.len() - i,
            {
                if let Element::Boundary = &v[i] {
                    assert(tokens_of(v@)[i as int] == Token::Boundary);
                    assert(tokens_of(v@).contains(Token::Boundary));
                    return true;
                }
                i += 1;
            }
            proof {
                if tokens_of(v@).contains(Token::Boundary) {
                    let j = choose|j: int| 0 <= j < tokens_of(v@).len() && tokens_of(v@)[j] == Token::Boundary;
                    assert(tokens_of(v@)[j] != Token::Boundary);
                }
            }
            false
        },
        _ => false,
    }
}

/// `render_toks` of a sequence with one more token.
proof fn lemma_render_push(lang: LanguageView, reps: Seq<Seq<char>>, ts: Seq<Token>, t: Token)
    ensures
        render_toks(lang, reps, ts.push(t)) == render_toks(lang, reps, ts) + render_tok(lang, reps, t),
{
    assert(ts.push(t).subrange(0, ts.len() as int) =~= ts);
}

/// Appends the text of one element to `out`.
fn render_elem(e: &Element, lang: &Language, pool: &RepPool, out: &mut String)
    requires
        lang.wf(),
        pool.wf(),
        tok_valid(lang@, pool@, e@),
    ensures
        final(out)@ == old(out)@ + render_tok(lang@, pool@, e@),
    decreases e,
{
    match e {
        Element::Phoneme { key, rep } => {
            if *rep {
                match pool.get(*key) {
                    Some(p) => out.append(p.phoneme.as_str()),
                    None => {},
                }
            } else {
                match lang.phoneme_get(*key) {
                    Some(p) => {
                        out.append(p.phoneme.as_str());
                    },
                    None => {},
                }
            }
        },
        Element::Group(k) => {
            match lang.group_name(*k) {
                Some(n) => {
                    push_char(out, n.abbrev());
                },
                None => {},
            }
        },
        Element::Boundary => {
            push_char(out, '#');
        },
        Element::Any(v) => {
            assert(e@ == Token::Any(tokens_of(v@)));
            assert(tok_valid(lang@, pool@, Token::Any(tokens_of(v@))));
            push_char(out, '[');
            render_elems(v, lang, pool, out);
            push_char(out, ']');
            assert(out@ =~= old(out)@ + render_tok(lang@, pool@, e@));
        },
        Element::Invalid => {
            push_char(out, '\u{2205}');
        },
    }
}

/// Appends the text of a sequence of elements to `out`.
fn render_elems(v: &Vec<Element>, lang: &Language, pool: &RepPool, out: &mut String)
    requires
        lang.wf(),
        pool.wf(),
        toks_valid(lang@, pool@, tokens_of(v@)),
    ensures
        final(out)@ == old(out)@ + render_toks(lang@, pool@, tokens_of(v@)),
    decreases v,
{
    proof {
        lemma_tokens_of(v@);
        lemma_toks_valid(lang@, pool@, tokens_of(v@));
    }
    let mut i: usize = 0;
    while i < v.len()
        invariant
            lang.wf(),
            pool.wf(),
            i <= v@.len(),
            forall|j: int| 0 <= j < v@.len() ==> tok_valid(lang@, pool@, #[trigger] tokens_of(v@)[j]),
            tokens_of(v@).len() == v@.len(),
            forall|j: int| 0 <= j < v@.len() ==> tokens_of(v@)[j] == token_of(#[trigger] v@[j]),
            out@ == old(out)@ + render_toks(lang@, pool@, tokens_of(v@.subrange(0, i as int))),
        decreases v@.len() - i,
    {
        proof {
            assert(tok_valid(lang@, pool@, tokens_of(v@)[i as int]));
            assert(v@.subrange(0, i + 1).subrange(0, i as int) =~= v@.subrange(0, i as int));
            assert(v@.subrange(0, i + 1)[i as int] == v@[i as int]);
            lemma_render_push(lang@, pool@, tokens_of(v@.subrange(0, i as int)), token_of(v@[i as int]));
        }
        render_elem(&v[i], lang, pool, out);
        proof {
            assert(tokens_of(v@.subrange(0, i + 1)) == tokens_of(v@.subrange(0, i as int)).push(token_of(v@[i as int])));
        }
        i += 1;
        assert(out@ =~= old(out)@ + render_toks(lang@, pool@, tokens_of(v@.subrange(0, i as int))));
    }
    assert(v@.subrange(0, v@.len() as int) =~= v@);
}

/// What compiling a document's rule lines gives: the rules that compiled, the error text
/// of each line that did not, and the pool.
pub struct CompiledLines {
    pub rules: Seq<SoundChangeView>,
    pub broken: Seq<Seq<char>>,
    pub reps: Seq<Seq<char>>,
}

/// The rule lines compiled in order, each against the pool the one before left; a line
/// that fails adds its error text to `broken`, and the rest go on.
pub open spec fn compile_lines(ctx: ScanCtx, lines: Seq<Seq<char>>, reps: Seq<Seq<char>>) -> CompiledLines
    decreases lines.len(),
{
    if lines.len() == 0 {
        CompiledLines { rules: Seq::empty(), broken: Seq::empty(), reps }
    } else {
        let c = compile_lines(ctx, lines.subrange(0, lines.len() - 1), reps);
        let line = lines[lines.len() - 1];
        match split_rule(line) {
            None => CompiledLines { broken: c.broken.push(line + format_help()), ..c },
            Some(texts) => {
                let os = compile_fields(ctx, texts, c.reps);
                if all_ok(os) {
                    CompiledLines {
                        rules: c.rules.push(
                            SoundChangeView { fields: fields_for(toks_of(os)), elems: toks_of(os) },
                        ),
                        broken: c.broken,
                        reps: os[3].st.reps,
                    }
                } else {
                    CompiledLines {
                        rules: c.rules,
                        broken: c.broken.push(field_error_text(errors_of(os), line)),
                        reps: os[3].st.reps,
                    }
                }
            },
        }
    }
}

/// Compiles each rule line in order; a line that fails is kept as its error text, and the
/// rest go on.
pub fn compile_rules(
    language: &Language,
    rep_phonemes: &mut RepPool,
    rewrite_sources: &Vec<String>,
    lines: &Vec<String>,
) -> (r: (Vec<SoundChange>, Vec<String>))
    requires
        language.wf(),
        old(rep_phonemes).wf(),
    ensures
        final(rep_phonemes).wf(),
        fresh_counts(*old(rep_phonemes), *final(rep_phonemes)),
        ({
            let c = compile_lines(
                ctx_of(language, rewrite_sources),
                lines@.map_values(|s: String| s@),
                old(rep_phonemes)@,
            );
            &&& r.0@.map_values(|sc: SoundChange| sc@) == c.rules
            &&& r.1@.map_values(|s: String| s@) == c.broken
            &&& final(rep_phonemes)@ == c.reps
        }),
{
    let ghost ctx = ctx_of(language, rewrite_sources);
    let ghost all = lines@.map_values(|s: String| s@);
    let mut rules: Vec<SoundChange> = Vec::new();
    let mut broken: Vec<String> = Vec::new();
    proof {
        lemma_fresh_refl(*rep_phonemes);
        assert(all.subrange(0, 0) =~= Seq::<Seq<char>>::empty());
        assert(rules@.map_values(|sc: SoundChange| sc@) =~= Seq::<SoundChangeView>::empty());
        assert(broken@.map_values(|s: String| s@) =~= Seq::<Seq<char>>::empty());
    }
    let mut i: usize = 0;
    while i < lines.len()
        invariant
            language.wf(),
            rep_phonemes.wf(),
            fresh_counts(*old(rep_phonemes), *rep_phonemes),
            ctx == ctx_of(language, rewrite_sources),
            all == lines@.map_values(|s: String| s@),
            i <= lines@.len(),
            rules@.map_values(|sc: SoundChange| sc@) == compile_lines(ctx, all.subrange(0, i as int), old(rep_phonemes)@).rules,
            broken@.map_values(|s: String| s@) == compile_lines(ctx, all.subrange(0, i as int), old(rep_phonemes)@).broken,
            rep_phonemes@ == compile_lines(ctx, all.subrange(0, i as int), old(rep_phonemes)@).reps,
        decreases lines@.len() - i,
    {
        let ghost before = *rep_phonemes;
        let ghost prev = compile_lines(ctx, all.subrange(0, i as int), old(rep_phonemes)@);
        let ghost rv = rules@.map_values(|sc: SoundChange| sc@);
        let ghost bv = broken@.map_values(|s: String| s@);
        proof {
            assert(all.subrange(0, i + 1).subrange(0, i as int) =~= all.subrange(0, i as int));
            assert(all.subrange(0, i + 1)[i as int] == lines@[i as int]@);
        }
        match SoundChange::parse(language, rep_phonemes, rewrite_sources, lines[i].as_str()) {
            Ok(sc) => {
                rules.push(sc);
                proof {
                    assert(rules@.map_values(|sc: SoundChange| sc@) =~= rv.push(sc@));
                    assert(broken@.map_values(|s: String| s@) =~= bv);
                }
            },
            Err(e) => {
                let m = e.message();
                broken.push(m);
                proof {
                    assert(broken@.map_values(|s: String| s@) =~= bv.push(m@));
                    assert(rules@.map_values(|sc: SoundChange| sc@) =~= rv);
                }
            },
        }
        proof {
            lemma_fresh_trans(*old(rep_phonemes), before, *rep_phonemes);
        }
        i += 1;
    }
    proof {
        assert(all.subrange(0, lines@.len() as int) =~= all);
    }
    (rules, broken)
}

impl SoundChange {
    /// The first or the last element is a boundary, or brackets that hold one.
    pub fn has_boundary(elems: &Vec<Element>) -> (r: bool)
        ensures
            r == edge_boundary(tokens_of(elems@)),
    {
        proof {
            lemma_tokens_of(elems@);
        }
        if elems.len() == 0 {
            return false;
        }
        boundary_like(&elems[0]) || boundary_like(&elems[elems.len() - 1])
    }

    /// A rule made of the given element lists, the boundary flags of its environment
    /// fields read off the elements.
    pub fn from_elements(
        target: Vec<Element>,
        replacement: Vec<Element>,
        env_start: Vec<Element>,
        env_end: Vec<Element>,
    ) -> (r: SoundChange)
        ensures
            r@.elems == seq![
                tokens_of(target@),
                tokens_of(replacement@),
                tokens_of(env_start@),
                tokens_of(env_end@),
            ],
            r@.fields == fields_for(r@.elems),
    {
        let start = SoundChange::has_boundary(&env_start);
        let end = SoundChange::has_boundary(&env_end);
        SoundChange {
            target_field: Field::Target,
            replacement_field: Field::Replacement,
            env_start_field: Field::EnvStart { has_boundary: start },
            env_end_field: Field::EnvEnd { has_boundary: end },
            target,
            replacement,
            env_start,
            env_end,
        }
    }

    /// Compiles a rule line `TARGET/REPLACEMENT/ENVSTART_ENVEND` (or `TARGET→...`) against
    /// the inventory, trying the rewrite sources in the given order for unknown tokens.
    /// Each field is compiled, even after another failed; unknown tokens are allocated in
    /// `rep_phonemes` whether or not the rule compiles.
    pub fn parse(
        language: &Language,
        rep_phonemes: &mut RepPool,
        rewrite_sources: &Vec<String>,
        raw: &str,
    ) -> (r: Result<SoundChange, SoundChangeParseError>)
        requires
            language.wf(),
            old(rep_phonemes).wf(),
        ensures
            final(rep_phonemes).wf(),
            fresh_counts(*old(rep_phonemes), *final(rep_phonemes)),
            match split_rule(raw@) {
                None => {
                    &&& final(rep_phonemes)@ == old(rep_phonemes)@
                    &&& final(rep_phonemes).usage_counts() == old(rep_phonemes).usage_counts()
                    &&& r matches Err(SoundChangeParseError::Format(s)) && s@ == raw@
                },
                Some(texts) => {
                    let os = compile_fields(ctx_of(language, rewrite_sources), texts, old(rep_phonemes)@);
                    &&& final(rep_phonemes)@ == os[3].st.reps
                    &&& all_ok(os) ==> (r matches Ok(sc) && sc@.elems == toks_of(os) && sc@.fields
                        == fields_for(toks_of(os)))
                    &&& r matches Ok(sc) ==> forall|i: int|
                        0 <= i < 4 ==> toks_valid(language@, final(rep_phonemes)@, #[trigger] sc@.elems[i])
                    &&& !all_ok(os) ==> (r matches Err(SoundChangeParseError::Field(errs, s))
                        && errs@ == errors_of(os) && s@ == raw@)
                },
            },
    {
        proof {
            lemma_fresh_refl(*rep_phonemes);
        }
        let texts = match split_rule_exec(raw) {
            None => {
                return Err(SoundChangeParseError::Format(raw.to_owned()));
            },
            Some(t) => t,
        };
        let ghost ctx = ctx_of(language, rewrite_sources);
        let ghost f = split_rule(raw@)->Some_0;
        assert(texts@[0]@ == f[0] && texts@[1]@ == f[1] && texts@[2]@ == f[2] && texts@[3]@ == f[3]);
        let ghost p0 = *rep_phonemes;
        let (f0, e0, r0) = compile_text(language, rewrite_sources, &texts[0], Field::from_usize(0), rep_phonemes);
        let ghost p1 = *rep_phonemes;
        let (f1, e1, r1) = compile_text(language, rewrite_sources, &texts[1], Field::from_usize(1), rep_phonemes);
        let ghost p2 = *rep_phonemes;
        let (f2, e2, r2) = compile_text(language, rewrite_sources, &texts[2], Field::from_usize(2), rep_phonemes);
        let ghost p3 = *rep_phonemes;
        let (f3, e3, r3) = compile_text(language, rewrite_sources, &texts[3], Field::from_usize(3), rep_phonemes);
        let ghost os = compile_fields(ctx, f, old(rep_phonemes)@);
        proof {
            lemma_fresh_trans(p0, p1, p2);
            lemma_fresh_trans(p0, p2, p3);
            lemma_fresh_trans(p0, p3, *rep_phonemes);
        }
        let mut errs: Vec<FieldParseError> = Vec::new();
        proof {
            lemma_errors_of_push(Seq::empty(), os[0]);
            lemma_errors_of_push(seq![os[0]], os[1]);
            lemma_errors_of_push(seq![os[0], os[1]], os[2]);
            lemma_errors_of_push(seq![os[0], os[1], os[2]], os[3]);
            assert(Seq::<Outcome>::empty().push(os[0]) =~= seq![os[0]]);
            assert(seq![os[0]].push(os[1]) =~= seq![os[0], os[1]]);
            assert(seq![os[0], os[1]].push(os[2]) =~= seq![os[0], os[1], os[2]]);
            assert(seq![os[0], os[1], os[2]].push(os[3]) =~= os);
            assert(errors_of(Seq::empty()) =~= Seq::<FieldParseError>::empty());
        }
        if let Some(kind) = r0 {
            errs.push(FieldParseError { field: f0, kind });
        }
        assert(errs@ =~= errors_of(seq![os[0]]));
        if let Some(kind) = r1 {
            errs.push(FieldParseError { field: f1, kind });
        }
        assert(errs@ =~= errors_of(seq![os[0], os[1]]));
        if let Some(kind) = r2 {
            errs.push(FieldParseError { field: f2, kind });
        }
        assert(errs@ =~= errors_of(seq![os[0], os[1], os[2]]));
        if let Some(kind) = r3 {
            errs.push(FieldParseError { field: f3, kind });
        }
        assert(errs@ =~= errors_of(os));
        let pool_len = rep_phonemes.len();
        if errs.len() == 0 {
            assert(all_ok(os));
            proof {
                language.lemma_view_wf();
                lemma_fields_valid(ctx, f, old(rep_phonemes)@, pool_len as nat);
            }
            let sc = SoundChange::from_elements(e0, e1, e2, e3);
            assert(sc@.elems =~= toks_of(os));
            Ok(sc)
        } else {
            Err(SoundChangeParseError::Field(errs, raw.to_owned()))
        }
    }

    /// The rule's text form, `TARGET→REPLACEMENT/ENVSTART_ENVEND`: phonemes and
    /// representative phonemes by their symbol, groups by their abbreviation,
    /// boundaries as `#` and bracketed disjunctions as `[...]`.
    pub fn as_str(&self, language: &Language, rep_phonemes: &RepPool) -> (r: String)
        requires
            language.wf(),
            rep_phonemes.wf(),
            forall|i: int| 0 <= i < 4 ==> toks_valid(language@, rep_phonemes@, #[trigger] self@.elems[i]),
        ensures
            r@ == render_rule(language@, rep_phonemes@, self@.elems),
    {
        let ghost elems = self@.elems;
        assert(toks_valid(language@, rep_phonemes@, elems[0]));
        assert(toks_valid(language@, rep_phonemes@, elems[1]));
        assert(toks_valid(language@, rep_phonemes@, elems[2]));
        assert(toks_valid(language@, rep_phonemes@, elems[3]));
        let mut content = String::new();
        render_elems(&self.target, language, rep_phonemes, &mut content);
        push_char(&mut content, '\u{2192}');
        render_elems(&self.replacement, language, rep_phonemes, &mut content);
        push_char(&mut content, '/');
        render_elems(&self.env_start, language, rep_phonemes, &mut content);
        push_char(&mut content, '_');
        render_elems(&self.env_end, language, rep_phonemes, &mut content);
        assert(content@ =~= render_rule(language@, rep_phonemes@, elems));
        content
    }

    /// The field at the given position and its elements.
    pub fn field(&self, field: FieldKind) -> (r: (Field, &[Element]))
        ensures
            r.0 == self@.fields[kind_index(field)],
            tokens_of(r.1@) == self@.elems[kind_index(field)],
    {
        match field {
            FieldKind::Target => (self.target_field, self.target.as_slice()),
            FieldKind::Replacement => (self.replacement_field, self.replacement.as_slice()),
            FieldKind::EnvStart => (self.env_start_field, self.env_start.as_slice()),
            FieldKind::EnvEnd => (self.env_end_field, self.env_end.as_slice()),
        }
    }

    /// The field at the given position and its elements, for editing in place.
    pub fn field_mut(&mut self, field: FieldKind) -> (r: (&mut Field, &mut Vec<Element>))
        ensures
            *r.0 == old(self)@.fields[kind_index(field)],
            tokens_of(r.1@) == old(self)@.elems[kind_index(field)],
            final(self)@.fields == old(self)@.fields.update(kind_index(field), *final(r.0)),
            final(self)@.elems == old(self)@.elems.update(kind_index(field), tokens_of(final(r.1)@)),
    {
        match field {
            FieldKind::Target => (&mut self.target_field, &mut self.target),
            FieldKind::Replacement => (&mut self.replacement_field, &mut self.replacement),
            FieldKind::EnvStart => (&mut self.env_start_field, &mut self.env_start),
            FieldKind::EnvEnd => (&mut self.env_end_field, &mut self.env_end),
        }
    }

    /// Whether an element of some field is the placeholder `Invalid`.
    pub fn invalid(&self) -> (r: bool)
        ensures
            r == exists|i: int, j: int|
                0 <= i < 4 && 0 <= j < self@.elems[i].len() && #[trigger] self@.elems[i][j]
                    == Token::Invalid,
    {
        let a = holds_invalid(&self.target);
        let b = holds_invalid(&self.replacement);
        let c = holds_invalid(&self.env_start);
        let d = holds_invalid(&self.env_end);
        proof {
            let e = self@.elems;
            if a {
                let j = choose|j: int| 0 <= j < e[0].len() && e[0][j] == Token::Invalid;
                assert(e[0][j] == Token::Invalid);
            }
            if b {
                let j = choose|j: int| 0 <= j < e[1].len() && e[1][j] == Token::Invalid;
                assert(e[1][j] == Token::Invalid);
            }
            if c {
                let j = choose|j: int| 0 <= j < e[2].len() && e[2][j] == Token::Invalid;
                assert(e[2][j] == Token::Invalid);
            }
            if d {
                let j = choose|j: int| 0 <= j < e[3].len() && e[3][j] == Token::Invalid;
                assert(e[3][j] == Token::Invalid);
            }
        }
        a || b || c || d
    }
}

/// The position of a field kind in a rule: 0 to 3.
pub open spec fn kind_index(k: FieldKind) -> int {
    match k {
        FieldKind::Target => 0,
        FieldKind::Replacement => 1,
        FieldKind::EnvStart => 2,
        FieldKind::EnvEnd => 3,
    }
}

/// Whether one of the elements is the placeholder `Invalid`.
fn holds_invalid(v: &Vec<Element>) -> (r: bool)
    ensures
        r == exists|j: int| 0 <= j < tokens_of(v@).len() && #[trigger] tokens_of(v@)[j] == Token::Invalid,
{
    proof {
        lemma_tokens_of(v@);
    }
    let mut i: usize = 0;
    while i < v.len()
        invariant
            i <= v@.len(),
            tokens_of(v@).len() == v@.len(),
            forall|j: int| 0 <= j < v@.len() ==> tokens_of(v@)[j] == token_of(#[trigger] v@[j]),
            forall|j: int| 0 <= j < i ==> tokens_of(v@)[j] != Token::Invalid,
        decreases v@.len() - i,
    {
        if let Element::Invalid = &v[i] {
            assert(tokens_of(v@)[i as int] == Token::Invalid);
            return true;
        }
        i += 1;
    }
    false
}

} // verus!
