use conlang::compile::FieldErrorKind;
use conlang::language::Language;
use conlang::rep::RepPool;
use conlang::sc::{SoundChange, SoundChangeParseError};
use conlang::{Element, Field, FieldKind, GroupKey, GroupName, Phoneme, PhonemeKey};

struct Inventory {
    lang: Language,
    vowel: GroupKey,
    cons: GroupKey,
    a: PhonemeKey,
    n: PhonemeKey,
    t: PhonemeKey,
}

fn inventory() -> Inventory {
    let mut lang = Language::new();
    let a = lang.phoneme_add(Phoneme::from_symbol("a".to_string()));
    let e = lang.phoneme_add(Phoneme::from_symbol("e".to_string()));
    let t = lang.phoneme_add(Phoneme::from_symbol("t".to_string()));
    let n = lang.phoneme_add(Phoneme::from_symbol("n".to_string()));
    let vowel = lang.group_add(GroupName::Full { name: "Vowel".to_string(), abbrev: 'V' });
    let cons = lang.group_add(GroupName::Abbrev('C'));
    assert!(lang.group_member_add(vowel, a));
    assert!(lang.group_member_add(vowel, e));
    assert!(lang.group_member_add(cons, t));
    assert!(lang.group_member_add(cons, n));
    Inventory { lang, vowel, cons, a, n, t }
}

fn field_error(r: Result<SoundChange, SoundChangeParseError>) -> Vec<(Field, FieldErrorKind)> {
    match r {
        Err(SoundChangeParseError::Field(errs, _)) => errs.iter().map(|e| (e.field, e.kind)).collect(),
        _ => panic!("expected a field error"),
    }
}

#[test]
fn end_to_end_example() {
    let inv = inventory();
    let mut pool = RepPool::new();
    let sc = SoundChange::parse(&inv.lang, &mut pool, &vec![], "t→d/V_#").unwrap();
    let (f, target) = sc.field(FieldKind::Target);
    assert_eq!(f, Field::Target);
    assert!(matches!(target, [Element::Phoneme { key, rep: false }] if *key == inv.t));
    let (_, repl) = sc.field(FieldKind::Replacement);
    match repl {
        [Element::Phoneme { key, rep: true }] => {
            assert_eq!(pool.get(*key).unwrap().phoneme, "d");
        },
        _ => panic!("replacement"),
    }
    let (f, start) = sc.field(FieldKind::EnvStart);
    assert_eq!(f, Field::EnvStart { has_boundary: false });
    assert!(matches!(start, [Element::Group(k)] if *k == inv.vowel));
    let (f, end) = sc.field(FieldKind::EnvEnd);
    assert_eq!(f, Field::EnvEnd { has_boundary: true });
    assert!(matches!(end, [Element::Boundary]));
    assert_eq!(sc.as_str(&inv.lang, &pool), "t→d/V_#");
}

#[test]
fn boundary_at_start_of_env_start() {
    let inv = inventory();
    let mut pool = RepPool::new();
    let sc = SoundChange::parse(&inv.lang, &mut pool, &vec![], "t/d/#V_").unwrap();
    let (f, start) = sc.field(FieldKind::EnvStart);
    assert_eq!(f, Field::EnvStart { has_boundary: true });
    assert!(matches!(start, [Element::Boundary, Element::Group(k)] if *k == inv.vowel));
}

#[test]
fn boundary_after_token_in_env_start() {
    let inv = inventory();
    let mut pool = RepPool::new();
    let errs = field_error(SoundChange::parse(&inv.lang, &mut pool, &vec![], "t/d/V#_"));
    assert_eq!(errs, vec![(Field::EnvStart { has_boundary: false }, FieldErrorKind::BoundaryNotAtStart)]);
}

#[test]
fn boundary_at_end_of_env_end() {
    let inv = inventory();
    let mut pool = RepPool::new();
    let sc = SoundChange::parse(&inv.lang, &mut pool, &vec![], "t/d/_V#").unwrap();
    let (f, end) = sc.field(FieldKind::EnvEnd);
    assert_eq!(f, Field::EnvEnd { has_boundary: true });
    assert!(matches!(end, [Element::Group(k), Element::Boundary] if *k == inv.vowel));
}

#[test]
fn double_boundary_in_env_start() {
    let inv = inventory();
    let mut pool = RepPool::new();
    let errs = field_error(SoundChange::parse(&inv.lang, &mut pool, &vec![], "t/d/##_"));
    assert_eq!(errs, vec![(Field::EnvStart { has_boundary: true }, FieldErrorKind::MultipleBoundaries)]);
}

#[test]
fn boundary_in_target_and_replacement() {
    let inv = inventory();
    let mut pool = RepPool::new();
    let errs = field_error(SoundChange::parse(&inv.lang, &mut pool, &vec![], "#/#/_"));
    assert_eq!(
        errs,
        vec![
            (Field::Target, FieldErrorKind::BoundaryNotAllowed),
            (Field::Replacement, FieldErrorKind::BoundaryNotAllowed),
        ]
    );
}

#[test]
fn nested_brackets() {
    let inv = inventory();
    let mut pool = RepPool::new();
    let errs = field_error(SoundChange::parse(&inv.lang, &mut pool, &vec![], "[[V]]/d/_"));
    assert_eq!(errs, vec![(Field::Target, FieldErrorKind::NestedBrackets)]);
}

#[test]
fn bracket_disjunction() {
    let inv = inventory();
    let mut pool = RepPool::new();
    let sc = SoundChange::parse(&inv.lang, &mut pool, &vec![], "[Vn]/d/_").unwrap();
    let (_, target) = sc.field(FieldKind::Target);
    match target {
        [Element::Any(inner)] => {
            assert!(matches!(inner.as_slice(),
                [Element::Group(g), Element::Phoneme { key, rep: false }] if *g == inv.vowel && *key == inv.n));
        },
        _ => panic!("target"),
    }
    assert_eq!(sc.as_str(&inv.lang, &pool), "[Vn]→d/_");
}

#[test]
fn unknown_symbol_becomes_representative() {
    let inv = inventory();
    let mut pool = RepPool::new();
    let sc = SoundChange::parse(&inv.lang, &mut pool, &vec![], "x/a/_").unwrap();
    let (_, target) = sc.field(FieldKind::Target);
    match target {
        [Element::Phoneme { key, rep: true }] => assert_eq!(pool.get(*key).unwrap().phoneme, "x"),
        _ => panic!("target"),
    }
    let (_, repl) = sc.field(FieldKind::Replacement);
    assert!(matches!(repl, [Element::Phoneme { key, rep: false }] if *key == inv.a));
}

#[test]
fn missing_second_slash_is_format_error() {
    let inv = inventory();
    let mut pool = RepPool::new();
    let r = SoundChange::parse(&inv.lang, &mut pool, &vec![], "t→d_V");
    assert!(matches!(r, Err(SoundChangeParseError::Format(s)) if s == "t→d_V"));
    assert_eq!(pool.len(), 0);
}

#[test]
fn group_full_name_is_matched() {
    let inv = inventory();
    let mut pool = RepPool::new();
    let sc = SoundChange::parse(&inv.lang, &mut pool, &vec![], "Vowel/C/_").unwrap();
    let (_, target) = sc.field(FieldKind::Target);
    assert!(matches!(target, [Element::Group(g)] if *g == inv.vowel));
    let (_, repl) = sc.field(FieldKind::Replacement);
    assert!(matches!(repl, [Element::Group(g)] if *g == inv.cons));
    assert_eq!(pool.len(), 0);
}

fn plain_inventory() -> (Language, GroupKey, GroupKey) {
    let mut lang = Language::new();
    let a = lang.phoneme_add(Phoneme::from_symbol("a".to_string()));
    let t = lang.phoneme_add(Phoneme::from_symbol("t".to_string()));
    let n = lang.phoneme_add(Phoneme::from_symbol("n".to_string()));
    let v = lang.group_add(GroupName::Abbrev('V'));
    let c = lang.group_add(GroupName::Abbrev('C'));
    lang.group_member_add(v, a);
    lang.group_member_add(c, t);
    lang.group_member_add(c, n);
    (lang, v, c)
}

fn shape(elems: &[Element], pool: &RepPool) -> String {
    let mut out = String::new();
    for e in elems {
        match e {
            Element::Phoneme { key, rep: true } => out.push_str(&format!("R({})", pool.get(*key).unwrap().phoneme)),
            Element::Phoneme { key, rep: false } => out.push_str(&format!("P({})", key.id)),
            Element::Group(k) => out.push_str(&format!("G({})", k.id)),
            Element::Boundary => out.push('#'),
            Element::Any(inner) => out.push_str(&format!("[{}]", shape(inner, pool))),
            Element::Invalid => out.push('!'),
        }
    }
    out
}

#[test]
fn round_trip_keeps_shape() {
    let (lang, _, _) = plain_inventory();
    let mut pool = RepPool::new();
    let raw = "tx/[aC]y/#V_Cz#";
    let sc = SoundChange::parse(&lang, &mut pool, &vec![], raw).unwrap();
    let text = sc.as_str(&lang, &pool);
    assert_eq!(text, "tx→[aC]y/#V_Cz#");
    let again = SoundChange::parse(&lang, &mut pool, &vec![], &text).unwrap();
    for kind in [FieldKind::Target, FieldKind::Replacement, FieldKind::EnvStart, FieldKind::EnvEnd] {
        let (f1, e1) = sc.field(kind);
        let (f2, e2) = again.field(kind);
        assert_eq!(f1, f2);
        assert_eq!(shape(e1, &pool), shape(e2, &pool));
    }
    assert_eq!(pool.len(), 6);
    assert_eq!(again.as_str(&lang, &pool), text);
}

#[test]
fn boundary_not_at_end_of_env_end() {
    let inv = inventory();
    let mut pool = RepPool::new();
    let errs = field_error(SoundChange::parse(&inv.lang, &mut pool, &vec![], "t/d/_#V"));
    assert_eq!(errs, vec![(Field::EnvEnd { has_boundary: false }, FieldErrorKind::BoundaryNotAtEnd)]);
}

#[test]
fn all_failing_fields_are_reported() {
    let inv = inventory();
    let mut pool = RepPool::new();
    let errs = field_error(SoundChange::parse(&inv.lang, &mut pool, &vec![], "#/[[a]]/a#_#a"));
    assert_eq!(
        errs,
        vec![
            (Field::Target, FieldErrorKind::BoundaryNotAllowed),
            (Field::Replacement, FieldErrorKind::NestedBrackets),
            (Field::EnvStart { has_boundary: false }, FieldErrorKind::BoundaryNotAtStart),
            (Field::EnvEnd { has_boundary: false }, FieldErrorKind::BoundaryNotAtEnd),
        ]
    );
}

#[test]
fn grapheme_cluster_is_one_representative() {
    let inv = inventory();
    let mut pool = RepPool::new();
    let sc = SoundChange::parse(&inv.lang, &mut pool, &vec![], "o\u{301}/a/_").unwrap();
    let (_, target) = sc.field(FieldKind::Target);
    assert_eq!(target.len(), 1);
    assert_eq!(pool.len(), 1);
    assert_eq!(pool.get(PhonemeKey { id: 0 }).unwrap().phoneme, "o\u{301}");
}

#[test]
fn rewrite_source_is_one_representative() {
    let inv = inventory();
    let mut pool = RepPool::new();
    let sources = vec!["sh".to_string()];
    let sc = SoundChange::parse(&inv.lang, &mut pool, &sources, "sh/a/_").unwrap();
    let (_, target) = sc.field(FieldKind::Target);
    assert_eq!(target.len(), 1);
    assert_eq!(pool.get(PhonemeKey { id: 0 }).unwrap().phoneme, "sh");
}

#[test]
fn rewrite_source_known_as_phoneme_is_skipped() {
    let mut inv = inventory();
    inv.lang.phoneme_table.push(Phoneme::from_symbol("sh".to_string()));
    let mut pool = RepPool::new();
    let sources = vec!["sh".to_string()];
    let sc = SoundChange::parse(&inv.lang, &mut pool, &sources, "sh/a/_").unwrap();
    let (_, target) = sc.field(FieldKind::Target);
    assert_eq!(target.len(), 2);
    assert_eq!(pool.len(), 2);
}

#[test]
fn representatives_are_never_shared() {
    let inv = inventory();
    let mut pool = RepPool::new();
    SoundChange::parse(&inv.lang, &mut pool, &vec![], "x/x/_").unwrap();
    assert_eq!(pool.len(), 2);
    assert_eq!(pool.usage_count(PhonemeKey { id: 1 }), Some(1));
}

#[test]
fn representatives_allocated_even_when_rule_fails() {
    let inv = inventory();
    let mut pool = RepPool::new();
    let r = SoundChange::parse(&inv.lang, &mut pool, &vec![], "x/#/_");
    assert!(r.is_err());
    assert_eq!(pool.len(), 1);
}

#[test]
fn leftmost_word_with_the_shape_is_taken() {
    let inv = inventory();
    let mut pool = RepPool::new();
    let sc = SoundChange::parse(&inv.lang, &mut pool, &vec![], "rule: a/e/t_ n").unwrap();
    assert_eq!(sc.as_str(&inv.lang, &pool), "a→e/t_");
}

#[test]
fn field_error_message_text() {
    let inv = inventory();
    let mut pool = RepPool::new();
    let r = SoundChange::parse(&inv.lang, &mut pool, &vec![], "#/a/_");
    let msg = r.err().unwrap().message();
    assert_eq!(msg, "#/a/_ => \n    (0) Word boundaries cannot be placed in `Target` field");
}

#[test]
fn format_error_message_text() {
    let inv = inventory();
    let mut pool = RepPool::new();
    let r = SoundChange::parse(&inv.lang, &mut pool, &vec![], "ab");
    let msg = r.err().unwrap().message();
    assert!(msg.starts_with("ab =>\n    Failed to parse sound change"));
    assert!(msg.ends_with("Target \u{2192} Replacement / EnvStart _ EnvEnd"));
}

#[test]
fn unclosed_bracket_is_a_representative() {
    let inv = inventory();
    let mut pool = RepPool::new();
    let sc = SoundChange::parse(&inv.lang, &mut pool, &vec![], "[a/e/_").unwrap();
    let (_, target) = sc.field(FieldKind::Target);
    assert_eq!(target.len(), 2);
    assert_eq!(pool.get(PhonemeKey { id: 0 }).unwrap().phoneme, "[");
}

#[test]
fn field_parse_appends_and_sets_flag() {
    let inv = inventory();
    let mut pool = RepPool::new();
    let mut field = Field::EnvEnd { has_boundary: false };
    let mut elems = vec![Element::Boundary];
    let r = field.parse(&inv.lang, &mut pool, &vec![], &mut elems, "a#", true, false, false);
    assert!(r.is_ok());
    assert_eq!(field, Field::EnvEnd { has_boundary: true });
    assert_eq!(elems.len(), 3);
}

#[test]
fn two_bracket_groups_in_one_field() {
    let inv = inventory();
    let mut pool = RepPool::new();
    let sc = SoundChange::parse(&inv.lang, &mut pool, &vec![], "[a]C[nt]/e/_").unwrap();
    let (_, target) = sc.field(FieldKind::Target);
    assert_eq!(target.len(), 3);
    assert!(matches!(&target[0], Element::Any(v) if v.len() == 1));
    assert!(matches!(&target[1], Element::Group(g) if *g == inv.cons));
    assert!(matches!(&target[2], Element::Any(v) if v.len() == 2));
    assert_eq!(sc.as_str(&inv.lang, &pool), "[a]C[nt]→e/_");
}

#[test]
fn document_rules_compile_line_by_line() {
    let inv = inventory();
    let mut pool = RepPool::new();
    let lines = vec!["t→d/V_#".to_string(), "ab".to_string(), "x/#/_".to_string(), "a/e/_".to_string()];
    let (rules, broken) = conlang::sc::compile_rules(&inv.lang, &mut pool, &vec![], &lines);
    assert_eq!(rules.len(), 2);
    assert_eq!(rules[0].as_str(&inv.lang, &pool), "t→d/V_#");
    assert_eq!(rules[1].as_str(&inv.lang, &pool), "a→e/_");
    assert_eq!(broken.len(), 2);
    assert!(broken[0].starts_with("ab =>\n    Failed to parse sound change"));
    assert_eq!(broken[1], "x/#/_ => \n    (0) Word boundaries cannot be placed in `Replacement` field");
    assert_eq!(pool.len(), 2);
    assert_eq!(pool.usage_count(PhonemeKey { id: 1 }), Some(1));
}

#[test]
fn round_trip_with_graphemes() {
    let mut lang = Language::new();
    let sh = lang.phoneme_add(Phoneme { phoneme: "ʃ".to_string(), grapheme: Some("sh".to_string()) });
    let a = lang.phoneme_add(Phoneme { phoneme: "a".to_string(), grapheme: Some("á".to_string()) });
    let c = lang.group_add(GroupName::Abbrev('C'));
    lang.group_member_add(c, sh);
    lang.group_member_add(c, a);
    let mut pool = RepPool::new();
    let sc = SoundChange::parse(&lang, &mut pool, &vec![], "ʃa/x/#_").unwrap();
    let text = sc.as_str(&lang, &pool);
    assert_eq!(text, "ʃa→x/#_");
    let again = SoundChange::parse(&lang, &mut pool, &vec![], &text).unwrap();
    assert_eq!(again.as_str(&lang, &pool), text);
    assert_eq!(shape(sc.field(FieldKind::Target).1, &pool), shape(again.field(FieldKind::Target).1, &pool));
}
