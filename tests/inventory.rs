use conlang::element::{Element, Field, FieldKind};
use conlang::focus::{focus_buffer_to_element, Focus, FocusBuffer, FocusTarget, FocusTargetKind, NULL_ID};
use conlang::language::{Language, LanguageRaw};
use conlang::rep::RepPool;
use conlang::sc::SoundChange;
use conlang::syllable::{SyllabicElement, Syllable};
use conlang::{GroupKey, GroupName, Phoneme, PhonemeKey, PhonemeSrc};

#[test]
fn phoneme_removal_cascades_into_groups() {
    let mut lang = Language::new();
    let a = lang.phoneme_add(Phoneme::from_symbol("a".to_string()));
    let e = lang.phoneme_add(Phoneme::from_symbol("e".to_string()));
    let v = lang.group_add(GroupName::Abbrev('V'));
    lang.group_member_add(v, a);
    lang.group_member_add(v, e);
    lang.phoneme_remove(a);
    assert!(lang.phoneme_ref(a).is_none());
    assert_eq!(lang.phonemes(v).unwrap(), vec![e]);
}

#[test]
fn group_removal_keeps_phonemes() {
    let mut lang = Language::new();
    let a = lang.phoneme_add(Phoneme::from_symbol("a".to_string()));
    let v = lang.group_add(GroupName::Abbrev('V'));
    lang.group_member_add(v, a);
    lang.group_remove(v);
    assert!(lang.phonemes(v).is_none());
    assert_eq!(lang.groups(), Vec::<GroupKey>::new());
    assert_eq!(lang.phoneme_ref(a).unwrap().phoneme, "a");
}

#[test]
fn stale_keys_are_refused() {
    let mut lang = Language::new();
    let a = lang.phoneme_add(Phoneme::from_symbol("a".to_string()));
    let v = lang.group_add(GroupName::Abbrev('V'));
    lang.phoneme_remove(a);
    assert!(!lang.group_member_add(v, a));
    assert!(!lang.group_member_add(GroupKey { id: 9 }, a));
    let b = lang.phoneme_add(Phoneme::from_symbol("b".to_string()));
    assert_ne!(a, b);
}

#[test]
fn members_are_kept_in_key_order_without_repeats() {
    let mut lang = Language::new();
    let a = lang.phoneme_add(Phoneme::from_symbol("a".to_string()));
    let e = lang.phoneme_add(Phoneme::from_symbol("e".to_string()));
    let v = lang.group_add(GroupName::Abbrev('V'));
    assert!(lang.group_member_add(v, e));
    assert!(lang.group_member_add(v, a));
    assert!(lang.group_member_add(v, e));
    assert_eq!(lang.phonemes(v).unwrap(), vec![a, e]);
}

#[test]
fn edits_are_committed() {
    let mut lang = Language::new();
    let a = lang.phoneme_add(Phoneme::from_symbol("a".to_string()));
    let mut edit = lang.phoneme_ref_mut(a).unwrap();
    edit.grapheme = Some("á".to_string());
    lang.phoneme_commit(edit);
    let p = lang.phoneme_ref(a).unwrap().to_owned_phoneme();
    assert_eq!(p.display(), "a [á]");
    let mut edit = lang.phoneme_ref_mut(a).unwrap();
    edit.delete();
    assert!(edit.rm);
    assert_eq!(edit.to_owned_phoneme().phoneme, "a");
    lang.phoneme_commit(edit);
    assert!(lang.phoneme_ref(a).is_none());
}

#[test]
fn inventory_from_categories() {
    let raw = LanguageRaw(vec![
        (
            GroupName::Full { name: "Vowel".to_string(), abbrev: 'V' },
            vec![("a".to_string(), None), ("e".to_string(), Some("é".to_string()))],
        ),
        (GroupName::Abbrev('F'), vec![("e".to_string(), None), ("i".to_string(), None)]),
    ]);
    let lang = Language::from_raw(&raw);
    let groups = lang.groups();
    assert_eq!(groups.len(), 2);
    let v = lang.phonemes(groups[0]).unwrap();
    let f = lang.phonemes(groups[1]).unwrap();
    assert_eq!(v.len(), 2);
    assert_eq!(f.len(), 2);
    assert_eq!(v[1], f[0]);
    assert_eq!(lang.phoneme_table.len(), 3);
    assert_eq!(lang.phoneme_ref(v[1]).unwrap().to_owned_phoneme().display(), "e [é]");
    let mut pool = RepPool::new();
    let sc = SoundChange::parse(&lang, &mut pool, &vec![], "Vowel/F/_").unwrap();
    assert_eq!(sc.as_str(&lang, &pool), "V→F/_");
}

#[test]
fn group_name_forms() {
    let full = GroupName::Full { name: "Vowel".to_string(), abbrev: 'V' };
    assert_eq!(full.display(), "Vowel (V)");
    assert_eq!(full.abbrev(), 'V');
    assert!(full.matches("Vowels"));
    assert!(full.matches("Vx"));
    assert!(!full.matches("x"));
    let short = GroupName::Abbrev('C');
    assert_eq!(short.display(), "C");
    assert!(short.matches("Ca"));
    assert!(!short.matches(""));
}

#[test]
fn syllable_validity() {
    let empty = Syllable::default();
    assert!(empty.is_empty());
    assert!(!empty.is_valid());
    let s = Syllable { elems: vec![SyllabicElement::Group(GroupKey { id: 0 }), SyllabicElement::Phoneme(PhonemeKey { id: 1 })] };
    assert_eq!(s.len(), 2);
    assert!(s.is_valid());
    let bad = Syllable { elems: vec![SyllabicElement::Group(GroupKey { id: 0 }), SyllabicElement::Invalid] };
    assert!(!bad.is_valid());
}

#[test]
fn focus_targets_accept_items() {
    let lang_phoneme = FocusBuffer::Phoneme { key: PhonemeKey { id: 0 }, src: PhonemeSrc::Language };
    let rep_phoneme = FocusBuffer::Phoneme { key: PhonemeKey { id: 0 }, src: PhonemeSrc::Rep };
    let target = FocusTarget::Sc { field: Field::Target, head: true, tail: true, nested: false };
    assert!(target.is_valid(&lang_phoneme));
    assert!(!target.is_valid(&rep_phoneme));
    assert!(!target.is_valid(&FocusBuffer::Boundary));
    let repl = FocusTarget::Sc { field: Field::Replacement, head: true, tail: true, nested: true };
    assert!(repl.is_valid(&rep_phoneme));
    assert!(!repl.is_valid(&FocusBuffer::Any));
    let start = FocusTarget::Sc { field: Field::EnvStart { has_boundary: false }, head: true, tail: false, nested: false };
    assert!(start.is_valid(&FocusBuffer::Boundary));
    let end = FocusTarget::Sc { field: Field::EnvEnd { has_boundary: true }, head: false, tail: true, nested: false };
    assert!(!end.is_valid(&FocusBuffer::Boundary));
    let groups = FocusTarget::PhonemeEditorGroups { selected: Some(vec![GroupKey { id: 1 }]) };
    assert!(!groups.is_valid(&FocusBuffer::Group(GroupKey { id: 1 })));
    assert!(groups.is_valid(&FocusBuffer::Group(GroupKey { id: 2 })));
    assert!(FocusTarget::SyllableGroup.is_valid(&FocusBuffer::Group(GroupKey { id: 2 })));
    assert!(!FocusTarget::GroupEditorSelect.is_valid(&lang_phoneme));
    assert!(FocusTarget::PhonemeEditorSelect.is_valid(&lang_phoneme));
    assert_eq!(rep_phoneme.as_str_plural(), "new phonemes");
}

#[test]
fn picked_items_become_elements() {
    let mut field = Field::EnvEnd { has_boundary: false };
    let e = focus_buffer_to_element(FocusBuffer::Boundary, &mut field);
    assert!(matches!(e, Element::Boundary));
    assert_eq!(field, Field::EnvEnd { has_boundary: true });
    let mut target = Field::Target;
    let e = focus_buffer_to_element(FocusBuffer::Phoneme { key: PhonemeKey { id: 3 }, src: PhonemeSrc::Rep }, &mut target);
    assert!(matches!(e, Element::Phoneme { key, rep: true } if key.id == 3));
    assert_eq!(target, Field::Target);
}

#[test]
fn rule_built_from_elements() {
    let sc = SoundChange::from_elements(
        vec![Element::Invalid],
        vec![],
        vec![Element::Any(vec![Element::Boundary])],
        vec![Element::Group(GroupKey { id: 0 })],
    );
    assert_eq!(sc.field(FieldKind::EnvStart).0, Field::EnvStart { has_boundary: true });
    assert_eq!(sc.field(FieldKind::EnvEnd).0, Field::EnvEnd { has_boundary: false });
    assert!(sc.invalid());
    assert!(SoundChange::has_boundary(&vec![Element::Group(GroupKey { id: 0 }), Element::Boundary]));
    assert!(!SoundChange::has_boundary(&vec![]));
}

#[test]
fn fields_edited_in_place() {
    let mut sc = SoundChange::from_elements(vec![], vec![], vec![], vec![]);
    {
        let (field, elems) = sc.field_mut(FieldKind::EnvEnd);
        elems.push(Element::Boundary);
        *field = Field::EnvEnd { has_boundary: true };
    }
    let (field, elems) = sc.field(FieldKind::EnvEnd);
    assert_eq!(field, Field::EnvEnd { has_boundary: true });
    assert_eq!(elems.len(), 1);
    assert!(!sc.invalid());
}

#[test]
fn field_places() {
    for i in 0..4 {
        assert_eq!(Field::from_usize(i).into_usize(), i);
    }
    assert_eq!(Field::from_usize(2), Field::EnvStart { has_boundary: false });
    assert_eq!(Field::EnvEnd { has_boundary: true }.kind(), FieldKind::EnvEnd);
    assert_eq!(Field::Replacement.name(), "Replacement");
    assert_eq!(Field::default(), Field::Target);
}

#[test]
fn representative_usage_counts() {
    let mut pool = RepPool::new();
    let k = pool.allocate("x".to_string());
    assert_eq!(pool.usage_count(k), Some(1));
    assert!(pool.increment_usage(k));
    assert_eq!(pool.usage_count(k), Some(2));
    assert!(!pool.increment_usage(PhonemeKey { id: 5 }));
    assert_eq!(pool.usage_count(PhonemeKey { id: 5 }), None);
}

#[test]
fn raw_data_size_is_checked() {
    let raw = LanguageRaw(vec![(GroupName::Abbrev('V'), vec![("a".to_string(), None)])]);
    assert!(conlang::language::raw_fits(&raw));
    assert!(conlang::language::raw_fits(&LanguageRaw::default()));
}

#[test]
fn phoneme_text_forms() {
    let p = Phoneme::parse("  ʃ [sh] ").unwrap();
    assert_eq!(p.phoneme, "ʃ");
    assert_eq!(p.grapheme.as_deref(), Some("sh"));
    let p = Phoneme::parse("a").unwrap();
    assert_eq!(p.phoneme, "a");
    assert_eq!(p.grapheme, None);
    let p = Phoneme::parse("a [ x ]").unwrap();
    assert_eq!(p.grapheme.as_deref(), Some("x"));
    let p = Phoneme::parse("a [x]y").unwrap();
    assert_eq!(p.grapheme.as_deref(), Some("x"));
    let p = Phoneme::parse("a [").unwrap();
    assert_eq!(p.grapheme, None);
    assert!(Phoneme::parse(" [] ").is_err());
    let shown = Phoneme { phoneme: "e".to_string(), grapheme: Some("é".to_string()) }.display();
    let back = Phoneme::parse(&shown).unwrap();
    assert_eq!(back.phoneme, "e");
    assert_eq!(back.grapheme.as_deref(), Some("é"));
}

#[test]
fn group_name_text_forms() {
    match GroupName::parse("Vowel (V)").unwrap() {
        GroupName::Full { name, abbrev } => {
            assert_eq!(name, "Vowel");
            assert_eq!(abbrev, 'V');
        }
        _ => panic!("full name expected"),
    }
    assert!(matches!(GroupName::parse(" C ").unwrap(), GroupName::Abbrev('C')));
    assert!(GroupName::parse("Vowel").is_err());
    assert!(GroupName::parse("Vowel (3)").is_err());
    assert!(GroupName::parse("Vowel (٣)").is_err());
    assert!(GroupName::parse("").is_err());
}

#[test]
fn focus_selection_protocol() {
    let mut focus = Focus::default();
    assert_eq!(focus.get_id(), NULL_ID);
    assert!(focus.get_focus_status().is_none());
    focus.set(7, FocusTarget::Sc { field: Field::Target, head: true, tail: false, nested: false });
    assert!(focus.needs(FocusTargetKind::Sc));
    assert!(!focus.needs(FocusTargetKind::SyllableGroup));
    assert_eq!(
        focus.get_focus_status().unwrap(),
        "Selecting groups, nonce categories [ ] & phonemes. Press ESC to cancel"
    );
    focus.set_buffer(8, FocusBuffer::Any);
    assert!(focus.take(7).is_none());
    focus.set_buffer(7, FocusBuffer::Any);
    assert!(!focus.needs(FocusTargetKind::Sc));
    assert!(focus.take(8).is_none());
    assert_eq!(focus.take(7), Some(FocusBuffer::Any));
    focus.set_buffer(7, FocusBuffer::Boundary);
    assert!(focus.take_if_matches(FocusTargetKind::GroupEditorSelect).is_none());
    assert_eq!(focus.take_if_matches(FocusTargetKind::Sc), Some(FocusBuffer::Boundary));
    assert!(focus.get_target().is_some());
    focus.clear();
    assert!(focus.get_target().is_none());
    focus.set(3, FocusTarget::GroupEditorSelect);
    assert_eq!(focus.get_focus_status().unwrap(), "Selecting groups. Press ESC to cancel");
    focus.set(3, FocusTarget::Sc { field: Field::Replacement, head: false, tail: false, nested: true });
    assert_eq!(
        focus.get_focus_status().unwrap(),
        "Selecting groups, new phonemes & phonemes. Press ESC to cancel"
    );
}

#[test]
fn syllable_spelled_out() {
    let mut lang = Language::new();
    let a = lang.phoneme_add(Phoneme::from_symbol("a".to_string()));
    let sh = lang.phoneme_add(Phoneme { phoneme: "ʃ".to_string(), grapheme: Some("sh".to_string()) });
    let t = lang.phoneme_add(Phoneme::from_symbol("t".to_string()));
    let c = lang.group_add(GroupName::Abbrev('C'));
    lang.group_member_add(c, sh);
    lang.group_member_add(c, t);
    let s = Syllable { elems: vec![SyllabicElement::Group(c), SyllabicElement::Phoneme(a), SyllabicElement::Group(c)] };
    assert_eq!(s.spell(&lang, &vec![0, 0, 1]).unwrap(), "shat");
    assert_eq!(s.spell(&lang, &vec![3, 9, 2]).unwrap(), "tash");
    let bad = Syllable { elems: vec![SyllabicElement::Invalid] };
    assert!(bad.spell(&lang, &vec![0]).is_none());
    lang.phoneme_remove(a);
    assert!(s.spell(&lang, &vec![0, 0, 0]).is_none());
}

#[test]
fn groups_renamed_and_members_removed() {
    let mut lang = Language::new();
    let a = lang.phoneme_add(Phoneme::from_symbol("a".to_string()));
    let e = lang.phoneme_add(Phoneme::from_symbol("e".to_string()));
    let v = lang.group_add(GroupName::Abbrev('V'));
    lang.group_member_add(v, a);
    lang.group_member_add(v, e);
    assert!(lang.group_rename(v, GroupName::Full { name: "Vowel".to_string(), abbrev: 'W' }));
    assert!(!lang.group_rename(GroupKey { id: 40 }, GroupName::Abbrev('X')));
    assert!(lang.group_member_remove(v, a));
    assert_eq!(lang.phonemes(v).unwrap(), vec![e]);
    assert!(lang.group_member_remove(v, a));
    assert!(!lang.group_member_remove(GroupKey { id: 40 }, e));
    assert_eq!(lang.phonemes_all(), vec![a, e]);
    let mut pool = RepPool::new();
    let sc = SoundChange::parse(&lang, &mut pool, &vec![], "Vowel/W/_").unwrap();
    assert_eq!(sc.as_str(&lang, &pool), "W→W/_");
}
