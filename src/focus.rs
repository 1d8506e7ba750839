//! Selection targets of the rule editor: which kinds of item may be picked for a slot.
use vstd::prelude::*;

use crate::element::{Element, Field};
use crate::group::GroupKey;
use crate::phoneme::{PhonemeKey, PhonemeSrc};

verus! {

/// A slot waiting for an item to be picked.
#[derive(Debug)]
pub enum FocusTarget {
    /// A position in a rule field; `head` and `tail` tell whether it is the first or the
    /// last position of the field, `nested` whether it lies inside brackets.
    Sc { field: Field, head: bool, tail: bool, nested: bool },
    /// The group list of the phoneme editor; `selected` holds the groups already chosen.
    PhonemeEditorGroups { selected: Option<Vec<GroupKey>> },
    PhonemeEditorSelect,
    GroupEditorSelect,
    SyllableGroup,
}

/// Which kind of slot a target is, without its data.
#[derive(Clone, Copy, Debug, PartialEq, Eq, Structural)]
pub enum FocusTargetKind {
    Sc,
    PhonemeEditorGroups,
    PhonemeEditorSelect,
    GroupEditorSelect,
    SyllableGroup,
}

impl FocusTarget {
    pub open spec fn spec_kind(&self) -> FocusTargetKind {
        match self {
            FocusTarget::Sc { .. } => FocusTargetKind::Sc,
            FocusTarget::PhonemeEditorGroups { .. } => FocusTargetKind::PhonemeEditorGroups,
            FocusTarget::PhonemeEditorSelect => FocusTargetKind::PhonemeEditorSelect,
            FocusTarget::GroupEditorSelect => FocusTargetKind::GroupEditorSelect,
            FocusTarget::SyllableGroup => FocusTargetKind::SyllableGroup,
        }
    }

    /// Which kind of slot this is.
    pub fn kind(&self) -> (r: FocusTargetKind)
        ensures
            r == self.spec_kind(),
    {
        match self {
            FocusTarget::Sc { .. } => FocusTargetKind::Sc,
            FocusTarget::PhonemeEditorGroups { .. } => FocusTargetKind::PhonemeEditorGroups,
            FocusTarget::PhonemeEditorSelect => FocusTargetKind::PhonemeEditorSelect,
            FocusTarget::GroupEditorSelect => FocusTargetKind::GroupEditorSelect,
            FocusTarget::SyllableGroup => FocusTargetKind::SyllableGroup,
        }
    }
}

/// An item that was picked.
#[derive(Clone, Copy, Debug, PartialEq, Eq, Structural)]
pub enum FocusBuffer {
    Phoneme { key: PhonemeKey, src: PhonemeSrc },
    Group(GroupKey),
    Any,
    Boundary,
}

/// The item is a phoneme of the inventory.
pub open spec fn is_language_phoneme(b: FocusBuffer) -> bool {
    b matches FocusBuffer::Phoneme { src: PhonemeSrc::Language, .. }
}

/// Whether the item may fill a position of a rule field.
pub open spec fn sc_accepts(field: Field, head: bool, tail: bool, nested: bool, b: FocusBuffer) -> bool {
    match b {
        FocusBuffer::Phoneme { src, .. } => src == PhonemeSrc::Language || field == Field::Replacement,
        FocusBuffer::Group(_) => true,
        FocusBuffer::Any => !nested,
        FocusBuffer::Boundary => match field {
            Field::EnvStart { has_boundary } => head && !has_boundary,
            Field::EnvEnd { has_boundary } => tail && !has_boundary,
            _ => false,
        },
    }
}

impl FocusTarget {
    /// Whether the item `buffer` may be picked for this slot: rule positions take
    /// phonemes of the inventory (representative ones too in the replacement), groups,
    /// brackets outside brackets, and a boundary where the field allows one; the group
    /// list of the phoneme editor takes a group not chosen yet; the phoneme editor takes
    /// an inventory phoneme; the group editor and the syllable builder take a group.
    pub fn is_valid(&self, buffer: &FocusBuffer) -> (r: bool)
        ensures
            r == match self {
                FocusTarget::Sc { field, head, tail, nested } => sc_accepts(*field, *head, *tail, *nested, *buffer),
                FocusTarget::PhonemeEditorGroups { selected } => match buffer {
                    FocusBuffer::Group(k) => match selected {
                        Some(s) => !s@.contains(*k),
                        None => true,
                    },
                    _ => false,
                },
                FocusTarget::PhonemeEditorSelect => is_language_phoneme(*buffer),
                FocusTarget::GroupEditorSelect | FocusTarget::SyllableGroup => buffer is Group,
            },
    {
        match self {
            FocusTarget::Sc { field, head, tail, nested } => match *buffer {
                FocusBuffer::Phoneme { src, .. } => {
                    match src {
                        PhonemeSrc::Language => true,
                        PhonemeSrc::Rep => match field {
                            Field::Replacement => true,
                            _ => false,
                        },
                    }
                },
                FocusBuffer::Group(_) => true,
                FocusBuffer::Any => !*nested,
                FocusBuffer::Boundary => match field {
                    Field::EnvStart { has_boundary } => *head && !*has_boundary,
                    Field::EnvEnd { has_boundary } => *tail && !*has_boundary,
                    _ => false,
                },
            },
            FocusTarget::PhonemeEditorGroups { selected } => match buffer {
                FocusBuffer::Group(k) => match selected {
                    Some(s) => !contains_key(s, *k),
                    None => true,
                },
                _ => false,
            },
            FocusTarget::PhonemeEditorSelect => match buffer {
                FocusBuffer::Phoneme { src: PhonemeSrc::Language, .. } => true,
                _ => false,
            },
            FocusTarget::GroupEditorSelect | FocusTarget::SyllableGroup => match buffer {
                FocusBuffer::Group(_) => true,
                _ => false,
            },
        }
    }
}

fn contains_key(s: &Vec<GroupKey>, k: GroupKey) -> (r: bool)
    ensures
        r == s@.contains(k),
{
    let mut i: usize = 0;
    while i < s.len()
        invariant
            i <= s@.len(),
            forall|j: int| 0 <= j < i ==> s@[j] != k,
        decreases s@.len() - i,
    {
        if s[i] == k {
            return true;
        }
        i += 1;
    }
    false
}

impl FocusBuffer {
    /// The plural noun for this kind of item, for status messages.
    pub fn as_str_plural(&self) -> (r: &'static str)
        ensures
            r@ == match self {
                FocusBuffer::Phoneme { src: PhonemeSrc::Language, .. } => "phonemes"@,
                FocusBuffer::Phoneme { src: PhonemeSrc::Rep, .. } => "new phonemes"@,
                FocusBuffer::Group(_) => "groups"@,
                FocusBuffer::Any => "nonce categories [ ]"@,
                FocusBuffer::Boundary => "word boundaries"@,
            },
    {
        match self {
            FocusBuffer::Phoneme { src: PhonemeSrc::Language, .. } => "phonemes",
            FocusBuffer::Phoneme { src: PhonemeSrc::Rep, .. } => "new phonemes",
            FocusBuffer::Group(_) => "groups",
            FocusBuffer::Any => "nonce categories [ ]",
            FocusBuffer::Boundary => "word boundaries",
        }
    }
}

/// The widget id that no widget has.
pub const NULL_ID: u64 = 0;

/// The selection in progress, if any: the widget that asked, the slot it fills, the item
/// picked so far, and whether the selection has just begun.
#[derive(Debug)]
pub enum Focus {
    Active { id: u64, target: FocusTarget, buffer: Option<FocusBuffer>, fst: bool },
    Idle,
}

impl Default for Focus {
    fn default() -> (r: Focus)
        ensures
            r is Idle,
    {
        Focus::Idle
    }
}

/// The plural nouns of the kinds of item that a target takes, in alphabetical order.
pub open spec fn valid_plurals(t: FocusTarget) -> Seq<Seq<char>> {
    probe_prefix(t, 5)
}

/// The listing of nouns in a status message: `a. `, or `a & b. `, or `a, b & c. `.
pub open spec fn listing(items: Seq<Seq<char>>, i: int) -> Seq<char>
    decreases items.len() - i,
{
    if i < 0 || i >= items.len() {
        Seq::empty()
    } else {
        let piece = if i == 0 && i == items.len() - 1 {
            items[i] + ". "@
        } else if i == 0 {
            items[i]
        } else if i == items.len() - 1 {
            " & "@ + items[i] + ". "@
        } else {
            ", "@ + items[i]
        };
        piece + listing(items, i + 1)
    }
}

impl FocusTarget {
    /// Whether the slot takes the item: what `is_valid` returns.
    pub open spec fn accepts(self, buffer: FocusBuffer) -> bool {
        match self {
            FocusTarget::Sc { field, head, tail, nested } => sc_accepts(field, head, tail, nested, buffer),
            FocusTarget::PhonemeEditorGroups { selected } => match buffer {
                FocusBuffer::Group(k) => match selected {
                    Some(s) => !s@.contains(k),
                    None => true,
                },
                _ => false,
            },
            FocusTarget::PhonemeEditorSelect => is_language_phoneme(buffer),
            FocusTarget::GroupEditorSelect | FocusTarget::SyllableGroup => buffer is Group,
        }
    }
}

impl Focus {
    /// Whether a selection for a slot of kind `kind` is waiting for its item.
    pub fn needs(&self, kind: FocusTargetKind) -> (r: bool)
        ensures
            r == match self {
                Focus::Active { target, buffer, .. } => target.spec_kind() == kind && buffer is None,
                Focus::Idle => false,
            },
    {
        match self {
            Focus::Active { target, buffer, .. } => target.kind() == kind && buffer.is_none(),
            Focus::Idle => false,
        }
    }

    /// Begins a selection for widget `id` and slot `target`.
    pub fn set(&mut self, id: u64, target: FocusTarget)
        ensures
            *final(self) == (Focus::Active { id, target, buffer: None, fst: true }),
    {
        *self = Focus::Active { id, target, buffer: None, fst: true };
    }

    /// Records the item picked, where the selection in progress belongs to widget `id`.
    pub fn set_buffer(&mut self, id: u64, buffer: FocusBuffer)
        ensures
            match *old(self) {
                Focus::Active { id: current, target, fst, .. } => if current == id {
                    *final(self) == (Focus::Active { id, target, buffer: Some(buffer), fst })
                } else {
                    *final(self) == *old(self)
                },
                Focus::Idle => *final(self) == *old(self),
            },
    {
        if let Focus::Active { id: current, buffer: slot, .. } = self {
            if *current == id {
                *slot = Some(buffer);
            }
        }
    }

    /// The widget whose selection is in progress, or `NULL_ID`.
    pub fn get_id(&self) -> (r: u64)
        ensures
            r == match self {
                Focus::Active { id, .. } => *id,
                Focus::Idle => NULL_ID,
            },
    {
        match self {
            Focus::Active { id, .. } => *id,
            Focus::Idle => NULL_ID,
        }
    }

    /// The slot of the selection in progress.
    pub fn get_target(&self) -> (r: Option<&FocusTarget>)
        ensures
            match self {
                Focus::Active { target, .. } => r == Some(target),
                Focus::Idle => r is None,
            },
    {
        match self {
            Focus::Active { target, .. } => Some(target),
            Focus::Idle => None,
        }
    }

    /// Ends any selection.
    pub fn clear(&mut self)
        ensures
            *final(self) is Idle,
    {
        *self = Focus::Idle;
    }

    /// Hands the picked item to widget `from`, where the selection is its own; the
    /// selection stays, waiting again.
    pub fn take(&mut self, from: u64) -> (r: Option<FocusBuffer>)
        ensures
            match *old(self) {
                Focus::Active { id, target, buffer, fst } => if id == from {
                    r == buffer && *final(self) == (Focus::Active { id, target, buffer: None, fst })
                } else {
                    r is None && *final(self) == *old(self)
                },
                Focus::Idle => r is None && *final(self) == *old(self),
            },
    {
        match self {
            Focus::Active { id, buffer, .. } => {
                if *id == from {
                    let b = *buffer;
                    *buffer = None;
                    b
                } else {
                    None
                }
            },
            Focus::Idle => None,
        }
    }

    /// Hands the picked item over where the selection's slot is of kind `kind`.
    pub fn take_if_matches(&mut self, kind: FocusTargetKind) -> (r: Option<FocusBuffer>)
        ensures
            match *old(self) {
                Focus::Active { id, target, buffer, fst } => if target.spec_kind() == kind {
                    r == buffer && *final(self) == (Focus::Active { id, target, buffer: None, fst })
                } else {
                    r is None && *final(self) == *old(self)
                },
                Focus::Idle => r is None && *final(self) == *old(self),
            },
    {
        match self {
            Focus::Active { target, buffer, .. } => {
                if target.kind() == kind {
                    let b = *buffer;
                    *buffer = None;
                    b
                } else {
                    None
                }
            },
            Focus::Idle => None,
        }
    }

    /// The status message of a selection in progress: `Selecting ` and the kinds of item
    /// it takes, then `Press ESC to cancel`.
    pub fn get_focus_status(&self) -> (r: Option<String>)
        ensures
            match self {
                Focus::Active { target, .. } => r matches Some(s) && s@ == "Selecting "@ + listing(
                    valid_plurals(*target),
                    0,
                ) + "Press ESC to cancel"@,
                Focus::Idle => r is None,
            },
    {
        match self {
            Focus::Active { target, .. } => {
                let mut items: Vec<&'static str> = Vec::new();
                let probes = [
                    FocusBuffer::Group(GroupKey { id: 0 }),
                    FocusBuffer::Phoneme { key: PhonemeKey { id: 0 }, src: PhonemeSrc::Rep },
                    FocusBuffer::Any,
                    FocusBuffer::Phoneme { key: PhonemeKey { id: 0 }, src: PhonemeSrc::Language },
                    FocusBuffer::Boundary,
                ];
                let ghost plurals = valid_plurals(*target);
                let mut i: usize = 0;
                while i < 5
                    invariant
                        i <= 5,
                        probes@ == seq![
                            FocusBuffer::Group(GroupKey { id: 0 }),
                            FocusBuffer::Phoneme { key: PhonemeKey { id: 0 }, src: PhonemeSrc::Rep },
                            FocusBuffer::Any,
                            FocusBuffer::Phoneme { key: PhonemeKey { id: 0 }, src: PhonemeSrc::Language },
                            FocusBuffer::Boundary,
                        ],
                        items@.map_values(|x: &'static str| x@) == probe_prefix(*target, i as int),
                    decreases 5 - i,
                {
                    let b = probes[i];
                    if target.is_valid(&b) {
                        items.push(b.as_str_plural());
                    }
                    proof {
                        assert(items@.map_values(|x: &'static str| x@) =~= probe_prefix(*target, i + 1));
                    }
                    i += 1;
                }
                let mut status = String::new();
                status.append("Selecting ");
                let ghost head = status@;
                let ghost views = items@.map_values(|x: &'static str| x@);
                let n = items.len();
                let mut k: usize = 0;
                while k < n
                    invariant
                        n == items@.len(),
                        views == items@.map_values(|x: &'static str| x@),
                        k <= n,
                        status@ + listing(views, k as int) == head + listing(views, 0),
                    decreases n - k,
                {
                    let ghost before = status@;
                    if k == 0 && k == n - 1 {
                        status.append(items[k]);
                        status.append(". ");
                    } else if k == 0 {
                        status.append(items[k]);
                    } else if k == n - 1 {
                        status.append(" & ");
                        status.append(items[k]);
                        status.append(". ");
                    } else {
                        status.append(", ");
                        status.append(items[k]);
                    }
                    assert(status@ + listing(views, k + 1) =~= before + listing(views, k as int));
                    k += 1;
                }
                status.append("Press ESC to cancel");
                assert(status@ =~= head + listing(views, 0) + "Press ESC to cancel"@);
                Some(status)
            },
            Focus::Idle => None,
        }
    }
}

/// The plural nouns of the first `i` probe items that the target takes.
pub open spec fn probe_prefix(t: FocusTarget, i: int) -> Seq<Seq<char>>
    decreases i,
{
    if i <= 0 {
        Seq::empty()
    } else {
        let (b, s) = if i == 1 {
            (FocusBuffer::Group(GroupKey { id: 0 }), "groups"@)
        } else if i == 2 {
            (FocusBuffer::Phoneme { key: PhonemeKey { id: 0 }, src: PhonemeSrc::Rep }, "new phonemes"@)
        } else if i == 3 {
            (FocusBuffer::Any, "nonce categories [ ]"@)
        } else if i == 4 {
            (FocusBuffer::Phoneme { key: PhonemeKey { id: 0 }, src: PhonemeSrc::Language }, "phonemes"@)
        } else {
            (FocusBuffer::Boundary, "word boundaries"@)
        };
        probe_prefix(t, i - 1) + if t.accepts(b) {
            seq![s]
        } else {
            Seq::empty()
        }
    }
}

/// The element that a picked item becomes in a rule field; picking a boundary sets the
/// boundary flag of an environment field.
pub fn focus_buffer_to_element(buffer: FocusBuffer, field: &mut Field) -> (r: Element)
    ensures
        r@ == match buffer {
            FocusBuffer::Phoneme { key, src } => crate::element::Token::Phoneme {
                key: key.id,
                rep: src == PhonemeSrc::Rep,
            },
            FocusBuffer::Group(k) => crate::element::Token::Group(k.id),
            FocusBuffer::Any => crate::element::Token::Any(Seq::empty()),
            FocusBuffer::Boundary => crate::element::Token::Boundary,
        },
        *final(field) == match (buffer, *old(field)) {
            (FocusBuffer::Boundary, Field::EnvStart { .. }) => Field::EnvStart { has_boundary: true },
            (FocusBuffer::Boundary, Field::EnvEnd { .. }) => Field::EnvEnd { has_boundary: true },
            _ => *old(field),
        },
{
    match buffer {
        FocusBuffer::Phoneme { key, src } => {
            let rep = match src {
                PhonemeSrc::Language => false,
                PhonemeSrc::Rep => true,
            };
            Element::Phoneme { key, rep }
        },
        FocusBuffer::Group(key) => Element::Group(key),
        FocusBuffer::Any => {
            let r = Element::Any(Vec::new());
            assert(crate::element::tokens_of(Seq::<Element>::empty()) =~= Seq::empty());
            r
        },
        FocusBuffer::Boundary => {
            match field {
                Field::EnvStart { has_boundary } => {
                    *has_boundary = true;
                },
                Field::EnvEnd { has_boundary } => {
                    *has_boundary = true;
                },
                _ => {},
            }
            Element::Boundary
        },
    }
}

} // verus!
