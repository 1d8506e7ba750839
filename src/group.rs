//! Groups: named classes of phonemes.
use vstd::prelude::*;

use crate::phoneme::PhonemeKey;
use crate::text::{matches_at, push_char, starts_with_at};

verus! {

/// A stable handle to a group of the inventory.
#[derive(Clone, Copy, Debug, PartialEq, Eq, Structural, Hash, PartialOrd, Ord)]
pub struct GroupKey {
    pub id: u64,
}

/// What a group's name is.
pub enum GroupNameView {
    Full { name: Seq<char>, abbrev: char },
    Abbrev(char),
}

/// The name of a group: a full name with a one-character abbreviation, or the abbreviation alone.
#[derive(Clone, Debug)]
pub enum GroupName {
    Full { name: String, abbrev: char },
    Abbrev(char),
}

impl View for GroupName {
    type V = GroupNameView;

    open spec fn view(&self) -> GroupNameView {
        match self {
            GroupName::Full { name, abbrev } => GroupNameView::Full { name: name@, abbrev: *abbrev },
            GroupName::Abbrev(a) => GroupNameView::Abbrev(*a),
        }
    }
}

impl GroupNameView {
    pub open spec fn abbrev(self) -> char {
        match self {
            GroupNameView::Full { abbrev, .. } => abbrev,
            GroupNameView::Abbrev(a) => a,
        }
    }

    /// `text` starts with the full name or with the abbreviation.
    pub open spec fn matches(self, text: Seq<char>) -> bool {
        match self {
            GroupNameView::Full { name, abbrev } => starts_with_at(text, 0, name) || (text.len()
                > 0 && text[0] == abbrev),
            GroupNameView::Abbrev(a) => text.len() > 0 && text[0] == a,
        }
    }

    /// The display form: `name (abbrev)`, or the abbreviation alone.
    pub open spec fn display(self) -> Seq<char> {
        match self {
            GroupNameView::Full { name, abbrev } => name + seq![' ', '(', abbrev, ')'],
            GroupNameView::Abbrev(a) => seq![a],
        }
    }
}

impl GroupName {
    /// The one-character abbreviation.
    pub fn abbrev(&self) -> (r: char)
        ensures
            r == self@.abbrev(),
    {
        match self {
            GroupName::Full { abbrev, .. } | GroupName::Abbrev(abbrev) => *abbrev,
        }
    }

    /// Whether `other` starts with this name or with its abbreviation.
    pub fn matches(&self, other: &str) -> (r: bool)
        ensures
            r == self@.matches(other@),
    {
        let text = crate::text::chars_of(other);
        assert(text@.subrange(0, text@.len() as int) =~= other@);
        self.matches_chars(&text, 0)
    }

    /// Whether `text`, from `pos` on, starts with this name or with its abbreviation.
    pub fn matches_chars(&self, text: &Vec<char>, pos: usize) -> (r: bool)
        requires
            pos <= text@.len(),
        ensures
            r == self@.matches(text@.subrange(pos as int, text@.len() as int)),
    {
        let ghost rest = text@.subrange(pos as int, text@.len() as int);
        match self {
            GroupName::Full { name, abbrev } => {
                let m = matches_at(text, pos, name.as_str());
                proof {
                    if starts_with_at(text@, pos as int, name@) {
                        assert(rest.subrange(0, name@.len() as int) =~= text@.subrange(
                            pos as int,
                            pos + name@.len(),
                        ));
                    }
                    if starts_with_at(rest, 0, name@) {
                        assert(rest.subrange(0, name@.len() as int) =~= text@.subrange(
                            pos as int,
                            pos + name@.len(),
                        ));
                    }
                }
                m || (pos < text.len() && text[pos] == *abbrev)
            },
            GroupName::Abbrev(a) => pos < text.len() && text[pos] == *a,
        }
    }

    /// A copy of this name.
    pub fn duplicate(&self) -> (r: GroupName)
        ensures
            r@ == self@,
    {
        match self {
            GroupName::Full { name, abbrev } => GroupName::Full { name: name.clone(), abbrev: *abbrev },
            GroupName::Abbrev(a) => GroupName::Abbrev(*a),
        }
    }

    /// The display form: `name (abbrev)`, or the abbreviation alone.
    pub fn display(&self) -> (r: String)
        ensures
            r@ == self@.display(),
    {
        match self {
            GroupName::Full { name, abbrev } => {
                let mut r = name.clone();
                push_char(&mut r, ' ');
                push_char(&mut r, '(');
                push_char(&mut r, *abbrev);
                push_char(&mut r, ')');
                proof {
                    assert(r@ =~= self@.display());
                }
                r
            },
            GroupName::Abbrev(a) => {
                let mut r = String::new();
                push_char(&mut r, *a);
                proof {
                    assert(r@ =~= self@.display());
                }
                r
            },
        }
    }
}

/// A named class of phonemes; `keys` lists its members in ascending key order.
#[derive(Clone, Debug)]
pub struct Group {
    pub name: GroupName,
    pub keys: Vec<PhonemeKey>,
}

} // verus!
