//! Compiled rule tokens and rule fields.
use vstd::prelude::*;

use crate::group::GroupKey;
use crate::phoneme::PhonemeKey;

verus! {

broadcast use vstd::seq::axiom_seq_subrange_decreases, vstd::seq::axiom_seq_index_decreases;

/// What a compiled token is, with keys as plain numbers.
pub enum Token {
    Phoneme { key: u64, rep: bool },
    Group(u64),
    Boundary,
    Any(Seq<Token>),
    Invalid,
}

/// One compiled token of a rule field.
#[derive(Debug)]
pub enum Element {
    /// A phoneme; `rep` tells a representative phoneme from one of the inventory.
    Phoneme { key: PhonemeKey, rep: bool },
    Group(GroupKey),
    /// The word boundary `#`.
    Boundary,
    /// A bracketed disjunction `[...]`.
    Any(Vec<Element>),
    /// A placeholder left by an editor.
    Invalid,
}

/// The tokens that a sequence of elements stands for.
pub open spec fn tokens_of(s: Seq<Element>) -> Seq<Token>
    decreases s,
{
    if s.len() == 0 {
        Seq::empty()
    } else {
        tokens_of(s.subrange(0, s.len() - 1)).push(token_of(s[s.len() - 1]))
    }
}

/// The token that an element stands for.
pub open spec fn token_of(e: Element) -> Token
    decreases e,
{
    match e {
        Element::Phoneme { key, rep } => Token::Phoneme { key: key.id, rep },
        Element::Group(k) => Token::Group(k.id),
        Element::Boundary => Token::Boundary,
        Element::Any(v) => Token::Any(tokens_of(v@)),
        Element::Invalid => Token::Invalid,
    }
}

impl View for Element {
    type V = Token;

    open spec fn view(&self) -> Token {
        token_of(*self)
    }
}

/// The length of `tokens_of` is that of its argument, and it maps each element.
pub proof fn lemma_tokens_of(s: Seq<Element>)
    ensures
        tokens_of(s).len() == s.len(),
        forall|i: int| 0 <= i < s.len() ==> tokens_of(s)[i] == token_of(#[trigger] s[i]),
    decreases s.len(),
{
    if s.len() > 0 {
        let sub = s.subrange(0, s.len() - 1);
        lemma_tokens_of(sub);
        assert forall|i: int| 0 <= i < s.len() implies tokens_of(s)[i] == token_of(
            #[trigger] s[i],
        ) by {
            if i < s.len() - 1 {
                assert(sub[i] == s[i]);
            }
        }
    }
}

/// `tokens_of` commutes with pushing an element.
pub proof fn lemma_tokens_of_push(s: Seq<Element>, e: Element)
    ensures
        tokens_of(s.push(e)) == tokens_of(s).push(token_of(e)),
{
    assert(s.push(e).subrange(0, s.len() as int) =~= s);
}

/// The position a rule field stands in, with its boundary flag for the environment fields.
#[derive(Clone, Copy, Debug, PartialEq, Eq, Structural, Hash)]
pub enum Field {
    Target,
    Replacement,
    EnvStart { has_boundary: bool },
    EnvEnd { has_boundary: bool },
}

/// The position alone, without the boundary flag.
#[derive(Clone, Copy, Debug, PartialEq, Eq, Structural, Hash)]
pub enum FieldKind {
    Target,
    Replacement,
    EnvStart,
    EnvEnd,
}

impl Default for Field {
    fn default() -> (r: Field)
        ensures
            r == Field::Target,
    {
        Field::Target
    }
}

impl Field {
    pub open spec fn spec_kind(self) -> FieldKind {
        match self {
            Field::Target => FieldKind::Target,
            Field::Replacement => FieldKind::Replacement,
            Field::EnvStart { .. } => FieldKind::EnvStart,
            Field::EnvEnd { .. } => FieldKind::EnvEnd,
        }
    }

    /// The position of this field.
    pub fn kind(&self) -> (r: FieldKind)
        ensures
            r == self.spec_kind(),
    {
        match self {
            Field::Target => FieldKind::Target,
            Field::Replacement => FieldKind::Replacement,
            Field::EnvStart { .. } => FieldKind::EnvStart,
            Field::EnvEnd { .. } => FieldKind::EnvEnd,
        }
    }

    pub open spec fn spec_name(self) -> Seq<char> {
        match self {
            Field::Target => "Target"@,
            Field::Replacement => "Replacement"@,
            Field::EnvStart { .. } => "EnvStart"@,
            Field::EnvEnd { .. } => "EnvEnd"@,
        }
    }

    /// The field's name.
    pub fn name(&self) -> (r: &'static str)
        ensures
            r@ == self.spec_name(),
    {
        match self {
            Field::Target => "Target",
            Field::Replacement => "Replacement",
            Field::EnvStart { .. } => "EnvStart",
            Field::EnvEnd { .. } => "EnvEnd",
        }
    }

    pub open spec fn index_of(self) -> usize {
        match self {
            Field::Target => 0,
            Field::Replacement => 1,
            Field::EnvStart { .. } => 2,
            Field::EnvEnd { .. } => 3,
        }
    }

    /// The place of this field in a rule: 0 to 3, in the order Target, Replacement, EnvStart, EnvEnd.
    pub fn into_usize(&self) -> (r: usize)
        ensures
            r == self.index_of(),
    {
        match self {
            Field::Target => 0,
            Field::Replacement => 1,
            Field::EnvStart { .. } => 2,
            Field::EnvEnd { .. } => 3,
        }
    }

    pub open spec fn fresh(i: int) -> Field {
        if i == 0 {
            Field::Target
        } else if i == 1 {
            Field::Replacement
        } else if i == 2 {
            Field::EnvStart { has_boundary: false }
        } else {
            Field::EnvEnd { has_boundary: false }
        }
    }

    /// The field at place `value` of a rule, with no boundary recorded.
    pub fn from_usize(value: usize) -> (r: Field)
        requires
            value < 4,
        ensures
            r == Field::fresh(value as int),
            r.index_of() == value,
    {
        if value == 0 {
            Field::Target
        } else if value == 1 {
            Field::Replacement
        } else if value == 2 {
            Field::EnvStart { has_boundary: false }
        } else {
            Field::EnvEnd { has_boundary: false }
        }
    }
}

} // verus!
