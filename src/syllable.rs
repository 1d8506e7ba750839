//! Syllable shapes: sequences of phonemes and groups that words are generated from.
use vstd::prelude::*;

use crate::group::GroupKey;
use crate::language::{Language, LanguageView};
use crate::phoneme::{PhonemeKey, PhonemeView};

verus! {

/// One position of a syllable shape.
#[derive(Clone, Copy, Debug, PartialEq, Eq, Structural)]
pub enum SyllabicElement {
    Phoneme(PhonemeKey),
    Group(GroupKey),
    Invalid,
}

/// A syllable shape.
#[derive(Debug, Default)]
pub struct Syllable {
    pub elems: Vec<SyllabicElement>,
}

impl Syllable {
    /// The number of positions.
    pub fn len(&self) -> (r: usize)
        ensures
            r == self.elems@.len(),
    {
        self.elems.len()
    }

    /// Whether there is no position.
    pub fn is_empty(&self) -> (r: bool)
        ensures
            r == (self.elems@.len() == 0),
    {
        self.elems.len() == 0
    }

    /// Whether there is at least one position and none is `Invalid`.
    pub fn is_valid(&self) -> (r: bool)
        ensures
            r == (self.elems@.len() > 0 && forall|i: int|
                0 <= i < self.elems@.len() ==> #[trigger] self.elems@[i] != SyllabicElement::Invalid),
    {
        if self.elems.len() == 0 {
            return false;
        }
        let mut i: usize = 0;
        while i < self.elems.len()
            invariant
                i <= self.elems@.len(),
                forall|j: int| 0 <= j < i ==> #[trigger] self.elems@[j] != SyllabicElement::Invalid,
            decreases self.elems@.len() - i,
        {
            if let SyllabicElement::Invalid = self.elems[i] {
                return false;
            }
            i += 1;
        }
        true
    }
}

/// How a phoneme is spelled in a word: its grapheme, or its symbol where it has none.
pub open spec fn spelling(p: PhonemeView) -> Seq<char> {
    match p.grapheme {
        Some(g) => g,
        None => p.symbol,
    }
}

/// The spelling of one position, with `pick` choosing among a group's members; `None`
/// for `Invalid` or a stale key.
pub open spec fn spell_elem(lang: LanguageView, e: SyllabicElement, pick: usize) -> Option<Seq<char>> {
    match e {
        SyllabicElement::Phoneme(k) => if lang.has_phoneme(k.id) {
            Some(spelling(lang.phoneme(k.id)))
        } else {
            None
        },
        SyllabicElement::Group(k) => if lang.has_group(k.id) {
            let ms = lang.groups[lang.group_index(k.id)].members;
            if ms.len() == 0 {
                Some(Seq::empty())
            } else {
                Some(spelling(lang.phoneme(ms[(pick as int) % (ms.len() as int)])))
            }
        } else {
            None
        },
        SyllabicElement::Invalid => None,
    }
}

/// The spelling of the positions from `i` on.
pub open spec fn spell_from(lang: LanguageView, elems: Seq<SyllabicElement>, picks: Seq<usize>, i: int) -> Option<Seq<char>>
    decreases elems.len() - i,
{
    if i < 0 || i >= elems.len() {
        Some(Seq::empty())
    } else {
        match (spell_elem(lang, elems[i], picks[i]), spell_from(lang, elems, picks, i + 1)) {
            (Some(a), Some(b)) => Some(a + b),
            _ => None,
        }
    }
}

impl Syllable {
    /// The syllable spelled out, each group position taking the member that its pick
    /// chooses (counted round the group's members); `None` where a position is `Invalid`
    /// or names a phoneme or group that is gone.
    pub fn spell(&self, language: &Language, picks: &Vec<usize>) -> (r: Option<String>)
        requires
            language.wf(),
            picks@.len() == self.elems@.len(),
        ensures
            match spell_from(language@, self.elems@, picks@, 0) {
                Some(w) => r matches Some(s) && s@ == w,
                None => r is None,
            },
    {
        let n = self.elems.len();
        let mut out = String::new();
        let mut i: usize = 0;
        while i < n
            invariant
                language.wf(),
                n == self.elems@.len(),
                picks@.len() == n,
                i <= n,
                spell_from(language@, self.elems@, picks@, 0) == match spell_from(language@, self.elems@, picks@, i as int) {
                    Some(rest) => Some(out@ + rest),
                    None => None,
                },
            decreases n - i,
        {
            let piece = match self.elems[i] {
                SyllabicElement::Phoneme(k) => match language.phoneme_get(k) {
                    Some(p) => match &p.grapheme {
                        Some(g) => g.clone(),
                        None => p.phoneme.clone(),
                    },
                    None => {
                        return None;
                    },
                },
                SyllabicElement::Group(k) => match language.phonemes(k) {
                    Some(ms) => {
                        if ms.len() == 0 {
                            String::new()
                        } else {
                            let m = ms[picks[i] % ms.len()];
                            proof {
                                language.lemma_view_wf();
                                let g = language@.group_index(k.id);
                                assert(language@.group_keys()[g] == k.id);
                                let members = language@.groups[g].members;
                                let x = (picks@[i as int] as int) % (ms@.len() as int);
                                assert(0 <= x < members.len());
                                assert(members[(picks@[i as int] as int) % (ms@.len() as int)] == m.id);
                                assert(language@.has_phoneme(m.id));
                            }
                            match language.phoneme_get(m) {
                                Some(p) => match &p.grapheme {
                                    Some(g) => g.clone(),
                                    None => p.phoneme.clone(),
                                },
                                None => {
                                    return None;
                                },
                            }
                        }
                    },
                    None => {
                        return None;
                    },
                },
                SyllabicElement::Invalid => {
                    return None;
                },
            };
            proof {
                assert(spell_elem(language@, self.elems@[i as int], picks@[i as int]) == Some(piece@));
            }
            out.append(piece.as_str());
            i += 1;
        }
        assert(out@ + Seq::<char>::empty() =~= out@);
        Some(out)
    }
}

} // verus!
