//! Phonemes: the sound units of an inventory.
use vstd::prelude::*;

use crate::text::push_char;

verus! {

/// A stable handle to a phoneme: of the inventory, or of the representative pool.
#[derive(Clone, Copy, Debug, PartialEq, Eq, Structural, Hash, PartialOrd, Ord)]
pub struct PhonemeKey {
    pub id: u64,
}

/// Where a phoneme handle points.
#[derive(Clone, Copy, Debug, PartialEq, Eq, Structural)]
pub enum PhonemeSrc {
    Language,
    Rep,
}

/// What a phoneme is: its symbol and an optional display spelling.
pub struct PhonemeView {
    pub symbol: Seq<char>,
    pub grapheme: Option<Seq<char>>,
}

/// One sound unit: its canonical symbol and, optionally, the grapheme that spells it.
#[derive(Clone, Debug)]
pub struct Phoneme {
    pub phoneme: String,
    pub grapheme: Option<String>,
}

impl View for Phoneme {
    type V = PhonemeView;

    open spec fn view(&self) -> PhonemeView {
        PhonemeView {
            symbol: self.phoneme@,
            grapheme: match self.grapheme {
                Some(g) => Some(g@),
                None => None,
            },
        }
    }
}

/// The display form of a phoneme: `symbol`, or `symbol [grapheme]`.
pub open spec fn phoneme_display(p: PhonemeView) -> Seq<char> {
    match p.grapheme {
        Some(g) => p.symbol + seq![' ', '['] + g + seq![']'],
        None => p.symbol,
    }
}

impl Phoneme {
    /// A phoneme with the given symbol and no grapheme.
    pub fn from_symbol(symbol: String) -> (r: Phoneme)
        ensures
            r@ == (PhonemeView { symbol: symbol@, grapheme: None }),
    {
        Phoneme { phoneme: symbol, grapheme: None }
    }

    /// A copy of this phoneme.
    pub fn duplicate(&self) -> (r: Phoneme)
        ensures
            r@ == self@,
    {
        let grapheme = match &self.grapheme {
            Some(g) => Some(g.clone()),
            None => None,
        };
        Phoneme { phoneme: self.phoneme.clone(), grapheme }
    }

    /// The display form: `symbol`, or `symbol [grapheme]` when a grapheme is set.
    pub fn display(&self) -> (r: String)
        ensures
            r@ == phoneme_display(self@),
    {
        let mut r = self.phoneme.clone();
        match &self.grapheme {
            Some(g) => {
                push_char(&mut r, ' ');
                push_char(&mut r, '[');
                r.append(g.as_str());
                push_char(&mut r, ']');
            },
            None => {},
        }
        assert(r@ =~= phoneme_display(self@));
        r
    }
}

} // verus!
