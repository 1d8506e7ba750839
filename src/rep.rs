//! The pool of representative phonemes: stand-ins for rule text that matches no
//! phoneme or group of the inventory.
use vstd::prelude::*;

use crate::phoneme::{Phoneme, PhonemeKey};

verus! {

/// Representative phonemes, keyed by their position; each with a usage count.
pub struct RepPool {
    phonemes: Vec<Phoneme>,
    usages: Vec<usize>,
}

impl View for RepPool {
    type V = Seq<Seq<char>>;

    /// The symbols of the representative phonemes, in order of allocation.
    closed spec fn view(&self) -> Seq<Seq<char>> {
        self.phonemes@.map_values(|p: Phoneme| p.phoneme@)
    }
}

impl RepPool {
    /// The usage count of each representative phoneme, in order of allocation.
    pub closed spec fn usage_counts(&self) -> Seq<usize> {
        self.usages@
    }

    /// Every entry has a usage count, and no representative phoneme has a grapheme.
    pub closed spec fn wf(&self) -> bool {
        &&& self.usages@.len() == self.phonemes@.len()
        &&& forall|i: int| 0 <= i < self.phonemes@.len() ==> self.phonemes@[i].grapheme is None
    }

    /// An empty pool.
    pub fn new() -> (r: RepPool)
        ensures
            r.wf(),
            r@.len() == 0,
    {
        let r = RepPool { phonemes: Vec::new(), usages: Vec::new() };
        assert(r@ =~= Seq::empty());
        r
    }

    /// The number of representative phonemes.
    pub fn len(&self) -> (r: usize)
        ensures
            r == self@.len(),
    {
        self.phonemes.len()
    }

    /// Allocates a new representative phoneme for `text`, with a usage count of 1;
    /// an entry with the same text is never reused.
    pub fn allocate(&mut self, text: String) -> (k: PhonemeKey)
        requires
            old(self).wf(),
        ensures
            final(self).wf(),
            final(self)@ == old(self)@.push(text@),
            final(self).usage_counts() == old(self).usage_counts().push(1),
            fresh_counts(*old(self), *final(self)),
            k.id == old(self)@.len(),
    {
        let k = PhonemeKey { id: self.phonemes.len() as u64 };
        self.phonemes.push(Phoneme { phoneme: text, grapheme: None });
        self.usages.push(1);
        assert(self@ =~= old(self)@.push(text@));
        assert(self@.subrange(0, old(self)@.len() as int) =~= old(self)@);
        assert(self.usage_counts() =~= old(self).usage_counts() + Seq::new(1, |i: int| 1usize));
        k
    }

    /// The representative phoneme with key `key`, if there is one.
    pub fn get(&self, key: PhonemeKey) -> (r: Option<&Phoneme>)
        requires
            self.wf(),
        ensures
            match r {
                Some(p) => key.id < self@.len() && p.phoneme@ == self@[key.id as int]
                    && p.grapheme is None,
                None => key.id >= self@.len(),
            },
    {
        if key.id < self.phonemes.len() as u64 {
            Some(&self.phonemes[key.id as usize])
        } else {
            None
        }
    }

    /// The usage count of the representative phoneme `key`, if there is one.
    pub fn usage_count(&self, key: PhonemeKey) -> (r: Option<usize>)
        requires
            self.wf(),
        ensures
            match r {
                Some(u) => key.id < self@.len() && u == self.usage_counts()[key.id as int],
                None => key.id >= self@.len(),
            },
    {
        if key.id < self.usages.len() as u64 {
            Some(self.usages[key.id as usize])
        } else {
            None
        }
    }

    /// Counts one more use of the representative phoneme `key`; false if there is none.
    pub fn increment_usage(&mut self, key: PhonemeKey) -> (r: bool)
        requires
            old(self).wf(),
        ensures
            final(self).wf(),
            final(self)@ == old(self)@,
            r == (key.id < old(self)@.len()),
            r ==> final(self).usage_counts() == old(self).usage_counts().update(
                key.id as int,
                saturating_inc(old(self).usage_counts()[key.id as int]),
            ),
            !r ==> final(self).usage_counts() == old(self).usage_counts(),
    {
        if key.id < self.usages.len() as u64 {
            let i = key.id as usize;
            let u = self.usages[i];
            let v = if u < usize::MAX {
                u + 1
            } else {
                u
            };
            self.usages.set(i, v);
            true
        } else {
            false
        }
    }
}

/// `new` grew from `old`: the same entries first, and the same usage counts for them,
/// then a count of 1 for each entry added since.
pub open spec fn fresh_counts(old: RepPool, new: RepPool) -> bool {
    &&& old@.len() <= new@.len()
    &&& new@.subrange(0, old@.len() as int) == old@
    &&& new.usage_counts() == old.usage_counts() + Seq::new(
        (new@.len() - old@.len()) as nat,
        |i: int| 1usize,
    )
}

/// A pool grew from itself.
pub proof fn lemma_fresh_refl(p: RepPool)
    ensures
        fresh_counts(p, p),
{
    assert(p@.subrange(0, p@.len() as int) =~= p@);
    assert(p.usage_counts() + Seq::new(0, |i: int| 1usize) =~= p.usage_counts());
}

/// Growing twice is growing once.
pub proof fn lemma_fresh_trans(a: RepPool, b: RepPool, c: RepPool)
    requires
        fresh_counts(a, b),
        fresh_counts(b, c),
    ensures
        fresh_counts(a, c),
{
    assert(c@.subrange(0, a@.len() as int) =~= c@.subrange(0, b@.len() as int).subrange(0, a@.len() as int));
    assert(c.usage_counts() =~= a.usage_counts() + Seq::new((c@.len() - a@.len()) as nat, |i: int| 1usize));
}

/// One more than `u`, unless `u` is already the largest `usize`.
pub open spec fn saturating_inc(u: usize) -> usize {
    if u < usize::MAX {
        (u + 1) as usize
    } else {
        u
    }
}

} // verus!
