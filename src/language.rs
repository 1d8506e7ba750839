//! The symbol inventory: an arena of phonemes and groups addressed by stable keys.
use vstd::prelude::*;

use crate::group::{Group, GroupKey, GroupName, GroupNameView};
use crate::phoneme::{Phoneme, PhonemeKey, PhonemeView};

verus! {

/// A phoneme of the inventory, with its key.
pub struct PhonemeEntry {
    pub key: u64,
    pub phoneme: PhonemeView,
}

/// A group of the inventory, with its key and its members' keys in ascending order.
pub struct GroupEntry {
    pub key: u64,
    pub name: GroupNameView,
    pub members: Seq<u64>,
}

/// What an inventory holds: its phonemes and groups, each in ascending key order,
/// and the table of phonemes taken from an imported document.
pub struct LanguageView {
    pub phonemes: Seq<PhonemeEntry>,
    pub groups: Seq<GroupEntry>,
    pub table: Seq<PhonemeView>,
}

/// The keys in `s` are strictly ascending.
pub open spec fn ascending(s: Seq<u64>) -> bool {
    forall|i: int, j: int| 0 <= i < j < s.len() ==> s[i] < s[j]
}

/// The keys of a sequence of phoneme entries.
pub open spec fn entry_keys(s: Seq<PhonemeEntry>) -> Seq<u64> {
    s.map_values(|e: PhonemeEntry| e.key)
}

impl LanguageView {
    pub open spec fn phoneme_keys(self) -> Seq<u64> {
        entry_keys(self.phonemes)
    }

    pub open spec fn group_keys(self) -> Seq<u64> {
        self.groups.map_values(|e: GroupEntry| e.key)
    }

    pub open spec fn has_phoneme(self, k: u64) -> bool {
        self.phoneme_keys().contains(k)
    }

    pub open spec fn has_group(self, k: u64) -> bool {
        self.group_keys().contains(k)
    }

    /// The position of the phoneme with key `k`.
    pub open spec fn phoneme_index(self, k: u64) -> int {
        self.phoneme_keys().index_of(k)
    }

    /// The phoneme with key `k`.
    pub open spec fn phoneme(self, k: u64) -> PhonemeView {
        self.phonemes[self.phoneme_index(k)].phoneme
    }

    /// The position of the group with key `k`.
    pub open spec fn group_index(self, k: u64) -> int {
        self.group_keys().index_of(k)
    }

    /// Keys are unique and ascending, and every group member is a phoneme of the inventory.
    pub open spec fn wf(self) -> bool {
        &&& ascending(self.phoneme_keys())
        &&& ascending(self.group_keys())
        &&& forall|g: int|
            0 <= g < self.groups.len() ==> {
                &&& ascending(#[trigger] self.groups[g].members)
                &&& forall|m: int|
                    0 <= m < self.groups[g].members.len() ==> self.has_phoneme(
                        self.groups[g].members[m],
                    )
            }
    }

    /// Some phoneme of the import table has the symbol `s`.
    pub open spec fn table_has(self, s: Seq<char>) -> bool {
        exists|i: int| 0 <= i < self.table.len() && #[trigger] self.table[i].symbol == s
    }
}

struct PhonemeSlot {
    key: PhonemeKey,
    phoneme: Phoneme,
}

struct GroupSlot {
    key: GroupKey,
    group: Group,
}

/// The inventory of one constructed language.
pub struct Language {
    phonemes: Vec<PhonemeSlot>,
    groups: Vec<GroupSlot>,
    next_phoneme: u64,
    next_group: u64,
    /// The phonemes read from an imported document; only meaningful while importing.
    pub phoneme_table: Vec<Phoneme>,
}

impl View for Language {
    type V = LanguageView;

    closed spec fn view(&self) -> LanguageView {
        LanguageView {
            phonemes: self.phonemes@.map_values(
                |s: PhonemeSlot| PhonemeEntry { key: s.key.id, phoneme: s.phoneme@ },
            ),
            groups: self.groups@.map_values(
                |s: GroupSlot|
                    GroupEntry {
                        key: s.key.id,
                        name: s.group.name@,
                        members: s.group.keys@.map_values(|k: PhonemeKey| k.id),
                    },
            ),
            table: self.phoneme_table@.map_values(|p: Phoneme| p@),
        }
    }
}

impl Language {
    /// The inventory is well formed, and fresh keys can still be handed out.
    pub closed spec fn wf(&self) -> bool {
        &&& self@.wf()
        &&& forall|i: int| 0 <= i < self.phonemes@.len() ==> self.phonemes@[i].key.id < self.next_phoneme
        &&& forall|i: int| 0 <= i < self.groups@.len() ==> self.groups@[i].key.id < self.next_group
    }

    /// How many more keys of each kind can be handed out.
    pub closed spec fn keys_left(&self) -> nat {
        let p = (u64::MAX - self.next_phoneme) as nat;
        let g = (u64::MAX - self.next_group) as nat;
        if p < g {
            p
        } else {
            g
        }
    }

    /// A well-formed inventory has a well-formed view.
    pub proof fn lemma_view_wf(&self)
        requires
            self.wf(),
        ensures
            self@.wf(),
    {
    }

    /// An empty inventory.
    pub fn new() -> (r: Language)
        ensures
            r.wf(),
            r.keys_left() == u64::MAX,
            r@.phonemes.len() == 0,
            r@.groups.len() == 0,
            r@.table.len() == 0,
    {
        let r = Language {
            phonemes: Vec::new(),
            groups: Vec::new(),
            next_phoneme: 0,
            next_group: 0,
            phoneme_table: Vec::new(),
        };
        assert(r@.phonemes =~= Seq::empty());
        assert(r@.groups =~= Seq::empty());
        r
    }
}

/// Categories read from a document: each group's name with the symbols of its phonemes,
/// each with an optional grapheme.
#[derive(Debug, Default)]
pub struct LanguageRaw(pub Vec<(GroupName, Vec<(String, Option<String>)>)>);

/// The number of groups and entries in raw category data.
pub open spec fn raw_size(raw: Seq<(GroupName, Vec<(String, Option<String>)>)>) -> int
    decreases raw.len(),
{
    if raw.len() == 0 {
        0
    } else {
        raw_size(raw.subrange(0, raw.len() - 1)) + 1 + raw[raw.len() - 1].1@.len()
    }
}

/// Whether raw category data is small enough to number: `Language::from_raw` asks for it.
pub fn raw_fits(raw: &LanguageRaw) -> (r: bool)
    ensures
        r == (raw_size(raw.0@) < u64::MAX),
{
    let mut total: u64 = 0;
    let mut g: usize = 0;
    proof {
        assert(raw.0@.subrange(0, 0) =~= Seq::empty());
    }
    while g < raw.0.len()
        invariant
            g <= raw.0@.len(),
            total as int == raw_size(raw.0@.subrange(0, g as int)),
            total < u64::MAX,
        decreases raw.0@.len() - g,
    {
        proof {
            lemma_raw_size_step(raw.0@, g as int);
        }
        let n = raw.0[g].1.len() as u64;
        if n >= u64::MAX - 1 - total {
            proof {
                lemma_raw_size_prefix(raw.0@, g + 1);
            }
            return false;
        }
        total = total + 1 + n;
        g += 1;
    }
    proof {
        assert(raw.0@.subrange(0, g as int) =~= raw.0@);
    }
    true
}

proof fn lemma_raw_size_step(raw: Seq<(GroupName, Vec<(String, Option<String>)>)>, g: int)
    requires
        0 <= g < raw.len(),
    ensures
        raw_size(raw.subrange(0, g + 1)) == raw_size(raw.subrange(0, g)) + 1 + raw[g].1@.len(),
{
    assert(raw.subrange(0, g + 1).subrange(0, g) =~= raw.subrange(0, g));
}

proof fn lemma_raw_size_prefix(raw: Seq<(GroupName, Vec<(String, Option<String>)>)>, g: int)
    requires
        0 <= g <= raw.len(),
    ensures
        raw_size(raw.subrange(0, g)) <= raw_size(raw),
    decreases raw.len() - g,
{
    if g < raw.len() {
        lemma_raw_size_step(raw, g);
        lemma_raw_size_prefix(raw, g + 1);
    } else {
        assert(raw.subrange(0, g) =~= raw);
    }
}

/// In a well-formed inventory the group at position `g` is the one its key finds.
proof fn lemma_group_last(lang: LanguageView, g: int)
    requires
        lang.wf(),
        0 <= g < lang.groups.len(),
    ensures
        lang.group_index(lang.groups[g].key) == g,
        lang.has_group(lang.groups[g].key),
{
    let keys = lang.group_keys();
    assert(keys[g] == lang.groups[g].key);
    let j = keys.index_of(keys[g]);
    assert(keys[j] == keys[g]);
    if j < g {
        assert(keys[j] < keys[g]);
    } else if j > g {
        assert(keys[g] < keys[j]);
    }
}

/// In a well-formed inventory the last phoneme is the one its key finds.
proof fn lemma_phoneme_last(lang: LanguageView)
    requires
        lang.wf(),
        lang.phonemes.len() > 0,
    ensures
        lang.phoneme(lang.phonemes[lang.phonemes.len() - 1].key) == lang.phonemes[lang.phonemes.len() - 1].phoneme,
{
    let n = lang.phonemes.len() - 1;
    let keys = lang.phoneme_keys();
    assert(keys[n] == lang.phonemes[n].key);
    let j = keys.index_of(keys[n]);
    assert(keys[j] == keys[n]);
    if j < n {
        assert(keys[j] < keys[n]);
    }
}

/// Adding a phoneme leaves every phoneme that was there as it was.
proof fn lemma_phoneme_after_push(a: LanguageView, b: LanguageView)
    requires
        a.wf(),
        b.wf(),
        b.phonemes.len() == a.phonemes.len() + 1,
        b.phonemes.subrange(0, a.phonemes.len() as int) == a.phonemes,
    ensures
        forall|k: u64| a.has_phoneme(k) ==> b.has_phoneme(k) && #[trigger] b.phoneme(k) == a.phoneme(k),
{
    assert forall|k: u64| a.has_phoneme(k) implies b.has_phoneme(k) && #[trigger] b.phoneme(k) == a.phoneme(k) by {
        let ka = a.phoneme_keys();
        let kb = b.phoneme_keys();
        let i = ka.index_of(k);
        assert(ka[i] == k);
        assert(b.phonemes[i] == a.phonemes[i]);
        assert(kb[i] == k);
        let j = kb.index_of(k);
        assert(kb[j] == k);
        if j < i {
            assert(kb[j] < kb[i]);
        } else if j > i {
            assert(kb[i] < kb[j]);
        }
    }
}

/// What a raw entry describes: a symbol and an optional grapheme.
pub open spec fn raw_view(x: (String, Option<String>)) -> PhonemeView {
    PhonemeView {
        symbol: x.0@,
        grapheme: match x.1 {
            Some(g) => Some(g@),
            None => None,
        },
    }
}

/// The entries of raw category data, category after category.
pub open spec fn flat(raw: Seq<(GroupName, Vec<(String, Option<String>)>)>) -> Seq<PhonemeView>
    decreases raw.len(),
{
    if raw.len() == 0 {
        Seq::empty()
    } else {
        flat(raw.subrange(0, raw.len() - 1)) + raw[raw.len() - 1].1@.map_values(
            |x: (String, Option<String>)| raw_view(x),
        )
    }
}

/// Some phoneme of `s` has the symbol `sym`.
pub open spec fn has_symbol(s: Seq<PhonemeView>, sym: Seq<char>) -> bool {
    exists|i: int| 0 <= i < s.len() && #[trigger] s[i].symbol == sym
}

/// The phonemes of `s` with a symbol not seen before, in order: the first of each symbol.
pub open spec fn distinct_first(s: Seq<PhonemeView>) -> Seq<PhonemeView>
    decreases s.len(),
{
    if s.len() == 0 {
        Seq::empty()
    } else {
        let d = distinct_first(s.subrange(0, s.len() - 1));
        if has_symbol(d, s[s.len() - 1].symbol) {
            d
        } else {
            d.push(s[s.len() - 1])
        }
    }
}

/// The phonemes of a sequence of entries.
pub open spec fn entry_views(s: Seq<PhonemeEntry>) -> Seq<PhonemeView> {
    s.map_values(|e: PhonemeEntry| e.phoneme)
}

/// Some of the first `n` entries has the symbol `sym`.
pub open spec fn listed(entries: Seq<(String, Option<String>)>, n: int, sym: Seq<char>) -> bool {
    exists|x: int| 0 <= x < n && x < entries.len() && #[trigger] entries[x].0@ == sym
}

proof fn lemma_views_known(lang: LanguageView, sym: Seq<char>)
    ensures
        symbol_known(lang, sym) == has_symbol(entry_views(lang.phonemes), sym),
{
    if symbol_known(lang, sym) {
        let i = choose|i: int| 0 <= i < lang.phonemes.len() && lang.phonemes[i].phoneme.symbol == sym;
        assert(entry_views(lang.phonemes)[i].symbol == sym);
    }
    if has_symbol(entry_views(lang.phonemes), sym) {
        let i = choose|i: int| 0 <= i < entry_views(lang.phonemes).len() && entry_views(lang.phonemes)[i].symbol == sym;
        assert(lang.phonemes[i].phoneme.symbol == sym);
    }
}

/// Some member of the group at position `g` has the symbol `sym`.
pub open spec fn member_with_symbol(lang: LanguageView, g: int, sym: Seq<char>) -> bool {
    exists|m: int|
        0 <= m < lang.groups[g].members.len() && lang.phoneme(lang.groups[g].members[m]).symbol == sym
}

/// Some phoneme of the inventory has the symbol `sym`.
pub open spec fn symbol_known(lang: LanguageView, sym: Seq<char>) -> bool {
    exists|i: int| 0 <= i < lang.phonemes.len() && #[trigger] lang.phonemes[i].phoneme.symbol == sym
}

/// A phoneme of the inventory, borrowed, with its key.
#[derive(Debug)]
pub struct PhonemeRef<'a> {
    pub key: PhonemeKey,
    pub phoneme: &'a String,
    pub grapheme: Option<&'a String>,
}

impl<'a> PhonemeRef<'a> {
    /// An owned copy of the phoneme.
    pub fn to_owned_phoneme(&self) -> (r: Phoneme)
        ensures
            r.phoneme@ == self.phoneme@,
            r.grapheme is Some <==> self.grapheme is Some,
            r.grapheme matches Some(g) ==> g@ == self.grapheme->Some_0@,
    {
        let grapheme = match self.grapheme {
            Some(g) => Some(g.clone()),
            None => None,
        };
        Phoneme { phoneme: self.phoneme.clone(), grapheme }
    }
}

/// An editable copy of a phoneme of the inventory: change its fields, or mark it for
/// deletion, then hand it to `Language::phoneme_commit`.
#[derive(Debug)]
pub struct PhonemeRefMut {
    pub key: PhonemeKey,
    pub phoneme: String,
    pub grapheme: Option<String>,
    pub rm: bool,
}

impl PhonemeRefMut {
    /// The phoneme as edited.
    pub open spec fn to_owned_phoneme_spec(&self) -> PhonemeView {
        PhonemeView {
            symbol: self.phoneme@,
            grapheme: match self.grapheme {
                Some(g) => Some(g@),
                None => None,
            },
        }
    }

    /// An owned copy of the phoneme as edited.
    pub fn to_owned_phoneme(&self) -> (r: Phoneme)
        ensures
            r.phoneme@ == self.phoneme@,
            r.grapheme is Some <==> self.grapheme is Some,
            r.grapheme matches Some(g) ==> g@ == self.grapheme->Some_0@,
    {
        let grapheme = match &self.grapheme {
            Some(g) => Some(g.clone()),
            None => None,
        };
        Phoneme { phoneme: self.phoneme.clone(), grapheme }
    }

    /// Marks the phoneme for deletion.
    pub fn delete(&mut self)
        ensures
            final(self).rm,
            final(self).key == old(self).key,
            final(self).phoneme == old(self).phoneme,
            final(self).grapheme == old(self).grapheme,
    {
        self.rm = true;
    }
}

impl Language {
    /// Adds a phoneme under a fresh key, which is returned.
    pub fn phoneme_add(&mut self, phoneme: Phoneme) -> (k: PhonemeKey)
        requires
            old(self).wf(),
            old(self).keys_left() > 0,
        ensures
            final(self).wf(),
            final(self).keys_left() >= old(self).keys_left() - 1,
            !old(self)@.has_phoneme(k.id),
            final(self)@.phonemes == old(self)@.phonemes.push(
                PhonemeEntry { key: k.id, phoneme: phoneme@ },
            ),
            final(self)@.groups == old(self)@.groups,
            final(self)@.table == old(self)@.table,
    {
        let k = PhonemeKey { id: self.next_phoneme };
        let ghost pv = phoneme@;
        self.phonemes.push(PhonemeSlot { key: k, phoneme });
        self.next_phoneme = self.next_phoneme + 1;
        proof {
            assert(self@.phonemes =~= old(self)@.phonemes.push(PhonemeEntry { key: k.id, phoneme: pv }));
            assert(self@.groups =~= old(self)@.groups);
            assert(self@.table =~= old(self)@.table);
            let ok = old(self)@.phoneme_keys();
            let nk = self@.phoneme_keys();
            assert(nk =~= ok.push(k.id));
            assert forall|g: int, m: int|
                0 <= g < self@.groups.len() && 0 <= m < self@.groups[g].members.len() implies self@.has_phoneme(
                #[trigger] self@.groups[g].members[m],
            ) by {
                let x = self@.groups[g].members[m];
                assert(ok.contains(x));
                let j = choose|j: int| 0 <= j < ok.len() && ok[j] == x;
                assert(nk[j] == x);
            }
            if ok.contains(k.id) {
                let j = choose|j: int| 0 <= j < ok.len() && ok[j] == k.id;
                assert(self.phonemes@[j].key.id < old(self).next_phoneme);
            }
        }
        k
    }

    /// Adds an empty group with the given name under a fresh key, which is returned.
    pub fn group_add(&mut self, name: GroupName) -> (k: GroupKey)
        requires
            old(self).wf(),
            old(self).keys_left() > 0,
        ensures
            final(self).wf(),
            final(self).keys_left() >= old(self).keys_left() - 1,
            !old(self)@.has_group(k.id),
            final(self)@.groups == old(self)@.groups.push(
                GroupEntry { key: k.id, name: name@, members: Seq::empty() },
            ),
            final(self)@.phonemes == old(self)@.phonemes,
            final(self)@.table == old(self)@.table,
    {
        let k = GroupKey { id: self.next_group };
        let ghost nv = name@;
        self.groups.push(GroupSlot { key: k, group: Group { name, keys: Vec::new() } });
        self.next_group = self.next_group + 1;
        proof {
            assert(self.groups@.last().group.keys@.map_values(|k: PhonemeKey| k.id) =~= Seq::<u64>::empty());
            assert(self@.groups =~= old(self)@.groups.push(
                GroupEntry { key: k.id, name: nv, members: Seq::empty() },
            ));
            assert(self@.phonemes =~= old(self)@.phonemes);
            assert(self@.table =~= old(self)@.table);
            let ok = old(self)@.group_keys();
            assert(self@.group_keys() =~= ok.push(k.id));
            assert forall|g: int| 0 <= g < self@.groups.len() implies ascending(
                #[trigger] self@.groups[g].members,
            ) && forall|m: int|
                0 <= m < self@.groups[g].members.len() ==> self@.has_phoneme(
                    self@.groups[g].members[m],
                ) by {
                if g < old(self)@.groups.len() {
                    assert(self@.groups[g] == old(self)@.groups[g]);
                }
            }
            if ok.contains(k.id) {
                let j = choose|j: int| 0 <= j < ok.len() && ok[j] == k.id;
                assert(self.groups@[j].key.id < old(self).next_group);
            }
        }
        k
    }

    /// Makes the phoneme `phoneme` a member of the group `group`; false, and nothing
    /// changed, where either key is stale.
    pub fn group_member_add(&mut self, group: GroupKey, phoneme: PhonemeKey) -> (r: bool)
        requires
            old(self).wf(),
        ensures
            final(self).wf(),
            final(self).keys_left() == old(self).keys_left(),
            r == (old(self)@.has_group(group.id) && old(self)@.has_phoneme(phoneme.id)),
            !r ==> final(self)@ == old(self)@,
            r ==> {
                let gi = old(self)@.group_index(group.id);
                &&& final(self)@.phonemes == old(self)@.phonemes
                &&& final(self)@.table == old(self)@.table
                &&& final(self)@.groups.len() == old(self)@.groups.len()
                &&& forall|g: int|
                    0 <= g < old(self)@.groups.len() && g != gi ==> #[trigger] final(self)@.groups[g]
                        == old(self)@.groups[g]
                &&& final(self)@.groups[gi].key == group.id
                &&& final(self)@.groups[gi].name == old(self)@.groups[gi].name
                &&& forall|m: u64|
                    #[trigger] final(self)@.groups[gi].members.contains(m) <==> (m == phoneme.id
                        || old(self)@.groups[gi].members.contains(m))
            },
    {
        let gi = match self.group_slot(group.id) {
            Some(i) => i,
            None => {
                return false;
            },
        };
        match self.phoneme_slot(phoneme.id) {
            Some(pi) => {
                assert(self@.phoneme_keys()[pi as int] == phoneme.id);
                assert(self@.group_keys()[gi as int] == group.id);
            },
            None => {
                return false;
            },
        }
        let ghost old_members = self@.groups[gi as int].members;
        let n = self.groups[gi].group.keys.len();
        let mut p: usize = 0;
        while p < n && self.groups[gi].group.keys[p].id < phoneme.id
            invariant
                self.wf(),
                gi < self@.groups.len(),
                n == self@.groups[gi as int].members.len(),
                old_members == self@.groups[gi as int].members,
                p <= n,
                forall|j: int| 0 <= j < p ==> old_members[j] < phoneme.id,
            decreases n - p,
        {
            p += 1;
        }
        proof {
            assert(old_members == self.groups@[gi as int].group.keys@.map_values(|k: PhonemeKey| k.id));
        }
        if p < n && self.groups[gi].group.keys[p].id == phoneme.id {
            proof {
                assert(old_members[p as int] == phoneme.id);
            }
            return true;
        }
        let ghost before = self@;
        let mut slot = self.groups.remove(gi);
        slot.group.keys.insert(p, phoneme);
        self.groups.insert(gi, slot);
        proof {
            let nm = self@.groups[gi as int].members;
            assert(nm =~= old_members.insert(p as int, phoneme.id));
            assert forall|j: int| p <= j < n implies old_members[j] > phoneme.id by {
                if j > p {
                    assert(old_members[p as int] < old_members[j]);
                }
            }
            assert forall|j: int, k: int| 0 <= j < k < nm.len() implies nm[j] < nm[k] by {
                if k < p {
                    assert(nm[j] == old_members[j] && nm[k] == old_members[k]);
                } else if k == p {
                    assert(nm[j] == old_members[j]);
                } else if j < p {
                    assert(nm[j] == old_members[j] && nm[k] == old_members[k - 1]);
                } else if j == p {
                    assert(nm[k] == old_members[k - 1]);
                } else {
                    assert(nm[j] == old_members[j - 1] && nm[k] == old_members[k - 1]);
                }
            }
            assert(self@.phonemes =~= before.phonemes);
            assert(self@.table =~= before.table);
            assert forall|g: int| 0 <= g < self@.groups.len() && g != gi implies #[trigger] self@.groups[g]
                == before.groups[g] by {}
            assert(self@.group_keys() =~= before.group_keys());
            assert forall|m: u64| #[trigger] nm.contains(m) <==> (m == phoneme.id || old_members.contains(m)) by {
                if nm.contains(m) {
                    let j = choose|j: int| 0 <= j < nm.len() && nm[j] == m;
                    if j < p {
                        assert(old_members[j] == m);
                    } else if j > p {
                        assert(old_members[j - 1] == m);
                    }
                }
                if old_members.contains(m) {
                    let j = choose|j: int| 0 <= j < old_members.len() && old_members[j] == m;
                    if j < p {
                        assert(nm[j] == m);
                    } else {
                        assert(nm[j + 1] == m);
                    }
                }
                if m == phoneme.id {
                    assert(nm[p as int] == m);
                }
            }
            assert forall|g: int| 0 <= g < self@.groups.len() implies ascending(
                #[trigger] self@.groups[g].members,
            ) && forall|m: int|
                0 <= m < self@.groups[g].members.len() ==> self@.has_phoneme(
                    self@.groups[g].members[m],
                ) by {
                if g == gi {
                    assert forall|m: int| 0 <= m < nm.len() implies self@.has_phoneme(nm[m]) by {
                        if m < p {
                            assert(nm[m] == old_members[m]);
                        } else if m > p {
                            assert(nm[m] == old_members[m - 1]);
                        } else {
                            assert(self@.phoneme_keys()[self@.phoneme_index(phoneme.id)] == phoneme.id);
                        }
                    }
                }
            }
        }
        true
    }

    /// Removes the phoneme with key `key`, and removes it from every group.
    pub fn phoneme_remove(&mut self, key: PhonemeKey)
        requires
            old(self).wf(),
        ensures
            final(self).wf(),
            final(self).keys_left() == old(self).keys_left(),
            final(self)@.phonemes == if old(self)@.has_phoneme(key.id) {
                old(self)@.phonemes.remove(old(self)@.phoneme_index(key.id))
            } else {
                old(self)@.phonemes
            },
            final(self)@.table == old(self)@.table,
            final(self)@.groups.len() == old(self)@.groups.len(),
            forall|g: int|
                0 <= g < old(self)@.groups.len() ==> {
                    &&& #[trigger] final(self)@.groups[g].key == old(self)@.groups[g].key
                    &&& final(self)@.groups[g].name == old(self)@.groups[g].name
                    &&& forall|m: u64|
                        #[trigger] final(self)@.groups[g].members.contains(m) <==> (m != key.id
                            && old(self)@.groups[g].members.contains(m))
                },
    {
        let ghost ov = self@;
        match self.phoneme_slot(key.id) {
            Some(i) => {
                assert(ov.phoneme_keys()[i as int] == key.id);
                self.phonemes.remove(i);
                proof {
                    assert(self@.phonemes =~= ov.phonemes.remove(i as int));
                }
            },
            None => {
                assert(self@.phonemes =~= ov.phonemes);
            },
        }
        let ghost pv = self@.phonemes;
        proof {
            let ok = ov.phoneme_keys();
            let nk = self@.phoneme_keys();
            assert(nk =~= pv.map_values(|e: PhonemeEntry| e.key));
            if ov.has_phoneme(key.id) {
                let i = ov.phoneme_index(key.id);
                assert(nk =~= ok.remove(i));
                assert forall|a: int, b: int| 0 <= a < b < nk.len() implies nk[a] < nk[b] by {
                    if b < i {
                    } else if a < i {
                        assert(nk[b] == ok[b + 1]);
                    } else {
                        assert(nk[a] == ok[a + 1] && nk[b] == ok[b + 1]);
                    }
                }
                assert forall|m: u64| m != key.id && ov.has_phoneme(m) implies #[trigger] entry_keys(pv).contains(m) by {
                    let j = choose|j: int| 0 <= j < ok.len() && ok[j] == m;
                    if j < i {
                        assert(nk[j] == m);
                    } else {
                        assert(j != i);
                        assert(nk[j - 1] == m);
                    }
                }
            } else {
                assert(nk =~= ok);
                assert forall|m: u64| m != key.id && ov.has_phoneme(m) implies #[trigger] entry_keys(pv).contains(m) by {
                    assert(entry_keys(pv) == ok);
                }
            }
        }
        let n = self.groups.len();
        let mut g: usize = 0;
        while g < n
            invariant
                n == self.groups@.len(),
                n == ov.groups.len(),
                g <= n,
                self@.phonemes == pv,
                self@.table == ov.table,
                self.next_phoneme == old(self).next_phoneme,
                self.next_group == old(self).next_group,
                forall|i: int| 0 <= i < self.phonemes@.len() ==> self.phonemes@[i].key.id < self.next_phoneme,
                ascending(self@.phoneme_keys()),
                forall|m: u64| m != key.id && ov.has_phoneme(m) ==> #[trigger] entry_keys(pv).contains(m),
                ov.wf(),
                forall|i: int| 0 <= i < n ==> #[trigger] self@.groups[i].key == ov.groups[i].key,
                forall|i: int| 0 <= i < n ==> #[trigger] self@.groups[i].name == ov.groups[i].name,
                forall|i: int| g <= i < n ==> #[trigger] self@.groups[i] == ov.groups[i],
                forall|i: int|
                    0 <= i < g ==> ascending(#[trigger] self@.groups[i].members) && forall|m: u64|
                        #[trigger] self@.groups[i].members.contains(m) <==> (m != key.id
                            && ov.groups[i].members.contains(m)),
            decreases n - g,
        {
            let ghost before = self.groups@;
            let ghost vb = self@;
            let ghost om = ov.groups[g as int].members;
            assert(self@.groups[g as int] == ov.groups[g as int]);
            assert(om == before[g as int].group.keys@.map_values(|k: PhonemeKey| k.id));
            let mut slot = self.groups.remove(g);
            assert(om == slot.group.keys@.map_values(|k: PhonemeKey| k.id));
            let mut j: usize = 0;
            while j < slot.group.keys.len() && slot.group.keys[j].id != key.id
                invariant
                    j <= slot.group.keys@.len(),
                    om == slot.group.keys@.map_values(|k: PhonemeKey| k.id),
                    forall|x: int| 0 <= x < j ==> om[x] != key.id,
                decreases slot.group.keys@.len() - j,
            {
                j += 1;
            }
            if j < slot.group.keys.len() {
                slot.group.keys.remove(j);
            }
            let ghost nm = slot.group.keys@.map_values(|k: PhonemeKey| k.id);
            proof {
                assert(ascending(om));
                if j < om.len() {
                    assert(nm =~= om.remove(j as int));
                    assert forall|a: int, b: int| 0 <= a < b < nm.len() implies nm[a] < nm[b] by {
                        if b < j {
                        } else if a < j {
                            assert(nm[b] == om[b + 1]);
                        } else {
                            assert(nm[a] == om[a + 1] && nm[b] == om[b + 1]);
                        }
                    }
                    assert forall|m: u64| #[trigger] nm.contains(m) <==> (m != key.id && om.contains(m)) by {
                        if nm.contains(m) {
                            let x = choose|x: int| 0 <= x < nm.len() && nm[x] == m;
                            if x < j {
                                assert(om[x] == m);
                            } else {
                                assert(om[x + 1] == m);
                                assert(om[j as int] < om[x + 1]);
                            }
                        }
                        if m != key.id && om.contains(m) {
                            let x = choose|x: int| 0 <= x < om.len() && om[x] == m;
                            if x < j {
                                assert(nm[x] == m);
                            } else {
                                assert(x != j);
                                assert(nm[x - 1] == m);
                            }
                        }
                    }
                } else {
                    assert(nm =~= om);
                    assert forall|m: u64| #[trigger] nm.contains(m) <==> (m != key.id && om.contains(m)) by {
                        if om.contains(m) {
                            let x = choose|x: int| 0 <= x < om.len() && om[x] == m;
                            assert(om[x] != key.id);
                        }
                    }
                }
            }
            self.groups.insert(g, slot);
            proof {
                assert(self.groups@ =~= before.update(g as int, self.groups@[g as int]));
                assert forall|i: int| 0 <= i < n && i != g implies #[trigger] self@.groups[i] == vb.groups[i] by {
                    assert(self.groups@[i] == before[i]);
                }
                assert(self@.groups[g as int].key == vb.groups[g as int].key);
                assert(self@.groups[g as int].name == vb.groups[g as int].name);
            }
            g += 1;
        }
        proof {
            assert forall|i: int| 0 <= i < self.groups@.len() implies self.groups@[i].key.id < self.next_group by {
                assert(self@.groups[i].key == ov.groups[i].key);
                assert(ov.groups[i].key == old(self).groups@[i].key.id);
            }
            assert(self@.group_keys() =~= ov.group_keys());
            assert forall|i: int| 0 <= i < self@.groups.len() implies ascending(
                #[trigger] self@.groups[i].members,
            ) && forall|m: int|
                0 <= m < self@.groups[i].members.len() ==> self@.has_phoneme(
                    self@.groups[i].members[m],
                ) by {
                assert forall|m: int| 0 <= m < self@.groups[i].members.len() implies self@.has_phoneme(
                    self@.groups[i].members[m],
                ) by {
                    let x = self@.groups[i].members[m];
                    assert(self@.groups[i].members.contains(x));
                    assert(ov.groups[i].members.contains(x));
                    let y = choose|y: int| 0 <= y < ov.groups[i].members.len() && ov.groups[i].members[y] == x;
                    assert(ov.has_phoneme(ov.groups[i].members[y]));
                }
            }
        }
    }

    /// Removes the group with key `key`; its phonemes stay.
    pub fn group_remove(&mut self, key: GroupKey)
        requires
            old(self).wf(),
        ensures
            final(self).wf(),
            final(self).keys_left() == old(self).keys_left(),
            final(self)@.groups == if old(self)@.has_group(key.id) {
                old(self)@.groups.remove(old(self)@.group_index(key.id))
            } else {
                old(self)@.groups
            },
            final(self)@.phonemes == old(self)@.phonemes,
            final(self)@.table == old(self)@.table,
    {
        let ghost ov = self@;
        match self.group_slot(key.id) {
            Some(i) => {
                assert(ov.group_keys()[i as int] == key.id);
                self.groups.remove(i);
                proof {
                    assert(self@.groups =~= ov.groups.remove(i as int));
                    let ok = ov.group_keys();
                    let nk = self@.group_keys();
                    assert(nk =~= ok.remove(i as int));
                    assert forall|a: int, b: int| 0 <= a < b < nk.len() implies nk[a] < nk[b] by {
                        if b < i {
                        } else if a < i {
                            assert(nk[b] == ok[b + 1]);
                        } else {
                            assert(nk[a] == ok[a + 1] && nk[b] == ok[b + 1]);
                        }
                    }
                    assert forall|g: int| 0 <= g < self@.groups.len() implies ascending(
                        #[trigger] self@.groups[g].members,
                    ) && forall|m: int|
                        0 <= m < self@.groups[g].members.len() ==> self@.has_phoneme(
                            self@.groups[g].members[m],
                        ) by {
                        if g < i {
                            assert(self@.groups[g] == ov.groups[g]);
                        } else {
                            assert(self@.groups[g] == ov.groups[g + 1]);
                        }
                    }
                    assert forall|j: int| 0 <= j < self.groups@.len() implies self.groups@[j].key.id < self.next_group by {
                        if j < i {
                            assert(self.groups@[j] == old(self).groups@[j]);
                        } else {
                            assert(self.groups@[j] == old(self).groups@[j + 1]);
                        }
                    }
                    assert(self@.phonemes =~= ov.phonemes);
                    assert(self@.table =~= ov.table);
                }
            },
            None => {},
        }
    }

    /// The phoneme with key `key`, borrowed; `None` where the key is stale.
    pub fn phoneme_ref(&self, key: PhonemeKey) -> (r: Option<PhonemeRef<'_>>)
        requires
            self.wf(),
        ensures
            match r {
                Some(p) => {
                    &&& self@.has_phoneme(key.id)
                    &&& p.key == key
                    &&& p.phoneme@ == self@.phoneme(key.id).symbol
                    &&& (p.grapheme matches Some(g) ==> self@.phoneme(key.id).grapheme == Some(g@))
                    &&& (p.grapheme is None ==> self@.phoneme(key.id).grapheme is None)
                },
                None => !self@.has_phoneme(key.id),
            },
    {
        match self.phoneme_get(key) {
            Some(p) => {
                let grapheme = match &p.grapheme {
                    Some(g) => Some(g),
                    None => None,
                };
                Some(PhonemeRef { key, phoneme: &p.phoneme, grapheme })
            },
            None => None,
        }
    }

    /// An editable copy of the phoneme with key `key`, not marked for deletion; `None`
    /// where the key is stale.
    pub fn phoneme_ref_mut(&self, key: PhonemeKey) -> (r: Option<PhonemeRefMut>)
        requires
            self.wf(),
        ensures
            match r {
                Some(p) => {
                    &&& self@.has_phoneme(key.id)
                    &&& p.key == key
                    &&& !p.rm
                    &&& p.phoneme@ == self@.phoneme(key.id).symbol
                    &&& (p.grapheme matches Some(g) ==> self@.phoneme(key.id).grapheme == Some(g@))
                    &&& (p.grapheme is None ==> self@.phoneme(key.id).grapheme is None)
                },
                None => !self@.has_phoneme(key.id),
            },
    {
        match self.phoneme_get(key) {
            Some(p) => {
                let q = p.duplicate();
                Some(PhonemeRefMut { key, phoneme: q.phoneme, grapheme: q.grapheme, rm: false })
            },
            None => None,
        }
    }

    /// Applies an edit: removes the phoneme (from every group too) where it was marked for
    /// deletion, and otherwise stores its new symbol and grapheme under its key.
    pub fn phoneme_commit(&mut self, edit: PhonemeRefMut)
        requires
            old(self).wf(),
        ensures
            final(self).wf(),
            final(self).keys_left() == old(self).keys_left(),
            final(self)@.table == old(self)@.table,
            !edit.rm ==> final(self)@.groups == old(self)@.groups,
            !edit.rm ==> final(self)@.phonemes == if old(self)@.has_phoneme(edit.key.id) {
                old(self)@.phonemes.update(
                    old(self)@.phoneme_index(edit.key.id),
                    PhonemeEntry { key: edit.key.id, phoneme: edit.to_owned_phoneme_spec() },
                )
            } else {
                old(self)@.phonemes
            },
            edit.rm ==> !final(self)@.has_phoneme(edit.key.id),
            edit.rm ==> final(self)@.groups.len() == old(self)@.groups.len(),
            edit.rm ==> forall|g: int|
                0 <= g < old(self)@.groups.len() ==> {
                    &&& #[trigger] final(self)@.groups[g].key == old(self)@.groups[g].key
                    &&& final(self)@.groups[g].name == old(self)@.groups[g].name
                    &&& forall|m: u64|
                        #[trigger] final(self)@.groups[g].members.contains(m) <==> (m != edit.key.id
                            && old(self)@.groups[g].members.contains(m))
                },
            edit.rm ==> final(self)@.phonemes == if old(self)@.has_phoneme(edit.key.id) {
                old(self)@.phonemes.remove(old(self)@.phoneme_index(edit.key.id))
            } else {
                old(self)@.phonemes
            },
    {
        if edit.rm {
            let ghost ov = self@;
            self.phoneme_remove(edit.key);
            proof {
                if self@.has_phoneme(edit.key.id) {
                    let keys = self@.phoneme_keys();
                    let j = choose|j: int| 0 <= j < keys.len() && keys[j] == edit.key.id;
                    let ok = ov.phoneme_keys();
                    let i = ov.phoneme_index(edit.key.id);
                    if ov.has_phoneme(edit.key.id) {
                        assert(ok[i] == edit.key.id);
                        if j < i {
                            assert(keys[j] == ok[j]);
                            assert(ok[j] < ok[i]);
                        } else {
                            assert(keys[j] == ok[j + 1]);
                            assert(ok[i] < ok[j + 1]);
                        }
                    } else {
                        assert(keys[j] == ok[j]);
                    }
                }
            }
        } else {
            match self.phoneme_slot(edit.key.id) {
                Some(i) => {
                    let ghost ov = self@;
                    let ghost pv = edit.to_owned_phoneme_spec();
                    assert(ov.phoneme_keys()[i as int] == edit.key.id);
                    let slot = PhonemeSlot {
                        key: edit.key,
                        phoneme: Phoneme { phoneme: edit.phoneme, grapheme: edit.grapheme },
                    };
                    self.phonemes.set(i, slot);
                    proof {
                        assert(self@.phonemes =~= ov.phonemes.update(
                            i as int,
                            PhonemeEntry { key: edit.key.id, phoneme: pv },
                        ));
                        assert(self@.phoneme_keys() =~= ov.phoneme_keys());
                        assert(self@.groups =~= ov.groups);
                        assert(self@.table =~= ov.table);
                    }
                },
                None => {},
            }
        }
    }

    /// The keys of the groups, in iteration order.
    pub fn groups(&self) -> (r: Vec<GroupKey>)
        ensures
            r@.len() == self@.groups.len(),
            forall|i: int| 0 <= i < r@.len() ==> #[trigger] r@[i].id == self@.groups[i].key,
    {
        let mut r: Vec<GroupKey> = Vec::new();
        let mut i: usize = 0;
        while i < self.groups.len()
            invariant
                i <= self.groups@.len(),
                r@.len() == i,
                forall|j: int| 0 <= j < i ==> #[trigger] r@[j].id == self@.groups[j].key,
            decreases self.groups@.len() - i,
        {
            r.push(self.groups[i].key);
            i += 1;
        }
        r
    }

    /// The keys of the members of the group `key`, in ascending order; `None` where the key
    /// is stale.
    pub fn phonemes(&self, key: GroupKey) -> (r: Option<Vec<PhonemeKey>>)
        requires
            self.wf(),
        ensures
            match r {
                Some(v) => self@.has_group(key.id) && v@.map_values(|k: PhonemeKey| k.id)
                    == self@.groups[self@.group_index(key.id)].members,
                None => !self@.has_group(key.id),
            },
    {
        match self.group_slot(key.id) {
            Some(i) => {
                assert(self@.group_keys()[i as int] == key.id);
                let keys = &self.groups[i].group.keys;
                let mut v: Vec<PhonemeKey> = Vec::new();
                let mut j: usize = 0;
                while j < keys.len()
                    invariant
                        j <= keys@.len(),
                        v@ == keys@.subrange(0, j as int),
                    decreases keys@.len() - j,
                {
                    v.push(keys[j]);
                    proof {
                        assert(v@ =~= keys@.subrange(0, j + 1));
                    }
                    j += 1;
                }
                proof {
                    assert(v@ =~= keys@);
                }
                Some(v)
            },
            None => None,
        }
    }

    /// The key of the phoneme with symbol `sym`, if there is one.
    fn find_symbol(&self, sym: &String) -> (r: Option<PhonemeKey>)
        requires
            self.wf(),
        ensures
            match r {
                Some(k) => self@.has_phoneme(k.id) && self@.phoneme(k.id).symbol == sym@,
                None => !symbol_known(self@, sym@),
            },
    {
        let mut i: usize = 0;
        while i < self.phonemes.len()
            invariant
                self.wf(),
                i <= self.phonemes@.len(),
                forall|j: int| 0 <= j < i ==> self@.phonemes[j].phoneme.symbol != sym@,
            decreases self.phonemes@.len() - i,
        {
            if self.phonemes[i].phoneme.phoneme == *sym {
                let k = self.phonemes[i].key;
                proof {
                    let keys = self@.phoneme_keys();
                    assert(keys[i as int] == k.id);
                    let j = keys.index_of(k.id);
                    assert(keys[j] == k.id);
                    if j < i {
                        assert(keys[j] < keys[i as int]);
                    } else if j > i {
                        assert(keys[i as int] < keys[j]);
                    }
                }
                return Some(k);
            }
            i += 1;
        }
        None
    }

    /// The inventory of raw category data: a group for each category, in order, holding
    /// exactly the phonemes it lists; a phoneme for each distinct symbol, in order of first
    /// appearance and with the grapheme it first appears with, shared by every group that
    /// lists it; the import table holds the same phonemes.
    pub fn from_raw(raw: &LanguageRaw) -> (r: Language)
        requires
            raw_size(raw.0@) < u64::MAX,
        ensures
            r.wf(),
            r@.groups.len() == raw.0@.len(),
            forall|g: int| 0 <= g < raw.0@.len() ==> (#[trigger] r@.groups[g]).name == raw.0@[g].0@,
            forall|g: int, e: int|
                0 <= g < raw.0@.len() && 0 <= e < raw.0@[g].1@.len() ==> member_with_symbol(
                    r@,
                    g,
                    (#[trigger] raw.0@[g].1@[e]).0@,
                ),
            forall|g: int, m: int|
                0 <= g < raw.0@.len() && 0 <= m < r@.groups[g].members.len() ==> listed(
                    raw.0@[g].1@,
                    raw.0@[g].1@.len() as int,
                    r@.phoneme(#[trigger] r@.groups[g].members[m]).symbol,
                ),
            entry_views(r@.phonemes) == distinct_first(flat(raw.0@)),
            r@.table == distinct_first(flat(raw.0@)),
    {
        let mut lang = Language::new();
        let mut g: usize = 0;
        proof {
            assert(raw.0@.subrange(0, 0) =~= Seq::empty());
            lemma_raw_size_prefix(raw.0@, 0);
            assert(entry_views(lang@.phonemes) =~= Seq::<PhonemeView>::empty());
            assert(lang@.table =~= Seq::<PhonemeView>::empty());
        }
        while g < raw.0.len()
            invariant
                lang.wf(),
                g <= raw.0@.len(),
                lang@.groups.len() == g,
                raw_size(raw.0@) < u64::MAX,
                lang.keys_left() >= u64::MAX - raw_size(raw.0@.subrange(0, g as int)),
                raw_size(raw.0@.subrange(0, g as int)) <= raw_size(raw.0@),
                forall|h: int| 0 <= h < g ==> (#[trigger] lang@.groups[h]).name == raw.0@[h].0@,
                forall|h: int, e: int|
                    0 <= h < g && 0 <= e < raw.0@[h].1@.len() ==> member_with_symbol(
                        lang@,
                        h,
                        (#[trigger] raw.0@[h].1@[e]).0@,
                    ),
                forall|h: int, m: int|
                    0 <= h < g && 0 <= m < lang@.groups[h].members.len() ==> listed(
                        raw.0@[h].1@,
                        raw.0@[h].1@.len() as int,
                        lang@.phoneme(#[trigger] lang@.groups[h].members[m]).symbol,
                    ),
                entry_views(lang@.phonemes) == distinct_first(flat(raw.0@.subrange(0, g as int))),
                lang@.table == distinct_first(flat(raw.0@.subrange(0, g as int))),
            decreases raw.0@.len() - g,
        {
            let ghost before = lang@;
            let name = &raw.0[g].0;
            let entries = &raw.0[g].1;
            let ghost base = flat(raw.0@.subrange(0, g as int));
            proof {
                lemma_raw_size_step(raw.0@, g as int);
                lemma_raw_size_prefix(raw.0@, g + 1);
                assert(raw.0@.subrange(0, g + 1).subrange(0, g as int) =~= raw.0@.subrange(0, g as int));
                assert(flat(raw.0@.subrange(0, g + 1)) == base + raw.0@[g as int].1@.map_values(|x: (String, Option<String>)| raw_view(x)));
                assert(base + entries@.subrange(0, 0).map_values(|x: (String, Option<String>)| raw_view(x)) =~= base);
            }
            let gk = lang.group_add(name.duplicate());
            proof {
                assert(lang@.groups[g as int].key == gk.id);
                lemma_group_last(lang@, g as int);
                assert(lang@.phonemes == before.phonemes);
                assert forall|h: int, e: int|
                    0 <= h < g && 0 <= e < raw.0@[h].1@.len() implies member_with_symbol(
                        lang@,
                        h,
                        (#[trigger] raw.0@[h].1@[e]).0@,
                    ) by {
                    assert(lang@.groups[h] == before.groups[h]);
                    assert(member_with_symbol(before, h, raw.0@[h].1@[e].0@));
                    let m = choose|m: int|
                        0 <= m < before.groups[h].members.len() && before.phoneme(before.groups[h].members[m]).symbol
                            == raw.0@[h].1@[e].0@;
                    assert(lang@.phoneme(lang@.groups[h].members[m]).symbol == raw.0@[h].1@[e].0@);
                }
                assert forall|h: int, m: int|
                    0 <= h < g && 0 <= m < lang@.groups[h].members.len() implies listed(
                        raw.0@[h].1@,
                        raw.0@[h].1@.len() as int,
                        lang@.phoneme(#[trigger] lang@.groups[h].members[m]).symbol,
                    ) by {
                    assert(lang@.groups[h] == before.groups[h]);
                    assert(before.groups[h].members[m] == lang@.groups[h].members[m]);
                }
            }
            let mut e: usize = 0;
            while e < entries.len()
                invariant
                    lang.wf(),
                    g < raw.0@.len(),
                    entries == raw.0@[g as int].1,
                    e <= entries@.len(),
                    lang@.groups.len() == g + 1,
                    lang@.groups[g as int].key == gk.id,
                    lang@.group_index(gk.id) == g,
                    lang@.has_group(gk.id),
                    lang.keys_left() >= u64::MAX - raw_size(raw.0@.subrange(0, g as int)) - 1 - e,
                    raw_size(raw.0@.subrange(0, g + 1)) == raw_size(raw.0@.subrange(0, g as int)) + 1
                        + entries@.len(),
                    raw_size(raw.0@.subrange(0, g + 1)) <= raw_size(raw.0@),
                    raw_size(raw.0@) < u64::MAX,
                    forall|h: int| 0 <= h <= g ==> (#[trigger] lang@.groups[h]).name == raw.0@[h].0@,
                    forall|h: int, x: int|
                        (0 <= h < g && 0 <= x < raw.0@[h].1@.len()) || (h == g && 0 <= x < e)
                            ==> member_with_symbol(lang@, h, (#[trigger] raw.0@[h].1@[x]).0@),
                    forall|h: int, m: int|
                        0 <= h <= g && 0 <= m < lang@.groups[h].members.len() ==> listed(
                            raw.0@[h].1@,
                            if h == g { e as int } else { raw.0@[h].1@.len() as int },
                            lang@.phoneme(#[trigger] lang@.groups[h].members[m]).symbol,
                        ),
                    entry_views(lang@.phonemes) == distinct_first(base + entries@.subrange(0, e as int).map_values(|x: (String, Option<String>)| raw_view(x))),
                    lang@.table == entry_views(lang@.phonemes),
                decreases entries@.len() - e,
            {
                let ghost mid = lang@;
                let ghost pre = base + entries@.subrange(0, e as int).map_values(|x: (String, Option<String>)| raw_view(x));
                let ghost item = raw_view(entries@[e as int]);
                proof {
                    assert(base + entries@.subrange(0, e + 1).map_values(|x: (String, Option<String>)| raw_view(x)) =~= pre.push(item));
                    assert(pre.push(item).subrange(0, pre.len() as int) =~= pre);
                    lemma_views_known(mid, item.symbol);
                }
                let sym = &entries[e].0;
                let pk = match lang.find_symbol(sym) {
                    Some(k) => k,
                    None => {
                        let grapheme = match &entries[e].1 {
                            Some(gr) => Some(gr.clone()),
                            None => None,
                        };
                        let p = Phoneme { phoneme: sym.clone(), grapheme };
                        let copy = p.duplicate();
                        let k = lang.phoneme_add(p);
                        lang.phoneme_table.push(copy);
                        proof {
                            assert(lang@.phonemes.subrange(0, mid.phonemes.len() as int) =~= mid.phonemes);
                            lemma_phoneme_after_push(mid, lang@);
                            assert(lang@.phonemes[lang@.phonemes.len() - 1].key == k.id);
                            lemma_phoneme_last(lang@);
                            assert(lang@.phoneme_keys()[lang@.phonemes.len() - 1] == k.id);
                            assert(entry_views(lang@.phonemes) =~= entry_views(mid.phonemes).push(item));
                            assert(lang@.table =~= mid.table.push(item));
                        }
                        k
                    },
                };
                let ghost mid2 = lang@;
                proof {
                    assert(mid2.groups == mid.groups);
                    assert(entry_views(lang@.phonemes) == distinct_first(pre.push(item)));
                    assert forall|k: u64| mid.has_phoneme(k) implies #[trigger] mid2.phoneme(k) == mid.phoneme(k) by {
                        if mid2.phonemes != mid.phonemes {
                            lemma_phoneme_after_push(mid, mid2);
                        }
                    }
                }
                let added = lang.group_member_add(gk, pk);
                proof {
                    assert(added);
                    let gi = g as int;
                    assert(lang@.phonemes == mid2.phonemes);
                    assert forall|h: int, x: int|
                        (0 <= h < g && 0 <= x < raw.0@[h].1@.len()) || (h == g && 0 <= x <= e)
                            implies member_with_symbol(lang@, h, (#[trigger] raw.0@[h].1@[x]).0@) by {
                        if h == g && x == e {
                            assert(lang@.groups[gi].members.contains(pk.id));
                            let m = choose|m: int| 0 <= m < lang@.groups[gi].members.len() && lang@.groups[gi].members[m] == pk.id;
                            assert(lang@.phoneme(lang@.groups[h].members[m]).symbol == raw.0@[h].1@[x].0@);
                        } else {
                            assert(member_with_symbol(mid, h, raw.0@[h].1@[x].0@));
                            let m = choose|m: int|
                                0 <= m < mid.groups[h].members.len() && mid.phoneme(mid.groups[h].members[m]).symbol
                                    == raw.0@[h].1@[x].0@;
                            let k = mid.groups[h].members[m];
                            assert(mid.has_phoneme(k));
                            assert(mid2.phoneme(k) == mid.phoneme(k));
                            assert(mid2.groups[h].members.contains(k));
                            assert(lang@.groups[h].members.contains(k));
                            let m2 = choose|m2: int| 0 <= m2 < lang@.groups[h].members.len() && lang@.groups[h].members[m2] == k;
                            assert(lang@.phoneme(lang@.groups[h].members[m2]).symbol == raw.0@[h].1@[x].0@);
                        }
                    }
                    assert forall|h: int, m: int|
                        0 <= h <= g && 0 <= m < lang@.groups[h].members.len() implies listed(
                            raw.0@[h].1@,
                            if h == g { e + 1 } else { raw.0@[h].1@.len() as int },
                            lang@.phoneme(#[trigger] lang@.groups[h].members[m]).symbol,
                        ) by {
                        let k = lang@.groups[h].members[m];
                        if h == g {
                            assert(lang@.groups[gi].members.contains(k));
                            if k == pk.id {
                                assert(entries@[e as int].0@ == lang@.phoneme(k).symbol);
                            } else {
                                assert(mid.groups[gi].members.contains(k));
                                let m0 = choose|m0: int| 0 <= m0 < mid.groups[gi].members.len() && mid.groups[gi].members[m0] == k;
                                assert(listed(raw.0@[h].1@, e as int, mid.phoneme(mid.groups[h].members[m0]).symbol));
                                assert(mid.has_phoneme(k));
                                assert(mid2.phoneme(k) == mid.phoneme(k));
                                let x = choose|x: int| 0 <= x < e && raw.0@[h].1@[x].0@ == mid.phoneme(k).symbol;
                                assert(raw.0@[h].1@[x].0@ == lang@.phoneme(k).symbol);
                            }
                        } else {
                            assert(lang@.groups[h] == mid.groups[h]);
                            assert(mid.groups[h].members[m] == k);
                            assert(mid.has_phoneme(k));
                            assert(mid2.phoneme(k) == mid.phoneme(k));
                        }
                    }
                    assert forall|h: int| 0 <= h <= g implies (#[trigger] lang@.groups[h]).name == raw.0@[h].0@ by {
                        assert(mid2.groups[h].name == mid.groups[h].name);
                    }
                    lemma_group_last(lang@, gi);
                }
                e += 1;
            }
            proof {
                assert(entries@.subrange(0, e as int) =~= entries@);
            }
            g += 1;
        }
        proof {
            assert(raw.0@.subrange(0, g as int) =~= raw.0@);
        }
        lang
    }

    /// The keys of all phonemes, in ascending order.
    pub fn phonemes_all(&self) -> (r: Vec<PhonemeKey>)
        ensures
            r@.len() == self@.phonemes.len(),
            forall|j: int| 0 <= j < r@.len() ==> #[trigger] r@[j].id == self@.phoneme_keys()[j],
    {
        let mut r: Vec<PhonemeKey> = Vec::new();
        let mut i: usize = 0;
        while i < self.phonemes.len()
            invariant
                i <= self.phonemes@.len(),
                r@.len() == i,
                forall|j: int| 0 <= j < i ==> #[trigger] r@[j].id == self@.phoneme_keys()[j],
            decreases self.phonemes@.len() - i,
        {
            assert(self@.phoneme_keys()[i as int] == self.phonemes@[i as int].key.id);
            r.push(self.phonemes[i].key);
            i += 1;
        }
        r
    }

    /// Gives the group `key` a new name; false, and nothing changed, where the key is stale.
    pub fn group_rename(&mut self, key: GroupKey, name: GroupName) -> (r: bool)
        requires
            old(self).wf(),
        ensures
            final(self).wf(),
            final(self).keys_left() == old(self).keys_left(),
            r == old(self)@.has_group(key.id),
            !r ==> final(self)@ == old(self)@,
            r ==> final(self)@.groups == old(self)@.groups.update(
                old(self)@.group_index(key.id),
                GroupEntry { name: name@, ..old(self)@.groups[old(self)@.group_index(key.id)] },
            ),
            final(self)@.phonemes == old(self)@.phonemes,
            final(self)@.table == old(self)@.table,
    {
        let ghost ov = self@;
        match self.group_slot(key.id) {
            Some(i) => {
                assert(ov.group_keys()[i as int] == key.id);
                let ghost before = self.groups@;
                let ghost nv = name@;
                let mut slot = self.groups.remove(i);
                slot.group.name = name;
                self.groups.insert(i, slot);
                proof {
                    assert(self.groups@ =~= before.update(i as int, self.groups@[i as int]));
                    assert(self@.groups =~= ov.groups.update(i as int, GroupEntry { name: nv, ..ov.groups[i as int] }));
                    assert(self@.phonemes =~= ov.phonemes);
                    assert(self@.table =~= ov.table);
                    assert(self@.group_keys() =~= ov.group_keys());
                    assert forall|g: int| 0 <= g < self@.groups.len() implies ascending(
                        #[trigger] self@.groups[g].members,
                    ) && forall|m: int|
                        0 <= m < self@.groups[g].members.len() ==> self@.has_phoneme(
                            self@.groups[g].members[m],
                        ) by {
                        assert(self@.groups[g].members == ov.groups[g].members);
                    }
                    assert forall|j: int| 0 <= j < self.groups@.len() implies self.groups@[j].key.id < self.next_group by {
                        assert(self.groups@[j].key == before[j].key);
                    }
                }
                true
            },
            None => false,
        }
    }

    /// Takes the phoneme `phoneme` out of the group `key`; false, and nothing changed,
    /// where the group's key is stale.
    pub fn group_member_remove(&mut self, key: GroupKey, phoneme: PhonemeKey) -> (r: bool)
        requires
            old(self).wf(),
        ensures
            final(self).wf(),
            final(self).keys_left() == old(self).keys_left(),
            r == old(self)@.has_group(key.id),
            !r ==> final(self)@ == old(self)@,
            final(self)@.phonemes == old(self)@.phonemes,
            final(self)@.table == old(self)@.table,
            final(self)@.groups.len() == old(self)@.groups.len(),
            r ==> {
                let gi = old(self)@.group_index(key.id);
                &&& forall|g: int|
                    0 <= g < old(self)@.groups.len() && g != gi ==> #[trigger] final(self)@.groups[g]
                        == old(self)@.groups[g]
                &&& final(self)@.groups[gi].key == key.id
                &&& final(self)@.groups[gi].name == old(self)@.groups[gi].name
                &&& forall|m: u64|
                    #[trigger] final(self)@.groups[gi].members.contains(m) <==> (m != phoneme.id
                        && old(self)@.groups[gi].members.contains(m))
            },
    {
        let ghost ov = self@;
        let g = match self.group_slot(key.id) {
            Some(i) => i,
            None => {
                return false;
            },
        };
        assert(ov.group_keys()[g as int] == key.id);
        let ghost before = self.groups@;
        let ghost om = ov.groups[g as int].members;
        assert(om == before[g as int].group.keys@.map_values(|k: PhonemeKey| k.id));
        let mut slot = self.groups.remove(g);
        let mut j: usize = 0;
        while j < slot.group.keys.len() && slot.group.keys[j].id != phoneme.id
            invariant
                j <= slot.group.keys@.len(),
                om == slot.group.keys@.map_values(|k: PhonemeKey| k.id),
                forall|x: int| 0 <= x < j ==> om[x] != phoneme.id,
            decreases slot.group.keys@.len() - j,
        {
            j += 1;
        }
        if j < slot.group.keys.len() {
            slot.group.keys.remove(j);
        }
        let ghost nm = slot.group.keys@.map_values(|k: PhonemeKey| k.id);
        proof {
            assert(ascending(om));
            if j < om.len() {
                assert(nm =~= om.remove(j as int));
                assert forall|a: int, b: int| 0 <= a < b < nm.len() implies nm[a] < nm[b] by {
                    if b < j {
                    } else if a < j {
                        assert(nm[b] == om[b + 1]);
                    } else {
                        assert(nm[a] == om[a + 1] && nm[b] == om[b + 1]);
                    }
                }
                assert forall|m: u64| #[trigger] nm.contains(m) <==> (m != phoneme.id && om.contains(m)) by {
                    if nm.contains(m) {
                        let x = choose|x: int| 0 <= x < nm.len() && nm[x] == m;
                        if x < j {
                            assert(om[x] == m);
                        } else {
                            assert(om[x + 1] == m);
                            assert(om[j as int] < om[x + 1]);
                        }
                    }
                    if m != phoneme.id && om.contains(m) {
                        let x = choose|x: int| 0 <= x < om.len() && om[x] == m;
                        if x < j {
                            assert(nm[x] == m);
                        } else {
                            assert(x != j);
                            assert(nm[x - 1] == m);
                        }
                    }
                }
            } else {
                assert(nm =~= om);
                assert forall|m: u64| #[trigger] nm.contains(m) <==> (m != phoneme.id && om.contains(m)) by {
                    if om.contains(m) {
                        let x = choose|x: int| 0 <= x < om.len() && om[x] == m;
                        assert(om[x] != phoneme.id);
                    }
                }
            }
        }
        self.groups.insert(g, slot);
        proof {
            assert(self.groups@ =~= before.update(g as int, self.groups@[g as int]));
            assert(self@.phonemes =~= ov.phonemes);
            assert(self@.table =~= ov.table);
            assert(self@.group_keys() =~= ov.group_keys());
            assert forall|h: int| 0 <= h < self@.groups.len() && h != g implies #[trigger] self@.groups[h]
                == ov.groups[h] by {}
            assert forall|h: int| 0 <= h < self@.groups.len() implies ascending(
                #[trigger] self@.groups[h].members,
            ) && forall|m: int|
                0 <= m < self@.groups[h].members.len() ==> self@.has_phoneme(
                    self@.groups[h].members[m],
                ) by {
                if h == g {
                    assert forall|m: int| 0 <= m < nm.len() implies self@.has_phoneme(nm[m]) by {
                        assert(nm.contains(nm[m]));
                        let y = choose|y: int| 0 <= y < om.len() && om[y] == nm[m];
                        assert(ov.has_phoneme(om[y]));
                    }
                }
            }
            assert forall|x: int| 0 <= x < self.groups@.len() implies self.groups@[x].key.id < self.next_group by {
                assert(self.groups@[x].key == before[x].key);
            }
        }
        true
    }

    /// The number of groups.
    pub fn group_count(&self) -> (r: usize)
        ensures
            r == self@.groups.len(),
    {
        self.groups.len()
    }

    /// The key and name of the group at position `i` of the iteration order.
    pub fn group_at(&self, i: usize) -> (r: (GroupKey, &GroupName))
        requires
            i < self@.groups.len(),
        ensures
            r.0.id == self@.groups[i as int].key,
            r.1@ == self@.groups[i as int].name,
    {
        let s = &self.groups[i];
        (s.key, &s.group.name)
    }

    /// Whether a phoneme of the import table has the symbol `sym`.
    pub fn table_has_symbol(&self, sym: &String) -> (r: bool)
        ensures
            r == self@.table_has(sym@),
    {
        let mut i: usize = 0;
        while i < self.phoneme_table.len()
            invariant
                i <= self.phoneme_table@.len(),
                forall|j: int| 0 <= j < i ==> self@.table[j].symbol != sym@,
            decreases self.phoneme_table@.len() - i,
        {
            if self.phoneme_table[i].phoneme == *sym {
                assert(self@.table[i as int].symbol == sym@);
                return true;
            }
            i += 1;
        }
        false
    }

    /// The number of members of the group at position `i`.
    pub fn member_count(&self, i: usize) -> (r: usize)
        requires
            i < self@.groups.len(),
        ensures
            r == self@.groups[i as int].members.len(),
    {
        self.groups[i].group.keys.len()
    }

    /// The position of the phoneme with key `k`, if there is one.
    fn phoneme_slot(&self, k: u64) -> (r: Option<usize>)
        requires
            self.wf(),
        ensures
            match r {
                Some(i) => i < self@.phonemes.len() && self@.phonemes[i as int].key == k && i
                    == self@.phoneme_index(k),
                None => !self@.has_phoneme(k),
            },
    {
        let mut i: usize = 0;
        while i < self.phonemes.len()
            invariant
                self.wf(),
                i <= self.phonemes@.len(),
                forall|j: int| 0 <= j < i ==> self@.phonemes[j].key != k,
            decreases self.phonemes@.len() - i,
        {
            if self.phonemes[i].key.id == k {
                proof {
                    let keys = self@.phoneme_keys();
                    assert(keys[i as int] == k);
                    let j = keys.index_of(k);
                    assert(keys[j] == k);
                    if j != i {
                        if j < i {
                            assert(keys[j] < keys[i as int]);
                        } else {
                            assert(keys[i as int] < keys[j]);
                        }
                    }
                }
                return Some(i);
            }
            i += 1;
        }
        proof {
            if self@.has_phoneme(k) {
                let j = self@.phoneme_keys().index_of(k);
                assert(self@.phonemes[j].key == k);
            }
        }
        None
    }

    /// The position of the group with key `k`, if there is one.
    fn group_slot(&self, k: u64) -> (r: Option<usize>)
        requires
            self.wf(),
        ensures
            match r {
                Some(i) => i < self@.groups.len() && self@.groups[i as int].key == k && i
                    == self@.group_index(k),
                None => !self@.has_group(k),
            },
    {
        let mut i: usize = 0;
        while i < self.groups.len()
            invariant
                self.wf(),
                i <= self.groups@.len(),
                forall|j: int| 0 <= j < i ==> self@.groups[j].key != k,
            decreases self.groups@.len() - i,
        {
            if self.groups[i].key.id == k {
                proof {
                    let keys = self@.group_keys();
                    assert(keys[i as int] == k);
                    let j = keys.index_of(k);
                    assert(keys[j] == k);
                    if j != i {
                        if j < i {
                            assert(keys[j] < keys[i as int]);
                        } else {
                            assert(keys[i as int] < keys[j]);
                        }
                    }
                }
                return Some(i);
            }
            i += 1;
        }
        proof {
            if self@.has_group(k) {
                let j = self@.group_keys().index_of(k);
                assert(self@.groups[j].key == k);
            }
        }
        None
    }

    /// The phoneme with key `key`; `None` where the key is stale.
    pub fn phoneme_get(&self, key: PhonemeKey) -> (r: Option<&Phoneme>)
        requires
            self.wf(),
        ensures
            match r {
                Some(p) => self@.has_phoneme(key.id) && p@ == self@.phoneme(key.id),
                None => !self@.has_phoneme(key.id),
            },
    {
        match self.phoneme_slot(key.id) {
            Some(i) => {
                proof {
                    assert(self@.phoneme_keys()[i as int] == key.id);
                }
                Some(&self.phonemes[i].phoneme)
            },
            None => None,
        }
    }

    /// The name of the group with key `key`; `None` where the key is stale.
    pub fn group_name(&self, key: GroupKey) -> (r: Option<&GroupName>)
        requires
            self.wf(),
        ensures
            match r {
                Some(n) => self@.has_group(key.id) && n@ == self@.groups[self@.group_index(
                    key.id,
                )].name,
                None => !self@.has_group(key.id),
            },
    {
        match self.group_slot(key.id) {
            Some(i) => {
                proof {
                    assert(self@.group_keys()[i as int] == key.id);
                }
                Some(&self.groups[i].group.name)
            },
            None => None,
        }
    }

    /// The key and the phoneme of member `m` of the group at position `i`.
    pub fn member_at(&self, i: usize, m: usize) -> (r: (PhonemeKey, &Phoneme))
        requires
            self.wf(),
            i < self@.groups.len(),
            m < self@.groups[i as int].members.len(),
        ensures
            r.0.id == self@.groups[i as int].members[m as int],
            r.1@ == self@.phoneme(r.0.id),
    {
        let k = self.groups[i].group.keys[m];
        proof {
            assert(self@.groups[i as int].members[m as int] == k.id);
        }
        match self.phoneme_slot(k.id) {
            Some(j) => (k, &self.phonemes[j].phoneme),
            None => {
                proof {
                    assert(false);
                }
                (k, &self.phonemes[0].phoneme)
            },
        }
    }
}

} // verus!
