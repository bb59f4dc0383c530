//! Dictionary storage: entries, language provenance and the whitelist.
//!
//! Entries are kept in insertion order and addressed by index; a removed
//! entry stays behind as a tombstone with an empty form, so indices never
//! move until the whole dictionary is cleared. Identical forms merge and OR
//! their language bits.
use vstd::prelude::*;
use crate::text::{chars_eq, from_chars, str_eq, strings_view, to_chars};
use crate::fuzzy::{charset_mask_chars, charset_of};

verus! {

/// Bit reserved in `lang_mask` for words added through `add_words`.
pub const CUSTOM_LANG_BIT: u64 = 0x8000_0000_0000_0000u64;

/// Languages that fit alongside the custom bit.
pub const MAX_LANGUAGES: usize = 63;

/// Whether bit `k` of `m` is set.
pub open spec fn has_bit(m: u64, k: int) -> bool {
    0 <= k < 64 && (m >> (k as u64)) & 1u64 == 1u64
}

/// The pieces of `s` between single spaces: `str::split(' ')`.
pub open spec fn split_space(s: Seq<char>) -> Seq<Seq<char>>
    decreases s.len(),
{
    if s.len() == 0 {
        seq![seq![]]
    } else {
        let prev = split_space(s.drop_last());
        if s.last() == ' ' {
            prev.push(seq![])
        } else {
            prev.update(prev.len() - 1, prev.last().push(s.last()))
        }
    }
}

/// Number of non-empty pieces of `s` between spaces.
pub open spec fn token_count_spec(s: Seq<char>) -> nat
    decreases s.len(),
{
    if s.len() == 0 {
        0
    } else if s.last() != ' ' && (s.len() == 1 || s[s.len() - 2] == ' ') {
        token_count_spec(s.drop_last()) + 1
    } else {
        token_count_spec(s.drop_last())
    }
}

pub proof fn lemma_split_space_len(s: Seq<char>)
    ensures
        split_space(s).len() >= 1,
    decreases s.len(),
{
    if s.len() > 0 {
        lemma_split_space_len(s.drop_last());
    }
}

/// The pieces of `s` between single spaces.
pub fn split_spaces(s: &[char]) -> (r: Vec<Vec<char>>)
    ensures
        r@.map_values(|v: Vec<char>| v@) == split_space(s@),
{
    let mut r: Vec<Vec<char>> = Vec::new();
    r.push(Vec::new());
    let mut i: usize = 0;
    assert(r@.map_values(|v: Vec<char>| v@) =~= split_space(s@.take(0)));
    while i < s.len()
        invariant
            i <= s@.len(),
            r@.len() >= 1,
            r@.map_values(|v: Vec<char>| v@) == split_space(s@.take(i as int)),
        decreases s@.len() - i,
    {
        proof {
            assert(s@.take(i + 1).drop_last() =~= s@.take(i as int));
            assert(s@.take(i + 1).last() == s@[i as int]);
        }
        let ghost before = r@.map_values(|v: Vec<char>| v@);
        if s[i] == ' ' {
            r.push(Vec::new());
            assert(r@.map_values(|v: Vec<char>| v@) =~= before.push(seq![]));
        } else {
            let last = r.len() - 1;
            let mut piece: Vec<char> = Vec::new();
            std::mem::swap(&mut piece, &mut r[last]);
            let ghost old_piece = piece@;
            assert(old_piece == before[last as int]);
            piece.push(s[i]);
            r.set(last, piece);
            assert(r@.map_values(|v: Vec<char>| v@) =~= before.update(last as int, before.last().push(s@[i as int])));
        }
        i += 1;
    }
    assert(s@.take(s@.len() as int) =~= s@);
    r
}

/// Number of entries with a non-empty form.
pub open spec fn live_count_of(e: Seq<(Seq<char>, Seq<char>, u64)>) -> nat
    decreases e.len(),
{
    if e.len() == 0 {
        0
    } else if e.last().0.len() > 0 {
        live_count_of(e.drop_last()) + 1
    } else {
        live_count_of(e.drop_last())
    }
}

/// The entry after its languages in `m` are dropped: a tombstone when none
/// remain.
pub open spec fn drop_langs(e: (Seq<char>, Seq<char>, u64), m: u64) -> (Seq<char>, Seq<char>, u64) {
    if e.2 & m == 0 {
        e
    } else if e.2 & !m == 0 {
        (seq![], e.1, 0)
    } else {
        (e.0, e.1, e.2 & !m)
    }
}

/// Position of `code` among the language names.
pub open spec fn name_index(names: Seq<Seq<char>>, code: Seq<char>) -> Option<int> {
    if exists|k: int| 0 <= k < names.len() && #[trigger] names[k] == code {
        Some(choose|k: int| 0 <= k < names.len() && #[trigger] names[k] == code && forall|j: int| 0 <= j < k ==> names[j] != code)
    } else {
        None
    }
}

/// Bits of the languages among `codes`, ignoring unknown codes.
pub open spec fn codes_mask(names: Seq<Seq<char>>, codes: Seq<Seq<char>>) -> u64
    decreases codes.len(),
{
    if codes.len() == 0 {
        0
    } else {
        codes_mask(names, codes.drop_last()) | match name_index(names, codes.last()) {
            Some(k) => if k < 64 { 1u64 << (k as u64) } else { 0 },
            None => 0,
        }
    }
}

/// The entry of `e` holding a non-empty `form`.
pub open spec fn lookup_in(e: Seq<(Seq<char>, Seq<char>, u64)>, form: Seq<char>) -> Option<int> {
    if form.len() > 0 && exists|i: int| 0 <= i < e.len() && #[trigger] e[i].0 == form {
        Some(choose|i: int| 0 <= i < e.len() && #[trigger] e[i].0 == form)
    } else {
        None
    }
}

/// Entries after inserting a form: an existing identical form gains the
/// language bits, a new one is appended; an empty form changes nothing.
pub open spec fn insert_spec(e: Seq<(Seq<char>, Seq<char>, u64)>, form: Seq<char>, raw: Seq<char>, mask: u64) -> Seq<
    (Seq<char>, Seq<char>, u64),
> {
    if form.len() == 0 {
        e
    } else {
        match lookup_in(e, form) {
            Some(i) => e.update(i, (form, e[i].1, e[i].2 | mask)),
            None => e.push((form, raw, mask)),
        }
    }
}

/// Entries after removing a form: it loses the custom bit, and becomes a
/// tombstone when no language provides it.
pub open spec fn remove_spec(e: Seq<(Seq<char>, Seq<char>, u64)>, form: Seq<char>) -> Seq<(Seq<char>, Seq<char>, u64)> {
    match lookup_in(e, form) {
        Some(i) => e.update(
            i,
            if e[i].2 & !CUSTOM_LANG_BIT == 0 {
                (seq![], e[i].1, 0u64)
            } else {
                (e[i].0, e[i].1, e[i].2 & !CUSTOM_LANG_BIT)
            },
        ),
        None => e,
    }
}

/// Inserting keeps every present form present and makes a non-empty form
/// present.
pub proof fn lemma_insert_keeps(e: Seq<(Seq<char>, Seq<char>, u64)>, form: Seq<char>, raw: Seq<char>, mask: u64, g: Seq<char>)
    requires
        lookup_in(e, g) is Some || (g == form && form.len() > 0),
    ensures
        lookup_in(insert_spec(e, form, raw, mask), g) is Some,
{
    let r = insert_spec(e, form, raw, mask);
    if lookup_in(e, g) is Some {
        let i = choose|i: int| 0 <= i < e.len() && #[trigger] e[i].0 == g;
        if form.len() > 0 {
            match lookup_in(e, form) {
                Some(j) => {
                    assert(r[i].0 == g);
                },
                None => {
                    assert(r[i] == e[i]);
                },
            }
        }
        assert(r[i].0 == g);
    } else {
        match lookup_in(e, form) {
            Some(j) => {
                assert(r[j].0 == form);
            },
            None => {
                assert(r[e.len() as int].0 == form);
            },
        }
    }
}

/// One dictionary entry.
#[derive(Debug)]
pub struct Entry {
    /// Normalized form; empty for a removed entry. Phrases keep single
    /// spaces between their tokens.
    pub form: String,
    /// The line as written in the word list, for reporting.
    pub raw: String,
    /// Bit per language, plus [`CUSTOM_LANG_BIT`].
    pub lang_mask: u64,
    /// Non-empty space-separated tokens in `form`, at most 255.
    pub token_count: u8,
    /// Characters in `form`, at most 65535.
    pub char_len: u16,
    /// Character-set mask of `form`, for skipping hopeless fuzzy candidates.
    pub charset: u64,
}

impl Entry {
    /// Whether the entry is a multi-word phrase.
    pub open spec fn is_phrase_spec(&self) -> bool {
        self.token_count > 1
    }

    /// Whether the entry is a multi-word phrase.
    pub fn is_phrase(&self) -> (b: bool)
        ensures
            b == self.is_phrase_spec(),
    {
        self.token_count > 1
    }

    /// The counters stored with a form agree with it.
    pub open spec fn counts_ok(&self) -> bool {
        &&& self.token_count as nat == if token_count_spec(self.form@) > 255 {
            255
        } else {
            token_count_spec(self.form@)
        }
        &&& self.char_len as nat == if self.form@.len() > 65535 {
            65535
        } else {
            self.form@.len()
        }
        &&& self.charset == charset_of(self.form@)
    }
}

/// Word storage with provenance and a whitelist.
#[derive(Debug)]
pub struct Dictionary {
    entries: Vec<Entry>,
    lang_names: Vec<String>,
    whitelist: Vec<String>,
}

/// Number of non-empty space-separated tokens, and characters.
fn count_form(form: &[char]) -> (r: (u8, u16))
    ensures
        r.0 as nat == if token_count_spec(form@) > 255 { 255 } else { token_count_spec(form@) },
        r.1 as nat == if form@.len() > 65535 { 65535 } else { form@.len() },
{
    let mut tokens: usize = 0;
    let mut i: usize = 0;
    while i < form.len()
        invariant
            i <= form@.len(),
            tokens as nat == if token_count_spec(form@.take(i as int)) > 255 {
                255
            } else {
                token_count_spec(form@.take(i as int))
            },
        decreases form@.len() - i,
    {
        proof {
            assert(form@.take(i + 1).drop_last() =~= form@.take(i as int));
            assert(form@.take(i + 1).last() == form@[i as int]);
            if i >= 1 {
                assert(form@.take(i + 1)[i - 1] == form@[i - 1]);
            }
        }
        if form[i] != ' ' && (i == 0 || form[i - 1] == ' ') {
            if tokens < 255 {
                tokens += 1;
            }
        }
        i += 1;
    }
    assert(form@.take(form@.len() as int) =~= form@);
    let len: u16 = if form.len() > 65535 {
        65535
    } else {
        form.len() as u16
    };
    (tokens as u8, len)
}

/// A fresh entry for `form`.
fn make_entry(form: &str, raw: &str, lang_mask: u64) -> (e: Entry)
    ensures
        e.form@ == form@,
        e.raw@ == raw@,
        e.lang_mask == lang_mask,
        e.counts_ok(),
{
    let chars = to_chars(form);
    let (token_count, char_len) = count_form(chars.as_slice());
    let charset = charset_mask_chars(chars.as_slice());
    Entry { form: form.to_string(), raw: raw.to_string(), lang_mask, token_count, char_len, charset }
}

/// A removed entry: empty form, same raw text.
fn tombstone(raw: &String) -> (e: Entry)
    ensures
        e.form@ == Seq::<char>::empty(),
        e.raw@ == raw@,
        e.lang_mask == 0,
        e.counts_ok(),
{
    let e = Entry { form: String::new(), raw: raw.clone(), lang_mask: 0, token_count: 0, char_len: 0, charset: 0 };
    assert(e.form@ =~= Seq::<char>::empty());
    assert(charset_of(e.form@) == 0);
    assert(token_count_spec(e.form@) == 0);
    e
}

/// `(form, raw, lang_mask)` of every entry.
pub open spec fn entries_view(v: Seq<Entry>) -> Seq<(Seq<char>, Seq<char>, u64)> {
    v.map_values(|e: Entry| (e.form@, e.raw@, e.lang_mask))
}

impl Dictionary {
    /// Non-empty forms are unique, counters agree with forms, and the
    /// whitelist holds distinct non-empty forms.
    #[verifier::type_invariant]
    closed spec fn inv(self) -> bool {
        &&& forall|i: int, j: int| 0 <= i < j < self.entries@.len() && self.entries@[i].form@.len() > 0
            ==> #[trigger] self.entries@[i].form@ != #[trigger] self.entries@[j].form@
        &&& forall|i: int| 0 <= i < self.entries@.len() ==> (#[trigger] self.entries@[i]).counts_ok()
        &&& forall|i: int| 0 <= i < self.whitelist@.len() ==> (#[trigger] self.whitelist@[i])@.len() > 0
        &&& forall|i: int, j: int| 0 <= i < j < self.whitelist@.len() ==> #[trigger] self.whitelist@[i]@
            != #[trigger] self.whitelist@[j]@
        &&& self.lang_names@.len() <= MAX_LANGUAGES
    }

    /// Every entry as `(form, raw, lang_mask)`, tombstones included.
    pub closed spec fn entries(&self) -> Seq<(Seq<char>, Seq<char>, u64)> {
        entries_view(self.entries@)
    }

    /// Token counts of every entry.
    pub closed spec fn token_counts(&self) -> Seq<u8> {
        self.entries@.map_values(|e: Entry| e.token_count)
    }

    /// Language names by bit index.
    pub closed spec fn languages(&self) -> Seq<Seq<char>> {
        strings_view(self.lang_names@)
    }

    /// The whitelisted forms.
    pub closed spec fn whitelist_set(&self) -> Set<Seq<char>> {
        strings_view(self.whitelist@).to_set()
    }

    /// The entry holding a non-empty `form`.
    pub open spec fn lookup_spec(&self, form: Seq<char>) -> Option<int> {
        lookup_in(self.entries(), form)
    }

    /// The set of live forms.
    pub open spec fn forms(&self) -> Set<Seq<char>> {
        Set::new(|f: Seq<char>| self.lookup_spec(f) is Some)
    }

    /// Index of the lowest language bit (below the custom bit) of entry
    /// `id`, which names the entry's language.
    pub open spec fn lowest_lang(m: u64) -> Option<int> {
        if exists|k: int| 0 <= k < 63 && #[trigger] has_bit(m, k) {
            Some(choose|k: int| 0 <= k < 63 && #[trigger] has_bit(m, k) && forall|j: int| 0 <= j < k ==> !has_bit(m, j))
        } else {
            None
        }
    }

    /// The language an entry reports: the name of its lowest language bit.
    pub open spec fn language_of_spec(&self, id: int) -> Option<Seq<char>> {
        match Self::lowest_lang(self.entries()[id].2) {
            Some(k) => if k < self.languages().len() {
                Some(self.languages()[k])
            } else {
                None
            },
            None => None,
        }
    }

    /// Number of live entries.
    pub open spec fn live_count(&self) -> nat {
        live_count_of(self.entries())
    }

    /// Whether entry `id` is a live phrase whose first token is `first`.
    pub open spec fn is_candidate(&self, id: int, first: Seq<char>) -> bool {
        &&& 0 <= id < self.entries().len()
        &&& self.entries()[id].0.len() > 0
        &&& self.token_counts()[id] > 1
        &&& split_space(self.entries()[id].0)[0] == first
    }

    /// Phrase candidates are tried longest first, then oldest first.
    pub open spec fn tried_before(&self, a: int, b: int) -> bool {
        self.token_counts()[a] > self.token_counts()[b] || (self.token_counts()[a] == self.token_counts()[b] && a < b)
    }

    /// Whether entry `id` is a live phrase.
    pub open spec fn is_live_phrase(&self, id: int) -> bool {
        0 <= id < self.entries().len() && self.entries()[id].0.len() > 0 && self.token_counts()[id] > 1
    }

    /// An empty dictionary.
    pub fn new() -> (d: Self)
        ensures
            d.entries().len() == 0,
            d.languages().len() == 0,
            d.whitelist_set() == Set::<Seq<char>>::empty(),
    {
        let d = Dictionary { entries: Vec::new(), lang_names: Vec::new(), whitelist: Vec::new() };
        assert(d.whitelist_set() =~= Set::<Seq<char>>::empty());
        d
    }

    pub proof fn lemma_lookup(&self, i: int)
        requires
            0 <= i < self.entries().len(),
            self.entries()[i].0.len() > 0,
            forall|a: int, b: int| 0 <= a < b < self.entries().len() && self.entries()[a].0.len() > 0
                ==> #[trigger] self.entries()[a].0 != #[trigger] self.entries()[b].0,
        ensures
            self.lookup_spec(self.entries()[i].0) == Some(i),
    {
        let f = self.entries()[i].0;
        let c = choose|j: int| 0 <= j < self.entries().len() && #[trigger] self.entries()[j].0 == f;
        if c < i {
            assert(self.entries()[c].0 != self.entries()[i].0);
        } else if c > i {
            assert(self.entries()[i].0 != self.entries()[c].0);
        }
    }

    /// Forms of live entries are distinct.
    pub open spec fn forms_unique(&self) -> bool {
        forall|a: int, b: int| 0 <= a < b < self.entries().len() && self.entries()[a].0.len() > 0
            ==> #[trigger] self.entries()[a].0 != #[trigger] self.entries()[b].0
    }

    /// The entry holding a non-empty `form`.
    pub fn lookup(&self, form: &str) -> (r: Option<usize>)
        ensures
            r matches Some(i) ==> self.lookup_spec(form@) == Some(i as int) && i < self.entries().len(),
            r is None ==> self.lookup_spec(form@) is None,
            self.forms_unique(),
    {
        proof {
            use_type_invariant(self);
        }
        if form.is_empty() {
            return None;
        }
        let mut i: usize = 0;
        while i < self.entries.len()
            invariant
                i <= self.entries@.len(),
                form@.len() > 0,
                self.forms_unique(),
                forall|k: int| 0 <= k < i ==> #[trigger] self.entries()[k].0 != form@,
            decreases self.entries@.len() - i,
        {
            assert(self.entries()[i as int].0 == self.entries@[i as int].form@);
            if str_eq(self.entries[i].form.as_str(), form) {
                proof {
                    self.lemma_lookup(i as int);
                }
                return Some(i);
            }
            i += 1;
        }
        None
    }

    /// The entry at `id`.
    pub fn entry(&self, id: usize) -> (e: &Entry)
        requires
            id < self.entries().len(),
        ensures
            (e.form@, e.raw@, e.lang_mask) == self.entries()[id as int],
            e.token_count == self.token_counts()[id as int],
            e.counts_ok(),
    {
        proof {
            use_type_invariant(self);
        }
        &self.entries[id]
    }

    /// Number of entries, tombstones included.
    pub fn capacity(&self) -> (n: usize)
        ensures
            n == self.entries().len(),
    {
        self.entries.len()
    }

    /// Add a normalized form, merging with an existing identical form by
    /// OR-ing the language bits. An empty form is ignored.
    pub fn insert(&mut self, form: &str, raw: &str, lang_mask: u64)
        ensures
            final(self).languages() == old(self).languages(),
            final(self).whitelist_set() == old(self).whitelist_set(),
            form@.len() == 0 ==> final(self).entries() == old(self).entries(),
            old(self).lookup_spec(form@) matches Some(i) ==> final(self).entries() == old(self).entries().update(
                i,
                (form@, old(self).entries()[i].1, old(self).entries()[i].2 | lang_mask),
            ),
            form@.len() > 0 && old(self).lookup_spec(form@) is None ==> final(self).entries()
                == old(self).entries().push((form@, raw@, lang_mask)),
            final(self).entries() == insert_spec(old(self).entries(), form@, raw@, lang_mask),
            final(self).token_counts().len() == final(self).entries().len(),
    {
        proof {
            use_type_invariant(&*self);
        }
        if form.is_empty() {
            return;
        }
        match self.lookup(form) {
            Some(id) => {
                let old_e = &self.entries[id];
                let e = Entry {
                    form: old_e.form.clone(),
                    raw: old_e.raw.clone(),
                    lang_mask: old_e.lang_mask | lang_mask,
                    token_count: old_e.token_count,
                    char_len: old_e.char_len,
                    charset: old_e.charset,
                };
                let ghost before = self.entries@;
                let mut entries: Vec<Entry> = Vec::new();
                std::mem::swap(&mut entries, &mut self.entries);
                entries.set(id, e);
                self.entries = entries;
                proof {
                    assert(entries_view(self.entries@) =~= entries_view(before).update(
                        id as int,
                        (form@, entries_view(before)[id as int].1, entries_view(before)[id as int].2 | lang_mask),
                    ));
                }
            },
            None => {
                let e = make_entry(form, raw, lang_mask);
                let ghost before = self.entries@;
                proof {
                    assert forall|k: int| 0 <= k < before.len() && before[k].form@.len() > 0 implies before[k].form@
                        != form@ by {
                        assert(entries_view(before)[k].0 == before[k].form@);
                    }
                }
                let mut entries: Vec<Entry> = Vec::new();
                std::mem::swap(&mut entries, &mut self.entries);
                entries.push(e);
                self.entries = entries;
                assert(entries_view(self.entries@) =~= entries_view(before).push((form@, raw@, lang_mask)));
            },
        }
    }

    /// Drop a form, or just its custom bit when a language also provides it.
    /// Returns whether the form was present.
    pub fn remove(&mut self, form: &str) -> (found: bool)
        ensures
            found == old(self).lookup_spec(form@) is Some,
            final(self).languages() == old(self).languages(),
            final(self).whitelist_set() == old(self).whitelist_set(),
            old(self).lookup_spec(form@) matches Some(i) ==> final(self).entries() == old(self).entries().update(
                i,
                if old(self).entries()[i].2 & !CUSTOM_LANG_BIT == 0 {
                    (seq![], old(self).entries()[i].1, 0u64)
                } else {
                    (old(self).entries()[i].0, old(self).entries()[i].1, old(self).entries()[i].2 & !CUSTOM_LANG_BIT)
                },
            ),
            old(self).lookup_spec(form@) is None ==> final(self).entries() == old(self).entries(),
            final(self).entries() == remove_spec(old(self).entries(), form@),
    {
        proof {
            use_type_invariant(&*self);
        }
        let id = match self.lookup(form) {
            Some(id) => id,
            None => {
                return false;
            },
        };
        let old_e = &self.entries[id];
        let mask = old_e.lang_mask & !CUSTOM_LANG_BIT;
        let e = if mask == 0 {
            tombstone(&old_e.raw)
        } else {
            Entry {
                form: old_e.form.clone(),
                raw: old_e.raw.clone(),
                lang_mask: mask,
                token_count: old_e.token_count,
                char_len: old_e.char_len,
                charset: old_e.charset,
            }
        };
        let ghost before = self.entries@;
        let ghost ev = (e.form@, e.raw@, e.lang_mask);
        let mut entries: Vec<Entry> = Vec::new();
        std::mem::swap(&mut entries, &mut self.entries);
        entries.set(id, e);
        self.entries = entries;
        assert(entries_view(self.entries@) =~= entries_view(before).update(id as int, ev));
        true
    }

    /// Drop every entry, keeping the whitelist and the language names.
    pub fn clear(&mut self)
        ensures
            final(self).entries().len() == 0,
            final(self).languages() == old(self).languages(),
            final(self).whitelist_set() == old(self).whitelist_set(),
    {
        proof {
            use_type_invariant(&*self);
        }
        self.entries = Vec::new();
    }

    /// Position of a language name.
    fn language_index(&self, code: &str) -> (r: Option<usize>)
        ensures
            r matches Some(k) ==> name_index(self.languages(), code@) == Some(k as int) && k < self.languages().len(),
            r is None ==> name_index(self.languages(), code@) is None,
    {
        let mut i: usize = 0;
        while i < self.lang_names.len()
            invariant
                i <= self.lang_names@.len(),
                forall|k: int| 0 <= k < i ==> #[trigger] self.languages()[k] != code@,
            decreases self.lang_names@.len() - i,
        {
            if str_eq(self.lang_names[i].as_str(), code) {
                assert(self.languages()[i as int] == code@);
                return Some(i);
            }
            i += 1;
        }
        None
    }

    /// The bit of a language, allocating one on first use; `0` when the 63
    /// language bits are taken, so the entry loses its provenance but still
    /// matches.
    pub fn language_bit(&mut self, code: &str) -> (bit: u64)
        ensures
            final(self).entries() == old(self).entries(),
            final(self).whitelist_set() == old(self).whitelist_set(),
            name_index(old(self).languages(), code@) matches Some(k) ==> bit == 1u64 << (k as u64)
                && final(self).languages() == old(self).languages(),
            name_index(old(self).languages(), code@) is None && old(self).languages().len() >= 63 ==> bit == 0
                && final(self).languages() == old(self).languages(),
            name_index(old(self).languages(), code@) is None && old(self).languages().len() < 63 ==> bit == 1u64
                << (old(self).languages().len() as u64) && final(self).languages() == old(self).languages().push(code@),
    {
        proof {
            use_type_invariant(&*self);
        }
        match self.language_index(code) {
            Some(k) => {
                if k < 63 {
                    1u64 << (k as u64)
                } else {
                    1u64 << 63u64
                }
            },
            None => {
                if self.lang_names.len() >= MAX_LANGUAGES {
                    return 0;
                }
                let n = self.lang_names.len();
                let mut names: Vec<String> = Vec::new();
                std::mem::swap(&mut names, &mut self.lang_names);
                names.push(code.to_string());
                self.lang_names = names;
                proof {
                    crate::text::lemma_strings_view_push(old(self).lang_names@, self.lang_names@.last());
                }
                1u64 << (n as u64)
            },
        }
    }

    /// Bits of the languages among `codes`.
    fn codes_mask_exec(&self, codes: &[String]) -> (m: u64)
        ensures
            m == codes_mask(self.languages(), strings_view(codes@)),
    {
        proof {
            use_type_invariant(self);
        }
        let mut m: u64 = 0;
        let mut i: usize = 0;
        assert(strings_view(codes@).take(0) =~= Seq::<Seq<char>>::empty());
        while i < codes.len()
            invariant
                i <= codes@.len(),
                self.languages().len() <= 63,
                m == codes_mask(self.languages(), strings_view(codes@).take(i as int)),
            decreases codes@.len() - i,
        {
            proof {
                assert(strings_view(codes@).take(i + 1).drop_last() =~= strings_view(codes@).take(i as int));
                assert(strings_view(codes@).take(i + 1).last() == codes@[i as int]@);
            }
            match self.language_index(codes[i].as_str()) {
                Some(k) => {
                    m = m | (1u64 << (k as u64));
                },
                None => {
                    assert(m | 0u64 == m) by (bit_vector);
                },
            }
            i += 1;
        }
        assert(strings_view(codes@).take(codes@.len() as int) =~= strings_view(codes@));
        m
    }

    /// Drop every entry belonging only to these languages; entries another
    /// language or the custom bit still holds stay, without these bits.
    pub fn remove_languages(&mut self, codes: &[String])
        ensures
            final(self).languages() == old(self).languages(),
            final(self).whitelist_set() == old(self).whitelist_set(),
            final(self).entries() == Seq::new(
                old(self).entries().len(),
                |i: int| drop_langs(old(self).entries()[i], codes_mask(old(self).languages(), strings_view(codes@))),
            ),
    {
        proof {
            use_type_invariant(&*self);
        }
        let mask = self.codes_mask_exec(codes);
        let ghost old_e = self.entries();
        let ghost target = Seq::new(old_e.len(), |i: int| drop_langs(old_e[i], mask));
        if mask == 0 {
            assert forall|i: int| 0 <= i < old_e.len() implies old_e[i].2 & mask == 0 by {
                let x = old_e[i].2;
                assert(x & 0u64 == 0u64) by (bit_vector);
            }
            assert(self.entries() =~= target);
            return;
        }
        let mut entries: Vec<Entry> = Vec::new();
        std::mem::swap(&mut entries, &mut self.entries);
        let n = entries.len();
        let mut i: usize = 0;
        while i < n
            invariant
                n == entries@.len(),
                i <= n,
                old_e.len() == n,
                target == Seq::new(old_e.len(), |i: int| drop_langs(old_e[i], mask)),
                forall|k: int| 0 <= k < i ==> #[trigger] entries_view(entries@)[k] == target[k],
                forall|k: int| i <= k < n ==> #[trigger] entries_view(entries@)[k] == old_e[k],
                forall|a: int, b: int| 0 <= a < b < n && old_e[a].0.len() > 0 ==> #[trigger] old_e[a].0 != #[trigger] old_e[b].0,
                forall|k: int| 0 <= k < n ==> (#[trigger] entries@[k]).counts_ok(),
            decreases n - i,
        {
            let e = &entries[i];
            assert(entries_view(entries@)[i as int] == (e.form@, e.raw@, e.lang_mask));
            if e.lang_mask & mask != 0 {
                let nm = e.lang_mask & !mask;
                let ne = if nm == 0 {
                    tombstone(&e.raw)
                } else {
                    Entry {
                        form: e.form.clone(),
                        raw: e.raw.clone(),
                        lang_mask: nm,
                        token_count: e.token_count,
                        char_len: e.char_len,
                        charset: e.charset,
                    }
                };
                let ghost nv = (ne.form@, ne.raw@, ne.lang_mask);
                let ghost before = entries@;
                entries.set(i, ne);
                assert(entries_view(entries@) =~= entries_view(before).update(i as int, nv));
            }
            i += 1;
        }
        proof {
            assert(entries_view(entries@) =~= target);
            assert forall|a: int, b: int| 0 <= a < b < n && entries@[a].form@.len() > 0 implies #[trigger] entries@[a].form@
                != #[trigger] entries@[b].form@ by {
                assert(entries_view(entries@)[a] == target[a]);
                assert(entries_view(entries@)[b] == target[b]);
            }
        }
        self.entries = entries;
    }

    /// The name of the entry's lowest language bit, for `Match::language`.
    pub fn language_of(&self, id: usize) -> (r: Option<&str>)
        requires
            id < self.entries().len(),
        ensures
            match r {
                Some(s) => self.language_of_spec(id as int) == Some(s@),
                None => self.language_of_spec(id as int) is None,
            },
    {
        let m = self.entries[id].lang_mask;
        assert(m == self.entries()[id as int].2);
        let mut k: u64 = 0;
        while k < 63
            invariant
                k <= 63,
                id < self.entries().len(),
                m == self.entries()[id as int].2,
                forall|j: int| 0 <= j < k ==> !has_bit(m, j),
            decreases 63 - k,
        {
            if (m >> k) & 1u64 == 1u64 {
                proof {
                    assert(has_bit(m, k as int));
                    let c = choose|c: int| 0 <= c < 63 && #[trigger] has_bit(m, c) && forall|j: int| 0 <= j < c ==> !has_bit(m, j);
                    if c < k {
                    } else if c > k {
                        assert(!has_bit(m, k as int));
                    }
                }
                if (k as usize) < self.lang_names.len() {
                    assert(self.languages()[k as int] == self.lang_names@[k as int]@);
                    return Some(self.lang_names[k as usize].as_str());
                } else {
                    return None;
                }
            }
            k += 1;
        }
        assert(!exists|j: int| 0 <= j < 63 && #[trigger] has_bit(m, j));
        None
    }

    /// Number of live entries.
    pub fn len(&self) -> (n: usize)
        ensures
            n == self.live_count(),
    {
        let mut n: usize = 0;
        let mut i: usize = 0;
        assert(self.entries().take(0) =~= Seq::<(Seq<char>, Seq<char>, u64)>::empty());
        while i < self.entries.len()
            invariant
                i <= self.entries@.len(),
                n == live_count_of(self.entries().take(i as int)),
                n <= i,
            decreases self.entries@.len() - i,
        {
            proof {
                assert(self.entries().take(i + 1).drop_last() =~= self.entries().take(i as int));
                assert(self.entries().take(i + 1).last() == self.entries()[i as int]);
            }
            if !self.entries[i].form.as_str().is_empty() {
                n += 1;
            }
            i += 1;
        }
        assert(self.entries().take(self.entries().len() as int) =~= self.entries());
        n
    }

    // -- whitelist ------------------------------------------------------------

    /// Whitelist a non-empty form.
    pub fn whitelist_insert(&mut self, form: &str)
        ensures
            final(self).entries() == old(self).entries(),
            final(self).languages() == old(self).languages(),
            final(self).whitelist_set() == if form@.len() > 0 {
                old(self).whitelist_set().insert(form@)
            } else {
                old(self).whitelist_set()
            },
    {
        proof {
            use_type_invariant(&*self);
        }
        if form.is_empty() || self.is_whitelisted(form) {
            return;
        }
        let mut wl: Vec<String> = Vec::new();
        std::mem::swap(&mut wl, &mut self.whitelist);
        let ghost before = wl@;
        wl.push(form.to_string());
        proof {
            crate::text::lemma_strings_view_push(before, wl@.last());
            let nv = strings_view(wl@);
            let ov = strings_view(before);
            assert(nv == ov.push(form@));
            assert forall|x| nv.to_set().contains(x) implies ov.to_set().insert(form@).contains(x) by {
                let k = choose|k: int| 0 <= k < nv.len() && nv[k] == x;
                if k < ov.len() {
                    assert(ov[k] == x);
                }
            }
            assert forall|x| ov.to_set().insert(form@).contains(x) implies nv.to_set().contains(x) by {
                if x == form@ {
                    assert(nv[ov.len() as int] == x);
                } else {
                    let k = choose|k: int| 0 <= k < ov.len() && ov[k] == x;
                    assert(nv[k] == x);
                }
            }
            assert(nv.to_set() =~= ov.to_set().insert(form@));
            assert forall|i: int, j: int| 0 <= i < j < wl@.len() implies #[trigger] wl@[i]@ != #[trigger] wl@[j]@ by {
                if j == wl@.len() - 1 {
                    assert(strings_view(before)[i] == wl@[i]@);
                }
            }
        }
        self.whitelist = wl;
    }

    /// Drop a form from the whitelist.
    pub fn whitelist_remove(&mut self, form: &str)
        ensures
            final(self).entries() == old(self).entries(),
            final(self).languages() == old(self).languages(),
            final(self).whitelist_set() == old(self).whitelist_set().remove(form@),
    {
        proof {
            use_type_invariant(&*self);
        }
        let mut i: usize = 0;
        while i < self.whitelist.len()
            invariant
                i <= self.whitelist@.len(),
                self.entries() == old(self).entries(),
                self.languages() == old(self).languages(),
                self.whitelist@ == old(self).whitelist@,
                forall|k: int| 0 <= k < i ==> #[trigger] self.whitelist@[k]@ != form@,
            decreases self.whitelist@.len() - i,
        {
            if str_eq(self.whitelist[i].as_str(), form) {
                proof {
                    use_type_invariant(&*self);
                }
                let mut wl: Vec<String> = Vec::new();
                std::mem::swap(&mut wl, &mut self.whitelist);
                let ghost before = wl@;
                wl.remove(i);
                proof {
                    assert(wl@ =~= before.remove(i as int));
                    assert(strings_view(wl@).to_set() =~= strings_view(before).to_set().remove(form@)) by {
                        assert forall|x| strings_view(before).to_set().remove(form@).contains(x) implies strings_view(
                            wl@,
                        ).to_set().contains(x) by {
                            let k = choose|k: int| 0 <= k < before.len() && strings_view(before)[k] == x;
                            if k < i {
                                assert(strings_view(wl@)[k] == x);
                            } else {
                                assert(strings_view(wl@)[k - 1] == x);
                            }
                        }
                        assert forall|x| strings_view(wl@).to_set().contains(x) implies strings_view(
                            before,
                        ).to_set().remove(form@).contains(x) by {
                            let k = choose|k: int| 0 <= k < wl@.len() && strings_view(wl@)[k] == x;
                            if k < i {
                                assert(strings_view(before)[k] == x);
                            } else {
                                assert(strings_view(before)[k + 1] == x);
                                assert(before[k + 1]@ != before[i as int]@);
                            }
                        }
                    }
                    assert forall|a: int, b: int| 0 <= a < b < wl@.len() implies #[trigger] wl@[a]@ != #[trigger] wl@[b]@ by {
                        if b < i {
                        } else if a < i {
                            assert(wl@[b] == before[b + 1]);
                        } else {
                            assert(wl@[a] == before[a + 1]);
                            assert(wl@[b] == before[b + 1]);
                        }
                    }
                }
                self.whitelist = wl;
                return;
            }
            i += 1;
        }
        assert forall|x| strings_view(self.whitelist@).to_set().contains(x) implies x != form@ by {
            let k = choose|k: int| 0 <= k < self.whitelist@.len() && strings_view(self.whitelist@)[k] == x;
            assert(self.whitelist@[k]@ != form@);
        }
        assert(strings_view(self.whitelist@).to_set() =~= strings_view(self.whitelist@).to_set().remove(form@));
    }

    /// Empty the whitelist.
    pub fn whitelist_clear(&mut self)
        ensures
            final(self).entries() == old(self).entries(),
            final(self).languages() == old(self).languages(),
            final(self).whitelist_set() == Set::<Seq<char>>::empty(),
    {
        proof {
            use_type_invariant(&*self);
        }
        self.whitelist = Vec::new();
        assert(strings_view(self.whitelist@) =~= Seq::<Seq<char>>::empty());
        assert(self.whitelist_set() =~= Set::<Seq<char>>::empty());
    }

    /// Whether a form is whitelisted.
    pub fn is_whitelisted(&self, form: &str) -> (b: bool)
        ensures
            b == self.whitelist_set().contains(form@),
    {
        let mut i: usize = 0;
        while i < self.whitelist.len()
            invariant
                i <= self.whitelist@.len(),
                forall|k: int| 0 <= k < i ==> #[trigger] strings_view(self.whitelist@)[k] != form@,
            decreases self.whitelist@.len() - i,
        {
            if str_eq(self.whitelist[i].as_str(), form) {
                assert(strings_view(self.whitelist@)[i as int] == form@);
                return true;
            }
            i += 1;
        }
        false
    }

    // -- phrases ----------------------------------------------------------------

    pub proof fn lemma_tried_before_transitive(&self, a: int, b: int, c: int)
        requires
            self.tried_before(a, b),
            self.tried_before(b, c),
        ensures
            self.tried_before(a, c),
    {
    }

    /// Live phrases whose first token is `first`, longest first, then in
    /// insertion order.
    pub fn phrase_candidates(&self, first: &[char]) -> (r: Vec<usize>)
        ensures
            forall|id: int| #[trigger] r@.contains(id as usize) && 0 <= id < self.entries().len() ==> self.is_candidate(id, first@),
            forall|id: int| self.is_candidate(id, first@) ==> #[trigger] r@.contains(id as usize),
            forall|k: int| 0 <= k < r@.len() ==> (#[trigger] r@[k]) < self.entries().len(),
            forall|a: int, b: int| 0 <= a < b < r@.len() ==> self.tried_before(#[trigger] r@[a] as int, #[trigger] r@[b] as int),
    {
        proof {
            use_type_invariant(self);
        }
        let mut r: Vec<usize> = Vec::new();
        let n = self.entries.len();
        let mut id: usize = 0;
        while id < n
            invariant
                n == self.entries@.len(),
                id <= n,
                forall|k: int| 0 <= k < r@.len() ==> (#[trigger] r@[k]) < id,
                forall|x: int| #[trigger] r@.contains(x as usize) && 0 <= x < n ==> self.is_candidate(x, first@),
                forall|x: int| 0 <= x < id && self.is_candidate(x, first@) ==> #[trigger] r@.contains(x as usize),
                forall|a: int, b: int| 0 <= a < b < r@.len() ==> self.tried_before(#[trigger] r@[a] as int, #[trigger] r@[b] as int),
            decreases n - id,
        {
            let e = &self.entries[id];
            assert(self.entries()[id as int].0 == e.form@);
            assert(self.token_counts()[id as int] == e.token_count);
            let mut is_cand = false;
            if !e.form.as_str().is_empty() && e.token_count > 1 {
                let chars = to_chars(e.form.as_str());
                let pieces = split_spaces(chars.as_slice());
                proof {
                    crate::dict::lemma_split_space_len(chars@);
                    assert(pieces@.map_values(|v: Vec<char>| v@)[0] == pieces@[0]@);
                }
                if chars_eq(pieces[0].as_slice(), first) {
                    is_cand = true;
                }
            }
            assert(is_cand == self.is_candidate(id as int, first@));
            if is_cand {
                let mut p: usize = 0;
                while p < r.len() && e.token_count <= self.entries[r[p]].token_count
                    invariant
                        p <= r@.len(),
                        forall|k: int| 0 <= k < r@.len() ==> (#[trigger] r@[k]) < id,
                        id < n,
                        n == self.entries@.len(),
                        e.token_count == self.token_counts()[id as int],
                        forall|q: int| 0 <= q < p ==> self.tried_before(#[trigger] r@[q] as int, id as int),
                    decreases r@.len() - p,
                {
                    assert(self.token_counts()[r@[p as int] as int] == self.entries@[r@[p as int] as int].token_count);
                    p += 1;
                }
                proof {
                    if p < r@.len() {
                        assert(self.token_counts()[r@[p as int] as int] == self.entries@[r@[p as int] as int].token_count);
                        assert(self.tried_before(id as int, r@[p as int] as int));
                    }
                }
                let ghost before = r@;
                r.insert(p, id);
                proof {
                    assert forall|a: int, b: int| 0 <= a < b < r@.len() implies self.tried_before(#[trigger] r@[a] as int, #[trigger] r@[b] as int) by {
                        if b < p {
                            assert(r@[a] == before[a] && r@[b] == before[b]);
                        } else if b == p {
                            assert(r@[a] == before[a]);
                        } else if a < p {
                            assert(r@[a] == before[a] && r@[b] == before[b - 1]);
                            assert(self.tried_before(before[a] as int, id as int));
                            self.lemma_tried_before_transitive(before[a] as int, id as int, before[p as int] as int);
                            if b - 1 > p {
                                self.lemma_tried_before_transitive(before[a] as int, before[p as int] as int, before[b - 1] as int);
                            }
                        } else if a == p {
                            assert(r@[b] == before[b - 1]);
                            if b - 1 > p {
                                self.lemma_tried_before_transitive(id as int, before[p as int] as int, before[b - 1] as int);
                            }
                        } else {
                            assert(r@[a] == before[a - 1] && r@[b] == before[b - 1]);
                        }
                    }
                    assert forall|x: int| #[trigger] r@.contains(x as usize) && 0 <= x < n implies self.is_candidate(x, first@) by {
                        let k = choose|k: int| 0 <= k < r@.len() && r@[k] == x as usize;
                        if k < p {
                            assert(before[k] == x as usize);
                            assert(before.contains(x as usize));
                        } else if k > p {
                            assert(before[k - 1] == x as usize);
                            assert(before.contains(x as usize));
                        }
                    }
                    assert forall|x: int| 0 <= x < id + 1 && self.is_candidate(x, first@) implies #[trigger] r@.contains(x as usize) by {
                        if x == id {
                            assert(r@[p as int] == id);
                        } else {
                            assert(before.contains(x as usize));
                            let k = choose|k: int| 0 <= k < before.len() && before[k] == x as usize;
                            if k < p {
                                assert(r@[k] == x as usize);
                            } else {
                                assert(r@[k + 1] == x as usize);
                            }
                        }
                    }
                    assert forall|k: int| 0 <= k < r@.len() implies (#[trigger] r@[k]) < id + 1 by {
                        if k < p {
                            assert(r@[k] == before[k]);
                        } else if k > p {
                            assert(r@[k] == before[k - 1]);
                        }
                    }
                }
            }
            id += 1;
        }
        r
    }

    /// Most tokens in any live phrase, or 0.
    pub fn max_phrase_tokens(&self) -> (m: usize)
        ensures
            forall|id: int| #[trigger] self.is_live_phrase(id) ==> self.token_counts()[id] <= m,
            m == 0 || exists|id: int| #[trigger] self.is_live_phrase(id) && self.token_counts()[id] == m,
    {
        let mut m: usize = 0;
        let mut id: usize = 0;
        while id < self.entries.len()
            invariant
                id <= self.entries@.len(),
                forall|x: int| 0 <= x < id && #[trigger] self.is_live_phrase(x) ==> self.token_counts()[x] <= m,
                m == 0 || exists|x: int| #[trigger] self.is_live_phrase(x) && self.token_counts()[x] == m,
            decreases self.entries@.len() - id,
        {
            let e = &self.entries[id];
            assert(self.entries()[id as int].0 == e.form@);
            assert(self.token_counts()[id as int] == e.token_count);
            if !e.form.as_str().is_empty() && e.token_count > 1 && (e.token_count as usize) > m {
                m = e.token_count as usize;
                assert(self.is_live_phrase(id as int));
            }
            id += 1;
        }
        m
    }

    /// Whether any live phrase exists.
    pub fn has_phrases(&self) -> (b: bool)
        ensures
            b == exists|id: int| #[trigger] self.is_live_phrase(id),
    {
        self.max_phrase_tokens() > 0
    }
}

} // verus!
