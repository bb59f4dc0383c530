//! Where a filter reads its word lists and normalization tables from.
use vstd::prelude::*;
use crate::lang::{insert_sorted_string, strictly_sorted, LanguageRegistry};
use crate::processor::lookup;
use crate::text::{chars_eq, from_chars, str_eq, strings_view, to_chars};

verus! {

/// Where resources come from.
///
/// Reading a resource directory is the application's business; it hands
/// the contents over in this form.
#[derive(Debug)]
pub enum ResourceSource {
    /// Caller-supplied contents. Use for bundlers and tests.
    InMemory {
        unicode_mappings: String,
        homoglyphs: String,
        transliteration: String,
        /// The language registry, already parsed from `languages.json`.
        languages: Option<LanguageRegistry>,
        /// Word lists keyed by language code or by file name; a later pair
        /// replaces an earlier one with the same key.
        words: Vec<(String, String)>,
    },
}

/// The suffix of a word list file.
pub open spec fn txt_suffix() -> Seq<char> {
    seq!['.', 't', 'x', 't']
}

/// Whether `s` ends with `.txt`.
pub open spec fn has_txt(s: Seq<char>) -> bool {
    s.len() >= 4 && s.subrange(s.len() - 4, s.len() as int) == txt_suffix()
}

/// The file name a word list key stands for.
pub open spec fn file_name_of(key: Seq<char>) -> Seq<char> {
    if has_txt(key) {
        key
    } else {
        key + txt_suffix()
    }
}

/// A file name without its `.txt` suffix.
pub open spec fn stem_of(file: Seq<char>) -> Seq<char> {
    if has_txt(file) {
        file.subrange(0, file.len() - 4)
    } else {
        file
    }
}

/// `(key, content)` pairs as sequences.
pub open spec fn words_view(v: Seq<(String, String)>) -> Seq<(Seq<char>, Seq<char>)> {
    v.map_values(|p: (String, String)| (p.0@, p.1@))
}

/// The word list stored for `file`, looked up by file name, then by stem.
pub open spec fn word_list_spec(words: Seq<(Seq<char>, Seq<char>)>, file: Seq<char>) -> Option<Seq<char>> {
    match lookup(words, file) {
        Some(c) => Some(c),
        None => lookup(words, stem_of(file)),
    }
}

impl ResourceSource {
    /// The normalization tables: unicode mappings, homoglyphs and
    /// transliteration.
    pub open spec fn tables(&self) -> (Seq<char>, Seq<char>, Seq<char>) {
        match self {
            ResourceSource::InMemory { unicode_mappings, homoglyphs, transliteration, .. } => (
                unicode_mappings@,
                homoglyphs@,
                transliteration@,
            ),
        }
    }

    /// The word lists as `(key, content)`.
    pub open spec fn words(&self) -> Seq<(Seq<char>, Seq<char>)> {
        match self {
            ResourceSource::InMemory { words, .. } => words_view(words@),
        }
    }

    /// The word list stored for a file name, e.g. `pt_br.txt`.
    pub fn word_list(&self, file: &str) -> (r: Option<&str>)
        ensures
            match r {
                Some(c) => word_list_spec(self.words(), file@) == Some(c@),
                None => word_list_spec(self.words(), file@) is None,
            },
    {
        match self {
            ResourceSource::InMemory { words, .. } => {
                match find_key(words, file) {
                    Some(i) => Some(words[i].1.as_str()),
                    None => {
                        let chars = to_chars(file);
                        let stem = strip_txt(file);
                        match find_key(words, stem.as_str()) {
                            Some(i) => Some(words[i].1.as_str()),
                            None => None,
                        }
                    },
                }
            },
        }
    }

    /// Word list file names this source can provide, sorted, each once.
    pub fn word_list_files(&self) -> (r: Vec<String>)
        ensures
            strictly_sorted(strings_view(r@)),
            forall|f: Seq<char>| #[trigger] strings_view(r@).contains(f) <==> exists|k: int| 0 <= k < self.words().len()
                && file_name_of(self.words()[k].0) == f,
    {
        match self {
            ResourceSource::InMemory { words, .. } => {
                let ghost wv = words_view(words@);
                let mut r: Vec<String> = Vec::new();
                let mut i: usize = 0;
                while i < words.len()
                    invariant
                        i <= words@.len(),
                        wv == words_view(words@),
                        strictly_sorted(strings_view(r@)),
                        forall|f: Seq<char>| #[trigger] strings_view(r@).contains(f) <==> exists|k: int| 0 <= k < i
                            && file_name_of(wv[k].0) == f,
                    decreases words@.len() - i,
                {
                    let name = file_name(words[i].0.as_str());
                    let ghost before = strings_view(r@);
                    insert_sorted_string(&mut r, name);
                    proof {
                        assert forall|f: Seq<char>| #[trigger] strings_view(r@).contains(f) <==> exists|k: int| 0 <= k < i + 1
                            && file_name_of(wv[k].0) == f by {
                            if strings_view(r@).contains(f) && f != file_name_of(wv[i as int].0) {
                                assert(before.contains(f));
                            }
                            if exists|k: int| 0 <= k < i + 1 && file_name_of(wv[k].0) == f {
                                let k = choose|k: int| 0 <= k < i + 1 && file_name_of(wv[k].0) == f;
                                if k < i {
                                    assert(before.contains(f));
                                }
                            }
                        }
                    }
                    i += 1;
                }
                assert(wv == self.words());
                assert(i == wv.len());
                r
            },
        }
    }
}

/// Whether `s` ends with `.txt`.
fn has_txt_suffix(s: &[char]) -> (b: bool)
    ensures
        b == has_txt(s@),
{
    if s.len() < 4 {
        return false;
    }
    let n = s.len();
    let b = s[n - 4] == '.' && s[n - 3] == 't' && s[n - 2] == 'x' && s[n - 1] == 't';
    assert(b == (s@.subrange(n - 4, n as int) =~= txt_suffix()));
    b
}

/// The file name a word list key stands for.
fn file_name(key: &str) -> (r: String)
    ensures
        r@ == file_name_of(key@),
{
    let chars = to_chars(key);
    if has_txt_suffix(chars.as_slice()) {
        from_chars(chars.as_slice())
    } else {
        let mut v = chars;
        v.push('.');
        v.push('t');
        v.push('x');
        v.push('t');
        assert(v@ =~= key@ + txt_suffix());
        from_chars(v.as_slice())
    }
}

/// A file name without its `.txt` suffix.
pub fn strip_txt(file: &str) -> (r: String)
    ensures
        r@ == stem_of(file@),
{
    let chars = to_chars(file);
    if has_txt_suffix(chars.as_slice()) {
        let mut v: Vec<char> = Vec::new();
        let mut i: usize = 0;
        while i < chars.len() - 4
            invariant
                chars@.len() >= 4,
                i <= chars@.len() - 4,
                v@ == chars@.subrange(0, i as int),
            decreases chars@.len() - 4 - i,
        {
            v.push(chars[i]);
            i += 1;
            assert(v@ =~= chars@.subrange(0, i as int));
        }
        from_chars(v.as_slice())
    } else {
        from_chars(chars.as_slice())
    }
}

/// Index of the last pair whose key is `key`.
fn find_key(words: &Vec<(String, String)>, key: &str) -> (r: Option<usize>)
    ensures
        match r {
            Some(i) => i < words@.len() && lookup(words_view(words@), key@) == Some(words@[i as int].1@),
            None => lookup(words_view(words@), key@) is None,
        },
{
    let ghost wv = words_view(words@);
    let mut i: usize = words.len();
    assert(wv.take(i as int) =~= wv);
    while i > 0
        invariant
            i <= words@.len(),
            wv == words_view(words@),
            lookup(wv, key@) == lookup(wv.take(i as int), key@),
        decreases i,
    {
        assert(wv.take(i as int).drop_last() =~= wv.take(i - 1));
        if str_eq(words[i - 1].0.as_str(), key) {
            return Some(i - 1);
        }
        i -= 1;
    }
    None
}

/// A key that occurs is found.
pub proof fn lemma_lookup_found<K, V>(l: Seq<(K, V)>, k: K, i: int)
    requires
        0 <= i < l.len(),
        l[i].0 == k,
    ensures
        lookup(l, k) is Some,
    decreases l.len(),
{
    if l.last().0 != k {
        assert(l.drop_last()[i] == l[i]);
        lemma_lookup_found(l.drop_last(), k, i);
    }
}

/// The file name of a key ends in `.txt`, and its stem with `.txt` put back
/// is the file name again.
pub proof fn lemma_file_name_stem(key: Seq<char>)
    ensures
        has_txt(file_name_of(key)),
        stem_of(file_name_of(key)) + txt_suffix() == file_name_of(key),
        !has_txt(key) ==> stem_of(file_name_of(key)) == key,
{
    let f = file_name_of(key);
    if !has_txt(key) {
        assert(f.subrange(f.len() - 4, f.len() as int) =~= txt_suffix());
        assert(f.subrange(0, f.len() - 4) =~= key);
    }
    assert(f.subrange(0, f.len() - 4) + f.subrange(f.len() - 4, f.len() as int) =~= f);
}

/// The word list of any key's file name is found.
pub proof fn lemma_word_list_of_key(words: Seq<(Seq<char>, Seq<char>)>, k: int)
    requires
        0 <= k < words.len(),
    ensures
        word_list_spec(words, file_name_of(words[k].0)) is Some,
{
    let key = words[k].0;
    lemma_file_name_stem(key);
    if has_txt(key) {
        lemma_lookup_found(words, file_name_of(key), k);
    } else {
        lemma_lookup_found(words, key, k);
    }
}

} // verus!
