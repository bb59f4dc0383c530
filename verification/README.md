# badwords-core

A profanity filter whose matching engine is verified with Verus.

Text is normalized (NFKC, case, confusable characters, homoglyphs,
Cyrillic/Latin transliteration), cut into whitespace-separated segments, and
looked up in a dictionary, with optional fuzzy (Jaro-Winkler), phrase,
substring, split-on-punctuation, collapsed-repeat and leetspeak matching on
top. Every public operation states what it returns over mathematical models of
the text and the dictionary, and Verus proves the code against those
statements.

## Layout

- `src/` — the verified library.
  - `text.rs`: characters, UTF-8 byte offsets, string helpers.
  - `tokenize.rs`: segments, sub-tokens, leetspeak and repeat collapsing.
  - `processor.rs`: the normalization pipeline and its tables.
  - `dict.rs`: the dictionary, language bits and the whitelist.
  - `fuzzy.rs`: exact Jaro-Winkler as a fraction, best fuzzy candidate.
  - `bignum.rs`: unbounded naturals as `u32` limbs, to compare scores
    exactly at any input length.
  - `substring.rs`: substring hits through an Aho-Corasick search.
  - `matcher.rs`: the scan, hit resolution, reported matches, and the laws
    relating the search modes and the detectors.
  - `lang.rs`, `resources.rs`, `wordlist.rs`: language registry, resource
    contents, word list files.
  - `filter.rs`, `compat.rs`: the filter, its builder, and the 2.x API.
  - `ml.rs`: the decisions of the toxicity model's setup and of the hybrid
    filter.
- `tests/` — tests of the library on concrete values.
- `app/` — what touches the outside world: reading resource directories,
  floating-point scores, the ONNX model, and the Python and WebAssembly
  bindings.

## Data structures

The dictionary keeps its entries in a `Vec` looked up by form (with tombstones
for removed words) and the language registry keeps sorted `Vec`s of languages
and aliases, rather than hash maps. Verus proves little about `String`-keyed
hash maps: with such keys not even the length after one insertion follows
from their specifications, so lookups in them could not be tied to the
contracts. The sorted vectors give the same lookups with every step proved;
the price is linear or logarithmic search in place of hashing.
