//! Word list files: one entry per line.
use vstd::prelude::*;
use crate::lang::{trim, trim_chars};
use crate::text::{from_chars, strings_view, to_chars};

verus! {

/// `s` without its leading byte-order marks.
pub open spec fn skip_boms(s: Seq<char>) -> Seq<char>
    decreases s.len(),
{
    if s.len() > 0 && s[0] == '\u{feff}' {
        skip_boms(s.drop_first())
    } else {
        s
    }
}

/// The pieces of `s` between newlines.
pub open spec fn split_lines(s: Seq<char>) -> Seq<Seq<char>>
    decreases s.len(),
{
    if s.len() == 0 {
        seq![seq![]]
    } else {
        let prev = split_lines(s.drop_last());
        if s.last() == '\n' {
            prev.push(seq![])
        } else {
            prev.update(prev.len() - 1, prev.last().push(s.last()))
        }
    }
}

/// The pieces, trimmed, without those that trim to nothing.
pub open spec fn nonempty_trimmed(pieces: Seq<Seq<char>>) -> Seq<Seq<char>>
    decreases pieces.len(),
{
    if pieces.len() == 0 {
        seq![]
    } else {
        let prev = nonempty_trimmed(pieces.drop_last());
        let t = trim(pieces.last());
        if t.len() > 0 {
            prev.push(t)
        } else {
            prev
        }
    }
}

/// The entries of a word list: its lines, trimmed, skipping blank ones. A
/// leading byte-order mark would otherwise be glued to the first entry.
pub open spec fn word_lines(content: Seq<char>) -> Seq<Seq<char>> {
    nonempty_trimmed(split_lines(skip_boms(content)))
}

proof fn lemma_split_lines_len(s: Seq<char>)
    ensures
        split_lines(s).len() >= 1,
    decreases s.len(),
{
    if s.len() > 0 {
        lemma_split_lines_len(s.drop_last());
    }
}

/// The entries of a word list.
pub fn word_lines_exec(content: &str) -> (r: Vec<String>)
    ensures
        strings_view(r@) == word_lines(content@),
{
    let t = to_chars(content);
    let mut start: usize = 0;
    assert(t@.skip(0) =~= t@);
    while start < t.len() && t[start] == '\u{feff}'
        invariant
            start <= t@.len(),
            skip_boms(t@.skip(start as int)) == skip_boms(t@),
        decreases t@.len() - start,
    {
        assert(t@.skip(start as int).drop_first() =~= t@.skip(start + 1));
        start += 1;
    }
    assert(skip_boms(t@.skip(start as int)) == t@.skip(start as int));
    lines_from(&t, start)
}

/// The lines of `text`, trimmed, skipping blank ones.
pub fn text_lines(text: &str) -> (r: Vec<String>)
    ensures
        strings_view(r@) == nonempty_trimmed(split_lines(text@)),
{
    let t = to_chars(text);
    assert(t@.skip(0) =~= t@);
    lines_from(&t, 0)
}

/// The trimmed, non-blank lines of `t` from `start` on.
fn lines_from(t: &Vec<char>, start: usize) -> (r: Vec<String>)
    requires
        start <= t@.len(),
    ensures
        strings_view(r@) == nonempty_trimmed(split_lines(t@.skip(start as int))),
{
    let ghost u = t@.skip(start as int);
    let mut out: Vec<String> = Vec::new();
    let mut cur: Vec<char> = Vec::new();
    let ghost mut done: Seq<Seq<char>> = seq![];
    let mut i: usize = start;
    assert(u.take(0) =~= Seq::<char>::empty());
    assert(split_lines(u.take(0)) =~= done.push(cur@));
    while i < t.len()
        invariant
            start <= i <= t@.len(),
            u == t@.skip(start as int),
            split_lines(u.take(i - start)) == done.push(cur@),
            strings_view(out@) == nonempty_trimmed(done),
        decreases t@.len() - i,
    {
        let c = t[i];
        proof {
            assert(u.take(i + 1 - start).drop_last() =~= u.take(i - start));
            assert(u.take(i + 1 - start).last() == c);
        }
        if c == '\n' {
            let tr = trim_chars(cur.as_slice());
            let ghost before = out@;
            proof {
                assert(done.push(cur@).drop_last() =~= done);
            }
            if tr.len() > 0 {
                out.push(from_chars(tr.as_slice()));
                proof {
                    crate::text::lemma_strings_view_push(before, out@.last());
                }
            }
            proof {
                done = done.push(cur@);
            }
            cur = Vec::new();
            assert(split_lines(u.take(i + 1 - start)) =~= done.push(cur@));
        } else {
            cur.push(c);
            assert(split_lines(u.take(i + 1 - start)) =~= done.push(cur@));
        }
        i += 1;
    }
    assert(u.take(i - start) =~= u);
    let tr = trim_chars(cur.as_slice());
    let ghost before = out@;
    assert(done.push(cur@).drop_last() =~= done);
    if tr.len() > 0 {
        out.push(from_chars(tr.as_slice()));
        proof {
            crate::text::lemma_strings_view_push(before, out@.last());
        }
    }
    out
}

} // verus!
