//! Characters of a string, substring tests and the division of a text into lines.
use vstd::prelude::*;

verus! {

/// `pat` occurs in `text` as a contiguous run of characters.
pub open spec fn has_substring(text: Seq<char>, pat: Seq<char>) -> bool {
    exists|i: int|
        0 <= i <= text.len() - pat.len() && #[trigger] text.subrange(i, i + pat.len()) == pat
}

/// The characters of `s`, in order.
pub fn chars_of(s: &str) -> (r: Vec<char>)
    ensures
        r@ == s@,
{
    let mut out: Vec<char> = Vec::new();
    for c in it: s.chars()
        invariant
            out@ == it.seq().take(it.index() as int),
    {
        out.push(c);
    }
    out
}

/// Whether `pat` stands in `text` at position `at`.
fn occurs_at(text: &Vec<char>, at: usize, pat: &Vec<char>) -> (r: bool)
    requires
        at + pat@.len() <= text@.len(),
    ensures
        r == (text@.subrange(at as int, at + pat@.len()) == pat@),
{
    let tlen = text.len();
    let mut k: usize = 0;
    while k < pat.len()
        invariant
            tlen == text@.len(),
            k <= pat@.len(),
            at + pat@.len() <= text@.len(),
            forall|j: int| 0 <= j < k ==> text@[at + j] == pat@[j],
        decreases pat@.len() - k,
    {
        if text[at + k] != pat[k] {
            assert(text@.subrange(at as int, at + pat@.len())[k as int] != pat@[k as int]);
            return false;
        }
        k += 1;
    }
    assert(text@.subrange(at as int, at + pat@.len()) =~= pat@);
    true
}

/// Whether `pat` occurs within `text[start..end]`.
pub(crate) fn occurs_within(text: &Vec<char>, start: usize, end: usize, pat: &Vec<char>) -> (r: bool)
    requires
        start <= end <= text@.len(),
    ensures
        r == has_substring(text@.subrange(start as int, end as int), pat@),
{
    let ghost window = text@.subrange(start as int, end as int);
    let plen = pat.len();
    if plen > end - start {
        return false;
    }
    let tlen = text.len();
    let last = end - plen;
    let mut at: usize = start;
    while at < last
        invariant
            start <= at <= last,
            last + plen == end,
            plen == pat@.len(),
            end <= text@.len(),
            tlen == text@.len(),
            window == text@.subrange(start as int, end as int),
            forall|i: int|
                0 <= i < at - start ==> #[trigger] window.subrange(i, i + plen) != pat@,
        decreases last - at,
    {
        if occurs_at(text, at, pat) {
            assert(window.subrange(at - start, at - start + plen) =~= text@.subrange(
                at as int,
                at + plen,
            ));
            return true;
        }
        assert(window.subrange(at - start, at - start + plen) =~= text@.subrange(
            at as int,
            at + plen,
        ));
        at += 1;
    }
    assert(window.subrange(last - start, last - start + plen) =~= text@.subrange(
        last as int,
        last + plen,
    ));
    occurs_at(text, last, pat)
}

/// Whether `needle` occurs in `haystack` as a contiguous run of characters; an empty
/// `needle` occurs in every string.
pub fn contains_str(haystack: &str, needle: &str) -> (r: bool)
    ensures
        r == has_substring(haystack@, needle@),
{
    let h = chars_of(haystack);
    let n = chars_of(needle);
    let r = occurs_within(&h, 0, h.len(), &n);
    assert(h@.subrange(0, h@.len() as int) =~= h@);
    r
}

/// The runs of `s` between line feeds, in order, the line feeds left out. There is one
/// more run than there are line feeds, so a text that ends with a line feed ends with an
/// empty run.
pub open spec fn pieces(s: Seq<char>) -> Seq<Seq<char>>
    decreases s.len(),
{
    if s.len() == 0 {
        seq![Seq::empty()]
    } else {
        let p = pieces(s.drop_last());
        if s.last() == '\n' {
            p.push(Seq::empty())
        } else {
            p.update(p.len() - 1, p.last().push(s.last()))
        }
    }
}

/// A line that a line feed ends may end in a carriage return, which belongs to the
/// terminator and not to the line.
pub open spec fn strip_cr(line: Seq<char>) -> Seq<char> {
    if line.len() > 0 && line.last() == '\r' {
        line.drop_last()
    } else {
        line
    }
}

/// The runs in `p`, each without a carriage return that ends it.
pub open spec fn strip_each(p: Seq<Seq<char>>) -> Seq<Seq<char>> {
    p.map_values(|l: Seq<char>| strip_cr(l))
}

/// The lines of `s`: each run that a line feed (or a carriage return and a line feed)
/// ends, without its terminator, and then the text after the last line feed, unless
/// that is empty. An empty text has no lines.
pub open spec fn lines_of(s: Seq<char>) -> Seq<Seq<char>> {
    let p = pieces(s);
    let ended = strip_each(p.drop_last());
    if p.last().len() == 0 {
        ended
    } else {
        ended.push(p.last())
    }
}

/// A text always has at least one run.
pub proof fn lemma_pieces_nonempty(s: Seq<char>)
    ensures
        pieces(s).len() >= 1,
    decreases s.len(),
{
    if s.len() > 0 {
        lemma_pieces_nonempty(s.drop_last());
    }
}

/// How the runs of a prefix grow by one character.
pub proof fn lemma_pieces_step(s: Seq<char>, i: int)
    requires
        0 <= i < s.len(),
    ensures
        pieces(s.take(i + 1)) == (if s[i] == '\n' {
            pieces(s.take(i)).push(Seq::empty())
        } else {
            pieces(s.take(i)).update(
                pieces(s.take(i)).len() - 1,
                pieces(s.take(i)).last().push(s[i]),
            )
        }),
{
    assert(s.take(i + 1).drop_last() =~= s.take(i));
}

/// The lines of an empty text: none.
pub proof fn lemma_lines_of_empty()
    ensures
        lines_of(Seq::<char>::empty()).len() == 0,
{
    assert(pieces(Seq::<char>::empty()) =~= seq![Seq::<char>::empty()]);
    assert(pieces(Seq::<char>::empty()).drop_last() =~= Seq::<Seq<char>>::empty());
}

} // verus!
