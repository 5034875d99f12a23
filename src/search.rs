//! Selecting the lines of a text that contain a query, exactly or with case folded.
use vstd::prelude::*;
use vstd::string::StringSliceAdditionalSpecFns;
use vstd::utf8::{encode_scalar, encode_utf8};
use crate::slicing::{lemma_encode_take_bound, lemma_encode_take_step, slice_chars, utf8_width};
use crate::text::{chars_of, has_substring, lemma_lines_of_empty, lemma_pieces_nonempty, lemma_pieces_step, lines_of, occurs_within, pieces, strip_cr, strip_each};

verus! {

broadcast use vstd::seq_lib::group_seq_lib_default;

/// The lower-case form of `s`, as `str::to_lowercase` computes it.
pub uninterp spec fn lower_of(s: Seq<char>) -> Seq<char>;

/// Relies on `str::to_lowercase`: the result depends on the characters of `s` alone, and
/// an empty string stays empty.
#[verifier::external_body]
fn lowercase(s: &str) -> (r: String)
    ensures
        r@ == lower_of(s@),
        s@.len() == 0 ==> r@.len() == 0,
{
    s.to_lowercase()
}

/// The characters of each string, in order.
pub open spec fn strs_view(v: Seq<&str>) -> Seq<Seq<char>> {
    v.map_values(|s: &str| s@)
}

/// Whether `line` is selected for `query`: with `fold`, `query` is taken to be folded
/// already and is looked for in the folded line.
pub open spec fn line_matches(line: Seq<char>, query: Seq<char>, fold: bool) -> bool {
    if fold {
        has_substring(lower_of(line), query)
    } else {
        has_substring(line, query)
    }
}

/// The lines among `lines` that `line_matches` selects for `query`, in order.
pub open spec fn select(lines: Seq<Seq<char>>, query: Seq<char>, fold: bool) -> Seq<Seq<char>> {
    lines.filter(|l: Seq<char>| line_matches(l, query, fold))
}

/// The lines of `contents` that contain `query`, in order.
pub open spec fn search_spec(query: Seq<char>, contents: Seq<char>) -> Seq<Seq<char>> {
    lines_of(contents).filter(|l: Seq<char>| has_substring(l, query))
}

/// The lines of `contents` whose lower-case form contains the lower-case `query`, in order.
pub open spec fn search_folded_spec(query: Seq<char>, contents: Seq<char>) -> Seq<Seq<char>> {
    lines_of(contents).filter(|l: Seq<char>| has_substring(lower_of(l), lower_of(query)))
}

/// Tests the line `text[start..end]` of `contents` and keeps it when it matches;
/// `start_byte` and `end_byte` are where the line starts and ends in the bytes of `contents`.
fn keep_if_match<'a>(
    results: &mut Vec<&'a str>,
    contents: &'a str,
    text: &Vec<char>,
    start: usize,
    end: usize,
    start_byte: usize,
    end_byte: usize,
    query: &Vec<char>,
    fold: bool,
)
    requires
        text@ == contents@,
        start <= end <= text@.len(),
        start_byte == encode_utf8(contents@.take(start as int)).len(),
        end_byte == encode_utf8(contents@.take(end as int)).len(),
    ensures
        strs_view(final(results)@) == (if line_matches(
            text@.subrange(start as int, end as int),
            query@,
            fold,
        ) {
            strs_view(old(results)@).push(text@.subrange(start as int, end as int))
        } else {
            strs_view(old(results)@)
        }),
{
    let ghost line = text@.subrange(start as int, end as int);
    let line_str = slice_chars(contents, start, end, start_byte, end_byte);
    let hit = if fold {
        let folded = lowercase(line_str);
        let fchars = chars_of(folded.as_str());
        let r = occurs_within(&fchars, 0, fchars.len(), query);
        assert(fchars@.subrange(0, fchars@.len() as int) =~= fchars@);
        r
    } else {
        occurs_within(text, start, end, query)
    };
    if hit {
        results.push(line_str);
        assert(strs_view(results@) =~= strs_view(old(results)@).push(line));
    }
}

/// The lines of `contents` that `line_matches` selects for `query`, in order, each a
/// slice of `contents`.
fn scan<'a>(query: &Vec<char>, contents: &'a str, fold: bool) -> (r: Vec<&'a str>)
    ensures
        strs_view(r@) == select(lines_of(contents@), query@, fold),
{
    let text = chars_of(contents);
    let n = text.len();
    let total_bytes = contents.as_bytes().len();
    let mut results: Vec<&'a str> = Vec::new();
    let mut start: usize = 0;
    let mut start_byte: usize = 0;
    let mut i: usize = 0;
    let mut i_byte: usize = 0;
    proof {
        assert(contents.spec_bytes() == encode_utf8(contents@));
        assert(text@.take(0) =~= Seq::<char>::empty());
        assert(encode_utf8(Seq::<char>::empty()) =~= Seq::<u8>::empty());
        assert(pieces(Seq::<char>::empty()) =~= seq![Seq::<char>::empty()]);
        assert(pieces(text@.take(0)).drop_last() =~= Seq::<Seq<char>>::empty());
        assert(strs_view(results@) =~= Seq::<Seq<char>>::empty());
    }
    while i < n
        invariant
            n == text@.len(),
            text@ == contents@,
            start <= i <= n,
            total_bytes == encode_utf8(contents@).len(),
            start_byte == encode_utf8(contents@.take(start as int)).len(),
            i_byte == encode_utf8(contents@.take(i as int)).len(),
            pieces(text@.take(i as int)).len() >= 1,
            pieces(text@.take(i as int)).last() == text@.subrange(start as int, i as int),
            strs_view(results@) == select(
                strip_each(pieces(text@.take(i as int)).drop_last()),
                query@,
                fold,
            ),
        decreases n - i,
    {
        proof {
            lemma_pieces_step(text@, i as int);
            lemma_encode_take_step(text@, i as int);
            lemma_encode_take_bound(text@, i + 1);
        }
        let ghost p = pieces(text@.take(i as int));
        let width = utf8_width(text[i]);
        if text[i] == '\n' {
            let mut end = i;
            let mut end_byte = i_byte;
            if end > start && text[end - 1] == '\r' {
                proof {
                    lemma_encode_take_step(text@, i - 1);
                    assert(encode_scalar('\r' as u32).len() == 1);
                }
                end = end - 1;
                end_byte = end_byte - 1;
            }
            proof {
                assert(text@.subrange(start as int, end as int) =~= strip_cr(p.last()));
            }
            keep_if_match(&mut results, contents, &text, start, end, start_byte, end_byte, query, fold);
            proof {
                let q = pieces(text@.take(i + 1));
                assert(q.drop_last() =~= p);
                let a = strip_each(p);
                let b = strip_each(p.drop_last()).push(strip_cr(p.last()));
                assert(a.len() == b.len());
                assert forall|j: int| 0 <= j < a.len() implies a[j] == b[j] by {
                    assert(a[j] == strip_cr(p[j]));
                    if j < a.len() - 1 {
                        assert(p.drop_last()[j] == p[j]);
                    } else {
                        assert(b[j] == strip_cr(p.last()));
                    }
                }
                assert(a =~= b);
                strip_each(p.drop_last()).lemma_filter_push(
                    strip_cr(p.last()),
                    |l: Seq<char>| line_matches(l, query@, fold),
                );
            }
            start = i + 1;
            start_byte = i_byte + width;
            proof {
                assert(text@.subrange(start as int, i + 1) =~= Seq::<char>::empty());
            }
        } else {
            proof {
                let q = pieces(text@.take(i + 1));
                assert(q.drop_last() =~= p.drop_last());
                assert(q.last() =~= text@.subrange(start as int, i + 1));
            }
        }
        i += 1;
        i_byte = i_byte + width;
    }
    proof {
        lemma_pieces_nonempty(text@);
        assert(text@.take(n as int) =~= text@);
    }
    if start < n {
        keep_if_match(&mut results, contents, &text, start, n, start_byte, total_bytes, query, fold);
        proof {
            let p = pieces(text@);
            strip_each(p.drop_last()).lemma_filter_push(
                p.last(),
                |l: Seq<char>| line_matches(l, query@, fold),
            );
        }
    }
    proof {
        let p = pieces(text@);
        assert(lines_of(contents@) == if p.last().len() == 0 {
            strip_each(p.drop_last())
        } else {
            strip_each(p.drop_last()).push(p.last())
        });
    }
    results
}

/// With the comparison made exact, `select` keeps the lines that contain `query`.
proof fn lemma_select_exact(lines: Seq<Seq<char>>, query: Seq<char>)
    ensures
        select(lines, query, false) == lines.filter(|l: Seq<char>| has_substring(l, query)),
{
    assert((|l: Seq<char>| line_matches(l, query, false)) =~= (|l: Seq<char>|
        has_substring(l, query)));
}

/// With the comparison made on folded text, `select` keeps the lines whose folded form
/// contains the folded query.
proof fn lemma_select_folded(lines: Seq<Seq<char>>, query: Seq<char>)
    ensures
        select(lines, lower_of(query), true) == lines.filter(
            |l: Seq<char>| has_substring(lower_of(l), lower_of(query)),
        ),
{
    assert((|l: Seq<char>| line_matches(l, lower_of(query), true)) =~= (|l: Seq<char>|
        has_substring(lower_of(l), lower_of(query))));
}

/// A filter that keeps everything leaves the sequence as it was.
proof fn lemma_filter_keeps_all(s: Seq<Seq<char>>, pred: spec_fn(Seq<char>) -> bool)
    requires
        forall|l: Seq<char>| #[trigger] pred(l),
    ensures
        s.filter(pred) == s,
    decreases s.len(),
{
    reveal(Seq::filter);
    if s.len() > 0 {
        lemma_filter_keeps_all(s.drop_last(), pred);
        assert(s.drop_last().push(s.last()) =~= s);
    }
}

/// The empty query occurs in every line.
proof fn lemma_empty_occurs_everywhere(query: Seq<char>)
    requires
        query.len() == 0,
    ensures
        forall|l: Seq<char>| #[trigger] has_substring(l, query),
{
    assert forall|l: Seq<char>| #[trigger] has_substring(l, query) by {
        assert(l.subrange(0, 0 + query.len() as int) =~= query);
    }
}

/// Every line of `contents` that contains `query` as a contiguous, case-sensitive run of
/// characters, in the order of `contents`, each a slice of `contents`. An empty query
/// selects every line; an empty text has no lines.
pub fn search<'a>(query: &str, contents: &'a str) -> (r: Vec<&'a str>)
    ensures
        strs_view(r@) == search_spec(query@, contents@),
        query@.len() == 0 ==> strs_view(r@) == lines_of(contents@),
        contents@.len() == 0 ==> r@.len() == 0,
{
    let q = chars_of(query);
    let r = scan(&q, contents, false);
    proof {
        lemma_select_exact(lines_of(contents@), query@);
        if query@.len() == 0 {
            lemma_empty_occurs_everywhere(query@);
            lemma_filter_keeps_all(lines_of(contents@), |l: Seq<char>| has_substring(l, query@));
        }
        if contents@.len() == 0 {
            lemma_lines_of_empty();
            assert(contents@ =~= Seq::<char>::empty());
            lines_of(contents@).lemma_filter_len(|l: Seq<char>| has_substring(l, query@));
            assert(strs_view(r@).len() == r@.len());
        }
    }
    r
}

/// Every line of `contents` whose lower-case form contains the lower-case form of
/// `query`, in the order of `contents`, each a slice of `contents` with its own case.
/// An empty query selects every line; an empty text has no lines.
pub fn search_case_insensitive<'a>(query: &str, contents: &'a str) -> (r: Vec<&'a str>)
    ensures
        strs_view(r@) == search_folded_spec(query@, contents@),
        query@.len() == 0 ==> strs_view(r@) == lines_of(contents@),
        contents@.len() == 0 ==> r@.len() == 0,
{
    let folded = lowercase(query);
    let q = chars_of(folded.as_str());
    let r = scan(&q, contents, true);
    proof {
        lemma_select_folded(lines_of(contents@), query@);
        if query@.len() == 0 {
            lemma_empty_occurs_everywhere(lower_of(query@));
            assert forall|l: Seq<char>|
                #[trigger] has_substring(lower_of(l), lower_of(query@)) by {
                assert(has_substring(lower_of(l), lower_of(query@)));
            }
            lemma_filter_keeps_all(
                lines_of(contents@),
                |l: Seq<char>| has_substring(lower_of(l), lower_of(query@)),
            );
        }
        if contents@.len() == 0 {
            lemma_lines_of_empty();
            assert(contents@ =~= Seq::<char>::empty());
            lines_of(contents@).lemma_filter_len(
                |l: Seq<char>| has_substring(lower_of(l), lower_of(query@)),
            );
            assert(strs_view(r@).len() == r@.len());
        }
    }
    r
}

/// Every line that `search` returns is a line of `contents` that contains `query`, and
/// every such line of `contents` is among them.
pub proof fn lemma_search_sound_and_complete(query: Seq<char>, contents: Seq<char>)
    ensures
        forall|i: int|
            0 <= i < search_spec(query, contents).len() ==> {
                &&& lines_of(contents).contains(#[trigger] search_spec(query, contents)[i])
                &&& has_substring(search_spec(query, contents)[i], query)
            },
        forall|l: Seq<char>|
            #[trigger] lines_of(contents).contains(l) && has_substring(l, query)
                ==> search_spec(query, contents).contains(l),
{
    let pred = |l: Seq<char>| has_substring(l, query);
    let lines = lines_of(contents);
    assert forall|i: int| 0 <= i < lines.filter(pred).len() implies {
        &&& lines.contains(#[trigger] lines.filter(pred)[i])
        &&& has_substring(lines.filter(pred)[i], query)
    } by {
        lines.lemma_filter_pred(pred, i);
        lines.lemma_filter_contains_rev(pred, lines.filter(pred)[i]);
    }
    assert forall|l: Seq<char>| #[trigger] lines.contains(l) && has_substring(l, query) implies lines.filter(
        pred,
    ).contains(l) by {
        let k = choose|k: int| 0 <= k < lines.len() && lines[k] == l;
        lines.lemma_filter_contains(pred, k);
    }
}

/// Every line that `search_case_insensitive` returns is a line of `contents`, with its own
/// case, whose lower-case form contains the lower-case query, and every such line of
/// `contents` is among them.
pub proof fn lemma_search_case_insensitive_sound_and_complete(
    query: Seq<char>,
    contents: Seq<char>,
)
    ensures
        forall|i: int|
            0 <= i < search_folded_spec(query, contents).len() ==> {
                &&& lines_of(contents).contains(#[trigger] search_folded_spec(query, contents)[i])
                &&& has_substring(lower_of(search_folded_spec(query, contents)[i]), lower_of(query))
            },
        forall|l: Seq<char>|
            #[trigger] lines_of(contents).contains(l) && has_substring(lower_of(l), lower_of(query))
                ==> search_folded_spec(query, contents).contains(l),
{
    let pred = |l: Seq<char>| has_substring(lower_of(l), lower_of(query));
    let lines = lines_of(contents);
    assert forall|i: int| 0 <= i < lines.filter(pred).len() implies {
        &&& lines.contains(#[trigger] lines.filter(pred)[i])
        &&& has_substring(lower_of(lines.filter(pred)[i]), lower_of(query))
    } by {
        lines.lemma_filter_pred(pred, i);
        lines.lemma_filter_contains_rev(pred, lines.filter(pred)[i]);
    }
    assert forall|l: Seq<char>|
        #[trigger] lines.contains(l) && has_substring(lower_of(l), lower_of(query)) implies lines.filter(
        pred,
    ).contains(l) by {
        let k = choose|k: int| 0 <= k < lines.len() && lines[k] == l;
        lines.lemma_filter_contains(pred, k);
    }
}

/// Searching twice with the same query and text gives the same lines in the same order,
/// in either mode: the result depends on the two inputs alone.
pub proof fn lemma_search_repeatable(
    query: Seq<char>,
    contents: Seq<char>,
    first: Seq<Seq<char>>,
    second: Seq<Seq<char>>,
    ignore_case: bool,
)
    requires
        ignore_case ==> first == search_folded_spec(query, contents)
            && second == search_folded_spec(query, contents),
        !ignore_case ==> first == search_spec(query, contents) && second == search_spec(
            query,
            contents,
        ),
    ensures
        first == second,
{
}

} // verus!
