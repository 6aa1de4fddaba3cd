//! The two searches: the lines of a text that contain a query, matched
//! exactly or with both sides lowercased.
use vstd::prelude::*;
use vstd::string::StrSliceExecFns;
use vstd::utf8::is_ascii_chars;
use crate::text::{
    chars_of, contains, has_substring, line_spans, lines_of, occurs_at, occurs_in, span,
};

verus! {

/// What `str::to_lowercase` makes of a string.
pub uninterp spec fn lower_of(s: Seq<char>) -> Seq<char>;

/// The ASCII lowercase of one character: `A`..`Z` map to `a`..`z`, every
/// other character stays.
pub open spec fn ascii_lower(c: char) -> char {
    if 'A' <= c <= 'Z' {
        ((c as u32) + 32) as u32 as char
    } else {
        c
    }
}

/// Relies on `str::to_lowercase`: the result depends on the characters
/// alone (Unicode's lowercase mapping, no locale), and on ASCII text, where
/// that mapping takes `A`..`Z` to `a`..`z` and keeps every other character,
/// it is that mapping one character for one.
#[verifier::external_body]
fn lowercase(s: &str) -> (r: String)
    ensures
        r@ == lower_of(s@),
        is_ascii_chars(s@) ==> r@ == s@.map_values(|c: char| ascii_lower(c)),
{
    s.to_lowercase()
}

/// The views of a sequence of string slices.
pub open spec fn views(lines: Seq<&str>) -> Seq<Seq<char>> {
    lines.map_values(|l: &str| l@)
}

/// The lines of `contents` that contain `query`, in order.
pub open spec fn lines_containing(query: Seq<char>, contents: Seq<char>) -> Seq<Seq<char>> {
    lines_of(contents).filter(|l: Seq<char>| has_substring(l, query))
}

/// The lines of `contents` whose lowercase contains the lowercase of
/// `query`, in order.
pub open spec fn lines_containing_folded(query: Seq<char>, contents: Seq<char>) -> Seq<
    Seq<char>,
> {
    lines_of(contents).filter(|l: Seq<char>| has_substring(lower_of(l), lower_of(query)))
}

proof fn lemma_filter_keeps_all(lines: Seq<Seq<char>>, pred: spec_fn(Seq<char>) -> bool)
    requires
        forall|j: int| 0 <= j < lines.len() ==> pred(#[trigger] lines[j]),
    ensures
        lines.filter(pred) == lines,
    decreases lines.len(),
{
    reveal(Seq::filter);
    if lines.len() > 0 {
        lemma_filter_keeps_all(lines.drop_last(), pred);
        assert(lines.drop_last().push(lines.last()) =~= lines);
    }
}

/// Every text contains the empty text.
proof fn lemma_empty_occurs(text: Seq<char>)
    ensures
        has_substring(text, Seq::empty()),
{
    assert(text.subrange(0, 0) =~= Seq::<char>::empty());
    assert(occurs_at(text, Seq::empty(), 0));
}

/// The lines of `contents` that contain `query` exactly, in the order they
/// stand; each line is a slice of `contents`. An empty query keeps every
/// line; empty contents give none.
pub fn search<'a>(query: &str, contents: &'a str) -> (r: Vec<&'a str>)
    ensures
        views(r@) == lines_containing(query@, contents@),
        query@.len() == 0 ==> views(r@) == lines_of(contents@),
        contents@.len() == 0 ==> r@.len() == 0,
{
    let text = chars_of(contents);
    let pattern = chars_of(query);
    let spans = line_spans(&text);
    let ghost lines = lines_of(contents@);
    let ghost pred = |l: Seq<char>| has_substring(l, query@);
    let mut r: Vec<&'a str> = Vec::new();
    let mut i: usize = 0;
    while i < spans.len()
        invariant
            i <= spans@.len() == lines.len(),
            text@ == contents@,
            pattern@ == query@,
            pred == (|l: Seq<char>| has_substring(l, query@)),
            lines == lines_of(contents@),
            forall|j: int|
                0 <= j < spans@.len() ==> spans@[j].0 <= #[trigger] spans@[j].1 <= text@.len(),
            forall|j: int| 0 <= j < spans@.len() ==> #[trigger] span(text@, spans@[j]) == lines[j],
            views(r@) == lines.take(i as int).filter(pred),
        decreases spans@.len() - i,
    {
        let (lo, hi) = spans[i];
        assert(span(text@, spans@[i as int]) == lines[i as int]);
        assert(text@.subrange(lo as int, hi as int) == lines[i as int]);
        let ghost next = lines.take(i + 1);
        assert(next.drop_last() =~= lines.take(i as int));
        assert(next.last() == lines[i as int]);
        reveal(Seq::filter);
        assert(next.filter(pred) == if pred(lines[i as int]) {
            lines.take(i as int).filter(pred).push(lines[i as int])
        } else {
            lines.take(i as int).filter(pred)
        });
        let found = occurs_in(&text, lo, hi, &pattern);
        if found {
            let line = contents.substring_char(lo, hi);
            r.push(line);
            assert(views(r@) =~= lines.take(i as int).filter(pred).push(line@));
        }
        i = i + 1;
    }
    assert(lines.take(i as int) =~= lines);
    proof {
        if query@.len() == 0 {
            assert forall|j: int| 0 <= j < lines.len() implies pred(#[trigger] lines[j]) by {
                lemma_empty_occurs(lines[j]);
                assert(query@ =~= Seq::<char>::empty());
            }
            lemma_filter_keeps_all(lines, pred);
        }
        if contents@.len() == 0 {
            assert(contents@ =~= Seq::<char>::empty());
            lines.lemma_filter_len(pred);
        }
    }
    r
}

proof fn lemma_ascii_lowering_keeps_substring(line: Seq<char>, query: Seq<char>)
    requires
        has_substring(line, query),
    ensures
        has_substring(
            line.map_values(|c: char| ascii_lower(c)),
            query.map_values(|c: char| ascii_lower(c)),
        ),
{
    let k = choose|k: int| occurs_at(line, query, k);
    assert(occurs_at(line, query, k));
    let f = |c: char| ascii_lower(c);
    assert(line.map_values(f).subrange(k, k + query.len()) =~= query.map_values(f));
    assert(occurs_at(line.map_values(f), query.map_values(f), k));
}

/// The lines of `contents` that contain `query` once both are lowercased,
/// in the order they stand; each line is returned as it is in `contents`.
/// An empty query keeps every line; empty contents give none. On ASCII
/// text every line that contains `query` exactly is among them.
pub fn search_case_insensitive<'a>(query: &str, contents: &'a str) -> (r: Vec<&'a str>)
    ensures
        views(r@) == lines_containing_folded(query@, contents@),
        query@.len() == 0 ==> views(r@) == lines_of(contents@),
        contents@.len() == 0 ==> r@.len() == 0,
        is_ascii_chars(query@) && is_ascii_chars(contents@) ==> forall|l: Seq<char>|
            #[trigger] lines_containing(query@, contents@).contains(l) ==> views(r@).contains(l),
{
    let text = chars_of(contents);
    let lowered_query = lowercase(query);
    let spans = line_spans(&text);
    let ghost lines = lines_of(contents@);
    let ghost pred = |l: Seq<char>| has_substring(lower_of(l), lower_of(query@));
    let mut r: Vec<&'a str> = Vec::new();
    let mut i: usize = 0;
    while i < spans.len()
        invariant
            i <= spans@.len() == lines.len(),
            text@ == contents@,
            lowered_query@ == lower_of(query@),
            pred == (|l: Seq<char>| has_substring(lower_of(l), lower_of(query@))),
            is_ascii_chars(query@) ==> lowered_query@ == query@.map_values(
                |c: char| ascii_lower(c),
            ),
            is_ascii_chars(query@) && is_ascii_chars(contents@) ==> forall|j: int|
                0 <= j < i && has_substring(#[trigger] lines[j], query@) ==> pred(lines[j]),
            lines == lines_of(contents@),
            forall|j: int|
                0 <= j < spans@.len() ==> spans@[j].0 <= #[trigger] spans@[j].1 <= text@.len(),
            forall|j: int| 0 <= j < spans@.len() ==> #[trigger] span(text@, spans@[j]) == lines[j],
            views(r@) == lines.take(i as int).filter(pred),
        decreases spans@.len() - i,
    {
        let (lo, hi) = spans[i];
        assert(span(text@, spans@[i as int]) == lines[i as int]);
        assert(text@.subrange(lo as int, hi as int) == lines[i as int]);
        let ghost next = lines.take(i + 1);
        assert(next.drop_last() =~= lines.take(i as int));
        assert(next.last() == lines[i as int]);
        reveal(Seq::filter);
        assert(next.filter(pred) == if pred(lines[i as int]) {
            lines.take(i as int).filter(pred).push(lines[i as int])
        } else {
            lines.take(i as int).filter(pred)
        });
        let line = contents.substring_char(lo, hi);
        let lowered_line = lowercase(line);
        proof {
            if is_ascii_chars(query@) && is_ascii_chars(contents@) {
                assert(is_ascii_chars(line@)) by {
                    assert forall|t: int| 0 <= t < line@.len() implies '\0' <= #[trigger] line@[t]
                        <= '\u{7f}' by {
                        assert(line@[t] == contents@[lo + t]);
                    }
                }
                if has_substring(line@, query@) {
                    lemma_ascii_lowering_keeps_substring(line@, query@);
                }
            }
        }
        if contains(lowered_line.as_str(), lowered_query.as_str()) {
            r.push(line);
            assert(views(r@) =~= lines.take(i as int).filter(pred).push(line@));
        }
        i = i + 1;
    }
    assert(lines.take(i as int) =~= lines);
    proof {
        if query@.len() == 0 {
            assert(is_ascii_chars(query@));
            assert(lowered_query@ =~= Seq::<char>::empty());
            assert forall|j: int| 0 <= j < lines.len() implies pred(#[trigger] lines[j]) by {
                lemma_empty_occurs(lower_of(lines[j]));
            }
            lemma_filter_keeps_all(lines, pred);
        }
        if contents@.len() == 0 {
            assert(contents@ =~= Seq::<char>::empty());
            lines.lemma_filter_len(pred);
        }
        if is_ascii_chars(query@) && is_ascii_chars(contents@) {
            let exact = |l: Seq<char>| has_substring(l, query@);
            lines.filter_lemma(pred);
            lines.filter_lemma(exact);
            assert forall|l: Seq<char>|
                #[trigger] lines_containing(query@, contents@).contains(l) implies views(
                r@,
            ).contains(l) by {
                lines.lemma_filter_contains_rev(exact, l);
                let j = choose|j: int| 0 <= j < lines.len() && lines[j] == l;
                let k = choose|k: int|
                    0 <= k < lines.filter(exact).len() && lines.filter(exact)[k] == l;
                assert(exact(lines.filter(exact)[k]));
                assert(pred(lines[j]));
            }
        }
    }
    r
}

} // verus!
