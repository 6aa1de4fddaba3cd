//! Character-level views of strings: the substring relation and the
//! division of a text into lines.
use vstd::prelude::*;

verus! {

/// `pattern` occurs in `text` starting at position `k`.
pub open spec fn occurs_at(text: Seq<char>, pattern: Seq<char>, k: int) -> bool {
    &&& 0 <= k
    &&& k + pattern.len() <= text.len()
    &&& text.subrange(k, k + pattern.len()) == pattern
}

/// `pattern` is a contiguous part of `text`.
pub open spec fn has_substring(text: Seq<char>, pattern: Seq<char>) -> bool {
    exists|k: int| occurs_at(text, pattern, k)
}

/// The characters of `s`, in order.
pub fn chars_of(s: &str) -> (r: Vec<char>)
    ensures
        r@ == s@,
{
    let mut r: Vec<char> = Vec::new();
    for c in it: s.chars()
        invariant
            r@ == it.seq().take(it.index() as int),
    {
        r.push(c);
    }
    r
}

/// A line as it is handed out: one carriage return that stood before the
/// terminating newline is not part of it.
pub open spec fn strip_cr(line: Seq<char>) -> Seq<char> {
    if line.len() > 0 && line.last() == '\r' {
        line.drop_last()
    } else {
        line
    }
}

/// The characters after the last newline of `s` (all of `s` if it has none).
pub open spec fn open_line(s: Seq<char>) -> Seq<char>
    decreases s.len(),
{
    if s.len() == 0 {
        Seq::empty()
    } else if s.last() == '\n' {
        Seq::empty()
    } else {
        open_line(s.drop_last()).push(s.last())
    }
}

/// The lines of `s` that a newline has ended, in order.
pub open spec fn closed_lines(s: Seq<char>) -> Seq<Seq<char>>
    decreases s.len(),
{
    if s.len() == 0 {
        Seq::empty()
    } else if s.last() == '\n' {
        closed_lines(s.drop_last()).push(strip_cr(open_line(s.drop_last())))
    } else {
        closed_lines(s.drop_last())
    }
}

/// The lines of `s`: split at each newline, a carriage return right before
/// a newline dropped, and a final newline not starting another, empty line.
pub open spec fn lines_of(s: Seq<char>) -> Seq<Seq<char>> {
    if open_line(s).len() == 0 {
        closed_lines(s)
    } else {
        closed_lines(s).push(open_line(s))
    }
}

/// The part of `text` between the two bounds.
pub open spec fn span(text: Seq<char>, bounds: (usize, usize)) -> Seq<char> {
    text.subrange(bounds.0 as int, bounds.1 as int)
}

proof fn lemma_open_line_is_suffix(s: Seq<char>)
    ensures
        open_line(s).len() <= s.len(),
        open_line(s) == s.subrange(s.len() - open_line(s).len(), s.len() as int),
    decreases s.len(),
{
    if s.len() > 0 && s.last() != '\n' {
        lemma_open_line_is_suffix(s.drop_last());
        assert(open_line(s) =~= s.subrange(s.len() - open_line(s).len(), s.len() as int));
    }
}

/// Where each line of `text` begins and ends, in order.
pub fn line_spans(text: &Vec<char>) -> (r: Vec<(usize, usize)>)
    ensures
        r@.len() == lines_of(text@).len(),
        forall|i: int| 0 <= i < r@.len() ==> r@[i].0 <= #[trigger] r@[i].1 <= text@.len(),
        forall|i: int| 0 <= i < r@.len() ==> #[trigger] span(text@, r@[i]) == lines_of(text@)[i],
{
    let mut r: Vec<(usize, usize)> = Vec::new();
    let mut start: usize = 0;
    let mut i: usize = 0;
    while i < text.len()
        invariant
            start <= i <= text@.len(),
            open_line(text@.take(i as int)) == text@.subrange(start as int, i as int),
            r@.len() == closed_lines(text@.take(i as int)).len(),
            forall|j: int| 0 <= j < r@.len() ==> r@[j].0 <= #[trigger] r@[j].1 <= text@.len(),
            forall|j: int|
                0 <= j < r@.len() ==> #[trigger] span(text@, r@[j]) == closed_lines(
                    text@.take(i as int),
                )[j],
        decreases text@.len() - i,
    {
        let ghost prefix = text@.take(i as int);
        let ghost next = text@.take(i + 1);
        assert(next.drop_last() =~= prefix);
        assert(next.last() == text@[i as int]);
        if text[i] == '\n' {
            let mut end: usize = i;
            if end > start && text[end - 1] == '\r' {
                end = end - 1;
            }
            assert(text@.subrange(start as int, end as int) =~= strip_cr(open_line(prefix)));
            let ghost before = r@;
            r.push((start, end));
            assert(closed_lines(next) == closed_lines(prefix).push(strip_cr(open_line(prefix))));
            assert forall|j: int| 0 <= j < r@.len() implies #[trigger] span(text@, r@[j])
                == closed_lines(next)[j] by {
                if j < before.len() {
                    assert(r@[j] == before[j]);
                }
            }
            start = i + 1;
            assert(open_line(next) =~= text@.subrange(start as int, i + 1));
        } else {
            assert(closed_lines(next) == closed_lines(prefix));
            assert(open_line(next) =~= text@.subrange(start as int, i + 1));
        }
        i = i + 1;
    }
    assert(text@.take(i as int) =~= text@);
    if start < i {
        let ghost before = r@;
        r.push((start, i));
        assert forall|j: int| 0 <= j < r@.len() implies #[trigger] span(text@, r@[j])
            == lines_of(text@)[j] by {
            if j < before.len() {
                assert(r@[j] == before[j]);
            }
        }
    }
    r
}

/// Whether `pattern` occurs in `text` at position `k` of the span `lo..hi`.
fn occurs_at_in(text: &Vec<char>, lo: usize, hi: usize, pattern: &Vec<char>, k: usize) -> (r: bool)
    requires
        lo <= k <= hi <= text@.len(),
    ensures
        r == occurs_at(text@.subrange(lo as int, hi as int), pattern@, k - lo),
{
    let ghost part = text@.subrange(lo as int, hi as int);
    if pattern.len() > hi - k {
        return false;
    }
    let mut j: usize = 0;
    while j < pattern.len()
        invariant
            lo <= k <= hi <= text@.len(),
            j <= pattern@.len() <= hi - k,
            part == text@.subrange(lo as int, hi as int),
            forall|t: int| 0 <= t < j ==> text@[k + t] == #[trigger] pattern@[t],
        decreases pattern@.len() - j,
    {
        if text[k + j] != pattern[j] {
            assert(part.subrange(k - lo, k - lo + pattern@.len())[j as int] != pattern@[j as int]);
            return false;
        }
        j = j + 1;
    }
    assert(part.subrange(k - lo, k - lo + pattern@.len()) =~= pattern@);
    true
}

/// Whether `pattern` is a contiguous part of the span `lo..hi` of `text`.
pub fn occurs_in(text: &Vec<char>, lo: usize, hi: usize, pattern: &Vec<char>) -> (r: bool)
    requires
        lo <= hi <= text@.len(),
    ensures
        r == has_substring(text@.subrange(lo as int, hi as int), pattern@),
{
    let ghost part = text@.subrange(lo as int, hi as int);
    let mut k: usize = lo;
    while k < hi
        invariant
            lo <= k <= hi,
            hi <= text@.len(),
            part == text@.subrange(lo as int, hi as int),
            forall|t: int| 0 <= t < k - lo ==> !#[trigger] occurs_at(part, pattern@, t),
        decreases hi - k,
    {
        if occurs_at_in(text, lo, hi, pattern, k) {
            return true;
        }
        k = k + 1;
    }
    let last = occurs_at_in(text, lo, hi, pattern, hi);
    assert(!last ==> forall|t: int| !#[trigger] occurs_at(part, pattern@, t)) by {
        assert forall|t: int| !last && 0 <= t < hi - lo implies !#[trigger] occurs_at(
            part,
            pattern@,
            t,
        ) by {}
    }
    last
}

/// Whether `pattern` is a contiguous part of `text`.
pub fn contains(text: &str, pattern: &str) -> (r: bool)
    ensures
        r == has_substring(text@, pattern@),
{
    let t = chars_of(text);
    let p = chars_of(pattern);
    assert(t@.subrange(0, t@.len() as int) =~= t@);
    occurs_in(&t, 0, t.len(), &p)
}

} // verus!
