//! Line splitting and the line filter.
//!
//! A text is split at each `'\n'`; a `'\r'` right before such a `'\n'`
//! belongs to the terminator, not to the line. A final terminator does not
//! start another line, and the empty text has no lines.
use vstd::prelude::*;
use crate::text::{chars_of, contains_in, has_substring, occurs_at};

verus! {

/// The index of the first `'\n'` in `s` at or after `start`, or `s.len()`
/// when there is none.
pub open spec fn line_end(s: Seq<char>, start: int) -> int
    decreases s.len() - start,
{
    if start < 0 || start >= s.len() || s[start] == '\n' {
        start
    } else {
        line_end(s, start + 1)
    }
}

/// The line that runs from `start` to the terminator at `end` (or to the end
/// of `s`), without its terminator.
pub open spec fn line_text(s: Seq<char>, start: int, end: int) -> Seq<char> {
    if start < end && end < s.len() && s[end - 1] == '\r' {
        s.subrange(start, end - 1)
    } else {
        s.subrange(start, end)
    }
}

/// The lines of `s` that begin at or after `start`, in order.
pub open spec fn lines_from(s: Seq<char>, start: int) -> Seq<Seq<char>>
    decreases s.len() - start,
{
    if start < 0 || start >= s.len() {
        Seq::empty()
    } else {
        let end = line_end(s, start);
        if start <= end < s.len() {
            seq![line_text(s, start, end)] + lines_from(s, end + 1)
        } else {
            seq![line_text(s, start, end)]
        }
    }
}

/// The lines of `s`, in order, each without its terminator.
pub open spec fn lines_of(s: Seq<char>) -> Seq<Seq<char>> {
    lines_from(s, 0)
}

/// The lines of `contents` that contain `query`, in their order in
/// `contents`.
pub open spec fn matching_lines(query: Seq<char>, contents: Seq<char>) -> Seq<Seq<char>> {
    lines_of(contents).filter(|l: Seq<char>| has_substring(l, query))
}

/// The views of a sequence of string slices.
pub open spec fn views_of(r: Seq<&str>) -> Seq<Seq<char>> {
    r.map_values(|l: &str| l@)
}

proof fn lemma_line_end_bounds(s: Seq<char>, start: int)
    requires
        0 <= start <= s.len(),
    ensures
        start <= line_end(s, start) <= s.len(),
        line_end(s, start) < s.len() ==> s[line_end(s, start)] == '\n',
    decreases s.len() - start,
{
    if start < s.len() && s[start] != '\n' {
        lemma_line_end_bounds(s, start + 1);
    }
}

/// Every line of `contents` that contains `query`, in the order in which
/// the lines appear. Each line is a view into `contents`.
pub fn search<'a>(query: &str, contents: &'a str) -> (r: Vec<&'a str>)
    ensures
        views_of(r@) == matching_lines(query@, contents@),
{
    let c = chars_of(contents);
    let q = chars_of(query);
    let ghost pred = |l: Seq<char>| has_substring(l, query@);
    let ghost s = contents@;
    let ghost mut done: Seq<Seq<char>> = Seq::empty();
    let mut results: Vec<&'a str> = Vec::new();
    let mut start: usize = 0;
    while start < c.len()
        invariant
            c@ == s,
            s == contents@,
            q@ == query@,
            start <= c@.len(),
            lines_of(s) == done + lines_from(s, start as int),
            views_of(results@) == done.filter(pred),
            pred == (|l: Seq<char>| has_substring(l, query@)),
        decreases c@.len() - start,
    {
        let mut end: usize = start;
        while end < c.len() && c[end] != '\n'
            invariant
                c@ == s,
                start <= end <= c@.len(),
                line_end(s, end as int) == line_end(s, start as int),
            decreases c@.len() - end,
        {
            end = end + 1;
        }
        let stop: usize = if end < c.len() && start < end && c[end - 1] == '\r' {
            end - 1
        } else {
            end
        };
        let ghost line = line_text(s, start as int, end as int);
        let ghost old_done = done;
        let ghost old_views = views_of(results@);
        assert(line_end(s, end as int) == end as int);
        assert(c@.subrange(start as int, stop as int) =~= line);
        proof {
            done = done.push(line);
            old_done.lemma_filter_push(line, pred);
            lemma_line_end_bounds(s, start as int);
            if end < c@.len() {
                assert(lines_from(s, start as int) == seq![line] + lines_from(s, end + 1));
                assert(old_done + lines_from(s, start as int) =~= done + lines_from(s, end + 1));
            } else {
                assert(lines_from(s, start as int) == seq![line]);
                assert(old_done + lines_from(s, start as int) =~= done + lines_from(s, end as int));
            }
        }
        if contains_in(&c, start, stop, &q) {
            let piece = contents.substring_char(start, stop);
            results.push(piece);
            assert(views_of(results@) =~= old_views.push(line));
        }
        if end < c.len() {
            start = end + 1;
        } else {
            start = end;
        }
    }
    assert(done + lines_from(s, start as int) =~= done);
    results
}

/// Filtering keeps a sequence whole when every element passes.
proof fn lemma_filter_keeps_all(s: Seq<Seq<char>>, pred: spec_fn(Seq<char>) -> bool)
    requires
        forall|i: int| 0 <= i < s.len() ==> pred(s[i]),
    ensures
        s.filter(pred) == s,
    decreases s.len(),
{
    reveal(Seq::filter);
    if s.len() > 0 {
        lemma_filter_keeps_all(s.drop_last(), pred);
        assert(s.drop_last().push(s.last()) =~= s);
    }
}

/// The positions in `s` of the elements that `filter` keeps: strictly
/// increasing, and holding every position whose element passes.
proof fn lemma_filter_positions(s: Seq<Seq<char>>, pred: spec_fn(Seq<char>) -> bool) -> (pos: Seq<int>)
    ensures
        pos.len() == s.filter(pred).len(),
        forall|k: int| 0 <= k < pos.len() ==> 0 <= #[trigger] pos[k] < s.len(),
        forall|k: int| 0 <= k < pos.len() ==> s.filter(pred)[k] == s[#[trigger] pos[k]],
        forall|k: int, j: int| 0 <= k < j < pos.len() ==> pos[k] < pos[j],
        forall|i: int| 0 <= i < s.len() && #[trigger] pred(s[i]) ==> pos.contains(i),
    decreases s.len(),
{
    reveal(Seq::filter);
    if s.len() == 0 {
        Seq::empty()
    } else {
        let rest = s.drop_last();
        let p0 = lemma_filter_positions(rest, pred);
        let last = s.len() - 1;
        if pred(s.last()) {
            let pos = p0.push(last);
            assert forall|i: int| 0 <= i < s.len() && #[trigger] pred(s[i]) implies pos.contains(i) by {
                if i < last {
                    assert(rest[i] == s[i]);
                    let k = choose|k: int| 0 <= k < p0.len() && p0[k] == i;
                    assert(pos[k] == i);
                } else {
                    assert(pos[pos.len() - 1] == i);
                }
            }
            pos
        } else {
            assert forall|i: int| 0 <= i < s.len() && #[trigger] pred(s[i]) implies p0.contains(i) by {
                assert(rest[i] == s[i]);
            }
            p0
        }
    }
}

/// `pos` lists, in strictly increasing order, the positions among the lines
/// of `contents` from which the matching lines are taken, one position per
/// matching line, and holds every line that contains `query`.
pub open spec fn picks_matching_lines(pos: Seq<int>, query: Seq<char>, contents: Seq<char>) -> bool {
    let lines = lines_of(contents);
    let found = matching_lines(query, contents);
    &&& pos.len() == found.len()
    &&& forall|k: int| 0 <= k < pos.len() ==> 0 <= #[trigger] pos[k] < lines.len() && found[k] == lines[pos[k]]
    &&& forall|k: int, j: int| 0 <= k < j < pos.len() ==> pos[k] < pos[j]
    &&& forall|i: int| 0 <= i < lines.len() && has_substring(#[trigger] lines[i], query) ==> pos.contains(i)
}

/// Every line that `search` returns contains the query; and the result is
/// made of the lines of the text that contain it, each taken once from a
/// distinct line, in the order of the text, with none of them left out.
pub proof fn lemma_search_sound_and_complete(query: Seq<char>, contents: Seq<char>)
    ensures
        forall|k: int|
            0 <= k < matching_lines(query, contents).len() ==> has_substring(
                #[trigger] matching_lines(query, contents)[k],
                query,
            ),
        exists|pos: Seq<int>| #[trigger] picks_matching_lines(pos, query, contents),
{
    let pred = |l: Seq<char>| has_substring(l, query);
    let lines = lines_of(contents);
    assert forall|k: int| 0 <= k < lines.filter(pred).len() implies has_substring(
        #[trigger] lines.filter(pred)[k],
        query,
    ) by {
        lines.lemma_filter_pred(pred, k);
    }
    let pos = lemma_filter_positions(lines, pred);
    assert forall|i: int| 0 <= i < lines.len() && has_substring(#[trigger] lines[i], query) implies pos.contains(i) by {
        assert(pred(lines[i]));
    }
    assert(picks_matching_lines(pos, query, contents));
}

/// With the empty query, `search` returns every line of the text, unchanged
/// and in order.
pub proof fn lemma_empty_query_keeps_every_line(contents: Seq<char>)
    ensures
        matching_lines(Seq::empty(), contents) == lines_of(contents),
{
    let pred = |l: Seq<char>| has_substring(l, Seq::<char>::empty());
    let lines = lines_of(contents);
    assert forall|i: int| 0 <= i < lines.len() implies pred(lines[i]) by {
        assert(lines[i].subrange(0, 0) =~= Seq::<char>::empty());
        assert(occurs_at(lines[i], Seq::empty(), 0));
    }
    lemma_filter_keeps_all(lines, pred);
}

/// `search` is idempotent on its output: searching the lines it returned
/// for the same query gives back those same lines, in the same order.
pub proof fn lemma_search_idempotent(query: Seq<char>, contents: Seq<char>)
    ensures
        matching_lines(query, contents).filter(|l: Seq<char>| has_substring(l, query))
            == matching_lines(query, contents),
{
    let pred = |l: Seq<char>| has_substring(l, query);
    let found = lines_of(contents).filter(pred);
    assert forall|i: int| 0 <= i < found.len() implies pred(found[i]) by {
        lines_of(contents).lemma_filter_pred(pred, i);
    }
    lemma_filter_keeps_all(found, pred);
}

} // verus!
