//! The line search engine: split a text into its lines and keep the
//! lines that contain a query, case-sensitively or not.
use vstd::prelude::*;

use crate::config::Config;

verus! {

/// `needle` occurs in `hay` starting at position `i`.
pub open spec fn matches_at(hay: Seq<char>, needle: Seq<char>, i: int) -> bool {
    &&& 0 <= i
    &&& i + needle.len() <= hay.len()
    &&& hay.subrange(i, i + needle.len()) == needle
}

/// `needle` occurs somewhere in `hay`; an empty needle occurs in
/// every text.
pub open spec fn has_substring(hay: Seq<char>, needle: Seq<char>) -> bool {
    exists|i: int| matches_at(hay, needle, i)
}

/// An empty needle occurs in every text, at position zero.
proof fn lemma_empty_needle(hay: Seq<char>, needle: Seq<char>)
    requires
        needle.len() == 0,
    ensures
        has_substring(hay, needle),
{
    assert(hay.subrange(0, 0) =~= needle);
    assert(matches_at(hay, needle, 0));
}

/// Whether `needle` occurs in `hay` at position `start` exactly.
fn occurs_at(hay: &str, needle: &str, start: usize) -> (r: bool)
    requires
        start + needle@.len() <= hay@.len(),
    ensures
        r == matches_at(hay@, needle@, start as int),
{
    let hay_len = hay.unicode_len();
    let needle_len = needle.unicode_len();
    let mut j: usize = 0;
    while j < needle_len
        invariant
            hay_len == hay@.len(),
            needle_len == needle@.len(),
            start + needle_len <= hay_len,
            j <= needle_len,
            forall|k: int| 0 <= k < j ==> hay@[start + k] == needle@[k],
        decreases needle_len - j,
    {
        if hay.get_char(start + j) != needle.get_char(j) {
            proof {
                let piece = hay@.subrange(start as int, start + needle@.len());
                assert(piece[j as int] == hay@[start + j]);
            }
            return false;
        }
        j += 1;
    }
    proof {
        assert(hay@.subrange(start as int, start + needle@.len()) =~= needle@);
    }
    true
}

/// Whether `needle` occurs anywhere in `hay`.
fn contains_str(hay: &str, needle: &str) -> (r: bool)
    ensures
        r == has_substring(hay@, needle@),
{
    let hay_len = hay.unicode_len();
    let needle_len = needle.unicode_len();
    if needle_len == 0 {
        proof {
            lemma_empty_needle(hay@, needle@);
        }
        return true;
    }
    if needle_len > hay_len {
        proof {
            assert(forall|i: int| !matches_at(hay@, needle@, i));
        }
        return false;
    }
    let last_start = hay_len - needle_len;
    let mut start: usize = 0;
    while start <= last_start
        invariant
            hay_len == hay@.len(),
            needle_len == needle@.len(),
            1 <= needle_len <= hay_len,
            last_start == hay_len - needle_len,
            start <= last_start + 1,
            forall|k: int| 0 <= k < start ==> !matches_at(hay@, needle@, k),
        decreases last_start + 1 - start,
    {
        if occurs_at(hay, needle, start) {
            return true;
        }
        start += 1;
    }
    proof {
        assert(forall|i: int| matches_at(hay@, needle@, i) ==> 0 <= i <= last_start);
    }
    false
}

/// What a line terminated by `'\n'` yields: the piece before the
/// terminator, with a single trailing `'\r'` dropped, so that a
/// `"\r\n"` pair counts as one terminator.
pub open spec fn strip_cr(line: Seq<char>) -> Seq<char> {
    if line.len() > 0 && line.last() == '\r' {
        line.drop_last()
    } else {
        line
    }
}

/// The lines still to come out of `rest`, when `cur` is the part of
/// the current line already read.  A final line is yielded as it
/// stands, with no `'\r'` stripped, and only if it is non-empty: a
/// trailing terminator yields no extra empty line.
pub open spec fn lines_from(rest: Seq<char>, cur: Seq<char>) -> Seq<Seq<char>>
    decreases rest.len(),
{
    if rest.len() == 0 {
        if cur.len() == 0 {
            Seq::empty()
        } else {
            seq![cur]
        }
    } else if rest[0] == '\n' {
        seq![strip_cr(cur)] + lines_from(rest.drop_first(), Seq::empty())
    } else {
        lines_from(rest.drop_first(), cur.push(rest[0]))
    }
}

/// The lines of a text, as standard line splitting yields them.
pub open spec fn lines_of(text: Seq<char>) -> Seq<Seq<char>> {
    lines_from(text, Seq::empty())
}

/// The texts of a sequence of string slices.
pub open spec fn views_of(lines: Seq<&str>) -> Seq<Seq<char>> {
    lines.map_values(|line: &str| line@)
}

/// Split a text into its lines, each a slice of the original text.
fn split_lines<'a>(contents: &'a str) -> (lines: Vec<&'a str>)
    ensures
        views_of(lines@) == lines_of(contents@),
{
    let text_len = contents.unicode_len();
    let mut lines: Vec<&'a str> = Vec::new();
    let mut line_start: usize = 0;
    let mut i: usize = 0;
    proof {
        assert(contents@.skip(0) =~= contents@);
        assert(contents@.subrange(0, 0) =~= Seq::<char>::empty());
        assert(views_of(lines@) =~= Seq::<Seq<char>>::empty());
        assert(views_of(lines@) + lines_of(contents@) =~= lines_of(contents@));
    }
    while i < text_len
        invariant
            text_len == contents@.len(),
            line_start <= i <= text_len,
            lines_of(contents@) == views_of(lines@) + lines_from(
                contents@.skip(i as int),
                contents@.subrange(line_start as int, i as int),
            ),
        decreases text_len - i,
    {
        let c = contents.get_char(i);
        if c == '\n' {
            let end = if i > line_start && contents.get_char(i - 1) == '\r' {
                i - 1
            } else {
                i
            };
            let line = contents.substring_char(line_start, end);
            proof {
                let cur = contents@.subrange(line_start as int, i as int);
                if i > line_start && contents@[i - 1] == '\r' {
                    assert(cur.last() == contents@[i - 1]);
                    assert(strip_cr(cur) =~= contents@.subrange(
                        line_start as int,
                        end as int,
                    ));
                } else {
                    assert(strip_cr(cur) =~= contents@.subrange(
                        line_start as int,
                        end as int,
                    ));
                }
                assert(line@ == strip_cr(cur));
            }
            let ghost old_lines = lines@;
            lines.push(line);
            proof {
                let cur = contents@.subrange(line_start as int, i as int);
                let rest = contents@.skip(i as int);
                assert(rest[0] == contents@[i as int]);
                assert(rest.drop_first() =~= contents@.skip(i + 1));
                assert(lines_from(rest, cur) == seq![strip_cr(cur)] + lines_from(
                    contents@.skip(i + 1),
                    Seq::empty(),
                ));
                assert(views_of(lines@) =~= views_of(old_lines).push(line@));
                assert(contents@.subrange(i + 1, i + 1) =~= Seq::<char>::empty());
                assert(views_of(old_lines) + lines_from(rest, cur) =~= views_of(lines@)
                    + lines_from(contents@.skip(i + 1), contents@.subrange(i + 1, i + 1)));
            }
            line_start = i + 1;
        } else {
            proof {
                let cur = contents@.subrange(line_start as int, i as int);
                let rest = contents@.skip(i as int);
                assert(rest[0] == contents@[i as int]);
                assert(rest.drop_first() =~= contents@.skip(i + 1));
                assert(cur.push(c) =~= contents@.subrange(line_start as int, i + 1));
                assert(lines_from(rest, cur) == lines_from(
                    contents@.skip(i + 1),
                    contents@.subrange(line_start as int, i + 1),
                ));
            }
        }
        i += 1;
    }
    proof {
        assert(contents@.skip(text_len as int) =~= Seq::<char>::empty());
    }
    if line_start < text_len {
        let line = contents.substring_char(line_start, text_len);
        let ghost old_lines = lines@;
        lines.push(line);
        proof {
            let cur = contents@.subrange(line_start as int, text_len as int);
            assert(lines_from(Seq::<char>::empty(), cur) == seq![cur]);
            assert(views_of(lines@) =~= views_of(old_lines).push(line@));
            assert(views_of(lines@) =~= views_of(old_lines) + seq![cur]);
        }
    } else {
        proof {
            let cur = contents@.subrange(line_start as int, text_len as int);
            assert(cur.len() == 0);
            assert(lines_from(Seq::<char>::empty(), cur) =~= Seq::<Seq<char>>::empty());
            assert(views_of(lines@) + Seq::<Seq<char>>::empty() =~= views_of(lines@));
        }
    }
    lines
}

/// What `str::to_lowercase` returns for a given sequence of characters.
pub uninterp spec fn lower_of(text: Seq<char>) -> Seq<char>;

/// Relies on `str::to_lowercase`: the result depends on the input's
/// characters alone, and an empty input gives an empty result.
#[verifier::external_body]
fn lowercase(text: &str) -> (r: String)
    ensures
        r@ == lower_of(text@),
        text@.len() == 0 ==> r@.len() == 0,
{
    text.to_lowercase()
}

/// A line matches a case-sensitive search for `query` when it contains
/// `query` as an exact substring.
pub open spec fn line_matches(line: Seq<char>, query: Seq<char>) -> bool {
    has_substring(line, query)
}

/// A line matches a case-insensitive search for `query` when its
/// lower-cased text contains the lower-cased query; an empty query
/// matches every line.
pub open spec fn line_matches_ci(line: Seq<char>, query: Seq<char>) -> bool {
    query.len() == 0 || has_substring(lower_of(line), lower_of(query))
}

/// The lines among `lines` that a case-sensitive search for `query`
/// keeps, in their original order.
pub open spec fn matching_lines(lines: Seq<Seq<char>>, query: Seq<char>) -> Seq<Seq<char>>
    decreases lines.len(),
{
    if lines.len() == 0 {
        Seq::empty()
    } else {
        let rest = matching_lines(lines.drop_last(), query);
        if line_matches(lines.last(), query) {
            rest.push(lines.last())
        } else {
            rest
        }
    }
}

/// The lines among `lines` that a case-insensitive search for `query`
/// keeps, in their original order.
pub open spec fn matching_lines_ci(lines: Seq<Seq<char>>, query: Seq<char>) -> Seq<Seq<char>>
    decreases lines.len(),
{
    if lines.len() == 0 {
        Seq::empty()
    } else {
        let rest = matching_lines_ci(lines.drop_last(), query);
        if line_matches_ci(lines.last(), query) {
            rest.push(lines.last())
        } else {
            rest
        }
    }
}

/// The lines of `contents` that contain `query` as an exact substring,
/// in their original order.
pub fn search<'a>(query: &str, contents: &'a str) -> (results: Vec<&'a str>)
    ensures
        views_of(results@) == matching_lines(lines_of(contents@), query@),
{
    let lines = split_lines(contents);
    let mut results: Vec<&'a str> = Vec::new();
    let mut i: usize = 0;
    proof {
        assert(views_of(lines@).take(0) =~= Seq::<Seq<char>>::empty());
        assert(views_of(results@) =~= Seq::<Seq<char>>::empty());
    }
    while i < lines.len()
        invariant
            views_of(lines@) == lines_of(contents@),
            i <= lines@.len(),
            views_of(results@) == matching_lines(views_of(lines@).take(i as int), query@),
        decreases lines@.len() - i,
    {
        let line = lines[i];
        let ghost old_results = results@;
        let matched = contains_str(line, query);
        if matched {
            results.push(line);
        }
        proof {
            let all = views_of(lines@);
            assert(all[i as int] == line@);
            assert(all.take(i + 1).drop_last() =~= all.take(i as int));
            assert(all.take(i + 1).last() == line@);
            if matched {
                assert(views_of(results@) =~= views_of(old_results).push(line@));
            }
        }
        i += 1;
    }
    proof {
        assert(views_of(lines@).take(lines@.len() as int) =~= views_of(lines@));
    }
    results
}

/// The lines of `contents` that contain `query` up to case, in their
/// original order; the lines come back in their original spelling.
pub fn search_case_insensitive<'a>(query: &str, contents: &'a str) -> (results: Vec<&'a str>)
    ensures
        views_of(results@) == matching_lines_ci(lines_of(contents@), query@),
{
    let lowered_query = lowercase(query);
    let lines = split_lines(contents);
    let mut results: Vec<&'a str> = Vec::new();
    let mut i: usize = 0;
    proof {
        assert(views_of(lines@).take(0) =~= Seq::<Seq<char>>::empty());
        assert(views_of(results@) =~= Seq::<Seq<char>>::empty());
    }
    while i < lines.len()
        invariant
            views_of(lines@) == lines_of(contents@),
            i <= lines@.len(),
            lowered_query@ == lower_of(query@),
            query@.len() == 0 ==> lowered_query@.len() == 0,
            views_of(results@) == matching_lines_ci(views_of(lines@).take(i as int), query@),
        decreases lines@.len() - i,
    {
        let line = lines[i];
        let ghost old_results = results@;
        let lowered_line = lowercase(line);
        let matched = contains_str(lowered_line.as_str(), lowered_query.as_str());
        if matched {
            results.push(line);
        }
        proof {
            if query@.len() == 0 {
                lemma_empty_needle(lower_of(line@), lower_of(query@));
            }
            assert(matched == line_matches_ci(line@, query@));
            let all = views_of(lines@);
            assert(all[i as int] == line@);
            assert(all.take(i + 1).drop_last() =~= all.take(i as int));
            assert(all.take(i + 1).last() == line@);
            if matched {
                assert(views_of(results@) =~= views_of(old_results).push(line@));
            }
        }
        i += 1;
    }
    proof {
        assert(views_of(lines@).take(lines@.len() as int) =~= views_of(lines@));
    }
    results
}

/// The search a resolved configuration asks for: the lines of
/// `contents` matching the configuration's query, in the
/// configuration's case mode.
pub fn run_search<'a>(config: &Config, contents: &'a str) -> (results: Vec<&'a str>)
    ensures
        config.case_sensitive ==> views_of(results@) == matching_lines(
            lines_of(contents@),
            config.query@,
        ),
        !config.case_sensitive ==> views_of(results@) == matching_lines_ci(
            lines_of(contents@),
            config.query@,
        ),
{
    if config.case_sensitive {
        search(config.query.as_str(), contents)
    } else {
        search_case_insensitive(config.query.as_str(), contents)
    }
}

/// `sel` says of each position of `lines` whether it is kept; the kept
/// lines, in their original order.
pub open spec fn selected_lines(sel: Seq<bool>, lines: Seq<Seq<char>>) -> Seq<Seq<char>>
    decreases lines.len(),
{
    if lines.len() == 0 {
        Seq::empty()
    } else {
        let rest = selected_lines(sel.drop_last(), lines.drop_last());
        if sel.len() == lines.len() && sel.last() {
            rest.push(lines.last())
        } else {
            rest
        }
    }
}

/// `sub` is an order-preserving selection of `sup`: some of `sup`'s
/// elements are kept, none is reordered and none is duplicated.
pub open spec fn is_subsequence(sub: Seq<Seq<char>>, sup: Seq<Seq<char>>) -> bool {
    exists|sel: Seq<bool>| sel.len() == sup.len() && sub == selected_lines(sel, sup)
}

proof fn lemma_matching_lines_selected(lines: Seq<Seq<char>>, query: Seq<char>, sel: Seq<bool>)
    requires
        sel.len() == lines.len(),
        forall|i: int| 0 <= i < lines.len() ==> sel[i] == line_matches(#[trigger] lines[i], query),
    ensures
        matching_lines(lines, query) == selected_lines(sel, lines),
    decreases lines.len(),
{
    if lines.len() > 0 {
        lemma_matching_lines_selected(lines.drop_last(), query, sel.drop_last());
        assert(sel.last() == line_matches(lines[lines.len() - 1], query));
    }
}

proof fn lemma_matching_lines_ci_selected(lines: Seq<Seq<char>>, query: Seq<char>, sel: Seq<bool>)
    requires
        sel.len() == lines.len(),
        forall|i: int|
            0 <= i < lines.len() ==> sel[i] == line_matches_ci(#[trigger] lines[i], query),
    ensures
        matching_lines_ci(lines, query) == selected_lines(sel, lines),
    decreases lines.len(),
{
    if lines.len() > 0 {
        lemma_matching_lines_ci_selected(lines.drop_last(), query, sel.drop_last());
        assert(sel.last() == line_matches_ci(lines[lines.len() - 1], query));
    }
}

/// A search keeps the order of the text's lines: in both case modes,
/// the result is an order-preserving selection of the searched lines,
/// with nothing reordered and nothing duplicated.
pub proof fn lemma_search_preserves_line_order(lines: Seq<Seq<char>>, query: Seq<char>)
    ensures
        is_subsequence(matching_lines(lines, query), lines),
        is_subsequence(matching_lines_ci(lines, query), lines),
{
    let sel = Seq::new(lines.len(), |i: int| line_matches(lines[i], query));
    lemma_matching_lines_selected(lines, query, sel);
    assert(sel.len() == lines.len() && matching_lines(lines, query) == selected_lines(sel, lines));
    let sel_ci = Seq::new(lines.len(), |i: int| line_matches_ci(lines[i], query));
    lemma_matching_lines_ci_selected(lines, query, sel_ci);
    assert(sel_ci.len() == lines.len() && matching_lines_ci(lines, query) == selected_lines(
        sel_ci,
        lines,
    ));
}

proof fn lemma_matching_lines_all(lines: Seq<Seq<char>>, query: Seq<char>)
    requires
        forall|i: int| 0 <= i < lines.len() ==> line_matches(#[trigger] lines[i], query),
    ensures
        matching_lines(lines, query) == lines,
    decreases lines.len(),
{
    if lines.len() > 0 {
        lemma_matching_lines_all(lines.drop_last(), query);
        assert(line_matches(lines[lines.len() - 1], query));
        assert(lines.drop_last().push(lines.last()) =~= lines);
    }
}

proof fn lemma_matching_lines_ci_all(lines: Seq<Seq<char>>, query: Seq<char>)
    requires
        forall|i: int| 0 <= i < lines.len() ==> line_matches_ci(#[trigger] lines[i], query),
    ensures
        matching_lines_ci(lines, query) == lines,
    decreases lines.len(),
{
    if lines.len() > 0 {
        lemma_matching_lines_ci_all(lines.drop_last(), query);
        assert(line_matches_ci(lines[lines.len() - 1], query));
        assert(lines.drop_last().push(lines.last()) =~= lines);
    }
}

/// An empty query matches every line: in both case modes, searching
/// for the empty query keeps every line of the text.
pub proof fn lemma_empty_query_matches_all(lines: Seq<Seq<char>>)
    ensures
        matching_lines(lines, Seq::empty()) == lines,
        matching_lines_ci(lines, Seq::empty()) == lines,
{
    assert forall|i: int| 0 <= i < lines.len() implies line_matches(
        #[trigger] lines[i],
        Seq::empty(),
    ) by {
        lemma_empty_needle(lines[i], Seq::empty());
    }
    lemma_matching_lines_all(lines, Seq::empty());
    lemma_matching_lines_ci_all(lines, Seq::empty());
}

} // verus!
