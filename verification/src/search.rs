//! Which lines of a document hold a query.

use vstd::prelude::*;
use crate::lines::{lines_of, split_lines, texts};
use crate::lowercase::{lowercase_of, to_lowercase};
use crate::substring::{contains, is_substring, lemma_empty_is_substring};

verus! {

/// `keys` has an item at position `at`, and that item holds `query`.
pub open spec fn key_holds(keys: Seq<Seq<char>>, query: Seq<char>, at: int) -> bool {
    0 <= at < keys.len() && is_substring(query, keys[at])
}

/// The items of `lines`, in order, at the positions at which `keys` has an
/// item that holds `query`. A position that `keys` does not have selects
/// nothing.
pub open spec fn select_by_key(
    lines: Seq<Seq<char>>,
    keys: Seq<Seq<char>>,
    query: Seq<char>,
) -> Seq<Seq<char>>
    decreases lines.len(),
{
    if lines.len() == 0 {
        Seq::empty()
    } else {
        let at = lines.len() - 1;
        let before = select_by_key(lines.drop_last(), keys, query);
        if key_holds(keys, query, at) {
            before.push(lines[at])
        } else {
            before
        }
    }
}

/// The lines of `contents` whose counterpart among the lines of `keys`, the
/// line at the same position, holds `query`.
pub open spec fn lines_matched_by(
    query: Seq<char>,
    contents: Seq<char>,
    keys: Seq<char>,
) -> Seq<Seq<char>> {
    select_by_key(lines_of(contents), lines_of(keys), query)
}

/// What a search returns. With regard to case, the lines of `contents` that
/// hold `query`. Without, both are lower-cased first, each as a whole; a line
/// of `contents` is returned as it stands where its lower-cased counterpart
/// holds the lower-cased query.
pub open spec fn matching_lines(
    query: Seq<char>,
    contents: Seq<char>,
    case_sensitive: bool,
) -> Seq<Seq<char>> {
    if case_sensitive {
        lines_matched_by(query, contents, contents)
    } else {
        lines_matched_by(lowercase_of(query), contents, lowercase_of(contents))
    }
}

/// What is selected is the items at the positions whose key holds the query,
/// each once, in rising order of position. Returns those positions.
pub proof fn lemma_selected_positions(
    lines: Seq<Seq<char>>,
    keys: Seq<Seq<char>>,
    query: Seq<char>,
) -> (positions: Seq<int>)
    ensures
        positions.len() == select_by_key(lines, keys, query).len(),
        forall|j: int|
            0 <= j < positions.len() ==> {
                &&& 0 <= #[trigger] positions[j] < lines.len()
                &&& key_holds(keys, query, positions[j])
                &&& select_by_key(lines, keys, query)[j] == lines[positions[j]]
            },
        forall|j: int, k: int|
            0 <= j < k < positions.len() ==> #[trigger] positions[j] < #[trigger] positions[k],
        forall|at: int|
            0 <= at < lines.len() && #[trigger] key_holds(keys, query, at) ==> positions.contains(
                at,
            ),
    decreases lines.len(),
{
    if lines.len() == 0 {
        Seq::empty()
    } else {
        let last = lines.len() - 1;
        let earlier = lemma_selected_positions(lines.drop_last(), keys, query);
        if key_holds(keys, query, last) {
            let positions = earlier.push(last);
            assert forall|at: int|
                0 <= at < lines.len() && #[trigger] key_holds(
                    keys,
                    query,
                    at,
                ) implies positions.contains(at) by {
                if at < last {
                    assert(earlier.contains(at));
                    let j = choose|j: int| 0 <= j < earlier.len() && earlier[j] == at;
                    assert(positions[j] == at);
                } else {
                    assert(positions[earlier.len() as int] == at);
                }
            }
            positions
        } else {
            earlier
        }
    }
}

/// Every line that a search returns is a line of the document, as it stands
/// there, and the lines come in the order in which they stand in the
/// document, none of them twice for one place. Returns the places.
pub proof fn lemma_matching_lines_stand_in_contents(
    query: Seq<char>,
    contents: Seq<char>,
    case_sensitive: bool,
) -> (positions: Seq<int>)
    ensures
        positions.len() == matching_lines(query, contents, case_sensitive).len(),
        forall|j: int|
            0 <= j < positions.len() ==> {
                &&& 0 <= #[trigger] positions[j] < lines_of(contents).len()
                &&& matching_lines(query, contents, case_sensitive)[j] == lines_of(
                    contents,
                )[positions[j]]
            },
        forall|j: int, k: int|
            0 <= j < k < positions.len() ==> #[trigger] positions[j] < #[trigger] positions[k],
{
    if case_sensitive {
        lemma_selected_positions(lines_of(contents), lines_of(contents), query)
    } else {
        lemma_selected_positions(
            lines_of(contents),
            lines_of(lowercase_of(contents)),
            lowercase_of(query),
        )
    }
}

/// With regard to case, a search returns lines that hold the query, and
/// every line of the document that holds it.
pub proof fn lemma_case_sensitive_search_is_exact(query: Seq<char>, contents: Seq<char>)
    ensures
        forall|j: int|
            0 <= j < matching_lines(query, contents, true).len() ==> is_substring(
                query,
                #[trigger] matching_lines(query, contents, true)[j],
            ),
        forall|at: int|
            0 <= at < lines_of(contents).len() && is_substring(query, lines_of(contents)[at])
                ==> matching_lines(query, contents, true).contains(
                #[trigger] lines_of(contents)[at],
            ),
{
    let lines = lines_of(contents);
    let found = matching_lines(query, contents, true);
    let positions = lemma_selected_positions(lines, lines, query);
    assert forall|j: int| 0 <= j < found.len() implies is_substring(query, #[trigger] found[j]) by {
        assert(key_holds(lines, query, positions[j]));
    }
    assert forall|at: int|
        0 <= at < lines.len() && is_substring(query, lines[at]) implies found.contains(
        #[trigger] lines[at],
    ) by {
        assert(key_holds(lines, query, at));
        assert(positions.contains(at));
        let j = choose|j: int| 0 <= j < positions.len() && positions[j] == at;
        assert(found[j] == lines[at]);
    }
}

/// Where every key holds the query, and each item has a key, all items are
/// selected.
pub proof fn lemma_select_all(lines: Seq<Seq<char>>, keys: Seq<Seq<char>>, query: Seq<char>)
    requires
        forall|at: int| 0 <= at < lines.len() ==> key_holds(keys, query, at),
    ensures
        select_by_key(lines, keys, query) == lines,
    decreases lines.len(),
{
    if lines.len() > 0 {
        lemma_select_all(lines.drop_last(), keys, query);
        assert(lines.drop_last().push(lines.last()) =~= lines);
    }
}

/// Where no key holds the query, nothing is selected.
pub proof fn lemma_select_none(lines: Seq<Seq<char>>, keys: Seq<Seq<char>>, query: Seq<char>)
    requires
        forall|at: int| 0 <= at < lines.len() ==> !key_holds(keys, query, at),
    ensures
        select_by_key(lines, keys, query) == Seq::<Seq<char>>::empty(),
    decreases lines.len(),
{
    if lines.len() > 0 {
        lemma_select_none(lines.drop_last(), keys, query);
    }
}

/// With regard to case, the empty query finds every line of the document.
pub proof fn lemma_empty_query_finds_every_line(contents: Seq<char>)
    ensures
        matching_lines(Seq::<char>::empty(), contents, true) == lines_of(contents),
{
    let lines = lines_of(contents);
    assert forall|at: int| 0 <= at < lines.len() implies key_holds(
        lines,
        Seq::<char>::empty(),
        at,
    ) by {
        lemma_empty_is_substring(lines[at]);
    }
    lemma_select_all(lines, lines, Seq::<char>::empty());
}

/// With regard to case, a query that no line of the document holds finds
/// nothing.
pub proof fn lemma_absent_query_finds_nothing(query: Seq<char>, contents: Seq<char>)
    requires
        forall|at: int|
            0 <= at < lines_of(contents).len() ==> !is_substring(query, lines_of(contents)[at]),
    ensures
        matching_lines(query, contents, true) == Seq::<Seq<char>>::empty(),
{
    lemma_select_none(lines_of(contents), lines_of(contents), query);
}

/// Two searches that are given the same query, document and flag return the
/// same lines.
pub proof fn lemma_search_is_repeatable(
    query: Seq<char>,
    contents: Seq<char>,
    case_sensitive: bool,
    first: Seq<Seq<char>>,
    second: Seq<Seq<char>>,
)
    requires
        first == matching_lines(query, contents, case_sensitive),
        second == matching_lines(query, contents, case_sensitive),
    ensures
        first == second,
{
}

/// The empty document has no line, so a search of it finds nothing.
pub proof fn lemma_empty_contents_hold_nothing(query: Seq<char>, case_sensitive: bool)
    ensures
        matching_lines(query, Seq::<char>::empty(), case_sensitive) == Seq::<Seq<char>>::empty(),
{
}

/// The items of `lines` at the positions at which `keys` has an item that
/// holds `query`.
fn select<'a>(lines: &Vec<&'a str>, keys: &Vec<&str>, query: &str) -> (out: Vec<&'a str>)
    ensures
        texts(out@) == select_by_key(texts(lines@), texts(keys@), query@),
{
    let mut out: Vec<&'a str> = Vec::new();
    let mut at: usize = 0;
    while at < lines.len()
        invariant
            at <= lines.len(),
            texts(out@) == select_by_key(texts(lines@).take(at as int), texts(keys@), query@),
        decreases lines.len() - at,
    {
        let ghost before = texts(out@);
        let ghost seen = texts(lines@).take(at + 1);
        assert(seen.drop_last() =~= texts(lines@).take(at as int));
        if at < keys.len() && contains(keys[at], query) {
            out.push(lines[at]);
            assert(texts(out@) =~= before.push(seen[at as int]));
        }
        at += 1;
    }
    assert(texts(lines@).take(at as int) =~= texts(lines@));
    out
}

/// The lines of `contents`, each a slice of it, whose counterpart among the
/// lines of `keys` holds `query`. `keys` is `contents` in the form in which
/// it is compared: `contents` itself, or a folded copy of it.
pub fn search_by_keys<'a>(query: &str, contents: &'a str, keys: &str) -> (out: Vec<&'a str>)
    ensures
        texts(out@) == lines_matched_by(query@, contents@, keys@),
{
    let lines = split_lines(contents);
    let key_lines = split_lines(keys);
    select(&lines, &key_lines, query)
}

/// The lines of `contents` that hold `query`, each a slice of `contents`, in
/// the order in which they stand. Without regard to case where
/// `case_sensitive` is false: the lines are then found by the lower-cased
/// forms of `query` and `contents`, and returned as they stand in `contents`.
pub fn search<'a>(query: &str, contents: &'a str, case_sensitive: bool) -> (out: Vec<&'a str>)
    ensures
        texts(out@) == matching_lines(query@, contents@, case_sensitive),
{
    if case_sensitive {
        let lines = split_lines(contents);
        select(&lines, &lines, query)
    } else {
        let folded_query = to_lowercase(query);
        let folded_contents = to_lowercase(contents);
        search_by_keys(folded_query.as_str(), contents, folded_contents.as_str())
    }
}

} // verus!
