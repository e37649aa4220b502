//! Matching a query against project paths.

use crate::path::{file_name, lowered, std_file_name, string_from_chars, to_lowercase};
use crate::text::{
    all_ascii, ascii_lower, chars_of, contains_substring, has_substring, lemma_ascii_lower_keeps_ascii,
    lemma_has_empty, lemma_has_substring_is_run, lemma_substring_ascii, lemma_substring_ascii_lower, lemma_substring_trans,
};
use vstd::prelude::*;

verus! {

/// Which part of a path a query is matched against.
#[allow(non_camel_case_types)]
#[derive(Debug, Clone, Copy)]
pub enum SearchKind {
    /// The final component of the path only.
    BASENAME,
    /// The whole path.
    FULL,
}

/// The text of path `p` that a search of kind `kind` looks at: the whole path, or its
/// final component (`None` where the path has none).
pub open spec fn searched_text(kind: SearchKind, p: Seq<char>) -> Option<Seq<char>> {
    match kind {
        SearchKind::BASENAME => std_file_name(p),
        SearchKind::FULL => Some(p),
    }
}

/// A search of kind `kind` can look at path `p`: it has the text the search needs.
pub open spec fn searchable(kind: SearchKind, p: Seq<char>) -> bool {
    searched_text(kind, p) is Some
}

/// Path `p` matches `query`: the lower-cased query occurs in the lower-cased searched
/// text, lower-casing as `str::to_lowercase` does.
pub open spec fn matches(kind: SearchKind, p: Seq<char>, query: Seq<char>) -> bool {
    has_substring(lowered(searched_text(kind, p).unwrap()), lowered(query))
}

/// A path matches a query exactly when the lower-cased query occurs as one unbroken run
/// of characters in the lower-cased searched text; having all its characters somewhere
/// in the text is not enough.
pub proof fn lemma_match_is_contiguous(kind: SearchKind, p: Seq<char>, query: Seq<char>)
    ensures
        matches(kind, p, query) <==> exists|i: int|
            0 <= i && i + lowered(query).len() <= lowered(searched_text(kind, p).unwrap()).len()
                && #[trigger] lowered(searched_text(kind, p).unwrap()).skip(i).take(
                lowered(query).len() as int,
            ) == lowered(query),
{
    lemma_has_substring_is_run(lowered(searched_text(kind, p).unwrap()), lowered(query));
}

/// Lower-casing gives the same result for two strings that differ only in the case of
/// ASCII letters.
proof fn lemma_lowered_ascii_case(a: Seq<char>, b: Seq<char>)
    requires
        ascii_lower(a) == ascii_lower(b),
    ensures
        lowered(a) == lowered(b),
{
    lemma_ascii_lower_keeps_ascii(a, b);
}

/// A search ignores the case of ASCII letters: queries that differ only in it match the
/// same paths, and paths whose searched texts differ only in it match the same queries.
pub proof fn lemma_search_ignores_ascii_case(
    kind: SearchKind,
    p1: Seq<char>,
    p2: Seq<char>,
    q1: Seq<char>,
    q2: Seq<char>,
)
    requires
        searchable(kind, p1),
        searchable(kind, p2),
        ascii_lower(searched_text(kind, p1).unwrap()) == ascii_lower(searched_text(kind, p2).unwrap()),
        ascii_lower(q1) == ascii_lower(q2),
    ensures
        matches(kind, p1, q1) == matches(kind, p2, q2),
{
    lemma_lowered_ascii_case(searched_text(kind, p1).unwrap(), searched_text(kind, p2).unwrap());
    lemma_lowered_ascii_case(q1, q2);
}

/// A full-path search ignores the case of ASCII letters in the path and the query.
pub proof fn lemma_full_search_ignores_ascii_case(p1: Seq<char>, p2: Seq<char>, q1: Seq<char>, q2: Seq<char>)
    requires
        ascii_lower(p1) == ascii_lower(p2),
        ascii_lower(q1) == ascii_lower(q2),
    ensures
        matches(SearchKind::FULL, p1, q1) == matches(SearchKind::FULL, p2, q2),
{
    lemma_search_ignores_ascii_case(SearchKind::FULL, p1, p2, q1, q2);
}

/// Where an ASCII query matches a path, so does every ASCII query that it contains.
pub proof fn lemma_shorter_query_matches(kind: SearchKind, p: Seq<char>, q1: Seq<char>, q2: Seq<char>)
    requires
        all_ascii(q1),
        all_ascii(q2),
        has_substring(q1, q2),
        matches(kind, p, q1),
    ensures
        matches(kind, p, q2),
{
    lemma_substring_ascii_lower(q1, q2);
    lemma_substring_trans(lowered(searched_text(kind, p).unwrap()), ascii_lower(q1), ascii_lower(q2));
}

/// The empty query matches every path.
pub proof fn lemma_empty_query_matches(kind: SearchKind, p: Seq<char>)
    ensures
        matches(kind, p, Seq::<char>::empty()),
{
    assert(ascii_lower(Seq::<char>::empty()) =~= Seq::<char>::empty());
    assert(all_ascii(Seq::<char>::empty()));
    lemma_has_empty(lowered(searched_text(kind, p).unwrap()));
}

/// Where the final component of an ASCII path holds the lower-cased query, so does the
/// whole path.
proof fn lemma_name_match_is_full_match(p: Seq<char>, name: Seq<char>, q: Seq<char>)
    requires
        all_ascii(p),
        has_substring(p, name),
        has_substring(lowered(name), lowered(q)),
    ensures
        matches(SearchKind::FULL, p, q),
{
    lemma_substring_ascii(p, name);
    lemma_substring_ascii_lower(p, name);
    lemma_substring_trans(ascii_lower(p), ascii_lower(name), lowered(q));
}

/// The views of a slice of strings.
pub open spec fn string_views(v: Seq<String>) -> Seq<Seq<char>> {
    v.map_values(|s: String| s@)
}

impl SearchKind {
    /// Whether path `p` matches `query`, ignoring case.
    pub fn search(&self, p: &str, query: &str) -> (r: bool)
        requires
            searchable(*self, p@),
        ensures
            r == matches(*self, p@, query@),
            r && all_ascii(p@) ==> matches(SearchKind::FULL, p@, query@),
    {
        let q_low = to_lowercase(query);
        let text = match *self {
            SearchKind::BASENAME => {
                let name = file_name(p);
                match name {
                    Some(n) => {
                        let t = to_lowercase(n.as_str());
                        let hay = chars_of(t.as_str());
                        let needle = chars_of(q_low.as_str());
                        let r = contains_substring(&hay, &needle);
                        proof {
                            if r && all_ascii(p@) {
                                lemma_name_match_is_full_match(p@, n@, query@);
                            }
                        }
                        return r;
                    },
                    None => {
                        assert(false);
                        return false;
                    },
                }
            },
            SearchKind::FULL => to_lowercase(p),
        };
        let hay = chars_of(text.as_str());
        let needle = chars_of(q_low.as_str());
        contains_substring(&hay, &needle)
    }

    /// Whether path `p` matches `query`, or `None` where the path has no final
    /// component to search in.
    pub fn try_search(&self, p: &str, query: &str) -> (r: Option<bool>)
        ensures
            r == (if searchable(*self, p@) {
                Some(matches(*self, p@, query@))
            } else {
                None
            }),
    {
        match *self {
            SearchKind::BASENAME => {
                if file_name(p).is_none() {
                    return None;
                }
            },
            SearchKind::FULL => {},
        }
        Some(self.search(p, query))
    }

    /// The text under which path `p` is shown in this kind of search: the whole path or
    /// its final component, `None` where the path has none.
    pub fn label(&self, p: &str) -> (r: Option<String>)
        ensures
            match r {
                Some(t) => searched_text(*self, p@) == Some(t@),
                None => searched_text(*self, p@) is None,
            },
    {
        match *self {
            SearchKind::BASENAME => file_name(p),
            SearchKind::FULL => Some(p.to_owned()),
        }
    }
}

/// The paths that match `query`, in their order; `None` where one of them has no
/// text to search in.
pub fn search_paths(paths: &[String], kind: SearchKind, query: &str) -> (r: Option<Vec<String>>)
    ensures
        match r {
            Some(found) => {
                &&& forall|i: int| 0 <= i < paths@.len() ==> searchable(kind, #[trigger] paths@[i]@)
                &&& string_views(found@) == string_views(paths@).filter(
                    |p: Seq<char>| matches(kind, p, query@),
                )
            },
            None => exists|i: int| 0 <= i < paths@.len() && !searchable(kind, #[trigger] paths@[i]@),
        },
{
    let mut found: Vec<String> = Vec::new();
    let ghost pred = |p: Seq<char>| matches(kind, p, query@);
    let mut i: usize = 0;
    while i < paths.len()
        invariant
            i <= paths@.len(),
            pred == (|p: Seq<char>| matches(kind, p, query@)),
            forall|k: int| 0 <= k < i ==> searchable(kind, #[trigger] paths@[k]@),
            string_views(found@) == string_views(paths@).take(i as int).filter(pred),
        decreases paths@.len() - i,
    {
        let ghost prev = found@;
        let m = kind.try_search(paths[i].as_str(), query);
        assert(string_views(paths@).take(i + 1) =~= string_views(paths@).take(i as int).push(
            paths@[i as int]@,
        ));
        proof {
            string_views(paths@).take(i as int).lemma_filter_push(paths@[i as int]@, pred);
        }
        match m {
            None => {
                return None;
            },
            Some(true) => {
                assert(pred(paths@[i as int]@));
                found.push(paths[i].clone());
                assert(string_views(found@) =~= string_views(prev).push(paths@[i as int]@));
            },
            Some(false) => {
                assert(!pred(paths@[i as int]@));
            },
        }
        i = i + 1;
    }
    assert(string_views(paths@).take(i as int) =~= string_views(paths@));
    Some(found)
}


/// The answer of a menu tool without its last character, the newline that ends it.
pub open spec fn answer_text(s: Seq<char>) -> Seq<char> {
    if s.len() > 0 {
        s.drop_last()
    } else {
        s
    }
}

/// The paths that a menu tool's answer chose: for a full-path search the answered path
/// itself; for a basename search every path whose final component is the answer, in
/// order, or `None` where some path has no final component.
pub fn pick_response(paths: &[String], kind: SearchKind, response: &str) -> (r: Option<Vec<String>>)
    ensures
        match kind {
            SearchKind::FULL => r matches Some(v) && string_views(v@) == seq![answer_text(response@)],
            SearchKind::BASENAME => match r {
                Some(v) => {
                    &&& forall|i: int| 0 <= i < paths@.len() ==> (#[trigger] std_file_name(paths@[i]@)) is Some
                    &&& string_views(v@) == string_views(paths@).filter(
                        |p: Seq<char>| std_file_name(p) == Some(answer_text(response@)),
                    )
                },
                None => exists|i: int| 0 <= i < paths@.len() && (#[trigger] std_file_name(paths@[i]@)) is None,
            },
        },
{
    let mut cs = chars_of(response);
    if cs.len() > 0 {
        cs.pop();
    }
    let answer = string_from_chars(&cs);
    assert(answer@ =~= answer_text(response@));
    match kind {
        SearchKind::FULL => {
            let v = vec![answer];
            assert(string_views(v@) =~= seq![answer_text(response@)]);
            Some(v)
        },
        SearchKind::BASENAME => {
            let ghost pred = |p: Seq<char>| std_file_name(p) == Some(answer_text(response@));
            let mut found: Vec<String> = Vec::new();
            let mut i: usize = 0;
            while i < paths.len()
                invariant
                    i <= paths@.len(),
                    kind is BASENAME,
                    answer@ == answer_text(response@),
                    pred == (|p: Seq<char>| std_file_name(p) == Some(answer_text(response@))),
                    forall|k: int| 0 <= k < i ==> (#[trigger] std_file_name(paths@[k]@)) is Some,
                    string_views(found@) == string_views(paths@).take(i as int).filter(pred),
                decreases paths@.len() - i,
            {
                let ghost prev = found@;
                assert(string_views(paths@).take(i + 1) =~= string_views(paths@).take(i as int).push(
                    paths@[i as int]@,
                ));
                proof {
                    string_views(paths@).take(i as int).lemma_filter_push(paths@[i as int]@, pred);
                }
                match file_name(paths[i].as_str()) {
                    None => {
                        return None;
                    },
                    Some(n) => {
                        if n == answer {
                            assert(pred(paths@[i as int]@));
                            found.push(paths[i].clone());
                            assert(string_views(found@) =~= string_views(prev).push(paths@[i as int]@));
                        } else {
                            assert(!pred(paths@[i as int]@));
                        }
                    },
                }
                i = i + 1;
            }
            assert(string_views(paths@).take(i as int) =~= string_views(paths@));
            Some(found)
        },
    }
}

} // verus!
