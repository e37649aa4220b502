//! What the library asks of `std::path::Path`, and of std's string conversions.

use crate::text::{all_ascii, ascii_lower, has_substring};
use std::path::Path;
use vstd::prelude::*;

verus! {

/// Whether two path strings denote equal `std::path::Path` values.
pub uninterp spec fn std_path_eq(a: Seq<char>, b: Seq<char>) -> bool;

/// The final component of a path string, as `std::path::Path::file_name` gives it.
pub uninterp spec fn std_file_name(p: Seq<char>) -> Option<Seq<char>>;

/// The lower-case form of a string, as `str::to_lowercase` gives it.
pub uninterp spec fn std_lowercase(s: Seq<char>) -> Seq<char>;

/// The lower-case form of a string as `str::to_lowercase` gives it: the ASCII
/// lower-casing for an ASCII string, and otherwise `std_lowercase` of the string with its
/// ASCII letters already lower-cased.
pub open spec fn lowered(s: Seq<char>) -> Seq<char> {
    if all_ascii(s) {
        ascii_lower(s)
    } else {
        std_lowercase(ascii_lower(s))
    }
}

/// Compares `Path::new(a)` with `Path::new(b)` by `<Path as PartialEq>::eq`,
/// which compares the paths component by component.
/// Claimed, as `Path`'s `Eq` promises (an equivalence): the result is `std_path_eq`
/// of the two strings; it is the same with the two swapped; two identical strings are
/// equal paths; and two equal paths are equal to the same paths, on either side.
/// Which different strings std counts as equal paths is left to the name.
#[verifier::external_body]
pub(crate) fn path_eq(a: &str, b: &str) -> (r: bool)
    ensures
        r == std_path_eq(a@, b@),
        r == std_path_eq(b@, a@),
        a@ == b@ ==> r,
        r ==> forall|c: Seq<char>|
            #![trigger std_path_eq(a@, c)]
            #![trigger std_path_eq(b@, c)]
            std_path_eq(a@, c) == std_path_eq(b@, c),
        r ==> forall|c: Seq<char>|
            #![trigger std_path_eq(c, a@)]
            #![trigger std_path_eq(c, b@)]
            std_path_eq(c, a@) == std_path_eq(c, b@),
{
    Path::new(a) == Path::new(b)
}

/// Calls `Path::file_name` on `Path::new(p)` and converts the name back to a `String`
/// (lossless, as the path came from a `str`).
/// Claimed: the result is `std_file_name` of `p`, `None` where std finds no final
/// component (such as for `/` or a path that ends in `..`); a final component is a
/// piece of the path's own text (std hands out a slice of the path).
#[verifier::external_body]
pub(crate) fn file_name(p: &str) -> (r: Option<String>)
    ensures
        match r {
            Some(n) => std_file_name(p@) == Some(n@) && has_substring(p@, n@),
            None => std_file_name(p@) is None,
        },
{
    match Path::new(p).file_name() {
        Some(n) => Some(n.to_string_lossy().into_owned()),
        None => None,
    }
}

/// Calls `str::to_lowercase`, which maps each character to its Unicode lower case.
/// Claimed: the result is `std_lowercase` of `s`. An ASCII string comes out with its
/// letters `A`-`Z` turned into `a`-`z` and nothing else changed; and lower-casing the
/// ASCII letters first changes nothing (their lower case is themselves, and the only
/// context-dependent rule, final sigma, reads `A` and `a` alike as cased letters).
/// The case tables beyond ASCII are left to the name.
#[verifier::external_body]
pub(crate) fn to_lowercase(s: &str) -> (r: String)
    ensures
        r@ == std_lowercase(s@),
        r@ == std_lowercase(ascii_lower(s@)),
        all_ascii(s@) ==> r@ == ascii_lower(s@),
{
    s.to_lowercase()
}

/// Collects characters into a `String` by `FromIterator<char>`.
/// Claimed: the string holds exactly the characters of `v`, in order.
#[verifier::external_body]
pub(crate) fn string_from_chars(v: &Vec<char>) -> (r: String)
    ensures
        r@ == v@,
{
    v.iter().collect()
}

} // verus!
