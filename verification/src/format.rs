//! The text form of the cache: one entry per line, a frequency, a tab and a path.

use crate::cache::entry_views;
use crate::path::string_from_chars;
use crate::text::{
    chars_of, decimal, is_digit, is_ws, lemma_decimal_digits,
    lemma_lines_cons, lemma_trim_unchanged, lines, line_ranges, parse_u64, parse_u64_spec, pieces,
    push_decimal, strip_cr, trim, trim_range, unsigned_digits,
};
use vstd::prelude::*;

verus! {

/// The line that stands for one entry: its frequency in decimal, a tab, its path, a newline.
pub open spec fn entry_line(e: (u64, Seq<char>)) -> Seq<char> {
    decimal(e.0 as nat) + seq!['\t'] + e.1 + seq!['\n']
}

/// The text that stands for a list of entries: their lines, in order.
pub open spec fn serialized(es: Seq<(u64, Seq<char>)>) -> Seq<char>
    decreases es.len(),
{
    if es.len() == 0 {
        seq![]
    } else {
        entry_line(es[0]) + serialized(es.drop_first())
    }
}

/// The index of the first space or tab in `t`, or the length of `t` when it holds none.
pub open spec fn sep_pos(t: Seq<char>) -> nat
    decreases t.len(),
{
    if t.len() == 0 {
        0
    } else if t[0] == ' ' || t[0] == '\t' {
        0
    } else {
        1 + sep_pos(t.drop_first())
    }
}

/// The entry that a line stands for: the line is trimmed and split at its first space
/// or tab; the part before is the frequency, the trimmed part after is the path.
/// `None` where there is no space or tab, or the frequency is no `u64`.
pub open spec fn parse_line(line: Seq<char>) -> Option<(u64, Seq<char>)> {
    let t = trim(line);
    let k = sep_pos(t);
    if k < t.len() {
        match parse_u64_spec(t.take(k as int)) {
            Some(n) => Some((n, trim(t.skip(k + 1 as int)))),
            None => None,
        }
    } else {
        None
    }
}

/// The entries that a list of lines stands for, `None` where some line stands for none.
pub open spec fn parse_lines(ls: Seq<Seq<char>>) -> Option<Seq<(u64, Seq<char>)>>
    decreases ls.len(),
{
    if ls.len() == 0 {
        Some(seq![])
    } else {
        match (parse_line(ls[0]), parse_lines(ls.drop_first())) {
            (Some(e), Some(rest)) => Some(seq![e] + rest),
            _ => None,
        }
    }
}

/// The entries that a cache text stands for, `None` where some line stands for none.
pub open spec fn parsed(text: Seq<char>) -> Option<Seq<(u64, Seq<char>)>> {
    parse_lines(lines(text))
}

/// Where a run of `m` characters free of spaces and tabs is followed by one or by the
/// end, the first separator is at `m`.
proof fn lemma_sep_pos(t: Seq<char>, m: int)
    requires
        0 <= m <= t.len(),
        forall|k: int| 0 <= k < m ==> t[k] != ' ' && t[k] != '\t',
        m == t.len() || t[m] == ' ' || t[m] == '\t',
    ensures
        sep_pos(t) == m,
    decreases m,
{
    if m > 0 {
        lemma_sep_pos(t.drop_first(), m - 1);
    }
}

/// A copy of `s[lo..hi]`.
fn copy_range(s: &Vec<char>, lo: usize, hi: usize) -> (v: Vec<char>)
    requires
        lo <= hi <= s.len(),
    ensures
        v@ == s@.subrange(lo as int, hi as int),
{
    let mut v: Vec<char> = Vec::new();
    let mut i = lo;
    while i < hi
        invariant
            lo <= i <= hi <= s.len(),
            v@ == s@.subrange(lo as int, i as int),
        decreases hi - i,
    {
        v.push(s[i]);
        assert(v@ =~= s@.subrange(lo as int, i + 1));
        i = i + 1;
    }
    v
}

/// The entry that the line `s[lo..hi]` stands for.
pub fn parse_entry(s: &Vec<char>, lo: usize, hi: usize) -> (r: Option<(u64, String)>)
    requires
        lo <= hi <= s.len(),
    ensures
        match r {
            Some(e) => parse_line(s@.subrange(lo as int, hi as int)) == Some((e.0, e.1@)),
            None => parse_line(s@.subrange(lo as int, hi as int)) is None,
        },
{
    let (a, b) = trim_range(s, lo, hi);
    let ghost t = s@.subrange(a as int, b as int);
    let mut k = a;
    while k < b && s[k] != ' ' && s[k] != '\t'
        invariant
            a <= k <= b <= s.len(),
            forall|j: int| a <= j < k ==> s@[j] != ' ' && s@[j] != '\t',
        decreases b - k,
    {
        k = k + 1;
    }
    proof {
        lemma_sep_pos(t, k - a);
    }
    if k == b {
        return None;
    }
    assert(t.take(k - a) =~= s@.subrange(a as int, k as int));
    assert(t.skip(k - a + 1) =~= s@.subrange(k + 1, b as int));
    match parse_u64(s, a, k) {
        None => None,
        Some(n) => {
            let (c, d) = trim_range(s, k + 1, b);
            let path = copy_range(s, c, d);
            Some((n, string_from_chars(&path)))
        },
    }
}

/// `parse_lines` gives the entry of each line where every line stands for one, and
/// `None` where some line stands for none.
proof fn lemma_parse_lines(ls: Seq<Seq<char>>)
    ensures
        (forall|i: int| 0 <= i < ls.len() ==> (#[trigger] parse_line(ls[i])) is Some)
            ==> parse_lines(ls) == Some(ls.map_values(|l: Seq<char>| parse_line(l).unwrap())),
        (exists|i: int| 0 <= i < ls.len() && (#[trigger] parse_line(ls[i])) is None)
            ==> parse_lines(ls) is None,
    decreases ls.len(),
{
    if ls.len() > 0 {
        let rest = ls.drop_first();
        lemma_parse_lines(rest);
        assert forall|i: int| 0 <= i < rest.len() implies rest[i] == ls[i + 1] by {}
        if forall|i: int| 0 <= i < ls.len() ==> (#[trigger] parse_line(ls[i])) is Some {
            assert(parse_line(ls[0]) is Some);
            assert forall|i: int| 0 <= i < rest.len() implies (#[trigger] parse_line(rest[i])) is Some by {
                assert(parse_line(ls[i + 1]) is Some);
            }
            assert(seq![parse_line(ls[0]).unwrap()] + rest.map_values(
                |l: Seq<char>| parse_line(l).unwrap(),
            ) =~= ls.map_values(|l: Seq<char>| parse_line(l).unwrap()));
        }
        if exists|i: int| 0 <= i < ls.len() && (#[trigger] parse_line(ls[i])) is None {
            let i = choose|i: int| 0 <= i < ls.len() && (#[trigger] parse_line(ls[i])) is None;
            if i > 0 {
                assert(parse_line(rest[i - 1]) is None);
            }
        }
    }
}

/// The entries that `text` stands for, as `parsed` gives them.
pub fn parse_entries(text: &str) -> (r: Option<Vec<(u64, String)>>)
    ensures
        match r {
            Some(es) => parsed(text@) == Some(entry_views(es@)),
            None => parsed(text@) is None,
        },
{
    let s = chars_of(text);
    let ranges = line_ranges(&s);
    let ghost ls = lines(s@);
    let mut es: Vec<(u64, String)> = Vec::new();
    let mut i: usize = 0;
    while i < ranges.len()
        invariant
            i <= ranges@.len(),
            s@ == text@,
            ls == lines(s@),
            pieces(s@, ranges@) == ls,
            forall|k: int| 0 <= k < ranges.len() ==> (#[trigger] ranges[k]).0 <= ranges[k].1 <= s.len(),
            es@.len() == i,
            forall|k: int| 0 <= k < i ==> #[trigger] parse_line(ls[k]) == Some(entry_views(es@)[k]),
        decreases ranges@.len() - i,
    {
        let (lo, hi) = ranges[i];
        assert(ls[i as int] == s@.subrange(lo as int, hi as int));
        match parse_entry(&s, lo, hi) {
            None => {
                assert(parse_line(ls[i as int]) is None);
                proof {
                    lemma_parse_lines(ls);
                }
                return None;
            },
            Some(e) => {
                let ghost prev = es@;
                es.push(e);
                assert forall|k: int| 0 <= k < i + 1 implies #[trigger] parse_line(ls[k]) == Some(
                    entry_views(es@)[k],
                ) by {
                    if k < i {
                        assert(entry_views(es@)[k] == entry_views(prev)[k]);
                    }
                }
            },
        }
        i = i + 1;
    }
    assert forall|k: int| 0 <= k < ls.len() implies (#[trigger] parse_line(ls[k])) is Some by {}
    proof {
        lemma_parse_lines(ls);
    }
    assert(ls.map_values(|l: Seq<char>| parse_line(l).unwrap()) =~= entry_views(es@));
    Some(es)
}


/// Appending an entry appends its line.
proof fn lemma_serialized_push(es: Seq<(u64, Seq<char>)>, e: (u64, Seq<char>))
    ensures
        serialized(es.push(e)) == serialized(es) + entry_line(e),
    decreases es.len(),
{
    if es.len() == 0 {
        assert(es.push(e).drop_first() =~= Seq::<(u64, Seq<char>)>::empty());
        assert(es.push(e)[0] == e);
        assert(serialized(Seq::<(u64, Seq<char>)>::empty()) =~= Seq::<char>::empty());
        assert(serialized(es.push(e)) =~= entry_line(e));
    } else {
        lemma_serialized_push(es.drop_first(), e);
        assert(es.push(e).drop_first() =~= es.drop_first().push(e));
        assert(serialized(es.push(e)) =~= serialized(es) + entry_line(e));
    }
}

/// The cache text for `es`, as `serialized` gives it.
pub fn serialize_entries(es: &Vec<(u64, String)>) -> (r: String)
    ensures
        r@ == serialized(entry_views(es@)),
{
    let ghost v = entry_views(es@);
    let mut out: Vec<char> = Vec::new();
    let mut i: usize = 0;
    assert(v.take(0) =~= Seq::<(u64, Seq<char>)>::empty());
    while i < es.len()
        invariant
            i <= es@.len(),
            v == entry_views(es@),
            out@ == serialized(v.take(i as int)),
        decreases es@.len() - i,
    {
        let ghost before = out@;
        push_decimal(&mut out, es[i].0);
        out.push('\t');
        let mut p = chars_of(es[i].1.as_str());
        out.append(&mut p);
        out.push('\n');
        proof {
            assert(v.take(i + 1) =~= v.take(i as int).push(v[i as int]));
            lemma_serialized_push(v.take(i as int), v[i as int]);
            assert(out@ =~= before + entry_line(v[i as int]));
        }
        i = i + 1;
    }
    assert(v.take(i as int) =~= v);
    string_from_chars(&out)
}

/// A path that survives a round trip through the cache text: not empty, without
/// whitespace at either end, and without newlines.
pub open spec fn storable(p: Seq<char>) -> bool {
    &&& p.len() > 0
    &&& !is_ws(p[0])
    &&& !is_ws(p.last())
    &&& forall|i: int| 0 <= i < p.len() ==> p[i] != '\n'
}

/// The line of an entry with a storable path reads back as that entry.
proof fn lemma_parse_entry_line(e: (u64, Seq<char>))
    requires
        storable(e.1),
    ensures
        ({
            let a = decimal(e.0 as nat) + seq!['\t'] + e.1;
            &&& forall|i: int| 0 <= i < a.len() ==> a[i] != '\n'
            &&& strip_cr(a) == a
            &&& parse_line(a) == Some(e)
        }),
{
    let d = decimal(e.0 as nat);
    let p = e.1;
    let a = d + seq!['\t'] + p;
    lemma_decimal_digits(e.0 as nat);
    assert(is_digit(d[0]));
    assert forall|i: int| 0 <= i < a.len() implies a[i] != '\n' by {
        if i < d.len() {
            assert(is_digit(d[i]));
        } else if i > d.len() {
            assert(a[i] == p[i - d.len() - 1]);
        }
    }
    assert(a.last() == p.last());
    assert(a[0] == d[0]);
    lemma_trim_unchanged(a);
    lemma_trim_unchanged(p);
    assert forall|k: int| 0 <= k < d.len() implies a[k] != ' ' && a[k] != '\t' by {
        assert(is_digit(d[k]));
    }
    lemma_sep_pos(a, d.len() as int);
    assert(a.take(d.len() as int) =~= d);
    assert(a.skip(d.len() + 1 as int) =~= p);
    assert(unsigned_digits(d) == d);
}

/// Reading back the text of a list of entries gives the same entries, where every path
/// is storable.
pub proof fn lemma_text_round_trip(es: Seq<(u64, Seq<char>)>)
    requires
        forall|i: int| 0 <= i < es.len() ==> storable(#[trigger] es[i].1),
    ensures
        parsed(serialized(es)) == Some(es),
    decreases es.len(),
{
    if es.len() == 0 {
        assert(lines(Seq::<char>::empty()) =~= Seq::<Seq<char>>::empty());
    } else {
        let e = es[0];
        let rest = es.drop_first();
        assert forall|i: int| 0 <= i < rest.len() implies storable(#[trigger] rest[i].1) by {
            assert(rest[i] == es[i + 1]);
        }
        lemma_text_round_trip(rest);
        assert(storable(es[0].1));
        lemma_parse_entry_line(e);
        let a = decimal(e.0 as nat) + seq!['\t'] + e.1;
        let tail = serialized(rest);
        assert(serialized(es) =~= a + seq!['\n'] + tail);
        lemma_lines_cons(a, tail);
        let ls = lines(serialized(es));
        assert(ls[0] == a);
        assert(ls.drop_first() =~= lines(tail));
        assert(seq![e] + rest =~= es);
    }
}

} // verus!
