//! Character-level text handling: whitespace, trimming, lines and decimal numbers.

use vstd::prelude::*;

verus! {

/// The characters with the Unicode `White_Space` property.
pub open spec fn is_ws(c: char) -> bool {
    ||| ('\u{9}' <= c && c <= '\u{d}')
    ||| c == ' '
    ||| c == '\u{85}'
    ||| c == '\u{a0}'
    ||| c == '\u{1680}'
    ||| ('\u{2000}' <= c && c <= '\u{200a}')
    ||| c == '\u{2028}'
    ||| c == '\u{2029}'
    ||| c == '\u{202f}'
    ||| c == '\u{205f}'
    ||| c == '\u{3000}'
}

/// Whether `c` is whitespace in the sense of Unicode's `White_Space` property.
pub fn is_whitespace(c: char) -> (r: bool)
    ensures
        r == is_ws(c),
{
    ('\u{9}' <= c && c <= '\u{d}') || c == ' ' || c == '\u{85}' || c == '\u{a0}' || c == '\u{1680}'
        || ('\u{2000}' <= c && c <= '\u{200a}') || c == '\u{2028}' || c == '\u{2029}' || c
        == '\u{202f}' || c == '\u{205f}' || c == '\u{3000}'
}


/// `s` with its leading whitespace removed.
pub open spec fn trim_start(s: Seq<char>) -> Seq<char>
    decreases s.len(),
{
    if s.len() > 0 && is_ws(s[0]) {
        trim_start(s.drop_first())
    } else {
        s
    }
}

/// `s` with its trailing whitespace removed.
pub open spec fn trim_end(s: Seq<char>) -> Seq<char>
    decreases s.len(),
{
    if s.len() > 0 && is_ws(s.last()) {
        trim_end(s.drop_last())
    } else {
        s
    }
}

/// `s` with leading and trailing whitespace removed.
pub open spec fn trim(s: Seq<char>) -> Seq<char> {
    trim_end(trim_start(s))
}

/// The bounds, within `lo..hi`, of `s[lo..hi]` trimmed of whitespace on both ends.
pub fn trim_range(s: &Vec<char>, lo: usize, hi: usize) -> (r: (usize, usize))
    requires
        lo <= hi <= s.len(),
    ensures
        lo <= r.0 <= r.1 <= hi,
        s@.subrange(r.0 as int, r.1 as int) == trim(s@.subrange(lo as int, hi as int)),
{
    let mut i = lo;
    while i < hi && is_whitespace(s[i])
        invariant
            lo <= i <= hi <= s.len(),
            trim_start(s@.subrange(lo as int, hi as int)) == trim_start(
                s@.subrange(i as int, hi as int),
            ),
        decreases hi - i,
    {
        assert(s@.subrange(i as int, hi as int).drop_first() =~= s@.subrange(
            i + 1,
            hi as int,
        ));
        i = i + 1;
    }
    let mut j = hi;
    while j > i && is_whitespace(s[j - 1])
        invariant
            lo <= i <= j <= hi <= s.len(),
            trim(s@.subrange(lo as int, hi as int)) == trim_end(s@.subrange(i as int, j as int)),
        decreases j - i,
    {
        assert(s@.subrange(i as int, j as int).drop_last() =~= s@.subrange(
            i as int,
            j - 1,
        ));
        j = j - 1;
    }
    (i, j)
}


/// The index of the first `'\n'` in `s`, or the length of `s` when it holds none.
pub open spec fn first_nl(s: Seq<char>) -> nat
    decreases s.len(),
{
    if s.len() == 0 {
        0
    } else if s[0] == '\n' {
        0
    } else {
        1 + first_nl(s.drop_first())
    }
}

/// A line without the `'\r'` that ends it, if one does.
pub open spec fn strip_cr(l: Seq<char>) -> Seq<char> {
    if l.len() > 0 && l.last() == '\r' {
        l.drop_last()
    } else {
        l
    }
}

/// The lines of `s`: the pieces between `'\n'` characters, each newline-terminated
/// piece without a final `'\r'`, and no empty piece after a final `'\n'`.
pub open spec fn lines(s: Seq<char>) -> Seq<Seq<char>>
    decreases s.len(),
{
    if s.len() == 0 {
        seq![]
    } else {
        let j = first_nl(s);
        if j < s.len() {
            seq![strip_cr(s.take(j as int))] + lines(s.skip(j + 1 as int))
        } else {
            seq![s]
        }
    }
}

/// The pieces of `s` that a list of index ranges marks out.
pub open spec fn pieces(s: Seq<char>, r: Seq<(usize, usize)>) -> Seq<Seq<char>> {
    r.map_values(|p: (usize, usize)| s.subrange(p.0 as int, p.1 as int))
}

/// Where a run of `m` characters free of `'\n'` is followed by a `'\n'` or the end,
/// the first newline is at `m`.
proof fn lemma_first_nl(t: Seq<char>, m: int)
    requires
        0 <= m <= t.len(),
        forall|k: int| 0 <= k < m ==> t[k] != '\n',
        m == t.len() || t[m] == '\n',
    ensures
        first_nl(t) == m,
    decreases m,
{
    if m > 0 {
        lemma_first_nl(t.drop_first(), m - 1);
    }
}

/// The index ranges of the lines of `s`.
pub fn line_ranges(s: &Vec<char>) -> (r: Vec<(usize, usize)>)
    ensures
        forall|k: int| 0 <= k < r.len() ==> (#[trigger] r[k]).0 <= r[k].1 <= s.len(),
        pieces(s@, r@) == lines(s@),
{
    let mut r: Vec<(usize, usize)> = Vec::new();
    let mut i: usize = 0;
    let n = s.len();
    assert(s@.skip(0) =~= s@);
    while i < n
        invariant
            n == s.len(),
            i <= n,
            forall|k: int| 0 <= k < r.len() ==> (#[trigger] r[k]).0 <= r[k].1 <= s.len(),
            pieces(s@, r@) + lines(s@.skip(i as int)) == lines(s@),
        decreases n - i,
    {
        let mut j = i;
        while j < n && s[j] != '\n'
            invariant
                n == s.len(),
                i <= j <= n,
                forall|k: int| i <= k < j ==> s@[k] != '\n',
            decreases n - j,
        {
            j = j + 1;
        }
        let ghost t = s@.skip(i as int);
        proof {
            lemma_first_nl(t, j - i);
        }
        let ghost old_r = r@;
        if j < n {
            let e = if j > i && s[j - 1] == '\r' {
                j - 1
            } else {
                j
            };
            r.push((i, e));
            proof {
                assert(t.take(j - i) =~= s@.subrange(i as int, j as int));
                assert(s@.subrange(i as int, e as int) =~= strip_cr(s@.subrange(i as int, j as int)));
                assert(t.skip(j - i + 1) =~= s@.skip(j + 1));
                assert(pieces(s@, r@) =~= pieces(s@, old_r).push(s@.subrange(i as int, e as int)));
                assert(lines(t) =~= seq![s@.subrange(i as int, e as int)] + lines(s@.skip(j + 1)));
                assert(pieces(s@, r@) + lines(s@.skip(j + 1)) =~= pieces(s@, old_r) + lines(t));
            }
            i = j + 1;
        } else {
            r.push((i, n));
            proof {
                assert(t =~= s@.subrange(i as int, n as int));
                assert(pieces(s@, r@) =~= pieces(s@, old_r).push(s@.subrange(i as int, n as int)));
                assert(s@.skip(n as int) =~= Seq::<char>::empty());
                assert(lines(s@.skip(n as int)) =~= Seq::<Seq<char>>::empty());
                assert(pieces(s@, r@) + lines(s@.skip(n as int)) =~= pieces(s@, old_r) + lines(t));
            }
            i = n;
        }
    }
    assert(s@.skip(n as int) =~= Seq::<char>::empty());
    assert(pieces(s@, r@) + lines(s@.skip(n as int)) =~= pieces(s@, r@));
    r
}


/// An ASCII decimal digit.
pub open spec fn is_digit(c: char) -> bool {
    '0' <= c && c <= '9'
}

/// The value of a decimal digit.
pub open spec fn digit_val(c: char) -> nat {
    (c as int - '0' as int) as nat
}

/// Every character of `s` is a decimal digit.
pub open spec fn all_digits(s: Seq<char>) -> bool {
    forall|i: int| 0 <= i < s.len() ==> is_digit(#[trigger] s[i])
}

/// The number that a string of decimal digits writes.
pub open spec fn digits_value(s: Seq<char>) -> nat
    decreases s.len(),
{
    if s.len() == 0 {
        0
    } else {
        digits_value(s.drop_last()) * 10 + digit_val(s.last())
    }
}

/// The digits of an unsigned number: `s` without one leading `'+'`.
pub open spec fn unsigned_digits(s: Seq<char>) -> Seq<char> {
    if s.len() > 0 && s[0] == '+' {
        s.drop_first()
    } else {
        s
    }
}

/// The `u64` that `s` writes in decimal, with an optional leading `'+'`;
/// `None` for an empty digit string, a character that is no digit, or a value past `u64::MAX`.
pub open spec fn parse_u64_spec(s: Seq<char>) -> Option<u64> {
    let d = unsigned_digits(s);
    if d.len() > 0 && all_digits(d) && digits_value(d) <= u64::MAX {
        Some(digits_value(d) as u64)
    } else {
        None
    }
}

/// A string of digits writes at least the value of each of its prefixes.
proof fn lemma_digits_value_prefix(d: Seq<char>, k: int)
    requires
        0 <= k <= d.len(),
        all_digits(d),
    ensures
        digits_value(d.take(k)) <= digits_value(d),
    decreases d.len() - k,
{
    if k < d.len() {
        lemma_digits_value_prefix(d, k + 1);
        assert(d.take(k + 1).drop_last() =~= d.take(k));
        assert(is_digit(d[k]));
    } else {
        assert(d.take(k) =~= d);
    }
}

/// The number that `s[lo..hi]` writes in decimal, as `u64::from_str` reads it.
pub fn parse_u64(s: &Vec<char>, lo: usize, hi: usize) -> (r: Option<u64>)
    requires
        lo <= hi <= s.len(),
    ensures
        r == parse_u64_spec(s@.subrange(lo as int, hi as int)),
{
    let ghost t = s@.subrange(lo as int, hi as int);
    let start = if lo < hi && s[lo] == '+' {
        lo + 1
    } else {
        lo
    };
    let ghost d = s@.subrange(start as int, hi as int);
    assert(unsigned_digits(t) =~= d);
    if start == hi {
        return None;
    }
    let mut v: u64 = 0;
    let mut i = start;
    while i < hi
        invariant
            lo <= start <= i <= hi <= s.len(),
            d == s@.subrange(start as int, hi as int),
            unsigned_digits(s@.subrange(lo as int, hi as int)) == d,
            d.take(i - start) =~= s@.subrange(start as int, i as int),
            all_digits(s@.subrange(start as int, i as int)),
            v == digits_value(s@.subrange(start as int, i as int)),
        decreases hi - i,
    {
        let c = s[i];
        if !('0' <= c && c <= '9') {
            assert(d[i - start] == c);
            assert(!is_digit(d[i - start]));
            return None;
        }
        let dv = (c as u32 - '0' as u32) as u64;
        assert(s@.subrange(start as int, i + 1).drop_last() =~= s@.subrange(start as int, i as int));
        assert(dv == digit_val(c));
        match v.checked_mul(10) {
            Some(m) => match m.checked_add(dv) {
                Some(nv) => {
                    v = nv;
                },
                None => {
                    proof {
                        if all_digits(d) {
                            lemma_digits_value_prefix(d, i + 1 - start);
                            assert(d.take(i + 1 - start) =~= s@.subrange(start as int, i + 1));
                        }
                    }
                    return None;
                },
            },
            None => {
                proof {
                    if all_digits(d) {
                        lemma_digits_value_prefix(d, i + 1 - start);
                        assert(d.take(i + 1 - start) =~= s@.subrange(start as int, i + 1));
                    }
                }
                return None;
            },
        }
        assert(all_digits(s@.subrange(start as int, i + 1)));
        i = i + 1;
    }
    Some(v)
}


/// The decimal digit character for a value below ten.
pub open spec fn digit_char(d: nat) -> char {
    if d == 0 {
        '0'
    } else if d == 1 {
        '1'
    } else if d == 2 {
        '2'
    } else if d == 3 {
        '3'
    } else if d == 4 {
        '4'
    } else if d == 5 {
        '5'
    } else if d == 6 {
        '6'
    } else if d == 7 {
        '7'
    } else if d == 8 {
        '8'
    } else {
        '9'
    }
}

/// The decimal writing of `n`, without sign or leading zeros.
pub open spec fn decimal(n: nat) -> Seq<char>
    decreases n,
{
    if n < 10 {
        seq![digit_char(n)]
    } else {
        decimal(n / 10).push(digit_char(n % 10))
    }
}

/// The digit character of a value below ten is a digit of that value.
proof fn lemma_digit_char(d: nat)
    requires
        d < 10,
    ensures
        is_digit(digit_char(d)),
        digit_val(digit_char(d)) == d,
{
    assert('0' as int == 48 && '1' as int == 49 && '2' as int == 50 && '3' as int == 51
        && '4' as int == 52 && '5' as int == 53 && '6' as int == 54 && '7' as int == 55
        && '8' as int == 56 && '9' as int == 57);
}

/// The decimal writing of a number is a non-empty string of digits that writes that number.
pub proof fn lemma_decimal_digits(n: nat)
    ensures
        decimal(n).len() > 0,
        all_digits(decimal(n)),
        digits_value(decimal(n)) == n,
    decreases n,
{
    lemma_digit_char((n % 10) as nat);
    if n < 10 {
        lemma_digit_char(n);
        assert(decimal(n).drop_last() =~= Seq::<char>::empty());
        assert(digits_value(Seq::<char>::empty()) == 0);
    } else {
        lemma_decimal_digits(n / 10);
        let d = decimal(n / 10);
        assert(decimal(n).drop_last() =~= d);
        assert(decimal(n).last() == digit_char(n % 10));
        assert(digits_value(decimal(n)) == digits_value(d) * 10 + digit_val(digit_char(n % 10)));
        assert((n / 10) * 10 + n % 10 == n) by (nonlinear_arith);
        assert forall|i: int| 0 <= i < decimal(n).len() implies is_digit(#[trigger] decimal(n)[i]) by {
            if i < d.len() {
                assert(decimal(n)[i] == d[i]);
            }
        }
    }
}

/// The character of a decimal digit.
fn digit_char_of(d: u64) -> (c: char)
    requires
        d < 10,
    ensures
        c == digit_char(d as nat),
{
    if d == 0 {
        '0'
    } else if d == 1 {
        '1'
    } else if d == 2 {
        '2'
    } else if d == 3 {
        '3'
    } else if d == 4 {
        '4'
    } else if d == 5 {
        '5'
    } else if d == 6 {
        '6'
    } else if d == 7 {
        '7'
    } else if d == 8 {
        '8'
    } else {
        '9'
    }
}

/// Appends the decimal writing of `n` to `out`.
pub fn push_decimal(out: &mut Vec<char>, n: u64)
    ensures
        final(out)@ == old(out)@ + decimal(n as nat),
    decreases n,
{
    if n >= 10 {
        push_decimal(out, n / 10);
    }
    let c = digit_char_of(n % 10);
    out.push(c);
    proof {
        if n < 10 {
            assert(decimal(n as nat) =~= seq![c]);
        }
    }
    assert(final(out)@ =~= old(out)@ + decimal(n as nat)) by {
        if n >= 10 {
            assert(decimal(n as nat) =~= decimal((n / 10) as nat).push(c));
        }
    }
}

/// `q` occurs in `s` starting at index `i`.
pub open spec fn occurs_at(s: Seq<char>, q: Seq<char>, i: int) -> bool {
    0 <= i && i + q.len() <= s.len() && s.subrange(i, i + q.len()) == q
}

/// `q` occurs somewhere in `s` as a run of consecutive characters.
pub open spec fn has_substring(s: Seq<char>, q: Seq<char>) -> bool {
    exists|i: int| #[trigger] occurs_at(s, q, i)
}

/// `q` occurs in `s` exactly when the characters of `s` from some index on begin with
/// those of `q`, in order and without gaps.
pub proof fn lemma_has_substring_is_run(s: Seq<char>, q: Seq<char>)
    ensures
        has_substring(s, q) <==> exists|i: int|
            0 <= i && i + q.len() <= s.len() && #[trigger] s.skip(i).take(q.len() as int) == q,
{
    if has_substring(s, q) {
        let i = choose|i: int| #[trigger] occurs_at(s, q, i);
        assert(s.skip(i).take(q.len() as int) =~= s.subrange(i, i + q.len()));
    }
    if exists|i: int| 0 <= i && i + q.len() <= s.len() && #[trigger] s.skip(i).take(q.len() as int) == q {
        let i = choose|i: int|
            0 <= i && i + q.len() <= s.len() && #[trigger] s.skip(i).take(q.len() as int) == q;
        assert(s.skip(i).take(q.len() as int) =~= s.subrange(i, i + q.len()));
        assert(occurs_at(s, q, i));
    }
}

/// A string with only whitespace before `t` trims at the start as `t` does.
pub proof fn lemma_trim_start_skips_ws(pre: Seq<char>, t: Seq<char>)
    requires
        forall|k: int| 0 <= k < pre.len() ==> is_ws(#[trigger] pre[k]),
    ensures
        trim_start(pre + t) == trim_start(t),
    decreases pre.len(),
{
    if pre.len() > 0 {
        assert((pre + t)[0] == pre[0]);
        assert((pre + t).drop_first() =~= pre.drop_first() + t);
        lemma_trim_start_skips_ws(pre.drop_first(), t);
    } else {
        assert(pre + t =~= t);
    }
}

/// A string with only whitespace after `t` trims at the end as `t` does.
pub proof fn lemma_trim_end_skips_ws(t: Seq<char>, post: Seq<char>)
    requires
        forall|k: int| 0 <= k < post.len() ==> is_ws(#[trigger] post[k]),
    ensures
        trim_end(t + post) == trim_end(t),
    decreases post.len(),
{
    if post.len() > 0 {
        assert((t + post).last() == post.last());
        assert((t + post).drop_last() =~= t + post.drop_last());
        lemma_trim_end_skips_ws(t, post.drop_last());
    } else {
        assert(t + post =~= t);
    }
}

/// Whitespace around a string that neither starts nor ends with whitespace is what
/// trimming removes.
pub proof fn lemma_trim_around(pre: Seq<char>, t: Seq<char>, post: Seq<char>)
    requires
        forall|k: int| 0 <= k < pre.len() ==> is_ws(#[trigger] pre[k]),
        forall|k: int| 0 <= k < post.len() ==> is_ws(#[trigger] post[k]),
        t.len() > 0,
        !is_ws(t[0]),
        !is_ws(t.last()),
    ensures
        trim(pre + t + post) == t,
{
    assert(pre + t + post =~= pre + (t + post));
    lemma_trim_start_skips_ws(pre, t + post);
    assert((t + post)[0] == t[0]);
    lemma_trim_end_skips_ws(t, post);
}

/// Whether `q` occurs in `s` as a run of consecutive characters.
pub fn contains_substring(s: &Vec<char>, q: &Vec<char>) -> (r: bool)
    ensures
        r == has_substring(s@, q@),
{
    let n = s.len();
    let m = q.len();
    if m > n {
        assert forall|i: int| !#[trigger] occurs_at(s@, q@, i) by {}
        return false;
    }
    let mut i: usize = 0;
    while i <= n - m
        invariant
            n == s.len(),
            m == q.len(),
            m <= n,
            i <= n - m + 1,
            forall|k: int| 0 <= k < i ==> !#[trigger] occurs_at(s@, q@, k),
        decreases n - m + 1 - i,
    {
        let mut j: usize = 0;
        while j < m && s[i + j] == q[j]
            invariant
                n == s.len(),
                m == q.len(),
                i + m <= n,
                j <= m,
                forall|k: int| 0 <= k < j ==> s@[i + k] == q@[k],
            decreases m - j,
        {
            j = j + 1;
        }
        if j == m {
            assert(s@.subrange(i as int, i + m) =~= q@);
            assert(occurs_at(s@, q@, i as int));
            return true;
        }
        assert(s@.subrange(i as int, i + m)[j as int] != q@[j as int]);
        i = i + 1;
    }
    assert forall|k: int| !#[trigger] occurs_at(s@, q@, k) by {
        if 0 <= k < i {
        }
    }
    false
}

/// A character in the ASCII range.
pub open spec fn is_ascii_char(c: char) -> bool {
    (c as int) < 128
}

/// Every character of `s` is ASCII.
pub open spec fn all_ascii(s: Seq<char>) -> bool {
    forall|i: int| 0 <= i < s.len() ==> is_ascii_char(#[trigger] s[i])
}

/// `c` with an ASCII upper-case letter turned into its lower-case letter.
pub open spec fn ascii_lower_char(c: char) -> char {
    if 'A' <= c && c <= 'Z' {
        ((c as int) + 32) as char
    } else {
        c
    }
}

/// `s` with its ASCII upper-case letters turned into lower-case letters.
pub open spec fn ascii_lower(s: Seq<char>) -> Seq<char> {
    s.map_values(|c: char| ascii_lower_char(c))
}

/// ASCII lower-casing keeps a character ASCII, and a character outside ASCII as it is.
pub proof fn lemma_ascii_lower_char(c: char)
    ensures
        is_ascii_char(ascii_lower_char(c)) == is_ascii_char(c),
        !is_ascii_char(c) ==> ascii_lower_char(c) == c,
{
    assert('A' as int == 65 && 'Z' as int == 90);
}

/// Strings with the same ASCII lower-casing are both ASCII or both not.
pub proof fn lemma_ascii_lower_keeps_ascii(a: Seq<char>, b: Seq<char>)
    requires
        ascii_lower(a) == ascii_lower(b),
    ensures
        all_ascii(a) == all_ascii(b),
{
    assert(a.len() == ascii_lower(a).len() && b.len() == ascii_lower(b).len());
    assert forall|i: int| 0 <= i < a.len() implies is_ascii_char(#[trigger] a[i]) == is_ascii_char(b[i]) by {
        lemma_ascii_lower_char(a[i]);
        lemma_ascii_lower_char(b[i]);
        assert(ascii_lower(a)[i] == ascii_lower_char(a[i]));
        assert(ascii_lower(b)[i] == ascii_lower_char(b[i]));
        assert(ascii_lower(a)[i] == ascii_lower(b)[i]);
    }
    if all_ascii(a) {
        assert forall|i: int| 0 <= i < b.len() implies is_ascii_char(#[trigger] b[i]) by {
            assert(is_ascii_char(a[i]));
        }
    }
    if all_ascii(b) {
        assert forall|i: int| 0 <= i < a.len() implies is_ascii_char(#[trigger] a[i]) by {
            assert(is_ascii_char(b[i]));
        }
    }
}

/// Every string holds the empty string.
pub proof fn lemma_has_empty(s: Seq<char>)
    ensures
        has_substring(s, Seq::<char>::empty()),
{
    assert(s.subrange(0, 0) =~= Seq::<char>::empty());
    assert(occurs_at(s, Seq::<char>::empty(), 0));
}

/// A substring of a substring is a substring.
pub proof fn lemma_substring_trans(a: Seq<char>, b: Seq<char>, c: Seq<char>)
    requires
        has_substring(a, b),
        has_substring(b, c),
    ensures
        has_substring(a, c),
{
    let i = choose|i: int| #[trigger] occurs_at(a, b, i);
    let j = choose|j: int| #[trigger] occurs_at(b, c, j);
    assert(a.subrange(i + j, i + j + c.len()) =~= b.subrange(j, j + c.len()));
    assert(occurs_at(a, c, i + j));
}

/// ASCII lower-casing keeps substrings.
pub proof fn lemma_substring_ascii_lower(a: Seq<char>, b: Seq<char>)
    requires
        has_substring(a, b),
    ensures
        has_substring(ascii_lower(a), ascii_lower(b)),
{
    let i = choose|i: int| #[trigger] occurs_at(a, b, i);
    assert(ascii_lower(a).subrange(i, i + b.len()) =~= ascii_lower(b)) by {
        assert forall|k: int| 0 <= k < b.len() implies ascii_lower(a).subrange(i, i + b.len())[k]
            == ascii_lower(b)[k] by {
            assert(a.subrange(i, i + b.len())[k] == b[k]);
        }
    }
    assert(occurs_at(ascii_lower(a), ascii_lower(b), i));
}

/// A substring of an ASCII string is ASCII.
pub proof fn lemma_substring_ascii(a: Seq<char>, b: Seq<char>)
    requires
        has_substring(a, b),
        all_ascii(a),
    ensures
        all_ascii(b),
{
    let i = choose|i: int| #[trigger] occurs_at(a, b, i);
    assert forall|k: int| 0 <= k < b.len() implies is_ascii_char(#[trigger] b[k]) by {
        assert(a.subrange(i, i + b.len())[k] == b[k]);
        assert(is_ascii_char(a[i + k]));
    }
}

/// The characters of `s`, in order.
pub fn chars_of(s: &str) -> (v: Vec<char>)
    ensures
        v@ == s@,
{
    let mut v: Vec<char> = Vec::new();
    for c in it: s.chars()
        invariant
            v@ == it.seq().take(it.index() as int),
    {
        v.push(c);
    }
    v
}


/// A line free of newlines, followed by a newline and more text, is the first line of
/// that text, and the lines of the rest follow it.
pub proof fn lemma_lines_cons(a: Seq<char>, b: Seq<char>)
    requires
        forall|i: int| 0 <= i < a.len() ==> a[i] != '\n',
    ensures
        lines(a + seq!['\n'] + b) == seq![strip_cr(a)] + lines(b),
{
    let s = a + seq!['\n'] + b;
    lemma_first_nl(s, a.len() as int);
    assert(s.take(a.len() as int) =~= a);
    assert(s.skip(a.len() + 1 as int) =~= b);
}

/// A string that neither starts nor ends with whitespace is its own trimming.
pub proof fn lemma_trim_unchanged(s: Seq<char>)
    requires
        s.len() > 0,
        !is_ws(s[0]),
        !is_ws(s.last()),
    ensures
        trim(s) == s,
{
}

} // verus!
