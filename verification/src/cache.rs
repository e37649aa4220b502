//! The cache of known projects, ranked by how often and how recently each was chosen.

use crate::format::{parse_entries, parsed, serialize_entries, serialized};
use crate::path::{path_eq, std_path_eq};
use crate::search::string_views;
use vstd::prelude::*;

verus! {

/// A cache of project paths, each with the number of times it was chosen.
/// The entry chosen most recently comes first.
pub struct Cache {
    /// The file the cache is kept in.
    pub file: String,
    /// The cached paths with their frequencies.
    pub entries: Vec<(u64, String)>,
}

/// Cache entries with each path taken by its characters.
pub open spec fn entry_views(es: Seq<(u64, String)>) -> Seq<(u64, Seq<char>)> {
    es.map_values(|e: (u64, String)| (e.0, e.1@))
}

impl View for Cache {
    type V = Seq<(u64, Seq<char>)>;

    open spec fn view(&self) -> Seq<(u64, Seq<char>)> {
        entry_views(self.entries@)
    }
}

/// The index of the first entry at or after `i` whose path equals `sel` as a path,
/// or the number of entries when there is none.
pub open spec fn first_match_from(es: Seq<(u64, Seq<char>)>, sel: Seq<char>, i: int) -> int
    decreases es.len() - i,
{
    if i < 0 || i >= es.len() {
        es.len() as int
    } else if std_path_eq(es[i].1, sel) {
        i
    } else {
        first_match_from(es, sel, i + 1)
    }
}

/// The index of the first entry whose path equals `sel` as a path, or the number of
/// entries when there is none.
pub open spec fn first_match(es: Seq<(u64, Seq<char>)>, sel: Seq<char>) -> int {
    first_match_from(es, sel, 0)
}

/// The entries after `sel` was chosen: its first entry moves to the front with its
/// frequency one higher, or, where no entry has that path, `sel` is put in front with
/// frequency 1. The other entries keep their order.
pub open spec fn selected(es: Seq<(u64, Seq<char>)>, sel: Seq<char>) -> Seq<(u64, Seq<char>)> {
    let i = first_match(es, sel);
    if i < es.len() {
        seq![((es[i].0 + 1) as u64, es[i].1)] + es.remove(i)
    } else {
        seq![(1u64, sel)] + es
    }
}

/// Choosing `sel` does not push a frequency past `u64::MAX`.
pub open spec fn can_select(es: Seq<(u64, Seq<char>)>, sel: Seq<char>) -> bool {
    let i = first_match(es, sel);
    i < es.len() ==> es[i].0 < u64::MAX
}

/// `first_match_from` is the first index, from `i` on, of an entry with the path `sel`.
proof fn lemma_first_match_from(es: Seq<(u64, Seq<char>)>, sel: Seq<char>, i: int)
    requires
        0 <= i <= es.len(),
    ensures
        i <= first_match_from(es, sel, i) <= es.len(),
        first_match_from(es, sel, i) < es.len() ==> std_path_eq(
            es[first_match_from(es, sel, i)].1,
            sel,
        ),
        forall|k: int| i <= k < first_match_from(es, sel, i) ==> !std_path_eq(#[trigger] es[k].1, sel),
    decreases es.len() - i,
{
    if i < es.len() && !std_path_eq(es[i].1, sel) {
        lemma_first_match_from(es, sel, i + 1);
    }
}


/// Some path of `list` equals `p` as a path (the list's path on the left, as
/// `<[PathBuf]>::contains` compares).
pub open spec fn listed(list: Seq<Seq<char>>, p: Seq<char>) -> bool {
    exists|j: int| 0 <= j < list.len() && #[trigger] std_path_eq(list[j], p)
}

/// Some entry of `k` has a path equal to `l` as a path (the entry's path on the left).
pub open spec fn covered(k: Seq<(u64, Seq<char>)>, l: Seq<char>) -> bool {
    exists|n: int| 0 <= n < k.len() && #[trigger] std_path_eq(k[n].1, l)
}

/// The entries whose path is in `list`, in their order.
pub open spec fn kept(es: Seq<(u64, Seq<char>)>, list: Seq<Seq<char>>) -> Seq<(u64, Seq<char>)> {
    es.filter(|e: (u64, Seq<char>)| listed(list, e.1))
}

/// Frequency-0 entries for the paths of `list` that no entry of `k` covers, in list order.
pub open spec fn added(k: Seq<(u64, Seq<char>)>, list: Seq<Seq<char>>) -> Seq<(u64, Seq<char>)> {
    list.filter(|l: Seq<char>| !covered(k, l)).map_values(|l: Seq<char>| (0u64, l))
}

/// The entries after an update with `list`: the entries whose path is still listed, in
/// their order and with their frequencies, then each listed path that none of them
/// covers, with frequency 0.
pub open spec fn updated(es: Seq<(u64, Seq<char>)>, list: Seq<Seq<char>>) -> Seq<(u64, Seq<char>)> {
    kept(es, list) + added(kept(es, list), list)
}

/// Whether some path of `list` equals `p` as a path.
fn list_has(list: &[String], p: &str) -> (r: bool)
    ensures
        r == listed(string_views(list@), p@),
{
    let mut j: usize = 0;
    while j < list.len()
        invariant
            j <= list@.len(),
            forall|k: int| 0 <= k < j ==> !std_path_eq(#[trigger] string_views(list@)[k], p@),
        decreases list@.len() - j,
    {
        if path_eq(list[j].as_str(), p) {
            assert(std_path_eq(string_views(list@)[j as int], p@));
            return true;
        }
        j = j + 1;
    }
    false
}

/// Whether some entry of `es` has a path equal to `l` as a path.
fn entries_have(es: &Vec<(u64, String)>, l: &str) -> (r: bool)
    ensures
        r == covered(entry_views(es@), l@),
{
    let mut n: usize = 0;
    while n < es.len()
        invariant
            n <= es@.len(),
            forall|k: int| 0 <= k < n ==> !std_path_eq(#[trigger] entry_views(es@)[k].1, l@),
        decreases es@.len() - n,
    {
        if path_eq(es[n].1.as_str(), l) {
            assert(std_path_eq(entry_views(es@)[n as int].1, l@));
            return true;
        }
        n = n + 1;
    }
    false
}

/// A filter that every element passes keeps the whole sequence.
proof fn lemma_filter_keeps_all<A>(s: Seq<A>, p: spec_fn(A) -> bool)
    requires
        forall|i: int| 0 <= i < s.len() ==> p(#[trigger] s[i]),
    ensures
        s.filter(p) == s,
    decreases s.len(),
{
    if s.len() > 0 {
        let r = s.drop_last();
        lemma_filter_keeps_all(r, p);
        assert(r.push(s.last()) =~= s);
        r.lemma_filter_push(s.last(), p);
    }
}

/// A filter that no element passes leaves nothing.
proof fn lemma_filter_keeps_none<A>(s: Seq<A>, p: spec_fn(A) -> bool)
    requires
        forall|i: int| 0 <= i < s.len() ==> !p(#[trigger] s[i]),
    ensures
        s.filter(p) == Seq::<A>::empty(),
    decreases s.len(),
{
    if s.len() > 0 {
        let r = s.drop_last();
        lemma_filter_keeps_none(r, p);
        assert(r.push(s.last()) =~= s);
        r.lemma_filter_push(s.last(), p);
    }
}

/// The paths of `list` each equal themselves as paths, as std's `Path` equality does.
pub open spec fn reflexive_on(list: Seq<Seq<char>>) -> bool {
    forall|j: int| 0 <= j < list.len() ==> std_path_eq(#[trigger] list[j], list[j])
}

/// Every entry that an update appends has a path of the list.
proof fn lemma_added_from_list(k: Seq<(u64, Seq<char>)>, list: Seq<Seq<char>>, i: int)
    requires
        0 <= i < added(k, list).len(),
    ensures
        added(k, list)[i].0 == 0,
        list.contains(added(k, list)[i].1),
        !covered(k, added(k, list)[i].1),
{
    let f = list.filter(|l: Seq<char>| !covered(k, l));
    assert(f.contains(f[i]));
    list.lemma_filter_contains_rev(|l: Seq<char>| !covered(k, l), f[i]);
    list.lemma_filter_pred(|l: Seq<char>| !covered(k, l), i);
}

/// After an update with `list`, every cached path is a path of the list, and every path
/// of the list is cached (where each path of the list equals itself as a path, as
/// `path_equivalence` shows).
pub proof fn lemma_update_matches_list(es: Seq<(u64, Seq<char>)>, list: Seq<Seq<char>>)
    requires
        reflexive_on(list),
    ensures
        forall|i: int| 0 <= i < updated(es, list).len() ==> listed(list, #[trigger] updated(es, list)[i].1),
        forall|j: int| 0 <= j < list.len() ==> covered(updated(es, list), #[trigger] list[j]),
{
    let k = kept(es, list);
    let a = added(k, list);
    let u = updated(es, list);
    let kp = |e: (u64, Seq<char>)| listed(list, e.1);
    assert forall|i: int| 0 <= i < u.len() implies listed(list, #[trigger] u[i].1) by {
        if i < k.len() {
            es.lemma_filter_pred(kp, i);
            assert(u[i] == k[i]);
        } else {
            lemma_added_from_list(k, list, i - k.len());
            assert(u[i] == a[i - k.len()]);
            let l = a[i - k.len()].1;
            let j = choose|j: int| 0 <= j < list.len() && list[j] == l;
            assert(std_path_eq(list[j], list[j]));
        }
    }
    assert forall|j: int| 0 <= j < list.len() implies covered(u, #[trigger] list[j]) by {
        let l = list[j];
        if covered(k, l) {
            let n = choose|n: int| 0 <= n < k.len() && #[trigger] std_path_eq(k[n].1, l);
            assert(u[n] == k[n]);
        } else {
            let f = list.filter(|l: Seq<char>| !covered(k, l));
            list.lemma_filter_contains(|l: Seq<char>| !covered(k, l), j);
            let m = choose|m: int| 0 <= m < f.len() && f[m] == l;
            assert(a[m] == (0u64, l));
            assert(u[k.len() + m] == a[m]);
            assert(std_path_eq(list[j], list[j]));
            assert(std_path_eq(u[k.len() + m].1, l));
        }
    }
}

/// Updating twice with the same list changes nothing the second time (where each path
/// of the list equals itself as a path, as `path_equivalence` shows).
pub proof fn lemma_update_idempotent(es: Seq<(u64, Seq<char>)>, list: Seq<Seq<char>>)
    requires
        reflexive_on(list),
    ensures
        updated(updated(es, list), list) == updated(es, list),
{
    let u = updated(es, list);
    let kp = |e: (u64, Seq<char>)| listed(list, e.1);
    lemma_update_matches_list(es, list);
    assert forall|i: int| 0 <= i < u.len() implies kp(#[trigger] u[i]) by {}
    lemma_filter_keeps_all(u, kp);
    assert(kept(u, list) == u);
    let ap = |l: Seq<char>| !covered(u, l);
    assert forall|j: int| 0 <= j < list.len() implies !ap(#[trigger] list[j]) by {}
    lemma_filter_keeps_none(list, ap);
    assert(added(u, list) =~= Seq::<(u64, Seq<char>)>::empty());
    assert(updated(u, list) =~= u);
}

/// Right after a path is chosen it is the first cached entry that matches it, and its
/// frequency is one more than before, or 1 where it was not cached (where the path
/// equals itself as a path, as `path_equivalence` shows).
pub proof fn lemma_selected_comes_first(es: Seq<(u64, Seq<char>)>, sel: Seq<char>)
    requires
        std_path_eq(sel, sel),
        can_select(es, sel),
    ensures
        first_match(selected(es, sel), sel) == 0,
        selected(es, sel)[0].0 == (if first_match(es, sel) < es.len() {
            es[first_match(es, sel)].0 + 1
        } else {
            1
        }),
{
    lemma_first_match_from(es, sel, 0);
}

/// Path equality behaves as an equivalence on the paths of `ps`: reflexive, symmetric
/// and transitive among them, as std's `Path` (which implements `Eq`) promises.
/// `path_equivalence` establishes it for a list of paths.
pub open spec fn equivalence_on(ps: Seq<Seq<char>>) -> bool {
    &&& forall|x: Seq<char>| ps.contains(x) ==> #[trigger] std_path_eq(x, x)
    &&& forall|x: Seq<char>, y: Seq<char>|
        ps.contains(x) && ps.contains(y) && #[trigger] std_path_eq(x, y) ==> std_path_eq(y, x)
    &&& forall|x: Seq<char>, y: Seq<char>, z: Seq<char>|
        #![trigger std_path_eq(x, y), std_path_eq(y, z)]
        ps.contains(x) && ps.contains(y) && ps.contains(z) && std_path_eq(x, y) && std_path_eq(y, z)
            ==> std_path_eq(x, z)
}

/// What one comparison of `x` with `y` tells: the answer is the same either way round,
/// a path equals itself, and equal paths are equal to the same paths.
pub open spec fn compared(x: Seq<char>, y: Seq<char>) -> bool {
    &&& std_path_eq(x, y) == std_path_eq(y, x)
    &&& x == y ==> std_path_eq(x, y)
    &&& std_path_eq(x, y) ==> forall|c: Seq<char>| #![trigger std_path_eq(x, c)] #![trigger std_path_eq(y, c)]
        std_path_eq(x, c) == std_path_eq(y, c)
}

/// An equivalence on some paths is one on any paths among them.
proof fn lemma_equivalence_sub(big: Seq<Seq<char>>, small: Seq<Seq<char>>)
    requires
        equivalence_on(big),
        forall|x: Seq<char>| small.contains(x) ==> big.contains(x),
    ensures
        equivalence_on(small),
{
}

/// Compares every two paths of `paths` as std's `Path` does, which shows path equality to
/// be an equivalence on them.
pub fn path_equivalence(paths: &[String])
    ensures
        equivalence_on(string_views(paths@)),
        reflexive_on(string_views(paths@)),
{
    let ghost ps = string_views(paths@);
    let n = paths.len();
    let mut i: usize = 0;
    while i < n
        invariant
            n == paths@.len(),
            i <= n,
            ps == string_views(paths@),
            forall|a: int, b: int| 0 <= a < i && 0 <= b < n ==> #[trigger] compared(ps[a], ps[b]),
        decreases n - i,
    {
        let mut j: usize = 0;
        while j < n
            invariant
                n == paths@.len(),
                i < n,
                j <= n,
                ps == string_views(paths@),
                forall|a: int, b: int| 0 <= a < i && 0 <= b < n ==> #[trigger] compared(ps[a], ps[b]),
                forall|b: int| 0 <= b < j ==> #[trigger] compared(ps[i as int], ps[b]),
            decreases n - j,
        {
            let _ = path_eq(paths[i].as_str(), paths[j].as_str());
            assert(compared(ps[i as int], ps[j as int]));
            j = j + 1;
        }
        i = i + 1;
    }
    assert forall|x: Seq<char>| ps.contains(x) implies #[trigger] std_path_eq(x, x) by {
        let a = choose|a: int| 0 <= a < ps.len() && ps[a] == x;
        assert(compared(ps[a], ps[a]));
    }
    assert forall|x: Seq<char>, y: Seq<char>|
        ps.contains(x) && ps.contains(y) && #[trigger] std_path_eq(x, y) implies std_path_eq(y, x) by {
        let a = choose|a: int| 0 <= a < ps.len() && ps[a] == x;
        let b = choose|b: int| 0 <= b < ps.len() && ps[b] == y;
        assert(compared(ps[a], ps[b]));
    }
    assert forall|x: Seq<char>, y: Seq<char>, z: Seq<char>|
        ps.contains(x) && ps.contains(y) && ps.contains(z) && #[trigger] std_path_eq(x, y)
            && #[trigger] std_path_eq(y, z) implies std_path_eq(x, z) by {
        let a = choose|a: int| 0 <= a < ps.len() && ps[a] == x;
        let b = choose|b: int| 0 <= b < ps.len() && ps[b] == y;
        assert(compared(ps[a], ps[b]));
    }
    assert forall|j: int| 0 <= j < ps.len() implies std_path_eq(#[trigger] ps[j], ps[j]) by {
        assert(compared(ps[j], ps[j]));
    }
}

/// No two entries have paths that are equal as paths.
pub open spec fn distinct_paths(es: Seq<(u64, Seq<char>)>) -> bool {
    forall|i: int, j: int|
        #![trigger es[i], es[j]]
        0 <= i < es.len() && 0 <= j < es.len() && i != j ==> !std_path_eq(es[i].1, es[j].1)
}

/// No two paths of the list are equal as paths.
pub open spec fn distinct_list(l: Seq<Seq<char>>) -> bool {
    forall|i: int, j: int|
        #![trigger l[i], l[j]]
        0 <= i < l.len() && 0 <= j < l.len() && i != j ==> !std_path_eq(l[i], l[j])
}

/// The paths of a list of entries.
pub open spec fn paths_of(es: Seq<(u64, Seq<char>)>) -> Seq<Seq<char>> {
    es.map_values(|e: (u64, Seq<char>)| e.1)
}

/// Filtering keeps entries' paths distinct.
proof fn lemma_filter_distinct_entries(s: Seq<(u64, Seq<char>)>, p: spec_fn((u64, Seq<char>)) -> bool)
    requires
        distinct_paths(s),
    ensures
        distinct_paths(s.filter(p)),
    decreases s.len(),
{
    if s.len() > 0 {
        let r = s.drop_last();
        assert forall|i: int, j: int| 0 <= i < r.len() && 0 <= j < r.len() && i != j implies !std_path_eq(
            #[trigger] r[i].1,
            #[trigger] r[j].1,
        ) by {
            assert(r[i] == s[i] && r[j] == s[j]);
        }
        lemma_filter_distinct_entries(r, p);
        assert(r.push(s.last()) =~= s);
        r.lemma_filter_push(s.last(), p);
        let f = r.filter(p);
        if p(s.last()) {
            let g = f.push(s.last());
            assert forall|i: int, j: int| 0 <= i < g.len() && 0 <= j < g.len() && i != j implies !std_path_eq(
                #[trigger] g[i].1,
                #[trigger] g[j].1,
            ) by {
                if i < f.len() && j < f.len() {
                    assert(g[i] == f[i] && g[j] == f[j]);
                } else if i < f.len() {
                    assert(f.contains(f[i]));
                    r.lemma_filter_contains_rev(p, f[i]);
                    let k = choose|k: int| 0 <= k < r.len() && r[k] == f[i];
                    assert(s[k] == r[k]);
                    assert(s[s.len() - 1] == g[j]);
                } else {
                    assert(f.contains(f[j]));
                    r.lemma_filter_contains_rev(p, f[j]);
                    let k = choose|k: int| 0 <= k < r.len() && r[k] == f[j];
                    assert(s[k] == r[k]);
                    assert(s[s.len() - 1] == g[i]);
                }
            }
        }
    }
}

/// Filtering keeps a list's paths distinct.
proof fn lemma_filter_distinct_list(s: Seq<Seq<char>>, p: spec_fn(Seq<char>) -> bool)
    requires
        distinct_list(s),
    ensures
        distinct_list(s.filter(p)),
    decreases s.len(),
{
    if s.len() > 0 {
        let r = s.drop_last();
        assert forall|i: int, j: int| 0 <= i < r.len() && 0 <= j < r.len() && i != j implies !std_path_eq(
            #[trigger] r[i],
            #[trigger] r[j],
        ) by {
            assert(r[i] == s[i] && r[j] == s[j]);
        }
        lemma_filter_distinct_list(r, p);
        assert(r.push(s.last()) =~= s);
        r.lemma_filter_push(s.last(), p);
        let f = r.filter(p);
        if p(s.last()) {
            let g = f.push(s.last());
            assert forall|i: int, j: int| 0 <= i < g.len() && 0 <= j < g.len() && i != j implies !std_path_eq(
                #[trigger] g[i],
                #[trigger] g[j],
            ) by {
                if i < f.len() && j < f.len() {
                    assert(g[i] == f[i] && g[j] == f[j]);
                } else if i < f.len() {
                    assert(f.contains(f[i]));
                    r.lemma_filter_contains_rev(p, f[i]);
                    let k = choose|k: int| 0 <= k < r.len() && r[k] == f[i];
                    assert(s[k] == r[k]);
                    assert(s[s.len() - 1] == g[j]);
                } else {
                    assert(f.contains(f[j]));
                    r.lemma_filter_contains_rev(p, f[j]);
                    let k = choose|k: int| 0 <= k < r.len() && r[k] == f[j];
                    assert(s[k] == r[k]);
                    assert(s[s.len() - 1] == g[i]);
                }
            }
        }
    }
}

/// Two predicates that agree on every element filter alike.
proof fn lemma_filter_agree<A>(s: Seq<A>, p: spec_fn(A) -> bool, q: spec_fn(A) -> bool)
    requires
        forall|i: int| 0 <= i < s.len() ==> p(#[trigger] s[i]) == q(s[i]),
    ensures
        s.filter(p) == s.filter(q),
    decreases s.len(),
{
    if s.len() > 0 {
        let r = s.drop_last();
        assert forall|i: int| 0 <= i < r.len() implies p(#[trigger] r[i]) == q(r[i]) by {
            assert(r[i] == s[i]);
        }
        lemma_filter_agree(r, p, q);
        assert(r.push(s.last()) =~= s);
        r.lemma_filter_push(s.last(), p);
        r.lemma_filter_push(s.last(), q);
    }
}

/// Dropping, from a filter, the one element that also passes `q` shortens it by one.
proof fn lemma_filter_one_less<A>(s: Seq<A>, p: spec_fn(A) -> bool, q: spec_fn(A) -> bool, i: int)
    requires
        0 <= i < s.len(),
        p(s[i]) && q(s[i]),
        forall|j: int| 0 <= j < s.len() && j != i ==> !(p(#[trigger] s[j]) && q(s[j])),
    ensures
        s.filter(|x: A| p(x) && !q(x)).len() + 1 == s.filter(p).len(),
    decreases s.len(),
{
    let pq = |x: A| p(x) && !q(x);
    let r = s.drop_last();
    assert(r.push(s.last()) =~= s);
    r.lemma_filter_push(s.last(), p);
    r.lemma_filter_push(s.last(), pq);
    if i == s.len() - 1 {
        assert forall|j: int| 0 <= j < r.len() implies pq(#[trigger] r[j]) == p(r[j]) by {
            assert(r[j] == s[j]);
        }
        lemma_filter_agree(r, pq, p);
    } else {
        assert forall|j: int| 0 <= j < r.len() && j != i implies !(p(#[trigger] r[j]) && q(r[j])) by {
            assert(r[j] == s[j]);
        }
        assert(r[i] == s[i]);
        lemma_filter_one_less(r, p, q, i);
        assert(pq == (|x: A| p(x) && !q(x)));
    }
}

/// The cached paths and the listed paths are among `paths_of(es) + list`.
proof fn lemma_among(es: Seq<(u64, Seq<char>)>, list: Seq<Seq<char>>)
    ensures
        forall|m: int| 0 <= m < es.len() ==> (paths_of(es) + list).contains(#[trigger] es[m].1),
        forall|j: int| 0 <= j < list.len() ==> (paths_of(es) + list).contains(#[trigger] list[j]),
{
    let ps = paths_of(es) + list;
    assert forall|m: int| 0 <= m < es.len() implies ps.contains(#[trigger] es[m].1) by {
        assert(ps[m] == es[m].1);
    }
    assert forall|j: int| 0 <= j < list.len() implies ps.contains(#[trigger] list[j]) by {
        assert(ps[es.len() + j] == list[j]);
    }
}

/// An update keeps the paths distinct, and, where the listed paths are distinct, the
/// cache then holds exactly one entry per listed path (where path equality is an
/// equivalence on the cached and listed paths, as `path_equivalence` shows).
pub proof fn lemma_update_distinct(es: Seq<(u64, Seq<char>)>, list: Seq<Seq<char>>)
    requires
        equivalence_on(paths_of(es) + list),
        distinct_paths(es),
        distinct_list(list),
    ensures
        distinct_paths(updated(es, list)),
        updated(es, list).len() == list.len(),
{
    lemma_among(es, list);
    let kp = |e: (u64, Seq<char>)| listed(list, e.1);
    let k = kept(es, list);
    let a = added(k, list);
    let f = list.filter(|l: Seq<char>| !covered(k, l));
    lemma_filter_distinct_entries(es, |e: (u64, Seq<char>)| listed(list, e.1));
    lemma_filter_distinct_list(list, |l: Seq<char>| !covered(k, l));
    let u = updated(es, list);
    assert forall|i: int, j: int| 0 <= i < u.len() && 0 <= j < u.len() && i != j implies !std_path_eq(
        #[trigger] u[i].1,
        #[trigger] u[j].1,
    ) by {
        if i < k.len() && j < k.len() {
            assert(u[i] == k[i] && u[j] == k[j]);
        } else if i >= k.len() && j >= k.len() {
            assert(u[i] == a[i - k.len()] && u[j] == a[j - k.len()]);
            assert(a[i - k.len()].1 == f[i - k.len()] && a[j - k.len()].1 == f[j - k.len()]);
        } else if i < k.len() {
            assert(u[i] == k[i] && u[j] == a[j - k.len()]);
            lemma_added_from_list(k, list, j - k.len());
            if std_path_eq(k[i].1, a[j - k.len()].1) {
                assert(covered(k, a[j - k.len()].1));
            }
        } else {
            assert(u[j] == k[j] && u[i] == a[i - k.len()]);
            lemma_added_from_list(k, list, i - k.len());
            assert(k.contains(k[j]));
            es.lemma_filter_contains_rev(kp, k[j]);
            let m = choose|m: int| 0 <= m < es.len() && es[m] == k[j];
            let jl = choose|jl: int| 0 <= jl < list.len() && list[jl] == a[i - k.len()].1;
            assert((paths_of(es) + list).contains(es[m].1));
            assert((paths_of(es) + list).contains(list[jl]));
            if std_path_eq(a[i - k.len()].1, k[j].1) {
                assert(std_path_eq(k[j].1, a[i - k.len()].1));
                assert(covered(k, a[i - k.len()].1));
            }
        }
    }
    lemma_update_len(es, list);
}

/// Where paths are distinct, each kept entry stands for one listed path, so the cache
/// after an update is as long as the list.
proof fn lemma_update_len(es: Seq<(u64, Seq<char>)>, list: Seq<Seq<char>>)
    requires
        equivalence_on(paths_of(es) + list),
        distinct_paths(es),
        distinct_list(list),
    ensures
        kept(es, list).len() + list.filter(|l: Seq<char>| !covered(kept(es, list), l)).len() == list.len(),
    decreases es.len(),
{
    let kp = |e: (u64, Seq<char>)| listed(list, e.1);
    if es.len() == 0 {
        assert(kept(es, list) =~= Seq::<(u64, Seq<char>)>::empty()) by {
            reveal(Seq::filter);
        }
        let k = kept(es, list);
        assert forall|j: int| 0 <= j < list.len() implies (|l: Seq<char>| !covered(k, l))(
            #[trigger] list[j],
        ) == (|l: Seq<char>| true)(list[j]) by {}
        lemma_filter_agree(list, |l: Seq<char>| !covered(k, l), |l: Seq<char>| true);
        lemma_filter_keeps_all(list, |l: Seq<char>| true);
    } else {
        let r = es.drop_last();
        let e = es.last();
        assert forall|i: int, j: int| 0 <= i < r.len() && 0 <= j < r.len() && i != j implies !std_path_eq(
            #[trigger] r[i].1,
            #[trigger] r[j].1,
        ) by {
            assert(r[i] == es[i] && r[j] == es[j]);
        }
        lemma_among(es, list);
        assert forall|x: Seq<char>| (paths_of(r) + list).contains(x) implies (paths_of(es) + list).contains(x) by {
            let t = choose|t: int| 0 <= t < (paths_of(r) + list).len() && (paths_of(r) + list)[t] == x;
            if t < r.len() {
                assert(r[t] == es[t]);
                assert((paths_of(r) + list)[t] == es[t].1);
            } else {
                assert((paths_of(r) + list)[t] == list[t - r.len()]);
            }
        }
        lemma_equivalence_sub(paths_of(es) + list, paths_of(r) + list);
        lemma_update_len(r, list);
        assert((paths_of(es) + list).contains(es[es.len() - 1].1));
        assert(r.push(e) =~= es);
        r.lemma_filter_push(e, kp);
        let k0 = kept(r, list);
        let p0 = |l: Seq<char>| !covered(k0, l);
        if listed(list, e.1) {
            let k1 = k0.push(e);
            assert(kept(es, list) == k1);
            let js = choose|j: int| 0 <= j < list.len() && #[trigger] std_path_eq(list[j], e.1);
            let q = |l: Seq<char>| std_path_eq(e.1, l);
            // the predicate after the push is the old one without what `e` covers
            assert forall|j: int| 0 <= j < list.len() implies (|l: Seq<char>| !covered(k1, l))(
                #[trigger] list[j],
            ) == (|x: Seq<char>| p0(x) && !q(x))(list[j]) by {
                let l = list[j];
                if covered(k1, l) {
                    let n = choose|n: int| 0 <= n < k1.len() && #[trigger] std_path_eq(k1[n].1, l);
                    if n < k0.len() {
                        assert(k1[n] == k0[n]);
                    }
                } else {
                    assert(k1[k0.len() as int] == e);
                    if covered(k0, l) {
                        let n = choose|n: int| 0 <= n < k0.len() && #[trigger] std_path_eq(k0[n].1, l);
                        assert(k1[n] == k0[n]);
                    }
                }
            }
            lemma_filter_agree(list, |l: Seq<char>| !covered(k1, l), |x: Seq<char>| p0(x) && !q(x));
            // exactly the listed path at `js` is covered by `e` and not by the others
            assert(p0(list[js])) by {
                if covered(k0, list[js]) {
                    let n = choose|n: int| 0 <= n < k0.len() && #[trigger] std_path_eq(k0[n].1, list[js]);
                    assert(k0.contains(k0[n]));
                    r.lemma_filter_contains_rev(kp, k0[n]);
                    let m = choose|m: int| 0 <= m < r.len() && r[m] == k0[n];
                    assert(es[m] == r[m] && es[es.len() - 1] == e);
                    assert((paths_of(es) + list).contains(es[m].1));
                    assert((paths_of(es) + list).contains(list[js]));
                    assert(std_path_eq(k0[n].1, e.1));
                }
            }
            assert((paths_of(es) + list).contains(list[js]));
            assert(q(list[js]));
            assert forall|j: int| 0 <= j < list.len() && j != js implies !(p0(#[trigger] list[j]) && q(list[j])) by {
                assert((paths_of(es) + list).contains(list[j]));
                if q(list[j]) {
                    assert(std_path_eq(list[js], list[j]));
                }
            }
            lemma_filter_one_less(list, p0, q, js);
        } else {
            assert(kept(es, list) == k0);
        }
    }
}

/// An update keeps the frequency of every entry it keeps, and gives each path it adds
/// frequency 0: every entry after it is a cached entry whose path is listed, or a listed
/// path with frequency 0.
pub proof fn lemma_update_frequencies(es: Seq<(u64, Seq<char>)>, list: Seq<Seq<char>>)
    ensures
        forall|i: int| 0 <= i < updated(es, list).len() ==> {
            ||| es.contains(#[trigger] updated(es, list)[i]) && listed(list, updated(es, list)[i].1)
            ||| updated(es, list)[i].0 == 0 && list.contains(updated(es, list)[i].1)
        },
{
    let k = kept(es, list);
    let a = added(k, list);
    let u = updated(es, list);
    let kp = |e: (u64, Seq<char>)| listed(list, e.1);
    assert forall|i: int| 0 <= i < u.len() implies {
        ||| es.contains(#[trigger] u[i]) && listed(list, u[i].1)
        ||| u[i].0 == 0 && list.contains(u[i].1)
    } by {
        if i < k.len() {
            assert(u[i] == k[i]);
            assert(k.contains(k[i]));
            es.lemma_filter_contains_rev(kp, k[i]);
            es.lemma_filter_pred(kp, i);
        } else {
            assert(u[i] == a[i - k.len()]);
            lemma_added_from_list(k, list, i - k.len());
        }
    }
}

/// The entries after choosing `sel` `n` times in a row.
pub open spec fn selected_times(es: Seq<(u64, Seq<char>)>, sel: Seq<char>, n: nat) -> Seq<(u64, Seq<char>)>
    decreases n,
{
    if n == 0 {
        es
    } else {
        selected(selected_times(es, sel, (n - 1) as nat), sel)
    }
}

/// Choosing a path that is not cached `n` times in a row puts it in front with frequency
/// `n`, before the entries as they were; no step passes `u64::MAX` (where the path equals
/// itself as a path, as `path_equivalence` shows).
pub proof fn lemma_select_new_repeatedly(es: Seq<(u64, Seq<char>)>, sel: Seq<char>, n: nat)
    requires
        first_match(es, sel) == es.len(),
        std_path_eq(sel, sel),
        1 <= n <= u64::MAX,
    ensures
        selected_times(es, sel, n) == seq![(n as u64, sel)] + es,
        forall|m: nat| m < n ==> can_select(#[trigger] selected_times(es, sel, m), sel),
    decreases n,
{
    if n == 1 {
        assert(selected_times(es, sel, 0) == es);
        assert(selected_times(es, sel, 1) == selected(es, sel));
        assert forall|m: nat| m < n implies can_select(#[trigger] selected_times(es, sel, m), sel) by {
            assert(m == 0);
        }
    } else {
        lemma_select_new_repeatedly(es, sel, (n - 1) as nat);
        let prev = seq![((n - 1) as nat as u64, sel)] + es;
        assert(prev[0].1 == sel);
        assert(first_match(prev, sel) == 0);
        assert(prev.remove(0) =~= es);
        assert(selected_times(es, sel, n) == selected(prev, sel));
        assert(selected(prev, sel) =~= seq![(n as u64, sel)] + es);
        assert forall|m: nat| m < n implies can_select(#[trigger] selected_times(es, sel, m), sel) by {
            if m == n - 1 {
                assert(selected_times(es, sel, m) == prev);
            }
        }
    }
}

/// Choosing `sel` keeps the paths distinct and puts a path equal to `sel` in front; the
/// paths afterwards are those before, with `sel` added where it was not cached (where
/// path equality is an equivalence on the cached paths and `sel`, as `path_equivalence`
/// shows).
pub proof fn lemma_select_distinct(es: Seq<(u64, Seq<char>)>, sel: Seq<char>)
    requires
        equivalence_on(paths_of(es).push(sel)),
        distinct_paths(es),
    ensures
        std_path_eq(selected(es, sel)[0].1, sel),
        distinct_paths(selected(es, sel)),
        forall|p: Seq<char>| #[trigger] paths_of(selected(es, sel)).contains(p) <==> (paths_of(es).contains(p)
            || (first_match(es, sel) == es.len() && p == sel)),
{
    lemma_first_match_from(es, sel, 0);
    let i = first_match(es, sel);
    let t = selected(es, sel);
    let ps = paths_of(es).push(sel);
    assert(ps[es.len() as int] == sel);
    assert(std_path_eq(sel, sel));
    if i < es.len() {
        let rest = es.remove(i);
        assert forall|a: int, b: int| 0 <= a < t.len() && 0 <= b < t.len() && a != b implies !std_path_eq(
            #[trigger] t[a].1,
            #[trigger] t[b].1,
        ) by {
            let ia = if a == 0 { i } else if a - 1 < i { a - 1 } else { a };
            let ib = if b == 0 { i } else if b - 1 < i { b - 1 } else { b };
            assert(t[a].1 == es[ia].1);
            assert(t[b].1 == es[ib].1);
        }
        assert forall|p: Seq<char>| #[trigger] paths_of(t).contains(p) <==> paths_of(es).contains(p) by {
            if paths_of(t).contains(p) {
                let a = choose|a: int| 0 <= a < paths_of(t).len() && paths_of(t)[a] == p;
                let ia = if a == 0 { i } else if a - 1 < i { a - 1 } else { a };
                assert(paths_of(es)[ia] == t[a].1);
            }
            if paths_of(es).contains(p) {
                let b = choose|b: int| 0 <= b < paths_of(es).len() && paths_of(es)[b] == p;
                let tb = if b == i { 0 } else if b < i { b + 1 } else { b };
                assert(paths_of(t)[tb] == es[b].1);
            }
        }
    } else {
        assert forall|a: int, b: int| 0 <= a < t.len() && 0 <= b < t.len() && a != b implies !std_path_eq(
            #[trigger] t[a].1,
            #[trigger] t[b].1,
        ) by {
            if a == 0 {
                assert(t[b] == es[b - 1]);
                assert(ps[b - 1] == es[b - 1].1);
                if std_path_eq(sel, es[b - 1].1) {
                    assert(std_path_eq(es[b - 1].1, sel));
                }
            } else if b == 0 {
                assert(t[a] == es[a - 1]);
            } else {
                assert(t[a] == es[a - 1] && t[b] == es[b - 1]);
            }
        }
        assert forall|p: Seq<char>| #[trigger] paths_of(t).contains(p) <==> (paths_of(es).contains(p) || p == sel) by {
            if paths_of(t).contains(p) {
                let a = choose|a: int| 0 <= a < paths_of(t).len() && paths_of(t)[a] == p;
                if a > 0 {
                    assert(paths_of(es)[a - 1] == t[a].1);
                }
            }
            if paths_of(es).contains(p) {
                let b = choose|b: int| 0 <= b < paths_of(es).len() && paths_of(es)[b] == p;
                assert(paths_of(t)[b + 1] == es[b].1);
            }
            if p == sel {
                assert(paths_of(t)[0] == sel);
            }
        }
    }
}

/// An update relates the cache to the list as the list asks: every entry afterwards has
/// a listed path and is either a cached entry kept with its frequency, or a path not
/// cached before with frequency 0; and every listed path is cached (where path equality
/// is an equivalence on the cached and listed paths, as `path_equivalence` shows).
pub proof fn lemma_update_relation(es: Seq<(u64, Seq<char>)>, list: Seq<Seq<char>>)
    requires
        equivalence_on(paths_of(es) + list),
    ensures
        forall|i: int| 0 <= i < updated(es, list).len() ==> {
            &&& listed(list, #[trigger] updated(es, list)[i].1)
            &&& {
                ||| es.contains(updated(es, list)[i])
                ||| updated(es, list)[i].0 == 0 && forall|m: int| 0 <= m < es.len() ==> !std_path_eq(
                    #[trigger] es[m].1,
                    updated(es, list)[i].1,
                )
            }
        },
        forall|j: int| 0 <= j < list.len() ==> covered(updated(es, list), #[trigger] list[j]),
{
    lemma_among(es, list);
    assert forall|j: int| 0 <= j < list.len() implies std_path_eq(#[trigger] list[j], list[j]) by {
        assert((paths_of(es) + list).contains(list[j]));
    }
    lemma_update_matches_list(es, list);
    lemma_update_frequencies(es, list);
    let k = kept(es, list);
    let a = added(k, list);
    let u = updated(es, list);
    let kp = |e: (u64, Seq<char>)| listed(list, e.1);
    assert forall|i: int| 0 <= i < u.len() implies {
        &&& listed(list, #[trigger] u[i].1)
        &&& {
            ||| es.contains(u[i])
            ||| u[i].0 == 0 && forall|m: int| 0 <= m < es.len() ==> !std_path_eq(#[trigger] es[m].1, u[i].1)
        }
    } by {
        if i < k.len() {
            assert(u[i] == k[i]);
            assert(k.contains(k[i]));
            es.lemma_filter_contains_rev(kp, k[i]);
        } else {
            assert(u[i] == a[i - k.len()]);
            lemma_added_from_list(k, list, i - k.len());
            let l = u[i].1;
            let jl = choose|jl: int| 0 <= jl < list.len() && list[jl] == l;
            assert forall|m: int| 0 <= m < es.len() implies !std_path_eq(#[trigger] es[m].1, l) by {
                if std_path_eq(es[m].1, l) {
                    assert((paths_of(es) + list).contains(es[m].1));
                    assert((paths_of(es) + list).contains(list[jl]));
                    assert(std_path_eq(list[jl], es[m].1));
                    assert(kp(es[m]));
                    es.lemma_filter_contains(kp, m);
                    let n = choose|n: int| 0 <= n < k.len() && k[n] == es[m];
                    assert(std_path_eq(k[n].1, l));
                    assert(covered(k, l));
                }
            }
        }
    }
}

/// What choosing `sel` does to the entries. The entry that moves is the first whose path
/// equals `sel` as a path. Where there is one, it moves to the front with its frequency
/// one higher, the entries before it shift back by one place, and the entries after it
/// stay where they were, so all other entries keep their order. Where there is none, an
/// entry for `sel` with frequency 1 goes in front of all the entries, which keep their
/// order behind it.
pub proof fn lemma_select_moves_to_front(es: Seq<(u64, Seq<char>)>, sel: Seq<char>)
    ensures
        0 <= first_match(es, sel) <= es.len(),
        forall|k: int| 0 <= k < first_match(es, sel) ==> !std_path_eq(#[trigger] es[k].1, sel),
        first_match(es, sel) < es.len() ==> {
            let i = first_match(es, sel);
            let t = selected(es, sel);
            &&& std_path_eq(es[i].1, sel)
            &&& t.len() == es.len()
            &&& t[0].1 == es[i].1
            &&& es[i].0 < u64::MAX ==> t[0].0 == es[i].0 + 1
            &&& forall|k: int| 0 <= k < i ==> t[k + 1] == #[trigger] es[k]
            &&& forall|k: int| i < k < es.len() ==> t[k] == #[trigger] es[k]
        },
        first_match(es, sel) == es.len() ==> {
            let t = selected(es, sel);
            &&& t.len() == es.len() + 1
            &&& t[0] == (1u64, sel)
            &&& forall|k: int| 0 <= k < es.len() ==> t[k + 1] == #[trigger] es[k]
        },
{
    lemma_first_match_from(es, sel, 0);
    let i = first_match(es, sel);
    let t = selected(es, sel);
    if i < es.len() {
        assert forall|k: int| 0 <= k < i implies t[k + 1] == #[trigger] es[k] by {
            assert(t[k + 1] == es.remove(i)[k]);
        }
        assert forall|k: int| i < k < es.len() implies t[k] == #[trigger] es[k] by {
            assert(t[k] == es.remove(i)[k - 1]);
        }
    } else {
        assert forall|k: int| 0 <= k < es.len() implies t[k + 1] == #[trigger] es[k] by {}
    }
}

impl Cache {
    /// An empty cache kept in `file`.
    pub fn new(file: &str) -> (c: Cache)
        ensures
            c.file@ == file@,
            c@ == Seq::<(u64, Seq<char>)>::empty(),
    {
        let c = Cache { file: file.to_owned(), entries: Vec::new() };
        assert(c@ =~= Seq::<(u64, Seq<char>)>::empty());
        c
    }

    /// The index of the first entry whose path equals `sel`, or the number of entries.
    fn find(&self, sel: &str) -> (r: usize)
        ensures
            r == first_match(self@, sel@),
    {
        let mut i: usize = 0;
        while i < self.entries.len()
            invariant
                i <= self.entries@.len(),
                first_match(self@, sel@) == first_match_from(self@, sel@, i as int),
            decreases self.entries@.len() - i,
        {
            if path_eq(self.entries[i].1.as_str(), sel) {
                return i;
            }
            i = i + 1;
        }
        i
    }

    /// Records that `selection` was chosen: its entry moves to the front of the cache
    /// with its frequency raised by one, or a new entry with frequency 1 is put in front.
    /// Returns whether the path was already cached.
    pub fn select(&mut self, selection: &str) -> (found: bool)
        requires
            can_select(old(self)@, selection@),
        ensures
            final(self)@ == selected(old(self)@, selection@),
            found == (first_match(old(self)@, selection@) < old(self)@.len()),
            final(self).file == old(self).file,
    {
        let ghost es = self@;
        let i = self.find(selection);
        if i < self.entries.len() {
            let mut item = self.entries.remove(i);
            item.0 = item.0 + 1;
            self.entries.insert(0, item);
            assert(self@ =~= selected(es, selection@));
            true
        } else {
            self.entries.insert(0, (1, selection.to_owned()));
            assert(self@ =~= selected(es, selection@));
            false
        }
    }

    /// Brings the cache in line with `list`, the paths that exist now: entries whose
    /// path is not listed are dropped, the others keep their order and frequency, and
    /// each listed path not yet cached is appended with frequency 0, in list order.
    pub fn update(&mut self, list: &[String])
        ensures
            final(self)@ == updated(old(self)@, string_views(list@)),
            final(self).file == old(self).file,
    {
        let ghost es = self@;
        let ghost lv = string_views(list@);
        let ghost kpred = |e: (u64, Seq<char>)| listed(lv, e.1);
        let mut new: Vec<(u64, String)> = Vec::new();
        let mut i: usize = 0;
        while i < self.entries.len()
            invariant
                i <= self.entries@.len(),
                es == self@,
                lv == string_views(list@),
                kpred == (|e: (u64, Seq<char>)| listed(lv, e.1)),
                entry_views(new@) == es.take(i as int).filter(kpred),
            decreases self.entries@.len() - i,
        {
            let ghost prev = new@;
            assert(es.take(i + 1) =~= es.take(i as int).push(es[i as int]));
            proof {
                es.take(i as int).lemma_filter_push(es[i as int], kpred);
            }
            if list_has(list, self.entries[i].1.as_str()) {
                new.push((self.entries[i].0, self.entries[i].1.clone()));
                assert(entry_views(new@) =~= entry_views(prev).push(es[i as int]));
            }
            i = i + 1;
        }
        assert(es.take(i as int) =~= es);
        let ghost k = entry_views(new@);
        let ghost apred = |l: Seq<char>| !covered(k, l);
        let ghost mk = |l: Seq<char>| (0u64, l);
        let mut extra: Vec<(u64, String)> = Vec::new();
        let mut j: usize = 0;
        while j < list.len()
            invariant
                j <= list@.len(),
                lv == string_views(list@),
                k == entry_views(new@),
                apred == (|l: Seq<char>| !covered(k, l)),
                mk == (|l: Seq<char>| (0u64, l)),
                entry_views(extra@) == lv.take(j as int).filter(apred).map_values(mk),
            decreases list@.len() - j,
        {
            let ghost prev = extra@;
            assert(lv.take(j + 1) =~= lv.take(j as int).push(lv[j as int]));
            proof {
                lv.take(j as int).lemma_filter_push(lv[j as int], apred);
            }
            if !entries_have(&new, list[j].as_str()) {
                extra.push((0, list[j].clone()));
                assert(lv.take(j as int).filter(apred).push(lv[j as int]).map_values(mk)
                    =~= lv.take(j as int).filter(apred).map_values(mk).push(mk(lv[j as int])));
                assert(entry_views(extra@) =~= entry_views(prev).push((0u64, lv[j as int])));
            }
            j = j + 1;
        }
        assert(lv.take(j as int) =~= lv);
        let ghost new_before = new@;
        let ghost extra_before = extra@;
        new.append(&mut extra);
        assert(entry_views(new@) =~= entry_views(new_before) + entry_views(extra_before));
        self.entries = new;
    }

    /// Keeps frequencies from growing without bound; for now it leaves the cache as it is.
    fn normalize(&mut self)
        ensures
            *final(self) == *old(self),
    {
    }

    /// The text the cache is saved as: one line per entry, its frequency in decimal, a
    /// tab and its path.
    pub fn save_text(&mut self) -> (r: String)
        ensures
            r@ == serialized(old(self)@),
            *final(self) == *old(self),
    {
        self.normalize();
        serialize_entries(&self.entries)
    }

    /// The cache kept in `file` whose saved text is `text`, where every line of the text
    /// stands for an entry.
    pub fn from_text(file: &str, text: &str) -> (c: Cache)
        requires
            parsed(text@) is Some,
        ensures
            c.file@ == file@,
            parsed(text@) == Some(c@),
    {
        match parse_entries(text) {
            Some(entries) => Cache { file: file.to_owned(), entries },
            None => {
                assert(false);
                Cache::new(file)
            },
        }
    }

    /// The cache kept in `file` whose saved text is `text`; `None` where a line of the
    /// text stands for no entry.
    pub fn try_from_text(file: &str, text: &str) -> (r: Option<Cache>)
        ensures
            match r {
                Some(c) => c.file@ == file@ && parsed(text@) == Some(c@),
                None => parsed(text@) is None,
            },
    {
        match parse_entries(text) {
            Some(entries) => Some(Cache { file: file.to_owned(), entries }),
            None => None,
        }
    }

    /// The cached paths, most recently chosen first.
    pub fn paths(&self) -> (r: Vec<String>)
        ensures
            string_views(r@) == self@.map_values(|e: (u64, Seq<char>)| e.1),
    {
        let mut r: Vec<String> = Vec::new();
        let mut i: usize = 0;
        while i < self.entries.len()
            invariant
                i <= self.entries@.len(),
                string_views(r@) == self@.take(i as int).map_values(|e: (u64, Seq<char>)| e.1),
            decreases self.entries@.len() - i,
        {
            let ghost prev = r@;
            r.push(self.entries[i].1.clone());
            assert(self@.take(i + 1) =~= self@.take(i as int).push(self@[i as int]));
            assert(string_views(r@) =~= string_views(prev).push(self@[i as int].1));
            assert(string_views(r@) =~= self@.take(i + 1).map_values(|e: (u64, Seq<char>)| e.1));
            i = i + 1;
        }
        assert(self@.take(i as int) =~= self@);
        r
    }

    /// Records that `selection` was chosen, as `select` does, where that keeps every
    /// frequency within `u64`; otherwise leaves the cache as it is and returns `None`.
    pub fn try_select(&mut self, selection: &str) -> (r: Option<bool>)
        ensures
            final(self).file == old(self).file,
            can_select(old(self)@, selection@) ==> {
                &&& r == Some(first_match(old(self)@, selection@) < old(self)@.len())
                &&& final(self)@ == selected(old(self)@, selection@)
            },
            !can_select(old(self)@, selection@) ==> r is None && final(self)@ == old(self)@,
    {
        let i = self.find(selection);
        if i < self.entries.len() && self.entries[i].0 == u64::MAX {
            return None;
        }
        Some(self.select(selection))
    }
}

} // verus!
