//! Which directories count as projects while a directory tree is walked.

use crate::search::string_views;
use vstd::prelude::*;

verus! {

/// The marker file names that steer the walk over a project tree.
#[derive(Debug, Clone)]
pub struct ProjectGathererInfo {
    /// A directory holding one of these is not entered.
    no_enter: Vec<String>,
    /// A directory holding one of these is a project and is not entered.
    no_enter_echo: Vec<String>,
    /// A directory holding one of these is a project and is entered.
    enter_echo: Vec<String>,
}

/// What the walk does with a directory.
#[derive(Debug, Clone, Copy)]
pub struct Visit {
    /// The directory is reported as a project.
    pub report: bool,
    /// The walk goes on into the directory.
    pub descend: bool,
}

/// Some name of `names` is among the names `present`.
pub open spec fn any_present(names: Seq<Seq<char>>, present: Seq<Seq<char>>) -> bool {
    exists|i: int, j: int|
        0 <= i < names.len() && 0 <= j < present.len() && #[trigger] names[i] == #[trigger] present[j]
}

/// The decision for a directory in which exactly the marker names `present` exist:
/// `(report, descend)`. A marker of `no_enter_echo` makes it a project not entered;
/// otherwise a marker of `no_enter` keeps the walk out; otherwise the walk enters it,
/// and it is a project where a marker of `enter_echo` exists.
pub open spec fn visit_decision(
    no_enter: Seq<Seq<char>>,
    no_enter_echo: Seq<Seq<char>>,
    enter_echo: Seq<Seq<char>>,
    present: Seq<Seq<char>>,
) -> (bool, bool) {
    if any_present(no_enter_echo, present) {
        (true, false)
    } else if any_present(no_enter, present) {
        (false, false)
    } else {
        (any_present(enter_echo, present), true)
    }
}

/// The name `src`.
pub open spec fn src_name() -> Seq<char> {
    seq!['s', 'r', 'c']
}

/// The name `.git`.
pub open spec fn git_name() -> Seq<char> {
    seq!['.', 'g', 'i', 't']
}

/// The name `.project`.
pub open spec fn project_name() -> Seq<char> {
    seq!['.', 'p', 'r', 'o', 'j', 'e', 'c', 't']
}

/// The name `.groupproject`.
pub open spec fn group_project_name() -> Seq<char> {
    seq!['.', 'g', 'r', 'o', 'u', 'p', 'p', 'r', 'o', 'j', 'e', 'c', 't']
}

/// The decision of the default markers for a directory in which the names `present` exist.
pub open spec fn default_decision(present: Seq<Seq<char>>) -> (bool, bool) {
    visit_decision(
        seq![src_name()],
        seq![git_name(), project_name()],
        seq![group_project_name()],
        present,
    )
}

/// A marker list holds a present name exactly when one of its names is present.
proof fn lemma_any_present(names: Seq<Seq<char>>, present: Seq<Seq<char>>)
    ensures
        any_present(names, present) <==> exists|i: int| 0 <= i < names.len() && present.contains(#[trigger] names[i]),
{
    if any_present(names, present) {
        let (i, j) = choose|i: int, j: int|
            0 <= i < names.len() && 0 <= j < present.len() && #[trigger] names[i] == #[trigger] present[j];
        assert(present.contains(names[i]));
    }
    if exists|i: int| 0 <= i < names.len() && present.contains(#[trigger] names[i]) {
        let i = choose|i: int| 0 <= i < names.len() && present.contains(#[trigger] names[i]);
        let j = choose|j: int| 0 <= j < present.len() && present[j] == names[i];
        assert(names[i] == present[j]);
    }
}

/// The default decision reads each marker list by which of its names are present.
proof fn lemma_default_lists(present: Seq<Seq<char>>)
    ensures
        any_present(seq![src_name()], present) <==> present.contains(src_name()),
        any_present(seq![git_name(), project_name()], present) <==> (present.contains(git_name())
            || present.contains(project_name())),
        any_present(seq![group_project_name()], present) <==> present.contains(group_project_name()),
{
    lemma_any_present(seq![src_name()], present);
    lemma_any_present(seq![git_name(), project_name()], present);
    lemma_any_present(seq![group_project_name()], present);
    let two = seq![git_name(), project_name()];
    assert(two[0] == git_name() && two[1] == project_name());
    assert(seq![src_name()][0] == src_name());
    assert(seq![group_project_name()][0] == group_project_name());
}

/// With the default markers, a directory holding `.git` or `.project` is a project
/// and the walk does not go into it.
pub proof fn lemma_marked_dir_is_project(present: Seq<Seq<char>>)
    requires
        present.contains(git_name()) || present.contains(project_name()),
    ensures
        default_decision(present) == (true, false),
{
    lemma_default_lists(present);
}

/// With the default markers, a directory holding `.groupproject`, and neither `.git`,
/// `.project` nor `src`, is a project and the walk searches it for more projects.
pub proof fn lemma_group_dir_is_searched(present: Seq<Seq<char>>)
    requires
        present.contains(group_project_name()),
        !present.contains(git_name()),
        !present.contains(project_name()),
        !present.contains(src_name()),
    ensures
        default_decision(present) == (true, true),
{
    lemma_default_lists(present);
}

/// With the default markers, a directory holding `src`, and neither `.git` nor
/// `.project`, is no project and the walk does not go into it.
pub proof fn lemma_source_dir_not_entered(present: Seq<Seq<char>>)
    requires
        present.contains(src_name()),
        !present.contains(git_name()),
        !present.contains(project_name()),
    ensures
        default_decision(present) == (false, false),
{
    lemma_default_lists(present);
}

/// With the default markers, a directory holding none of them is no project and the
/// walk goes into it.
pub proof fn lemma_plain_dir_entered(present: Seq<Seq<char>>)
    requires
        !present.contains(group_project_name()),
        !present.contains(git_name()),
        !present.contains(project_name()),
        !present.contains(src_name()),
    ensures
        default_decision(present) == (false, true),
{
    lemma_default_lists(present);
}

/// Whether some name of `names` is among `present`.
fn any_listed(names: &Vec<String>, present: &[String]) -> (r: bool)
    ensures
        r == any_present(string_views(names@), string_views(present@)),
{
    let ghost nv = string_views(names@);
    let ghost pv = string_views(present@);
    let mut i: usize = 0;
    while i < names.len()
        invariant
            i <= names@.len(),
            nv == string_views(names@),
            pv == string_views(present@),
            forall|a: int, b: int| 0 <= a < i && 0 <= b < pv.len() ==> #[trigger] nv[a] != #[trigger] pv[b],
        decreases names@.len() - i,
    {
        let mut j: usize = 0;
        while j < present.len()
            invariant
                i < names@.len(),
                j <= present@.len(),
                nv == string_views(names@),
                pv == string_views(present@),
                forall|a: int, b: int| 0 <= a < i && 0 <= b < pv.len() ==> #[trigger] nv[a] != #[trigger] pv[b],
                forall|b: int| 0 <= b < j ==> nv[i as int] != #[trigger] pv[b],
            decreases present@.len() - j,
        {
            if names[i] == present[j] {
                assert(nv[i as int] == pv[j as int]);
                return true;
            }
            j = j + 1;
        }
        i = i + 1;
    }
    false
}

impl ProjectGathererInfo {
    /// The names that keep the walk out of a directory.
    pub closed spec fn no_enter_names(&self) -> Seq<Seq<char>> {
        string_views(self.no_enter@)
    }

    /// The names that mark a project the walk does not enter.
    pub closed spec fn no_enter_echo_names(&self) -> Seq<Seq<char>> {
        string_views(self.no_enter_echo@)
    }

    /// The names that mark a project the walk enters.
    pub closed spec fn enter_echo_names(&self) -> Seq<Seq<char>> {
        string_views(self.enter_echo@)
    }

    /// Every marker name whose existence in a directory the decision reads.
    pub fn markers(&self) -> (r: Vec<String>)
        ensures
            string_views(r@) == self.no_enter_echo_names() + self.no_enter_names()
                + self.enter_echo_names(),
    {
        let mut r: Vec<String> = Vec::new();
        let mut a = self.no_enter_echo.clone();
        let mut b = self.no_enter.clone();
        let mut c = self.enter_echo.clone();
        proof {
            assert(string_views(a@) =~= self.no_enter_echo_names());
            assert(string_views(b@) =~= self.no_enter_names());
            assert(string_views(c@) =~= self.enter_echo_names());
        }
        let ghost (av, bv, cv) = (a@, b@, c@);
        r.append(&mut a);
        r.append(&mut b);
        r.append(&mut c);
        assert(string_views(r@) =~= string_views(av) + string_views(bv) + string_views(cv));
        r
    }

    /// What the walk does with a directory in which exactly the marker names `present` exist.
    pub fn decide(&self, present: &[String]) -> (v: Visit)
        ensures
            (v.report, v.descend) == visit_decision(
                self.no_enter_names(),
                self.no_enter_echo_names(),
                self.enter_echo_names(),
                string_views(present@),
            ),
    {
        if any_listed(&self.no_enter_echo, present) {
            Visit { report: true, descend: false }
        } else if any_listed(&self.no_enter, present) {
            Visit { report: false, descend: false }
        } else {
            Visit { report: any_listed(&self.enter_echo, present), descend: true }
        }
    }
}

impl Default for ProjectGathererInfo {
    /// The markers of a project tree: `.git` and `.project` mark a project not entered,
    /// `.groupproject` a project that holds others, and `src` a directory not entered.
    fn default() -> (r: Self)
        ensures
            r.no_enter_names() == seq![src_name()],
            r.no_enter_echo_names() == seq![git_name(), project_name()],
            r.enter_echo_names() == seq![group_project_name()],
    {
        let src = "src".to_owned();
        let git = ".git".to_owned();
        let project = ".project".to_owned();
        let group = ".groupproject".to_owned();
        proof {
            reveal_strlit("src");
            reveal_strlit(".git");
            reveal_strlit(".project");
            reveal_strlit(".groupproject");
            assert(src@ =~= src_name());
            assert(git@ =~= git_name());
            assert(project@ =~= project_name());
            assert(group@ =~= group_project_name());
        }
        let r = ProjectGathererInfo {
            no_enter: vec![src],
            no_enter_echo: vec![git, project],
            enter_echo: vec![group],
        };
        assert(r.no_enter_names() =~= seq![src_name()]);
        assert(r.no_enter_echo_names() =~= seq![git_name(), project_name()]);
        assert(r.enter_echo_names() =~= seq![group_project_name()]);
        r
    }
}


/// Whether the name `n` is among `names`.
fn contains_name(names: &[String], n: &String) -> (r: bool)
    ensures
        r == string_views(names@).contains(n@),
{
    let ghost nv = string_views(names@);
    let mut i: usize = 0;
    while i < names.len()
        invariant
            i <= names@.len(),
            nv == string_views(names@),
            forall|k: int| 0 <= k < i ==> nv[k] != n@,
        decreases names@.len() - i,
    {
        if names[i] == *n {
            assert(nv[i as int] == n@);
            return true;
        }
        i = i + 1;
    }
    false
}

/// The entry at `k` ends the scan of a directory: it is not ignored and it is a stop name.
pub open spec fn stops_at(es: Seq<Seq<char>>, ignored: Seq<Seq<char>>, stop: Seq<Seq<char>>, k: int) -> bool {
    !ignored.contains(es[k]) && stop.contains(es[k])
}

/// The index of the first entry from `i` on that ends the scan, or the number of entries.
pub open spec fn first_stop_from(
    es: Seq<Seq<char>>,
    ignored: Seq<Seq<char>>,
    stop: Seq<Seq<char>>,
    i: int,
) -> int
    decreases es.len() - i,
{
    if i < 0 || i >= es.len() {
        es.len() as int
    } else if stops_at(es, ignored, stop, i) {
        i
    } else {
        first_stop_from(es, ignored, stop, i + 1)
    }
}

/// The index of the entry that ends the scan, or the number of entries.
pub open spec fn first_stop(es: Seq<Seq<char>>, ignored: Seq<Seq<char>>, stop: Seq<Seq<char>>) -> int {
    first_stop_from(es, ignored, stop, 0)
}

/// The number of entries the scan looks at: up to and including the one that ends it.
pub open spec fn scanned(es: Seq<Seq<char>>, ignored: Seq<Seq<char>>, stop: Seq<Seq<char>>) -> int {
    if first_stop(es, ignored, stop) < es.len() {
        first_stop(es, ignored, stop) + 1
    } else {
        es.len() as int
    }
}

/// The indices `0..n`.
pub open spec fn indices(n: nat) -> Seq<usize> {
    Seq::new(n, |k: int| k as usize)
}

/// Where the scan of a directory with entries `es` leads: how often the directory is
/// reported (once per matching entry up to the one that ends the scan), and the indices
/// of the entries to walk into next (none where an entry ended the scan, otherwise every
/// entry that is not ignored, in order).
pub open spec fn scan_spec(
    es: Seq<Seq<char>>,
    matching: Seq<Seq<char>>,
    ignored: Seq<Seq<char>>,
    stop: Seq<Seq<char>>,
) -> (nat, Seq<usize>) {
    (
        es.take(scanned(es, ignored, stop)).filter(|n: Seq<char>| matching.contains(n)).len(),
        if first_stop(es, ignored, stop) < es.len() {
            seq![]
        } else {
            indices(es.len()).filter(|k: usize| !ignored.contains(es[k as int]))
        },
    )
}

/// The outcome of scanning one directory's entries.
pub struct DirScan {
    /// How many times the directory is reported.
    pub reports: usize,
    /// The indices of the entries to walk into next, in order.
    pub descend: Vec<usize>,
}

/// The first index from `i` on that ends the scan, where none before `m` does and `m`
/// does or is the end.
proof fn lemma_first_stop(es: Seq<Seq<char>>, ignored: Seq<Seq<char>>, stop: Seq<Seq<char>>, i: int, m: int)
    requires
        0 <= i <= m <= es.len(),
        forall|k: int| i <= k < m ==> !#[trigger] stops_at(es, ignored, stop, k),
        m == es.len() || stops_at(es, ignored, stop, m),
    ensures
        first_stop_from(es, ignored, stop, i) == m,
    decreases m - i,
{
    if i < m {
        lemma_first_stop(es, ignored, stop, i + 1, m);
    }
}

/// Scans the entry names of one directory, in the order they were read: each entry in
/// `matching` reports the directory, entries in `ignored` are passed over, and the first
/// other entry in `stop` ends the scan and leaves nothing to walk into.
pub fn scan_dir(names: &[String], matching: &[String], ignored: &[String], stop: &[String]) -> (r: DirScan)
    ensures
        (r.reports as nat, r.descend@) == scan_spec(
            string_views(names@),
            string_views(matching@),
            string_views(ignored@),
            string_views(stop@),
        ),
{
    let ghost es = string_views(names@);
    let ghost mv = string_views(matching@);
    let ghost iv = string_views(ignored@);
    let ghost sv = string_views(stop@);
    let ghost mp = |n: Seq<char>| mv.contains(n);
    let ghost ip = |k: usize| !iv.contains(es[k as int]);
    let mut reports: usize = 0;
    let mut to_check: Vec<usize> = Vec::new();
    let mut i: usize = 0;
    while i < names.len()
        invariant
            i <= names@.len(),
            es == string_views(names@),
            mv == string_views(matching@),
            iv == string_views(ignored@),
            sv == string_views(stop@),
            mp == (|n: Seq<char>| mv.contains(n)),
            ip == (|k: usize| !iv.contains(es[k as int])),
            forall|k: int| 0 <= k < i ==> !#[trigger] stops_at(es, iv, sv, k),
            reports as nat == es.take(i as int).filter(mp).len(),
            to_check@ == indices(i as nat).filter(ip),
        decreases names@.len() - i,
    {
        proof {
            assert(es.take(i + 1) =~= es.take(i as int).push(es[i as int]));
            es.take(i as int).lemma_filter_push(es[i as int], mp);
            assert(indices((i + 1) as nat) =~= indices(i as nat).push(i));
            indices(i as nat).lemma_filter_push(i, ip);
            es.take(i as int).lemma_filter_len(mp);
        }
        if contains_name(matching, &names[i]) {
            reports = reports + 1;
        }
        if contains_name(ignored, &names[i]) {
            i = i + 1;
            continue;
        }
        if contains_name(stop, &names[i]) {
            proof {
                assert(stops_at(es, iv, sv, i as int));
                lemma_first_stop(es, iv, sv, 0, i as int);
            }
            to_check.clear();
            return DirScan { reports, descend: to_check };
        }
        to_check.push(i);
        i = i + 1;
    }
    proof {
        lemma_first_stop(es, iv, sv, 0, es.len() as int);
        assert(es.take(i as int) =~= es);
    }
    DirScan { reports, descend: to_check }
}

} // verus!
