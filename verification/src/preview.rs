//! Which file of a project its preview shows.

use crate::path::string_from_chars;
use crate::text::chars_of;
use vstd::prelude::*;

verus! {

/// The kind of file that a preview shows.
#[derive(Debug, Clone, Copy, PartialEq, Eq, Structural)]
pub enum PreviewKind {
    /// A project marker file, shown with the project file command.
    ProjectFile,
    /// A readme, shown with the readme command.
    Readme,
}

/// The file names a preview looks for in a project directory, in order of preference:
/// the first that exists and is not empty is shown.
pub open spec fn preview_order() -> Seq<(Seq<char>, PreviewKind)> {
    seq![
        (seq!['.', 'p', 'r', 'o', 'j', 'e', 'c', 't'], PreviewKind::ProjectFile),
        (seq!['.', 'g', 'r', 'o', 'u', 'p', 'p', 'r', 'o', 'j', 'e', 'c', 't'], PreviewKind::ProjectFile),
        (seq!['R', 'E', 'A', 'D', 'M', 'E', '.', 'm', 'd'], PreviewKind::Readme),
        (seq!['R', 'E', 'A', 'D', 'M', 'E', '.', 'r', 's', 't'], PreviewKind::Readme),
        (seq!['r', 'e', 'a', 'd', 'm', 'e', '.', 'm', 'd'], PreviewKind::Readme),
        (seq!['r', 'e', 'a', 'd', 'm', 'e', '.', 'r', 's', 't'], PreviewKind::Readme),
        (seq!['R', 'E', 'A', 'D', 'M', 'E', '.', 'M', 'D'], PreviewKind::Readme),
        (seq!['R', 'E', 'A', 'D', 'M', 'E', '.', 'R', 'S', 'T'], PreviewKind::Readme),
    ]
}

/// The file names a preview looks for, in order of preference, each with its kind.
pub fn preview_files() -> (r: Vec<(String, PreviewKind)>)
    ensures
        r@.map_values(|e: (String, PreviewKind)| (e.0@, e.1)) == preview_order(),
{
    let mut r: Vec<(String, PreviewKind)> = Vec::new();
    let n0 = ".project".to_owned();
    proof {
        reveal_strlit(".project");
        assert(n0@ =~= preview_order()[0].0);
    }
    r.push((n0, PreviewKind::ProjectFile));
    let n1 = ".groupproject".to_owned();
    proof {
        reveal_strlit(".groupproject");
        assert(n1@ =~= preview_order()[1].0);
    }
    r.push((n1, PreviewKind::ProjectFile));
    let n2 = "README.md".to_owned();
    proof {
        reveal_strlit("README.md");
        assert(n2@ =~= preview_order()[2].0);
    }
    r.push((n2, PreviewKind::Readme));
    let n3 = "README.rst".to_owned();
    proof {
        reveal_strlit("README.rst");
        assert(n3@ =~= preview_order()[3].0);
    }
    r.push((n3, PreviewKind::Readme));
    let n4 = "readme.md".to_owned();
    proof {
        reveal_strlit("readme.md");
        assert(n4@ =~= preview_order()[4].0);
    }
    r.push((n4, PreviewKind::Readme));
    let n5 = "readme.rst".to_owned();
    proof {
        reveal_strlit("readme.rst");
        assert(n5@ =~= preview_order()[5].0);
    }
    r.push((n5, PreviewKind::Readme));
    let n6 = "README.MD".to_owned();
    proof {
        reveal_strlit("README.MD");
        assert(n6@ =~= preview_order()[6].0);
    }
    r.push((n6, PreviewKind::Readme));
    let n7 = "README.RST".to_owned();
    proof {
        reveal_strlit("README.RST");
        assert(n7@ =~= preview_order()[7].0);
    }
    r.push((n7, PreviewKind::Readme));
    assert(r@.map_values(|e: (String, PreviewKind)| (e.0@, e.1)) =~= preview_order());
    r
}

/// The shell command that previews `file` with `cmd`: the command, a space, and the
/// file name in single quotes.
pub fn preview_command(cmd: &str, file: &str) -> (r: String)
    ensures
        r@ == cmd@ + seq![' ', '\''] + file@ + seq!['\''],
{
    let mut v = chars_of(cmd);
    v.push(' ');
    v.push('\'');
    let mut f = chars_of(file);
    v.append(&mut f);
    v.push('\'');
    string_from_chars(&v)
}


/// The index of the first file that can be shown, given for each file of the preview
/// order whether it exists and is not empty; `None` where none can, and the general
/// preview is shown.
pub fn choose_preview(usable: &[bool]) -> (r: Option<usize>)
    ensures
        match r {
            Some(i) => i < usable@.len() && usable@[i as int] && forall|k: int| 0 <= k < i ==> !usable@[k],
            None => forall|k: int| 0 <= k < usable@.len() ==> !usable@[k],
        },
{
    let mut i: usize = 0;
    while i < usable.len()
        invariant
            i <= usable@.len(),
            forall|k: int| 0 <= k < i ==> !usable@[k],
        decreases usable@.len() - i,
    {
        if usable[i] {
            return Some(i);
        }
        i = i + 1;
    }
    None
}

} // verus!
