use project_chooser::walker::{scan_dir, ProjectGathererInfo};

fn names(v: &[&str]) -> Vec<String> {
    v.iter().map(|x| x.to_string()).collect()
}

#[test]
fn default_markers_are_listed() {
    let info = ProjectGathererInfo::default();
    assert_eq!(info.markers(), names(&[".git", ".project", "src", ".groupproject"]));
}

#[test]
fn git_or_project_dir_is_reported_and_not_entered() {
    let info = ProjectGathererInfo::default();
    for present in [names(&[".git"]), names(&[".project"]), names(&["src", ".groupproject", ".git"])] {
        let v = info.decide(&present);
        assert!(v.report && !v.descend);
    }
}

#[test]
fn group_project_is_reported_and_entered() {
    let v = ProjectGathererInfo::default().decide(&names(&[".groupproject"]));
    assert!(v.report && v.descend);
}

#[test]
fn src_dir_is_not_entered() {
    let v = ProjectGathererInfo::default().decide(&names(&["src", ".groupproject"]));
    assert!(!v.report && !v.descend);
}

#[test]
fn plain_dir_is_entered() {
    let v = ProjectGathererInfo::default().decide(&names(&[]));
    assert!(!v.report && v.descend);
}

#[test]
fn scan_dir_reports_matches_and_skips_ignored() {
    let ok = names(&[".git", ".project"]);
    let ignored = names(&[".git", "src"]);
    let stop = names(&[".noproject"]);
    let r = scan_dir(&names(&["a", ".git", "src", "b", ".project"]), &ok, &ignored, &stop);
    assert_eq!(r.reports, 2);
    assert_eq!(r.descend, vec![0, 3, 4]);
}

#[test]
fn scan_dir_stops_at_stop_name() {
    let ok = names(&[".git", ".project"]);
    let ignored = names(&[".git", "src"]);
    let stop = names(&[".noproject", ".git"]);
    let r = scan_dir(&names(&["a", ".project", ".noproject", ".project"]), &ok, &ignored, &stop);
    assert_eq!(r.reports, 1);
    assert!(r.descend.is_empty());
    let r = scan_dir(&names(&["a", ".git", "b"]), &ok, &ignored, &stop);
    assert_eq!(r.reports, 1);
    assert_eq!(r.descend, vec![0, 2]);
}

struct Dir {
    name: &'static str,
    files: Vec<&'static str>,
    dirs: Vec<Dir>,
}

fn dir(name: &'static str, files: Vec<&'static str>, dirs: Vec<Dir>) -> Dir {
    Dir { name, files, dirs }
}

fn walk(info: &ProjectGathererInfo, d: &Dir, prefix: &str, found: &mut Vec<String>, visited: &mut Vec<String>) {
    let path = format!("{}/{}", prefix, d.name);
    visited.push(path.clone());
    let present: Vec<String> = info
        .markers()
        .into_iter()
        .filter(|m| d.files.contains(&m.as_str()) || d.dirs.iter().any(|c| c.name == m))
        .collect();
    let v = info.decide(&present);
    if v.report {
        found.push(path.clone());
    }
    if v.descend {
        for c in &d.dirs {
            walk(info, c, &path, found, visited);
        }
    }
}

#[test]
fn readme_example_tree_finds_its_projects() {
    let tree = dir(
        "projects",
        vec![],
        vec![
            dir("cloned_project", vec![], vec![dir(".git", vec![], vec![])]),
            dir(
                "parentProject",
                vec![".groupproject"],
                vec![
                    dir("binary", vec![], vec![dir(".git", vec![], vec![])]),
                    dir("library", vec![], vec![dir(".git", vec![], vec![])]),
                ],
            ),
            dir("projectA", vec![".project"], vec![]),
            dir("projectB", vec![".project"], vec![dir("data", vec![], vec![])]),
        ],
    );
    let info = ProjectGathererInfo::default();
    let mut found = vec![];
    let mut visited = vec![];
    walk(&info, &tree, "", &mut found, &mut visited);
    assert_eq!(
        found,
        names(&[
            "/projects/cloned_project",
            "/projects/parentProject",
            "/projects/parentProject/binary",
            "/projects/parentProject/library",
            "/projects/projectA",
            "/projects/projectB",
        ])
    );
    assert!(!visited.contains(&"/projects/projectB/data".to_string()));
    assert!(!visited.contains(&"/projects/cloned_project/.git".to_string()));
}
