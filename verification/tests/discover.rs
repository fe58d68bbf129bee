use rust_manager::discover::{
    find_projects, manifest_path, project_of_entry, projects_root, Entry, ManifestFile,
};
use rust_manager::project::{ProjectCollection, ProjectInfo};

fn manifest(name: &str) -> ManifestFile {
    ManifestFile::Text(format!("[package]\nname = \"{}\"\n", name))
}

fn dir(path: &str, manifest: ManifestFile) -> Entry {
    Entry { path: path.to_string(), is_dir: true, manifest }
}

fn file(path: &str) -> Entry {
    Entry { path: path.to_string(), is_dir: false, manifest: ManifestFile::Missing }
}

fn all(c: &ProjectCollection) -> Vec<ProjectInfo> {
    let mut out = Vec::new();
    let mut i = 0;
    while i < c.len() {
        out.push(c.get(i).unwrap().clone());
        i += 1;
    }
    out
}

fn project(name: &str, description: Option<&str>, path: &str) -> ProjectInfo {
    ProjectInfo {
        name: name.to_string(),
        description: description.map(|d| d.to_string()),
        path: path.to_string(),
    }
}

#[test]
fn root_and_manifest_paths() {
    assert_eq!(projects_root("/home/u"), "/home/u/rust");
    assert_eq!(projects_root("/home/u/"), "/home/u/rust");
    assert_eq!(manifest_path("/home/u/rust/alpha"), "/home/u/rust/alpha/Cargo.toml");
    assert_eq!(manifest_path("/home/u/rust/alpha/"), "/home/u/rust/alpha/Cargo.toml");
}

#[test]
fn entry_that_is_a_project() {
    let e = dir("/r/alpha", manifest("alpha"));
    assert_eq!(project_of_entry(&e), Some(project("alpha", None, "/r/alpha")));
}

#[test]
fn entry_that_is_no_project() {
    assert_eq!(project_of_entry(&file("/r/notes.txt")), None);
    assert_eq!(project_of_entry(&dir("/r/empty", ManifestFile::Missing)), None);
    assert_eq!(project_of_entry(&dir("/r/locked", ManifestFile::Unreadable)), None);
    assert_eq!(project_of_entry(&dir("/r/bad", ManifestFile::Text("[package".to_string()))), None);
    assert_eq!(
        project_of_entry(&dir("/r/noname", ManifestFile::Text("[package]\n".to_string()))),
        None
    );
    // a file is no project, whatever lies beside it
    let odd = Entry { path: "/r/f".to_string(), is_dir: false, manifest: manifest("f") };
    assert_eq!(project_of_entry(&odd), None);
}

#[test]
fn entry_with_an_empty_name_is_no_project() {
    let nameless = dir("/r/nameless", manifest(""));
    assert_eq!(project_of_entry(&nameless), None);
    let entries = vec![dir("/r/alpha", manifest("alpha")), nameless, dir("/r/beta", manifest("beta"))];
    let found = find_projects("/r", Some(entries));
    let names: Vec<String> = all(&found.projects).into_iter().map(|p| p.name).collect();
    assert_eq!(names, vec!["alpha", "beta"]);
    assert!(all(&found.projects).iter().all(|p| !p.name.is_empty()));
}

#[test]
fn two_projects_are_found_with_their_fields() {
    let entries = vec![
        dir("/r/alpha", manifest("alpha")),
        dir(
            "/r/beta",
            ManifestFile::Text("[package]\nname = \"beta\"\ndescription = \"demo\"\n".to_string()),
        ),
    ];
    let found = find_projects("/r", Some(entries));
    assert_eq!(found.diagnostic, None);
    assert_eq!(
        all(&found.projects),
        vec![project("alpha", None, "/r/alpha"), project("beta", Some("demo"), "/r/beta")]
    );
}

#[test]
fn size_is_the_number_of_entries_with_a_usable_manifest() {
    let entries = vec![
        dir("/r/one", manifest("one")),
        file("/r/readme.md"),
        dir("/r/none", ManifestFile::Missing),
        dir("/r/two", manifest("two")),
        dir("/r/broken", ManifestFile::Text("name = ".to_string())),
        dir("/r/nameless", ManifestFile::Text("[package]\nversion = \"1\"\n".to_string())),
        dir("/r/unreadable", ManifestFile::Unreadable),
        dir("/r/three", manifest("three")),
        dir("/r/numbered", ManifestFile::Text("[package]\nname = 3\n".to_string())),
    ];
    let found = find_projects("/r", Some(entries));
    assert_eq!(found.projects.len(), 3);
    let names: Vec<String> = all(&found.projects).into_iter().map(|p| p.name).collect();
    assert_eq!(names, vec!["one", "three", "two"]);
}

#[test]
fn order_is_by_name_whatever_the_order_of_the_entries() {
    let names = ["delta", "alpha", "echo", "charlie", "bravo"];
    let orders: [[usize; 5]; 4] = [[0, 1, 2, 3, 4], [4, 3, 2, 1, 0], [2, 0, 4, 1, 3], [1, 4, 0, 3, 2]];
    for order in orders {
        let entries: Vec<Entry> = order
            .iter()
            .map(|&i| dir(&format!("/r/{}", names[i]), manifest(names[i])))
            .collect();
        let found = find_projects("/r", Some(entries));
        let got: Vec<String> = all(&found.projects).into_iter().map(|p| p.name).collect();
        assert_eq!(got, vec!["alpha", "bravo", "charlie", "delta", "echo"]);
    }
}

#[test]
fn order_goes_by_the_name_in_the_manifest_not_by_the_directory() {
    let entries = vec![
        dir("/r/a", manifest("zulu")),
        dir("/r/b", manifest("yankee")),
        dir("/r/c", manifest("xray")),
    ];
    let found = find_projects("/r", Some(entries));
    assert_eq!(
        all(&found.projects),
        vec![
            project("xray", None, "/r/c"),
            project("yankee", None, "/r/b"),
            project("zulu", None, "/r/a")
        ]
    );
}

#[test]
fn searching_twice_gives_the_same_collection() {
    let entries = vec![
        dir("/r/b", manifest("b")),
        file("/r/x"),
        dir("/r/a", manifest("a")),
        dir("/r/a2", manifest("a")),
    ];
    let first = find_projects("/r", Some(entries.clone()));
    let second = find_projects("/r", Some(entries));
    assert_eq!(all(&first.projects), all(&second.projects));
    assert_eq!(first.diagnostic, second.diagnostic);
}

#[test]
fn duplicate_names_leave_one_entry() {
    let entries = vec![dir("/r/first", manifest("x")), dir("/r/second", manifest("x"))];
    let found = find_projects("/r", Some(entries));
    assert_eq!(found.projects.len(), 1);
    let only = found.projects.get(0).unwrap();
    assert_eq!(only.name, "x");
}

#[test]
fn duplicate_names_keep_the_later_entry() {
    let entries = vec![
        dir("/r/first", manifest("x")),
        dir("/r/other", manifest("a")),
        dir("/r/second", manifest("x")),
        dir(
            "/r/third",
            ManifestFile::Text("[package]\nname = \"x\"\ndescription = \"last\"\n".to_string()),
        ),
        dir("/r/broken", ManifestFile::Text("[package]\nname = \"x\"\nname".to_string())),
    ];
    let found = find_projects("/r", Some(entries));
    assert_eq!(
        all(&found.projects),
        vec![project("a", None, "/r/other"), project("x", Some("last"), "/r/third")]
    );
}

#[test]
fn empty_root_holds_no_project() {
    let found = find_projects("/r", Some(vec![]));
    assert!(found.projects.is_empty());
    assert_eq!(found.projects.len(), 0);
    assert_eq!(found.diagnostic, None);
}

#[test]
fn root_with_files_only_holds_no_project() {
    let entries = vec![file("/r/a.txt"), file("/r/Cargo.toml"), file("/r/b")];
    let found = find_projects("/r", Some(entries));
    assert!(found.projects.is_empty());
    assert_eq!(found.diagnostic, None);
}

#[test]
fn unreadable_root_gives_a_complaint_and_no_project() {
    let found = find_projects("/home/u/rust", None);
    assert!(found.projects.is_empty());
    assert_eq!(found.diagnostic, Some("Could not read directory: /home/u/rust".to_string()));
}
