use rust_manager::project::{ProjectCollection, ProjectInfo};

fn named(name: &str, path: &str) -> ProjectInfo {
    ProjectInfo { name: name.to_string(), description: None, path: path.to_string() }
}

fn names(c: &ProjectCollection) -> Vec<String> {
    let mut out = Vec::new();
    let mut i = 0;
    while i < c.len() {
        out.push(c.get(i).unwrap().name.clone());
        i += 1;
    }
    out
}

#[test]
fn new_collection_is_empty() {
    let c = ProjectCollection::new();
    assert_eq!(c.len(), 0);
    assert!(c.is_empty());
    assert_eq!(c.get(0), None);
}

#[test]
fn insert_keeps_the_names_in_order() {
    let mut c = ProjectCollection::new();
    for n in ["delta", "alpha", "charlie", "bravo", "echo"] {
        c.insert(named(n, n));
    }
    assert_eq!(c.len(), 5);
    assert!(!c.is_empty());
    assert_eq!(names(&c), vec!["alpha", "bravo", "charlie", "delta", "echo"]);
}

#[test]
fn insert_orders_by_character_code() {
    let mut c = ProjectCollection::new();
    for n in ["b", "a", "B", "ab", "A", "", "é", "a-b", "a_b", "10", "9"] {
        c.insert(named(n, n));
    }
    let mut expected: Vec<String> =
        ["b", "a", "B", "ab", "A", "", "é", "a-b", "a_b", "10", "9"].iter().map(|s| s.to_string()).collect();
    expected.sort();
    assert_eq!(names(&c), expected);
}

#[test]
fn insert_replaces_a_project_of_the_same_name() {
    let mut c = ProjectCollection::new();
    c.insert(named("x", "/first"));
    c.insert(named("a", "/a"));
    c.insert(named("x", "/second"));
    assert_eq!(c.len(), 2);
    assert_eq!(names(&c), vec!["a", "x"]);
    assert_eq!(c.get(1).unwrap().path, "/second");
    c.insert(ProjectInfo {
        name: "x".to_string(),
        description: Some("third".to_string()),
        path: "/third".to_string(),
    });
    assert_eq!(c.len(), 2);
    assert_eq!(c.get(1).unwrap().path, "/third");
    assert_eq!(c.get(1).unwrap().description, Some("third".to_string()));
    assert_eq!(c.get(0).unwrap().path, "/a");
}

#[test]
fn get_and_at_give_the_project_at_a_position() {
    let mut c = ProjectCollection::new();
    c.insert(named("beta", "/b"));
    c.insert(named("alpha", "/a"));
    assert_eq!(c.get(0), Some(&named("alpha", "/a")));
    assert_eq!(c.get(1), Some(&named("beta", "/b")));
    assert_eq!(c.get(2), None);
    assert_eq!(c.get(usize::MAX), None);
    assert_eq!(c.at(0), &named("alpha", "/a"));
    assert_eq!(c.at(1), &named("beta", "/b"));
}

#[test]
fn insert_agrees_with_an_ordered_map() {
    let seq = [
        ("m", "1"), ("c", "2"), ("x", "3"), ("c", "4"), ("a", "5"), ("m", "6"), ("z", "7"),
        ("a", "8"), ("b", "9"), ("y", "10"), ("", "11"), ("x", "12"),
    ];
    let mut c = ProjectCollection::new();
    let mut model = std::collections::BTreeMap::new();
    for (n, p) in seq {
        c.insert(named(n, p));
        model.insert(n.to_string(), p.to_string());
        c.order_holds();
        assert_eq!(c.len(), model.len());
        let mut i = 0;
        for (name, path) in &model {
            let got = c.get(i).unwrap();
            assert_eq!(&got.name, name);
            assert_eq!(&got.path, path);
            i += 1;
        }
    }
}
