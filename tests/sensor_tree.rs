use sensor_gateway::error::Error;
use sensor_gateway::resolve::split_path;
use sensor_gateway::tree::{build_tree, insert_sensor, SensorNode};

fn names(v: &[&str]) -> Vec<String> {
    v.iter().map(|s| s.to_string()).collect()
}

fn entry(path: &str, text: &str) -> (Vec<String>, String) {
    (split_path(path), text.to_string())
}

fn text_at(t: &SensorNode, path: &[&str]) -> Option<String> {
    match t.lookup(&names(path)) {
        Some(SensorNode::Leaf(s)) => Some(s.clone()),
        _ => None,
    }
}

fn child_names(t: &SensorNode, path: &[&str]) -> Vec<String> {
    match t.lookup(&names(path)) {
        Some(SensorNode::Branch(ch)) => {
            let mut v: Vec<String> = ch.iter().map(|(k, _)| k.clone()).collect();
            v.sort();
            v
        }
        _ => panic!("not a directory"),
    }
}

#[test]
fn nested_files_fold_into_nested_directories() {
    let entries = vec![entry("a/x.txt", "1"), entry("a/b/y.txt", "2")];
    let t = build_tree(&entries).unwrap();
    assert_eq!(child_names(&t, &[]), names(&["a"]));
    assert_eq!(child_names(&t, &["a"]), names(&["b", "x.txt"]));
    assert_eq!(child_names(&t, &["a", "b"]), names(&["y.txt"]));
    assert_eq!(text_at(&t, &["a", "x.txt"]), Some("1".to_string()));
    assert_eq!(text_at(&t, &["a", "b", "y.txt"]), Some("2".to_string()));
    assert!(t.lookup(&names(&["a", "z"])).is_none());
}

#[test]
fn empty_walk_gives_empty_root() {
    let t = build_tree(&Vec::new()).unwrap();
    match t {
        SensorNode::Branch(ch) => assert!(ch.is_empty()),
        SensorNode::Leaf(_) => panic!("root must be a directory"),
    }
}

#[test]
fn file_used_as_directory_is_a_conflict() {
    let entries = vec![entry("a", "1"), entry("a/b", "2")];
    assert!(matches!(build_tree(&entries), Err(Error::TreeConflict)));
}

#[test]
fn directory_replaced_by_file_is_a_conflict() {
    let entries = vec![entry("a/b", "2"), entry("a", "1")];
    assert!(matches!(build_tree(&entries), Err(Error::TreeConflict)));
}

#[test]
fn empty_path_is_a_conflict() {
    let entries = vec![(Vec::new(), "1".to_string())];
    assert!(matches!(build_tree(&entries), Err(Error::TreeConflict)));
}

#[test]
fn unreadable_sibling_left_out_keeps_the_others() {
    // the walk skips the unreadable "a/secret"; the readable siblings all appear
    let entries = vec![entry("a/one", "1"), entry("a/two", "2"), entry("b", "3")];
    let t = build_tree(&entries).unwrap();
    assert_eq!(child_names(&t, &["a"]), names(&["one", "two"]));
    assert_eq!(text_at(&t, &["a", "secret"]), None);
    assert_eq!(text_at(&t, &["b"]), Some("3".to_string()));
}

#[test]
fn walk_order_does_not_change_the_tree() {
    let e1 = vec![entry("a/x.txt", "1"), entry("a/b/y.txt", "2"), entry("c", "3")];
    let e2 = vec![entry("c", "3"), entry("a/b/y.txt", "2"), entry("a/x.txt", "1")];
    let t1 = build_tree(&e1).unwrap();
    let t2 = build_tree(&e2).unwrap();
    for p in [&["a"][..], &["a", "b"][..], &[][..]] {
        assert_eq!(child_names(&t1, p), child_names(&t2, p));
    }
    for p in [&["a", "x.txt"][..], &["a", "b", "y.txt"][..], &["c"][..]] {
        assert_eq!(text_at(&t1, p), text_at(&t2, p));
    }
}

#[test]
fn repeated_builds_agree() {
    let e = vec![entry("s/t", "20.5"), entry("s/h", "40")];
    let t1 = build_tree(&e).unwrap();
    let t2 = build_tree(&e).unwrap();
    assert_eq!(child_names(&t1, &["s"]), child_names(&t2, &["s"]));
    assert_eq!(text_at(&t1, &["s", "t"]), text_at(&t2, &["s", "t"]));
}

#[test]
fn insert_overwrites_a_file_and_keeps_the_rest() {
    let t = build_tree(&vec![entry("a/x", "1"), entry("a/y", "2")]).unwrap();
    let t = insert_sensor(t, &names(&["a", "x"]), "9".to_string()).unwrap();
    assert_eq!(text_at(&t, &["a", "x"]), Some("9".to_string()));
    assert_eq!(text_at(&t, &["a", "y"]), Some("2".to_string()));
    assert_eq!(child_names(&t, &["a"]), names(&["x", "y"]));
}

#[test]
fn insert_below_a_file_fails() {
    let t = build_tree(&vec![entry("a", "1")]).unwrap();
    assert!(matches!(insert_sensor(t, &names(&["a", "b"]), "2".to_string()), Err(Error::TreeConflict)));
}
