use tree_digest::contents::{Contents, FsItem};
use tree_digest::file_hash::FileHash;

fn path(names: &[&str]) -> Vec<String> {
    names.iter().map(|name| name.to_string()).collect()
}

fn digest(text: &str) -> FileHash {
    FileHash::from_hex(text).unwrap()
}

fn sorted_names(contents: &Contents) -> Vec<String> {
    let mut names = contents.names();
    names.sort();
    names
}

fn file_at(contents: &Contents, names: &[&str]) -> Option<String> {
    contents
        .find(&path(names))
        .and_then(|item| item.as_file())
        .map(|hash| hash.to_hex())
}

fn directory_at<'a>(contents: &'a Contents, names: &[&str]) -> Option<&'a Contents> {
    contents
        .find(&path(names))
        .and_then(|item| item.as_directory())
}

#[test]
fn a_new_root_is_empty() {
    let root = Contents::default();
    assert!(root.names().is_empty());
    assert!(root.get(&"a".to_string()).is_none());
    assert!(root.find(&path(&["a"])).is_none());
}

#[test]
fn an_empty_path_changes_nothing() {
    let mut root = Contents::default();
    root.add_file(&[], digest("01"));
    root.add_dir(&[]);
    assert!(root.names().is_empty());

    root.add_file(&path(&["a"]), digest("02"));
    root.add_file(&[], digest("03"));
    root.add_dir(&[]);
    assert_eq!(sorted_names(&root), path(&["a"]));
    assert_eq!(file_at(&root, &["a"]), Some("02".to_string()));
}

#[test]
fn nothing_stands_at_the_empty_path() {
    let mut root = Contents::default();
    root.add_file(&path(&["a"]), digest("02"));
    assert!(root.find(&[]).is_none());
}

#[test]
fn a_file_at_one_name() {
    let mut root = Contents::default();
    root.add_file(&path(&["a"]), digest("aa"));
    assert_eq!(sorted_names(&root), path(&["a"]));
    assert_eq!(file_at(&root, &["a"]), Some("aa".to_string()));
    assert!(root.get(&"a".to_string()).unwrap().as_directory().is_none());
}

#[test]
fn a_directory_at_one_name() {
    let mut root = Contents::default();
    root.add_dir(&path(&["d"]));
    assert_eq!(sorted_names(&root), path(&["d"]));
    let d = directory_at(&root, &["d"]).unwrap();
    assert!(d.names().is_empty());
    assert!(root.get(&"d".to_string()).unwrap().as_file().is_none());
}

#[test]
fn the_same_file_twice_is_the_file_once() {
    let mut once = Contents::default();
    once.add_file(&path(&["a", "b"]), digest("0b"));

    let mut twice = Contents::default();
    twice.add_file(&path(&["a", "b"]), digest("0b"));
    twice.add_file(&path(&["a", "b"]), digest("0b"));

    assert_eq!(sorted_names(&twice), sorted_names(&once));
    let a = directory_at(&twice, &["a"]).unwrap();
    assert_eq!(sorted_names(a), path(&["b"]));
    assert_eq!(file_at(&twice, &["a", "b"]), Some("0b".to_string()));
}

#[test]
fn a_deep_path_makes_its_directories() {
    let mut root = Contents::default();
    root.add_file(&path(&["a", "b", "c"]), digest("0c"));

    assert_eq!(sorted_names(&root), path(&["a"]));
    let a = directory_at(&root, &["a"]).unwrap();
    assert_eq!(sorted_names(a), path(&["b"]));
    let b = directory_at(&root, &["a", "b"]).unwrap();
    assert_eq!(sorted_names(b), path(&["c"]));
    assert_eq!(file_at(&root, &["a", "b", "c"]), Some("0c".to_string()));
    assert!(root.find(&path(&["a", "c"])).is_none());
    assert!(root.find(&path(&["b"])).is_none());
    assert!(root.find(&path(&["a", "b", "c", "d"])).is_none());
}

#[test]
fn a_deep_directory_makes_its_directories() {
    let mut root = Contents::default();
    root.add_dir(&path(&["a", "b"]));
    assert_eq!(sorted_names(&root), path(&["a"]));
    assert_eq!(sorted_names(directory_at(&root, &["a"]).unwrap()), path(&["b"]));
    assert!(directory_at(&root, &["a", "b"]).unwrap().names().is_empty());
}

#[test]
fn a_directory_marker_keeps_what_is_below() {
    let mut root = Contents::default();
    root.add_file(&path(&["a", "x"]), digest("d0"));
    root.add_dir(&path(&["a"]));
    assert_eq!(file_at(&root, &["a", "x"]), Some("d0".to_string()));
    assert_eq!(sorted_names(directory_at(&root, &["a"]).unwrap()), path(&["x"]));
}

#[test]
fn a_directory_marker_keeps_a_file() {
    let mut root = Contents::default();
    root.add_file(&path(&["a"]), digest("d1"));
    root.add_dir(&path(&["a"]));
    assert_eq!(file_at(&root, &["a"]), Some("d1".to_string()));

    root.add_file(&path(&["p", "q"]), digest("d2"));
    root.add_dir(&path(&["p", "q"]));
    assert_eq!(file_at(&root, &["p", "q"]), Some("d2".to_string()));
}

#[test]
fn a_file_takes_the_place_of_a_directory() {
    let mut root = Contents::default();
    root.add_dir(&path(&["a", "b"]));
    root.add_file(&path(&["a"]), digest("d3"));
    assert_eq!(sorted_names(&root), path(&["a"]));
    assert_eq!(file_at(&root, &["a"]), Some("d3".to_string()));
    assert!(directory_at(&root, &["a"]).is_none());
    assert!(root.find(&path(&["a", "b"])).is_none());
}

#[test]
fn a_file_takes_the_place_of_a_file() {
    let mut root = Contents::default();
    root.add_file(&path(&["a", "f"]), digest("01"));
    root.add_file(&path(&["a", "f"]), digest("02"));
    assert_eq!(file_at(&root, &["a", "f"]), Some("02".to_string()));
    assert_eq!(sorted_names(directory_at(&root, &["a"]).unwrap()), path(&["f"]));
}

#[test]
fn a_deeper_path_takes_the_place_of_a_file_on_its_way() {
    let mut root = Contents::default();
    root.add_file(&path(&["a"]), digest("01"));
    root.add_file(&path(&["a", "b", "c"]), digest("02"));
    assert!(file_at(&root, &["a"]).is_none());
    assert_eq!(sorted_names(directory_at(&root, &["a"]).unwrap()), path(&["b"]));
    assert_eq!(sorted_names(directory_at(&root, &["a", "b"]).unwrap()), path(&["c"]));
    assert_eq!(file_at(&root, &["a", "b", "c"]), Some("02".to_string()));
}

#[test]
fn a_deeper_path_goes_into_a_directory_that_is_there() {
    let mut root = Contents::default();
    root.add_file(&path(&["a", "x"]), digest("01"));
    root.add_file(&path(&["a", "y", "z"]), digest("02"));
    root.add_dir(&path(&["a", "w"]));
    let a = directory_at(&root, &["a"]).unwrap();
    assert_eq!(sorted_names(a), path(&["w", "x", "y"]));
    assert_eq!(file_at(&root, &["a", "x"]), Some("01".to_string()));
    assert_eq!(file_at(&root, &["a", "y", "z"]), Some("02".to_string()));
    assert!(directory_at(&root, &["a", "w"]).unwrap().names().is_empty());
}

#[test]
fn siblings_do_not_touch_each_other() {
    let mut root = Contents::default();
    root.add_file(&path(&["a"]), digest("d1"));
    root.add_file(&path(&["b"]), digest("d2"));
    assert_eq!(sorted_names(&root), path(&["a", "b"]));
    assert_eq!(file_at(&root, &["a"]), Some("d1".to_string()));
    assert_eq!(file_at(&root, &["b"]), Some("d2".to_string()));
}

#[test]
fn the_order_of_a_walk_does_not_matter() {
    let mut parents_first = Contents::default();
    parents_first.add_dir(&path(&["src"]));
    parents_first.add_file(&path(&["src", "lib"]), digest("01"));
    parents_first.add_dir(&path(&["src", "bin"]));
    parents_first.add_file(&path(&["src", "bin", "main"]), digest("02"));
    parents_first.add_file(&path(&["readme"]), digest("03"));

    let mut children_first = Contents::default();
    children_first.add_file(&path(&["src", "bin", "main"]), digest("02"));
    children_first.add_file(&path(&["readme"]), digest("03"));
    children_first.add_dir(&path(&["src", "bin"]));
    children_first.add_file(&path(&["src", "lib"]), digest("01"));
    children_first.add_dir(&path(&["src"]));

    for root in [&parents_first, &children_first] {
        assert_eq!(sorted_names(root), path(&["readme", "src"]));
        assert_eq!(sorted_names(directory_at(root, &["src"]).unwrap()), path(&["bin", "lib"]));
        assert_eq!(sorted_names(directory_at(root, &["src", "bin"]).unwrap()), path(&["main"]));
        assert_eq!(file_at(root, &["src", "lib"]), Some("01".to_string()));
        assert_eq!(file_at(root, &["src", "bin", "main"]), Some("02".to_string()));
        assert_eq!(file_at(root, &["readme"]), Some("03".to_string()));
    }
}

#[test]
fn names_are_told_apart_exactly() {
    let mut root = Contents::default();
    root.add_file(&path(&["a"]), digest("01"));
    root.add_file(&path(&["A"]), digest("02"));
    root.add_file(&path(&["a "]), digest("03"));
    root.add_file(&path(&[""]), digest("04"));
    assert_eq!(sorted_names(&root), path(&["", "A", "a", "a "]));
    assert_eq!(file_at(&root, &["a"]), Some("01".to_string()));
    assert_eq!(file_at(&root, &["A"]), Some("02".to_string()));
    assert_eq!(file_at(&root, &["a "]), Some("03".to_string()));
    assert_eq!(file_at(&root, &[""]), Some("04".to_string()));
}

#[test]
fn get_looks_into_one_directory_only() {
    let mut root = Contents::default();
    root.add_file(&path(&["a", "b"]), digest("01"));
    assert!(root.get(&"a".to_string()).is_some());
    assert!(root.get(&"b".to_string()).is_none());
    let a = root.get(&"a".to_string()).unwrap().as_directory().unwrap();
    assert_eq!(a.get(&"b".to_string()).unwrap().as_file().unwrap().to_hex(), "01");
}

#[test]
fn create_wraps_the_item_in_one_directory_for_each_name() {
    let item = FsItem::create(&path(&["b", "c"]), FsItem::File(digest("0c")));
    let b = item.as_directory().unwrap();
    assert_eq!(sorted_names(b), path(&["b"]));
    assert_eq!(file_at(b, &["b", "c"]), Some("0c".to_string()));
    assert_eq!(sorted_names(directory_at(b, &["b"]).unwrap()), path(&["c"]));
}

#[test]
fn create_without_names_gives_the_item_back() {
    let item = FsItem::create(&[], FsItem::File(digest("0c")));
    assert_eq!(item.as_file().unwrap().to_hex(), "0c");
    let item = FsItem::create(&[], FsItem::Directory(Contents::default()));
    assert!(item.as_directory().unwrap().names().is_empty());
}

#[test]
fn add_item_takes_a_directory_with_entries() {
    let mut sub = Contents::default();
    sub.add_file(&path(&["x"]), digest("01"));
    let mut root = Contents::default();
    root.add_item(&path(&["a", "s"]), FsItem::Directory(sub));
    assert_eq!(file_at(&root, &["a", "s", "x"]), Some("01".to_string()));

    // A directory gives way to what stands there already.
    let mut other = Contents::default();
    other.add_file(&path(&["y"]), digest("02"));
    root.add_item(&path(&["a", "s"]), FsItem::Directory(other));
    assert_eq!(sorted_names(directory_at(&root, &["a", "s"]).unwrap()), path(&["x"]));
}

#[test]
fn a_directory_can_be_changed_in_place() {
    let mut item = FsItem::Directory(Contents::default());
    item.as_directory_mut().unwrap().add_file(&path(&["f"]), digest("01"));
    assert!(item.as_file_mut().is_none());
    assert_eq!(file_at(item.as_directory().unwrap(), &["f"]), Some("01".to_string()));
}

#[test]
fn a_file_can_be_changed_in_place() {
    let mut item = FsItem::File(digest("01"));
    assert!(item.as_directory_mut().is_none());
    *item.as_file_mut().unwrap() = digest("02");
    assert_eq!(item.as_file().unwrap().to_hex(), "02");
}
