use taggit::entry::Entry;

fn strings(items: &[&str]) -> Vec<String> {
    items.iter().map(|s| s.to_string()).collect()
}

fn entry(hash: &str, names: &[&str], tags: &[&str]) -> Entry {
    Entry { hash: hash.to_string(), names: strings(names), tags: strings(tags) }
}

#[test]
fn combine_takes_up_names_and_tags_in_order() {
    let mut kept: Entry = entry("h1", &["photo.jpg"], &["vacation"]);
    let mut other: Entry = entry("h1", &["photo_copy.jpg"], &["beach"]);
    kept.combine(&mut other);
    assert_eq!(kept.hash, "h1");
    assert_eq!(kept.names, strings(&["photo.jpg", "photo_copy.jpg"]));
    assert_eq!(kept.tags, strings(&["beach", "vacation"]));
}

#[test]
fn combine_drains_the_other_entry() {
    let mut kept: Entry = entry("h1", &["a"], &["x"]);
    let mut other: Entry = entry("h2", &["b"], &["y"]);
    kept.combine(&mut other);
    assert_eq!(other.hash, "h2");
    assert!(other.names.is_empty());
    assert!(other.tags.is_empty());
}

#[test]
fn combine_does_not_look_at_hashes() {
    let mut kept: Entry = entry("h1", &["a"], &[]);
    let mut other: Entry = entry("another", &["b"], &["t"]);
    kept.combine(&mut other);
    assert_eq!(kept.hash, "h1");
    assert_eq!(kept.names, strings(&["a", "b"]));
    assert_eq!(kept.tags, strings(&["t"]));
}

#[test]
fn combine_removes_duplicates() {
    let mut kept: Entry = entry("h", &["b", "a", "b"], &["t", "t"]);
    let mut other: Entry = entry("h", &["a", "c", "a"], &["t", "s"]);
    kept.combine(&mut other);
    assert_eq!(kept.names, strings(&["a", "b", "c"]));
    assert_eq!(kept.tags, strings(&["s", "t"]));
}

#[test]
fn combining_an_entry_with_its_like_keeps_its_content() {
    let mut kept: Entry = entry("h", &["a", "b"], &["x", "y"]);
    let mut same: Entry = entry("h", &["a", "b"], &["x", "y"]);
    kept.combine(&mut same);
    assert_eq!(kept.hash, "h");
    assert_eq!(kept.names, strings(&["a", "b"]));
    assert_eq!(kept.tags, strings(&["x", "y"]));
    let mut again: Entry = entry("h", &["a", "b"], &["x", "y"]);
    kept.combine(&mut again);
    assert_eq!(kept.names, strings(&["a", "b"]));
    assert_eq!(kept.tags, strings(&["x", "y"]));
}

#[test]
fn combining_unsorted_lists_with_their_like_sorts_them() {
    let mut kept: Entry = entry("h", &["b", "a", "a"], &["y", "x"]);
    let mut same: Entry = entry("h", &["b", "a", "a"], &["y", "x"]);
    kept.combine(&mut same);
    assert_eq!(kept.names, strings(&["a", "b"]));
    assert_eq!(kept.tags, strings(&["x", "y"]));
}

#[test]
fn combine_does_not_depend_on_the_order_of_names() {
    let mut first: Entry = entry("h", &[], &[]);
    let mut ba: Entry = entry("h", &["b", "a"], &["t2", "t1"]);
    first.combine(&mut ba);
    let mut second: Entry = entry("h", &[], &[]);
    let mut ab: Entry = entry("h", &["a", "b"], &["t1", "t2"]);
    second.combine(&mut ab);
    assert_eq!(first.names, strings(&["a", "b"]));
    assert_eq!(first.names, second.names);
    assert_eq!(first.tags, strings(&["t1", "t2"]));
    assert_eq!(first.tags, second.tags);
}

#[test]
fn combine_does_not_depend_on_which_entry_holds_what() {
    let mut left: Entry = entry("h", &["c", "a"], &["t"]);
    let mut right: Entry = entry("h", &["b"], &["s"]);
    left.combine(&mut right);
    let mut swapped: Entry = entry("h", &["b"], &["s"]);
    let mut rest: Entry = entry("h", &["c", "a"], &["t"]);
    swapped.combine(&mut rest);
    assert_eq!(left.names, strings(&["a", "b", "c"]));
    assert_eq!(left.names, swapped.names);
    assert_eq!(left.tags, swapped.tags);
}

#[test]
fn combine_with_an_empty_entry_sorts() {
    let mut kept: Entry = entry("h", &["z", "m", "z"], &[]);
    let mut empty: Entry = entry("h", &[], &[]);
    kept.combine(&mut empty);
    assert_eq!(kept.names, strings(&["m", "z"]));
    assert!(kept.tags.is_empty());
}

#[test]
fn normalize_sorts_and_leaves_each_string_once() {
    let mut e: Entry = entry("h", &["b", "a", "b"], &["y", "y", "x"]);
    e.normalize();
    assert_eq!(e.hash, "h");
    assert_eq!(e.names, strings(&["a", "b"]));
    assert_eq!(e.tags, strings(&["x", "y"]));
}

#[test]
fn entries_with_one_hash_are_equal() {
    let a: Entry = entry("h1", &["a"], &["x"]);
    let b: Entry = entry("h1", &["b", "c"], &[]);
    assert!(a == b);
    assert!(b == a);
}

#[test]
fn entries_with_different_hashes_are_not_equal() {
    let a: Entry = entry("h1", &["a"], &["x"]);
    let b: Entry = entry("h2", &["a"], &["x"]);
    assert!(a != b);
    assert!(!(a == b));
}

#[test]
fn an_entry_is_equal_to_itself() {
    let a: Entry = entry("", &[], &[]);
    let b: Entry = entry("", &["n"], &["t"]);
    assert!(a == a);
    assert!(a == b);
}
