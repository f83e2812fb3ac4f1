use photo_organizer::collection::Photo;
use photo_organizer::index::{Index, IndexEntry};
use photo_organizer::reconcile::{new_paths, update};

fn entry(path: &str, orig: &str, hash: &str) -> IndexEntry {
    IndexEntry {
        filepath: path.to_string(),
        orig_filename: orig.to_string(),
        filehash: hash.to_string(),
    }
}

fn photos(paths: &[&str]) -> Vec<Photo> {
    paths.iter().map(|p| Photo { relative_path: p.to_string() }).collect()
}

fn index_with(entries: Vec<IndexEntry>) -> Index {
    let mut index = Index::default();
    index.photos = entries;
    index
}

fn strings(v: &[&str]) -> Vec<String> {
    v.iter().map(|s| s.to_string()).collect()
}

#[test]
fn rename_is_detected_by_hash() {
    let mut index = index_with(vec![entry("a.jpg", "IMG_0001.jpg", "h1")]);
    let live = photos(&["b.jpg"]);
    assert_eq!(new_paths(&index, &live), strings(&["b.jpg"]));
    let result = update(&mut index, &live, &strings(&["h1"]));
    assert_eq!(result.renamed, vec![("a.jpg".to_string(), "b.jpg".to_string())]);
    assert!(result.added.is_empty());
    assert!(result.deleted.is_empty());
    assert!(result.changed());
    assert_eq!(index.photos, vec![entry("b.jpg", "IMG_0001.jpg", "h1")]);
}

#[test]
fn unrelated_addition_and_deletion() {
    let mut index = index_with(vec![entry("a.jpg", "a.jpg", "h1")]);
    let live = photos(&["c.jpg"]);
    let result = update(&mut index, &live, &strings(&["h2"]));
    assert_eq!(result.added, strings(&["c.jpg"]));
    assert_eq!(result.deleted, strings(&["a.jpg"]));
    assert!(result.renamed.is_empty());
    assert_eq!(index.photos, vec![entry("c.jpg", "c.jpg", "h2")]);
}

#[test]
fn second_update_changes_nothing() {
    let mut index = index_with(vec![
        entry("a.jpg", "a.jpg", "h1"),
        entry("gone.jpg", "gone.jpg", "h9"),
        entry("old.jpg", "orig.jpg", "h3"),
    ]);
    let live = photos(&["a.jpg", "new.jpg", "moved.jpg"]);
    let fresh = new_paths(&index, &live);
    assert_eq!(fresh, strings(&["moved.jpg", "new.jpg"]));
    let first = update(&mut index, &live, &strings(&["h3", "h2"]));
    assert_eq!(first.renamed, vec![("old.jpg".to_string(), "moved.jpg".to_string())]);
    assert_eq!(first.added, strings(&["new.jpg"]));
    assert_eq!(first.deleted, strings(&["gone.jpg"]));
    assert!(first.changed());
    let after_first = index.clone();
    assert!(new_paths(&index, &live).is_empty());
    let second = update(&mut index, &live, &Vec::new());
    assert!(!second.changed());
    assert_eq!(index, after_first);
}

#[test]
fn unchanged_paths_are_kept_in_place() {
    let mut index = index_with(vec![entry("x.jpg", "x0.jpg", "h1"), entry("y.jpg", "y0.jpg", "h2")]);
    let live = photos(&["y.jpg", "x.jpg"]);
    assert!(new_paths(&index, &live).is_empty());
    let result = update(&mut index, &live, &Vec::new());
    assert!(!result.changed());
    assert_eq!(index.photos, vec![entry("x.jpg", "x0.jpg", "h1"), entry("y.jpg", "y0.jpg", "h2")]);
}

#[test]
fn equal_hashes_bind_to_least_path() {
    let mut index = index_with(vec![entry("b.jpg", "second.jpg", "h"), entry("a.jpg", "first.jpg", "h")]);
    let live = photos(&["c.jpg"]);
    let result = update(&mut index, &live, &strings(&["h"]));
    assert_eq!(result.renamed, vec![("a.jpg".to_string(), "c.jpg".to_string())]);
    assert_eq!(result.deleted, strings(&["b.jpg"]));
    assert_eq!(index.photos, vec![entry("c.jpg", "first.jpg", "h")]);
}

#[test]
fn new_paths_bind_in_path_order() {
    let mut index = index_with(vec![entry("y.jpg", "Y0.jpg", "h"), entry("x.jpg", "X0.jpg", "h")]);
    let live = photos(&["q.jpg", "p.jpg"]);
    assert_eq!(new_paths(&index, &live), strings(&["p.jpg", "q.jpg"]));
    let result = update(&mut index, &live, &strings(&["h", "h"]));
    assert_eq!(
        result.renamed,
        vec![("x.jpg".to_string(), "p.jpg".to_string()), ("y.jpg".to_string(), "q.jpg".to_string())]
    );
    assert_eq!(index.photos, vec![entry("p.jpg", "X0.jpg", "h"), entry("q.jpg", "Y0.jpg", "h")]);
}

#[test]
fn equal_hashes_bind_in_path_order_when_index_is_sorted() {
    let mut index = index_with(vec![entry("a.jpg", "first.jpg", "h"), entry("b.jpg", "second.jpg", "h")]);
    let live = photos(&["c.jpg"]);
    let result = update(&mut index, &live, &strings(&["h"]));
    assert_eq!(result.renamed, vec![("a.jpg".to_string(), "c.jpg".to_string())]);
    assert_eq!(result.deleted, strings(&["b.jpg"]));
    assert_eq!(index.photos, vec![entry("c.jpg", "first.jpg", "h")]);
}

#[test]
fn added_entry_records_base_name() {
    let mut index = Index::default();
    let live = photos(&["2022/05/IMG_1.JPG"]);
    let result = update(&mut index, &live, &strings(&["abc"]));
    assert_eq!(result.added, strings(&["2022/05/IMG_1.JPG"]));
    assert_eq!(index.photos, vec![entry("2022/05/IMG_1.JPG", "IMG_1.JPG", "abc")]);
}

#[test]
fn new_paths_lists_each_path_once() {
    let index = index_with(vec![entry("a.jpg", "a.jpg", "h1")]);
    let live = photos(&["b.jpg", "a.jpg", "b.jpg", "c.jpg"]);
    assert_eq!(new_paths(&index, &live), strings(&["b.jpg", "c.jpg"]));
}

#[test]
fn empty_update_reports_no_change() {
    let mut index = Index::default();
    let result = update(&mut index, &Vec::new(), &Vec::new());
    assert!(!result.changed());
    assert!(index.photos.is_empty());
}
