use photo_organizer::hashing::calc_photo_hash;
use photo_organizer::index::{Index, IndexEntry};
use photo_organizer::naming::{expand_name_template, matching_types};
use photo_organizer::order::{path_le_exec, sort_paths, sort_photos_by_path};

fn entry(path: &str, hash: &str) -> IndexEntry {
    IndexEntry { filepath: path.to_string(), orig_filename: path.to_string(), filehash: hash.to_string() }
}

#[test]
fn paths_compare_by_character() {
    let c = |s: &str| s.chars().collect::<Vec<char>>();
    assert!(path_le_exec(&c("a/b"), &c("a/c")));
    assert!(path_le_exec(&c("a"), &c("a/b")));
    assert!(!path_le_exec(&c("a/b"), &c("a")));
    assert!(path_le_exec(&c("a-b"), &c("a/b")));
    assert!(path_le_exec(&c(""), &c("")));
    assert!(path_le_exec(&c("x"), &c("x")));
}

#[test]
fn paths_are_sorted() {
    let mut v: Vec<String> = ["b/x.jpg", "a.jpg", "b.jpg", "a.jpg", "A.jpg"].iter().map(|s| s.to_string()).collect();
    sort_paths(&mut v);
    assert_eq!(v, vec!["A.jpg", "a.jpg", "a.jpg", "b.jpg", "b/x.jpg"]);
    let mut empty: Vec<String> = Vec::new();
    sort_paths(&mut empty);
    assert!(empty.is_empty());
}

#[test]
fn index_is_sorted_by_path() {
    let mut index = Index::default();
    index.photos = vec![entry("c.jpg", "1"), entry("a/b.jpg", "2"), entry("b.jpg", "3")];
    let config = index.user_config.clone();
    sort_photos_by_path(&mut index);
    assert_eq!(index.photos, vec![entry("a/b.jpg", "2"), entry("b.jpg", "3"), entry("c.jpg", "1")]);
    assert_eq!(index.user_config, config);
}

#[test]
fn fingerprint_has_64_digits() {
    assert_eq!(calc_photo_hash(b"any content").len(), 64);
}

#[test]
fn template_expansion_with_lowered_extension() {
    let scheme = "%Y%m%d_%H%M%S_%{type}.%{fileextension}";
    assert_eq!(expand_name_template(scheme, "IMG", "jpeg"), "%Y%m%d_%H%M%S_IMG.jpg");
    assert_eq!(expand_name_template(scheme, "VID", "mp4"), "%Y%m%d_%H%M%S_VID.mp4");
    assert_eq!(expand_name_template("%{type}/%{type}", "X", "png"), "X/X");
}

#[test]
fn file_types_listing_an_extension() {
    let config = Index::default().user_config;
    assert_eq!(matching_types(&config, &"png".to_string()), vec!["IMG".to_string()]);
    assert_eq!(matching_types(&config, &"mp4".to_string()), vec!["VID".to_string()]);
    assert!(matching_types(&config, &"PNG".to_string()).is_empty());
}
