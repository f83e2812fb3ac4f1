use photo_organizer::collection::{get_photos_in_subdir, rename_decision, rename_target, Photo, RenameDecision};
use photo_organizer::index::{
    get_index_root_and_subdir, lists_only_index_file, lookup_orig_filename, path_ancestors, Index, IndexEntry,
    INDEX_FILE_NAME,
};
use photo_organizer::text::{file_extension, file_name, replace_str};

fn photos(paths: &[&str]) -> Vec<Photo> {
    paths.iter().map(|p| Photo { relative_path: p.to_string() }).collect()
}

fn paths(v: &[Photo]) -> Vec<&str> {
    v.iter().map(|p| p.relative_path.as_str()).collect()
}

#[test]
fn photos_in_subdir_direct_and_recursive() {
    let all = photos(&["a.jpg", "2022/b.jpg", "2022/05/c.jpg", "20220/d.jpg", "2022x.jpg"]);
    assert_eq!(paths(&get_photos_in_subdir(&all, "2022", false)), vec!["2022/b.jpg"]);
    assert_eq!(paths(&get_photos_in_subdir(&all, "2022", true)), vec!["2022/b.jpg", "2022/05/c.jpg"]);
    assert_eq!(paths(&get_photos_in_subdir(&all, "", false)), vec!["a.jpg", "2022x.jpg"]);
    assert_eq!(get_photos_in_subdir(&all, "", true).len(), 5);
}

#[test]
fn rename_target_in_same_directory() {
    assert_eq!(rename_target("2022/a.jpg", "20220507_123210_IMG.jpg"), Some("2022/20220507_123210_IMG.jpg".to_string()));
    assert_eq!(rename_target("a.jpg", "b.jpg"), Some("b.jpg".to_string()));
    assert_eq!(rename_target("2022/b.jpg", "b.jpg"), None);
}

#[test]
fn occupied_target_is_never_replaced() {
    assert_eq!(rename_decision(false, true), RenameDecision::SkipTargetExists);
    assert_eq!(rename_decision(false, false), RenameDecision::Rename);
    assert_eq!(rename_decision(true, true), RenameDecision::ReportOnly);
    assert_eq!(rename_decision(true, false), RenameDecision::ReportOnly);
}

#[test]
fn file_names_and_extensions() {
    assert_eq!(file_name("a/b/c.jpg"), "c.jpg");
    assert_eq!(file_name("c.jpg"), "c.jpg");
    assert_eq!(file_extension("a/b/c.tar.gz"), Some("gz".to_string()));
    assert_eq!(file_extension("a.b/c"), None);
    assert_eq!(file_extension(".bashrc"), None);
    assert_eq!(file_extension("x."), Some("".to_string()));
}

#[test]
fn replace_every_occurrence() {
    assert_eq!(replace_str("%{a}-%{a}-x", "%{a}", "Q"), "Q-Q-x");
    assert_eq!(replace_str("aaa", "aa", "b"), "ba");
    assert_eq!(replace_str("", "a", "b"), "");
}

#[test]
fn default_index_configuration() {
    let index = Index::default();
    assert!(index.photos.is_empty());
    assert_eq!(index.user_config.file_naming_scheme, "%Y%m%d_%H%M%S_%{type}.%{fileextension}");
    assert_eq!(index.user_config.file_types.len(), 2);
    assert_eq!(index.user_config.file_types[0].name, "IMG");
    assert_eq!(index.user_config.file_types[0].extensions, vec!["jpg", "jpeg", "png"]);
    assert_eq!(index.user_config.file_types[1].name, "VID");
    assert_eq!(index.user_config.file_types[1].extensions, vec!["mp4"]);
}

#[test]
fn ancestors_of_absolute_and_relative_paths() {
    assert_eq!(path_ancestors("/home/u/photos"), vec!["/home/u/photos", "/home/u", "/home", "/"]);
    assert_eq!(path_ancestors("/"), vec!["/"]);
    assert_eq!(path_ancestors("a/b"), vec!["a/b", "a", ""]);
}

#[test]
fn index_root_and_subdir() {
    let dir = "/home/u/photos/2022/05";
    let flags = vec![false, false, true, false, false, false];
    assert_eq!(
        get_index_root_and_subdir(dir, &flags),
        Some(("/home/u/photos".to_string(), "2022/05".to_string()))
    );
    let at_root = vec![true, false, false, false, false, false];
    assert_eq!(get_index_root_and_subdir(dir, &at_root), Some((dir.to_string(), "".to_string())));
    assert_eq!(get_index_root_and_subdir(dir, &vec![false; 6]), None);
    let top = vec![false, false, false, false, false, true];
    assert_eq!(
        get_index_root_and_subdir(dir, &top),
        Some(("/".to_string(), "home/u/photos/2022/05".to_string()))
    );
}

#[test]
fn original_file_name_lookup() {
    let mut index = Index::default();
    index.photos.push(IndexEntry {
        filepath: "x/b.jpg".to_string(),
        orig_filename: "IMG_7.jpg".to_string(),
        filehash: "h".to_string(),
    });
    assert_eq!(lookup_orig_filename(&index, &"x/b.jpg".to_string()), Some("IMG_7.jpg".to_string()));
    assert_eq!(lookup_orig_filename(&index, &"b.jpg".to_string()), None);
}

#[test]
fn git_listing_of_index_file() {
    assert!(lists_only_index_file(&format!("{}\n", INDEX_FILE_NAME)));
    assert!(!lists_only_index_file(INDEX_FILE_NAME));
    assert!(!lists_only_index_file(&format!("{}\nother\n", INDEX_FILE_NAME)));
    assert!(!lists_only_index_file(""));
}
