use photo_organizer::checks::{
    check_for_duplicates, check_hashes, check_photo_naming, DuplicateGroup, IntegrityProblem, NamingIssue,
};
use photo_organizer::hashing::calc_photo_hash;
use photo_organizer::index::{Index, IndexEntry};
use photo_organizer::naming::{LocalTimestamp, NamingError, PhotoMetaData};

fn entry(path: &str, hash: &str) -> IndexEntry {
    IndexEntry {
        filepath: path.to_string(),
        orig_filename: path.to_string(),
        filehash: hash.to_string(),
    }
}

fn index_with(entries: Vec<IndexEntry>) -> Index {
    let mut index = Index::default();
    index.photos = entries;
    index
}

fn stamp() -> LocalTimestamp {
    LocalTimestamp { year: 2022, month: 5, day: 7, hour: 12, minute: 32, second: 10 }
}

fn meta(timestamp: Option<LocalTimestamp>) -> PhotoMetaData {
    PhotoMetaData { make: None, model: None, timestamp_local: timestamp }
}

#[test]
fn duplicates_of_three_entries() {
    let index = index_with(vec![entry("a.jpg", "H1"), entry("b.jpg", "H1"), entry("c.jpg", "H2")]);
    let groups = check_for_duplicates(&index);
    assert_eq!(
        groups,
        vec![DuplicateGroup { hash: "H1".to_string(), paths: vec!["a.jpg".to_string(), "b.jpg".to_string()] }]
    );
}

#[test]
fn duplicates_in_any_order() {
    let index = index_with(vec![entry("c.jpg", "H2"), entry("a.jpg", "H1"), entry("b.jpg", "H1")]);
    let groups = check_for_duplicates(&index);
    assert_eq!(groups.len(), 1);
    assert_eq!(groups[0].hash, "H1");
    assert_eq!(groups[0].paths, vec!["a.jpg".to_string(), "b.jpg".to_string()]);
}

#[test]
fn duplicate_groups_follow_first_occurrence() {
    let index = index_with(vec![
        entry("a", "X"),
        entry("b", "Y"),
        entry("c", "Y"),
        entry("d", "X"),
        entry("e", "X"),
        entry("f", "Z"),
    ]);
    let groups = check_for_duplicates(&index);
    assert_eq!(groups.len(), 2);
    assert_eq!(groups[0].hash, "X");
    assert_eq!(groups[0].paths, vec!["a".to_string(), "d".to_string(), "e".to_string()]);
    assert_eq!(groups[1].hash, "Y");
    assert_eq!(groups[1].paths, vec!["b".to_string(), "c".to_string()]);
}

#[test]
fn no_duplicates_no_groups() {
    let index = index_with(vec![entry("a", "X"), entry("b", "Y")]);
    assert!(check_for_duplicates(&index).is_empty());
    assert!(check_for_duplicates(&Index::default()).is_empty());
}

#[test]
fn sha256_hex_of_known_contents() {
    assert_eq!(
        calc_photo_hash(b"abc"),
        "ba7816bf8f01cfea414140de5dae2223b00361a396177a9cb410ff61f20015ad"
    );
    assert_eq!(
        calc_photo_hash(b""),
        "e3b0c44298fc1c149afbf4c8996fb92427ae41e4649b934ca495991b7852b855"
    );
}

#[test]
fn integrity_reports_drift_and_unreadable_files() {
    let good = calc_photo_hash(b"photo one");
    let index = index_with(vec![entry("a.jpg", &good), entry("b.jpg", "0000"), entry("c.jpg", "1111")]);
    let actual = vec![Some(good.clone()), Some(calc_photo_hash(b"changed")), None];
    let problems = check_hashes(&index, &actual);
    assert_eq!(
        problems,
        vec![
            IntegrityProblem::HashMismatch {
                path: "b.jpg".to_string(),
                recorded: "0000".to_string(),
                actual: calc_photo_hash(b"changed"),
            },
            IntegrityProblem::Unreadable { path: "c.jpg".to_string() },
        ]
    );
}

#[test]
fn integrity_of_matching_files_is_clean() {
    let h = calc_photo_hash(b"x");
    let index = index_with(vec![entry("a.jpg", &h)]);
    assert!(check_hashes(&index, &vec![Some(h)]).is_empty());
}

#[test]
fn naming_reports_misnamed_and_unverifiable_files() {
    let index = index_with(vec![
        entry("2022/20220507_123210_IMG.jpg", "h1"),
        entry("2022/holiday.JPG", "h2"),
        entry("2022/notime.jpg", "h3"),
        entry("2022/unreadable.jpg", "h4"),
        entry("2022/clip.mov", "h5"),
    ]);
    let metadata = vec![
        Some(meta(Some(stamp()))),
        Some(meta(Some(stamp()))),
        Some(meta(None)),
        None,
        Some(meta(Some(stamp()))),
    ];
    let issues = check_photo_naming(&index, &metadata);
    assert_eq!(
        issues,
        vec![
            NamingIssue::Misnamed {
                path: "2022/holiday.JPG".to_string(),
                expected: "20220507_123210_IMG.jpg".to_string(),
            },
            NamingIssue::Unverifiable {
                path: "2022/notime.jpg".to_string(),
                reason: Some(NamingError::MissingTimestamp),
            },
            NamingIssue::Unverifiable { path: "2022/unreadable.jpg".to_string(), reason: None },
            NamingIssue::Unverifiable {
                path: "2022/clip.mov".to_string(),
                reason: Some(NamingError::UnknownExtension),
            },
        ]
    );
}
