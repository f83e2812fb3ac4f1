use photo_organizer::index::{FileType, Index, UserConfig};
use photo_organizer::naming::{
    canonical_name, decode_exif_text, decode_exif_timestamp, get_canonical_photo_filename, is_collection_file,
    ExifFieldError, LocalTimestamp, NamingError, PhotoMetaData,
};

fn stamp() -> LocalTimestamp {
    LocalTimestamp { year: 2022, month: 5, day: 7, hour: 12, minute: 32, second: 10 }
}

fn meta(timestamp: Option<LocalTimestamp>) -> PhotoMetaData {
    PhotoMetaData { make: Some("Cam".to_string()), model: None, timestamp_local: timestamp }
}

fn config(scheme: &str, types: &[(&str, &[&str])]) -> UserConfig {
    UserConfig {
        file_naming_scheme: scheme.to_string(),
        file_types: types
            .iter()
            .map(|(name, exts)| FileType {
                name: name.to_string(),
                extensions: exts.iter().map(|e| e.to_string()).collect(),
            })
            .collect(),
    }
}

const SCHEME: &str = "%Y%m%d_%H%M%S_%{type}.%{fileextension}";

#[test]
fn canonical_name_round_trip() {
    let cfg = config(SCHEME, &[("IMG", &["jpg"])]);
    assert_eq!(canonical_name(&meta(Some(stamp())), "JPG", &cfg), Ok("20220507_123210_IMG.jpg".to_string()));
}

#[test]
fn canonical_name_without_timestamp_fails() {
    let cfg = config(SCHEME, &[("IMG", &["jpg"])]);
    assert_eq!(canonical_name(&meta(None), "jpg", &cfg), Err(NamingError::MissingTimestamp));
    assert_eq!(
        get_canonical_photo_filename("a/b.jpg", &meta(None), &cfg),
        Err(NamingError::MissingTimestamp)
    );
}

#[test]
fn jpeg_is_written_as_jpg() {
    let cfg = Index::default().user_config;
    assert_eq!(canonical_name(&meta(Some(stamp())), "JPEG", &cfg), Ok("20220507_123210_IMG.jpg".to_string()));
    assert_eq!(canonical_name(&meta(Some(stamp())), "mp4", &cfg), Ok("20220507_123210_VID.mp4".to_string()));
    assert_eq!(canonical_name(&meta(Some(stamp())), "PNG", &cfg), Ok("20220507_123210_IMG.png".to_string()));
}

#[test]
fn unknown_and_ambiguous_extensions_fail() {
    let cfg = config(SCHEME, &[("IMG", &["jpg"]), ("RAW", &["dng", "jpg"])]);
    assert_eq!(canonical_name(&meta(Some(stamp())), "gif", &cfg), Err(NamingError::UnknownExtension));
    assert_eq!(canonical_name(&meta(Some(stamp())), "jpg", &cfg), Err(NamingError::AmbiguousExtension));
    assert_eq!(canonical_name(&meta(Some(stamp())), "DNG", &cfg), Ok("20220507_123210_RAW.dng".to_string()));
}

#[test]
fn path_without_extension_fails() {
    let cfg = Index::default().user_config;
    assert_eq!(
        get_canonical_photo_filename("dir/README", &meta(Some(stamp())), &cfg),
        Err(NamingError::MissingExtension)
    );
    assert_eq!(
        get_canonical_photo_filename("dir/.jpg", &meta(Some(stamp())), &cfg),
        Err(NamingError::MissingExtension)
    );
    assert_eq!(
        get_canonical_photo_filename("dir.x/pic.Jpeg", &meta(Some(stamp())), &cfg),
        Ok("20220507_123210_IMG.jpg".to_string())
    );
}

#[test]
fn unformattable_template_or_date_fails() {
    let bad_template = config("%Q_%{type}", &[("IMG", &["jpg"])]);
    assert_eq!(
        canonical_name(&meta(Some(stamp())), "jpg", &bad_template),
        Err(NamingError::UnformattableTemplate)
    );
    let cfg = config(SCHEME, &[("IMG", &["jpg"])]);
    let impossible = LocalTimestamp { year: 2022, month: 2, day: 30, hour: 0, minute: 0, second: 0 };
    assert_eq!(
        canonical_name(&meta(Some(impossible)), "jpg", &cfg),
        Err(NamingError::UnformattableTemplate)
    );
}

#[test]
fn template_placeholders_are_all_replaced() {
    let cfg = config("%{type}-%{type}_%Y.%{fileextension}", &[("IMG", &["jpg"])]);
    assert_eq!(canonical_name(&meta(Some(stamp())), "jpg", &cfg), Ok("IMG-IMG_2022.jpg".to_string()));
}

#[test]
fn exif_timestamp_is_decoded() {
    let entries = vec![b"2022:05:07 12:32:10".to_vec()];
    assert_eq!(decode_exif_timestamp(&entries), Ok(stamp()));
    assert_eq!(decode_exif_timestamp(&Vec::new()), Err(ExifFieldError::NoEntry));
    assert_eq!(decode_exif_timestamp(&vec![vec![0xff, 0xfe]]), Err(ExifFieldError::NotUtf8));
    assert_eq!(decode_exif_timestamp(&vec![b"yesterday".to_vec()]), Err(ExifFieldError::Unparsable));
}

#[test]
fn exif_text_is_decoded() {
    assert_eq!(decode_exif_text(&vec![b"Pixel 7".to_vec(), b"x".to_vec()]), Ok("Pixel 7".to_string()));
    assert_eq!(decode_exif_text(&Vec::new()), Err(ExifFieldError::NoEntry));
    assert_eq!(decode_exif_text(&vec![vec![0xc3]]), Err(ExifFieldError::NotUtf8));
}

#[test]
fn collection_files_by_extension() {
    let cfg = Index::default().user_config;
    assert!(is_collection_file("2022/IMG_1.JPG", &cfg));
    assert!(is_collection_file("clip.mp4", &cfg));
    assert!(!is_collection_file("notes.txt", &cfg));
    assert!(!is_collection_file("jpg", &cfg));
    assert!(!is_collection_file(".jpg", &cfg));
}
