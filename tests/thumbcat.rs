use photo_organizer::collection::Photo;
use photo_organizer::thumbcat::{
    extract_entries_from_thumbcat, thumbcat_html, thumbcat_is_current, thumbcat_names, ThumbnailItem,
};

#[test]
fn catalogue_headings_are_extracted() {
    let html = "<!DOCTYPE html>\n<h1>a.jpg</h1>\r\n<p>x</p>\n<h1></h1>\n <h1>no</h1>\n<h1>b c.jpg</h1>";
    assert_eq!(extract_entries_from_thumbcat(html), vec!["a.jpg".to_string(), "b c.jpg".to_string()]);
    assert!(extract_entries_from_thumbcat("").is_empty());
}

#[test]
fn catalogue_page_is_written() {
    let items = vec![
        ThumbnailItem { name: "a.jpg".to_string(), thumbnail: Ok(vec![0xff, 0xd8, 0xff, 0xe0]) },
        ThumbnailItem { name: "b.jpg".to_string(), thumbnail: Err("bad <file>".to_string()) },
    ];
    let html = thumbcat_html("2022/05", &items);
    let expected = "<!DOCTYPE html>\n<html lang=\"en\">\n<head>\n<meta charset=\"utf-8\">\n\
<title>Thumbnail Catalogue for Directory 2022&#x2F;05</title>\n\
<style>h1 { font-size: large }</style>\n</head>\n<body>\n\
<h1>a.jpg</h1>\n<p><img src=\"data:image/jpeg;base64,/9j/4A\" style=\"width: 100%\" /></p>\n\
<h1>b.jpg</h1>\n<p>bad &lt;file&gt;</p>\n</body>\n</html>\n";
    assert_eq!(html, expected);
    assert_eq!(extract_entries_from_thumbcat(&html), vec!["a.jpg".to_string(), "b.jpg".to_string()]);
}

#[test]
fn catalogue_freshness() {
    let photos = vec![
        Photo { relative_path: "2022/a.jpg".to_string() },
        Photo { relative_path: "2022/b.jpg".to_string() },
    ];
    let names = thumbcat_names(&photos, "2022");
    assert_eq!(names, vec!["a.jpg".to_string(), "b.jpg".to_string()]);
    assert!(thumbcat_is_current(&names, &vec!["a.jpg".to_string(), "b.jpg".to_string()]));
    assert!(!thumbcat_is_current(&names, &vec!["a.jpg".to_string()]));
    assert!(!thumbcat_is_current(&names, &vec!["b.jpg".to_string(), "a.jpg".to_string()]));
    let top = vec![Photo { relative_path: "c.jpg".to_string() }];
    assert_eq!(thumbcat_names(&top, ""), vec!["c.jpg".to_string()]);
}
