//! Thumbnail catalogues: one HTML page per directory that shows each photo
//! under a heading with its file name.

use vstd::prelude::*;
use crate::collection::{Photo, photos_view};
use crate::index::relative_to;
use crate::text::{strs_view, chars_of, string_of};

verus! {

/// Start of a catalogue, up to the directory name in its title.
pub const PAGE_START: &'static str = "<!DOCTYPE html>\n<html lang=\"en\">\n<head>\n<meta charset=\"utf-8\">\n<title>Thumbnail Catalogue for Directory ";

/// Rest of the catalogue's head, after the directory name.
pub const PAGE_HEAD_END: &'static str = "</title>\n<style>h1 { font-size: large }</style>\n</head>\n<body>\n";

/// End of a catalogue.
pub const PAGE_END: &'static str = "</body>\n</html>\n";

/// Opening tag of a photo heading.
pub const HEADING_OPEN: &'static str = "<h1>";

/// Closing tag of a photo heading.
pub const HEADING_CLOSE: &'static str = "</h1>";

/// Start of an embedded image.
pub const IMAGE_START: &'static str = "<p><img src=\"data:image/jpeg;base64,";

/// End of an embedded image.
pub const IMAGE_END: &'static str = "\" style=\"width: 100%\" /></p>\n";

/// Start of a paragraph.
pub const PARAGRAPH_OPEN: &'static str = "<p>";

/// End of a paragraph.
pub const PARAGRAPH_CLOSE: &'static str = "</p>\n";

/// The lines of `text`, split at each `\n`: the completed lines, then the
/// unfinished last one.
pub open spec fn split_lines(text: Seq<char>) -> (Seq<Seq<char>>, Seq<char>)
    decreases text.len(),
{
    if text.len() == 0 {
        (Seq::empty(), Seq::empty())
    } else {
        let (done, cur) = split_lines(text.drop_last());
        if text.last() == '\n' {
            (done.push(cur), Seq::empty())
        } else {
            (done, cur.push(text.last()))
        }
    }
}

/// A completed line without the `\r` of a `\r\n` ending.
pub open spec fn without_cr(line: Seq<char>) -> Seq<char> {
    if line.len() > 0 && line.last() == '\r' {
        line.drop_last()
    } else {
        line
    }
}

/// The text of a photo heading line `<h1>…</h1>` with a non-empty text.
pub open spec fn heading_text(line: Seq<char>) -> Option<Seq<char>> {
    let n = line.len() as int;
    if n >= 10 && line.subrange(0, 4) == HEADING_OPEN@ && line.subrange(n - 5, n) == HEADING_CLOSE@ {
        Some(line.subrange(4, n - 5))
    } else {
        None
    }
}

/// The heading texts of the completed lines `lines`, in order.
pub open spec fn headings_of(lines: Seq<Seq<char>>) -> Seq<Seq<char>>
    decreases lines.len(),
{
    if lines.len() == 0 {
        Seq::empty()
    } else {
        let prev = headings_of(lines.drop_last());
        match heading_text(without_cr(lines.last())) {
            Some(t) => prev.push(t),
            None => prev,
        }
    }
}

/// The heading texts of a catalogue, in order. Lines end at `\n` or `\r\n`;
/// a last line without an ending counts as it stands.
pub open spec fn catalogue_entries(html: Seq<char>) -> Seq<Seq<char>> {
    let (done, cur) = split_lines(html);
    let prev = headings_of(done);
    if cur.len() == 0 {
        prev
    } else {
        match heading_text(cur) {
            Some(t) => prev.push(t),
            None => prev,
        }
    }
}

/// The heading text of `line` (see `heading_text`).
fn heading_entry(line: &Vec<char>) -> (r: Option<String>)
    ensures
        match r {
            Some(t) => heading_text(line@) == Some(t@),
            None => heading_text(line@) is None,
        },
{
    proof {
        reveal_strlit("<h1>");
        reveal_strlit("</h1>");
    }
    let n = line.len();
    if n < 10 {
        return None;
    }
    if !(line[0] == '<' && line[1] == 'h' && line[2] == '1' && line[3] == '>') {
        assert(line@.subrange(0, 4) != HEADING_OPEN@) by {
            if line@.subrange(0, 4) == HEADING_OPEN@ {
                assert(line@.subrange(0, 4)[0] == '<' && line@.subrange(0, 4)[1] == 'h');
                assert(line@.subrange(0, 4)[2] == '1' && line@.subrange(0, 4)[3] == '>');
            }
        }
        return None;
    }
    assert(line@.subrange(0, 4) =~= HEADING_OPEN@);
    if !(line[n - 5] == '<' && line[n - 4] == '/' && line[n - 3] == 'h' && line[n - 2] == '1'
        && line[n - 1] == '>') {
        let ghost tail = line@.subrange(n - 5, n as int);
        assert(tail != HEADING_CLOSE@) by {
            if tail == HEADING_CLOSE@ {
                assert(tail[0] == '<' && tail[1] == '/' && tail[2] == 'h');
                assert(tail[3] == '1' && tail[4] == '>');
            }
        }
        return None;
    }
    assert(line@.subrange(n - 5, n as int) =~= HEADING_CLOSE@);
    let text = line.as_slice().split_at(n - 5).0.split_at(4).1;
    assert(text@ =~= line@.subrange(4, n - 5));
    Some(string_of(text))
}

/// The file names listed in a thumbnail catalogue: the texts of its
/// `<h1>…</h1>` lines, in order.
pub fn extract_entries_from_thumbcat(html: &str) -> (r: Vec<String>)
    ensures
        strs_view(r@) == catalogue_entries(html@),
{
    let t = chars_of(html);
    let mut r: Vec<String> = Vec::new();
    let mut cur: Vec<char> = Vec::new();
    for i in 0..t.len()
        invariant
            t@ == html@,
            split_lines(t@.subrange(0, i as int)).1 == cur@,
            strs_view(r@) == headings_of(split_lines(t@.subrange(0, i as int)).0),
    {
        let ghost pre = t@.subrange(0, i as int);
        assert(t@.subrange(0, i + 1).drop_last() =~= pre);
        assert(t@.subrange(0, i + 1).last() == t@[i as int]);
        if t[i] == '\n' {
            let ghost done = split_lines(pre).0;
            assert(done.push(cur@).drop_last() =~= done);
            let n = cur.len();
            let line = if n > 0 && cur[n - 1] == '\r' {
                let mut trimmed = cur;
                trimmed.pop();
                trimmed
            } else {
                cur
            };
            assert(line@ == without_cr(done.push(split_lines(pre).1).last()));
            match heading_entry(&line) {
                Some(h) => {
                    let ghost prev = r@;
                    r.push(h);
                    assert(strs_view(r@) =~= strs_view(prev).push(h@));
                },
                None => {},
            }
            cur = Vec::new();
        } else {
            cur.push(t[i]);
        }
    }
    assert(t@.subrange(0, t@.len() as int) =~= t@);
    if cur.len() > 0 {
        match heading_entry(&cur) {
            Some(h) => {
                let ghost prev = r@;
                r.push(h);
                assert(strs_view(r@) =~= strs_view(prev).push(h@));
            },
            None => {},
        }
    }
    r
}

/// The names that a catalogue of the directory `subdir` lists for `photos`,
/// which lie in it: their paths relative to `subdir`, in order.
pub fn thumbcat_names(photos: &Vec<Photo>, subdir: &str) -> (r: Vec<String>)
    ensures
        strs_view(r@) == photos_view(photos@).map_values(|p: Seq<char>| relative_to(p, subdir@)),
{
    let ghost pv = photos_view(photos@);
    let ghost f = |p: Seq<char>| relative_to(p, subdir@);
    let d = chars_of(subdir);
    let mut r: Vec<String> = Vec::new();
    for i in 0..photos.len()
        invariant
            pv == photos_view(photos@),
            pv.len() == photos@.len(),
            d@ == subdir@,
            f == (|p: Seq<char>| relative_to(p, subdir@)),
            r@.len() == i,
            strs_view(r@) == pv.subrange(0, i as int).map_values(f),
    {
        let p = chars_of(photos[i].relative_path.as_str());
        assert(p@ == pv[i as int]);
        let name: Vec<char> = if p.len() <= d.len() {
            Vec::new()
        } else if d.len() == 0 {
            p
        } else if d.len() == 1 && d[0] == '/' {
            assert(d@ =~= seq!['/']);
            vstd::slice::slice_to_vec(p.as_slice().split_at(1).1)
        } else {
            assert(d@ != seq!['/']) by {
                if d@ == seq!['/'] {
                    assert(d@.len() == 1 && d@[0] == '/');
                }
            }
            vstd::slice::slice_to_vec(p.as_slice().split_at(d.len() + 1).1)
        };
        assert(name@ =~= f(pv[i as int]));
        let ghost prev = r@;
        r.push(string_of(name.as_slice()));
        assert(strs_view(r@) =~= pv.subrange(0, i + 1).map_values(f)) by {
            assert forall|j: int| 0 <= j < i + 1 implies #[trigger] strs_view(r@)[j]
                == pv.subrange(0, i + 1).map_values(f)[j] by {
                if j < i {
                    assert(strs_view(prev)[j] == pv.subrange(0, i as int).map_values(f)[j]);
                }
            }
        }
    }
    assert(pv.subrange(0, pv.len() as int) =~= pv);
    r
}

/// Whether a catalogue that lists `entries` shows exactly `names`, in order.
pub fn thumbcat_is_current(names: &Vec<String>, entries: &Vec<String>) -> (r: bool)
    ensures
        r == (strs_view(names@) == strs_view(entries@)),
{
    if names.len() != entries.len() {
        assert(strs_view(names@).len() != strs_view(entries@).len());
        return false;
    }
    let mut i: usize = 0;
    while i < names.len()
        invariant
            names@.len() == entries@.len(),
            i <= names@.len(),
            forall|k: int| 0 <= k < i ==> names@[k]@ == entries@[k]@,
        decreases names@.len() - i,
    {
        if names[i] != entries[i] {
            assert(strs_view(names@)[i as int] != strs_view(entries@)[i as int]);
            return false;
        }
        i = i + 1;
    }
    assert(strs_view(names@) =~= strs_view(entries@)) by {
        assert forall|k: int| 0 <= k < names@.len() implies #[trigger] strs_view(names@)[k]
            == strs_view(entries@)[k] by {
            assert(names@[k]@ == entries@[k]@);
        }
    }
    true
}

/// `c` as HTML: `&`, `<`, `>`, `"`, `'` and `/` as entities, any other
/// character as it is.
pub open spec fn escaped_char(c: char) -> Seq<char> {
    if c == '&' {
        "&amp;"@
    } else if c == '<' {
        "&lt;"@
    } else if c == '>' {
        "&gt;"@
    } else if c == '"' {
        "&quot;"@
    } else if c == '\'' {
        "&#x27;"@
    } else if c == '/' {
        "&#x2F;"@
    } else {
        seq![c]
    }
}

/// `s` with each character written as `escaped_char` gives it.
pub open spec fn escaped_of(s: Seq<char>) -> Seq<char>
    decreases s.len(),
{
    if s.len() == 0 {
        Seq::empty()
    } else {
        escaped_of(s.drop_last()) + escaped_char(s.last())
    }
}

/// Relies on `html_escape::encode_safe`: `&`, `<`, `>`, `"`, `'` and `/`
/// replaced by `&amp;`, `&lt;`, `&gt;`, `&quot;`, `&#x27;` and `&#x2F;`.
#[verifier::external_body]
fn escape_html(s: &str) -> (r: String)
    ensures
        r@ == escaped_of(s@),
{
    html_escape::encode_safe(s).into_owned()
}

/// The base64 digit for `n`, which is below 64.
pub open spec fn base64_digit(n: int) -> char {
    "ABCDEFGHIJKLMNOPQRSTUVWXYZabcdefghijklmnopqrstuvwxyz0123456789+/"@[n]
}

/// Standard base64 of `b` without padding: each three bytes as four digits
/// of six bits, high bits first; two or one trailing bytes as three or two.
pub open spec fn base64_of(b: Seq<u8>) -> Seq<char>
    decreases b.len(),
{
    let b0 = if b.len() > 0 { b[0] as int } else { 0 };
    let b1 = if b.len() > 1 { b[1] as int } else { 0 };
    let b2 = if b.len() > 2 { b[2] as int } else { 0 };
    if b.len() == 0 {
        Seq::empty()
    } else if b.len() == 1 {
        seq![base64_digit(b0 / 4), base64_digit((b0 % 4) * 16)]
    } else if b.len() == 2 {
        seq![
            base64_digit(b0 / 4),
            base64_digit((b0 % 4) * 16 + b1 / 16),
            base64_digit((b1 % 16) * 4),
        ]
    } else {
        seq![
            base64_digit(b0 / 4),
            base64_digit((b0 % 4) * 16 + b1 / 16),
            base64_digit((b1 % 16) * 4 + b2 / 64),
            base64_digit(b2 % 64),
        ] + base64_of(b.subrange(3, b.len() as int))
    }
}

/// Relies on base64's `Engine::encode` with `STANDARD_NO_PAD`: the standard
/// alphabet, no padding. It panics when the length of the result overflows
/// `usize`, which the bound on the input rules out.
#[verifier::external_body]
fn encode_base64(data: &[u8]) -> (r: String)
    requires
        data@.len() <= usize::MAX / 2,
    ensures
        r@ == base64_of(data@),
{
    base64::Engine::encode(&base64::engine::general_purpose::STANDARD_NO_PAD, data)
}

/// One photo of a catalogue: its name, and its thumbnail as JPEG bytes or
/// the reason there is none.
#[derive(Debug, PartialEq, Eq)]
pub struct ThumbnailItem {
    pub name: String,
    pub thumbnail: Result<Vec<u8>, String>,
}

/// The thumbnail, if any, is small enough to encode.
pub open spec fn thumbnail_fits(i: ThumbnailItem) -> bool {
    match i.thumbnail {
        Ok(b) => b@.len() <= usize::MAX / 2,
        Err(_) => true,
    }
}

/// The HTML of one photo: its heading, then its image or the escaped reason.
pub open spec fn item_html(name: Seq<char>, thumbnail: Result<Seq<u8>, Seq<char>>) -> Seq<char> {
    HEADING_OPEN@ + name + HEADING_CLOSE@ + seq!['\n'] + match thumbnail {
        Ok(b) => IMAGE_START@ + base64_of(b) + IMAGE_END@,
        Err(e) => PARAGRAPH_OPEN@ + escaped_of(e) + PARAGRAPH_CLOSE@,
    }
}

/// What a catalogue item stands for.
pub open spec fn item_view(i: ThumbnailItem) -> (Seq<char>, Result<Seq<u8>, Seq<char>>) {
    (
        i.name@,
        match i.thumbnail {
            Ok(b) => Ok(b@),
            Err(e) => Err(e@),
        },
    )
}

/// The HTML of the items, in order.
pub open spec fn items_html(items: Seq<(Seq<char>, Result<Seq<u8>, Seq<char>>)>) -> Seq<char>
    decreases items.len(),
{
    if items.len() == 0 {
        Seq::empty()
    } else {
        items_html(items.drop_last()) + item_html(items.last().0, items.last().1)
    }
}

/// A whole catalogue of the directory `subdir`.
pub open spec fn catalogue_html(
    subdir: Seq<char>,
    items: Seq<(Seq<char>, Result<Seq<u8>, Seq<char>>)>,
) -> Seq<char> {
    PAGE_START@ + escaped_of(subdir) + PAGE_HEAD_END@ + items_html(items) + PAGE_END@
}

/// Append the characters of `s` to `out`.
fn push_str(out: &mut Vec<char>, s: &str)
    ensures
        final(out)@ == old(out)@ + s@,
{
    let v = chars_of(s);
    let ghost start = out@;
    for i in 0..v.len()
        invariant
            out@ == start + v@.subrange(0, i as int),
    {
        out.push(v[i]);
        assert(out@ =~= start + v@.subrange(0, i + 1));
    }
    assert(v@.subrange(0, v@.len() as int) =~= v@);
}

/// The HTML page of a thumbnail catalogue of the directory `subdir` that
/// shows `items` in order.
pub fn thumbcat_html(subdir: &str, items: &Vec<ThumbnailItem>) -> (r: String)
    requires
        forall|i: int|
            0 <= i < items@.len() ==> thumbnail_fits(#[trigger] items@[i]),
    ensures
        r@ == catalogue_html(subdir@, items@.map_values(|i: ThumbnailItem| item_view(i))),
{
    let ghost iv = items@.map_values(|i: ThumbnailItem| item_view(i));
    let mut out: Vec<char> = Vec::new();
    push_str(&mut out, PAGE_START);
    let title = escape_html(subdir);
    push_str(&mut out, title.as_str());
    push_str(&mut out, PAGE_HEAD_END);
    let ghost head = out@;
    assert(items@.subrange(0, 0).map_values(|i: ThumbnailItem| item_view(i)) =~= Seq::<(Seq<char>, Result<Seq<u8>, Seq<char>>)>::empty());
    for k in 0..items.len()
        invariant
            iv == items@.map_values(|i: ThumbnailItem| item_view(i)),
            iv.len() == items@.len(),
            forall|i: int|
                0 <= i < items@.len() ==> thumbnail_fits(#[trigger] items@[i]),
            out@ == head + items_html(iv.subrange(0, k as int)),
    {
        let item = &items[k];
        let ghost before = out@;
        push_str(&mut out, HEADING_OPEN);
        push_str(&mut out, item.name.as_str());
        push_str(&mut out, HEADING_CLOSE);
        out.push('\n');
        match &item.thumbnail {
            Ok(bytes) => {
                assert(thumbnail_fits(items@[k as int]));
                push_str(&mut out, IMAGE_START);
                let encoded = encode_base64(bytes.as_slice());
                push_str(&mut out, encoded.as_str());
                push_str(&mut out, IMAGE_END);
            },
            Err(e) => {
                push_str(&mut out, PARAGRAPH_OPEN);
                let escaped = escape_html(e.as_str());
                push_str(&mut out, escaped.as_str());
                push_str(&mut out, PARAGRAPH_CLOSE);
            },
        }
        assert(iv[k as int] == item_view(*item));
        assert(iv.subrange(0, k + 1).drop_last() =~= iv.subrange(0, k as int));
        assert(out@ =~= before + item_html(iv[k as int].0, iv[k as int].1));
    }
    assert(iv.subrange(0, iv.len() as int) =~= iv);
    push_str(&mut out, PAGE_END);
    string_of(out.as_slice())
}

} // verus!
