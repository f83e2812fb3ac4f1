//! Canonical file names, derived from a photo's capture time, its file
//! extension and the naming template of the collection.

use vstd::prelude::*;
use vstd::utf8::{valid_utf8, decode_utf8};
use std::fmt::Write;
use crate::index::{UserConfig, FileType, owned};
use crate::text::{strs_view, contains_str, file_extension, extension_of, replace_str, replace_all};

verus! {

/// Placeholder of the template for the logical file type.
pub const TYPE_PLACEHOLDER: &'static str = "%{type}";

/// Placeholder of the template for the file extension.
pub const EXTENSION_PLACEHOLDER: &'static str = "%{fileextension}";

/// Layout of the date-time text that EXIF stores.
pub const EXIF_TIMESTAMP_LAYOUT: &'static str = "%Y:%m:%d %H:%M:%S";

/// A local date and time of day, as a camera records it.
#[derive(Clone, Copy, Debug, PartialEq, Eq)]
pub struct LocalTimestamp {
    pub year: i32,
    pub month: u32,
    pub day: u32,
    pub hour: u32,
    pub minute: u32,
    pub second: u32,
}

impl LocalTimestamp {
    /// The fields, year first.
    pub open spec fn fields(&self) -> (i32, u32, u32, u32, u32, u32) {
        (self.year, self.month, self.day, self.hour, self.minute, self.second)
    }
}

/// The metadata of a photo that naming uses. Every field may be absent.
#[derive(Clone, Debug, PartialEq, Eq)]
pub struct PhotoMetaData {
    pub make: Option<String>,
    pub model: Option<String>,
    pub timestamp_local: Option<LocalTimestamp>,
}

/// Why no canonical name could be derived.
#[derive(Clone, Copy, Debug, PartialEq, Eq, Structural)]
pub enum NamingError {
    /// The metadata holds no capture time.
    MissingTimestamp,
    /// The file name has no extension.
    MissingExtension,
    /// No configured file type has the extension.
    UnknownExtension,
    /// More than one configured file type has the extension.
    AmbiguousExtension,
    /// The template, or the capture time, cannot be formatted.
    UnformattableTemplate,
}

/// `s` in lower case.
pub uninterp spec fn lower_of(s: Seq<char>) -> Seq<char>;

/// Relies on `str::to_lowercase`: the result depends on the characters alone.
#[verifier::external_body]
fn lowercase(s: &str) -> (r: String)
    ensures
        r@ == lower_of(s@),
{
    s.to_lowercase()
}

/// The text that the template yields for the date and time given by the
/// fields (year, month, day, hour, minute, second), or `None` where these
/// are no valid date and time or the template holds an invalid directive.
pub uninterp spec fn strftime_of(
    template: Seq<char>,
    stamp: (i32, u32, u32, u32, u32, u32),
) -> Option<Seq<char>>;

/// Relies on chrono's `NaiveDateTime::format` (after `NaiveDate::from_ymd_opt`
/// and `and_hms_opt` build the date-time from the fields): the template's
/// strftime directives applied to the date-time, `None` where chrono rejects
/// the date, the time or a directive.
#[verifier::external_body]
fn format_timestamp(template: &str, t: LocalTimestamp) -> (r: Option<String>)
    ensures
        match r {
            Some(n) => strftime_of(template@, t.fields()) == Some(n@),
            None => strftime_of(template@, t.fields()) is None,
        },
{
    let date = chrono::NaiveDate::from_ymd_opt(t.year, t.month, t.day)?;
    let stamp = date.and_hms_opt(t.hour, t.minute, t.second)?;
    let mut out = String::new();
    write!(out, "{}", stamp.format(template)).ok()?;
    Some(out)
}

/// The date and time that `text` gives when read after `layout`, or `None`
/// where it does not follow the layout or gives no valid date and time.
pub uninterp spec fn parsed_timestamp_of(
    text: Seq<char>,
    layout: Seq<char>,
) -> Option<(i32, u32, u32, u32, u32, u32)>;

/// Relies on chrono's `NaiveDateTime::parse_from_str`: `text` read after the
/// strftime `layout`, `None` where chrono reports an error; the fields are
/// taken from the result by chrono's `Datelike` and `Timelike` accessors.
#[verifier::external_body]
fn parse_timestamp(text: &str, layout: &str) -> (r: Option<LocalTimestamp>)
    ensures
        match r {
            Some(t) => parsed_timestamp_of(text@, layout@) == Some(t.fields()),
            None => parsed_timestamp_of(text@, layout@) is None,
        },
{
    let stamp = chrono::NaiveDateTime::parse_from_str(text, layout).ok()?;
    Some(LocalTimestamp {
        year: chrono::Datelike::year(&stamp),
        month: chrono::Datelike::month(&stamp),
        day: chrono::Datelike::day(&stamp),
        hour: chrono::Timelike::hour(&stamp),
        minute: chrono::Timelike::minute(&stamp),
        second: chrono::Timelike::second(&stamp),
    })
}

/// Why an EXIF text field could not be read.
#[derive(Clone, Copy, Debug, PartialEq, Eq, Structural)]
pub enum ExifFieldError {
    /// The field holds no entry.
    NoEntry,
    /// The first entry is not valid UTF-8.
    NotUtf8,
    /// The text is not a date and time in the EXIF layout.
    Unparsable,
}

/// Relies on `std::str::from_utf8`: success exactly on valid UTF-8, with the
/// characters it encodes.
#[verifier::external_body]
fn utf8_text(bytes: &[u8]) -> (r: Option<String>)
    ensures
        match r {
            Some(t) => valid_utf8(bytes@) && t@ == decode_utf8(bytes@),
            None => !valid_utf8(bytes@),
        },
{
    match std::str::from_utf8(bytes) {
        Ok(s) => Some(s.to_owned()),
        Err(_) => None,
    }
}

/// The text of an EXIF text field, given as its entries: the first entry,
/// decoded as UTF-8.
pub fn decode_exif_text(entries: &Vec<Vec<u8>>) -> (r: Result<String, ExifFieldError>)
    ensures
        entries@.len() == 0 ==> r == Err::<String, ExifFieldError>(ExifFieldError::NoEntry),
        entries@.len() > 0 ==> match r {
            Ok(t) => valid_utf8(entries@[0]@) && t@ == decode_utf8(entries@[0]@),
            Err(e) => e == ExifFieldError::NotUtf8 && !valid_utf8(entries@[0]@),
        },
{
    if entries.len() == 0 {
        return Err(ExifFieldError::NoEntry);
    }
    match utf8_text(entries[0].as_slice()) {
        Some(t) => Ok(t),
        None => Err(ExifFieldError::NotUtf8),
    }
}

/// The capture time held by an EXIF date-time field, given as its entries:
/// the first entry, decoded as UTF-8 and read after `EXIF_TIMESTAMP_LAYOUT`.
pub fn decode_exif_timestamp(entries: &Vec<Vec<u8>>) -> (r: Result<LocalTimestamp, ExifFieldError>)
    ensures
        entries@.len() == 0 ==> r == Err::<LocalTimestamp, ExifFieldError>(ExifFieldError::NoEntry),
        entries@.len() > 0 && !valid_utf8(entries@[0]@) ==> r == Err::<
            LocalTimestamp,
            ExifFieldError,
        >(ExifFieldError::NotUtf8),
        entries@.len() > 0 && valid_utf8(entries@[0]@) ==> match r {
            Ok(t) => parsed_timestamp_of(decode_utf8(entries@[0]@), EXIF_TIMESTAMP_LAYOUT@) == Some(
                t.fields(),
            ),
            Err(e) => e == ExifFieldError::Unparsable && parsed_timestamp_of(
                decode_utf8(entries@[0]@),
                EXIF_TIMESTAMP_LAYOUT@,
            ) is None,
        },
{
    let text = decode_exif_text(entries)?;
    match parse_timestamp(text.as_str(), EXIF_TIMESTAMP_LAYOUT) {
        Some(t) => Ok(t),
        None => Err(ExifFieldError::Unparsable),
    }
}

/// The names of the file types that list the extension `ext`, in order.
pub open spec fn types_with_extension(
    types: Seq<(Seq<char>, Seq<Seq<char>>)>,
    ext: Seq<char>,
) -> Seq<Seq<char>>
    decreases types.len(),
{
    if types.len() == 0 {
        Seq::empty()
    } else {
        let prev = types_with_extension(types.drop_last(), ext);
        if types.last().1.contains(ext) {
            prev.push(types.last().0)
        } else {
            prev
        }
    }
}

/// The extension written into names: lower case, with `jpeg` shortened to `jpg`.
pub open spec fn name_extension(lowered: Seq<char>) -> Seq<char> {
    if lowered == "jpeg"@ {
        "jpg"@
    } else {
        lowered
    }
}

/// The template with its type and extension placeholders filled in.
pub open spec fn expand_template(scheme: Seq<char>, tag: Seq<char>, lowered: Seq<char>) -> Seq<char> {
    replace_all(
        replace_all(scheme, TYPE_PLACEHOLDER@, tag),
        EXTENSION_PLACEHOLDER@,
        name_extension(lowered),
    )
}

/// The canonical name of a file with capture time `stamp` and extension
/// `ext`, under the naming template `scheme` and the file types `types`.
pub open spec fn canonical_name_of(
    stamp: Option<LocalTimestamp>,
    ext: Seq<char>,
    scheme: Seq<char>,
    types: Seq<(Seq<char>, Seq<Seq<char>>)>,
) -> Result<Seq<char>, NamingError> {
    match stamp {
        None => Err(NamingError::MissingTimestamp),
        Some(t) => {
            let lowered = lower_of(ext);
            let tags = types_with_extension(types, lowered);
            if tags.len() == 0 {
                Err(NamingError::UnknownExtension)
            } else if tags.len() > 1 {
                Err(NamingError::AmbiguousExtension)
            } else {
                match strftime_of(expand_template(scheme, tags[0], lowered), t.fields()) {
                    Some(n) => Ok(n),
                    None => Err(NamingError::UnformattableTemplate),
                }
            }
        },
    }
}

/// The canonical name of the file at `path`: as `canonical_name_of` with the
/// extension of the path, a missing capture time reported first.
pub open spec fn canonical_name_of_path(
    path: Seq<char>,
    stamp: Option<LocalTimestamp>,
    scheme: Seq<char>,
    types: Seq<(Seq<char>, Seq<Seq<char>>)>,
) -> Result<Seq<char>, NamingError> {
    if stamp is None {
        Err(NamingError::MissingTimestamp)
    } else {
        match extension_of(path) {
            None => Err(NamingError::MissingExtension),
            Some(ext) => canonical_name_of(stamp, ext, scheme, types),
        }
    }
}

/// The characters of a name, or the error.
pub open spec fn name_view(r: Result<String, NamingError>) -> Result<Seq<char>, NamingError> {
    match r {
        Ok(n) => Ok(n@),
        Err(e) => Err(e),
    }
}

/// The names of the configured file types that list `ext`, in order.
pub fn matching_types(config: &UserConfig, ext: &String) -> (r: Vec<String>)
    ensures
        strs_view(r@) == types_with_extension(config.types_view(), ext@),
{
    let ghost tv = config.types_view();
    let mut r: Vec<String> = Vec::new();
    for i in 0..config.file_types.len()
        invariant
            tv == config.types_view(),
            tv.len() == config.file_types@.len(),
            strs_view(r@) == types_with_extension(tv.subrange(0, i as int), ext@),
    {
        let t: &FileType = &config.file_types[i];
        assert(tv.subrange(0, i + 1).drop_last() =~= tv.subrange(0, i as int));
        assert(tv.subrange(0, i + 1).last() == (t.name@, strs_view(t.extensions@)));
        if contains_str(&t.extensions, ext) {
            let ghost prev = r@;
            r.push(t.name.clone());
            assert(strs_view(r@) =~= strs_view(prev).push(t.name@));
        }
    }
    assert(tv.subrange(0, tv.len() as int) =~= tv);
    r
}

/// The template `scheme` with `%{type}` replaced by `tag` and
/// `%{fileextension}` by the lower-cased extension `lowered` (`jpeg`
/// written `jpg`); the date and time directives are left as they are.
pub fn expand_name_template(scheme: &str, tag: &str, lowered: &str) -> (r: String)
    ensures
        r@ == expand_template(scheme@, tag@, lowered@),
{
    proof {
        reveal_strlit("%{type}");
        reveal_strlit("%{fileextension}");
    }
    let jpeg = owned("jpeg");
    let lowered_owned = owned(lowered);
    let ext = if lowered_owned == jpeg {
        owned("jpg")
    } else {
        lowered_owned
    };
    let typed = replace_str(scheme, TYPE_PLACEHOLDER, tag);
    replace_str(typed.as_str(), EXTENSION_PLACEHOLDER, ext.as_str())
}

/// Whether the file at `path` belongs to the collection: its extension, in
/// lower case, is listed by a configured file type.
pub fn is_collection_file(path: &str, config: &UserConfig) -> (r: bool)
    ensures
        r == (extension_of(path@) matches Some(e) && types_with_extension(
            config.types_view(),
            lower_of(e),
        ).len() > 0),
{
    match file_extension(path) {
        None => false,
        Some(ext) => {
            let lowered = lowercase(ext.as_str());
            let tags = matching_types(config, &lowered);
            tags.len() > 0
        },
    }
}

/// The name that a file with this metadata and extension should have under
/// `config`: the template with `%{type}` replaced by the one file type that
/// lists the lower-cased extension and `%{fileextension}` by that extension
/// (`jpeg` written `jpg`), then formatted with the capture time.
pub fn canonical_name(metadata: &PhotoMetaData, extension: &str, config: &UserConfig) -> (r: Result<
    String,
    NamingError,
>)
    ensures
        name_view(r) == canonical_name_of(
            metadata.timestamp_local,
            extension@,
            config.file_naming_scheme@,
            config.types_view(),
        ),
        metadata.timestamp_local is None ==> r == Err::<String, NamingError>(
            NamingError::MissingTimestamp,
        ),
{
    let stamp = match metadata.timestamp_local {
        None => return Err(NamingError::MissingTimestamp),
        Some(t) => t,
    };
    let lowered = lowercase(extension);
    let tags = matching_types(config, &lowered);
    if tags.len() == 0 {
        return Err(NamingError::UnknownExtension);
    }
    if tags.len() > 1 {
        return Err(NamingError::AmbiguousExtension);
    }
    let template = expand_name_template(
        config.file_naming_scheme.as_str(),
        tags[0].as_str(),
        lowered.as_str(),
    );
    match format_timestamp(template.as_str(), stamp) {
        Some(n) => Ok(n),
        None => Err(NamingError::UnformattableTemplate),
    }
}

/// The canonical name of the file at `filepath`, whose metadata is
/// `metadata`: as `canonical_name` with the extension of the path. A missing
/// capture time is reported before a missing extension.
pub fn get_canonical_photo_filename(
    filepath: &str,
    metadata: &PhotoMetaData,
    config: &UserConfig,
) -> (r: Result<String, NamingError>)
    ensures
        name_view(r) == canonical_name_of_path(
            filepath@,
            metadata.timestamp_local,
            config.file_naming_scheme@,
            config.types_view(),
        ),
        metadata.timestamp_local is None ==> r == Err::<String, NamingError>(
            NamingError::MissingTimestamp,
        ),
{
    if metadata.timestamp_local.is_none() {
        return Err(NamingError::MissingTimestamp);
    }
    match file_extension(filepath) {
        None => Err(NamingError::MissingExtension),
        Some(ext) => canonical_name(metadata, ext.as_str(), config),
    }
}

} // verus!
