use vstd::prelude::*;
use crate::datetime::{capture_datetime_value, parse_capture_datetime, valid_capture_datetime};

verus! {

/// The embedded original-capture-datetime field of an image container, if the
/// container carries one whose value is a well-formed character string; a
/// function of the container's bytes alone.
pub uninterp spec fn datetime_original_of(bytes: Seq<u8>) -> Option<Seq<char>>;

/// Relies on the exif crate's `Reader::read_from_container`, `Exif::get_field`
/// with the original-datetime tag of the primary image, and std's UTF-8
/// validation: together they extract the embedded capture field, a function of
/// the container bytes alone.
#[verifier::external_body]
fn read_datetime_original(bytes: &[u8]) -> (r: Option<String>)
    ensures
        match r {
            Some(s) => datetime_original_of(bytes@) == Some(s@),
            None => datetime_original_of(bytes@) is None,
        },
{
    let parsed = exif::Reader::new().read_from_container(&mut std::io::Cursor::new(bytes)).ok()?;
    let field = parsed.get_field(exif::Tag::DateTimeOriginal, exif::In::PRIMARY)?;
    match &field.value {
        exif::Value::Ascii(values) => match values.get(0) {
            Some(raw) => std::str::from_utf8(raw).ok().map(|text| text.to_string()),
            None => None,
        },
        _ => None,
    }
}

/// The timestamp-resolution policy: the embedded capture datetime where one is
/// present and parseable, else the file's modification time, else nothing.
pub open spec fn resolved_instant(embedded: Option<Seq<char>>, mtime: Option<i64>) -> Option<i64> {
    match embedded {
        Some(s) => if valid_capture_datetime(s) {
            Some(capture_datetime_value(s) as i64)
        } else {
            mtime
        },
        None => mtime,
    }
}

/// Resolves the capture instant of an image from its container bytes, falling
/// back to the modification time `mtime` when no parseable embedded capture
/// datetime is present.
pub fn capture_instant_from_bytes(bytes: &[u8], mtime: Option<i64>) -> (r: Option<i64>)
    ensures
        r == resolved_instant(datetime_original_of(bytes@), mtime),
{
    match read_datetime_original(bytes) {
        Some(text) => match parse_capture_datetime(text.as_str()) {
            Some(t) => Some(t),
            None => mtime,
        },
        None => mtime,
    }
}

} // verus!
