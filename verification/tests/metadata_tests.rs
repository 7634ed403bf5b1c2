use exif::experimental::Writer;
use exif::{Field, In, Tag, Value};
use imagev::capture_instant_from_bytes;

fn tiff_with_datetime_original(datetime: &[u8]) -> Vec<u8> {
    let field = Field {
        tag: Tag::DateTimeOriginal,
        ifd_num: In::PRIMARY,
        value: Value::Ascii(vec![datetime.to_vec()]),
    };
    let mut writer = Writer::new();
    writer.push_field(&field);
    let mut cursor = std::io::Cursor::new(Vec::new());
    writer.write(&mut cursor, false).expect("writing the container failed");
    cursor.into_inner()
}

#[test]
fn embedded_capture_datetime_beats_the_modification_time() {
    let bytes = tiff_with_datetime_original(b"2021:05:01 10:00:00");
    // Whatever the file's modification time says, the embedded instant wins.
    assert_eq!(capture_instant_from_bytes(&bytes, Some(42)), Some(1619863200));
    assert_eq!(capture_instant_from_bytes(&bytes, None), Some(1619863200));
}

#[test]
fn missing_embedded_data_falls_back_to_the_modification_time() {
    // Not an image container at all: the resolver falls back to mtime T.
    let garbage = b"not an image".to_vec();
    assert_eq!(capture_instant_from_bytes(&garbage, Some(12345)), Some(12345));
}

#[test]
fn unparsable_embedded_field_falls_back_to_the_modification_time() {
    let bytes = tiff_with_datetime_original(b"yesterday, around noon");
    assert_eq!(capture_instant_from_bytes(&bytes, Some(777)), Some(777));
}

#[test]
fn nothing_resolvable_yields_nothing() {
    let garbage = b"not an image".to_vec();
    assert_eq!(capture_instant_from_bytes(&garbage, None), None);
}

#[test]
fn nul_terminated_embedded_field_parses() {
    let bytes = tiff_with_datetime_original(b"1970:01:01 00:00:01\0");
    assert_eq!(capture_instant_from_bytes(&bytes, Some(9)), Some(1));
}
