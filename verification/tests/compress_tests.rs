use std::io::Write;

use filemerger::keys::KeyValue;
use filemerger::merge_file::{MergeFile, OpenError};
use filemerger::settings::KeyType;

fn text_key(s: &str) -> KeyValue {
    KeyValue::Text(s.as_bytes().to_vec())
}

fn gzip_bytes(data: &[u8]) -> Vec<u8> {
    let mut enc = flate2::write::GzEncoder::new(Vec::new(), flate2::Compression::default());
    enc.write_all(data).unwrap();
    enc.finish().unwrap()
}

fn bzip2_bytes(data: &[u8]) -> Vec<u8> {
    let mut enc = bzip2::write::BzEncoder::new(Vec::new(), bzip2::Compression::default());
    enc.write_all(data).unwrap();
    enc.finish().unwrap()
}

#[test]
fn gzip_streams_read_their_decompressed_records() {
    let plain = b"1\taaa\n2\tbbb\n3\tccc\n";
    let compressed = gzip_bytes(plain);
    assert_ne!(compressed, plain.to_vec());

    let mut mergefile = MergeFile::new(
        b"/tmp/compressed.file1.gz".to_vec(),
        &compressed,
        b'\t',
        0,
        text_key("0"),
        KeyType::String,
    )
    .unwrap();

    // the recorded size is the on-disk (compressed) size
    assert_eq!(mergefile.filesize, compressed.len() as u64);
    assert_eq!(mergefile.current_merge_key, text_key("1"));
    assert_eq!(mergefile.line, b"1\taaa".to_vec());
    assert_eq!(mergefile.next(), Some(text_key("2")));
    assert_eq!(mergefile.next(), Some(text_key("3")));
    assert_eq!(mergefile.next(), None);
    assert_eq!(mergefile.ending_merge_key, text_key("3"));
}

#[test]
fn bzip2_streams_read_their_decompressed_records() {
    let plain = b"10\txxx\n20\tyyy\n";
    let compressed = bzip2_bytes(plain);
    assert_ne!(compressed, plain.to_vec());

    let mut mergefile = MergeFile::new(
        b"/tmp/compressed.file2.bz2".to_vec(),
        &compressed,
        b'\t',
        0,
        text_key("0"),
        KeyType::String,
    )
    .unwrap();

    assert_eq!(mergefile.filesize, compressed.len() as u64);
    assert_eq!(mergefile.current_merge_key, text_key("10"));
    assert_eq!(mergefile.next(), Some(text_key("20")));
    assert_eq!(mergefile.next(), None);
    assert_eq!(mergefile.ending_merge_key, text_key("20"));
}

#[test]
fn corrupt_gzip_bytes_are_refused() {
    let garbage = b"this is not a gzip stream".to_vec();
    let result = MergeFile::new(
        b"/tmp/corrupt.gz".to_vec(),
        &garbage,
        b'\t',
        0,
        text_key("0"),
        KeyType::String,
    );
    assert_eq!(result.err(), Some(OpenError::EmptyOrUnreadable));
}

#[test]
fn unrecognized_extensions_read_plain_bytes() {
    let plain = b"5\tplain\n6\tplain\n".to_vec();
    let mergefile = MergeFile::new(
        b"/tmp/some.data".to_vec(),
        &plain,
        b'\t',
        0,
        text_key("0"),
        KeyType::String,
    )
    .unwrap();
    assert_eq!(mergefile.current_merge_key, text_key("5"));
}
