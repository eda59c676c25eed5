use filemerger::keys::KeyValue;
use filemerger::merge_file::{MergeFile, OpenError};
use filemerger::settings::KeyType;

fn tsv_contents() -> Vec<u8> {
    format!(
        "{}\t{}\t{}\n{}\t{}\t{}\n{}\t{}\t{}\n",
        "123", "bbb", "999", "124", "bbb", "999", "125", "bbb", "999"
    )
    .into_bytes()
}

fn text_key(s: &str) -> KeyValue {
    KeyValue::Text(s.as_bytes().to_vec())
}

#[test]
fn new() {
    let test_filename_1 = b"/tmp/test_new.file1.tsv".to_vec();
    let test_contents_1 = tsv_contents();

    let result = MergeFile::new(
        test_filename_1.clone(),
        &test_contents_1,
        b'\t',
        0,
        text_key("0"),
        KeyType::String,
    );
    assert!(result.is_ok());

    let mergefile = result.unwrap();
    assert_eq!(mergefile.filename, test_filename_1);
    assert_eq!(mergefile.filesize, test_contents_1.len() as u64);

    assert_eq!(mergefile.delimiter, b'\t');
    assert_eq!(mergefile.key_index, 0);

    assert_eq!(mergefile.line, b"123\tbbb\t999".to_vec());
    assert_eq!(mergefile.beginning_merge_key, text_key("123"));
    assert_eq!(mergefile.current_merge_key, text_key("123"));
    assert_eq!(mergefile.ending_merge_key, text_key("0"));
}

#[test]
fn fast_forward() {
    let test_filename_1 = b"/tmp/test_fast_forward.file1.tsv".to_vec();
    let test_contents_1 = tsv_contents();

    let mut mergefile = MergeFile::new(
        test_filename_1,
        &test_contents_1,
        b'\t',
        0,
        text_key("0"),
        KeyType::String,
    )
    .unwrap();

    // fast forward to the middle of the file
    assert!(mergefile.fast_forward(&text_key("124")).is_ok());
    assert_eq!(mergefile.line, b"124\tbbb\t999".to_vec());
    assert_eq!(mergefile.beginning_merge_key, text_key("123"));
    assert_eq!(mergefile.current_merge_key, text_key("124"));
    assert_eq!(mergefile.ending_merge_key, text_key("0"));

    // fast forward past the end of the file
    assert!(mergefile.fast_forward(&text_key("126")).is_err());
    assert_eq!(mergefile.line, b"125\tbbb\t999".to_vec());
    assert_eq!(mergefile.beginning_merge_key, text_key("123"));
    assert_eq!(mergefile.current_merge_key, text_key("125"));
    assert_eq!(mergefile.ending_merge_key, text_key("125"));
}

#[test]
fn fast_forward_to_end() {
    let test_filename_1 = b"/tmp/test_fast_forward_to_end.file1.tsv".to_vec();
    let test_contents_1 = tsv_contents();

    let result = MergeFile::new(
        test_filename_1,
        &test_contents_1,
        b'\t',
        0,
        text_key("0"),
        KeyType::String,
    );
    assert!(result.is_ok());

    let mut mergefile = result.unwrap();

    mergefile.fast_forward_to_end();
    assert_eq!(mergefile.line, b"125\tbbb\t999".to_vec());
    assert_eq!(mergefile.beginning_merge_key, text_key("123"));
    assert_eq!(mergefile.current_merge_key, text_key("125"));
    assert_eq!(mergefile.ending_merge_key, text_key("125"));
}

#[test]
fn impl_iterator() {
    let test_filename_1 = b"/tmp/test_impl_formatting.file1.tsv".to_vec();
    let test_contents_1 = tsv_contents();

    let result = MergeFile::new(
        test_filename_1,
        &test_contents_1,
        b'\t',
        0,
        text_key("0"),
        KeyType::String,
    );
    assert!(result.is_ok());

    let mut mergefile = result.unwrap();

    // line 1
    assert_eq!(mergefile.line, b"123\tbbb\t999".to_vec());
    assert_eq!(mergefile.beginning_merge_key, text_key("123"));
    assert_eq!(mergefile.current_merge_key, text_key("123"));
    assert_eq!(mergefile.ending_merge_key, text_key("0"));

    // line 2
    let result = mergefile.next();
    assert_eq!(result, Some(text_key("124")));

    assert_eq!(mergefile.line, b"124\tbbb\t999".to_vec());
    assert_eq!(mergefile.beginning_merge_key, text_key("123"));
    assert_eq!(mergefile.current_merge_key, text_key("124"));
    assert_eq!(mergefile.ending_merge_key, text_key("0"));

    // line 3
    let result = mergefile.next();
    assert_eq!(result, Some(text_key("125")));

    assert_eq!(mergefile.line, b"125\tbbb\t999".to_vec());
    assert_eq!(mergefile.beginning_merge_key, text_key("123"));
    assert_eq!(mergefile.current_merge_key, text_key("125"));
    assert_eq!(mergefile.ending_merge_key, text_key("0"));

    // end of file
    let result = mergefile.next();
    assert_eq!(result, None);

    assert_eq!(mergefile.line, b"125\tbbb\t999".to_vec());
    assert_eq!(mergefile.beginning_merge_key, text_key("123"));
    assert_eq!(mergefile.current_merge_key, text_key("125"));
    assert_eq!(mergefile.ending_merge_key, text_key("125"));
}

#[test]
fn impl_ordering_and_equality() {
    let test_filename_1 = b"/tmp/test_impl_ordering.file1.tsv".to_vec();
    let test_contents_1 = tsv_contents();

    // two streams over the same source, started at different keys
    let result = MergeFile::new(
        test_filename_1.clone(),
        &test_contents_1,
        b'\t',
        0,
        text_key("0"),
        KeyType::String,
    );
    assert!(result.is_ok());

    let mut mergefile_1 = result.unwrap();
    let result = mergefile_1.fast_forward(&text_key("123"));
    assert!(result.is_ok());

    let result = MergeFile::new(
        test_filename_1,
        &test_contents_1,
        b'\t',
        0,
        text_key("0"),
        KeyType::String,
    );
    assert!(result.is_ok());

    let mut mergefile_2 = result.unwrap();
    let result = mergefile_2.fast_forward(&text_key("124"));
    assert!(result.is_ok());

    assert!(mergefile_1 < mergefile_2); // file 1 (123) < file 2 (124)

    // advance file 1
    let result = mergefile_1.next();
    assert!(result.is_some());
    assert!(mergefile_1 == mergefile_2); // file 1 (124) == file 2 (124)

    // advance file 1 again
    let result = mergefile_1.next();
    assert!(result.is_some());
    assert!(mergefile_1 > mergefile_2); // file 1 (125) > file 2 (124)

    // advance file 2
    let result = mergefile_2.next();
    assert!(result.is_some());
    assert!(mergefile_1 == mergefile_2); // file 1 (125) == file 2 (125)
}

#[test]
fn open_without_extension_is_refused() {
    let contents = b"1\ta\n".to_vec();
    let result = MergeFile::new(
        b"/tmp/plainname".to_vec(),
        &contents,
        b'\t',
        0,
        text_key("0"),
        KeyType::String,
    );
    assert_eq!(result.err(), Some(OpenError::NoExtension));
}

#[test]
fn open_empty_file_is_refused() {
    let contents = Vec::new();
    let result = MergeFile::new(
        b"/tmp/empty.tsv".to_vec(),
        &contents,
        b'\t',
        0,
        text_key("0"),
        KeyType::String,
    );
    assert_eq!(result.err(), Some(OpenError::EmptyOrUnreadable));
}

#[test]
fn malformed_line_stops_the_stream_without_ending_key() {
    // the third line's key column is not a number: the stream stops there,
    // as at end-of-file, but the ending key stays at its default
    let contents = b"1\ta\n2\tb\nx\tc\n3\td\n".to_vec();
    let mut mergefile = MergeFile::new(
        b"/tmp/partial.tsv".to_vec(),
        &contents,
        b'\t',
        0,
        KeyValue::Unsigned32(0),
        KeyType::Unsigned32Integer,
    )
    .unwrap();
    assert_eq!(mergefile.current_merge_key, KeyValue::Unsigned32(1));
    assert_eq!(mergefile.next(), Some(KeyValue::Unsigned32(2)));
    assert_eq!(mergefile.next(), None);
    assert_eq!(mergefile.ending_merge_key, KeyValue::Unsigned32(0));
}
