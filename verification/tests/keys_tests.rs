use filemerger::keys::{fmt_i32, fmt_u64, key_le, key_lt, key_text, parse_i32, parse_key, parse_u32, parse_u64, KeyValue};
use filemerger::lines::{eq_bytes, field_at, lines_of, split};
use filemerger::manifest::{delimiter_label, delimiter_of_label, format_manifest_line, parse_manifest_line, ManifestEntry};
use filemerger::settings::{cli_delimiter_of, key_type_of, KeyType};

#[test]
fn parse_unsigned_keys() {
    assert_eq!(parse_u32(&b"0".to_vec()), Some(0));
    assert_eq!(parse_u32(&b"123".to_vec()), Some(123));
    assert_eq!(parse_u32(&b"+7".to_vec()), Some(7));
    assert_eq!(parse_u32(&b"4294967295".to_vec()), Some(u32::MAX));
    assert_eq!(parse_u32(&b"4294967296".to_vec()), None);
    assert_eq!(parse_u32(&b"".to_vec()), None);
    assert_eq!(parse_u32(&b"+".to_vec()), None);
    assert_eq!(parse_u32(&b"12a".to_vec()), None);
    assert_eq!(parse_u32(&b"-1".to_vec()), None);
    assert_eq!(parse_u64(&b"18446744073709551615".to_vec()), Some(u64::MAX));
    assert_eq!(parse_u64(&b"18446744073709551616".to_vec()), None);
}

#[test]
fn parse_signed_keys() {
    assert_eq!(parse_i32(&b"0".to_vec()), Some(0));
    assert_eq!(parse_i32(&b"-1".to_vec()), Some(-1));
    assert_eq!(parse_i32(&b"+15".to_vec()), Some(15));
    assert_eq!(parse_i32(&b"2147483647".to_vec()), Some(i32::MAX));
    assert_eq!(parse_i32(&b"2147483648".to_vec()), None);
    assert_eq!(parse_i32(&b"-2147483648".to_vec()), Some(i32::MIN));
    assert_eq!(parse_i32(&b"-2147483649".to_vec()), None);
    assert_eq!(parse_i32(&b"-".to_vec()), None);
    assert_eq!(parse_i32(&b"1.5".to_vec()), None);
}

#[test]
fn parse_key_by_type() {
    assert_eq!(
        parse_key(&b"42".to_vec(), KeyType::Unsigned32Integer),
        Some(KeyValue::Unsigned32(42))
    );
    assert_eq!(parse_key(&b"-42".to_vec(), KeyType::Unsigned32Integer), None);
    assert_eq!(
        parse_key(&b"-42".to_vec(), KeyType::Signed32Integer),
        Some(KeyValue::Signed32(-42))
    );
    // text keys always parse, even empty ones
    assert_eq!(parse_key(&b"".to_vec(), KeyType::String), Some(KeyValue::Text(Vec::new())));
    assert_eq!(
        parse_key(&b"zzz".to_vec(), KeyType::String),
        Some(KeyValue::Text(b"zzz".to_vec()))
    );
}

#[test]
fn format_keys() {
    assert_eq!(fmt_u64(0), b"0".to_vec());
    assert_eq!(fmt_u64(90210), b"90210".to_vec());
    assert_eq!(fmt_u64(u64::MAX), b"18446744073709551615".to_vec());
    assert_eq!(fmt_i32(-123), b"-123".to_vec());
    assert_eq!(fmt_i32(i32::MIN), b"-2147483648".to_vec());
    assert_eq!(key_text(&KeyValue::Unsigned32(7)), b"7".to_vec());
    assert_eq!(key_text(&KeyValue::Signed32(-9)), b"-9".to_vec());
    assert_eq!(key_text(&KeyValue::Text(b"abc".to_vec())), b"abc".to_vec());
}

#[test]
fn key_order_is_per_form() {
    let a = KeyValue::Text(b"125".to_vec());
    let b = KeyValue::Text(b"126".to_vec());
    assert!(key_lt(&a, &b));
    assert!(key_le(&a, &a));
    assert!(!key_le(&b, &a));
    // text order is lexicographic: "9" sorts after "10"
    assert!(key_lt(&KeyValue::Text(b"10".to_vec()), &KeyValue::Text(b"9".to_vec())));
    // unsigned order is numeric
    assert!(key_lt(&KeyValue::Unsigned32(9), &KeyValue::Unsigned32(10)));
    assert!(key_lt(&KeyValue::Signed32(-2), &KeyValue::Signed32(1)));
}

#[test]
fn cli_settings_parse() {
    assert_eq!(cli_delimiter_of(&b"tsv".to_vec()), Some(b'\t'));
    assert_eq!(cli_delimiter_of(&b"csv".to_vec()), Some(b','));
    assert_eq!(cli_delimiter_of(&b"psv".to_vec()), Some(b'|'));
    assert_eq!(cli_delimiter_of(&b";".to_vec()), Some(b';'));
    assert_eq!(cli_delimiter_of(&b"ab".to_vec()), None);
    assert_eq!(cli_delimiter_of(&b"".to_vec()), None);

    assert_eq!(key_type_of(&b"Unsigned32Integer".to_vec()), Some(KeyType::Unsigned32Integer));
    assert_eq!(key_type_of(&b"Signed32Integer".to_vec()), Some(KeyType::Signed32Integer));
    assert_eq!(key_type_of(&b"String".to_vec()), Some(KeyType::String));
    assert_eq!(key_type_of(&b"Float".to_vec()), None);
}

#[test]
fn splitting_lines_and_fields() {
    assert_eq!(
        lines_of(&b"a\nb\r\nc".to_vec()),
        vec![b"a".to_vec(), b"b".to_vec(), b"c".to_vec()]
    );
    assert_eq!(lines_of(&b"a\n\nb\n".to_vec()), vec![b"a".to_vec(), Vec::new(), b"b".to_vec()]);
    assert_eq!(lines_of(&Vec::new()), Vec::<Vec<u8>>::new());
    assert_eq!(lines_of(&b"\n".to_vec()), vec![Vec::<u8>::new()]);

    assert_eq!(
        split(&b"a,,b".to_vec(), b','),
        vec![b"a".to_vec(), Vec::new(), b"b".to_vec()]
    );
    assert_eq!(split(&b"".to_vec(), b','), vec![Vec::<u8>::new()]);

    assert_eq!(field_at(&b"x\ty\tz".to_vec(), b'\t', 1), Some(b"y".to_vec()));
    assert_eq!(field_at(&b"x\ty\tz".to_vec(), b'\t', 2), Some(b"z".to_vec()));
    assert_eq!(field_at(&b"x\ty\tz".to_vec(), b'\t', 3), None);
    assert!(eq_bytes(&b"same".to_vec(), &b"same".to_vec()));
    assert!(!eq_bytes(&b"same".to_vec(), &b"off".to_vec()));
}

#[test]
fn manifest_line_codec() {
    assert_eq!(delimiter_label(b'\t'), b"tsv".to_vec());
    assert_eq!(delimiter_label(b','), b"csv".to_vec());
    assert_eq!(delimiter_label(b'|'), b"psv".to_vec());
    assert_eq!(delimiter_label(b';'), b";".to_vec());
    assert_eq!(delimiter_of_label(&b"tsv".to_vec()), Some(b'\t'));
    assert_eq!(delimiter_of_label(&b";".to_vec()), Some(b';'));
    assert_eq!(delimiter_of_label(&b"xyz".to_vec()), Some(b'x'));
    assert_eq!(delimiter_of_label(&Vec::new()), None);

    let entry = ManifestEntry {
        filename: b"/data/part1.tsv".to_vec(),
        beginning_key: b"100".to_vec(),
        ending_key: b"250".to_vec(),
        delimiter: b'\t',
        key_index: 2,
        filesize: 4096,
    };
    let line = format_manifest_line(&entry);
    assert_eq!(line, b"/data/part1.tsv,100,250,tsv,2,4096".to_vec());

    let parsed = parse_manifest_line(&line).unwrap();
    assert_eq!(parsed.filename, entry.filename);
    assert_eq!(parsed.beginning_key, entry.beginning_key);
    assert_eq!(parsed.ending_key, entry.ending_key);
    assert_eq!(parsed.delimiter, entry.delimiter);
    assert_eq!(parsed.key_index, entry.key_index);
    assert_eq!(parsed.filesize, entry.filesize);

    assert!(parse_manifest_line(&b"only,five,fields,here,now".to_vec()).is_none());
    assert!(parse_manifest_line(&b"a,b,c,,0,1".to_vec()).is_none());
}
