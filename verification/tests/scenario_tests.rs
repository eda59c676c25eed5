use filemerger::keys::KeyValue;
use filemerger::manifest::load_manifest;
use filemerger::merge_file_manager::{CacheInput, MergeFileManager, RawFile};
use filemerger::settings::KeyType;
use filemerger::working_set::WorkingSet;

fn text_key(s: &str) -> KeyValue {
    KeyValue::Text(s.as_bytes().to_vec())
}

fn tsv(rows: &[(&str, &str)]) -> Vec<u8> {
    let mut out = String::new();
    for (a, b) in rows {
        out.push_str(&format!("{}\t{}\n", a, b));
    }
    out.into_bytes()
}

fn glob_set(files: &[(&[u8], &Vec<u8>)]) -> WorkingSet {
    let resolved: Vec<RawFile> = files
        .iter()
        .map(|(n, c)| RawFile { filename: n.to_vec(), raw: (*c).clone() })
        .collect();
    MergeFileManager::retrieve_from_glob(
        WorkingSet::new(),
        resolved,
        b'\t',
        0,
        text_key("0"),
        KeyType::String,
    )
}

#[test]
fn window_merge_emits_exactly_the_window() {
    // file A holds keys 123,124,125; file B holds 124,125,127; seeking to 124
    // and merging up to 126 emits 124,124,125,125 and discards B's 127
    let contents_a = tsv(&[("123", "bbb"), ("124", "bbb"), ("125", "bbb")]);
    let contents_b = tsv(&[("124", "aaa"), ("125", "aaa"), ("127", "aaa")]);

    let cache = glob_set(&[(b"/tmp/scenario_a.a.tsv", &contents_a), (b"/tmp/scenario_a.b.tsv", &contents_b)]);
    assert_eq!(cache.len(), 2);

    let cache = MergeFileManager::fast_forward_cache(cache, &text_key("124"));
    assert_eq!(cache.len(), 2);

    let merge_end = text_key("126");
    let out = MergeFileManager::begin_merge(cache, Some(merge_end.clone()), true);

    let keys: Vec<KeyValue> = out.emitted.iter().map(|r| r.key.clone()).collect();
    assert_eq!(
        keys,
        vec![text_key("124"), text_key("124"), text_key("125"), text_key("125")]
    );
    // no emitted line carries the discarded 127 record
    assert!(out.emitted.iter().all(|r| !r.line.starts_with(b"127")));
    // the emitted lines are the source lines, byte for byte
    for line in [&b"124\tbbb"[..], b"124\taaa", b"125\tbbb", b"125\taaa"] {
        assert!(out.emitted.iter().any(|r| r.line == line));
    }

    assert_eq!(out.retired.len(), 2);
    assert!(out.retired.iter().all(|m| m.ending_merge_key <= merge_end));
}

#[test]
fn unbounded_merge_keeps_every_record_in_order() {
    // every record of every file is emitted once, keys never decreasing
    let contents_a = tsv(&[("1", "a"), ("3", "a"), ("5", "a")]);
    let contents_b = tsv(&[("2", "b"), ("4", "b"), ("6", "b")]);

    let cache = glob_set(&[(b"/tmp/order.a.tsv", &contents_a), (b"/tmp/order.b.tsv", &contents_b)]);
    let out = MergeFileManager::begin_merge(cache, None, true);

    assert_eq!(out.emitted.len(), 6);
    let keys: Vec<KeyValue> = out.emitted.iter().map(|r| r.key.clone()).collect();
    assert_eq!(
        keys,
        vec![
            text_key("1"),
            text_key("2"),
            text_key("3"),
            text_key("4"),
            text_key("5"),
            text_key("6")
        ]
    );
    assert_eq!(out.retired.len(), 2);
}

#[test]
fn merge_without_emission_retires_everything_silently() {
    let contents_a = tsv(&[("1", "a"), ("3", "a")]);
    let contents_b = tsv(&[("2", "b")]);

    let cache = glob_set(&[(b"/tmp/silent.a.tsv", &contents_a), (b"/tmp/silent.b.tsv", &contents_b)]);
    let out = MergeFileManager::begin_merge(cache, None, false);
    assert_eq!(out.emitted.len(), 0);
    assert_eq!(out.retired.len(), 2);
}

#[test]
fn seek_drops_streams_that_end_before_the_window() {
    let contents_a = tsv(&[("1", "a"), ("2", "a")]);
    let contents_b = tsv(&[("8", "b"), ("9", "b")]);

    let cache = glob_set(&[(b"/tmp/seek.a.tsv", &contents_a), (b"/tmp/seek.b.tsv", &contents_b)]);
    let cache = MergeFileManager::fast_forward_cache(cache, &text_key("5"));
    assert_eq!(cache.len(), 1);
    let files = MergeFileManager::cache_to_vec(cache);
    assert_eq!(files[0].filename, b"/tmp/seek.b.tsv".to_vec());
    assert_eq!(files[0].current_merge_key, text_key("8"));
}

#[test]
fn manifest_round_trip_keeps_both_files() {
    // two files via glob, a manifest written, then loaded back
    let contents_a = tsv(&[("1", "a"), ("2", "a")]);
    let contents_b = tsv(&[("3", "b"), ("4", "b")]);
    let name_a = b"/tmp/roundtrip.a.tsv".to_vec();
    let name_b = b"/tmp/roundtrip.b.tsv".to_vec();

    let cache = glob_set(&[(&name_a, &contents_a), (&name_b, &contents_b)]);
    let written = MergeFileManager::write_cache(cache);

    let entries = load_manifest(&written);
    assert_eq!(entries.len(), 2);
    assert!(entries.iter().any(|e| e.filename == name_a
        && e.beginning_key == b"1".to_vec()
        && e.ending_key == b"2".to_vec()
        && e.filesize == contents_a.len() as u64));
    assert!(entries.iter().any(|e| e.filename == name_b
        && e.beginning_key == b"3".to_vec()
        && e.ending_key == b"4".to_vec()
        && e.filesize == contents_b.len() as u64));

    let inputs: Vec<CacheInput> = entries
        .into_iter()
        .map(|entry| {
            let raw = if entry.filename == name_a { contents_a.clone() } else { contents_b.clone() };
            CacheInput { current_size: raw.len() as u64, entry, raw }
        })
        .collect();
    let loaded =
        MergeFileManager::retrieve_from_cache(WorkingSet::new(), inputs, text_key("0"), KeyType::String);
    assert_eq!(loaded.len(), 2);
    let files = MergeFileManager::cache_to_vec(loaded);
    assert!(files.iter().any(|x| x.filename == name_a));
    assert!(files.iter().any(|x| x.filename == name_b));
}

#[test]
fn overlapping_globs_keep_one_entry_per_file() {
    // the same unchanged file reached by two overlapping patterns: the second
    // admission is a cache hit and the set keeps a single entry
    let contents = tsv(&[("1", "a"), ("2", "a")]);
    let name = b"/tmp/overlap.file1.tsv".to_vec();

    let cache = MergeFileManager::retrieve_from_glob(
        WorkingSet::new(),
        vec![RawFile { filename: name.clone(), raw: contents.clone() }],
        b'\t',
        0,
        text_key("0"),
        KeyType::String,
    );
    assert_eq!(cache.len(), 1);

    let cache = MergeFileManager::retrieve_from_glob(
        cache,
        vec![RawFile { filename: name.clone(), raw: contents.clone() }],
        b'\t',
        0,
        text_key("0"),
        KeyType::String,
    );
    assert_eq!(cache.len(), 1);
    let files = MergeFileManager::cache_to_vec(cache);
    assert_eq!(files.len(), 1);
    assert_eq!(files[0].filename, name);
}

#[test]
fn signed_keys_merge_numerically() {
    let contents_a = tsv(&[("-5", "a"), ("3", "a")]);
    let contents_b = tsv(&[("-2", "b"), ("7", "b")]);

    let resolved = vec![
        RawFile { filename: b"/tmp/signed.a.tsv".to_vec(), raw: contents_a },
        RawFile { filename: b"/tmp/signed.b.tsv".to_vec(), raw: contents_b },
    ];
    let cache = MergeFileManager::retrieve_from_glob(
        WorkingSet::new(),
        resolved,
        b'\t',
        0,
        KeyValue::Signed32(0),
        KeyType::Signed32Integer,
    );
    let out = MergeFileManager::begin_merge(cache, None, true);
    let keys: Vec<KeyValue> = out.emitted.iter().map(|r| r.key.clone()).collect();
    assert_eq!(
        keys,
        vec![
            KeyValue::Signed32(-5),
            KeyValue::Signed32(-2),
            KeyValue::Signed32(3),
            KeyValue::Signed32(7)
        ]
    );
}

#[test]
fn numeric_keys_merge_numerically() {
    // with unsigned keys, 9 sorts before 10; as text it would not
    let contents_a = tsv(&[("9", "a"), ("100", "a")]);
    let contents_b = tsv(&[("10", "b")]);

    let resolved = vec![
        RawFile { filename: b"/tmp/num.a.tsv".to_vec(), raw: contents_a },
        RawFile { filename: b"/tmp/num.b.tsv".to_vec(), raw: contents_b },
    ];
    let cache = MergeFileManager::retrieve_from_glob(
        WorkingSet::new(),
        resolved,
        b'\t',
        0,
        KeyValue::Unsigned32(0),
        KeyType::Unsigned32Integer,
    );
    let out = MergeFileManager::begin_merge(cache, None, true);
    let keys: Vec<KeyValue> = out.emitted.iter().map(|r| r.key.clone()).collect();
    assert_eq!(
        keys,
        vec![KeyValue::Unsigned32(9), KeyValue::Unsigned32(10), KeyValue::Unsigned32(100)]
    );
}
