use filemerger::keys::KeyValue;
use filemerger::manifest::load_manifest;
use filemerger::merge_file::MergeFile;
use filemerger::merge_file_manager::{CacheInput, MergeFileManager, RawFile};
use filemerger::settings::KeyType;
use filemerger::working_set::WorkingSet;

fn text_key(s: &str) -> KeyValue {
    KeyValue::Text(s.as_bytes().to_vec())
}

fn tsv(rows: &[(&str, &str, &str)]) -> Vec<u8> {
    let mut out = String::new();
    for (a, b, c) in rows {
        out.push_str(&format!("{}\t{}\t{}\n", a, b, c));
    }
    out.into_bytes()
}

fn csv(rows: &[(&str, &str, &str)]) -> Vec<u8> {
    let mut out = String::new();
    for (a, b, c) in rows {
        out.push_str(&format!("{},{},{}\n", a, b, c));
    }
    out.into_bytes()
}

#[test]
fn new_merge_file() {
    let test_filename_1 = b"/tmp/test_add_file.file1.tsv".to_vec();
    let test_contents_1 = tsv(&[("123", "bbb", "999"), ("124", "bbb", "999"), ("125", "bbb", "999")]);

    let test_filename_2 = b"/tmp/test_add_file.file2.csv".to_vec();
    let test_contents_2 = csv(&[("123", "aaa", "888"), ("124", "aaa", "888"), ("127", "aaa", "888")]);

    let result = MergeFile::new(
        test_filename_1.clone(),
        &test_contents_1,
        b'\t',
        0,
        text_key("0"),
        KeyType::String,
    );
    assert!(result.is_ok());

    let mergefile = result.unwrap();
    assert_eq!(mergefile.filename, test_filename_1);
    assert_eq!(mergefile.current_merge_key, text_key("123"));

    let result = MergeFile::new(
        test_filename_2.clone(),
        &test_contents_2,
        b',',
        0,
        text_key("0"),
        KeyType::String,
    );
    assert!(result.is_ok());

    let mergefile = result.unwrap();
    assert_eq!(mergefile.filename, test_filename_2);
    assert_eq!(mergefile.current_merge_key, text_key("123"));
}

#[test]
fn retrieve_from_glob() {
    let test_filename_1 = b"/tmp/test_retrieve_from_glob.file1.tsv".to_vec();
    let test_contents_1 = tsv(&[("123", "bbb", "999"), ("124", "bbb", "999"), ("125", "bbb", "999")]);

    let test_filename_2 = b"/tmp/test_retrieve_from_glob.file2.tsv".to_vec();
    let test_contents_2 = tsv(&[("123", "aaa", "888"), ("124", "aaa", "888"), ("127", "aaa", "888")]);

    // a glob that resolved to a single file
    let resolved = vec![RawFile { filename: test_filename_1.clone(), raw: test_contents_1.clone() }];
    let merge_files = MergeFileManager::retrieve_from_glob(
        WorkingSet::new(),
        resolved,
        b'\t',
        0,
        text_key("0"),
        KeyType::String,
    );
    assert_eq!(merge_files.len(), 1);
    let files = MergeFileManager::cache_to_vec(merge_files);
    assert!(files.iter().any(|x| x.filename == test_filename_1));

    // a glob that resolved to both files
    let resolved = vec![
        RawFile { filename: test_filename_1.clone(), raw: test_contents_1.clone() },
        RawFile { filename: test_filename_2.clone(), raw: test_contents_2.clone() },
    ];
    let merge_files = MergeFileManager::retrieve_from_glob(
        WorkingSet::new(),
        resolved,
        b'\t',
        0,
        text_key("0"),
        KeyType::String,
    );
    assert_eq!(merge_files.len(), 2);
    let files = MergeFileManager::cache_to_vec(merge_files);
    assert!(files.iter().any(|x| x.filename == test_filename_1));
    assert!(files.iter().any(|x| x.filename == test_filename_2));
}

#[test]
fn retrieve_from_cache() {
    let test_filename_1 = b"/tmp/test_retrieve_from_cache.file1.tsv".to_vec();
    let test_contents_1 = tsv(&[("123", "bbb", "999"), ("124", "bbb", "999"), ("125", "bbb", "999")]);

    let test_filename_2 = b"/tmp/test_retrieve_from_cache.file2.tsv".to_vec();
    let test_contents_2 = tsv(&[("123", "aaa", "888"), ("124", "aaa", "888"), ("127", "aaa", "888")]);

    let cache_contents = format!(
        "{},{},{},{},{},{}\n{},{},{},{},{},{}\n",
        "/tmp/test_retrieve_from_cache.file1.tsv",
        "123",
        "125",
        "tsv",
        0,
        test_contents_1.len(),
        "/tmp/test_retrieve_from_cache.file2.tsv",
        "123",
        "127",
        "tsv",
        0,
        test_contents_2.len(),
    )
    .into_bytes();

    let entries = load_manifest(&cache_contents);
    assert_eq!(entries.len(), 2);

    let inputs: Vec<CacheInput> = entries
        .into_iter()
        .map(|entry| {
            let raw = if entry.filename == test_filename_1 {
                test_contents_1.clone()
            } else {
                test_contents_2.clone()
            };
            CacheInput { current_size: raw.len() as u64, entry, raw }
        })
        .collect();

    let merge_files =
        MergeFileManager::retrieve_from_cache(WorkingSet::new(), inputs, text_key("0"), KeyType::String);
    assert_eq!(merge_files.len(), 2);
    let files = MergeFileManager::cache_to_vec(merge_files);
    assert!(files.iter().any(|x| x.filename == test_filename_1));
    assert!(files.iter().any(|x| x.filename == test_filename_2));
}

#[test]
fn retrieve_from_cache_skips_stale_entries() {
    let contents = tsv(&[("1", "a", "x"), ("2", "a", "x")]);

    let manifest = format!(
        "{},{},{},{},{},{}\n",
        "/tmp/test_stale.file1.tsv",
        "1",
        "2",
        "tsv",
        0,
        contents.len() + 5, // the recorded size no longer matches the file
    )
    .into_bytes();

    let entries = load_manifest(&manifest);
    assert_eq!(entries.len(), 1);
    let inputs = vec![CacheInput {
        current_size: contents.len() as u64,
        entry: entries.into_iter().next().unwrap(),
        raw: contents,
    }];
    let merge_files =
        MergeFileManager::retrieve_from_cache(WorkingSet::new(), inputs, text_key("0"), KeyType::String);
    assert_eq!(merge_files.len(), 0);
}

#[test]
fn load_manifest_skips_malformed_lines() {
    // five fields on the first line, a bad size on the second, a good third
    let manifest = b"/a.tsv,1,2,tsv,0\n/b.tsv,1,2,tsv,0,notasize\n/c.tsv,1,2,tsv,0,10\n".to_vec();
    let entries = load_manifest(&manifest);
    assert_eq!(entries.len(), 1);
    assert_eq!(entries[0].filename, b"/c.tsv".to_vec());
    assert_eq!(entries[0].delimiter, b'\t');
    assert_eq!(entries[0].key_index, 0);
    assert_eq!(entries[0].filesize, 10);
}

#[test]
fn cache_to_vec() {
    let test_filename_1 = b"/tmp/test_cache_to_vec.file1.tsv".to_vec();
    let test_contents_1 = tsv(&[("123", "bbb", "999"), ("124", "bbb", "999"), ("125", "bbb", "999")]);

    let test_filename_2 = b"/tmp/test_cache_to_vec.file2.tsv".to_vec();
    let test_contents_2 = tsv(&[("123", "aaa", "888"), ("124", "aaa", "888"), ("127", "aaa", "888")]);

    let resolved = vec![
        RawFile { filename: test_filename_1.clone(), raw: test_contents_1 },
        RawFile { filename: test_filename_2.clone(), raw: test_contents_2 },
    ];
    let cache = MergeFileManager::retrieve_from_glob(
        WorkingSet::new(),
        resolved,
        b'\t',
        0,
        text_key("0"),
        KeyType::String,
    );

    let test_vec = MergeFileManager::cache_to_vec(cache);

    assert_eq!(test_vec.len(), 2);
    assert!(test_vec.iter().any(|x| x.filename == test_filename_1));
    assert!(test_vec.iter().any(|x| x.filename == test_filename_2));
}

#[test]
fn begin_merge() {
    let test_filename_1 = b"/tmp/test_begin_merge.file1.tsv".to_vec();
    let test_contents_1 = tsv(&[("123", "bbb", "999"), ("124", "bbb", "999"), ("125", "bbb", "999")]);

    let test_filename_2 = b"/tmp/test_begin_merge.file2.tsv".to_vec();
    let test_contents_2 = tsv(&[("123", "aaa", "888"), ("124", "aaa", "888"), ("127", "aaa", "888")]);

    let resolved = vec![
        RawFile { filename: test_filename_1.clone(), raw: test_contents_1 },
        RawFile { filename: test_filename_2.clone(), raw: test_contents_2 },
    ];
    let cache = MergeFileManager::retrieve_from_glob(
        WorkingSet::new(),
        resolved,
        b'\t',
        0,
        text_key("0"),
        KeyType::String,
    );

    let initial_cache_len = cache.len();
    assert_eq!(initial_cache_len, 2);

    let merge_start = text_key("124");
    let merge_end = text_key("126");

    let cache = MergeFileManager::fast_forward_cache(cache, &merge_start);
    let out = MergeFileManager::begin_merge(cache, Some(merge_end.clone()), false);
    let discarded = out.retired;

    // both input files retire, with final merge keys within the bound
    assert_eq!(initial_cache_len, discarded.len());
    assert!(discarded
        .iter()
        .any(|x| x.filename == test_filename_1 && x.ending_merge_key <= merge_end));
    assert!(discarded
        .iter()
        .any(|x| x.filename == test_filename_2 && x.ending_merge_key <= merge_end));
}

#[test]
fn write_cache() {
    let test_filename_1 = b"/tmp/test_write_cache.file1.tsv".to_vec();
    let test_contents_1 = tsv(&[("123", "bbb", "999"), ("124", "bbb", "999"), ("125", "bbb", "999")]);

    let test_filename_2 = b"/tmp/test_write_cache.file2.tsv".to_vec();
    let test_contents_2 = tsv(&[("123", "aaa", "888"), ("124", "aaa", "888"), ("127", "aaa", "888")]);

    let resolved = vec![
        RawFile { filename: test_filename_1.clone(), raw: test_contents_1.clone() },
        RawFile { filename: test_filename_2.clone(), raw: test_contents_2.clone() },
    ];
    let cache = MergeFileManager::retrieve_from_glob(
        WorkingSet::new(),
        resolved,
        b'\t',
        0,
        text_key("0"),
        KeyType::String,
    );

    assert_eq!(cache.len(), 2);

    let written = MergeFileManager::write_cache(cache);

    // loading what was written yields both files again
    let entries = load_manifest(&written);
    assert_eq!(entries.len(), 2);
    let inputs: Vec<CacheInput> = entries
        .into_iter()
        .map(|entry| {
            let raw = if entry.filename == test_filename_1 {
                test_contents_1.clone()
            } else {
                test_contents_2.clone()
            };
            CacheInput { current_size: raw.len() as u64, entry, raw }
        })
        .collect();
    let merge_files =
        MergeFileManager::retrieve_from_cache(WorkingSet::new(), inputs, text_key("0"), KeyType::String);
    assert_eq!(merge_files.len(), 2);
}
