//! One input file mid-scan: its identity, configuration and scan state, over
//! the records parsed from its (possibly compressed) contents.

use vstd::prelude::*;

use crate::keys::{
    key_clone, key_lt, parse_key, spec_key_le, spec_key_lt, spec_parse_key, KeyModel, KeyValue,
};
use crate::lines::{lines_of, spec_field_at, split_lines};
use crate::settings::KeyType;

verus! {

use vstd::pervasive::VecAdditionalExecFns;

/// Why taking in one file failed. A single bad file is skipped by callers,
/// never fatal to a whole run.
#[derive(Clone, Copy, Debug, PartialEq, Eq, Structural)]
pub enum OpenError {
    /// The path has no extension, so no decompression capability can be chosen.
    NoExtension,
    /// The underlying file could not be opened or read.
    IoFailure,
    /// The contents held no readable first record (or did not decompress).
    EmptyOrUnreadable,
}

/// Why a seek failed: the stream ended before its current key reached the
/// target.
#[derive(Clone, Copy, Debug, PartialEq, Eq, Structural)]
pub enum SeekError {
    ExhaustedBeforeTarget,
}

/// One record: its merge key and its raw, unmodified line bytes.
#[derive(Clone, Debug)]
pub struct Record {
    pub key: KeyValue,
    pub line: Vec<u8>,
}

/// The mathematical form of a record.
#[verifier::ext_equal]
pub struct RecordModel {
    pub key: KeyModel,
    pub line: Seq<u8>,
}

impl View for Record {
    type V = RecordModel;

    open spec fn view(&self) -> RecordModel {
        RecordModel { key: self.key@, line: self.line@ }
    }
}

/// The record a line denotes: its key column parsed as the configured key
/// type, and the line itself. `None` when the column is missing or malformed.
pub open spec fn spec_record_of(line: Seq<u8>, d: u8, ki: int, kt: KeyType) -> Option<RecordModel> {
    match spec_field_at(line, d, ki) {
        Some(fld) => match spec_parse_key(fld, kt) {
            Some(k) => Some(RecordModel { key: k, line }),
            None => None,
        },
        None => None,
    }
}

/// The records of a line sequence: the longest prefix of lines that all parse.
/// A malformed line stops the stream there, as end-of-file would.
pub open spec fn records_of(ls: Seq<Seq<u8>>, d: u8, ki: int, kt: KeyType) -> Seq<RecordModel>
    decreases ls.len(),
{
    if ls.len() == 0 {
        Seq::empty()
    } else {
        match spec_record_of(ls[0], d, ki, kt) {
            Some(r) => seq![r] + records_of(ls.drop_first(), d, ki, kt),
            None => Seq::empty(),
        }
    }
}

pub proof fn lemma_records_of_len(ls: Seq<Seq<u8>>, d: u8, ki: int, kt: KeyType)
    ensures
        records_of(ls, d, ki, kt).len() <= ls.len(),
    decreases ls.len(),
{
    if ls.len() > 0 {
        lemma_records_of_len(ls.drop_first(), d, ki, kt);
    }
}

/// The views of a vector of records.
pub open spec fn record_views(s: Seq<Record>) -> Seq<RecordModel> {
    s.map_values(|r: Record| r@)
}

/// The views of a vector of streams.
pub open spec fn stream_views(s: Seq<MergeFile>) -> Seq<MergeFileModel> {
    s.map_values(|m: MergeFile| m@)
}

// ---------------------------------------------------------------------------
// File extensions and decompression
// ---------------------------------------------------------------------------

/// The largest index at which `b` occurs in `s`, or `-1`.
pub open spec fn find_last(s: Seq<u8>, b: u8) -> int
    decreases s.len(),
{
    if s.len() == 0 {
        -1
    } else if s.last() == b {
        s.len() - 1
    } else {
        find_last(s.drop_last(), b)
    }
}

/// The extension of a file name: what follows the last dot of the final path
/// component, provided that dot is not the component's first byte. A name
/// whose final component has no dot (or only a leading one) has no extension.
pub open spec fn spec_extension_of(name: Seq<u8>) -> Option<Seq<u8>> {
    let comp = name.skip(find_last(name, 47) + 1);
    let p = find_last(comp, 46);
    if p <= 0 {
        None
    } else {
        Some(comp.skip(p + 1))
    }
}

/// Finds the last occurrence of `b` in `s`.
fn rfind_byte(s: &Vec<u8>, b: u8) -> (r: Option<usize>)
    ensures
        match r {
            Some(i) => find_last(s@, b) == i && i < s@.len(),
            None => find_last(s@, b) == -1,
        },
{
    let mut i: usize = s.len();
    proof {
        assert(s@.take(i as int) =~= s@);
    }
    while i > 0
        invariant
            i <= s@.len(),
            find_last(s@, b) == find_last(s@.take(i as int), b),
        decreases i,
    {
        proof {
            assert(s@.take(i as int).last() == s@[i - 1]);
            assert(s@.take(i as int).drop_last() =~= s@.take(i - 1));
        }
        if s[i - 1] == b {
            return Some(i - 1);
        }
        i -= 1;
    }
    proof {
        assert(s@.take(0).len() == 0);
    }
    None
}

/// Copies a byte vector; the copy has the same view.
pub fn clone_bytes(v: &Vec<u8>) -> (r: Vec<u8>)
    ensures
        r@ == v@,
{
    let c = v.clone();
    proof {
        assert(c@ =~= v@);
    }
    c
}

/// Extracts the extension of a file name.
pub fn extension_of(name: &Vec<u8>) -> (r: Option<Vec<u8>>)
    ensures
        match r {
            Some(e) => spec_extension_of(name@) == Some(e@),
            None => spec_extension_of(name@) is None,
        },
{
    let n = name.len();
    let comp_start: usize = match rfind_byte(name, 47) {
        Some(i) => {
            proof {
                assert(i < n);
            }
            i + 1
        },
        None => 0,
    };
    let mut comp: Vec<u8> = Vec::new();
    let mut i: usize = comp_start;
    while i < name.len()
        invariant
            comp_start <= i <= name@.len(),
            comp@ == name@.skip(comp_start as int).take(i - comp_start),
        decreases name@.len() - i,
    {
        proof {
            assert(name@.skip(comp_start as int).take(i - comp_start + 1) =~= name@.skip(
                comp_start as int,
            ).take(i - comp_start).push(name@[i as int]));
        }
        comp.push(name[i]);
        i += 1;
    }
    proof {
        assert(comp@ =~= name@.skip(comp_start as int));
        assert(comp_start as int == find_last(name@, 47) + 1);
    }
    match rfind_byte(&comp, 46) {
        Some(p) => {
            if p == 0 {
                None
            } else {
                let mut ext: Vec<u8> = Vec::new();
                let mut j: usize = p + 1;
                while j < comp.len()
                    invariant
                        p + 1 <= j <= comp@.len(),
                        ext@ == comp@.skip(p + 1).take(j - p - 1),
                    decreases comp@.len() - j,
                {
                    proof {
                        assert(comp@.skip(p + 1).take(j - p) =~= comp@.skip(p + 1).take(
                            j - p - 1,
                        ).push(comp@[j as int]));
                    }
                    ext.push(comp[j]);
                    j += 1;
                }
                proof {
                    assert(ext@ =~= comp@.skip(p + 1));
                }
                Some(ext)
            }
        },
        None => None,
    }
}

/// How a file's bytes are turned into record text, chosen by extension.
#[derive(Clone, Copy, Debug, PartialEq, Eq, Structural)]
pub enum Compression {
    Gzip,
    Bzip2,
    Plain,
}

/// `gz` names gzip, `bz2` names bzip2; any other extension is read as plain
/// bytes.
pub open spec fn spec_compression_of(ext: Seq<u8>) -> Compression {
    if ext =~= seq![103u8, 122u8] {
        Compression::Gzip
    } else if ext =~= seq![98u8, 122u8, 50u8] {
        Compression::Bzip2
    } else {
        Compression::Plain
    }
}

/// Chooses the decompression capability for an extension.
pub fn compression_of(ext: &Vec<u8>) -> (r: Compression)
    ensures
        r == spec_compression_of(ext@),
{
    if ext.len() == 2 && ext[0] == 103 && ext[1] == 122 {
        proof {
            assert(ext@ =~= seq![103u8, 122u8]);
        }
        Compression::Gzip
    } else if ext.len() == 3 && ext[0] == 98 && ext[1] == 122 && ext[2] == 50 {
        proof {
            assert(ext@ =~= seq![98u8, 122u8, 50u8]);
        }
        Compression::Bzip2
    } else {
        proof {
            assert(!(ext@ =~= seq![103u8, 122u8]));
            assert(!(ext@ =~= seq![98u8, 122u8, 50u8]));
        }
        Compression::Plain
    }
}

/// What gzip decompression yields on given bytes; a function of the bytes
/// alone.
pub uninterp spec fn gunzip_of(data: Seq<u8>) -> Seq<u8>;

/// What bzip2 decompression yields on given bytes; a function of the bytes
/// alone.
pub uninterp spec fn bunzip_of(data: Seq<u8>) -> Seq<u8>;

/// Relies on flate2's `read::GzDecoder` over in-memory bytes: when the bytes
/// are a well-formed gzip stream it yields their decompression, which depends
/// on the bytes alone; on malformed bytes it fails.
#[verifier::external_body]
fn gunzip(data: &Vec<u8>) -> (r: Option<Vec<u8>>)
    ensures
        r is Some ==> r->Some_0@ == gunzip_of(data@),
{
    let mut decoder = flate2::read::GzDecoder::new(data.as_slice());
    let mut out: Vec<u8> = Vec::new();
    match std::io::Read::read_to_end(&mut decoder, &mut out) {
        Ok(_) => Some(out),
        Err(_) => None,
    }
}

/// Relies on bzip2's `read::BzDecoder` over in-memory bytes: when the bytes
/// are a well-formed bzip2 stream it yields their decompression, which depends
/// on the bytes alone; on malformed bytes it fails.
#[verifier::external_body]
fn bunzip(data: &Vec<u8>) -> (r: Option<Vec<u8>>)
    ensures
        r is Some ==> r->Some_0@ == bunzip_of(data@),
{
    let mut decoder = bzip2::read::BzDecoder::new(data.as_slice());
    let mut out: Vec<u8> = Vec::new();
    match std::io::Read::read_to_end(&mut decoder, &mut out) {
        Ok(_) => Some(out),
        Err(_) => None,
    }
}

/// The record text a file's raw bytes denote under a decompression choice.
pub open spec fn spec_content_of(c: Compression, raw: Seq<u8>) -> Seq<u8> {
    match c {
        Compression::Gzip => gunzip_of(raw),
        Compression::Bzip2 => bunzip_of(raw),
        Compression::Plain => raw,
    }
}

// ---------------------------------------------------------------------------
// The stream itself
// ---------------------------------------------------------------------------

/// One input file mid-scan.
///
/// Identity is the file path and its on-disk size; configuration is the
/// delimiter byte, the key column and the key type. The scan state is the
/// current record (key and raw line), the first record's key (fixed at
/// construction), and the last record's key (set only when end-of-file is
/// actually reached; until then it keeps the default key given at
/// construction).
#[derive(Debug)]
pub struct MergeFile {
    pub filename: Vec<u8>,
    pub filesize: u64,
    pub delimiter: u8,
    pub key_index: usize,
    pub key_type: KeyType,
    pub line: Vec<u8>,
    pub current_merge_key: KeyValue,
    pub beginning_merge_key: KeyValue,
    pub ending_merge_key: KeyValue,
    /// All records parsed from the contents: the longest well-formed prefix
    /// of the file's lines.
    pub records: Vec<Record>,
    /// How many records have been consumed; at least one once primed.
    pub pos: usize,
    /// Whether parsing stopped early on a malformed line rather than at
    /// end-of-file.
    pub truncated: bool,
}

/// The mathematical form of a stream: all its parsed records, how many have
/// been consumed (`pos`, at least one once primed), and whether parsing
/// stopped early on a malformed line (`truncated`).
#[verifier::ext_equal]
pub struct MergeFileModel {
    pub filename: Seq<u8>,
    pub filesize: u64,
    pub delimiter: u8,
    pub key_index: int,
    pub key_type: KeyType,
    pub line: Seq<u8>,
    pub current_key: KeyModel,
    pub beginning_key: KeyModel,
    pub ending_key: KeyModel,
    pub records: Seq<RecordModel>,
    pub pos: int,
    pub truncated: bool,
}

impl View for MergeFile {
    type V = MergeFileModel;

    open spec fn view(&self) -> MergeFileModel {
        MergeFileModel {
            filename: self.filename@,
            filesize: self.filesize,
            delimiter: self.delimiter,
            key_index: self.key_index as int,
            key_type: self.key_type,
            line: self.line@,
            current_key: self.current_merge_key@,
            beginning_key: self.beginning_merge_key@,
            ending_key: self.ending_merge_key@,
            records: record_views(self.records@),
            pos: self.pos as int,
            truncated: self.truncated,
        }
    }
}

impl MergeFileModel {
    /// A primed stream: at least one record, the cursor within range, and the
    /// named keys and line consistent with the records.
    pub open spec fn wf(self) -> bool {
        &&& 1 <= self.pos <= self.records.len()
        &&& self.current_key == self.records[self.pos - 1].key
        &&& self.line == self.records[self.pos - 1].line
        &&& self.beginning_key == self.records[0].key
    }

    /// The records not yet consumed, the current one first.
    pub open spec fn rest(self) -> Seq<RecordModel> {
        self.records.subrange(self.pos - 1, self.records.len() as int)
    }

    /// The identity and configuration, which no scan step changes.
    pub open spec fn same_source(self, other: MergeFileModel) -> bool {
        &&& self.filename == other.filename
        &&& self.filesize == other.filesize
        &&& self.delimiter == other.delimiter
        &&& self.key_index == other.key_index
        &&& self.key_type == other.key_type
        &&& self.beginning_key == other.beginning_key
        &&& self.records == other.records
        &&& self.truncated == other.truncated
    }
}

// Streams are equal when they are the same source: the same path and the same
// on-disk size. They order by their current merge keys alone.
impl PartialEq for MergeFile {
    fn eq(&self, other: &Self) -> (r: bool) {
        self.filesize == other.filesize && crate::lines::eq_bytes(&self.filename, &other.filename)
    }
}

impl vstd::std_specs::cmp::PartialEqSpecImpl for MergeFile {
    open spec fn obeys_eq_spec() -> bool {
        true
    }

    open spec fn eq_spec(&self, other: &Self) -> bool {
        self.filename@ == other.filename@ && self.filesize == other.filesize
    }
}

impl PartialOrd for MergeFile {
    fn partial_cmp(&self, other: &Self) -> (r: Option<core::cmp::Ordering>) {
        if key_lt(&self.current_merge_key, &other.current_merge_key) {
            Some(core::cmp::Ordering::Less)
        } else if key_lt(&other.current_merge_key, &self.current_merge_key) {
            Some(core::cmp::Ordering::Greater)
        } else {
            Some(core::cmp::Ordering::Equal)
        }
    }
}

impl vstd::std_specs::cmp::PartialOrdSpecImpl for MergeFile {
    open spec fn obeys_partial_cmp_spec() -> bool {
        true
    }

    open spec fn partial_cmp_spec(&self, other: &Self) -> Option<core::cmp::Ordering> {
        if spec_key_lt(self.current_merge_key@, other.current_merge_key@) {
            Some(core::cmp::Ordering::Less)
        } else if spec_key_lt(other.current_merge_key@, self.current_merge_key@) {
            Some(core::cmp::Ordering::Greater)
        } else {
            Some(core::cmp::Ordering::Equal)
        }
    }
}

/// The stream a file yields once its record text is fixed: `None` when no
/// first record can be read.
pub open spec fn stream_model(
    filename: Seq<u8>,
    filesize: u64,
    content: Seq<u8>,
    d: u8,
    ki: int,
    kt: KeyType,
    default: KeyModel,
) -> Option<MergeFileModel> {
    let ls = split_lines(content);
    let recs = records_of(ls, d, ki, kt);
    if recs.len() >= 1 {
        Some(
            MergeFileModel {
                filename,
                filesize,
                delimiter: d,
                key_index: ki,
                key_type: kt,
                line: recs[0].line,
                current_key: recs[0].key,
                beginning_key: recs[0].key,
                ending_key: default,
                records: recs,
                pos: 1,
                truncated: recs.len() < ls.len(),
            },
        )
    } else {
        None
    }
}

impl MergeFile {
    /// Builds a stream over record text already in hand, priming it with its
    /// first record. Fails exactly when no first record parses.
    pub fn from_content(
        filename: Vec<u8>,
        filesize: u64,
        content: &Vec<u8>,
        delimiter: u8,
        key_index: usize,
        default_key: KeyValue,
        key_type: KeyType,
    ) -> (r: Result<MergeFile, OpenError>)
        ensures
            match r {
                Ok(m) => {
                    &&& m@.wf()
                    &&& Some(m@) == stream_model(
                        filename@,
                        filesize,
                        content@,
                        delimiter,
                        key_index as int,
                        key_type,
                        default_key@,
                    )
                },
                Err(e) => {
                    &&& e == OpenError::EmptyOrUnreadable
                    &&& stream_model(
                        filename@,
                        filesize,
                        content@,
                        delimiter,
                        key_index as int,
                        key_type,
                        default_key@,
                    ) is None
                },
            },
    {
        let ghost ls = split_lines(content@);
        let ghost spec_recs = records_of(ls, delimiter, key_index as int, key_type);
        let lines = lines_of(content);
        let mut recs: Vec<Record> = Vec::new();
        let mut i: usize = 0;
        let mut stopped = false;
        proof {
            assert(ls.skip(0) =~= ls);
        }
        while i < lines.len() && !stopped
            invariant
                i <= lines@.len(),
                lines.deep_view() == ls,
                spec_recs == records_of(ls, delimiter, key_index as int, key_type),
                recs@.len() == i || stopped,
                !stopped ==> spec_recs == record_views(recs@) + records_of(
                    ls.skip(i as int),
                    delimiter,
                    key_index as int,
                    key_type,
                ),
                stopped ==> spec_recs == record_views(recs@) && recs@.len() < ls.len(),
            decreases lines@.len() - i + (if stopped {
                0int
            } else {
                1int
            }),
        {
            let ghost tail = ls.skip(i as int);
            proof {
                assert(tail[0] == ls[i as int]);
                assert(tail.drop_first() =~= ls.skip(i + 1));
                assert(lines.deep_view()[i as int] == lines@[i as int].deep_view());
                assert(lines@[i as int]@ =~= lines@[i as int].deep_view());
            }
            let line_ref = &lines[i];
            proof {
                assert(line_ref@ == ls[i as int]);
            }
            let key_opt = match crate::lines::field_at(line_ref, delimiter, key_index) {
                Some(fld) => parse_key(&fld, key_type),
                None => None,
            };
            match key_opt {
                Some(k) => {
                    let rec = Record { key: k, line: clone_bytes(line_ref) };
                    proof {
                        assert(rec@ == spec_record_of(
                            tail[0],
                            delimiter,
                            key_index as int,
                            key_type,
                        )->Some_0);
                        let ghost prev = record_views(recs@);
                        assert(record_views(recs@.push(rec)) =~= prev.push(rec@));
                        assert(seq![rec@] + records_of(
                            ls.skip(i + 1),
                            delimiter,
                            key_index as int,
                            key_type,
                        ) =~= prev.push(rec@).skip(prev.len() as int) + records_of(
                            ls.skip(i + 1),
                            delimiter,
                            key_index as int,
                            key_type,
                        ));
                        assert(prev + (seq![rec@] + records_of(
                            ls.skip(i + 1),
                            delimiter,
                            key_index as int,
                            key_type,
                        )) =~= prev.push(rec@) + records_of(
                            ls.skip(i + 1),
                            delimiter,
                            key_index as int,
                            key_type,
                        ));
                    }
                    recs.push(rec);
                },
                None => {
                    proof {
                        assert(spec_record_of(tail[0], delimiter, key_index as int, key_type)
                            is None);
                        assert(records_of(tail, delimiter, key_index as int, key_type)
                            =~= Seq::<RecordModel>::empty());
                        assert(record_views(recs@) + Seq::<RecordModel>::empty() =~= record_views(
                            recs@,
                        ));
                        crate::merge_file::lemma_records_of_len(
                            ls,
                            delimiter,
                            key_index as int,
                            key_type,
                        );
                    }
                    stopped = true;
                },
            }
            if !stopped {
                i += 1;
            }
        }
        proof {
            if !stopped {
                assert(ls.skip(i as int).len() == 0);
                assert(records_of(ls.skip(i as int), delimiter, key_index as int, key_type)
                    =~= Seq::<RecordModel>::empty());
                assert(spec_recs =~= record_views(recs@));
            }
            assert(spec_recs.len() == recs@.len());
            assert(recs@.len() < ls.len() <==> (stopped || recs@.len() < ls.len()));
        }
        if recs.len() == 0 {
            return Err(OpenError::EmptyOrUnreadable);
        }
        let truncated = recs.len() < lines.len();
        let first_key = key_clone(&recs[0].key);
        let first_line = clone_bytes(&recs[0].line);
        let begin_key = key_clone(&recs[0].key);
        proof {
            assert(record_views(recs@)[0] == recs@[0]@);
        }
        let m = MergeFile {
            filename,
            filesize,
            delimiter,
            key_index,
            key_type,
            line: first_line,
            current_merge_key: first_key,
            beginning_merge_key: begin_key,
            ending_merge_key: default_key,
            records: recs,
            pos: 1,
            truncated,
        };
        proof {
            let sm = stream_model(
                m.filename@,
                filesize,
                content@,
                delimiter,
                key_index as int,
                key_type,
                m.ending_merge_key@,
            );
            assert(sm is Some);
            assert(m@ =~= sm->Some_0);
        }
        Ok(m)
    }

    /// Opens a stream over a file's raw bytes: resolves the extension to a
    /// decompression capability, decompresses, and primes the stream. The
    /// recorded size is the raw (on-disk) byte count.
    pub fn new(
        filename: Vec<u8>,
        raw: &Vec<u8>,
        delimiter: u8,
        key_index: usize,
        default_key: KeyValue,
        key_type: KeyType,
    ) -> (r: Result<MergeFile, OpenError>)
        requires
            raw@.len() <= u64::MAX,
        ensures
            ({
                let ext = spec_extension_of(filename@);
                let model = if ext is Some {
                    stream_model(
                        filename@,
                        raw@.len() as u64,
                        spec_content_of(spec_compression_of(ext->Some_0), raw@),
                        delimiter,
                        key_index as int,
                        key_type,
                        default_key@,
                    )
                } else {
                    None::<MergeFileModel>
                };
                match r {
                    Ok(m) => {
                        &&& ext is Some
                        &&& m@.wf()
                        &&& Some(m@) == model
                    },
                    Err(OpenError::NoExtension) => ext is None,
                    Err(OpenError::EmptyOrUnreadable) => {
                        &&& ext is Some
                        &&& (spec_compression_of(ext->Some_0) == Compression::Plain ==> model
                            is None)
                    },
                    Err(OpenError::IoFailure) => false,
                }
            }),
    {
        let ext = match extension_of(&filename) {
            Some(e) => e,
            None => {
                return Err(OpenError::NoExtension);
            },
        };
        let filesize = raw.len() as u64;
        match compression_of(&ext) {
            Compression::Gzip => match gunzip(raw) {
                Some(content) => MergeFile::from_content(
                    filename,
                    filesize,
                    &content,
                    delimiter,
                    key_index,
                    default_key,
                    key_type,
                ),
                None => Err(OpenError::EmptyOrUnreadable),
            },
            Compression::Bzip2 => match bunzip(raw) {
                Some(content) => MergeFile::from_content(
                    filename,
                    filesize,
                    &content,
                    delimiter,
                    key_index,
                    default_key,
                    key_type,
                ),
                None => Err(OpenError::EmptyOrUnreadable),
            },
            Compression::Plain => MergeFile::from_content(
                filename,
                filesize,
                raw,
                delimiter,
                key_index,
                default_key,
                key_type,
            ),
        }
    }

    /// Advances to the next record and returns its key; `None` at end-of-file
    /// (which fixes `ending_merge_key`) or after a malformed line (which does
    /// not).
    pub fn next(&mut self) -> (r: Option<KeyValue>)
        requires
            old(self)@.wf(),
        ensures
            final(self)@.wf(),
            final(self)@.same_source(old(self)@),
            ({
                let o = old(self)@;
                let n = final(self)@;
                if o.pos < o.records.len() {
                    &&& r is Some
                    &&& r->Some_0@ == o.records[o.pos].key
                    &&& n.pos == o.pos + 1
                    &&& n.current_key == o.records[o.pos].key
                    &&& n.line == o.records[o.pos].line
                    &&& n.ending_key == o.ending_key
                } else {
                    &&& r is None
                    &&& n.pos == o.pos
                    &&& n.current_key == o.current_key
                    &&& n.line == o.line
                    &&& n.ending_key == (if o.truncated {
                        o.ending_key
                    } else {
                        o.current_key
                    })
                }
            }),
    {
        if self.pos < self.records.len() {
            let rec = &self.records[self.pos];
            let k = key_clone(&rec.key);
            let l = clone_bytes(&rec.line);
            proof {
                assert(record_views(self.records@)[self.pos as int] == self.records@[self.pos as int]@);
            }
            self.current_merge_key = k;
            self.line = l;
            self.pos = self.pos + 1;
            let out = key_clone(&self.current_merge_key);
            Some(out)
        } else {
            if !self.truncated {
                self.ending_merge_key = key_clone(&self.current_merge_key);
            }
            None
        }
    }

    /// Advances while the current key is below `target`. `Ok` once the current
    /// key is at or past the target; the records passed over were all below
    /// it. `Err` when the stream ran out first: then every record from the old
    /// cursor on was below the target.
    pub fn fast_forward(&mut self, target: &KeyValue) -> (r: Result<(), SeekError>)
        requires
            old(self)@.wf(),
        ensures
            final(self)@.wf(),
            final(self)@.same_source(old(self)@),
            final(self)@.pos >= old(self)@.pos,
            forall|j: int|
                old(self)@.pos - 1 <= j < final(self)@.pos - 1 ==> spec_key_lt(
                    #[trigger] old(self)@.records[j].key,
                    target@,
                ),
            match r {
                Ok(()) => {
                    &&& spec_key_le(target@, final(self)@.current_key)
                    &&& final(self)@.ending_key == old(self)@.ending_key
                },
                Err(SeekError::ExhaustedBeforeTarget) => {
                    &&& final(self)@.pos == final(self)@.records.len()
                    &&& spec_key_lt(final(self)@.current_key, target@)
                    &&& forall|j: int|
                        old(self)@.pos - 1 <= j < final(self)@.records.len() ==> spec_key_lt(
                            #[trigger] old(self)@.records[j].key,
                            target@,
                        )
                    &&& final(self)@.ending_key == (if old(self)@.truncated {
                        old(self)@.ending_key
                    } else {
                        final(self)@.records.last().key
                    })
                },
            },
    {
        loop
            invariant
                self@.wf(),
                self@.same_source(old(self)@),
                self@.pos >= old(self)@.pos,
                self@.ending_key == old(self)@.ending_key,
                forall|j: int|
                    old(self)@.pos - 1 <= j < self@.pos - 1 ==> spec_key_lt(
                        #[trigger] old(self)@.records[j].key,
                        target@,
                    ),
            decreases self@.records.len() - self@.pos,
        {
            if !key_lt(&self.current_merge_key, target) {
                proof {
                    crate::keys::lemma_key_le_total(target@, self@.current_key);
                }
                return Ok(());
            }
            let ghost before = self@;
            let stepped = self.next();
            match stepped {
                Some(_) => {
                    proof {
                        assert(before.records[before.pos - 1].key == before.current_key);
                    }
                },
                None => {
                    proof {
                        assert(before.pos == before.records.len());
                        assert(before.records[before.pos - 1].key == before.current_key);
                    }
                    return Err(SeekError::ExhaustedBeforeTarget);
                },
            }
        }
    }

    /// Drains the stream purely to finalize `ending_merge_key`; emits nothing.
    pub fn fast_forward_to_end(&mut self)
        requires
            old(self)@.wf(),
        ensures
            final(self)@.wf(),
            final(self)@.same_source(old(self)@),
            final(self)@.pos == final(self)@.records.len(),
            final(self)@.current_key == final(self)@.records.last().key,
            final(self)@.line == final(self)@.records.last().line,
            final(self)@.ending_key == (if old(self)@.truncated {
                old(self)@.ending_key
            } else {
                final(self)@.records.last().key
            }),
    {
        loop
            invariant
                self@.wf(),
                self@.same_source(old(self)@),
                self@.ending_key == old(self)@.ending_key,
            decreases self@.records.len() - self@.pos + 1,
        {
            let ghost before = self@;
            match self.next() {
                Some(_) => {},
                None => {
                    return ;
                },
            }
            proof {
                assert(self@.pos == before.pos + 1);
            }
        }
    }
}

} // verus!
