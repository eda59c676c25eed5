//! Building working sets — from resolved glob paths or from a loaded
//! manifest — and turning a working set back into a manifest.

use vstd::prelude::*;
use vstd::multiset::Multiset;

use crate::keys::{
    key_clone, key_lt, key_text, lemma_key_le_total, lemma_key_le_transitive, spec_key_le,
    spec_key_lt, spec_key_text, KeyModel, KeyValue,
};
use crate::manifest::{
    append_bytes, format_manifest_line, spec_format_manifest_line, ManifestEntry,
    ManifestEntryModel,
};
use crate::merge_file::{
    clone_bytes, spec_compression_of, spec_content_of, spec_extension_of, stream_model,
    stream_views, Compression, MergeFile, MergeFileModel, OpenError, RecordModel,
};
use crate::settings::KeyType;
use crate::working_set::{contains_current, spec_insert, WorkingSet};

verus! {

broadcast use vstd::seq_lib::group_to_multiset_ensures;

/// The stream manager: building working sets, seeking, merging and manifest
/// writing are its associated functions.
pub struct MergeFileManager;

/// One file as resolved from a glob: its path and its raw on-disk bytes.
pub struct RawFile {
    pub filename: Vec<u8>,
    pub raw: Vec<u8>,
}

/// The mathematical form of a resolved file.
#[verifier::ext_equal]
pub struct RawFileModel {
    pub filename: Seq<u8>,
    pub raw: Seq<u8>,
}

impl View for RawFile {
    type V = RawFileModel;

    open spec fn view(&self) -> RawFileModel {
        RawFileModel { filename: self.filename@, raw: self.raw@ }
    }
}

pub open spec fn raw_views(s: Seq<RawFile>) -> Seq<RawFileModel> {
    s.map_values(|f: RawFile| f@)
}

/// One manifest record together with what disk shows now: the file's current
/// size and its raw bytes.
pub struct CacheInput {
    pub entry: ManifestEntry,
    pub current_size: u64,
    pub raw: Vec<u8>,
}

/// The mathematical form of a manifest record under revalidation.
#[verifier::ext_equal]
pub struct CacheInputModel {
    pub entry: ManifestEntryModel,
    pub current_size: u64,
    pub raw: Seq<u8>,
}

impl View for CacheInput {
    type V = CacheInputModel;

    open spec fn view(&self) -> CacheInputModel {
        CacheInputModel { entry: self.entry@, current_size: self.current_size, raw: self.raw@ }
    }
}

pub open spec fn cache_input_views(s: Seq<CacheInput>) -> Seq<CacheInputModel> {
    s.map_values(|c: CacheInput| c@)
}

/// The stream a file opens to: extension chosen, bytes decompressed, records
/// parsed and primed. `None` when the name has no extension or no first
/// record parses.
pub open spec fn spec_open(
    filename: Seq<u8>,
    raw: Seq<u8>,
    d: u8,
    ki: int,
    kt: KeyType,
    default: KeyModel,
) -> Option<MergeFileModel> {
    match spec_extension_of(filename) {
        Some(ext) => stream_model(
            filename,
            raw.len() as u64,
            spec_content_of(spec_compression_of(ext), raw),
            d,
            ki,
            kt,
            default,
        ),
        None => None,
    }
}

/// Whether opening this name involves no decompressor that could fail.
pub open spec fn plain_open(filename: Seq<u8>) -> bool {
    match spec_extension_of(filename) {
        Some(ext) => spec_compression_of(ext) == Compression::Plain,
        None => true,
    }
}

/// How a working set grows over resolved files, one at a time: a file whose
/// path and size are already current is skipped (the cache-hit rule); a fresh
/// open is inserted, replacing any earlier entry for the path; a file that
/// fails to open is skipped. A compressed file may also fail at the
/// decompressor and be skipped, which is the one point left open.
pub open spec fn glob_admission(
    pre: Seq<MergeFileModel>,
    ins: Seq<RawFileModel>,
    d: u8,
    ki: int,
    kt: KeyType,
    default: KeyModel,
    post: Seq<MergeFileModel>,
) -> bool
    decreases ins.len(),
{
    if ins.len() == 0 {
        post == pre
    } else {
        let f = ins[0];
        let rest = ins.drop_first();
        if contains_current(pre, f.filename, f.raw.len() as u64) {
            glob_admission(pre, rest, d, ki, kt, default, post)
        } else {
            match spec_open(f.filename, f.raw, d, ki, kt, default) {
                Some(m) => glob_admission(spec_insert(pre, m), rest, d, ki, kt, default, post) || (
                !plain_open(f.filename) && glob_admission(pre, rest, d, ki, kt, default, post)),
                None => glob_admission(pre, rest, d, ki, kt, default, post),
            }
        }
    }
}

/// How a working set grows over revalidated manifest records: a record whose
/// file is already in the set at the recorded size is taken as still valid
/// and skipped; a record whose recorded size differs from the file's current
/// size is stale and skipped; otherwise the file is opened fresh (with the
/// record's own delimiter and key column) and inserted, a failed open being
/// skipped as for globs.
pub open spec fn cache_admission(
    pre: Seq<MergeFileModel>,
    ins: Seq<CacheInputModel>,
    kt: KeyType,
    default: KeyModel,
    post: Seq<MergeFileModel>,
) -> bool
    decreases ins.len(),
{
    if ins.len() == 0 {
        post == pre
    } else {
        let c = ins[0];
        let rest = ins.drop_first();
        if contains_current(pre, c.entry.filename, c.entry.filesize) {
            cache_admission(pre, rest, kt, default, post)
        } else if c.current_size != c.entry.filesize {
            cache_admission(pre, rest, kt, default, post)
        } else {
            match spec_open(
                c.entry.filename,
                c.raw,
                c.entry.delimiter,
                c.entry.key_index,
                kt,
                default,
            ) {
                Some(m) => cache_admission(spec_insert(pre, m), rest, kt, default, post) || (
                !plain_open(c.entry.filename) && cache_admission(pre, rest, kt, default, post)),
                None => cache_admission(pre, rest, kt, default, post),
            }
        }
    }
}

impl MergeFileManager {
    /// Releases a working set's streams as a vector, in the set's order.
    pub fn cache_to_vec(cache: WorkingSet) -> (r: Vec<MergeFile>)
        ensures
            stream_views(r@) == cache@,
    {
        cache.into_vec()
    }

    /// Grows the working set from files a glob resolved to, under the
    /// cache-hit, replacement and skip-on-failure rules.
    pub fn retrieve_from_glob(
        cache: WorkingSet,
        resolved: Vec<RawFile>,
        delimiter: u8,
        key_index: usize,
        default_key: KeyValue,
        key_type: KeyType,
    ) -> (r: WorkingSet)
        requires
            cache.wf(),
            forall|k: int| 0 <= k < resolved@.len() ==> (#[trigger] resolved@[k]).raw@.len()
                <= u64::MAX,
        ensures
            r.wf(),
            glob_admission(
                cache@,
                raw_views(resolved@),
                delimiter,
                key_index as int,
                key_type,
                default_key@,
                r@,
            ),
    {
        let ghost pre0 = cache@;
        let ghost ins0 = raw_views(resolved@);
        let mut cur = cache;
        let mut rest = resolved;
        proof {
            assert(raw_views(rest@) == ins0);
        }
        while rest.len() > 0
            invariant
                cur.wf(),
                forall|k: int| 0 <= k < rest@.len() ==> (#[trigger] rest@[k]).raw@.len()
                    <= u64::MAX,
                forall|post: Seq<MergeFileModel>|
                    glob_admission(
                        cur@,
                        raw_views(rest@),
                        delimiter,
                        key_index as int,
                        key_type,
                        default_key@,
                        post,
                    ) ==> #[trigger] glob_admission(
                        pre0,
                        ins0,
                        delimiter,
                        key_index as int,
                        key_type,
                        default_key@,
                        post,
                    ),
            decreases rest@.len(),
        {
            let ghost pre_set = cur@;
            let ghost pre_ins = raw_views(rest@);
            let f = rest.remove(0);
            let ghost fv = f@;
            proof {
                assert(pre_ins[0] == fv);
                assert(raw_views(rest@) =~= pre_ins.drop_first());
            }
            let size = f.raw.len() as u64;
            if !cur.is_current(&f.filename, size) {
                match MergeFile::new(
                    f.filename,
                    &f.raw,
                    delimiter,
                    key_index,
                    key_clone(&default_key),
                    key_type,
                ) {
                    Ok(m) => {
                        proof {
                            assert(Some(m@) == spec_open(
                                fv.filename,
                                fv.raw,
                                delimiter,
                                key_index as int,
                                key_type,
                                default_key@,
                            ));
                        }
                        cur.insert(m);
                    },
                    Err(e) => {
                        proof {
                            let so = spec_open(
                                fv.filename,
                                fv.raw,
                                delimiter,
                                key_index as int,
                                key_type,
                                default_key@,
                            );
                            if so is Some {
                                assert(e != OpenError::NoExtension);
                                assert(e == OpenError::EmptyOrUnreadable);
                                assert(!plain_open(fv.filename));
                            }
                        }
                    },
                }
            }
            proof {
                assert forall|post: Seq<MergeFileModel>|
                    glob_admission(
                        cur@,
                        raw_views(rest@),
                        delimiter,
                        key_index as int,
                        key_type,
                        default_key@,
                        post,
                    ) implies #[trigger] glob_admission(
                    pre0,
                    ins0,
                    delimiter,
                    key_index as int,
                    key_type,
                    default_key@,
                    post,
                ) by {
                    assert(glob_admission(
                        pre_set,
                        pre_ins,
                        delimiter,
                        key_index as int,
                        key_type,
                        default_key@,
                        post,
                    ));
                }
            }
        }
        proof {
            assert(raw_views(rest@).len() == 0);
            assert(glob_admission(
                cur@,
                raw_views(rest@),
                delimiter,
                key_index as int,
                key_type,
                default_key@,
                cur@,
            ));
        }
        cur
    }

    /// Grows the working set from revalidated manifest records, under the
    /// already-current, staleness and skip-on-failure rules. A record is used
    /// exactly when its recorded size matches the file's current size (and no
    /// current entry already covers it); a stale record is discarded.
    pub fn retrieve_from_cache(
        cache: WorkingSet,
        entries: Vec<CacheInput>,
        default_key: KeyValue,
        key_type: KeyType,
    ) -> (r: WorkingSet)
        requires
            cache.wf(),
            forall|k: int| 0 <= k < entries@.len() ==> (#[trigger] entries@[k]).raw@.len()
                <= u64::MAX,
        ensures
            r.wf(),
            cache_admission(cache@, cache_input_views(entries@), key_type, default_key@, r@),
    {
        let ghost pre0 = cache@;
        let ghost ins0 = cache_input_views(entries@);
        let mut cur = cache;
        let mut rest = entries;
        proof {
            assert(cache_input_views(rest@) == ins0);
        }
        while rest.len() > 0
            invariant
                cur.wf(),
                forall|k: int| 0 <= k < rest@.len() ==> (#[trigger] rest@[k]).raw@.len()
                    <= u64::MAX,
                forall|post: Seq<MergeFileModel>|
                    cache_admission(
                        cur@,
                        cache_input_views(rest@),
                        key_type,
                        default_key@,
                        post,
                    ) ==> #[trigger] cache_admission(pre0, ins0, key_type, default_key@, post),
            decreases rest@.len(),
        {
            let ghost pre_set = cur@;
            let ghost pre_ins = cache_input_views(rest@);
            let c = rest.remove(0);
            let ghost cv = c@;
            proof {
                assert(pre_ins[0] == cv);
                assert(cache_input_views(rest@) =~= pre_ins.drop_first());
            }
            let hit = cur.is_current(&c.entry.filename, c.entry.filesize);
            if !hit && c.current_size == c.entry.filesize {
                match MergeFile::new(
                    c.entry.filename,
                    &c.raw,
                    c.entry.delimiter,
                    c.entry.key_index,
                    key_clone(&default_key),
                    key_type,
                ) {
                    Ok(m) => {
                        proof {
                            assert(Some(m@) == spec_open(
                                cv.entry.filename,
                                cv.raw,
                                cv.entry.delimiter,
                                cv.entry.key_index,
                                key_type,
                                default_key@,
                            ));
                        }
                        cur.insert(m);
                    },
                    Err(e) => {
                        proof {
                            let so = spec_open(
                                cv.entry.filename,
                                cv.raw,
                                cv.entry.delimiter,
                                cv.entry.key_index,
                                key_type,
                                default_key@,
                            );
                            if so is Some {
                                assert(e != OpenError::NoExtension);
                                assert(e == OpenError::EmptyOrUnreadable);
                                assert(!plain_open(cv.entry.filename));
                            }
                        }
                    },
                }
            }
            proof {
                assert forall|post: Seq<MergeFileModel>|
                    cache_admission(
                        cur@,
                        cache_input_views(rest@),
                        key_type,
                        default_key@,
                        post,
                    ) implies #[trigger] cache_admission(pre0, ins0, key_type, default_key@, post) by {
                    assert(cache_admission(pre_set, pre_ins, key_type, default_key@, post));
                }
            }
        }
        proof {
            assert(cache_input_views(rest@).len() == 0);
            assert(cache_admission(cur@, cache_input_views(rest@), key_type, default_key@, cur@));
        }
        cur
    }

    /// Seeks every stream to the start key; a stream that runs out before
    /// reaching it contributes nothing to the window and is dropped from the
    /// set entirely.
    pub fn fast_forward_cache(cache: WorkingSet, merge_start: &KeyValue) -> (r: WorkingSet)
        requires
            cache.wf(),
        ensures
            r.wf(),
            r@ == spec_seek_all(cache@, merge_start@),
    {
        let ghost ss0 = cache@;
        let ghost t = merge_start@;
        let mut files = cache.into_vec();
        let mut out: Vec<MergeFile> = Vec::new();
        proof {
            assert(stream_views(out@) =~= Seq::<MergeFileModel>::empty());
            assert(stream_views(out@) + spec_seek_all(stream_views(files@), t) =~= spec_seek_all(
                ss0,
                t,
            ));
            assert forall|k: int| 0 <= k < files@.len() implies (#[trigger] files@[k]@).wf() by {
                assert(stream_views(files@)[k] == files@[k]@);
                assert(ss0[k].wf());
            }
        }
        while files.len() > 0
            invariant
                t == merge_start@,
                forall|k: int| 0 <= k < files@.len() ==> (#[trigger] files@[k]@).wf(),
                spec_seek_all(ss0, t) == stream_views(out@) + spec_seek_all(
                    stream_views(files@),
                    t,
                ),
            decreases files@.len(),
        {
            let ghost pre = stream_views(files@);
            let mut f = files.remove(0);
            let ghost fv = f@;
            proof {
                assert(pre[0] == fv);
                assert(stream_views(files@) =~= pre.drop_first());
                lemma_scan_from_bounds(fv.rest(), t);
                assert(forall|j: int|
                    0 <= j < fv.rest().len() ==> #[trigger] fv.rest()[j] == fv.records[fv.pos - 1
                        + j]);
            }
            match f.fast_forward(merge_start) {
                Ok(()) => {
                    proof {
                        let off = scan_from(fv.rest(), t);
                        let eoff = f@.pos - fv.pos;
                        assert(0 <= eoff <= fv.rest().len() - 1);
                        assert(off == eoff) by {
                            if off < eoff {
                                assert(spec_key_lt(fv.records[fv.pos - 1 + off].key, t));
                                assert(spec_key_le(t, fv.rest()[off].key));
                            } else if off > eoff {
                                assert(spec_key_lt(fv.rest()[eoff].key, t));
                                assert(spec_key_le(t, f@.current_key));
                                assert(f@.current_key == f@.records[f@.pos - 1].key);
                            }
                        }
                        assert(seek_stream(fv, t) == Some(f@)) by {
                            assert(f@ =~= seek_stream(fv, t)->Some_0);
                        }
                        assert(spec_seek_all(pre, t) =~= seq![f@] + spec_seek_all(
                            pre.drop_first(),
                            t,
                        ));
                        let ghost prev_out = stream_views(out@);
                        assert(stream_views(out@.push(f)) =~= prev_out.push(f@));
                        assert(prev_out + (seq![f@] + spec_seek_all(pre.drop_first(), t))
                            =~= prev_out.push(f@) + spec_seek_all(pre.drop_first(), t));
                    }
                    out.push(f);
                },
                Err(_) => {
                    proof {
                        let off = scan_from(fv.rest(), t);
                        assert(off == fv.rest().len()) by {
                            if off < fv.rest().len() {
                                assert(spec_key_le(t, fv.rest()[off].key));
                                assert(spec_key_lt(fv.records[fv.pos - 1 + off].key, t));
                            }
                        }
                        assert(seek_stream(fv, t) is None);
                        assert(spec_seek_all(pre, t) =~= spec_seek_all(pre.drop_first(), t));
                    }
                },
            }
        }
        proof {
            assert(stream_views(files@).len() == 0);
            assert(spec_seek_all(stream_views(files@), t) =~= Seq::<MergeFileModel>::empty());
            assert(stream_views(out@) =~= spec_seek_all(ss0, t));
        }
        let r = WorkingSet { files: out };
        proof {
            lemma_seek_all_unique(ss0, t);
            assert(r@ == spec_seek_all(ss0, t));
        }
        r
    }

    /// Renders the working set as manifest text: every stream is drained to
    /// finalize its ending key, the streams are ordered by their (now final)
    /// current keys, and each is written as one line.
    pub fn write_cache(cache: WorkingSet) -> (r: Vec<u8>)
        requires
            cache.wf(),
        ensures
            exists|ss: Seq<MergeFileModel>|
                {
                    &&& ss.to_multiset() == cache@.map_values(
                        |m: MergeFileModel| drain_stream(m),
                    ).to_multiset()
                    &&& sorted_streams(ss)
                    &&& r@ == manifest_content_of(ss)
                },
    {
        let ghost ss0 = cache@;
        let ghost goal = ss0.map_values(|m: MergeFileModel| drain_stream(m));
        let mut files = cache.into_vec();
        let mut drained: Vec<MergeFile> = Vec::new();
        proof {
            assert(stream_views(drained@) =~= Seq::<MergeFileModel>::empty());
            assert(stream_views(files@).map_values(|m: MergeFileModel| drain_stream(m)) =~= goal);
            assert(stream_views(drained@) + stream_views(files@).map_values(
                |m: MergeFileModel| drain_stream(m),
            ) =~= goal);
            assert forall|k: int| 0 <= k < files@.len() implies (#[trigger] files@[k]@).wf() by {
                assert(stream_views(files@)[k] == files@[k]@);
                assert(ss0[k].wf());
            }
        }
        while files.len() > 0
            invariant
                goal == ss0.map_values(|m: MergeFileModel| drain_stream(m)),
                forall|k: int| 0 <= k < files@.len() ==> (#[trigger] files@[k]@).wf(),
                stream_views(drained@) + stream_views(files@).map_values(
                    |m: MergeFileModel| drain_stream(m),
                ) == goal,
            decreases files@.len(),
        {
            let ghost pre = stream_views(files@);
            let mut f = files.remove(0);
            let ghost fv = f@;
            proof {
                assert(pre[0] == fv);
                assert(stream_views(files@) =~= pre.drop_first());
            }
            f.fast_forward_to_end();
            proof {
                assert(f@ =~= drain_stream(fv));
                let ghost prev = stream_views(drained@);
                assert(stream_views(drained@.push(f)) =~= prev.push(f@));
                assert(pre.map_values(|m: MergeFileModel| drain_stream(m)) =~= seq![drain_stream(
                    fv,
                )] + pre.drop_first().map_values(|m: MergeFileModel| drain_stream(m)));
                assert(prev + (seq![f@] + pre.drop_first().map_values(
                    |m: MergeFileModel| drain_stream(m),
                )) =~= prev.push(f@) + pre.drop_first().map_values(
                    |m: MergeFileModel| drain_stream(m),
                ));
            }
            drained.push(f);
        }
        proof {
            assert(stream_views(files@).map_values(|m: MergeFileModel| drain_stream(m)).len()
                == 0);
            assert(stream_views(drained@) =~= goal);
        }
        let sorted = sort_streams(drained);
        let ghost sv = stream_views(sorted@);
        let n = sorted.len();
        let mut out: Vec<u8> = Vec::new();
        let mut i: usize = 0;
        proof {
            assert(sv.take(0) =~= Seq::<MergeFileModel>::empty());
            assert(out@ =~= manifest_content_of(sv.take(0)));
        }
        while i < n
            invariant
                n == sv.len(),
                i <= n,
                sv == stream_views(sorted@),
                out@ == manifest_content_of(sv.take(i as int)),
            decreases n - i,
        {
            proof {
                assert(sv[i as int] == sorted@[i as int]@);
            }
            let f = &sorted[i];
            let entry = ManifestEntry {
                filename: clone_bytes(&f.filename),
                beginning_key: key_text(&f.beginning_merge_key),
                ending_key: key_text(&f.ending_merge_key),
                delimiter: f.delimiter,
                key_index: f.key_index,
                filesize: f.filesize,
            };
            proof {
                assert(entry@ =~= manifest_entry_of(sv[i as int]));
            }
            let line = format_manifest_line(&entry);
            append_bytes(&mut out, &line);
            out.push(10);
            proof {
                lemma_manifest_content_snoc(sv, i as int);
                assert(out@ =~= manifest_content_of(sv.take(i + 1)));
            }
            i += 1;
        }
        proof {
            assert(sv.take(n as int) =~= sv);
            assert(sv.to_multiset() == goal.to_multiset());
            assert(sorted_streams(sv));
            assert(out@ == manifest_content_of(sv));
        }
        out
    }
}

/// The offset, among a stream's unconsumed records, of the first whose key is
/// at or past the target — the records' length when none is.
pub open spec fn scan_from(rs: Seq<RecordModel>, t: KeyModel) -> int
    decreases rs.len(),
{
    if rs.len() == 0 {
        0
    } else if spec_key_le(t, rs[0].key) {
        0
    } else {
        1 + scan_from(rs.drop_first(), t)
    }
}

pub proof fn lemma_scan_from_bounds(rs: Seq<RecordModel>, t: KeyModel)
    ensures
        0 <= scan_from(rs, t) <= rs.len(),
        forall|j: int| 0 <= j < scan_from(rs, t) ==> spec_key_lt((#[trigger] rs[j]).key, t),
        scan_from(rs, t) < rs.len() ==> spec_key_le(t, rs[scan_from(rs, t)].key),
    decreases rs.len(),
{
    if rs.len() > 0 && !spec_key_le(t, rs[0].key) {
        lemma_scan_from_bounds(rs.drop_first(), t);
        assert(forall|j: int|
            1 <= j < rs.len() ==> (#[trigger] rs[j]).key == rs.drop_first()[j - 1].key);
    }
}

/// Where a seek leaves one stream: at the first unconsumed record at or past
/// the target, or nowhere (the stream is dropped) when it runs out first.
pub open spec fn seek_stream(m: MergeFileModel, t: KeyModel) -> Option<MergeFileModel> {
    let off = scan_from(m.rest(), t);
    if off < m.rest().len() {
        Some(
            MergeFileModel {
                pos: m.pos + off,
                current_key: m.records[m.pos + off - 1].key,
                line: m.records[m.pos + off - 1].line,
                ..m
            },
        )
    } else {
        None
    }
}

/// Where a seek leaves a whole set: each stream sought, the exhausted ones
/// dropped, order kept.
pub open spec fn spec_seek_all(ss: Seq<MergeFileModel>, t: KeyModel) -> Seq<MergeFileModel>
    decreases ss.len(),
{
    if ss.len() == 0 {
        Seq::empty()
    } else {
        match seek_stream(ss[0], t) {
            Some(m) => seq![m] + spec_seek_all(ss.drop_first(), t),
            None => spec_seek_all(ss.drop_first(), t),
        }
    }
}

/// Seeking keeps streams well formed, keeps paths unique, and introduces no
/// path that was not in the set.
proof fn lemma_seek_all_unique(ss: Seq<MergeFileModel>, t: KeyModel)
    requires
        forall|k: int| 0 <= k < ss.len() ==> (#[trigger] ss[k]).wf(),
        forall|i: int, j: int|
            0 <= i < j < ss.len() ==> (#[trigger] ss[i]).filename != (#[trigger] ss[j]).filename,
    ensures
        forall|k: int|
            0 <= k < spec_seek_all(ss, t).len() ==> (#[trigger] spec_seek_all(ss, t)[k]).wf(),
        forall|i: int, j: int|
            0 <= i < j < spec_seek_all(ss, t).len() ==> (#[trigger] spec_seek_all(
                ss,
                t,
            )[i]).filename != (#[trigger] spec_seek_all(ss, t)[j]).filename,
        forall|k: int|
            0 <= k < spec_seek_all(ss, t).len() ==> crate::working_set::has_filename(
                ss,
                (#[trigger] spec_seek_all(ss, t)[k]).filename,
            ),
    decreases ss.len(),
{
    if ss.len() > 0 {
        let rest = ss.drop_first();
        lemma_seek_all_unique(rest, t);
        assert(forall|j: int| 0 <= j < rest.len() ==> #[trigger] rest[j] == ss[j + 1]);
        let r = spec_seek_all(ss, t);
        let rr = spec_seek_all(rest, t);
        assert forall|k: int|
            0 <= k < rr.len() implies crate::working_set::has_filename(
            ss,
            (#[trigger] rr[k]).filename,
        ) by {
            let k2 = choose|k2: int| 0 <= k2 < rest.len() && rest[k2].filename == rr[k].filename;
            assert(ss[k2 + 1].filename == rr[k].filename);
        }
        match seek_stream(ss[0], t) {
            Some(m) => {
                lemma_scan_from_bounds(ss[0].rest(), t);
                assert(m.wf());
                assert(m.filename == ss[0].filename);
                assert(r =~= seq![m] + rr);
                assert forall|i: int, j: int|
                    0 <= i < j < r.len() implies (#[trigger] r[i]).filename != (
                #[trigger] r[j]).filename by {
                    if i == 0 {
                        let k2 = choose|k2: int|
                            0 <= k2 < rest.len() && rest[k2].filename == rr[j - 1].filename;
                        assert(ss[k2 + 1].filename != ss[0].filename);
                    }
                }
            },
            None => {
                assert(r =~= rr);
            },
        }
    }
}

/// The state a stream drains to: everything consumed, the ending key fixed
/// when the stream's true end-of-file was reachable.
pub open spec fn drain_stream(m: MergeFileModel) -> MergeFileModel {
    MergeFileModel {
        pos: m.records.len() as int,
        current_key: m.records.last().key,
        line: m.records.last().line,
        ending_key: if m.truncated {
            m.ending_key
        } else {
            m.records.last().key
        },
        ..m
    }
}

/// The manifest record a scanned stream persists as.
pub open spec fn manifest_entry_of(m: MergeFileModel) -> ManifestEntryModel {
    ManifestEntryModel {
        filename: m.filename,
        beginning_key: spec_key_text(m.beginning_key),
        ending_key: spec_key_text(m.ending_key),
        delimiter: m.delimiter,
        key_index: m.key_index,
        filesize: m.filesize,
    }
}

/// Streams in non-decreasing order of their current keys.
pub open spec fn sorted_streams(ss: Seq<MergeFileModel>) -> bool {
    forall|i: int, j: int|
        0 <= i <= j < ss.len() ==> spec_key_le(
            (#[trigger] ss[i]).current_key,
            (#[trigger] ss[j]).current_key,
        )
}

/// The manifest text for streams in this order: one line per stream, each
/// ended by a newline.
pub open spec fn manifest_content_of(ss: Seq<MergeFileModel>) -> Seq<u8>
    decreases ss.len(),
{
    if ss.len() == 0 {
        Seq::empty()
    } else {
        spec_format_manifest_line(manifest_entry_of(ss[0])) + seq![10u8] + manifest_content_of(
            ss.drop_first(),
        )
    }
}

proof fn lemma_manifest_content_snoc(ss: Seq<MergeFileModel>, i: int)
    requires
        0 <= i < ss.len(),
    ensures
        manifest_content_of(ss.take(i + 1)) == manifest_content_of(ss.take(i))
            + spec_format_manifest_line(manifest_entry_of(ss[i])) + seq![10u8],
    decreases i,
{
    if i == 0 {
        assert(ss.take(1)[0] == ss[0]);
        assert(ss.take(1).drop_first() =~= Seq::<MergeFileModel>::empty());
        assert(ss.take(0) =~= Seq::<MergeFileModel>::empty());
        assert(manifest_content_of(ss.take(1)) =~= manifest_content_of(ss.take(0))
            + spec_format_manifest_line(manifest_entry_of(ss[0])) + seq![10u8]);
    } else {
        lemma_manifest_content_snoc(ss.drop_first(), i - 1);
        assert(ss.take(i + 1)[0] == ss[0]);
        assert(ss.take(i + 1).drop_first() =~= ss.drop_first().take(i));
        assert(ss.take(i)[0] == ss[0]);
        assert(ss.take(i).drop_first() =~= ss.drop_first().take(i - 1));
        assert(ss.drop_first()[i - 1] == ss[i]);
        assert(manifest_content_of(ss.take(i + 1)) =~= manifest_content_of(ss.take(i))
            + spec_format_manifest_line(manifest_entry_of(ss[i])) + seq![10u8]);
    }
}

/// Orders streams by their current keys (selection of the least remaining
/// key, repeatedly).
fn sort_streams(v: Vec<MergeFile>) -> (r: Vec<MergeFile>)
    ensures
        stream_views(r@).to_multiset() == stream_views(v@).to_multiset(),
        sorted_streams(stream_views(r@)),
{
    let ghost orig = stream_views(v@);
    let mut rest = v;
    let mut out: Vec<MergeFile> = Vec::new();
    proof {
        assert(stream_views(out@) =~= Seq::<MergeFileModel>::empty());
        assert(stream_views(out@).to_multiset().add(stream_views(rest@).to_multiset())
            =~= orig.to_multiset());
    }
    while rest.len() > 0
        invariant
            stream_views(out@).to_multiset().add(stream_views(rest@).to_multiset())
                == orig.to_multiset(),
            sorted_streams(stream_views(out@)),
            forall|a: int, b: int|
                0 <= a < out@.len() && 0 <= b < rest@.len() ==> spec_key_le(
                    (#[trigger] out@[a]@).current_key,
                    (#[trigger] rest@[b]@).current_key,
                ),
        decreases rest@.len(),
    {
        let mut mi: usize = 0;
        let mut j: usize = 1;
        proof {
            lemma_key_le_total(rest@[0]@.current_key, rest@[0]@.current_key);
        }
        while j < rest.len()
            invariant
                rest@.len() > 0,
                mi < j <= rest@.len(),
                forall|k: int|
                    0 <= k < j ==> spec_key_le(
                        rest@[mi as int]@.current_key,
                        (#[trigger] rest@[k]@).current_key,
                    ),
            decreases rest@.len() - j,
        {
            proof {
                lemma_key_le_total(rest@[mi as int]@.current_key, rest@[j as int]@.current_key);
            }
            if key_lt(&rest[j].current_merge_key, &rest[mi].current_merge_key) {
                proof {
                    assert forall|k: int|
                        0 <= k < j + 1 implies spec_key_le(
                        rest@[j as int]@.current_key,
                        (#[trigger] rest@[k]@).current_key,
                    ) by {
                        if k < j {
                            lemma_key_le_transitive(
                                rest@[j as int]@.current_key,
                                rest@[mi as int]@.current_key,
                                rest@[k]@.current_key,
                            );
                        } else {
                            lemma_key_le_total(
                                rest@[j as int]@.current_key,
                                rest@[j as int]@.current_key,
                            );
                        }
                    }
                }
                mi = j;
            }
            j += 1;
        }
        let ghost pre_rest = stream_views(rest@);
        let ghost pre_out = stream_views(out@);
        let s = rest.remove(mi);
        let ghost sv = s@;
        proof {
            assert(pre_rest[mi as int] == sv);
            assert(stream_views(rest@) =~= pre_rest.remove(mi as int));
            assert(stream_views(out@.push(s)) =~= pre_out.push(sv));
            assert(pre_rest.remove(mi as int).to_multiset() == pre_rest.to_multiset().remove(sv));
            assert(pre_out.push(sv).to_multiset() == pre_out.to_multiset().insert(sv));
            assert(pre_out.to_multiset().insert(sv).add(pre_rest.to_multiset().remove(sv))
                =~= pre_out.to_multiset().add(pre_rest.to_multiset()));
            assert forall|a: int, b: int|
                0 <= a <= b < pre_out.push(sv).len() implies spec_key_le(
                (#[trigger] pre_out.push(sv)[a]).current_key,
                (#[trigger] pre_out.push(sv)[b]).current_key,
            ) by {
                if b < pre_out.len() {
                } else if a < pre_out.len() {
                    assert(spec_key_le(pre_out[a].current_key, sv.current_key));
                } else {
                    lemma_key_le_total(sv.current_key, sv.current_key);
                }
            }
        }
        out.push(s);
    }
    proof {
        assert(stream_views(rest@).to_multiset() =~= Multiset::<MergeFileModel>::empty());
        assert(stream_views(out@).to_multiset() =~= orig.to_multiset());
    }
    out
}

} // verus!

