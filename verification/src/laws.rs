//! The library's laws, stated and proved over the same spec functions its
//! contracts use. The merge's own laws — no loss, no duplication, and keys
//! non-decreasing over sorted inputs — stand in the `ensures` of
//! `MergeFileManager::begin_merge`; the laws here relate several functions.

use vstd::prelude::*;

use crate::keys::{lemma_key_le_transitive, spec_key_le, spec_key_text, KeyModel};
use crate::lines::{lemma_split_lines_cons, split_lines};
use crate::manifest::{
    entries_of, lemma_format_line_clean, lemma_manifest_line_round_trip, manifest_field_clean,
    spec_format_manifest_line, spec_parse_manifest_line,
};
use crate::merge::{key_within, sorted_from, stream_emits};
use crate::merge_file::MergeFileModel;
use crate::merge_file_manager::{
    lemma_scan_from_bounds, manifest_content_of, manifest_entry_of, scan_from, seek_stream,
    spec_seek_all,
};

verus! {

broadcast use vstd::seq_lib::group_to_multiset_ensures;

/// Boundary exactness: a stream sought to the start key emits, under any end
/// bound, only records whose keys lie in the window — none below the start,
/// none above the end.
pub proof fn lemma_boundary_exactness(
    m: MergeFileModel,
    start: KeyModel,
    end: Option<KeyModel>,
    n: MergeFileModel,
)
    requires
        m.wf(),
        sorted_from(m),
        seek_stream(m, start) == Some(n),
    ensures
        n.wf(),
        sorted_from(n),
        forall|i: int|
            0 <= i < stream_emits(n, end).len() ==> spec_key_le(
                start,
                (#[trigger] stream_emits(n, end)[i]).key,
            ) && key_within(stream_emits(n, end)[i].key, end),
{
    lemma_scan_from_bounds(m.rest(), start);
    let off = scan_from(m.rest(), start);
    assert(forall|j: int|
        0 <= j < m.rest().len() ==> #[trigger] m.rest()[j] == m.records[m.pos - 1 + j]);
    assert(n.wf());
    assert(sorted_from(n));
    assert(spec_key_le(start, n.current_key)) by {
        assert(spec_key_le(start, m.rest()[off].key));
    }
    crate::merge::lemma_stream_emits_bounds(n, end);
    assert forall|i: int|
        0 <= i < stream_emits(n, end).len() implies spec_key_le(
        start,
        (#[trigger] stream_emits(n, end)[i]).key,
    ) && key_within(stream_emits(n, end)[i].key, end) by {
        lemma_key_le_transitive(start, n.current_key, stream_emits(n, end)[i].key);
    }
}

/// Boundary exactness over a whole working set: after seeking every sorted
/// stream to the start key, everything the merge can emit — the emit multiset
/// of the sought set, which `begin_merge` returns exactly — has its key at or
/// past the start and within the end bound.
pub proof fn lemma_window_boundaries(ss: Seq<MergeFileModel>, start: KeyModel, end: Option<KeyModel>)
    requires
        forall|k: int| 0 <= k < ss.len() ==> (#[trigger] ss[k]).wf(),
        forall|k: int| 0 <= k < ss.len() ==> sorted_from(#[trigger] ss[k]),
    ensures
        forall|rec: crate::merge_file::RecordModel|
            crate::merge::emits_fold(spec_seek_all(ss, start), end).contains(rec) ==> spec_key_le(
                start,
                rec.key,
            ) && key_within(rec.key, end),
    decreases ss.len(),
{
    if ss.len() > 0 {
        let rest = ss.drop_first();
        assert(forall|k: int| 0 <= k < rest.len() ==> #[trigger] rest[k] == ss[k + 1]);
        lemma_window_boundaries(rest, start, end);
        let sought = spec_seek_all(ss, start);
        match seek_stream(ss[0], start) {
            Some(n) => {
                lemma_boundary_exactness(ss[0], start, end, n);
                assert(sought == seq![n] + spec_seek_all(rest, start));
                assert(sought[0] == n);
                assert(sought.drop_first() =~= spec_seek_all(rest, start));
                assert(crate::merge::emits_fold(sought, end) == stream_emits(
                    n,
                    end,
                ).to_multiset().add(crate::merge::emits_fold(spec_seek_all(rest, start), end)));
                assert forall|rec: crate::merge_file::RecordModel|
                    crate::merge::emits_fold(sought, end).contains(rec) implies spec_key_le(
                    start,
                    rec.key,
                ) && key_within(rec.key, end) by {
                    let first_ms = stream_emits(n, end).to_multiset();
                    if first_ms.contains(rec) {
                        assert(stream_emits(n, end).contains(rec));
                        let i = choose|i: int|
                            0 <= i < stream_emits(n, end).len() && stream_emits(n, end)[i] == rec;
                        assert(spec_key_le(start, stream_emits(n, end)[i].key));
                    } else {
                        assert(crate::merge::emits_fold(spec_seek_all(rest, start), end).contains(
                            rec,
                        ));
                    }
                }
            },
            None => {
                assert(sought == spec_seek_all(rest, start));
            },
        }
    } else {
        assert(spec_seek_all(ss, start).len() == 0);
        assert(crate::merge::emits_fold(spec_seek_all(ss, start), end) =~= vstd::multiset::Multiset::<
            crate::merge_file::RecordModel,
        >::empty());
    }
}

/// Seeking a working set keeps every surviving stream well formed and sorted,
/// so the merge's ordering guarantee carries through a seek.
pub proof fn lemma_seek_all_sorted(ss: Seq<MergeFileModel>, start: KeyModel)
    requires
        forall|k: int| 0 <= k < ss.len() ==> (#[trigger] ss[k]).wf(),
        forall|k: int| 0 <= k < ss.len() ==> sorted_from(#[trigger] ss[k]),
    ensures
        forall|k: int|
            0 <= k < spec_seek_all(ss, start).len() ==> (#[trigger] spec_seek_all(
                ss,
                start,
            )[k]).wf(),
        crate::merge::all_sorted(spec_seek_all(ss, start)),
    decreases ss.len(),
{
    if ss.len() > 0 {
        let rest = ss.drop_first();
        assert(forall|k: int| 0 <= k < rest.len() ==> #[trigger] rest[k] == ss[k + 1]);
        lemma_seek_all_sorted(rest, start);
        let sought = spec_seek_all(ss, start);
        match seek_stream(ss[0], start) {
            Some(n) => {
                lemma_boundary_exactness(ss[0], start, None, n);
                assert(sought =~= seq![n] + spec_seek_all(rest, start));
                assert forall|k: int| 0 <= k < sought.len() implies (#[trigger] sought[k]).wf()
                    && sorted_from(sought[k]) by {
                    if k > 0 {
                        assert(sought[k] == spec_seek_all(rest, start)[k - 1]);
                    }
                }
            },
            None => {
                assert(sought =~= spec_seek_all(rest, start));
            },
        }
    }
}

/// Retirement completeness: when every admitted path is distinct and the
/// retired streams carry the same multiset of paths, the run retired exactly
/// one stream per admitted path — the same count, no duplicate, none missing
/// and none added.
pub proof fn lemma_retirement_completeness(fns_in: Seq<Seq<u8>>, fns_out: Seq<Seq<u8>>)
    requires
        fns_out.to_multiset() == fns_in.to_multiset(),
        forall|i: int, j: int| 0 <= i < j < fns_in.len() ==> fns_in[i] != fns_in[j],
    ensures
        fns_out.len() == fns_in.len(),
        forall|i: int, j: int| 0 <= i < j < fns_out.len() ==> fns_out[i] != fns_out[j],
        forall|f: Seq<u8>| fns_out.contains(f) <==> fns_in.contains(f),
{
    fns_in.to_multiset_ensures();
    fns_out.to_multiset_ensures();
    assert(fns_out.len() == fns_out.to_multiset().len());
    assert(fns_in.len() == fns_in.to_multiset().len());
    assert(fns_in.no_duplicates());
    fns_in.lemma_multiset_has_no_duplicates();
    fns_out.lemma_multiset_has_no_duplicates_conv();
    assert(fns_out.no_duplicates());
    assert forall|f: Seq<u8>| fns_out.contains(f) <==> fns_in.contains(f) by {
        assert(fns_out.contains(f) <==> fns_out.to_multiset().count(f) > 0);
        assert(fns_in.contains(f) <==> fns_in.to_multiset().count(f) > 0);
    }
}

/// Whether a stream's identity and observed keys survive the manifest's line
/// format: its fields must be free of the format's separator bytes.
pub open spec fn manifest_entry_clean(m: MergeFileModel) -> bool {
    &&& manifest_field_clean(m.filename)
    &&& manifest_field_clean(spec_key_text(m.beginning_key))
    &&& manifest_field_clean(spec_key_text(m.ending_key))
    &&& m.delimiter != 10
    &&& m.delimiter != 13
    &&& 0 <= m.key_index <= usize::MAX
}

/// Manifest round trip: the text `write_cache` renders for streams in a given
/// order parses back — line by line, nothing skipped — to exactly those
/// streams' records: the same paths, the same beginning and ending key text,
/// the same delimiters, key columns and sizes.
pub proof fn lemma_manifest_round_trip(ss: Seq<MergeFileModel>)
    requires
        forall|k: int| 0 <= k < ss.len() ==> manifest_entry_clean(#[trigger] ss[k]),
    ensures
        entries_of(split_lines(manifest_content_of(ss))) == ss.map_values(
            |m: MergeFileModel| manifest_entry_of(m),
        ),
    decreases ss.len(),
{
    if ss.len() == 0 {
        assert(split_lines(manifest_content_of(ss)) =~= Seq::<Seq<u8>>::empty());
        assert(entries_of(split_lines(manifest_content_of(ss))) =~= ss.map_values(
            |m: MergeFileModel| manifest_entry_of(m),
        ));
    } else {
        let m0 = ss[0];
        let e0 = manifest_entry_of(m0);
        let line0 = spec_format_manifest_line(e0);
        let rest = manifest_content_of(ss.drop_first());
        lemma_manifest_round_trip(ss.drop_first());
        lemma_manifest_line_round_trip(e0);
        lemma_format_line_clean(e0);
        lemma_split_lines_cons(line0, rest);
        assert(manifest_content_of(ss) =~= line0 + seq![10u8] + rest);
        assert(split_lines(manifest_content_of(ss)) == seq![line0] + split_lines(rest));
        assert(entries_of(seq![line0] + split_lines(rest)) =~= seq![e0] + entries_of(
            split_lines(rest),
        )) by {
            assert((seq![line0] + split_lines(rest))[0] == line0);
            assert((seq![line0] + split_lines(rest)).drop_first() =~= split_lines(rest));
            assert(spec_parse_manifest_line(line0) == Some(e0));
        }
        assert(ss.map_values(|m: MergeFileModel| manifest_entry_of(m)) =~= seq![e0]
            + ss.drop_first().map_values(|m: MergeFileModel| manifest_entry_of(m)));
        assert(entries_of(split_lines(manifest_content_of(ss))) =~= ss.map_values(
            |m: MergeFileModel| manifest_entry_of(m),
        ));
    }
}

} // verus!
