//! The merge scheduler: repeatedly emits the globally smallest current record
//! among all streams, refills the stream it came from, and retires streams at
//! end-of-file or past the end bound.

use vstd::prelude::*;
use vstd::multiset::Multiset;

use crate::keys::{
    key_clone, key_lt, lemma_key_le_total, spec_key_le, spec_key_lt, KeyModel, KeyValue,
};
use crate::merge_file::{
    clone_bytes, record_views, stream_views, MergeFile, MergeFileModel, Record, RecordModel,
};
use crate::merge_file_manager::MergeFileManager;
use crate::working_set::WorkingSet;

verus! {

broadcast use vstd::seq_lib::group_to_multiset_ensures;

/// Whether a key lies within the (inclusive) end bound.
pub open spec fn key_within(k: KeyModel, end: Option<KeyModel>) -> bool {
    match end {
        None => true,
        Some(e) => spec_key_le(k, e),
    }
}

/// The longest prefix of records whose keys lie within the end bound.
pub open spec fn emit_prefix(rs: Seq<RecordModel>, end: Option<KeyModel>) -> Seq<RecordModel>
    decreases rs.len(),
{
    if rs.len() == 0 {
        Seq::empty()
    } else if key_within(rs[0].key, end) {
        seq![rs[0]] + emit_prefix(rs.drop_first(), end)
    } else {
        Seq::empty()
    }
}

/// What one stream contributes to the merge: the in-window prefix of its
/// unconsumed records, the current one first.
pub open spec fn stream_emits(m: MergeFileModel, end: Option<KeyModel>) -> Seq<RecordModel> {
    emit_prefix(m.rest(), end)
}

/// The state a stream retires in: advanced past everything it emitted, with
/// `ending_key` fixed when the run reached its true end-of-file.
pub open spec fn run_stream(m: MergeFileModel, end: Option<KeyModel>) -> MergeFileModel {
    let e = stream_emits(m, end).len();
    if e == m.rest().len() {
        MergeFileModel {
            pos: m.records.len() as int,
            line: m.records.last().line,
            current_key: m.records.last().key,
            ending_key: if m.truncated {
                m.ending_key
            } else {
                m.records.last().key
            },
            ..m
        }
    } else {
        MergeFileModel {
            pos: m.pos + e,
            line: m.records[m.pos + e - 1].line,
            current_key: m.records[m.pos + e - 1].key,
            ..m
        }
    }
}

/// The retirement states of many streams, as a multiset (retirement order is
/// arbitrary).
pub open spec fn runs_fold(ss: Seq<MergeFileModel>, end: Option<KeyModel>) -> Multiset<
    MergeFileModel,
>
    decreases ss.len(),
{
    if ss.len() == 0 {
        Multiset::empty()
    } else {
        Multiset::singleton(run_stream(ss[0], end)).add(runs_fold(ss.drop_first(), end))
    }
}

/// Everything many streams emit, as a multiset (interleaving is arbitrary
/// between equal keys).
pub open spec fn emits_fold(ss: Seq<MergeFileModel>, end: Option<KeyModel>) -> Multiset<
    RecordModel,
>
    decreases ss.len(),
{
    if ss.len() == 0 {
        Multiset::empty()
    } else {
        stream_emits(ss[0], end).to_multiset().add(emits_fold(ss.drop_first(), end))
    }
}

/// The filenames of many streams.
pub open spec fn filenames_of(ss: Seq<MergeFileModel>) -> Seq<Seq<u8>> {
    ss.map_values(|m: MergeFileModel| m.filename)
}

/// The records still to consume, summed over many streams.
pub open spec fn remaining_sum(ss: Seq<MergeFileModel>) -> int
    decreases ss.len(),
{
    if ss.len() == 0 {
        0
    } else {
        (ss[0].records.len() - ss[0].pos + 1) + remaining_sum(ss.drop_first())
    }
}

/// A stream whose unconsumed records (current one included) are in key order.
pub open spec fn sorted_from(m: MergeFileModel) -> bool {
    forall|i: int, j: int|
        m.pos - 1 <= i <= j < m.records.len() ==> spec_key_le(
            #[trigger] m.records[i].key,
            #[trigger] m.records[j].key,
        )
}

pub open spec fn all_sorted(ss: Seq<MergeFileModel>) -> bool {
    forall|k: int| 0 <= k < ss.len() ==> sorted_from(#[trigger] ss[k])
}

/// A record sequence whose keys never decrease.
pub open spec fn keys_nondecreasing(rs: Seq<RecordModel>) -> bool {
    forall|i: int, j: int|
        0 <= i <= j < rs.len() ==> spec_key_le(#[trigger] rs[i].key, #[trigger] rs[j].key)
}

// ---------------------------------------------------------------------------
// Fold manipulation lemmas
// ---------------------------------------------------------------------------

proof fn lemma_runs_fold_remove(ss: Seq<MergeFileModel>, end: Option<KeyModel>, i: int)
    requires
        0 <= i < ss.len(),
    ensures
        runs_fold(ss, end) == runs_fold(ss.remove(i), end).add(
            Multiset::singleton(run_stream(ss[i], end)),
        ),
    decreases ss.len(),
{
    if i == 0 {
        assert(ss.remove(0) =~= ss.drop_first());
        assert(runs_fold(ss, end) =~= runs_fold(ss.drop_first(), end).add(
            Multiset::singleton(run_stream(ss[0], end)),
        ));
    } else {
        lemma_runs_fold_remove(ss.drop_first(), end, i - 1);
        assert(ss.remove(i).drop_first() =~= ss.drop_first().remove(i - 1));
        assert(ss.remove(i)[0] == ss[0]);
        assert(runs_fold(ss, end) =~= runs_fold(ss.remove(i), end).add(
            Multiset::singleton(run_stream(ss[i], end)),
        ));
    }
}

proof fn lemma_runs_fold_push(ss: Seq<MergeFileModel>, end: Option<KeyModel>, m: MergeFileModel)
    ensures
        runs_fold(ss.push(m), end) == runs_fold(ss, end).add(
            Multiset::singleton(run_stream(m, end)),
        ),
    decreases ss.len(),
{
    if ss.len() == 0 {
        assert(ss.push(m)[0] == m);
        assert(ss.push(m).drop_first() =~= Seq::<MergeFileModel>::empty());
        assert(runs_fold(Seq::<MergeFileModel>::empty(), end) =~= Multiset::<
            MergeFileModel,
        >::empty());
        assert(runs_fold(ss.push(m), end) == Multiset::singleton(run_stream(m, end)).add(
            runs_fold(ss.push(m).drop_first(), end),
        ));
        assert(runs_fold(ss.push(m), end) =~= runs_fold(ss, end).add(
            Multiset::singleton(run_stream(m, end)),
        ));
    } else {
        lemma_runs_fold_push(ss.drop_first(), end, m);
        assert(ss.push(m).drop_first() =~= ss.drop_first().push(m));
        assert(ss.push(m)[0] == ss[0]);
        assert(runs_fold(ss.push(m), end) =~= runs_fold(ss, end).add(
            Multiset::singleton(run_stream(m, end)),
        ));
    }
}

proof fn lemma_emits_fold_remove(ss: Seq<MergeFileModel>, end: Option<KeyModel>, i: int)
    requires
        0 <= i < ss.len(),
    ensures
        emits_fold(ss, end) == emits_fold(ss.remove(i), end).add(
            stream_emits(ss[i], end).to_multiset(),
        ),
    decreases ss.len(),
{
    if i == 0 {
        assert(ss.remove(0) =~= ss.drop_first());
        assert(emits_fold(ss, end) =~= emits_fold(ss.remove(0), end).add(
            stream_emits(ss[0], end).to_multiset(),
        ));
    } else {
        lemma_emits_fold_remove(ss.drop_first(), end, i - 1);
        assert(ss.remove(i).drop_first() =~= ss.drop_first().remove(i - 1));
        assert(ss.remove(i)[0] == ss[0]);
        assert(emits_fold(ss, end) =~= emits_fold(ss.remove(i), end).add(
            stream_emits(ss[i], end).to_multiset(),
        ));
    }
}

proof fn lemma_emits_fold_push(ss: Seq<MergeFileModel>, end: Option<KeyModel>, m: MergeFileModel)
    ensures
        emits_fold(ss.push(m), end) == emits_fold(ss, end).add(stream_emits(m, end).to_multiset()),
    decreases ss.len(),
{
    if ss.len() == 0 {
        assert(ss.push(m)[0] == m);
        assert(ss.push(m).drop_first() =~= Seq::<MergeFileModel>::empty());
        assert(emits_fold(Seq::<MergeFileModel>::empty(), end) =~= Multiset::<
            RecordModel,
        >::empty());
        assert(emits_fold(ss.push(m), end) == stream_emits(m, end).to_multiset().add(
            emits_fold(ss.push(m).drop_first(), end),
        ));
        assert(emits_fold(ss.push(m), end) =~= emits_fold(ss, end).add(
            stream_emits(m, end).to_multiset(),
        ));
    } else {
        lemma_emits_fold_push(ss.drop_first(), end, m);
        assert(ss.push(m).drop_first() =~= ss.drop_first().push(m));
        assert(ss.push(m)[0] == ss[0]);
        assert(emits_fold(ss.push(m), end) =~= emits_fold(ss, end).add(
            stream_emits(m, end).to_multiset(),
        ));
    }
}

proof fn lemma_remaining_sum_remove(ss: Seq<MergeFileModel>, i: int)
    requires
        0 <= i < ss.len(),
    ensures
        remaining_sum(ss) == remaining_sum(ss.remove(i)) + (ss[i].records.len() - ss[i].pos + 1),
    decreases ss.len(),
{
    if i == 0 {
        assert(ss.remove(0) =~= ss.drop_first());
    } else {
        lemma_remaining_sum_remove(ss.drop_first(), i - 1);
        assert(ss.remove(i).drop_first() =~= ss.drop_first().remove(i - 1));
        assert(ss.remove(i)[0] == ss[0]);
    }
}

proof fn lemma_remaining_sum_push(ss: Seq<MergeFileModel>, m: MergeFileModel)
    ensures
        remaining_sum(ss.push(m)) == remaining_sum(ss) + (m.records.len() - m.pos + 1),
    decreases ss.len(),
{
    if ss.len() == 0 {
        assert(ss.push(m).drop_first() =~= Seq::<MergeFileModel>::empty());
        assert(ss.push(m)[0] == m);
        assert(remaining_sum(ss.push(m)) == (m.records.len() - m.pos + 1) + remaining_sum(
            ss.push(m).drop_first(),
        ));
    } else {
        lemma_remaining_sum_push(ss.drop_first(), m);
        assert(ss.push(m).drop_first() =~= ss.drop_first().push(m));
        assert(ss.push(m)[0] == ss[0]);
        assert(remaining_sum(ss.push(m)) == (ss[0].records.len() - ss[0].pos + 1) + remaining_sum(
            ss.drop_first().push(m),
        ));
    }
}

proof fn lemma_remaining_sum_nonneg(ss: Seq<MergeFileModel>)
    requires
        forall|k: int| 0 <= k < ss.len() ==> (#[trigger] ss[k]).wf(),
    ensures
        remaining_sum(ss) >= 0,
    decreases ss.len(),
{
    if ss.len() > 0 {
        assert(ss[0].wf());
        lemma_remaining_sum_nonneg(ss.drop_first());
    }
}

// ---------------------------------------------------------------------------
// Per-stream step lemmas
// ---------------------------------------------------------------------------

/// A stream whose current key is out of the window emits nothing and retires
/// as it stands.
proof fn lemma_stream_step_out(m: MergeFileModel, end: Option<KeyModel>)
    requires
        m.wf(),
        !key_within(m.current_key, end),
    ensures
        stream_emits(m, end) == Seq::<RecordModel>::empty(),
        run_stream(m, end) == m,
{
    assert(m.rest().len() >= 1);
    assert(m.rest()[0] == m.records[m.pos - 1]);
    assert(stream_emits(m, end) =~= Seq::<RecordModel>::empty());
    assert(run_stream(m, end) =~= m);
}

/// A stream popped within the window with more records behind emits its
/// current record and then continues from the advanced state.
proof fn lemma_stream_step_emit(m: MergeFileModel, n: MergeFileModel, end: Option<KeyModel>)
    requires
        m.wf(),
        n.wf(),
        key_within(m.current_key, end),
        m.pos < m.records.len(),
        n.same_source(m),
        n.pos == m.pos + 1,
        n.current_key == m.records[m.pos].key,
        n.line == m.records[m.pos].line,
        n.ending_key == m.ending_key,
    ensures
        stream_emits(m, end) == seq![m.records[m.pos - 1]] + stream_emits(n, end),
        run_stream(m, end) == run_stream(n, end),
{
    assert(m.rest()[0] == m.records[m.pos - 1]);
    assert(m.rest().drop_first() =~= n.rest());
    assert(stream_emits(m, end) =~= seq![m.records[m.pos - 1]] + stream_emits(n, end));
    let e = stream_emits(m, end).len();
    assert(e == 1 + stream_emits(n, end).len());
    assert(m.rest().len() == 1 + n.rest().len());
    if e == m.rest().len() {
        assert(run_stream(m, end) =~= run_stream(n, end));
    } else {
        assert(m.pos + e == n.pos + stream_emits(n, end).len());
        assert(run_stream(m, end) =~= run_stream(n, end));
    }
}

/// A stream popped within the window on its last record emits it and retires
/// in the end-of-file state.
proof fn lemma_stream_step_eof(m: MergeFileModel, n: MergeFileModel, end: Option<KeyModel>)
    requires
        m.wf(),
        key_within(m.current_key, end),
        m.pos == m.records.len(),
        n.same_source(m),
        n.pos == m.pos,
        n.current_key == m.current_key,
        n.line == m.line,
        n.ending_key == (if m.truncated {
            m.ending_key
        } else {
            m.current_key
        }),
    ensures
        stream_emits(m, end) == seq![m.records[m.pos - 1]],
        run_stream(m, end) == n,
{
    assert(m.rest().len() == 1);
    assert(m.rest()[0] == m.records[m.pos - 1]);
    assert(m.rest().drop_first() =~= Seq::<RecordModel>::empty());
    assert(emit_prefix(m.rest().drop_first(), end) =~= Seq::<RecordModel>::empty());
    assert(stream_emits(m, end) =~= seq![m.records[m.pos - 1]]);
    assert(run_stream(m, end) =~= n);
}

/// Everything a sorted stream emits lies at or above its current key (and, by
/// construction, within the end bound).
pub proof fn lemma_stream_emits_bounds(m: MergeFileModel, end: Option<KeyModel>)
    requires
        m.wf(),
        sorted_from(m),
    ensures
        forall|i: int|
            0 <= i < stream_emits(m, end).len() ==> spec_key_le(
                m.current_key,
                #[trigger] stream_emits(m, end)[i].key,
            ) && key_within(stream_emits(m, end)[i].key, end),
{
    lemma_emit_prefix_bounds(m.rest(), end);
    assert(forall|i: int|
        0 <= i < m.rest().len() ==> #[trigger] m.rest()[i] == m.records[m.pos - 1 + i]);
    assert(m.rest()[0] == m.records[m.pos - 1]);
    assert(forall|i: int|
        0 <= i < m.rest().len() ==> spec_key_le(m.current_key, #[trigger] m.rest()[i].key));
}

/// Every record of an emit prefix is one of the given records and lies within
/// the bound.
proof fn lemma_emit_prefix_bounds(rs: Seq<RecordModel>, end: Option<KeyModel>)
    ensures
        emit_prefix(rs, end).len() <= rs.len(),
        forall|i: int|
            0 <= i < emit_prefix(rs, end).len() ==> #[trigger] emit_prefix(rs, end)[i] == rs[i]
                && key_within(emit_prefix(rs, end)[i].key, end),
    decreases rs.len(),
{
    if rs.len() > 0 && key_within(rs[0].key, end) {
        lemma_emit_prefix_bounds(rs.drop_first(), end);
        assert(forall|i: int|
            1 <= i < emit_prefix(rs, end).len() ==> #[trigger] emit_prefix(rs, end)[i]
                == emit_prefix(rs.drop_first(), end)[i - 1]);
        assert(forall|i: int| 1 <= i < rs.len() ==> #[trigger] rs.drop_first()[i - 1] == rs[i]);
    }
}

/// What one run of the merge produced: the retired streams, and the emitted
/// records in emission order (empty unless emission was requested).
pub struct MergeOutput {
    pub retired: Vec<MergeFile>,
    pub emitted: Vec<Record>,
}

/// The end bound's model.
pub open spec fn end_model(merge_end: Option<KeyValue>) -> Option<KeyModel> {
    match merge_end {
        Some(k) => Some(k@),
        None => None,
    }
}

impl MergeFileManager {
    /// Runs the merge to completion over the working set.
    ///
    /// Repeatedly takes the stream with the smallest current key. A current
    /// record past the end bound retires its stream unemitted (the record was
    /// consumed, never re-buffered); otherwise the current record is emitted
    /// (when emission is on) and the stream advances, retiring at end-of-file.
    ///
    /// The contract carries the library's ordering laws:
    /// - every incoming stream retires exactly once, in its run-out state;
    /// - with emission on, the emitted records are exactly each stream's
    ///   in-window records from its current one on — no loss, no duplication;
    /// - every emitted record's key lies within the end bound; and
    /// - when every stream's unconsumed records are sorted, the emitted keys
    ///   never decrease across the whole run.
    #[verifier::rlimit(100)]
    pub fn begin_merge(cache: WorkingSet, merge_end: Option<KeyValue>, print_merge_output: bool) -> (out:
        MergeOutput)
        requires
            cache.wf(),
        ensures
            out.retired@.len() == cache@.len(),
            forall|k: int| 0 <= k < out.retired@.len() ==> (#[trigger] out.retired@[k]@).wf(),
            stream_views(out.retired@).to_multiset() == runs_fold(cache@, end_model(merge_end)),
            filenames_of(stream_views(out.retired@)).to_multiset() == filenames_of(
                cache@,
            ).to_multiset(),
            record_views(out.emitted@).to_multiset() == (if print_merge_output {
                emits_fold(cache@, end_model(merge_end))
            } else {
                Multiset::<RecordModel>::empty()
            }),
            forall|i: int|
                0 <= i < out.emitted@.len() ==> key_within(
                    (#[trigger] out.emitted@[i])@.key,
                    end_model(merge_end),
                ),
            all_sorted(cache@) ==> keys_nondecreasing(record_views(out.emitted@)),
    {
        let ghost end = end_model(merge_end);
        let ghost inputs = cache@;
        let mut active: Vec<MergeFile> = cache.into_vec();
        let mut retired: Vec<MergeFile> = Vec::new();
        let mut emitted: Vec<Record> = Vec::new();
        proof {
            assert(stream_views(active@) == inputs);
            assert forall|k: int| 0 <= k < active@.len() implies (#[trigger] active@[k]@).wf() by {
                assert(stream_views(active@)[k] == active@[k]@);
                assert(inputs[k].wf());
            }
            if all_sorted(inputs) {
                assert forall|k: int|
                    0 <= k < active@.len() implies sorted_from(#[trigger] active@[k]@) by {
                    assert(stream_views(active@)[k] == active@[k]@);
                    assert(sorted_from(inputs[k]));
                }
            }
            assert(stream_views(retired@) =~= Seq::<MergeFileModel>::empty());
            assert(record_views(emitted@) =~= Seq::<RecordModel>::empty());
            assert(runs_fold(inputs, end) =~= stream_views(retired@).to_multiset().add(
                runs_fold(stream_views(active@), end),
            ));
            assert(emits_fold(inputs, end) =~= record_views(emitted@).to_multiset().add(
                emits_fold(stream_views(active@), end),
            ));
            assert(filenames_of(inputs).to_multiset() =~= filenames_of(
                stream_views(retired@),
            ).to_multiset().add(filenames_of(stream_views(active@)).to_multiset()));
        }
        while active.len() > 0
            invariant
                end == end_model(merge_end),
                forall|k: int| 0 <= k < active@.len() ==> (#[trigger] active@[k]@).wf(),
                forall|k: int| 0 <= k < retired@.len() ==> (#[trigger] retired@[k]@).wf(),
                retired@.len() + active@.len() == inputs.len(),
                runs_fold(inputs, end) == stream_views(retired@).to_multiset().add(
                    runs_fold(stream_views(active@), end),
                ),
                filenames_of(inputs).to_multiset() == filenames_of(
                    stream_views(retired@),
                ).to_multiset().add(filenames_of(stream_views(active@)).to_multiset()),
                print_merge_output ==> emits_fold(inputs, end) == record_views(
                    emitted@,
                ).to_multiset().add(emits_fold(stream_views(active@), end)),
                !print_merge_output ==> emitted@.len() == 0,
                forall|i: int|
                    0 <= i < emitted@.len() ==> key_within((#[trigger] emitted@[i])@.key, end),
                all_sorted(inputs) ==> {
                    &&& forall|k: int|
                        0 <= k < active@.len() ==> sorted_from(#[trigger] active@[k]@)
                    &&& keys_nondecreasing(record_views(emitted@))
                    &&& (emitted@.len() > 0 ==> forall|k: int|
                        0 <= k < active@.len() ==> spec_key_le(
                            emitted@.last()@.key,
                            (#[trigger] active@[k]@).current_key,
                        ))
                },
            decreases remaining_sum(stream_views(active@)) + active@.len(),
        {
            proof {
                lemma_remaining_sum_nonneg(stream_views(active@));
            }
            // pick the stream with the smallest current key
            let mut mi: usize = 0;
            let mut j: usize = 1;
            proof {
                lemma_key_le_total(active@[0]@.current_key, active@[0]@.current_key);
            }
            while j < active.len()
                invariant
                    active@.len() > 0,
                    mi < j <= active@.len(),
                    forall|k: int|
                        0 <= k < j ==> spec_key_le(
                            active@[mi as int]@.current_key,
                            (#[trigger] active@[k]@).current_key,
                        ),
                decreases active@.len() - j,
            {
                proof {
                    lemma_key_le_total(active@[mi as int]@.current_key, active@[j as int]@.current_key);
                }
                if key_lt(&active[j].current_merge_key, &active[mi].current_merge_key) {
                    proof {
                        assert(spec_key_le(
                            active@[j as int]@.current_key,
                            active@[mi as int]@.current_key,
                        ));
                        assert forall|k: int|
                            0 <= k < j + 1 implies spec_key_le(
                            active@[j as int]@.current_key,
                            (#[trigger] active@[k]@).current_key,
                        ) by {
                            if k < j {
                                crate::keys::lemma_key_le_transitive(
                                    active@[j as int]@.current_key,
                                    active@[mi as int]@.current_key,
                                    active@[k]@.current_key,
                                );
                            } else {
                                lemma_key_le_total(
                                    active@[j as int]@.current_key,
                                    active@[j as int]@.current_key,
                                );
                            }
                        }
                    }
                    mi = j;
                } else {
                    proof {
                        lemma_key_le_total(
                            active@[mi as int]@.current_key,
                            active@[mi as int]@.current_key,
                        );
                    }
                }
                j += 1;
            }
            let ghost pre_views = stream_views(active@);
            let ghost pre_sum = remaining_sum(pre_views);
            let ghost pre_emitted = record_views(emitted@);
            proof {
                // the chosen stream's key is the global minimum
                assert forall|k: int|
                    0 <= k < pre_views.len() implies spec_key_le(
                    pre_views[mi as int].current_key,
                    (#[trigger] pre_views[k]).current_key,
                ) by {
                    assert(pre_views[k] == active@[k]@);
                    assert(pre_views[mi as int] == active@[mi as int]@);
                }
                if all_sorted(inputs) {
                    assert forall|k: int|
                        0 <= k < pre_views.len() implies sorted_from(#[trigger] pre_views[k]) by {
                        assert(pre_views[k] == active@[k]@);
                    }
                    assert(keys_nondecreasing(pre_emitted));
                    if pre_emitted.len() > 0 {
                        assert(pre_emitted.last() == emitted@.last()@);
                        assert forall|k: int|
                            0 <= k < pre_views.len() implies spec_key_le(
                            pre_emitted.last().key,
                            (#[trigger] pre_views[k]).current_key,
                        ) by {
                            assert(pre_views[k] == active@[k]@);
                        }
                    }
                }
            }
            let mut s = active.remove(mi);
            let ghost sv = s@;
            proof {
                assert(pre_views[mi as int] == sv);
                assert(stream_views(active@) =~= pre_views.remove(mi as int));
                lemma_runs_fold_remove(pre_views, end, mi as int);
                lemma_emits_fold_remove(pre_views, end, mi as int);
                lemma_remaining_sum_remove(pre_views, mi as int);
                assert(filenames_of(pre_views) =~= filenames_of(pre_views.remove(mi as int)).insert(
                    mi as int,
                    sv.filename,
                ));
                assert(filenames_of(pre_views.remove(mi as int)).insert(
                    mi as int,
                    sv.filename,
                ).to_multiset() =~= filenames_of(pre_views.remove(mi as int)).to_multiset().insert(
                    sv.filename,
                )) by {
                    vstd::seq_lib::lemma_multiset_commutative(
                        filenames_of(pre_views.remove(mi as int)).take(mi as int),
                        filenames_of(pre_views.remove(mi as int)).skip(mi as int),
                    );
                    assert(filenames_of(pre_views.remove(mi as int)).insert(mi as int, sv.filename)
                        =~= filenames_of(pre_views.remove(mi as int)).take(mi as int).push(
                        sv.filename,
                    ) + filenames_of(pre_views.remove(mi as int)).skip(mi as int));
                    vstd::seq_lib::lemma_multiset_commutative(
                        filenames_of(pre_views.remove(mi as int)).take(mi as int).push(sv.filename),
                        filenames_of(pre_views.remove(mi as int)).skip(mi as int),
                    );
                    assert(filenames_of(pre_views.remove(mi as int)) =~= filenames_of(
                        pre_views.remove(mi as int),
                    ).take(mi as int) + filenames_of(pre_views.remove(mi as int)).skip(mi as int));
                }
            }
            let past_end = match &merge_end {
                Some(ek) => {
                    let past = key_lt(ek, &s.current_merge_key);
                    proof {
                        assert(merge_end is Some);
                        assert(merge_end->Some_0 == *ek);
                        assert(end_model(merge_end) == Some(merge_end->Some_0@));
                        assert(end == Some((*ek)@));
                        assert((*ek)@ == ek@);
                        assert(past == !key_within(sv.current_key, end));
                    }
                    past
                },
                None => false,
            };
            proof {
                assert(past_end == !key_within(sv.current_key, end));
            }
            if past_end {
                proof {
                    lemma_stream_step_out(sv, end);
                    let ghost prev_r = stream_views(retired@);
                    assert(stream_views(retired@.push(s)) =~= prev_r.push(sv));
                    assert(filenames_of(prev_r.push(sv)) =~= filenames_of(prev_r).push(sv.filename));
                    assert(sv.wf());
                    assert(remaining_sum(stream_views(active@)) == pre_sum - (sv.records.len()
                        - sv.pos + 1));
                    if all_sorted(inputs) {
                        assert forall|k: int|
                            0 <= k < active@.len() implies sorted_from(#[trigger] active@[k]@) by {
                            assert(stream_views(active@)[k] == active@[k]@);
                            assert(stream_views(active@)[k] == pre_views.remove(mi as int)[k]);
                        }
                        if pre_emitted.len() > 0 {
                            assert forall|k: int|
                                0 <= k < active@.len() implies spec_key_le(
                                emitted@.last()@.key,
                                (#[trigger] active@[k]@).current_key,
                            ) by {
                                assert(stream_views(active@)[k] == active@[k]@);
                                assert(stream_views(active@)[k] == pre_views.remove(mi as int)[k]);
                            }
                        }
                    }
                }
                retired.push(s);
            } else {
                proof {
                    assert(key_within(sv.current_key, end));
                }
                if print_merge_output {
                    let rec = Record {
                        key: key_clone(&s.current_merge_key),
                        line: clone_bytes(&s.line),
                    };
                    proof {
                        let ghost prev_e = record_views(emitted@);
                        assert(record_views(emitted@.push(rec)) =~= prev_e.push(rec@));
                    }
                    emitted.push(rec);
                    proof {
                        assert(rec@.key == sv.current_key);
                        assert(record_views(emitted@) =~= pre_emitted.push(rec@));
                        if all_sorted(inputs) {
                            let ghost ev = record_views(emitted@);
                            assert forall|i: int, j: int|
                                0 <= i <= j < ev.len() implies spec_key_le(
                                (#[trigger] ev[i]).key,
                                (#[trigger] ev[j]).key,
                            ) by {
                                if j < pre_emitted.len() {
                                    assert(spec_key_le(pre_emitted[i].key, pre_emitted[j].key));
                                } else if i < pre_emitted.len() {
                                    assert(spec_key_le(
                                        pre_emitted[i].key,
                                        pre_emitted.last().key,
                                    ));
                                    assert(pre_views[mi as int].current_key == sv.current_key);
                                    assert(spec_key_le(pre_emitted.last().key, sv.current_key));
                                    crate::keys::lemma_key_le_transitive(
                                        pre_emitted[i].key,
                                        pre_emitted.last().key,
                                        sv.current_key,
                                    );
                                } else {
                                    lemma_key_le_total(sv.current_key, sv.current_key);
                                }
                            }
                            assert(keys_nondecreasing(ev));
                        }
                    }
                }
                let ghost emitted_rec = sv.records[sv.pos - 1];
                let stepped = s.next();
                match stepped {
                    Some(_) => {
                        proof {
                            lemma_stream_step_emit(sv, s@, end);
                            let ghost prev_a = stream_views(active@);
                            assert(stream_views(active@.push(s)) =~= prev_a.push(s@));
                            lemma_runs_fold_push(prev_a, end, s@);
                            lemma_emits_fold_push(prev_a, end, s@);
                            lemma_remaining_sum_push(prev_a, s@);
                            assert(filenames_of(prev_a.push(s@)) =~= filenames_of(prev_a).push(
                                sv.filename,
                            ));
                            assert(stream_emits(sv, end).to_multiset() =~= stream_emits(
                                s@,
                                end,
                            ).to_multiset().insert(emitted_rec)) by {
                                assert(stream_emits(sv, end) =~= seq![emitted_rec] + stream_emits(
                                    s@,
                                    end,
                                ));
                                vstd::seq_lib::lemma_multiset_commutative(
                                    seq![emitted_rec],
                                    stream_emits(s@, end),
                                );
                                assert(seq![emitted_rec].to_multiset() =~= Multiset::singleton(
                                    emitted_rec,
                                )) by {
                                    assert(seq![emitted_rec] =~= Seq::<RecordModel>::empty().push(
                                        emitted_rec,
                                    ));
                                }
                            }
                        }
                        active.push(s);
                        proof {
                            assert(s@.records == sv.records && s@.pos == sv.pos + 1);
                            assert(remaining_sum(stream_views(active@)) == pre_sum - (
                            sv.records.len() - sv.pos + 1) + (s@.records.len() - s@.pos + 1));
                            assert(stream_views(active@) =~= pre_views.remove(mi as int).push(s@));
                            if all_sorted(inputs) {
                                assert(sorted_from(sv));
                                assert(sorted_from(s@));
                                assert forall|k: int|
                                    0 <= k < active@.len() implies sorted_from(
                                    #[trigger] active@[k]@,
                                ) by {
                                    assert(stream_views(active@)[k] == active@[k]@);
                                    if k < active@.len() - 1 {
                                        assert(active@[k]@ == pre_views.remove(mi as int)[k]);
                                    } else {
                                        assert(active@[k]@ == s@);
                                    }
                                }
                                assert(spec_key_le(sv.current_key, s@.current_key)) by {
                                    assert(sv.current_key == sv.records[sv.pos - 1].key);
                                    assert(s@.current_key == sv.records[sv.pos].key);
                                }
                                if emitted@.len() > 0 {
                                    assert(emitted@.last()@ == record_views(emitted@).last());
                                    assert forall|k: int|
                                        0 <= k < active@.len() implies spec_key_le(
                                        emitted@.last()@.key,
                                        (#[trigger] active@[k]@).current_key,
                                    ) by {
                                        assert(stream_views(active@)[k] == active@[k]@);
                                        assert(record_views(emitted@).last().key == sv.current_key);
                                        if k < active@.len() - 1 {
                                            assert(active@[k]@ == pre_views.remove(mi as int)[k]);
                                        } else {
                                            assert(active@[k]@ == s@);
                                        }
                                    }
                                }
                            }
                        }
                    },
                    None => {
                        proof {
                            lemma_stream_step_eof(sv, s@, end);
                            let ghost prev_r = stream_views(retired@);
                            assert(stream_views(retired@.push(s)) =~= prev_r.push(s@));
                            assert(filenames_of(prev_r.push(s@)) =~= filenames_of(prev_r).push(
                                sv.filename,
                            ));
                            assert(stream_emits(sv, end).to_multiset() =~= Multiset::<
                                RecordModel,
                            >::empty().insert(emitted_rec)) by {
                                assert(seq![emitted_rec] =~= Seq::<RecordModel>::empty().push(
                                    emitted_rec,
                                ));
                            }
                        }
                        retired.push(s);
                        proof {
                            assert(sv.wf());
                            assert(remaining_sum(stream_views(active@)) == pre_sum - (
                            sv.records.len() - sv.pos + 1));
                            if all_sorted(inputs) {
                                assert forall|k: int|
                                    0 <= k < active@.len() implies sorted_from(
                                    #[trigger] active@[k]@,
                                ) by {
                                    assert(stream_views(active@)[k] == active@[k]@);
                                    assert(active@[k]@ == pre_views.remove(mi as int)[k]);
                                }
                                if emitted@.len() > 0 {
                                    assert(emitted@.last()@ == record_views(emitted@).last());
                                    assert forall|k: int|
                                        0 <= k < active@.len() implies spec_key_le(
                                        emitted@.last()@.key,
                                        (#[trigger] active@[k]@).current_key,
                                    ) by {
                                        assert(stream_views(active@)[k] == active@[k]@);
                                        assert(record_views(emitted@).last().key == sv.current_key);
                                        assert(active@[k]@ == pre_views.remove(mi as int)[k]);
                                    }
                                }
                            }
                        }
                    },
                }
            }
            proof {
                // multiset bookkeeping closes the step
                assert(runs_fold(inputs, end) =~= stream_views(retired@).to_multiset().add(
                    runs_fold(stream_views(active@), end),
                ));
                if print_merge_output {
                    assert(emits_fold(inputs, end) =~= record_views(emitted@).to_multiset().add(
                        emits_fold(stream_views(active@), end),
                    ));
                }
                assert(filenames_of(inputs).to_multiset() =~= filenames_of(
                    stream_views(retired@),
                ).to_multiset().add(filenames_of(stream_views(active@)).to_multiset()));
                // the consumed or dropped record strictly shrinks the measure
                assert(sv.wf());
                assert(sv.records.len() - sv.pos + 1 >= 1);
                assert forall|k: int|
                    0 <= k < stream_views(active@).len() implies (#[trigger] stream_views(
                    active@,
                )[k]).wf() by {
                    assert(stream_views(active@)[k] == active@[k]@);
                }
                lemma_remaining_sum_nonneg(stream_views(active@));
                assert(remaining_sum(stream_views(active@)) + active@.len() < pre_sum
                    + pre_views.len());
            }
        }
        proof {
            assert(stream_views(active@).len() == 0);
            assert(runs_fold(stream_views(active@), end) =~= Multiset::<MergeFileModel>::empty());
            assert(emits_fold(stream_views(active@), end) =~= Multiset::<RecordModel>::empty());
            assert(filenames_of(stream_views(active@)).to_multiset() =~= Multiset::<
                Seq<u8>,
            >::empty());
            assert(stream_views(retired@).to_multiset() =~= runs_fold(inputs, end));
            assert(filenames_of(stream_views(retired@)).to_multiset() =~= filenames_of(
                inputs,
            ).to_multiset());
            if print_merge_output {
                assert(record_views(emitted@).to_multiset() =~= emits_fold(inputs, end));
            } else {
                assert(emitted@.len() == 0);
                assert(record_views(emitted@) =~= Seq::<RecordModel>::empty());
                assert(record_views(emitted@).to_multiset() =~= Multiset::<RecordModel>::empty());
            }
        }
        MergeOutput { retired, emitted }
    }
}

} // verus!
