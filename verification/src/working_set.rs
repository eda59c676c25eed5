//! The working set: the streams currently eligible for merging, at most one
//! per file path.

use vstd::prelude::*;

use crate::lines::eq_bytes;
use crate::merge_file::{stream_views, MergeFile, MergeFileModel};

verus! {

use vstd::pervasive::VecAdditionalExecFns;

/// True when the set holds an entry for this path whose recorded size is
/// `size` — the cache-hit rule: such an entry is current and is not replaced.
pub open spec fn contains_current(ss: Seq<MergeFileModel>, filename: Seq<u8>, size: u64) -> bool {
    exists|k: int| 0 <= k < ss.len() && (#[trigger] ss[k]).filename == filename && ss[k].filesize == size
}

pub open spec fn has_filename(ss: Seq<MergeFileModel>, filename: Seq<u8>) -> bool {
    exists|k: int| 0 <= k < ss.len() && (#[trigger] ss[k]).filename == filename
}

pub open spec fn index_of_filename(ss: Seq<MergeFileModel>, filename: Seq<u8>) -> int {
    choose|k: int| 0 <= k < ss.len() && (#[trigger] ss[k]).filename == filename
}

/// Admission: a stream for a new path is appended; one for a known path
/// replaces the earlier entry wholesale.
pub open spec fn spec_insert(ss: Seq<MergeFileModel>, m: MergeFileModel) -> Seq<MergeFileModel> {
    if has_filename(ss, m.filename) {
        ss.update(index_of_filename(ss, m.filename), m)
    } else {
        ss.push(m)
    }
}

/// The in-memory collection of streams eligible for merging, unique by path.
pub struct WorkingSet {
    pub files: Vec<MergeFile>,
}

impl View for WorkingSet {
    type V = Seq<MergeFileModel>;

    open spec fn view(&self) -> Seq<MergeFileModel> {
        stream_views(self.files@)
    }
}

impl WorkingSet {
    /// Every stream is well formed and no two share a path.
    pub open spec fn wf(&self) -> bool {
        &&& forall|k: int| 0 <= k < self@.len() ==> (#[trigger] self@[k]).wf()
        &&& forall|i: int, j: int|
            0 <= i < j < self@.len() ==> (#[trigger] self@[i]).filename != (
            #[trigger] self@[j]).filename
    }

    /// An empty working set.
    pub fn new() -> (r: WorkingSet)
        ensures
            r@ == Seq::<MergeFileModel>::empty(),
            r.wf(),
    {
        let r = WorkingSet { files: Vec::new() };
        proof {
            assert(r@ =~= Seq::<MergeFileModel>::empty());
        }
        r
    }

    /// How many streams the set holds.
    pub fn len(&self) -> (r: usize)
        ensures
            r == self@.len(),
    {
        self.files.len()
    }

    /// Releases the streams, in the set's order.
    pub fn into_vec(self) -> (r: Vec<MergeFile>)
        ensures
            stream_views(r@) == self@,
    {
        self.files
    }

    /// The index of the entry for this path, if one exists.
    fn find_index(&self, filename: &Vec<u8>) -> (r: Option<usize>)
        ensures
            match r {
                Some(k) => k < self@.len() && self@[k as int].filename == filename@,
                None => !has_filename(self@, filename@),
            },
    {
        let mut i: usize = 0;
        while i < self.files.len()
            invariant
                i <= self@.len(),
                forall|k: int| 0 <= k < i ==> (#[trigger] self@[k]).filename != filename@,
            decreases self@.len() - i,
        {
            proof {
                assert(self@[i as int] == self.files@[i as int]@);
            }
            if eq_bytes(&self.files[i].filename, filename) {
                return Some(i);
            }
            i += 1;
        }
        None
    }

    /// The cache-hit test: whether an entry for this path with this size is
    /// already present, so no fresh scan is needed.
    pub fn is_current(&self, filename: &Vec<u8>, size: u64) -> (r: bool)
        ensures
            r == contains_current(self@, filename@, size),
    {
        let mut i: usize = 0;
        while i < self.files.len()
            invariant
                i <= self@.len(),
                forall|k: int|
                    0 <= k < i ==> !((#[trigger] self@[k]).filename == filename@ && self@[k].filesize
                        == size),
            decreases self@.len() - i,
        {
            proof {
                assert(self@[i as int] == self.files@[i as int]@);
            }
            let f = &self.files[i];
            if f.filesize == size && eq_bytes(&f.filename, filename) {
                proof {
                    assert(contains_current(self@, filename@, size)) by {
                        assert(self@[i as int].filename == filename@ && self@[i as int].filesize
                            == size);
                    }
                }
                return true;
            }
            i += 1;
        }
        false
    }

    /// Inserts a stream: replaces any earlier entry for the same path, else
    /// appends.
    pub fn insert(&mut self, f: MergeFile)
        requires
            old(self).wf(),
            f@.wf(),
        ensures
            final(self).wf(),
            final(self)@ == spec_insert(old(self)@, f@),
    {
        let ghost pre = self@;
        match self.find_index(&f.filename) {
            Some(k) => {
                proof {
                    let ghost ci = index_of_filename(pre, f@.filename);
                    assert(has_filename(pre, f@.filename));
                    assert(0 <= ci < pre.len() && pre[ci].filename == f@.filename);
                    assert(ci == k as int) by {
                        if ci != k as int {
                            assert(pre[ci].filename == pre[k as int].filename);
                        }
                    }
                }
                self.files.set(k, f);
                proof {
                    assert(self@ =~= pre.update(k as int, f@));
                }
            },
            None => {
                self.files.push(f);
                proof {
                    assert(self@ =~= pre.push(f@));
                }
            },
        }
    }
}

} // verus!
