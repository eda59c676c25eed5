//! The persisted manifest: one comma-separated line per scanned file, holding
//! its path, observed key range, delimiter label, key column and size.

use vstd::prelude::*;

use crate::keys::{all_digits, is_digit, parse_u64, parse_usize, spec_fmt_nat, spec_parse_u64};
use crate::lines::{fields, lemma_fields_no_delim, lemma_fields_split_at_delim, split, take_vec};

verus! {

/// One manifest record: the persisted boundary of a scanned file. The keys
/// are held as text, in the form of the run's key type.
#[derive(Clone, Debug)]
pub struct ManifestEntry {
    pub filename: Vec<u8>,
    pub beginning_key: Vec<u8>,
    pub ending_key: Vec<u8>,
    pub delimiter: u8,
    pub key_index: usize,
    pub filesize: u64,
}

/// The mathematical form of a manifest record.
#[verifier::ext_equal]
pub struct ManifestEntryModel {
    pub filename: Seq<u8>,
    pub beginning_key: Seq<u8>,
    pub ending_key: Seq<u8>,
    pub delimiter: u8,
    pub key_index: int,
    pub filesize: u64,
}

impl View for ManifestEntry {
    type V = ManifestEntryModel;

    open spec fn view(&self) -> ManifestEntryModel {
        ManifestEntryModel {
            filename: self.filename@,
            beginning_key: self.beginning_key@,
            ending_key: self.ending_key@,
            delimiter: self.delimiter,
            key_index: self.key_index as int,
            filesize: self.filesize,
        }
    }
}

/// The canonical label a delimiter is written under: `tsv`, `csv` or `psv`
/// for tab, comma and pipe, else the delimiter byte itself.
pub open spec fn spec_delimiter_label(d: u8) -> Seq<u8> {
    if d == 9 {
        seq![116u8, 115u8, 118u8]
    } else if d == 44 {
        seq![99u8, 115u8, 118u8]
    } else if d == 124 {
        seq![112u8, 115u8, 118u8]
    } else {
        seq![d]
    }
}

/// The delimiter a manifest label denotes: the three named labels, or the
/// label's first byte; an empty label denotes nothing.
pub open spec fn spec_delimiter_of_label(t: Seq<u8>) -> Option<u8> {
    if t == seq![116u8, 115u8, 118u8] {
        Some(9u8)
    } else if t == seq![99u8, 115u8, 118u8] {
        Some(44u8)
    } else if t == seq![112u8, 115u8, 118u8] {
        Some(124u8)
    } else if t.len() >= 1 {
        Some(t[0])
    } else {
        None
    }
}

/// A delimiter's label names that delimiter again.
pub proof fn lemma_delimiter_label_round_trip(d: u8)
    ensures
        spec_delimiter_of_label(spec_delimiter_label(d)) == Some(d),
{
    if d == 9 || d == 44 || d == 124 {
    } else {
        assert(seq![d].len() == 1);
        assert(seq![d] != seq![116u8, 115u8, 118u8]);
        assert(seq![d] != seq![99u8, 115u8, 118u8]);
        assert(seq![d] != seq![112u8, 115u8, 118u8]);
    }
}

/// Renders a delimiter as its manifest label.
pub fn delimiter_label(d: u8) -> (r: Vec<u8>)
    ensures
        r@ == spec_delimiter_label(d),
{
    let mut out: Vec<u8> = Vec::new();
    if d == 9 {
        out.push(116);
        out.push(115);
        out.push(118);
        proof {
            assert(out@ =~= spec_delimiter_label(d));
        }
    } else if d == 44 {
        out.push(99);
        out.push(115);
        out.push(118);
        proof {
            assert(out@ =~= spec_delimiter_label(d));
        }
    } else if d == 124 {
        out.push(112);
        out.push(115);
        out.push(118);
        proof {
            assert(out@ =~= spec_delimiter_label(d));
        }
    } else {
        out.push(d);
        proof {
            assert(out@ =~= spec_delimiter_label(d));
        }
    }
    out
}

/// Resolves a manifest delimiter label.
pub fn delimiter_of_label(t: &Vec<u8>) -> (r: Option<u8>)
    ensures
        r == spec_delimiter_of_label(t@),
{
    if t.len() == 3 {
        let (a, b, c) = (t[0], t[1], t[2]);
        proof {
            assert(t@ =~= seq![t@[0], t@[1], t@[2]]);
        }
        if a == 116 && b == 115 && c == 118 {
            Some(9)
        } else if a == 99 && b == 115 && c == 118 {
            Some(44)
        } else if a == 112 && b == 115 && c == 118 {
            Some(124)
        } else {
            Some(t[0])
        }
    } else if t.len() >= 1 {
        proof {
            assert(t@.len() != 3);
        }
        Some(t[0])
    } else {
        None
    }
}

/// What one manifest line denotes: exactly six comma-separated fields, with a
/// well-formed delimiter label, key column and size; anything else is no
/// record.
pub open spec fn spec_parse_manifest_line(line: Seq<u8>) -> Option<ManifestEntryModel> {
    let f = fields(line, 44);
    if f.len() != 6 {
        None
    } else {
        match (spec_delimiter_of_label(f[3]), spec_parse_u64(f[4]), spec_parse_u64(f[5])) {
            (Some(d), Some(ki), Some(size)) => {
                if ki <= usize::MAX {
                    Some(
                        ManifestEntryModel {
                            filename: f[0],
                            beginning_key: f[1],
                            ending_key: f[2],
                            delimiter: d,
                            key_index: ki as int,
                            filesize: size,
                        },
                    )
                } else {
                    None
                }
            },
            _ => None,
        }
    }
}

/// Parses one manifest line.
pub fn parse_manifest_line(line: &Vec<u8>) -> (r: Option<ManifestEntry>)
    ensures
        match r {
            Some(e) => spec_parse_manifest_line(line@) == Some(e@),
            None => spec_parse_manifest_line(line@) is None,
        },
{
    let mut parts = split(line, 44);
    if parts.len() != 6 {
        return None;
    }
    let filename = take_vec(&mut parts, 0);
    let beginning_key = take_vec(&mut parts, 1);
    let ending_key = take_vec(&mut parts, 2);
    let label = take_vec(&mut parts, 3);
    let ki_text = take_vec(&mut parts, 4);
    let size_text = take_vec(&mut parts, 5);
    let ghost f = fields(line@, 44);
    proof {
        assert(filename@ == f[0]);
        assert(beginning_key@ == f[1]);
        assert(ending_key@ == f[2]);
        assert(label@ == f[3]);
        assert(ki_text@ == f[4]);
        assert(size_text@ == f[5]);
    }
    let delimiter = match delimiter_of_label(&label) {
        Some(d) => d,
        None => {
            return None;
        },
    };
    let key_index = match parse_usize(&ki_text) {
        Some(v) => v,
        None => {
            return None;
        },
    };
    let filesize = match parse_u64(&size_text) {
        Some(v) => v,
        None => {
            return None;
        },
    };
    let e = ManifestEntry { filename, beginning_key, ending_key, delimiter, key_index, filesize };
    proof {
        assert(spec_parse_manifest_line(line@) == Some(e@)) by {
            assert(e@ =~= spec_parse_manifest_line(line@)->Some_0);
        }
    }
    Some(e)
}

/// The manifest text of one record: its six fields joined by commas.
pub open spec fn spec_format_manifest_line(e: ManifestEntryModel) -> Seq<u8> {
    e.filename + seq![44u8] + e.beginning_key + seq![44u8] + e.ending_key + seq![44u8]
        + spec_delimiter_label(e.delimiter) + seq![44u8] + spec_fmt_nat(e.key_index as nat)
        + seq![44u8] + spec_fmt_nat(e.filesize as nat)
}

/// Appends `s` to `out`.
pub(crate) fn append_bytes(out: &mut Vec<u8>, s: &Vec<u8>)
    ensures
        final(out)@ == old(out)@ + s@,
{
    let mut i: usize = 0;
    while i < s.len()
        invariant
            i <= s@.len(),
            out@ == old(out)@ + s@.take(i as int),
        decreases s@.len() - i,
    {
        proof {
            assert((old(out)@ + s@.take(i as int)).push(s@[i as int]) =~= old(out)@ + s@.take(
                i + 1,
            ));
        }
        out.push(s[i]);
        i += 1;
    }
    proof {
        assert(s@.take(i as int) =~= s@);
    }
}

/// Renders one manifest record as its line.
pub fn format_manifest_line(e: &ManifestEntry) -> (r: Vec<u8>)
    requires
        e.key_index <= u64::MAX,
    ensures
        r@ == spec_format_manifest_line(e@),
{
    let mut out: Vec<u8> = Vec::new();
    append_bytes(&mut out, &e.filename);
    out.push(44);
    append_bytes(&mut out, &e.beginning_key);
    out.push(44);
    append_bytes(&mut out, &e.ending_key);
    out.push(44);
    let label = delimiter_label(e.delimiter);
    append_bytes(&mut out, &label);
    out.push(44);
    let ki = crate::keys::fmt_u64(e.key_index as u64);
    append_bytes(&mut out, &ki);
    out.push(44);
    let size = crate::keys::fmt_u64(e.filesize);
    append_bytes(&mut out, &size);
    proof {
        assert(out@ =~= spec_format_manifest_line(e@));
    }
    out
}

/// Whether a field may stand in a manifest line: it must not contain the
/// comma that separates fields nor the bytes that end a line.
pub open spec fn manifest_field_clean(s: Seq<u8>) -> bool {
    forall|j: int| 0 <= j < s.len() ==> s[j] != 44 && s[j] != 10 && s[j] != 13
}

proof fn lemma_digits_clean(s: Seq<u8>)
    requires
        all_digits(s),
    ensures
        manifest_field_clean(s),
        s.len() > 0 ==> s[0] != 43,
{
    assert forall|j: int| 0 <= j < s.len() implies s[j] != 44 && s[j] != 10 && s[j] != 13 by {
        assert(is_digit(s[j]));
    }
    if s.len() > 0 {
        assert(is_digit(s[0]));
    }
}

proof fn lemma_label_clean(d: u8)
    requires
        d != 10,
        d != 13,
    ensures
        manifest_field_clean(spec_delimiter_label(d)),
{
    let l = spec_delimiter_label(d);
    if d == 9 || d == 44 || d == 124 {
        assert(forall|j: int| 0 <= j < l.len() ==> l[j] != 44 && l[j] != 10 && l[j] != 13);
    } else {
        assert(l =~= seq![d]);
    }
}

/// Text free of the bytes that end a manifest line.
pub open spec fn no_line_breaks(s: Seq<u8>) -> bool {
    forall|j: int| 0 <= j < s.len() ==> s[j] != 10 && s[j] != 13
}

proof fn lemma_no_line_breaks_concat(a: Seq<u8>, b: Seq<u8>)
    requires
        no_line_breaks(a),
        no_line_breaks(b),
    ensures
        no_line_breaks(a + b),
{
    assert forall|j: int| 0 <= j < (a + b).len() implies (a + b)[j] != 10 && (a + b)[j] != 13 by {
        if j < a.len() {
            assert((a + b)[j] == a[j]);
        } else {
            assert((a + b)[j] == b[j - a.len()]);
        }
    }
}

/// A well-formed record's line holds no line-break byte, so it survives the
/// manifest file's line structure.
pub proof fn lemma_format_line_clean(e: ManifestEntryModel)
    requires
        manifest_field_clean(e.filename),
        manifest_field_clean(e.beginning_key),
        manifest_field_clean(e.ending_key),
        e.delimiter != 10,
        e.delimiter != 13,
        e.key_index >= 0,
    ensures
        no_line_breaks(spec_format_manifest_line(e)),
{
    let c = seq![44u8];
    let label = spec_delimiter_label(e.delimiter);
    let ki = spec_fmt_nat(e.key_index as nat);
    let size = spec_fmt_nat(e.filesize as nat);
    crate::keys::lemma_fmt_nat_digits(e.key_index as nat);
    crate::keys::lemma_fmt_nat_digits(e.filesize as nat);
    lemma_digits_clean(ki);
    lemma_digits_clean(size);
    lemma_label_clean(e.delimiter);
    assert(no_line_breaks(c));
    lemma_no_line_breaks_concat(e.filename, c);
    lemma_no_line_breaks_concat(e.filename + c, e.beginning_key);
    lemma_no_line_breaks_concat(e.filename + c + e.beginning_key, c);
    lemma_no_line_breaks_concat(e.filename + c + e.beginning_key + c, e.ending_key);
    lemma_no_line_breaks_concat(e.filename + c + e.beginning_key + c + e.ending_key, c);
    lemma_no_line_breaks_concat(e.filename + c + e.beginning_key + c + e.ending_key + c, label);
    lemma_no_line_breaks_concat(
        e.filename + c + e.beginning_key + c + e.ending_key + c + label,
        c,
    );
    lemma_no_line_breaks_concat(
        e.filename + c + e.beginning_key + c + e.ending_key + c + label + c,
        ki,
    );
    lemma_no_line_breaks_concat(
        e.filename + c + e.beginning_key + c + e.ending_key + c + label + c + ki,
        c,
    );
    lemma_no_line_breaks_concat(
        e.filename + c + e.beginning_key + c + e.ending_key + c + label + c + ki + c,
        size,
    );
}

/// A manifest record written out parses back to itself, provided its text
/// fields are free of the separator bytes (a field holding a comma or a line
/// break cannot survive the line format).
pub proof fn lemma_manifest_line_round_trip(e: ManifestEntryModel)
    requires
        manifest_field_clean(e.filename),
        manifest_field_clean(e.beginning_key),
        manifest_field_clean(e.ending_key),
        e.delimiter != 10,
        e.delimiter != 13,
        0 <= e.key_index <= usize::MAX,
    ensures
        spec_parse_manifest_line(spec_format_manifest_line(e)) == Some(e),
{
    let line = spec_format_manifest_line(e);
    let label = spec_delimiter_label(e.delimiter);
    let ki = spec_fmt_nat(e.key_index as nat);
    let size = spec_fmt_nat(e.filesize as nat);
    crate::keys::lemma_fmt_nat_digits(e.key_index as nat);
    crate::keys::lemma_fmt_nat_digits(e.filesize as nat);
    lemma_digits_clean(ki);
    lemma_digits_clean(size);
    lemma_label_clean(e.delimiter);
    let t5 = size;
    let t4 = ki + seq![44u8] + t5;
    let t3 = label + seq![44u8] + t4;
    let t2 = e.ending_key + seq![44u8] + t3;
    let t1 = e.beginning_key + seq![44u8] + t2;
    assert(line =~= e.filename + seq![44u8] + t1);
    assert(t1 =~= e.beginning_key + seq![44u8] + t2);
    assert(t2 =~= e.ending_key + seq![44u8] + t3);
    assert(t3 =~= label + seq![44u8] + t4);
    assert(t4 =~= ki + seq![44u8] + t5);
    lemma_fields_split_at_delim(e.filename, t1, 44);
    lemma_fields_split_at_delim(e.beginning_key, t2, 44);
    lemma_fields_split_at_delim(e.ending_key, t3, 44);
    lemma_fields_split_at_delim(label, t4, 44);
    lemma_fields_split_at_delim(ki, t5, 44);
    lemma_fields_no_delim(size, 44);
    let f = fields(line, 44);
    assert(f =~= seq![e.filename, e.beginning_key, e.ending_key, label, ki, size]);
    lemma_delimiter_label_round_trip(e.delimiter);
    assert(spec_parse_u64(ki) == Some(e.key_index as u64));
    assert(spec_parse_u64(size) == Some(e.filesize));
    assert(spec_parse_manifest_line(line)->Some_0 =~= e);
}

/// The records of a whole manifest text: every line that parses, in order;
/// malformed lines are skipped.
pub open spec fn entries_of(ls: Seq<Seq<u8>>) -> Seq<ManifestEntryModel>
    decreases ls.len(),
{
    if ls.len() == 0 {
        Seq::empty()
    } else {
        match spec_parse_manifest_line(ls[0]) {
            Some(e) => seq![e] + entries_of(ls.drop_first()),
            None => entries_of(ls.drop_first()),
        }
    }
}

/// The views of a vector of manifest records.
pub open spec fn entry_views(s: Seq<ManifestEntry>) -> Seq<ManifestEntryModel> {
    s.map_values(|e: ManifestEntry| e@)
}

/// Parses a whole manifest's contents, line by line, skipping (with no other
/// effect) every malformed line.
pub fn load_manifest(content: &Vec<u8>) -> (r: Vec<ManifestEntry>)
    ensures
        entry_views(r@) == entries_of(crate::lines::split_lines(content@)),
{
    let ghost ls = crate::lines::split_lines(content@);
    let lines = crate::lines::lines_of(content);
    let mut out: Vec<ManifestEntry> = Vec::new();
    let mut i: usize = 0;
    proof {
        assert(ls.skip(0) =~= ls);
        assert(entry_views(out@) =~= Seq::<ManifestEntryModel>::empty());
    }
    while i < lines.len()
        invariant
            i <= lines@.len(),
            lines.deep_view() == ls,
            entries_of(ls) == entry_views(out@) + entries_of(ls.skip(i as int)),
        decreases lines@.len() - i,
    {
        let ghost tail = ls.skip(i as int);
        proof {
            assert(tail[0] == ls[i as int]);
            assert(tail.drop_first() =~= ls.skip(i + 1));
            assert(lines.deep_view()[i as int] == lines@[i as int].deep_view());
            assert(lines@[i as int]@ =~= lines@[i as int].deep_view());
        }
        let line_ref = &lines[i];
        proof {
            assert(line_ref@ == ls[i as int]);
        }
        match parse_manifest_line(line_ref) {
            Some(e) => {
                let ghost prev = entry_views(out@);
                let ghost ev = e@;
                proof {
                    assert(entry_views(out@.push(e)) =~= prev.push(ev));
                    assert(prev + (seq![ev] + entries_of(ls.skip(i + 1))) =~= prev.push(ev)
                        + entries_of(ls.skip(i + 1)));
                }
                out.push(e);
            },
            None => {},
        }
        i += 1;
    }
    proof {
        assert(ls.skip(i as int).len() == 0);
        assert(entries_of(ls.skip(i as int)) =~= Seq::<ManifestEntryModel>::empty());
        assert(entry_views(out@) =~= entries_of(ls));
    }
    out
}

} // verus!
