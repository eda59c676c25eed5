//! Splitting raw bytes: records into fields on a delimiter byte, and file
//! contents into lines on newlines (with a trailing carriage return stripped,
//! and no empty line after a final newline).

use vstd::prelude::*;

verus! {

use vstd::pervasive::VecAdditionalExecFns;

/// The fields of `s` split on every occurrence of `d`. Splitting always
/// yields at least one field; empty input yields one empty field.
pub open spec fn fields(s: Seq<u8>, d: u8) -> Seq<Seq<u8>>
    decreases s.len(),
{
    if s.len() == 0 {
        seq![Seq::<u8>::empty()]
    } else if s[0] == d {
        seq![Seq::<u8>::empty()] + fields(s.drop_first(), d)
    } else {
        let rest = fields(s.drop_first(), d);
        seq![seq![s[0]] + rest[0]] + rest.drop_first()
    }
}

pub proof fn lemma_fields_nonempty(s: Seq<u8>, d: u8)
    ensures
        fields(s, d).len() >= 1,
    decreases s.len(),
{
    if s.len() != 0 {
        lemma_fields_nonempty(s.drop_first(), d);
    }
}

/// A text without the delimiter splits to itself alone.
pub proof fn lemma_fields_no_delim(a: Seq<u8>, d: u8)
    requires
        forall|j: int| 0 <= j < a.len() ==> a[j] != d,
    ensures
        fields(a, d) == seq![a],
    decreases a.len(),
{
    if a.len() == 0 {
        assert(fields(a, d) =~~= seq![a]);
    } else {
        lemma_fields_no_delim(a.drop_first(), d);
        assert(seq![a[0]] + a.drop_first() =~= a);
        assert(fields(a, d) =~~= seq![a]);
    }
}

/// Splitting at the first delimiter peels off the first field.
pub proof fn lemma_fields_split_at_delim(a: Seq<u8>, b: Seq<u8>, d: u8)
    requires
        forall|j: int| 0 <= j < a.len() ==> a[j] != d,
    ensures
        fields(a + seq![d] + b, d) == seq![a] + fields(b, d),
    decreases a.len(),
{
    let s = a + seq![d] + b;
    if a.len() == 0 {
        assert(s =~= seq![d] + b);
        assert(s[0] == d);
        assert(s.drop_first() =~= b);
        assert(fields(s, d) =~~= seq![a] + fields(b, d));
    } else {
        lemma_fields_split_at_delim(a.drop_first(), b, d);
        assert(s.len() > 0 && s[0] == a[0] && s[0] != d);
        assert(s.drop_first() =~= a.drop_first() + seq![d] + b);
        let rest = fields(s.drop_first(), d);
        lemma_fields_nonempty(b, d);
        assert(rest == seq![a.drop_first()] + fields(b, d));
        assert(rest[0] == a.drop_first());
        assert(seq![s[0]] + rest[0] =~= a);
        assert(rest.drop_first() =~= fields(b, d));
        assert(fields(s, d) =~~= seq![a] + fields(b, d));
    }
}

/// The first field, extended at the front.
spec fn cons_first(c: Seq<u8>, f: Seq<Seq<u8>>) -> Seq<Seq<u8>>
    recommends
        f.len() >= 1,
{
    seq![c + f[0]] + f.drop_first()
}

/// Splits `s` into its fields on the delimiter byte `d`.
pub fn split(s: &Vec<u8>, d: u8) -> (r: Vec<Vec<u8>>)
    ensures
        r.deep_view() == fields(s@, d),
{
    let mut out: Vec<Vec<u8>> = Vec::new();
    let mut cur: Vec<u8> = Vec::new();
    let mut i: usize = 0;
    proof {
        assert(s@.skip(0) =~= s@);
        lemma_fields_nonempty(s@, d);
        assert(out.deep_view() + cons_first(cur@, fields(s@.skip(0), d)) =~= cons_first(
            cur@,
            fields(s@, d),
        ));
        assert(cur@ + fields(s@, d)[0] =~= fields(s@, d)[0]);
        assert(cons_first(cur@, fields(s@, d)) =~= fields(s@, d));
    }
    while i < s.len()
        invariant
            i <= s@.len(),
            fields(s@.skip(i as int), d).len() >= 1,
            out.deep_view() + cons_first(cur@, fields(s@.skip(i as int), d)) == fields(s@, d),
        decreases s@.len() - i,
    {
        let ghost tail = s@.skip(i as int);
        let ghost tail1 = s@.skip(i + 1);
        proof {
            assert(tail.len() > 0);
            assert(tail[0] == s@[i as int]);
            assert(tail.drop_first() =~= tail1);
            lemma_fields_nonempty(tail1, d);
        }
        let b = s[i];
        if b == d {
            proof {
                assert(fields(tail, d) == seq![Seq::<u8>::empty()] + fields(tail1, d));
                // pushing the finished field keeps the decomposition
                let old_out = out.deep_view();
                assert(old_out + cons_first(cur@, fields(tail, d)) == fields(s@, d));
                assert(cur@ + Seq::<u8>::empty() =~= cur@);
                assert(cons_first(cur@, fields(tail, d)) =~= seq![cur@] + fields(tail, d).drop_first());
                assert(fields(tail, d).drop_first() =~= fields(tail1, d));
                assert(Seq::<u8>::empty() + fields(tail1, d)[0] =~= fields(tail1, d)[0]);
                assert(cons_first(Seq::<u8>::empty(), fields(tail1, d)) =~= fields(tail1, d));
            }
            let ghost prev = out.deep_view();
            let ghost done_view = cur@;
            let done = cur;
            cur = Vec::new();
            out.push(done);
            proof {
                assert(out.deep_view() =~~= prev.push(done_view));
                assert(out.deep_view() + cons_first(cur@, fields(tail1, d)) =~= fields(s@, d));
            }
        } else {
            proof {
                let rest = fields(tail1, d);
                assert(fields(tail, d) == seq![seq![tail[0]] + rest[0]] + rest.drop_first());
                assert(cur@ + (seq![b] + rest[0]) =~= cur@.push(b) + rest[0]);
                assert(cons_first(cur@, fields(tail, d)) =~= cons_first(cur@.push(b), rest));
            }
            cur.push(b);
        }
        i += 1;
    }
    proof {
        assert(s@.skip(s@.len() as int) =~= Seq::<u8>::empty());
        assert(fields(Seq::<u8>::empty(), d) == seq![Seq::<u8>::empty()]);
        let f0 = fields(s@.skip(i as int), d);
        assert(cur@ + f0[0] =~= cur@);
        assert(cons_first(cur@, f0) =~= seq![cur@]);
    }
    let ghost prev = out.deep_view();
    let ghost cur_view = cur@;
    out.push(cur);
    proof {
        assert(out.deep_view() =~~= prev.push(cur_view));
        assert(prev + seq![cur_view] =~= prev.push(cur_view));
        assert(out.deep_view() =~= fields(s@, d));
    }
    out
}

/// A line with its trailing carriage return removed.
pub open spec fn strip_cr(l: Seq<u8>) -> Seq<u8> {
    if l.len() > 0 && l.last() == 13 {
        l.drop_last()
    } else {
        l
    }
}

/// The lines of a file's contents: split on newlines, a carriage return
/// before each newline stripped, and nothing after a final newline.
pub open spec fn split_lines(s: Seq<u8>) -> Seq<Seq<u8>>
    recommends
        fields(s, 10).len() >= 1,
{
    let f = fields(s, 10);
    let body = f.take(f.len() - 1).map_values(|l: Seq<u8>| strip_cr(l));
    if f.last().len() == 0 {
        body
    } else {
        body.push(f.last())
    }
}

/// A first line free of line-break bytes splits off whole.
pub proof fn lemma_split_lines_cons(a: Seq<u8>, b: Seq<u8>)
    requires
        forall|j: int| 0 <= j < a.len() ==> a[j] != 10 && a[j] != 13,
    ensures
        split_lines(a + seq![10u8] + b) == seq![a] + split_lines(b),
{
    let s = a + seq![10u8] + b;
    lemma_fields_split_at_delim(a, b, 10);
    let f = fields(s, 10);
    let fb = fields(b, 10);
    lemma_fields_nonempty(b, 10);
    assert(f == seq![a] + fb);
    assert(f.len() == 1 + fb.len());
    assert(f.last() == fb.last());
    assert(f.take(f.len() - 1) =~= seq![a] + fb.take(fb.len() - 1));
    assert(strip_cr(a) == a);
    assert(f.take(f.len() - 1).map_values(|l: Seq<u8>| strip_cr(l)) =~= seq![a] + fb.take(
        fb.len() - 1,
    ).map_values(|l: Seq<u8>| strip_cr(l)));
    if fb.last().len() == 0 {
        assert(split_lines(s) =~= seq![a] + split_lines(b));
    } else {
        assert(split_lines(s) =~= seq![a] + split_lines(b));
    }
}

/// Splits file contents into lines.
pub fn lines_of(s: &Vec<u8>) -> (r: Vec<Vec<u8>>)
    ensures
        r.deep_view() == split_lines(s@),
{
    let mut parts = split(s, 10);
    let ghost f = fields(s@, 10);
    proof {
        lemma_fields_nonempty(s@, 10);
    }
    let ghost body = f.take(f.len() - 1).map_values(|l: Seq<u8>| strip_cr(l));
    let mut out: Vec<Vec<u8>> = Vec::new();
    let n = parts.len();
    let mut i: usize = 0;
    while i < n - 1
        invariant
            parts.deep_view().len() == f.len(),
            forall|j: int| i <= j < f.len() ==> parts.deep_view()[j] == f[j],
            f.len() >= 1,
            n == f.len(),
            i <= n - 1,
            body == f.take(f.len() - 1).map_values(|l: Seq<u8>| strip_cr(l)),
            out.deep_view() == body.take(i as int),
        decreases n - 1 - i,
    {
        let mut line = take_vec(&mut parts, i);
        if line.len() > 0 && line[line.len() - 1] == 13 {
            let _ = line.pop();
        }
        proof {
            assert(line@ == strip_cr(f[i as int]));
            assert(body[i as int] == strip_cr(f[i as int]));
            assert(body.take(i + 1) =~= body.take(i as int).push(body[i as int]));
        }
        let ghost prev = out.deep_view();
        let ghost line_view = line@;
        out.push(line);
        proof {
            assert(out.deep_view() =~~= prev.push(line_view));
        }
        i += 1;
    }
    let last = take_vec(&mut parts, n - 1);
    proof {
        assert(out.deep_view() =~= body) by {
            assert(body.len() == f.len() - 1);
            assert(out.deep_view() == body.take(i as int));
        }
        assert(last@ == f.last());
    }
    if last.len() > 0 {
        let ghost prev = out.deep_view();
        let ghost last_view = last@;
        out.push(last);
        proof {
            assert(out.deep_view() =~~= prev.push(last_view));
        }
    }
    proof {
        assert(out.deep_view() =~= split_lines(s@));
    }
    out
}

/// Moves the vector at `i` out of `v`, leaving an empty one behind.
pub(crate) fn take_vec(v: &mut Vec<Vec<u8>>, i: usize) -> (r: Vec<u8>)
    requires
        i < old(v)@.len(),
    ensures
        r@ == old(v).deep_view()[i as int],
        final(v)@.len() == old(v)@.len(),
        final(v).deep_view() == old(v).deep_view().update(i as int, Seq::<u8>::empty()),
{
    let mut taken: Vec<u8> = Vec::new();
    v.set_and_swap(i, &mut taken);
    proof {
        assert(v.deep_view() =~~= old(v).deep_view().update(i as int, Seq::<u8>::empty()));
    }
    taken
}

/// Byte-for-byte equality of two byte vectors.
pub fn eq_bytes(a: &Vec<u8>, b: &Vec<u8>) -> (r: bool)
    ensures
        r == (a@ == b@),
{
    if a.len() != b.len() {
        proof {
            assert(a@.len() != b@.len());
        }
        return false;
    }
    let mut i: usize = 0;
    while i < a.len()
        invariant
            i <= a@.len(),
            a@.len() == b@.len(),
            forall|j: int| 0 <= j < i ==> a@[j] == b@[j],
        decreases a@.len() - i,
    {
        if a[i] != b[i] {
            return false;
        }
        i += 1;
    }
    proof {
        assert(a@ =~= b@);
    }
    true
}

/// Looks up the key column: the field at `key_index` when the line has that
/// many fields.
pub open spec fn spec_field_at(line: Seq<u8>, d: u8, key_index: int) -> Option<Seq<u8>> {
    let f = fields(line, d);
    if key_index < f.len() {
        Some(f[key_index])
    } else {
        None
    }
}

/// Extracts the key column from one record line.
pub fn field_at(line: &Vec<u8>, d: u8, key_index: usize) -> (r: Option<Vec<u8>>)
    ensures
        match r {
            Some(v) => spec_field_at(line@, d, key_index as int) == Some(v@),
            None => spec_field_at(line@, d, key_index as int) is None,
        },
{
    let mut parts = split(line, d);
    if key_index < parts.len() {
        let v = take_vec(&mut parts, key_index);
        Some(v)
    } else {
        None
    }
}

} // verus!
