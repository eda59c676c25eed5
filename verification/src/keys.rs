//! The typed merge key: an unsigned 32-bit integer, a signed 32-bit integer,
//! or raw text, with one total order and the parse/format rules for each form.

use vstd::prelude::*;

use crate::settings::KeyType;

verus! {

/// A merge key as held at run time. Text keys keep the raw column bytes.
#[derive(Clone, Debug, PartialEq, Eq, PartialOrd, Ord)]
pub enum KeyValue {
    Unsigned32(u32),
    Signed32(i32),
    Text(Vec<u8>),
}

/// The mathematical form of a `KeyValue`.
#[verifier::ext_equal]
pub enum KeyModel {
    U32(u32),
    I32(i32),
    Text(Seq<u8>),
}

impl View for KeyValue {
    type V = KeyModel;

    open spec fn view(&self) -> KeyModel {
        match self {
            KeyValue::Unsigned32(x) => KeyModel::U32(*x),
            KeyValue::Signed32(x) => KeyModel::I32(*x),
            KeyValue::Text(t) => KeyModel::Text(t@),
        }
    }
}

/// The key type a key model belongs to.
pub open spec fn variant_of(k: KeyModel) -> KeyType {
    match k {
        KeyModel::U32(_) => KeyType::Unsigned32Integer,
        KeyModel::I32(_) => KeyType::Signed32Integer,
        KeyModel::Text(_) => KeyType::String,
    }
}

/// Lexicographic (byte-wise) order on raw text.
pub open spec fn lex_le(a: Seq<u8>, b: Seq<u8>) -> bool
    decreases a.len(),
{
    if a.len() == 0 {
        true
    } else if b.len() == 0 {
        false
    } else if a[0] < b[0] {
        true
    } else if a[0] > b[0] {
        false
    } else {
        lex_le(a.drop_first(), b.drop_first())
    }
}

/// A rank that orders the three key forms against each other, so that the
/// order below is total on all key models. Within one run every key has the
/// same form, so only the per-form clauses are ever exercised.
pub open spec fn form_rank(k: KeyModel) -> int {
    match k {
        KeyModel::U32(_) => 0,
        KeyModel::I32(_) => 1,
        KeyModel::Text(_) => 2,
    }
}

/// The single total order on merge keys: numeric within the integer forms,
/// lexicographic on text.
pub open spec fn spec_key_le(a: KeyModel, b: KeyModel) -> bool {
    match (a, b) {
        (KeyModel::U32(x), KeyModel::U32(y)) => x <= y,
        (KeyModel::I32(x), KeyModel::I32(y)) => x <= y,
        (KeyModel::Text(x), KeyModel::Text(y)) => lex_le(x, y),
        _ => form_rank(a) <= form_rank(b),
    }
}

pub open spec fn spec_key_lt(a: KeyModel, b: KeyModel) -> bool {
    !spec_key_le(b, a)
}

pub proof fn lemma_lex_le_total(a: Seq<u8>, b: Seq<u8>)
    ensures
        lex_le(a, b) || lex_le(b, a),
    decreases a.len(),
{
    if a.len() == 0 || b.len() == 0 {
    } else if a[0] == b[0] {
        lemma_lex_le_total(a.drop_first(), b.drop_first());
    }
}

pub proof fn lemma_lex_le_antisymmetric(a: Seq<u8>, b: Seq<u8>)
    requires
        lex_le(a, b),
        lex_le(b, a),
    ensures
        a == b,
    decreases a.len(),
{
    if a.len() == 0 {
        assert(b.len() == 0);
        assert(a =~= b);
    } else {
        assert(a[0] == b[0]);
        lemma_lex_le_antisymmetric(a.drop_first(), b.drop_first());
        assert(a =~= seq![a[0]] + a.drop_first());
        assert(b =~= seq![b[0]] + b.drop_first());
    }
}

pub proof fn lemma_lex_le_transitive(a: Seq<u8>, b: Seq<u8>, c: Seq<u8>)
    requires
        lex_le(a, b),
        lex_le(b, c),
    ensures
        lex_le(a, c),
    decreases a.len(),
{
    if a.len() == 0 || b.len() == 0 || c.len() == 0 {
    } else if a[0] == b[0] && b[0] == c[0] {
        lemma_lex_le_transitive(a.drop_first(), b.drop_first(), c.drop_first());
    }
}

/// The key order is total.
pub proof fn lemma_key_le_total(a: KeyModel, b: KeyModel)
    ensures
        spec_key_le(a, b) || spec_key_le(b, a),
{
    match (a, b) {
        (KeyModel::Text(x), KeyModel::Text(y)) => lemma_lex_le_total(x, y),
        _ => {},
    }
}

/// The key order is antisymmetric.
pub proof fn lemma_key_le_antisymmetric(a: KeyModel, b: KeyModel)
    requires
        spec_key_le(a, b),
        spec_key_le(b, a),
    ensures
        a == b,
{
    match (a, b) {
        (KeyModel::Text(x), KeyModel::Text(y)) => {
            lemma_lex_le_antisymmetric(x, y);
            assert(a =~= b);
        },
        _ => {},
    }
}

/// The key order is transitive.
pub proof fn lemma_key_le_transitive(a: KeyModel, b: KeyModel, c: KeyModel)
    requires
        spec_key_le(a, b),
        spec_key_le(b, c),
    ensures
        spec_key_le(a, c),
{
    match (a, b, c) {
        (KeyModel::Text(x), KeyModel::Text(y), KeyModel::Text(z)) => {
            lemma_lex_le_transitive(x, y, z);
        },
        _ => {},
    }
}

/// Skipping an equal prefix does not change the lexicographic comparison.
proof fn lemma_lex_le_skip(a: Seq<u8>, b: Seq<u8>, i: int)
    requires
        0 <= i <= a.len(),
        i <= b.len(),
        forall|j: int| 0 <= j < i ==> a[j] == b[j],
    ensures
        lex_le(a, b) == lex_le(a.skip(i), b.skip(i)),
    decreases i,
{
    if i > 0 {
        assert(a.len() > 0 && b.len() > 0 && a[0] == b[0]);
        lemma_lex_le_skip(a.drop_first(), b.drop_first(), i - 1);
        assert(a.drop_first().skip(i - 1) =~= a.skip(i));
        assert(b.drop_first().skip(i - 1) =~= b.skip(i));
    } else {
        assert(a.skip(0) =~= a);
        assert(b.skip(0) =~= b);
    }
}

/// Compares two raw texts in lexicographic byte order.
fn lex_le_bytes(a: &Vec<u8>, b: &Vec<u8>) -> (r: bool)
    ensures
        r == lex_le(a@, b@),
{
    let mut i: usize = 0;
    loop
        invariant
            0 <= i <= a.len(),
            i <= b.len(),
            forall|j: int| 0 <= j < i ==> a@[j] == b@[j],
        decreases a.len() - i,
    {
        proof {
            lemma_lex_le_skip(a@, b@, i as int);
        }
        if i == a.len() {
            assert(a@.skip(i as int).len() == 0);
            return true;
        }
        if i == b.len() {
            assert(b@.skip(i as int).len() == 0);
            assert(a@.skip(i as int).len() > 0);
            return false;
        }
        let x = a[i];
        let y = b[i];
        if x < y {
            assert(a@.skip(i as int)[0] < b@.skip(i as int)[0]);
            return true;
        }
        if x > y {
            assert(a@.skip(i as int)[0] > b@.skip(i as int)[0]);
            return false;
        }
        i += 1;
    }
}

/// Decides the total order on keys: true when `a <= b`.
pub fn key_le(a: &KeyValue, b: &KeyValue) -> (r: bool)
    ensures
        r == spec_key_le(a@, b@),
{
    match (a, b) {
        (KeyValue::Unsigned32(x), KeyValue::Unsigned32(y)) => x <= y,
        (KeyValue::Signed32(x), KeyValue::Signed32(y)) => x <= y,
        (KeyValue::Text(x), KeyValue::Text(y)) => lex_le_bytes(x, y),
        (KeyValue::Unsigned32(_), _) => true,
        (KeyValue::Signed32(_), KeyValue::Unsigned32(_)) => false,
        (KeyValue::Signed32(_), KeyValue::Text(_)) => true,
        (KeyValue::Text(_), _) => false,
    }
}

/// Decides the strict order on keys: true when `a < b`.
pub fn key_lt(a: &KeyValue, b: &KeyValue) -> (r: bool)
    ensures
        r == spec_key_lt(a@, b@),
{
    !key_le(b, a)
}

/// Clones a key; the copy has the same model.
pub fn key_clone(k: &KeyValue) -> (r: KeyValue)
    ensures
        r@ == k@,
{
    match k {
        KeyValue::Unsigned32(x) => KeyValue::Unsigned32(*x),
        KeyValue::Signed32(x) => KeyValue::Signed32(*x),
        KeyValue::Text(t) => {
            let c = t.clone();
            proof {
                assert(c@ =~= t@);
            }
            KeyValue::Text(c)
        },
    }
}

// ---------------------------------------------------------------------------
// Decimal parsing
// ---------------------------------------------------------------------------

pub open spec fn is_digit(b: u8) -> bool {
    48 <= b <= 57
}

pub open spec fn all_digits(s: Seq<u8>) -> bool {
    forall|i: int| 0 <= i < s.len() ==> is_digit(#[trigger] s[i])
}

/// The number a digit string denotes, most significant digit first.
pub open spec fn digits_value(s: Seq<u8>) -> nat
    decreases s.len(),
{
    if s.len() == 0 {
        0
    } else {
        digits_value(s.drop_last()) * 10 + (if is_digit(s.last()) {
            (s.last() - 48) as nat
        } else {
            0
        })
    }
}

/// Extending a digit string on the right never lowers its value.
proof fn lemma_digits_value_take_monotonic(s: Seq<u8>, i: int)
    requires
        0 <= i < s.len(),
        all_digits(s),
    ensures
        digits_value(s.take(i)) <= digits_value(s.take(i + 1)),
{
    assert(s.take(i + 1).drop_last() =~= s.take(i));
    assert(digits_value(s.take(i + 1)) == digits_value(s.take(i)) * 10 + (s[i] - 48));
}

proof fn lemma_digits_value_prefix_le(s: Seq<u8>, i: int)
    requires
        0 <= i <= s.len(),
        all_digits(s),
    ensures
        digits_value(s.take(i)) <= digits_value(s),
    decreases s.len() - i,
{
    if i < s.len() {
        lemma_digits_value_take_monotonic(s, i);
        lemma_digits_value_prefix_le(s, i + 1);
    } else {
        assert(s.take(i) =~= s);
    }
}

/// Parses an unadorned digit string from position `from` to the end.
/// Returns the value when the digits are non-empty, well formed and fit in
/// 64 bits; `None` otherwise.
fn parse_digits(s: &Vec<u8>, from: usize) -> (r: Option<u64>)
    requires
        from <= s@.len(),
    ensures
        match r {
            Some(v) => {
                &&& s@.skip(from as int).len() >= 1
                &&& all_digits(s@.skip(from as int))
                &&& digits_value(s@.skip(from as int)) == v
            },
            None => {
                s@.skip(from as int).len() == 0 || !all_digits(s@.skip(from as int))
                    || digits_value(s@.skip(from as int)) > u64::MAX
            },
        },
{
    let ghost d = s@.skip(from as int);
    if from == s.len() {
        return None;
    }
    let mut acc: u64 = 0;
    let mut i: usize = from;
    while i < s.len()
        invariant
            from <= i <= s@.len(),
            d == s@.skip(from as int),
            all_digits(d.take(i - from)),
            digits_value(d.take(i - from)) == acc,
        decreases s@.len() - i,
    {
        let b = s[i];
        if b < 48 || b > 57 {
            assert(d[i - from] == s@[i as int]);
            assert(!all_digits(d));
            return None;
        }
        let dig = (b - 48) as u64;
        proof {
            assert(d.take(i - from + 1).drop_last() =~= d.take(i - from));
            assert(digits_value(d.take(i - from + 1)) == acc * 10 + dig);
        }
        if acc > (u64::MAX - dig) / 10 {
            proof {
                assert(acc * 10 + dig > u64::MAX);
                assert(all_digits(d.take(i - from + 1))) by {
                    assert(forall|j: int| 0 <= j < i - from + 1 ==> is_digit(
                        #[trigger] d.take(i - from + 1)[j],
                    ));
                }
                // the prefix already exceeds the range, so the whole string does
                assert(all_digits(d) ==> digits_value(d) > u64::MAX) by {
                    if all_digits(d) {
                        lemma_digits_value_prefix_le(d, i - from + 1);
                    }
                }
            }
            return None;
        }
        acc = acc * 10 + dig;
        i += 1;
    }
    proof {
        assert(d.take(i - from) =~= d);
    }
    Some(acc)
}

/// What `u64` decimal parsing accepts: an optional leading `+`, then one or
/// more digits denoting a value that fits.
pub open spec fn spec_parse_u64(s: Seq<u8>) -> Option<u64> {
    let d = if s.len() > 0 && s[0] == 43 {
        s.drop_first()
    } else {
        s
    };
    if d.len() >= 1 && all_digits(d) && digits_value(d) <= u64::MAX {
        Some(digits_value(d) as u64)
    } else {
        None
    }
}

pub open spec fn spec_parse_u32(s: Seq<u8>) -> Option<u32> {
    let d = if s.len() > 0 && s[0] == 43 {
        s.drop_first()
    } else {
        s
    };
    if d.len() >= 1 && all_digits(d) && digits_value(d) <= u32::MAX {
        Some(digits_value(d) as u32)
    } else {
        None
    }
}

/// What `i32` decimal parsing accepts: an optional sign, then one or more
/// digits; the magnitude must fit the signed 32-bit range.
pub open spec fn spec_parse_i32(s: Seq<u8>) -> Option<i32> {
    if s.len() > 0 && s[0] == 45 {
        let d = s.drop_first();
        if d.len() >= 1 && all_digits(d) && digits_value(d) <= 0x8000_0000 {
            Some((0 - digits_value(d)) as i32)
        } else {
            None
        }
    } else {
        let d = if s.len() > 0 && s[0] == 43 {
            s.drop_first()
        } else {
            s
        };
        if d.len() >= 1 && all_digits(d) && digits_value(d) <= 0x7FFF_FFFF {
            Some(digits_value(d) as i32)
        } else {
            None
        }
    }
}

/// Parses a decimal `u64`, as used for the manifest's size field.
pub fn parse_u64(s: &Vec<u8>) -> (r: Option<u64>)
    ensures
        r == spec_parse_u64(s@),
{
    if s.len() > 0 && s[0] == 43 {
        proof {
            assert(s@.skip(1) =~= s@.drop_first());
        }
        parse_digits(s, 1)
    } else {
        proof {
            assert(s@.skip(0) =~= s@);
        }
        parse_digits(s, 0)
    }
}

/// Parses a decimal `usize`, as used for the manifest's key column field.
pub fn parse_usize(s: &Vec<u8>) -> (r: Option<usize>)
    ensures
        match r {
            Some(v) => spec_parse_u64(s@) == Some(v as u64),
            None => spec_parse_u64(s@) is None || spec_parse_u64(s@)->Some_0 > usize::MAX,
        },
{
    match parse_u64(s) {
        Some(v) => {
            if v <= usize::MAX as u64 {
                Some(v as usize)
            } else {
                None
            }
        },
        None => None,
    }
}

/// Parses a decimal `u32` merge key.
pub fn parse_u32(s: &Vec<u8>) -> (r: Option<u32>)
    ensures
        r == spec_parse_u32(s@),
{
    let d0 = if s.len() > 0 && s[0] == 43 {
        1
    } else {
        0
    };
    proof {
        if d0 == 1 {
            assert(s@.skip(1) =~= s@.drop_first());
        } else {
            assert(s@.skip(0) =~= s@);
        }
    }
    match parse_digits(s, d0) {
        Some(v) => {
            if v <= u32::MAX as u64 {
                Some(v as u32)
            } else {
                None
            }
        },
        None => None,
    }
}

/// Parses a decimal `i32` merge key.
pub fn parse_i32(s: &Vec<u8>) -> (r: Option<i32>)
    ensures
        r == spec_parse_i32(s@),
{
    if s.len() > 0 && s[0] == 45 {
        proof {
            assert(s@.skip(1) =~= s@.drop_first());
        }
        match parse_digits(s, 1) {
            Some(v) => {
                if v <= 0x8000_0000u64 {
                    proof {
                        assert((0 - v as int) >= i32::MIN);
                    }
                    Some((-(v as i64)) as i32)
                } else {
                    None
                }
            },
            None => None,
        }
    } else {
        let d0 = if s.len() > 0 && s[0] == 43 {
            1
        } else {
            0
        };
        proof {
            if d0 == 1 {
                assert(s@.skip(1) =~= s@.drop_first());
            } else {
                assert(s@.skip(0) =~= s@);
            }
        }
        match parse_digits(s, d0) {
            Some(v) => {
                if v <= 0x7FFF_FFFFu64 {
                    Some(v as i32)
                } else {
                    None
                }
            },
            None => None,
        }
    }
}

/// What parsing a key column as the configured key type yields. Text keys
/// always parse, to the raw bytes themselves.
pub open spec fn spec_parse_key(s: Seq<u8>, kt: KeyType) -> Option<KeyModel> {
    match kt {
        KeyType::Unsigned32Integer => match spec_parse_u32(s) {
            Some(v) => Some(KeyModel::U32(v)),
            None => None,
        },
        KeyType::Signed32Integer => match spec_parse_i32(s) {
            Some(v) => Some(KeyModel::I32(v)),
            None => None,
        },
        KeyType::String => Some(KeyModel::Text(s)),
    }
}

/// Parses a key column as the configured key type.
pub fn parse_key(s: &Vec<u8>, kt: KeyType) -> (r: Option<KeyValue>)
    ensures
        match r {
            Some(k) => spec_parse_key(s@, kt) == Some(k@),
            None => spec_parse_key(s@, kt) is None,
        },
{
    match kt {
        KeyType::Unsigned32Integer => match parse_u32(s) {
            Some(v) => Some(KeyValue::Unsigned32(v)),
            None => None,
        },
        KeyType::Signed32Integer => match parse_i32(s) {
            Some(v) => Some(KeyValue::Signed32(v)),
            None => None,
        },
        KeyType::String => {
            let c = s.clone();
            proof {
                assert(c@ =~= s@);
            }
            Some(KeyValue::Text(c))
        },
    }
}

// ---------------------------------------------------------------------------
// Decimal formatting
// ---------------------------------------------------------------------------

/// The decimal digits of `n`, most significant first.
pub open spec fn spec_fmt_nat(n: nat) -> Seq<u8>
    decreases n,
{
    if n < 10 {
        seq![(48 + n) as u8]
    } else {
        spec_fmt_nat(n / 10).push((48 + n % 10) as u8)
    }
}

/// The decimal text of a signed value: a `-` sign, then the magnitude.
pub open spec fn spec_fmt_int(v: int) -> Seq<u8> {
    if v < 0 {
        seq![45u8] + spec_fmt_nat((0 - v) as nat)
    } else {
        spec_fmt_nat(v as nat)
    }
}

pub proof fn lemma_fmt_nat_digits(n: nat)
    ensures
        spec_fmt_nat(n).len() >= 1,
        all_digits(spec_fmt_nat(n)),
        digits_value(spec_fmt_nat(n)) == n,
    decreases n,
{
    if n < 10 {
        let s = spec_fmt_nat(n);
        assert(s.drop_last() =~= Seq::<u8>::empty());
        assert(is_digit(s.last()));
        assert(digits_value(s) == digits_value(s.drop_last()) * 10 + (s.last() - 48));
    } else {
        lemma_fmt_nat_digits(n / 10);
        let p = spec_fmt_nat(n / 10);
        let s = spec_fmt_nat(n);
        assert(s == p.push((48 + n % 10) as u8));
        assert(s.drop_last() =~= p);
        assert(digits_value(s) == digits_value(p) * 10 + (n % 10));
        assert(all_digits(s)) by {
            assert(forall|i: int| 0 <= i < p.len() ==> s[i] == p[i]);
        }
    }
}

/// Renders `n` in decimal.
pub fn fmt_u64(n: u64) -> (r: Vec<u8>)
    ensures
        r@ == spec_fmt_nat(n as nat),
{
    let mut rev: Vec<u8> = Vec::new();
    let mut m: u64 = n;
    while m >= 10
        invariant
            spec_fmt_nat(n as nat) == spec_fmt_nat(m as nat) + rev@.reverse(),
        decreases m,
    {
        let dig = (m % 10) as u8;
        let ghost db: u8 = (48 + dig) as u8;
        proof {
            assert(spec_fmt_nat(m as nat) == spec_fmt_nat((m as nat) / 10).push(db));
            assert(rev@.push(db).reverse() =~= seq![db] + rev@.reverse());
            assert(spec_fmt_nat((m as nat) / 10).push(db) + rev@.reverse() =~= spec_fmt_nat(
                (m as nat) / 10,
            ) + (seq![db] + rev@.reverse()));
        }
        rev.push(48 + dig);
        m = m / 10;
    }
    let mut out: Vec<u8> = Vec::new();
    out.push(48 + m as u8);
    proof {
        assert(out@ =~= spec_fmt_nat(m as nat));
    }
    let mut i: usize = rev.len();
    while i > 0
        invariant
            i <= rev.len(),
            out@ == spec_fmt_nat(m as nat) + rev@.reverse().take(rev@.len() - i),
        decreases i,
    {
        i -= 1;
        let b = rev[i];
        proof {
            assert(rev@.reverse()[rev@.len() - i - 1] == b);
            assert(rev@.reverse().take(rev@.len() - i) =~= rev@.reverse().take(
                rev@.len() - i - 1,
            ).push(b));
        }
        out.push(b);
    }
    proof {
        assert(rev@.reverse().take(rev@.len() as int) =~= rev@.reverse());
    }
    out
}

/// Renders a signed 32-bit value in decimal.
pub fn fmt_i32(v: i32) -> (r: Vec<u8>)
    ensures
        r@ == spec_fmt_int(v as int),
{
    if v < 0 {
        let mag = (-(v as i64)) as u64;
        let digits = fmt_u64(mag);
        let mut out: Vec<u8> = Vec::new();
        out.push(45);
        let mut i: usize = 0;
        while i < digits.len()
            invariant
                i <= digits@.len(),
                out@ == seq![45u8] + digits@.take(i as int),
            decreases digits@.len() - i,
        {
            proof {
                assert(digits@.take(i + 1) =~= digits@.take(i as int).push(digits@[i as int]));
                assert(seq![45u8] + digits@.take(i + 1) =~= (seq![45u8] + digits@.take(
                    i as int,
                )).push(digits@[i as int]));
            }
            let b = digits[i];
            out.push(b);
            i += 1;
        }
        proof {
            assert(digits@.take(digits@.len() as int) =~= digits@);
        }
        out
    } else {
        fmt_u64(v as u64)
    }
}

/// The manifest text of a key: decimal for the integer forms, the raw bytes
/// for text.
pub open spec fn spec_key_text(k: KeyModel) -> Seq<u8> {
    match k {
        KeyModel::U32(x) => spec_fmt_nat(x as nat),
        KeyModel::I32(x) => spec_fmt_int(x as int),
        KeyModel::Text(t) => t,
    }
}

/// Renders a key as manifest text.
pub fn key_text(k: &KeyValue) -> (r: Vec<u8>)
    ensures
        r@ == spec_key_text(k@),
{
    match k {
        KeyValue::Unsigned32(x) => fmt_u64(*x as u64),
        KeyValue::Signed32(x) => fmt_i32(*x),
        KeyValue::Text(t) => {
            let c = t.clone();
            proof {
                assert(c@ =~= t@);
            }
            c
        },
    }
}

/// Formatting a key and parsing the text back, as the key's own type, yields
/// the key again.
pub proof fn lemma_key_text_round_trip(k: KeyModel)
    ensures
        spec_parse_key(spec_key_text(k), variant_of(k)) == Some(k),
{
    match k {
        KeyModel::U32(x) => {
            lemma_fmt_nat_digits(x as nat);
            let s = spec_fmt_nat(x as nat);
            assert(s[0] != 43 && s[0] != 45) by {
                assert(is_digit(s[0]));
            }
        },
        KeyModel::I32(x) => {
            if x < 0 {
                let mag = (0 - x) as nat;
                lemma_fmt_nat_digits(mag);
                let s = spec_fmt_int(x as int);
                assert(s[0] == 45);
                assert(s.drop_first() =~= spec_fmt_nat(mag));
                assert(spec_parse_i32(s) == Some(x));
            } else {
                lemma_fmt_nat_digits(x as nat);
                let s = spec_fmt_nat(x as nat);
                assert(s[0] != 43 && s[0] != 45) by {
                    assert(is_digit(s[0]));
                }
            }
        },
        KeyModel::Text(_) => {},
    }
}

} // verus!
