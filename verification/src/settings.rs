//! Run-wide configuration: the key type selector and the settings record that
//! the command line is parsed into.

use vstd::prelude::*;

verus! {

/// Which typed form the merge key takes for a whole run.
#[derive(Clone, Copy, Debug, PartialEq, Eq, Structural)]
pub enum KeyType {
    Unsigned32Integer,
    Signed32Integer,
    String,
}

/// The configuration one invocation runs under.
///
/// `delimiter` is a single byte; `key_index` is the zero-based column the merge
/// key is read from. `key_start` / `key_end` bound the merge window (inclusive
/// start, inclusive end as raw key text, still unparsed). `cache_path` names
/// the manifest file, and `glob_choices` the file patterns to take in.
#[derive(Clone, Debug)]
pub struct MergeSettings {
    pub delimiter: u8,
    pub key_index: usize,
    pub key_start: Option<Vec<u8>>,
    pub key_end: Option<Vec<u8>>,
    pub key_type: KeyType,
    pub cache_path: Option<Vec<u8>>,
    pub glob_choices: Option<Vec<Vec<u8>>>,
}

/// Maps the command line's delimiter text to the delimiter byte: the labels
/// `tsv`, `csv` and `psv` name tab, comma and pipe; otherwise exactly one
/// (single-byte) character is accepted.
pub open spec fn spec_cli_delimiter_of(text: Seq<u8>) -> Option<u8> {
    if text == seq![116u8, 115u8, 118u8] {
        Some(9u8)
    } else if text == seq![99u8, 115u8, 118u8] {
        Some(44u8)
    } else if text == seq![112u8, 115u8, 118u8] {
        Some(124u8)
    } else if text.len() == 1 {
        Some(text[0])
    } else {
        None
    }
}

/// Resolves the `--delimiter` option text to a delimiter byte.
pub fn cli_delimiter_of(text: &Vec<u8>) -> (r: Option<u8>)
    ensures
        r == spec_cli_delimiter_of(text@),
{
    if text.len() == 3 {
        let (a, b, c) = (text[0], text[1], text[2]);
        proof {
            assert(text@ =~= seq![text@[0], text@[1], text@[2]]);
        }
        if a == 116 && b == 115 && c == 118 {
            Some(9)
        } else if a == 99 && b == 115 && c == 118 {
            Some(44)
        } else if a == 112 && b == 115 && c == 118 {
            Some(124)
        } else {
            proof {
                assert(text@.len() != 1);
            }
            None
        }
    } else if text.len() == 1 {
        Some(text[0])
    } else {
        None
    }
}

/// Maps the command line's key-type text to a `KeyType`:
/// `Unsigned32Integer`, `Signed32Integer` or `String`.
pub open spec fn spec_key_type_of(text: Seq<u8>) -> Option<KeyType> {
    if text == "Unsigned32Integer"@.map_values(|c: char| c as u8) {
        Some(KeyType::Unsigned32Integer)
    } else if text == "Signed32Integer"@.map_values(|c: char| c as u8) {
        Some(KeyType::Signed32Integer)
    } else if text == "String"@.map_values(|c: char| c as u8) {
        Some(KeyType::String)
    } else {
        None
    }
}

/// Resolves the `--key-type` option text to a `KeyType`.
pub fn key_type_of(text: &Vec<u8>) -> (r: Option<KeyType>)
    ensures
        r == spec_key_type_of(text@),
{
    proof {
        reveal_strlit("Unsigned32Integer");
        reveal_strlit("Signed32Integer");
        reveal_strlit("String");
    }
    if eq_bytes_str(text, "Unsigned32Integer") {
        Some(KeyType::Unsigned32Integer)
    } else if eq_bytes_str(text, "Signed32Integer") {
        Some(KeyType::Signed32Integer)
    } else if eq_bytes_str(text, "String") {
        Some(KeyType::String)
    } else {
        None
    }
}

/// True when the byte text spells exactly the (ASCII) string `s`.
fn eq_bytes_str(text: &Vec<u8>, s: &str) -> (r: bool)
    requires
        forall|i: int| 0 <= i < s@.len() ==> (#[trigger] s@[i]) as u32 <= 127,
    ensures
        r == (text@ == s@.map_values(|c: char| c as u8)),
{
    let ghost mapped = s@.map_values(|c: char| c as u8);
    let n = s.unicode_len();
    if text.len() != n {
        proof {
            assert(text@.len() != mapped.len());
        }
        return false;
    }
    let mut i: usize = 0;
    while i < n
        invariant
            0 <= i <= n,
            n == s@.len(),
            text@.len() == n,
            mapped == s@.map_values(|c: char| c as u8),
            forall|j: int| 0 <= j < s@.len() ==> (#[trigger] s@[j]) as u32 <= 127,
            forall|j: int| 0 <= j < i ==> text@[j] == mapped[j],
        decreases n - i,
    {
        let c = s.get_char(i);
        let b = text[i];
        if (c as u32) != (b as u32) {
            proof {
                assert(text@[i as int] != mapped[i as int]);
            }
            return false;
        }
        proof {
            assert(text@[i as int] == mapped[i as int]);
        }
        i += 1;
    }
    proof {
        assert(text@ =~= mapped);
    }
    true
}

} // verus!
