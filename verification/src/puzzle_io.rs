//! Importing and exporting puzzle definitions as YAML: the version check
//! that an imported file passes through, and the file names used.

use vstd::prelude::*;
use vstd::string::StringExecFns;
use serde_yaml_ng::Value;
use crate::text::{dec, push_decimal, chars_of, string_of_range, trim, trim_bounds};

verus! {

/// The version of the puzzle definition format written and read.
pub const PUZZLE_FORMAT_VERSION: u32 = 1;

/// What `set_yaml_entry` answers for `text`, `key` and `number`, in plain
/// values: the parser's rendered error, or the entry that the document held
/// under `key` (as `set_yaml_entry` reports it) together with the document
/// written back after the entry is set.
pub uninterp spec fn yaml_set_entry(text: Seq<char>, key: Seq<char>, number: u32) -> Result<
    (Option<Option<u64>>, Result<Seq<char>, Seq<char>>),
    Seq<char>,
>;

/// A textual result taken by its view.
pub open spec fn text_result(r: Result<String, String>) -> Result<Seq<char>, Seq<char>> {
    match r {
        Ok(s) => Ok(s@),
        Err(e) => Err(e@),
    }
}

/// Parses `text` with `serde_yaml_ng::from_str::<Value>` (an error is
/// rendered as text and returned), then, when the document is a mapping,
/// sets its string entry `key` to the number `number` with
/// `Mapping::insert` (reached through `Value::as_mapping_mut`), and writes
/// the document back with `serde_yaml_ng::to_string`. What the document
/// held under `key` is reported as `None` when it is not a mapping,
/// `Some(None)` when the entry was missing or is not a whole number
/// (`Value::as_u64`), and `Some(Some(v))` otherwise. Claimed: the whole
/// answer depends on the arguments alone, as these functions' sources show
/// (the parse error is rendered from the parser's message and position, and
/// a mapping keeps its entries in order). Not claimed: what the answer is
/// for given arguments.
#[verifier::external_body]
fn set_yaml_entry(text: &str, key: &str, number: u32) -> (r: Result<
    (Option<Option<u64>>, Result<String, String>),
    String,
>)
    ensures
        match r {
            Err(e) => yaml_set_entry(text@, key@, number) == Err::<
                (Option<Option<u64>>, Result<Seq<char>, Seq<char>>),
                Seq<char>,
            >(e@),
            Ok((found, written)) => yaml_set_entry(text@, key@, number) == Ok::<
                (Option<Option<u64>>, Result<Seq<char>, Seq<char>>),
                Seq<char>,
            >((found, text_result(written))),
        },
{
    let mut value: Value = serde_yaml_ng::from_str(text).map_err(|e| e.to_string())?;
    let found = match value.as_mapping_mut() {
        Some(m) => match m.insert(Value::String(key.to_string()), Value::Number(number.into())) {
            Some(previous) => Some(previous.as_u64()),
            None => Some(None),
        },
        None => None,
    };
    Ok((found, serde_yaml_ng::to_string(&value).map_err(|e| e.to_string())))
}

/// `Puzzle definition version V is not supported`.
pub open spec fn unsupported_version_text(v: nat) -> Seq<char> {
    "Puzzle definition version "@ + dec(v) + " is not supported"@
}

/// `Could not read imported puzzle version`.
pub open spec fn unreadable_version_text() -> Seq<char> {
    "Could not read imported puzzle version"@
}

/// The refusal, if any, of the version found in an imported document: a
/// document that is not a mapping (`None`) passes; in a mapping, a missing
/// version or one that is not a whole number is unreadable, and any number
/// but the current format version is refused.
pub open spec fn version_refusal(found: Option<Option<u64>>) -> Option<Seq<char>> {
    match found {
        None => None,
        Some(None) => Some(unreadable_version_text()),
        Some(Some(v)) => if v == PUZZLE_FORMAT_VERSION {
            None
        } else {
            Some(unsupported_version_text(v as nat))
        },
    }
}

/// What an import answers about the version it found in a document: a
/// document that is not a mapping (`None`) passes; in a mapping, a missing
/// version or one that is not a whole number is unreadable, and any number
/// but the current format version is refused.
pub fn check_imported_version(found: Option<Option<u64>>) -> (r: Result<(), String>)
    ensures
        match version_refusal(found) {
            None => r is Ok,
            Some(m) => r matches Err(e) && e@ == m,
        },
        match found {
            None => r is Ok,
            Some(None) => r matches Err(e) && e@ == unreadable_version_text(),
            Some(Some(v)) => if v == PUZZLE_FORMAT_VERSION {
                r is Ok
            } else {
                r matches Err(e) && e@ == unsupported_version_text(v as nat)
            },
        },
{
    match found {
        None => Ok(()),
        Some(None) => Err(String::from_str("Could not read imported puzzle version")),
        Some(Some(v)) => {
            if v == PUZZLE_FORMAT_VERSION as u64 {
                Ok(())
            } else {
                let mut e = String::from_str("Puzzle definition version ");
                if v <= usize::MAX as u64 {
                    push_decimal(&mut e, v as usize);
                } else {
                    push_decimal_u64(&mut e, v);
                }
                e.append(" is not supported");
                Err(e)
            }
        },
    }
}

/// Appends the decimal representation of `n`.
fn push_decimal_u64(s: &mut String, n: u64)
    ensures
        final(s)@ == old(s)@ + dec(n as nat),
    decreases n,
{
    if n >= 10 {
        push_decimal_u64(s, n / 10);
    }
    let d: u8 = (n % 10) as u8;
    let c = (d + 48u8) as char;
    crate::text::push_char(s, c);
}

/// What an import gives for `text`: the parser's error for a document
/// that does not parse; otherwise the refusal of the version it held, if
/// any; otherwise the document written back with its `version` entry set to
/// the current format version.
pub open spec fn import_result(text: Seq<char>) -> Result<Seq<char>, Seq<char>> {
    match yaml_set_entry(text, "version"@, PUZZLE_FORMAT_VERSION) {
        Err(m) => Err(m),
        Ok((found, written)) => match version_refusal(found) {
            Some(m) => Err(m),
            None => written,
        },
    }
}

/// Passes an imported document through the version check: the document's
/// `version` entry is set to the current format version, and the text
/// written back, unless the version found is refused. A document that does
/// not parse is refused with the parser's message.
pub fn transform_import_yaml(yaml: &str) -> (r: Result<String, String>)
    ensures
        text_result(r) == import_result(yaml@),
{
    let (found, written) = match set_yaml_entry(yaml, "version", PUZZLE_FORMAT_VERSION) {
        Ok(pair) => pair,
        Err(e) => return Err(e),
    };
    match check_imported_version(found) {
        Ok(()) => written,
        Err(e) => Err(e),
    }
}

/// The name of the file a puzzle is exported to: `BASE.yml`.
pub fn download_file_name(base_name: &str) -> (r: String)
    ensures
        r@ == base_name@ + ".yml"@,
{
    let mut r = String::from_str(base_name);
    r.append(".yml");
    r
}

/// The puzzle's name taken from an imported file's name: without a
/// `.yml` ending, else without a `.yaml` ending, else the whole name.
pub open spec fn import_base_name_spec(file_name: Seq<char>) -> Seq<char> {
    let yml = seq!['.', 'y', 'm', 'l'];
    let yaml = seq!['.', 'y', 'a', 'm', 'l'];
    if file_name.len() >= 4 && file_name.skip(file_name.len() - 4) == yml {
        file_name.take(file_name.len() - 4)
    } else if file_name.len() >= 5 && file_name.skip(file_name.len() - 5) == yaml {
        file_name.take(file_name.len() - 5)
    } else {
        file_name
    }
}

fn ends_with(cs: &Vec<char>, tail: &Vec<char>) -> (r: bool)
    ensures
        r == (cs@.len() >= tail@.len() && cs@.skip(cs@.len() - tail@.len()) == tail@),
{
    if cs.len() < tail.len() {
        return false;
    }
    let n = cs.len();
    let off = n - tail.len();
    let mut k: usize = 0;
    while k < tail.len()
        invariant
            k <= tail@.len(),
            n == cs@.len(),
            off + tail@.len() == cs@.len(),
            forall|j: int| 0 <= j < k ==> cs@[off + j] == tail@[j],
        decreases tail.len() - k,
    {
        if cs[off + k] != tail[k] {
            assert(cs@.skip(off as int)[k as int] != tail@[k as int]);
            return false;
        }
        k = k + 1;
    }
    assert(cs@.skip(off as int) =~= tail@);
    true
}

/// The puzzle's name taken from an imported file's name.
pub fn import_base_name(file_name: &str) -> (r: String)
    ensures
        r@ == import_base_name_spec(file_name@),
{
    let cs = chars_of(file_name);
    let yml = vec!['.', 'y', 'm', 'l'];
    let yaml = vec!['.', 'y', 'a', 'm', 'l'];
    assert(yml@ =~= seq!['.', 'y', 'm', 'l']);
    assert(yaml@ =~= seq!['.', 'y', 'a', 'm', 'l']);
    if ends_with(&cs, &yml) {
        let r = string_of_range(&cs, 0, cs.len() - 4);
        assert(r@ =~= cs@.take(cs@.len() - 4));
        r
    } else if ends_with(&cs, &yaml) {
        let r = string_of_range(&cs, 0, cs.len() - 5);
        assert(r@ =~= cs@.take(cs@.len() - 5));
        r
    } else {
        let r = string_of_range(&cs, 0, cs.len());
        assert(r@ =~= cs@);
        r
    }
}


/// The puzzle's name after an import: the name the file gives, unless it is
/// missing or blank, in which case the file's base name.
pub fn import_puzzle_name(imported: Option<String>, base_name: String) -> (r: String)
    ensures
        match imported {
            Some(s) => if trim(s@).len() > 0 {
                r@ == s@
            } else {
                r@ == base_name@
            },
            None => r@ == base_name@,
        },
{
    match imported {
        Some(s) => {
            let cs = chars_of(s.as_str());
            let (a, b) = trim_bounds(&cs, 0, cs.len());
            assert(cs@.subrange(0, cs@.len() as int) =~= cs@);
            if a < b {
                s
            } else {
                base_name
            }
        },
        None => base_name,
    }
}


/// The base name an export is saved under: the puzzle's name, or `puzzle`.
pub fn export_base_name(puzzle_name: &Option<String>) -> (r: String)
    ensures
        match puzzle_name {
            Some(n) => r@ == n@,
            None => r@ == "puzzle"@,
        },
{
    match puzzle_name {
        Some(n) => n.clone(),
        None => String::from_str("puzzle"),
    }
}

/// The puzzle's name after editing it: the trimmed text, unless blank.
pub fn edited_puzzle_name(current: Option<String>, buffer: &str) -> (r: Option<String>)
    ensures
        trim(buffer@).len() > 0 ==> (r matches Some(n) && n@ == trim(buffer@)),
        trim(buffer@).len() == 0 ==> r == current,
{
    let cs = chars_of(buffer);
    let (a, b) = trim_bounds(&cs, 0, cs.len());
    assert(cs@.subrange(0, cs@.len() as int) =~= buffer@);
    if a < b {
        Some(string_of_range(&cs, a, b))
    } else {
        current
    }
}

/// The page title: `Puzzle Explorer`, followed by ` - NAME` for a named
/// puzzle.
pub fn window_title(name: &str) -> (r: String)
    ensures
        name@.len() == 0 ==> r@ == "Puzzle Explorer"@,
        name@.len() > 0 ==> r@ == "Puzzle Explorer - "@ + name@,
{
    let cs = chars_of(name);
    if cs.len() == 0 {
        String::from_str("Puzzle Explorer")
    } else {
        let mut r = String::from_str("Puzzle Explorer - ");
        r.append(name);
        r
    }
}

} // verus!
