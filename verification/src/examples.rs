//! Built-in puzzle examples.

use vstd::prelude::*;
use vstd::utf8::{valid_utf8, decode_utf8};

verus! {

/// A named puzzle definition in YAML.
pub struct Example {
    pub name: &'static str,
    pub yaml: &'static [u8],
}

/// Calls `String::from_utf8` and keeps the string if the bytes were valid
/// UTF-8. Claimed, as std documents: `Some` exactly for valid UTF-8, holding
/// the characters that the bytes encode.
#[verifier::external_body]
fn string_from_utf8(bytes: &[u8]) -> (r: Option<String>)
    ensures
        r is Some <==> valid_utf8(bytes@),
        r matches Some(s) ==> s@ == decode_utf8(bytes@),
{
    String::from_utf8(bytes.to_vec()).ok()
}

impl Example {
    pub fn new(name: &'static str, yaml: &'static [u8]) -> (r: Self)
        ensures
            r.name == name,
            r.yaml == yaml,
    {
        Example { name, yaml }
    }

    /// The YAML text, if the bytes are valid UTF-8.
    pub fn to_yaml(&self) -> (r: Option<String>)
        ensures
            r is Some <==> valid_utf8(self.yaml@),
            r matches Some(s) ==> s@ == decode_utf8(self.yaml@),
    {
        string_from_utf8(self.yaml)
    }
}

/// The names of the built-in examples, in the order in which they are
/// offered.
pub open spec fn builtin_example_names() -> Seq<Seq<char>> {
    seq![
        "Trapentrix"@,
        "Photonic Crystal"@,
        "Biaxe"@,
        "Undectrix"@,
        "Megaminx"@,
        "Skyglobe Ultimate"@,
    ]
}

/// The built-in examples: each name of `builtin_example_names` with the
/// YAML text given for it, in the same order.
pub fn builtin_examples(contents: &[&'static [u8]]) -> (r: Vec<Example>)
    requires
        contents@.len() == builtin_example_names().len(),
    ensures
        r@.len() == builtin_example_names().len(),
        forall|i: int| 0 <= i < r@.len() ==> {
            &&& (#[trigger] r@[i]).name@ == builtin_example_names()[i]
            &&& r@[i].yaml == contents@[i]
        },
{
    let r = vec![
        Example::new("Trapentrix", contents[0]),
        Example::new("Photonic Crystal", contents[1]),
        Example::new("Biaxe", contents[2]),
        Example::new("Undectrix", contents[3]),
        Example::new("Megaminx", contents[4]),
        Example::new("Skyglobe Ultimate", contents[5]),
    ];
    assert forall|i: int| 0 <= i < r@.len() implies (#[trigger] r@[i]).name@ == builtin_example_names()[i] by {
        if i == 0 {} else if i == 1 {} else if i == 2 {} else if i == 3 {} else if i == 4 {} else {}
    }
    r
}

/// The example shown first: the second of the built-in list.
pub fn default_example(examples: &[Example]) -> (r: &Example)
    requires
        examples@.len() > 1,
    ensures
        r == &examples@[1],
{
    &examples[1]
}

} // verus!
