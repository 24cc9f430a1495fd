//! The argument descriptor: a fixed two-entry property mapping.
//!
//! A descriptor records a declared argument's metadata under the two fixed
//! property keys `"name"` and `"type"`. It is a standalone value type with no
//! role in classification.

use vstd::prelude::*;

use crate::vars::VariableMap;

verus! {

/// A declared argument's metadata: exactly the keys `"name"` and `"type"`,
/// mapped to the supplied texts. Never mutated after construction.
#[derive(Debug, Clone)]
pub struct Arg {
    /// The two-entry property mapping.
    pub properties: VariableMap,
}

impl Arg {
    /// Builds the descriptor for `supplied_name` and `arg_type`. Any text is
    /// accepted; no validation is performed.
    pub fn new(supplied_name: String, arg_type: String) -> (a: Arg)
        ensures
            a.properties.wf(),
            a.properties@ == Map::<Seq<char>, Seq<char>>::empty().insert(
                "name"@,
                supplied_name@,
            ).insert("type"@, arg_type@),
    {
        let mut props = VariableMap::new();
        props.insert(String::from_str("name"), supplied_name);
        props.insert(String::from_str("type"), arg_type);
        Arg { properties: props }
    }
}

} // verus!
