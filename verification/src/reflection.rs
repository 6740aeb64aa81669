//! Which names the properties of an XML document go by.

use vstd::prelude::*;

use crate::text::text_eq;

verus! {

/// The name of the property that documents call `xml_name`. Most properties
/// are called by their names.
pub open spec fn canonical(xml_name: Seq<char>) -> Seq<char> {
    if xml_name == "size"@ {
        "Size"@
    } else {
        xml_name
    }
}

/// The name of the property that documents call `xml_name`.
pub fn canonical_name(xml_name: String) -> (name: String)
    ensures
        name@ == canonical(xml_name@),
{
    if text_eq(xml_name.as_str(), "size") {
        "Size".to_owned()
    } else {
        xml_name
    }
}

}
