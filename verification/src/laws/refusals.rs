//! Which documents are refused at their first tag.

use base64::DecodeError as Base64Error;
use vstd::prelude::*;
use vstd::std_specs::convert::FromSpec;

use crate::deserializer::decoded;
use crate::document::{attribute_is, document, has_attribute, is_decodable, opens};
use crate::dom::{RbxId, TreeView};
use crate::error::{DecodeError, ErrorView, FloatError, XmlError};
use crate::event::{EventView, Stream};
use crate::reader::message;
use crate::state::{apply_edits, fresh_state, Base};

verus! {

/// A document opens with the tag `roblox`.
pub open spec fn opens_as_model(stream: Stream) -> bool {
    &&& stream.len() > 0
    &&& stream[0] == Ok::<_, Seq<char>>(EventView::StartDocument)
    &&& opens(stream.drop_first(), "roblox"@)
}

/// The outermost tag of a document says that it has version four, and nothing
/// else of its version.
pub open spec fn is_version_four(stream: Stream) -> bool {
    let attributes = stream.drop_first()[0]->Ok_0->StartElement_attributes;
    &&& has_attribute(attributes, "version"@)
    &&& attribute_is(attributes, "version"@, "4"@)
}

/// Only models of version four are decoded. Every other document is refused
/// and leaves the tree as it was.
pub proof fn law_only_version_four_is_decoded(stream: Stream, tree: TreeView, parent: RbxId)
    ensures
        document(stream).outcome is Ok ==> opens_as_model(stream) && is_version_four(stream),
        !(opens_as_model(stream) && is_version_four(stream)) ==> {
            &&& is_decodable(stream)
            &&& decoded(stream, tree, parent).0 is Err
            &&& decoded(stream, tree, parent).1 == tree
        },
{
    let base = Base { parent, first: tree.len() };
    assert(apply_edits(base, fresh_state(tree), Seq::empty()) == fresh_state(tree));
}

/// A model of another version is told so, and one that does not say its
/// version is told that.
pub proof fn law_versions_are_told(stream: Stream, tree: TreeView, parent: RbxId)
    requires
        opens_as_model(stream),
    ensures
        ({
            let attributes = stream.drop_first()[0]->Ok_0->StartElement_attributes;
            &&& !attribute_is(attributes, "version"@, "4"@) ==> decoded(stream, tree, parent).0
                == Err::<(), ErrorView>(message("Not version 4"@))
            &&& !has_attribute(attributes, "version"@) ==> decoded(stream, tree, parent).0 == Err::<
                (),
                ErrorView,
            >(message("No version field"@))
        }),
{
}


/// An error of decoding says what caused it, and no two causes are told alike.
pub proof fn law_errors_say_their_cause(
    fault: XmlError,
    text: FloatError,
    integer: std::num::ParseIntError,
    data: Base64Error,
)
    ensures
        <DecodeError as FromSpec<XmlError>>::from_spec(fault)@ == ErrorView::XmlError(
            fault.message@,
        ),
        <DecodeError as FromSpec<FloatError>>::from_spec(text)@ == ErrorView::ParseFloatError(
            text.text@,
        ),
        <DecodeError as FromSpec<std::num::ParseIntError>>::from_spec(integer)@
            == ErrorView::ParseIntError(integer),
        <DecodeError as FromSpec<Base64Error>>::from_spec(data)@ == ErrorView::DecodeBase64Error(
            data,
        ),
{
}

}
