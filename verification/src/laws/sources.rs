//! Decoding strings and decoding bytes.

use vstd::prelude::*;
use vstd::string::StringSliceAdditionalSpecFns;

use crate::deserializer::{decoded, decodes_to, has_answer};
use crate::document::{document, Stop};
use crate::dom::{RbxId, TreeView};
use crate::error::{DecodeError, ErrorView};
use crate::event::xml_events;
use crate::reader::{significant, unit_view};

verus! {

/// Decoding a string does the same as decoding its bytes: the one has an answer
/// where the other has, both end alike, to the very error, and both leave the
/// same tree.
pub proof fn law_strings_decode_as_their_bytes(
    text: &str,
    bytes: &[u8],
    tree: TreeView,
    parent: RbxId,
    text_result: Result<(), DecodeError>,
    text_tree: TreeView,
    bytes_result: Result<(), DecodeError>,
    bytes_tree: TreeView,
)
    requires
        bytes@ == text.spec_bytes(),
        decodes_to(text.spec_bytes(), tree, parent, text_result, text_tree),
        decodes_to(bytes@, tree, parent, bytes_result, bytes_tree),
    ensures
        has_answer(text.spec_bytes(), tree, parent) == has_answer(bytes@, tree, parent),
        unit_view(text_result) == unit_view(bytes_result),
        text_tree == bytes_tree,
{
}


/// Decoding bytes has an answer unless an instance of the document holds
/// something else than tags, or there is no instance to put those of the
/// document under; and its answer is what the events of the document say.
pub proof fn law_documents_decide_what_comes_of_sources(
    source: Seq<u8>,
    tree: TreeView,
    parent: RbxId,
    result: Result<(), DecodeError>,
    after: TreeView,
)
    ensures
        ({
            let read = document(significant(xml_events(source)));
            &&& has_answer(source, tree, parent) <==> {
                &&& read.outcome != Err::<(), Stop>(Stop::Unexpected)
                &&& read.opened == 0 || parent.index < tree.len()
            }
            &&& decodes_to(source, tree, parent, result, after) ==> match read.outcome {
                Ok(_) => result is Ok,
                Err(Stop::Error(error)) => unit_view(result) == Err::<(), ErrorView>(error),
                Err(Stop::Unexpected) => true,
            }
            &&& decodes_to(source, tree, parent, result, after) ==> after == decoded(
                significant(xml_events(source)),
                tree,
                parent,
            ).1
        }),
{
}

}
