//! What holds of reading events.

use vstd::prelude::*;

use crate::error::ErrorView;
use crate::event::{AttributeView, EventView, ItemView, Stream};
use crate::reader::{
    character_data, characters, closing_tag, is_significant, lemma_run_length, opening_tag,
    run_length, run_text, significant, skip_tag, tag_contents,
};

verus! {

/// The opening tag of an element.
pub open spec fn start(name: Seq<char>, attributes: Seq<AttributeView>) -> ItemView {
    Ok(EventView::StartElement { name, attributes })
}

/// The closing tag of an element.
pub open spec fn end(name: Seq<char>) -> ItemView {
    Ok(EventView::EndElement { name })
}

/// Standalone whitespace may stand anywhere in a document and matters nowhere.
pub proof fn law_whitespace_is_insignificant(before: Stream, after: Stream)
    ensures
        significant(before + seq![Ok::<_, Seq<char>>(EventView::Whitespace)] + after)
            == significant(before + after),
{
    let space: Stream = seq![Ok(EventView::Whitespace)];
    let keep = |item: ItemView| is_significant(item);
    Seq::filter_distributes_over_add(before + space, after, keep);
    Seq::filter_distributes_over_add(before, space, keep);
    Seq::filter_distributes_over_add(before, after, keep);
    reveal_with_fuel(Seq::filter, 2);
    assert(space.drop_last().filter(keep) =~= Seq::empty());
    assert(space.filter(keep) =~= Seq::empty());
    assert(before.filter(keep) + space.filter(keep) =~= before.filter(keep));
}

/// Nothing but standalone whitespace is left out.
pub proof fn law_only_whitespace_is_left_out(stream: Stream)
    requires
        forall|i: int|
            0 <= i < stream.len() ==> (#[trigger] stream[i]) != Ok::<_, Seq<char>>(
                EventView::Whitespace,
            ),
    ensures
        significant(stream) == stream,
    decreases stream.len(),
{
    let keep = |item: ItemView| is_significant(item);
    reveal_with_fuel(Seq::filter, 1);
    if stream.len() > 0 {
        let earlier = stream.drop_last();
        assert(forall|i: int| 0 <= i < earlier.len() ==> (#[trigger] earlier[i]) == stream[i]);
        law_only_whitespace_is_left_out(earlier);
        assert(stream.last() == stream[stream.len() - 1]);
        assert(earlier.push(stream.last()) =~= stream);
    } else {
        assert(stream.filter(keep) =~= stream);
    }
}

/// What is filtered once has nothing left to filter.
pub proof fn law_filtering_is_idempotent(stream: Stream)
    ensures
        significant(significant(stream)) == significant(stream),
    decreases stream.len(),
{
    let keep = |item: ItemView| is_significant(item);
    reveal_with_fuel(Seq::filter, 1);
    if stream.len() > 0 {
        law_filtering_is_idempotent(stream.drop_last());
        let kept = stream.drop_last().filter(keep);
        assert(kept.push(stream.last()).drop_last() =~= kept);
    }
}

/// Reading character data takes all of it up to the next event that is none,
/// and leaves that one to be read.
pub proof fn law_characters_stop_at_tags(text: Stream, rest: Stream)
    requires
        forall|i: int| 0 <= i < text.len() ==> character_data(#[trigger] text[i]) is Some,
        rest.len() > 0 ==> rest[0] is Ok && character_data(rest[0]) is None,
    ensures
        characters(text + rest) == (Ok::<Seq<char>, ErrorView>(run_text(text)), rest),
{
    lemma_run(text, rest);
    assert((text + rest).skip(text.len() as int) =~= rest);
}

/// A run of text ends where the text does.
pub proof fn lemma_run(text: Stream, rest: Stream)
    requires
        forall|i: int| 0 <= i < text.len() ==> character_data(#[trigger] text[i]) is Some,
        rest.len() > 0 ==> character_data(rest[0]) is None,
    ensures
        run_length(text + rest) == text.len(),
        run_text(text + rest) == run_text(text),
    decreases text.len(),
{
    let stream = text + rest;
    if text.len() > 0 {
        assert(stream[0] == text[0]);
        assert(stream.drop_first() =~= text.drop_first() + rest);
        lemma_run(text.drop_first(), rest);
    }
}

/// A tag that holds nothing but text reads as its text. The name of the closing
/// tag is for the parser to see to.
pub proof fn law_tags_read_as_their_text(
    name: Seq<char>,
    attributes: Seq<AttributeView>,
    text: Stream,
    closing: Seq<char>,
    rest: Stream,
)
    requires
        forall|i: int| 0 <= i < text.len() ==> character_data(#[trigger] text[i]) is Some,
    ensures
        tag_contents(seq![start(name, attributes)] + text + seq![end(closing)] + rest, name) == (
            Ok::<Seq<char>, ErrorView>(run_text(text)),
            rest,
        ),
{
    let behind = seq![end(closing)] + rest;
    let stream = seq![start(name, attributes)] + text + seq![end(closing)] + rest;
    assert(stream.drop_first() =~= text + behind);
    assert(behind.drop_first() =~= rest);
    law_characters_stop_at_tags(text, behind);
}

/// It does not matter how a document divides a text: two pieces side by side
/// read as one piece does, be they plain or marked as character data.
pub proof fn law_characters_join(
    first: ItemView,
    second: ItemView,
    whole: ItemView,
    rest: Stream,
)
    requires
        character_data(first) is Some,
        character_data(second) is Some,
        character_data(whole) == Some(character_data(first)->0 + character_data(second)->0),
    ensures
        characters(seq![first, second] + rest) == characters(seq![whole] + rest),
{
    let divided = seq![first, second] + rest;
    let joined = seq![whole] + rest;
    assert(divided.drop_first() =~= seq![second] + rest);
    assert(divided.drop_first().drop_first() =~= rest);
    assert(joined.drop_first() =~= rest);
    lemma_run_length(rest);
    let length = run_length(rest) as int;
    reveal_with_fuel(run_length, 3);
    reveal_with_fuel(run_text, 3);
    assert(run_length(divided.drop_first()) == length + 1);
    assert(run_length(divided) == length + 2);
    assert(run_length(joined) == length + 1);
    assert(run_text(divided.drop_first()) == character_data(second)->0 + run_text(rest));
    assert(run_text(divided) == character_data(first)->0 + (character_data(second)->0 + run_text(
        rest,
    )));
    assert(run_text(divided) =~= run_text(joined));
    assert(divided.skip(length + 2) =~= joined.skip(length + 1));
    if length < rest.len() {
        assert(divided[length + 2] == rest[length]);
        assert(joined[length + 1] == rest[length]);
        assert(divided.skip(length + 3) =~= joined.skip(length + 2));
    }
}

/// How many more tags an event leaves open.
pub open spec fn depth_change(item: ItemView) -> int {
    match item {
        Ok(EventView::StartElement { .. }) => 1,
        Ok(EventView::EndElement { .. }) => -1,
        _ => 0,
    }
}

/// How many more tags a stream leaves open.
pub open spec fn depth(stream: Stream) -> int
    decreases stream.len(),
{
    if stream.len() == 0 {
        0
    } else {
        depth_change(stream[0]) + depth(stream.drop_first())
    }
}

/// Every tag that opens in the stream closes in it, no other one does, and it
/// holds no fault.
pub open spec fn is_balanced(stream: Stream) -> bool {
    &&& forall|i: int| 0 <= i < stream.len() ==> (#[trigger] stream[i]) is Ok
    &&& forall|k: int| 0 <= k <= stream.len() ==> depth(#[trigger] stream.take(k)) >= 0
    &&& depth(stream) == 0
}

/// Skipping an element takes the element, whatever it holds, and nothing more.
pub proof fn law_skipping_takes_one_element(
    opening: Seq<char>,
    attributes: Seq<AttributeView>,
    inside: Stream,
    closing: Seq<char>,
    rest: Stream,
)
    requires
        is_balanced(inside),
    ensures
        skip_tag(seq![start(opening, attributes)] + inside + seq![end(closing)] + rest, 0) == (
            Ok::<(), ErrorView>(()),
            rest,
        ),
{
    let behind = seq![end(closing)] + rest;
    let stream = seq![start(opening, attributes)] + inside + seq![end(closing)] + rest;
    assert(stream.drop_first() =~= inside + behind);
    assert(behind.drop_first() =~= rest);
    lemma_skip(inside, behind, 1);
}

proof fn lemma_skip(inside: Stream, behind: Stream, open: int)
    requires
        forall|i: int| 0 <= i < inside.len() ==> (#[trigger] inside[i]) is Ok,
        forall|k: int| 0 <= k <= inside.len() ==> open + depth(#[trigger] inside.take(k)) >= 1,
    ensures
        skip_tag(inside + behind, open) == skip_tag(behind, open + depth(inside)),
    decreases inside.len(),
{
    let stream = inside + behind;
    if inside.len() == 0 {
        assert(stream =~= behind);
    } else {
        let later = inside.drop_first();
        let change = depth_change(inside[0]);
        assert(stream[0] == inside[0]);
        assert(stream.drop_first() =~= later + behind);
        assert forall|k: int| 0 <= k <= later.len() implies open + change + depth(
            #[trigger] later.take(k),
        ) >= 1 by {
            let longer = inside.take(k + 1);
            assert(longer.drop_first() =~= later.take(k));
            assert(depth(longer) == change + depth(later.take(k)));
        }
        assert(depth(later.take(0)) == 0);
        lemma_skip(later, behind, open + change);
    }
}


/// No closing tag of the stream leaves as many tags open as were open in front
/// of it.
pub open spec fn is_unclosed(stream: Stream) -> bool {
    &&& forall|i: int| 0 <= i < stream.len() ==> (#[trigger] stream[i]) is Ok
    &&& forall|k: int|
        0 < k <= stream.len() && stream[k - 1]->Ok_0 is EndElement ==> depth(
            #[trigger] stream.take(k),
        ) != 0
}

proof fn lemma_skip_on(inside: Stream, behind: Stream, open: int)
    requires
        forall|i: int| 0 <= i < inside.len() ==> (#[trigger] inside[i]) is Ok,
        forall|k: int|
            0 < k <= inside.len() && inside[k - 1]->Ok_0 is EndElement ==> open + depth(
                #[trigger] inside.take(k),
            ) != 0,
    ensures
        skip_tag(inside + behind, open) == skip_tag(behind, open + depth(inside)),
    decreases inside.len(),
{
    let stream = inside + behind;
    if inside.len() == 0 {
        assert(stream =~= behind);
    } else {
        let later = inside.drop_first();
        let change = depth_change(inside[0]);
        assert(stream[0] == inside[0]);
        assert(stream.drop_first() =~= later + behind);
        assert(inside.take(1).drop_first() =~= Seq::empty());
        assert(depth(inside.take(1).drop_first()) == 0);
        assert(depth(inside.take(1)) == change);
        assert forall|k: int|
            0 < k <= later.len() && later[k - 1]->Ok_0 is EndElement implies open + change + depth(
            #[trigger] later.take(k),
        ) != 0 by {
            let longer = inside.take(k + 1);
            assert(longer.drop_first() =~= later.take(k));
            assert(depth(longer) == change + depth(later.take(k)));
            assert(later[k - 1] == inside[k]);
        }
        assert(forall|i: int| 0 <= i < later.len() ==> (#[trigger] later[i]) == inside[i + 1]);
        lemma_skip_on(later, behind, open + change);
    }
}

/// Skipping ends behind the closing tag that leaves as many tags open as were
/// open in front of all, and no sooner. On the way there a fault is told, and
/// so is the end of the stream.
pub proof fn law_skipping_ends_with_the_tags(
    inside: Stream,
    closing: Seq<char>,
    fault: Seq<char>,
    rest: Stream,
)
    requires
        is_unclosed(inside),
    ensures
        depth(inside) == 1 ==> skip_tag(inside + seq![end(closing)] + rest, 0) == (
            Ok::<(), ErrorView>(()),
            rest,
        ),
        skip_tag(inside + seq![Err(fault)] + rest, 0) == (
            Err::<(), ErrorView>(ErrorView::XmlError(fault)),
            rest,
        ),
        skip_tag(inside, 0) == (
            Err::<(), ErrorView>(ErrorView::Message("Unexpected EOF"@)),
            Seq::<ItemView>::empty(),
        ),
{
    let closed = seq![end(closing)] + rest;
    let broken = seq![Err::<EventView, Seq<char>>(fault)] + rest;
    assert(inside + seq![end(closing)] + rest =~= inside + closed);
    assert(inside + seq![Err(fault)] + rest =~= inside + broken);
    assert(inside + Seq::<ItemView>::empty() =~= inside);
    assert(closed.drop_first() =~= rest);
    assert(broken.drop_first() =~= rest);
    lemma_skip_on(inside, closed, 0);
    lemma_skip_on(inside, broken, 0);
    lemma_skip_on(inside, Seq::empty(), 0);
}

/// An expected opening tag is taken by its name alone. A tag of another name is
/// refused with the complaint, another event and the end of the stream as
/// malformed, and a fault is told; what was looked at is gone.
pub proof fn law_opening_tags_are_expected_by_name(
    name: Seq<char>,
    complaint: Seq<char>,
    first: ItemView,
    rest: Stream,
)
    ensures
        ({
            let (outcome, behind) = opening_tag(seq![first] + rest, name, complaint);
            &&& behind == rest
            &&& outcome is Ok <==> exists|attributes: Seq<AttributeView>|
                first == #[trigger] start(name, attributes)
            &&& first is Err ==> outcome == Err::<(), ErrorView>(
                ErrorView::XmlError(first->Err_0),
            )
            &&& first is Ok && !(first->Ok_0 is StartElement) ==> outcome == Err::<(), ErrorView>(
                ErrorView::MalformedDocument,
            )
            &&& first is Ok && first->Ok_0 is StartElement && first->Ok_0->StartElement_name != name
                ==> outcome == Err::<(), ErrorView>(ErrorView::Message(complaint))
        }),
        opening_tag(Seq::empty(), name, complaint) == (
            Err::<(), ErrorView>(ErrorView::MalformedDocument),
            Seq::<ItemView>::empty(),
        ),
{
    let stream = seq![first] + rest;
    assert(stream[0] == first);
    assert(stream.drop_first() =~= rest);
    if first is Ok && first->Ok_0 is StartElement && first->Ok_0->StartElement_name == name {
        assert(first == start(name, first->Ok_0->StartElement_attributes));
    }
}

/// An expected closing tag is taken by its name alone, and all else is refused
/// as it is in place of an opening tag.
pub proof fn law_closing_tags_are_expected_by_name(
    name: Seq<char>,
    complaint: Seq<char>,
    first: ItemView,
    rest: Stream,
)
    ensures
        ({
            let (outcome, behind) = closing_tag(seq![first] + rest, name, complaint);
            &&& behind == rest
            &&& outcome is Ok <==> first == end(name)
            &&& first is Err ==> outcome == Err::<(), ErrorView>(
                ErrorView::XmlError(first->Err_0),
            )
            &&& first is Ok && !(first->Ok_0 is EndElement) ==> outcome == Err::<(), ErrorView>(
                ErrorView::MalformedDocument,
            )
            &&& first is Ok && first->Ok_0 is EndElement && first != end(name) ==> outcome == Err::<
                (),
                ErrorView,
            >(ErrorView::Message(complaint))
        }),
        closing_tag(Seq::empty(), name, complaint) == (
            Err::<(), ErrorView>(ErrorView::MalformedDocument),
            Seq::<ItemView>::empty(),
        ),
{
    let stream = seq![first] + rest;
    assert(stream[0] == first);
    assert(stream.drop_first() =~= rest);
}

}
