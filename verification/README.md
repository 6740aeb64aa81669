# rbx_xml

A decoder for the XML model and place formats of Roblox (`.rbxmx` and
`.rbxlx`), written in Rust and proved with Verus.

## The library

* `event` – the events of an XML document, and the call into the `xml` crate
  that yields them.
* `reader` – `XmlEventReader`, which reads events one after another, and what
  each way of reading yields.
* `text`, `types`, `reflection` – texts, property values, and the names of
  properties.
* `document` – what a stream of events says: the edits that it makes to a tree,
  and how it ends.
* `dom` – the tree of instances that documents are decoded into.
* `state` – what decoding keeps track of, and what each edit does to it.
* `deserializer` – `decode` and `decode_str`, proved to do what the document
  says.
* `weak` – decoding into a tree of the `rbx_dom_weak` crate.
* `error` – the ways in which decoding can fail.
* `laws` – what holds of decoding as a whole. Among other things: decoding a
  document that was written down gives back what was written, with every
  reference made; decoding leaves all that a tree held as it was; and what was
  a tree stays a tree.

Numbers in property values are kept as the documents write them down. They are
checked to be floating-point literals, and left to be worked out by the caller.

A document in which an instance holds anything but tags has no answer, and
neither has one whose instances have no place to go: `decode` asks for there to
be an answer, and `try_decode` tells whether there is.

## What is trusted

Every item that Verus takes on trust has a doc comment that says what it claims
of the function behind it: the parser of the `xml` crate, `u32::from_str`, the
`clone` of two error types, and two methods of `rbx_dom_weak::RbxTree`.

## The application crate

`app` wraps the library for callers who have a reader and a
`rbx_dom_weak::RbxTree`: it reads the source, works out the numbers, and turns
errors into ones that can be displayed.
