//! What is written can be passed over by a reader that does not know it,
//! and the fields of a record stand on the wire in the order of their tags.

use crate::de::read::{
    items_len, lemma_le_value_le_bytes, lemma_seek_from_step, lemma_tail_tail, parse_header,
    payload_len, seek, seek_from, shifted, tail, Header,
};
use crate::error::Error;
use crate::roundtrip::{
    emits, lemma_assoc, lemma_block_field, lemma_bytes_field, lemma_front, lemma_image_shape,
    lemma_parse_header, payload_of, wire_of,
};
use crate::ser::pack::{header_bytes, le_bytes, tag_width};
use crate::ser::{fields_image, fits, image, items_image};
use crate::value::ValueView;
use crate::wire::Wire;
use vstd::prelude::*;
use vstd::utf8::encode_utf8;

verus! {

/// A search from the start of a value is the search from behind its header,
/// with the header in hand.
#[verifier::spinoff_prover]
proof fn lemma_seek_header(wire: Wire, tag: u16, rest: Seq<u8>, target: u16)
    ensures
        seek(None, header_bytes(wire, tag) + rest, target) == shifted(
            seek_from(Header { wire, tag }, rest, target),
            tag_width(tag) as int + 1,
        ),
{
    lemma_parse_header(wire, tag, rest);
}

/// A search with the header of a lower tag in hand is the search from
/// behind its payload.
#[verifier::spinoff_prover]
proof fn lemma_seek_payload(hdr: Header, payload: Seq<u8>, target: u16, more: Seq<u8>)
    requires
        hdr.tag < target,
        payload_len(hdr.wire, payload + more) == Ok::<nat, Error>(payload.len()),
    ensures
        seek_from(hdr, payload + more, target) == shifted(
            seek(None, more, target),
            payload.len() as int,
        ),
{
    lemma_seek_from_step(hdr, payload + more, target);
    assert(tail(payload + more, payload.len()) =~= more);
    if let Some((next, hl)) = parse_header(more) {
        lemma_tail_tail(payload + more, payload.len(), hl);
    }
}

/// A reader that looks for a field passes over a value with a lower tag,
/// whatever its wire class, and goes on behind it.
#[verifier::spinoff_prover]
pub proof fn lemma_seek_passes_over(
    wire: Wire,
    tag: u16,
    payload: Seq<u8>,
    target: u16,
    more: Seq<u8>,
)
    requires
        tag < target,
        payload_len(wire, payload + more) == Ok::<nat, Error>(payload.len()),
    ensures
        seek(None, header_bytes(wire, tag) + (payload + more), target) == shifted(
            seek(None, more, target),
            tag_width(tag) as int + 1 + payload.len(),
        ),
{
    lemma_seek_header(wire, tag, payload + more, target);
    lemma_seek_payload(Header { wire, tag }, payload, target, more);
}

/// Whether the count of every sequence in `v` is the number of values that
/// follow it on the wire: each of its elements puts a header there. The
/// sequences inside a record or a union are hidden by its length.
pub open spec fn counted(v: ValueView) -> bool
    decreases v,
{
    match v {
        ValueView::Optional(Some(inner)) => counted(*inner),
        ValueView::Repeated(items) => forall|i: int|
            0 <= i < items.len() ==> emits(#[trigger] items[i]) && counted(items[i]),
        _ => true,
    }
}

/// What a value puts on the wire behind its header can be passed over by a
/// reader that knows nothing but its wire class.
#[verifier::spinoff_prover]
pub proof fn lemma_payload_skippable(v: ValueView, more: Seq<u8>)
    requires
        emits(v),
        counted(v),
        fits(v),
    ensures
        payload_len(wire_of(v), payload_of(v) + more) == Ok::<nat, Error>(payload_of(v).len()),
    decreases v, 0nat,
{
    let s = payload_of(v) + more;
    match v {
        ValueView::Bytes(bytes) => {
            lemma_bytes_field(bytes, more);
        },
        ValueView::Text(text) => {
            lemma_bytes_field(encode_utf8(text), more);
        },
        ValueView::Optional(Some(inner)) => {
            lemma_payload_skippable(*inner, more);
        },
        ValueView::Repeated(items) => {
            let count = items.len() as int;
            assert(s.take(4) =~= le_bytes(count, 4));
            lemma_le_value_le_bytes(count, 4);
            assert(tail(s, 4) =~= items_image(items, 0) + more);
            lemma_items_skippable(items, 0, more);
        },
        ValueView::Record(fields) => {
            let body = fields_image(fields, 0);
            assert(s =~= le_bytes(body.len() as int, 4) + body + more);
            lemma_block_field(body, more);
        },
        ValueView::Union(arm, inner) => {
            let body = image(arm, *inner);
            assert(s =~= le_bytes(body.len() as int, 4) + body + more);
            lemma_block_field(body, more);
        },
        _ => {},
    }
}

/// What the elements of a sequence put on the wire can be passed over one
/// by one.
#[verifier::spinoff_prover]
pub proof fn lemma_items_skippable(items: Seq<ValueView>, from: nat, more: Seq<u8>)
    requires
        from <= items.len(),
        forall|i: int|
            0 <= i < items.len() ==> {
                let item = #[trigger] items[i];
                emits(item) && counted(item) && fits(item)
            },
    ensures
        items_len((items.len() - from) as nat, items_image(items, from) + more) == Ok::<
            nat,
            Error,
        >(items_image(items, from).len()),
    decreases items, items.len() - from,
{
    if from < items.len() {
        let first = items[from as int];
        let behind = items_image(items, from + 1) + more;
        let s = items_image(items, from) + more;
        let head = header_bytes(wire_of(first), 0);
        lemma_image_shape(0, first);
        assert(s =~= head + (payload_of(first) + behind));
        lemma_parse_header(wire_of(first), 0, payload_of(first) + behind);
        lemma_payload_skippable(first, behind);
        assert(tail(payload_of(first) + behind, payload_of(first).len()) =~= behind);
        lemma_tail_tail(s, head.len(), payload_of(first).len());
        lemma_items_skippable(items, from + 1, more);
    }
}

/// The tags of the values that stand in `s` one behind the other, if `s` is
/// made of whole values.
pub open spec fn tags_in(s: Seq<u8>) -> Option<Seq<u16>>
    decreases s.len(),
{
    if s.len() == 0 {
        Some(Seq::empty())
    } else {
        match parse_header(s) {
            None => None,
            Some((hdr, hl)) => match payload_len(hdr.wire, tail(s, hl)) {
                Err(_) => None,
                Ok(n) => match tags_in(tail(s, hl + n)) {
                    None => None,
                    Some(behind) => Some(seq![hdr.tag] + behind),
                },
            },
        }
    }
}

/// Whether each of `tags` is greater than the one before it, and the first
/// greater than `floor`.
pub open spec fn ascending_above(tags: Seq<u16>, floor: int) -> bool {
    &&& forall|i: int| 0 <= i < tags.len() ==> floor < #[trigger] tags[i]
    &&& forall|i: int, j: int| 0 <= i < j < tags.len() ==> tags[i] < tags[j]
}

/// The tags in a value and what stands behind it are its tag and the tags
/// behind it.
#[verifier::spinoff_prover]
proof fn lemma_tags_step(wire: Wire, tag: u16, payload: Seq<u8>, behind: Seq<u8>)
    requires
        payload_len(wire, payload + behind) == Ok::<nat, Error>(payload.len()),
    ensures
        tags_in(header_bytes(wire, tag) + (payload + behind)) == match tags_in(behind) {
            None => None::<Seq<u16>>,
            Some(tags) => Some(seq![tag] + tags),
        },
{
    let head = header_bytes(wire, tag);
    lemma_parse_header(wire, tag, payload + behind);
    lemma_front(payload, behind);
    lemma_tail_tail(head + (payload + behind), head.len(), payload.len());
}

/// A tag in front of higher tags in ascending order keeps them in ascending
/// order.
#[verifier::spinoff_prover]
proof fn lemma_ascending_cons(tag: u16, tags: Seq<u16>, floor: int)
    requires
        floor < tag,
        ascending_above(tags, tag as int),
    ensures
        ascending_above(seq![tag] + tags, floor),
{
    let all = seq![tag] + tags;
    assert forall|i: int| 0 <= i < all.len() implies floor < #[trigger] all[i] by {
        if i > 0 {
            assert(all[i] == tags[i - 1]);
        }
    }
    assert forall|i: int, j: int| 0 <= i < j < all.len() implies all[i] < all[j] by {
        assert(all[j] == tags[j - 1]);
        if i > 0 {
            assert(all[i] == tags[i - 1]);
        }
    }
}

/// What the fields of a record put on the wire is made of whole values,
/// whose tags come in strictly ascending order.
#[verifier::spinoff_prover]
pub proof fn lemma_fields_ascending(fields: Seq<ValueView>, from: nat)
    requires
        from <= fields.len() <= u16::MAX,
        forall|i: int|
            0 <= i < fields.len() ==> {
                let field = #[trigger] fields[i];
                counted(field) && fits(field)
            },
    ensures
        tags_in(fields_image(fields, from)) matches Some(tags) && ascending_above(
            tags,
            from as int,
        ),
    decreases fields.len() - from,
{
    if from < fields.len() {
        let first = fields[from as int];
        let tag = (from + 1) as u16;
        let behind = fields_image(fields, from + 1);
        lemma_fields_ascending(fields, from + 1);
        let tags = tags_in(behind).unwrap();
        lemma_image_shape(tag, first);
        if emits(first) {
            let head = header_bytes(wire_of(first), tag);
            let payload = payload_of(first);
            lemma_assoc(head, payload, behind);
            lemma_payload_skippable(first, behind);
            lemma_tags_step(wire_of(first), tag, payload, behind);
            lemma_ascending_cons(tag, tags, from as int);
        } else {
            assert(fields_image(fields, from) =~= behind);
        }
    }
}

} // verus!
