//! Packing and unpacking are inverse: what is written is read back as it
//! was, for single values of the packer and for whole records.

use crate::de::read::{
    block_len, bytes_field, find, find_optional, le_value, lemma_le_signed_le_bytes,
    lemma_le_value_le_bytes, parse_header, seek, seek_from, tail, Cursor, Header,
};
use crate::de::{
    block_field, decode, decode_fields, decode_items, decode_payload, fixed_field, fresh,
    integer_field, parse, scalar_of,
};
use crate::error::Error;
use crate::ser::pack::{
    byte_image, bytes_image, header_bytes, i32_image, int_width, int_wire, le_bytes,
    lemma_le_bytes_twos64, len_image, len_width, len_wire, quad_image, radix, repeated_len_image,
    tag_width,
};
use crate::ser::{encoding, fields_image, fits, fits_fields, image, items_image, wire_int};
use crate::value::{has_kind, in_kind, Kind, ScalarKind, ValueView};
use crate::wire::Wire;
use vstd::prelude::*;
use vstd::utf8::encode_utf8;

verus! {

/// Whether `v` puts a header on the wire: a unit and an absent value put
/// nothing there.
pub open spec fn emits(v: ValueView) -> bool
    decreases v,
{
    match v {
        ValueView::Unit => false,
        ValueView::Optional(None) => false,
        ValueView::Optional(Some(inner)) => emits(*inner),
        _ => true,
    }
}

/// Whether reading `v` back ends with a search that finds an optional value
/// missing: an absent value does, and so does a value that ends with one.
pub open spec fn open_ended(v: ValueView) -> bool
    decreases v,
{
    match v {
        ValueView::Optional(None) => true,
        ValueView::Optional(Some(inner)) => open_ended(*inner),
        ValueView::Repeated(items) => exists|i: int|
            0 <= i < items.len() && open_ended(#[trigger] items[i]),
        _ => false,
    }
}

/// The tag under which the search at the end of reading `v` back looks,
/// where `v` itself stands under `tag`: the elements of a sequence stand
/// under tag 0.
pub open spec fn room_tag(v: ValueView, tag: u16) -> u16
    decreases v,
{
    match v {
        ValueView::Optional(Some(inner)) => room_tag(*inner, tag),
        ValueView::Repeated(_) => 0,
        _ => tag,
    }
}

/// Whether what `v` puts on the wire can be told from what another value of
/// its kind puts there. A present optional value and the value of a union
/// must each put a header there; and in a sequence, no element that puts a
/// header there may follow one that ends with an absent value.
pub open spec fn unambiguous(v: ValueView) -> bool
    decreases v,
{
    match v {
        ValueView::Optional(Some(inner)) => emits(*inner) && unambiguous(*inner),
        ValueView::Repeated(items) => {
            &&& forall|i: int| 0 <= i < items.len() ==> unambiguous(#[trigger] items[i])
            &&& forall|i: int, j: int|
                0 <= i < j < items.len() && open_ended(#[trigger] items[i]) ==> !emits(
                    #[trigger] items[j],
                )
        },
        ValueView::Record(fields) => forall|i: int|
            0 <= i < fields.len() ==> unambiguous(#[trigger] fields[i]),
        ValueView::Union(_, inner) => emits(*inner) && unambiguous(*inner),
        _ => true,
    }
}

/// Whether a reader at `c` has `stream` before it: either it stands at the
/// start of `stream`, or it has read the first header of `stream` ahead and
/// stands behind it.
pub open spec fn represents(c: Cursor, stream: Seq<u8>) -> bool {
    match c.pending {
        None => c.rest == stream,
        Some(hdr) => parse_header(stream) matches Some((first, len)) && first == hdr && c.rest
            == tail(stream, len),
    }
}

/// Whether `stream` has ended or goes on with a value tagged higher than
/// `tag`.
pub open spec fn starts_above(stream: Seq<u8>, tag: u16) -> bool {
    stream.len() == 0 || (parse_header(stream) matches Some((hdr, _)) && hdr.tag > tag)
}

/// Putting three runs of bytes together is the same either way.
#[verifier::spinoff_prover]
pub proof fn lemma_assoc(a: Seq<u8>, b: Seq<u8>, c: Seq<u8>)
    ensures
        a + b + c == a + (b + c),
{
    assert(a + b + c =~= a + (b + c));
}

/// The front of two runs of bytes put together is the first run, and what
/// is left without it is the second.
#[verifier::spinoff_prover]
pub proof fn lemma_front(a: Seq<u8>, b: Seq<u8>)
    ensures
        (a + b).take(a.len() as int) == a,
        tail(a + b, a.len()) == b,
{
    assert((a + b).take(a.len() as int) =~= a);
    assert(tail(a + b, a.len()) =~= b);
}

/// A header is read back as it was written.
#[verifier::spinoff_prover]
pub proof fn lemma_parse_header(wire: Wire, tag: u16, more: Seq<u8>)
    ensures
        parse_header(header_bytes(wire, tag) + more) == Some(
            (Header { wire, tag }, tag_width(tag) + 1),
        ),
        tail(header_bytes(wire, tag) + more, tag_width(tag) + 1) == more,
{
    let s = header_bytes(wire, tag) + more;
    let first = s[0] as int;
    assert(first == 32 * wire.class() + if tag <= 29 {
        tag as int
    } else if tag <= 255 {
        30
    } else {
        31
    });
    assert(first / 32 == wire.class());
    assert(Wire::of_class(wire.class()) == wire);
    if tag > 255 {
        assert(s[1] as int + 256 * s[2] as int == tag);
    }
    assert(tail(s, tag_width(tag) + 1) =~= more);
}

/// A reader that has a value tagged `tag` before it finds it, whether it
/// must be there or may be missing.
#[verifier::spinoff_prover]
pub proof fn lemma_find_hit(c: Cursor, wire: Wire, tag: u16, after: Seq<u8>)
    requires
        represents(c, header_bytes(wire, tag) + after),
    ensures
        find(c, tag) == Ok::<(Wire, Cursor), Error>((wire, fresh(after))),
        find_optional(c, tag) == Ok::<(Option<Wire>, Cursor), Error>(
            (Some(wire), Cursor { rest: after, pending: Some(Header { wire, tag }) }),
        ),
        represents(
            Cursor { rest: after, pending: Some(Header { wire, tag }) },
            header_bytes(wire, tag) + after,
        ),
{
    lemma_parse_header(wire, tag, after);
    let hdr = Header { wire, tag };
    assert(seek_from(hdr, after, tag) == Ok::<(Header, nat), Error>((hdr, 0)));
    assert(tail(after, 0) =~= after);
    match c.pending {
        None => {
            assert(seek(c.pending, c.rest, tag) == Ok::<(Header, nat), Error>(
                (hdr, tag_width(tag) + 1),
            ));
        },
        Some(_) => {
            assert(seek(c.pending, c.rest, tag) == Ok::<(Header, nat), Error>((hdr, 0)));
        },
    }
}

/// A reader that has the end of the input before it, or a value tagged
/// higher than `tag`, finds the field tagged `tag` missing, and has the same
/// before it afterwards.
#[verifier::spinoff_prover]
pub proof fn lemma_find_miss(c: Cursor, tag: u16, more: Seq<u8>)
    requires
        represents(c, more),
        starts_above(more, tag),
    ensures
        find_optional(c, tag) matches Ok((None, after)) && represents(after, more),
{
    if more.len() == 0 {
        assert(c.pending is None);
        assert(Seq::<u8>::empty() =~= more);
    } else {
        let (hdr, len) = parse_header(more).unwrap();
        assert(forall|s: Seq<u8>| seek_from(hdr, s, tag) == Ok::<(Header, nat), Error>((hdr, 0)));
        assert(tail(c.rest, 0) =~= c.rest);
        match c.pending {
            None => {
                assert(seek(c.pending, c.rest, tag) == Ok::<(Header, nat), Error>((hdr, len)));
            },
            Some(_) => {
                assert(seek(c.pending, c.rest, tag) == Ok::<(Header, nat), Error>((hdr, 0)));
            },
        }
    }
}

/// The wire class that the integer `w` travels in.
pub open spec fn scalar_wire(w: i64) -> Wire {
    if i32::MIN <= w <= i32::MAX {
        int_wire(w as int)
    } else {
        Wire::QUAD
    }
}

/// What a byte string puts behind its header: its length plus one, its
/// bytes, and a zero byte.
pub open spec fn string_payload(bytes: Seq<u8>) -> Seq<u8> {
    le_bytes(bytes.len() as int + 1, len_width(len_wire(bytes.len() as int + 1))) + bytes + seq![
        0u8,
    ]
}

/// The wire class in the header of a value that puts one on the wire.
pub open spec fn wire_of(v: ValueView) -> Wire
    decreases v,
{
    match v {
        ValueView::Scalar(kind, i) => scalar_wire(wire_int(kind, i)),
        ValueView::F32(_) => Wire::INT4,
        ValueView::F64(_) => Wire::QUAD,
        ValueView::Bytes(bytes) => len_wire(bytes.len() as int + 1),
        ValueView::Text(text) => len_wire(encode_utf8(text).len() as int + 1),
        ValueView::Optional(Some(inner)) => wire_of(*inner),
        ValueView::Repeated(_) => Wire::REPEAT,
        _ => Wire::BLK4,
    }
}

/// What a value puts on the wire behind its header.
pub open spec fn payload_of(v: ValueView) -> Seq<u8>
    decreases v,
{
    match v {
        ValueView::Scalar(kind, i) => le_bytes(
            wire_int(kind, i) as int,
            int_width(scalar_wire(wire_int(kind, i))),
        ),
        ValueView::F32(bits) => le_bytes(bits as int, 4),
        ValueView::F64(bits) => le_bytes(bits as int, 8),
        ValueView::Bytes(bytes) => string_payload(bytes),
        ValueView::Text(text) => string_payload(encode_utf8(text)),
        ValueView::Optional(Some(inner)) => payload_of(*inner),
        ValueView::Repeated(items) => le_bytes(items.len() as int, 4) + items_image(items, 0),
        ValueView::Record(fields) => le_bytes(fields_image(fields, 0).len() as int, 4)
            + fields_image(fields, 0),
        ValueView::Union(arm, inner) => le_bytes(image(arm, *inner).len() as int, 4) + image(
            arm,
            *inner,
        ),
        _ => Seq::empty(),
    }
}

/// What a value puts on the wire is its header and its payload, or nothing.
#[verifier::spinoff_prover]
pub proof fn lemma_image_shape(tag: u16, v: ValueView)
    ensures
        emits(v) ==> image(tag, v) == header_bytes(wire_of(v), tag) + payload_of(v),
        !emits(v) ==> image(tag, v) == Seq::<u8>::empty(),
    decreases v,
{
    match v {
        ValueView::Scalar(kind, i) => {
            let w = wire_int(kind, i);
            if !(i32::MIN <= w <= i32::MAX) {
                lemma_le_bytes_twos64(w as int, 8);
            }
        },
        ValueView::Bytes(bytes) => {
            assert(image(tag, v) =~= header_bytes(wire_of(v), tag) + payload_of(v));
        },
        ValueView::Text(text) => {
            assert(image(tag, v) =~= header_bytes(wire_of(v), tag) + payload_of(v));
        },
        ValueView::Optional(Some(inner)) => {
            lemma_image_shape(tag, *inner);
        },
        ValueView::Repeated(items) => {
            assert(image(tag, v) =~= header_bytes(wire_of(v), tag) + payload_of(v));
        },
        ValueView::Record(fields) => {
            assert(image(tag, v) =~= header_bytes(wire_of(v), tag) + payload_of(v));
        },
        ValueView::Union(arm, inner) => {
            assert(image(tag, v) =~= header_bytes(wire_of(v), tag) + payload_of(v));
        },
        _ => {},
    }
}

/// A scalar is read back from its payload.
#[verifier::spinoff_prover]
pub proof fn lemma_payload_scalar(kind: ScalarKind, i: int, more: Seq<u8>)
    requires
        in_kind(kind, i),
    ensures
        ({
            let v = ValueView::Scalar(kind, i);
            &&& decode_payload(Kind::Scalar(kind), wire_of(v), payload_of(v) + more) == Ok::<
                (ValueView, nat),
                Error,
            >((v, payload_of(v).len()))
            &&& tail(payload_of(v) + more, payload_of(v).len()) == more
        }),
{
    let v = ValueView::Scalar(kind, i);
    let w = wire_int(kind, i) as int;
    let wire = wire_of(v);
    let width = int_width(wire);
    let s = payload_of(v) + more;
    assert(1 <= width <= 8);
    assert(s.take(width as int) =~= le_bytes(w, width));
    assert(tail(s, width) =~= more);
    assert(-radix(width as int) <= 2 * w < radix(width as int));
    lemma_le_signed_le_bytes(w, width);
    assert(integer_field(wire, s) == Ok::<(int, nat), Error>((w, width)));
    assert(scalar_of(kind, w) == Ok::<int, Error>(i));
}

/// The bit images of floats are read back from their payloads.
#[verifier::spinoff_prover]
pub proof fn lemma_payload_float(v: ValueView, kind: Kind, more: Seq<u8>)
    requires
        has_kind(v, kind),
        v is F32 || v is F64,
    ensures
        decode_payload(kind, wire_of(v), payload_of(v) + more) == Ok::<(ValueView, nat), Error>(
            (v, payload_of(v).len()),
        ),
        tail(payload_of(v) + more, payload_of(v).len()) == more,
{
    let s = payload_of(v) + more;
    match v {
        ValueView::F32(bits) => {
            assert(s.take(4) =~= le_bytes(bits as int, 4));
            lemma_le_value_le_bytes(bits as int, 4);
            assert(fixed_field(Wire::INT4, 4, Wire::INT4, s) == Ok::<int, Error>(bits as int));
        },
        ValueView::F64(bits) => {
            assert(s.take(8) =~= le_bytes(bits as int, 8));
            lemma_le_value_le_bytes(bits as int, 8);
            assert(fixed_field(Wire::QUAD, 8, Wire::QUAD, s) == Ok::<int, Error>(bits as int));
        },
        _ => {},
    }
    assert(tail(s, payload_of(v).len()) =~= more);
}

/// A byte string is read back from its payload.
#[verifier::spinoff_prover]
pub proof fn lemma_bytes_field(bytes: Seq<u8>, more: Seq<u8>)
    requires
        bytes.len() < u32::MAX,
    ensures
        bytes_field(len_wire(bytes.len() as int + 1), string_payload(bytes) + more) == Ok::<
            (Seq<u8>, nat),
            Error,
        >((bytes, string_payload(bytes).len())),
        tail(string_payload(bytes) + more, string_payload(bytes).len()) == more,
{
    let n = bytes.len() as int + 1;
    let wire = len_wire(n);
    let w = len_width(wire);
    let s = string_payload(bytes) + more;
    assert(s.take(w as int) =~= le_bytes(n, w));
    lemma_le_value_le_bytes(n, w);
    assert(s.subrange(w as int, w + n - 1) =~= bytes);
    assert(s[w + n - 1] == 0);
    assert(tail(s, string_payload(bytes).len()) =~= more);
}

/// A block is read back from behind its four-byte length.
#[verifier::spinoff_prover]
pub proof fn lemma_block_field(body: Seq<u8>, more: Seq<u8>)
    requires
        body.len() <= u32::MAX,
    ensures
        block_field(Wire::BLK4, le_bytes(body.len() as int, 4) + body + more) == Ok::<
            (Seq<u8>, nat),
            Error,
        >((body, 4 + body.len())),
        tail(le_bytes(body.len() as int, 4) + body + more, 4 + body.len()) == more,
{
    let s = le_bytes(body.len() as int, 4) + body + more;
    assert(s.take(4) =~= le_bytes(body.len() as int, 4));
    lemma_le_value_le_bytes(body.len() as int, 4);
    assert(s.subrange(4, 4 + body.len() as int) =~= body);
    assert(tail(s, 4 + body.len()) =~= more);
}

/// What the fields of a record from `from` on put on the wire has ended, or
/// goes on with a tag above `from`.
#[verifier::spinoff_prover]
pub proof fn lemma_fields_start(fields: Seq<ValueView>, from: nat)
    requires
        from <= fields.len() <= u16::MAX,
    ensures
        starts_above(fields_image(fields, from), from as u16),
    decreases fields.len() - from,
{
    if from < fields.len() {
        let first = fields[from as int];
        let tag = (from + 1) as u16;
        let behind = fields_image(fields, from + 1);
        lemma_image_shape(tag, first);
        if emits(first) {
            lemma_assoc(header_bytes(wire_of(first), tag), payload_of(first), behind);
            lemma_parse_header(wire_of(first), tag, payload_of(first) + behind);
        } else {
            lemma_fields_start(fields, from + 1);
            assert(fields_image(fields, from) =~= behind);
        }
    }
}

/// The elements of a sequence from `from` on put nothing on the wire if
/// none of them puts a header there.
#[verifier::spinoff_prover]
pub proof fn lemma_items_silent(items: Seq<ValueView>, from: nat)
    requires
        from <= items.len(),
        forall|i: int| from <= i < items.len() ==> !emits(#[trigger] items[i]),
    ensures
        items_image(items, from) == Seq::<u8>::empty(),
    decreases items.len() - from,
{
    if from < items.len() {
        lemma_image_shape(0, items[from as int]);
        lemma_items_silent(items, from + 1);
        assert(items_image(items, from) =~= Seq::<u8>::empty());
    }
}

/// The search at the end of reading a value back never looks under a
/// higher tag than the value stands under.
#[verifier::spinoff_prover]
pub proof fn lemma_room_tag(v: ValueView, tag: u16)
    ensures
        room_tag(v, tag) <= tag,
        room_tag(v, 0) == 0,
    decreases v,
{
    if let ValueView::Optional(Some(inner)) = v {
        lemma_room_tag(*inner, tag);
        lemma_room_tag(*inner, 0);
    }
}

/// A unit or an absent value is read back from nothing, where the end or a
/// higher tag follows.
#[verifier::spinoff_prover]
proof fn lemma_decode_nothing(v: ValueView, kind: Kind, tag: u16, c: Cursor, more: Seq<u8>)
    requires
        has_kind(v, kind),
        v is Unit || v == ValueView::Optional(None),
        represents(c, more),
        v is Optional ==> starts_above(more, tag),
    ensures
        decode(kind, tag, c) matches Ok((found, after)) && found == v && represents(after, more),
{
    if v is Optional {
        lemma_find_miss(c, tag, more);
    }
}

/// A present optional value is read back, if the value in it is.
#[verifier::spinoff_prover]
proof fn lemma_decode_present(
    inner: ValueView,
    kind: Kind,
    tag: u16,
    c: Cursor,
    more: Seq<u8>,
    after: Cursor,
)
    requires
        kind is Optional,
        emits(inner),
        represents(c, image(tag, inner) + more),
        decode(
            *kind->Optional_0,
            tag,
            Cursor {
                rest: payload_of(inner) + more,
                pending: Some(Header { wire: wire_of(inner), tag }),
            },
        ) == Ok::<(ValueView, Cursor), Error>((inner, after)),
    ensures
        decode(kind, tag, c) == Ok::<(ValueView, Cursor), Error>(
            (ValueView::Optional(Some(Box::new(inner))), after),
        ),
{
    lemma_image_shape(tag, inner);
    let wire = wire_of(inner);
    let payload = payload_of(inner);
    lemma_assoc(header_bytes(wire, tag), payload, more);
    lemma_find_hit(c, wire, tag, payload + more);
}

/// A sequence is read back, if its elements are.
#[verifier::spinoff_prover]
#[verifier::rlimit(50)]
proof fn lemma_decode_repeated(
    items: Seq<ValueView>,
    kind: Kind,
    tag: u16,
    c: Cursor,
    more: Seq<u8>,
    after: Cursor,
)
    requires
        kind is Repeated,
        items.len() <= u32::MAX,
        represents(c, image(tag, ValueView::Repeated(items)) + more),
        decode_items(
            *kind->Repeated_0,
            items.len(),
            fresh(items_image(items, 0) + more),
        ) == Ok::<(Seq<ValueView>, Cursor), Error>((items, after)),
    ensures
        decode(kind, tag, c) == Ok::<(ValueView, Cursor), Error>(
            (ValueView::Repeated(items), after),
        ),
{
    let count = items.len() as int;
    let head = header_bytes(Wire::REPEAT, tag);
    let behind = items_image(items, 0) + more;
    let s = le_bytes(count, 4) + behind;
    lemma_assoc(head, le_bytes(count, 4), items_image(items, 0));
    lemma_assoc(head, le_bytes(count, 4) + items_image(items, 0), more);
    lemma_assoc(le_bytes(count, 4), items_image(items, 0), more);
    lemma_find_hit(c, Wire::REPEAT, tag, s);
    lemma_front(le_bytes(count, 4), behind);
    lemma_le_value_le_bytes(count, 4);
    assert(fixed_field(Wire::REPEAT, 4, Wire::REPEAT, s) == Ok::<int, Error>(count));
}

/// A value whose payload says where it ends is read back, if it is read
/// back from its payload.
#[verifier::spinoff_prover]
proof fn lemma_decode_delimited(v: ValueView, kind: Kind, tag: u16, c: Cursor, more: Seq<u8>)
    requires
        emits(v),
        !(v is Optional),
        !(v is Repeated),
        !(kind is Unit),
        !(kind is Optional),
        !(kind is Repeated),
        represents(c, image(tag, v) + more),
        decode_payload(kind, wire_of(v), payload_of(v) + more) == Ok::<(ValueView, nat), Error>(
            (v, payload_of(v).len()),
        ),
        tail(payload_of(v) + more, payload_of(v).len()) == more,
    ensures
        decode(kind, tag, c) == Ok::<(ValueView, Cursor), Error>((v, fresh(more))),
{
    lemma_image_shape(tag, v);
    let wire = wire_of(v);
    let payload = payload_of(v);
    lemma_assoc(header_bytes(wire, tag), payload, more);
    lemma_find_hit(c, wire, tag, payload + more);
}

/// A nested record is read back from its payload, if its fields are read
/// back from its body.
#[verifier::spinoff_prover]
proof fn lemma_payload_record(fields: Seq<ValueView>, kind: Kind, more: Seq<u8>)
    requires
        kind is Record,
        fields_image(fields, 0).len() <= u32::MAX,
        decode_fields(kind->Record_0@, 0, fresh(fields_image(fields, 0))) matches Ok((found, _))
            && found == fields,
    ensures
        ({
            let v = ValueView::Record(fields);
            &&& decode_payload(kind, wire_of(v), payload_of(v) + more) == Ok::<
                (ValueView, nat),
                Error,
            >((v, payload_of(v).len()))
            &&& tail(payload_of(v) + more, payload_of(v).len()) == more
        }),
{
    let body = fields_image(fields, 0);
    lemma_block_field(body, more);
}

/// A union is read back from its payload, if its value is read back from
/// its body.
#[verifier::spinoff_prover]
proof fn lemma_payload_union(arm: u16, inner: ValueView, kind: Kind, more: Seq<u8>)
    requires
        kind is Union,
        arm < kind->Union_0@.len(),
        emits(inner),
        image(arm, inner).len() <= u32::MAX,
        decode(
            kind->Union_0@[arm as int],
            arm,
            Cursor {
                rest: payload_of(inner),
                pending: Some(Header { wire: wire_of(inner), tag: arm }),
            },
        ) matches Ok((found, _)) && found == inner,
    ensures
        ({
            let v = ValueView::Union(arm, Box::new(inner));
            &&& decode_payload(kind, wire_of(v), payload_of(v) + more) == Ok::<
                (ValueView, nat),
                Error,
            >((v, payload_of(v).len()))
            &&& tail(payload_of(v) + more, payload_of(v).len()) == more
        }),
{
    let body = image(arm, inner);
    lemma_block_field(body, more);
    lemma_image_shape(arm, inner);
    lemma_parse_header(wire_of(inner), arm, payload_of(inner));
}

/// A byte string or a text is read back from its payload.
#[verifier::spinoff_prover]
proof fn lemma_payload_string(v: ValueView, kind: Kind, more: Seq<u8>)
    requires
        has_kind(v, kind),
        fits(v),
        v is Bytes || v is Text,
    ensures
        decode_payload(kind, wire_of(v), payload_of(v) + more) == Ok::<(ValueView, nat), Error>(
            (v, payload_of(v).len()),
        ),
        tail(payload_of(v) + more, payload_of(v).len()) == more,
{
    match v {
        ValueView::Bytes(bytes) => {
            lemma_bytes_field(bytes, more);
        },
        ValueView::Text(text) => {
            lemma_bytes_field(encode_utf8(text), more);
            vstd::utf8::encode_utf8_valid_utf8(text);
            vstd::utf8::encode_utf8_decode_utf8(text);
        },
        _ => {},
    }
}

/// A value is read back from what it puts on the wire, whatever follows,
/// as long as a value that ends with an absent one is followed by the end
/// or by a higher tag.
#[verifier::spinoff_prover]
pub proof fn lemma_decode(v: ValueView, kind: Kind, tag: u16, c: Cursor, more: Seq<u8>)
    requires
        has_kind(v, kind),
        unambiguous(v),
        fits(v),
        represents(c, image(tag, v) + more),
        open_ended(v) ==> starts_above(more, room_tag(v, tag)),
    ensures
        decode(kind, tag, c) matches Ok((found, after)) && found == v && represents(after, more),
    decreases v, 1nat,
{
    match v {
        ValueView::Unit => {
            assert(image(tag, v) + more =~= more);
            lemma_decode_nothing(v, kind, tag, c, more);
        },
        ValueView::Optional(None) => {
            assert(image(tag, v) + more =~= more);
            lemma_decode_nothing(v, kind, tag, c, more);
        },
        ValueView::Optional(Some(_)) => {
            lemma_decode_optional(v, kind, tag, c, more);
        },
        ValueView::Repeated(_) => {
            lemma_decode_sequence(v, kind, tag, c, more);
        },
        ValueView::Record(_) => {
            lemma_decode_record(v, kind, tag, c, more);
        },
        ValueView::Union(_, _) => {
            lemma_decode_union(v, kind, tag, c, more);
        },
        _ => {
            lemma_decode_plain(v, kind, tag, c, more);
        },
    }
}

/// A present optional value is read back.
#[verifier::spinoff_prover]
proof fn lemma_decode_optional(v: ValueView, kind: Kind, tag: u16, c: Cursor, more: Seq<u8>)
    requires
        has_kind(v, kind),
        unambiguous(v),
        fits(v),
        represents(c, image(tag, v) + more),
        open_ended(v) ==> starts_above(more, room_tag(v, tag)),
        v matches ValueView::Optional(Some(_)),
    ensures
        decode(kind, tag, c) matches Ok((found, after)) && found == v && represents(after, more),
    decreases v, 0nat,
{
    let inner = *v->Optional_0->Some_0;
    let seen = Cursor {
        rest: payload_of(inner) + more,
        pending: Some(Header { wire: wire_of(inner), tag }),
    };
    lemma_image_shape(tag, inner);
    lemma_assoc(header_bytes(wire_of(inner), tag), payload_of(inner), more);
    lemma_parse_header(wire_of(inner), tag, payload_of(inner) + more);
    lemma_decode(inner, *kind->Optional_0, tag, seen, more);
    let after = decode(*kind->Optional_0, tag, seen).unwrap().1;
    lemma_decode_present(inner, kind, tag, c, more, after);
}

/// A sequence is read back.
#[verifier::spinoff_prover]
proof fn lemma_decode_sequence(v: ValueView, kind: Kind, tag: u16, c: Cursor, more: Seq<u8>)
    requires
        has_kind(v, kind),
        unambiguous(v),
        fits(v),
        represents(c, image(tag, v) + more),
        open_ended(v) ==> starts_above(more, room_tag(v, tag)),
        v is Repeated,
    ensures
        decode(kind, tag, c) matches Ok((found, after)) && found == v && represents(after, more),
    decreases v, 0nat,
{
    let items = v->Repeated_0;
    let start = fresh(items_image(items, 0) + more);
    lemma_decode_items(items, *kind->Repeated_0, 0, start, more);
    assert(items.skip(0) =~= items);
    let after = decode_items(*kind->Repeated_0, items.len(), start).unwrap().1;
    lemma_decode_repeated(items, kind, tag, c, more, after);
}

/// A nested record is read back.
#[verifier::spinoff_prover]
proof fn lemma_decode_record(v: ValueView, kind: Kind, tag: u16, c: Cursor, more: Seq<u8>)
    requires
        has_kind(v, kind),
        unambiguous(v),
        fits(v),
        represents(c, image(tag, v) + more),
        open_ended(v) ==> starts_above(more, room_tag(v, tag)),
        v is Record,
    ensures
        decode(kind, tag, c) matches Ok((found, after)) && found == v && represents(after, more),
    decreases v, 0nat,
{
    let fields = v->Record_0;
    assert(kind is Record);
    assert(fits_fields(fields));
    lemma_decode_fields(fields, kind->Record_0@, 0, fresh(fields_image(fields, 0)));
    assert(fields.skip(0) =~= fields);
    lemma_payload_record(fields, kind, more);
    lemma_decode_delimited(v, kind, tag, c, more);
}

/// A union is read back.
#[verifier::spinoff_prover]
proof fn lemma_decode_union(v: ValueView, kind: Kind, tag: u16, c: Cursor, more: Seq<u8>)
    requires
        has_kind(v, kind),
        unambiguous(v),
        fits(v),
        represents(c, image(tag, v) + more),
        open_ended(v) ==> starts_above(more, room_tag(v, tag)),
        v is Union,
    ensures
        decode(kind, tag, c) matches Ok((found, after)) && found == v && represents(after, more),
    decreases v, 0nat,
{
    let arm = v->Union_0;
    let inner = *v->Union_1;
    let seen = Cursor {
        rest: payload_of(inner),
        pending: Some(Header { wire: wire_of(inner), tag: arm }),
    };
    lemma_image_shape(arm, inner);
    lemma_parse_header(wire_of(inner), arm, payload_of(inner));
    assert(image(arm, inner) + Seq::<u8>::empty() =~= image(arm, inner));
    lemma_decode(inner, kind->Union_0@[arm as int], arm, seen, Seq::empty());
    lemma_payload_union(arm, inner, kind, more);
    lemma_decode_delimited(v, kind, tag, c, more);
}

/// A scalar, a float, a byte string or a text is read back.
#[verifier::spinoff_prover]
proof fn lemma_decode_plain(v: ValueView, kind: Kind, tag: u16, c: Cursor, more: Seq<u8>)
    requires
        has_kind(v, kind),
        unambiguous(v),
        fits(v),
        represents(c, image(tag, v) + more),
        open_ended(v) ==> starts_above(more, room_tag(v, tag)),
        v is Scalar || v is F32 || v is F64 || v is Bytes || v is Text,
    ensures
        decode(kind, tag, c) matches Ok((found, after)) && found == v && represents(after, more),
{
    match v {
        ValueView::Scalar(sk, i) => {
            lemma_payload_scalar(sk, i, more);
        },
        ValueView::Bytes(_) => {
            lemma_payload_string(v, kind, more);
        },
        ValueView::Text(_) => {
            lemma_payload_string(v, kind, more);
        },
        _ => {
            lemma_payload_float(v, kind, more);
        },
    }
    lemma_decode_delimited(v, kind, tag, c, more);
}

/// The elements of a sequence from `from` on are read back from what they
/// put on the wire, as long as the end or a tag above 0 follows where one
/// of them ends with an absent value.
#[verifier::spinoff_prover]
#[verifier::rlimit(50)]
pub proof fn lemma_decode_items(
    items: Seq<ValueView>,
    kind: Kind,
    from: nat,
    c: Cursor,
    more: Seq<u8>,
)
    requires
        from <= items.len(),
        forall|i: int|
            0 <= i < items.len() ==> {
                let item = #[trigger] items[i];
                has_kind(item, kind) && unambiguous(item) && fits(item)
            },
        forall|i: int, j: int|
            0 <= i < j < items.len() && open_ended(#[trigger] items[i]) ==> !emits(
                #[trigger] items[j],
            ),
        represents(c, items_image(items, from) + more),
        (exists|i: int| from <= i < items.len() && open_ended(#[trigger] items[i]))
            ==> starts_above(more, 0),
    ensures
        decode_items(kind, (items.len() - from) as nat, c) matches Ok((found, after)) && found
            == items.skip(from as int) && represents(after, more),
    decreases items, items.len() - from,
{
    if from < items.len() {
        let first = items[from as int];
        let behind = items_image(items, from + 1) + more;
        lemma_assoc(image(0, first), items_image(items, from + 1), more);
        lemma_room_tag(first, 0);
        if open_ended(first) {
            assert forall|j: int| from + 1 <= j < items.len() implies !emits(
                #[trigger] items[j],
            ) by {
                assert(open_ended(items[from as int]));
            }
            lemma_items_silent(items, from + 1);
            assert(behind =~= more);
        }
        lemma_decode(first, kind, 0, c, behind);
        let after = decode(kind, 0, c).unwrap().1;
        lemma_decode_items(items, kind, from + 1, after, more);
        assert(seq![first] + items.skip(from as int + 1) =~= items.skip(from as int));
    } else {
        assert(items_image(items, from) + more =~= more);
        assert(items.skip(from as int) =~= Seq::<ValueView>::empty());
    }
}

/// The fields of a record from `from` on are read back from what they put
/// on the wire, where nothing follows them.
#[verifier::spinoff_prover]
pub proof fn lemma_decode_fields(fields: Seq<ValueView>, kinds: Seq<Kind>, from: nat, c: Cursor)
    requires
        from <= fields.len() == kinds.len() <= u16::MAX,
        forall|i: int|
            0 <= i < fields.len() ==> {
                let field = #[trigger] fields[i];
                has_kind(field, kinds[i]) && unambiguous(field) && fits(field)
            },
        represents(c, fields_image(fields, from)),
    ensures
        decode_fields(kinds, from, c) matches Ok((found, after)) && found == fields.skip(
            from as int,
        ) && after == fresh(Seq::empty()),
    decreases fields, fields.len() - from,
{
    if from < fields.len() {
        let first = fields[from as int];
        let tag = (from + 1) as u16;
        let behind = fields_image(fields, from + 1);
        lemma_fields_start(fields, from + 1);
        lemma_room_tag(first, tag);
        lemma_decode(first, kinds[from as int], tag, c, behind);
        let after = decode(kinds[from as int], tag, c).unwrap().1;
        lemma_decode_fields(fields, kinds, from + 1, after);
        assert(seq![first] + fields.skip(from as int + 1) =~= fields.skip(from as int));
    } else {
        assert(fields.skip(from as int) =~= Seq::<ValueView>::empty());
        assert(c.pending is None);
        assert(c.rest =~= Seq::<u8>::empty());
    }
}

/// Unpacking what was packed gives the value back: for every record `v` of
/// kind `kind` that is unambiguous, the bytes that `v` is packed into are
/// unpacked into `v`.
#[verifier::spinoff_prover]
pub proof fn lemma_round_trip(v: ValueView, kind: Kind)
    requires
        v is Record,
        has_kind(v, kind),
        unambiguous(v),
        encoding(None, v) is Ok,
    ensures
        parse(kind, encoding(None, v).unwrap()) == Ok::<ValueView, Error>(v),
{
    let fields = v->Record_0;
    let kinds = kind->Record_0@;
    lemma_decode_fields(fields, kinds, 0, fresh(fields_image(fields, 0)));
    assert(fields.skip(0) =~= fields);
}

/// A one-byte integer is read back from what `push_byte` writes.
#[verifier::spinoff_prover]
pub proof fn lemma_byte_symmetry(tag: u16, value: u8, more: Seq<u8>)
    ensures
        find(fresh(byte_image(tag, value) + more), tag) == Ok::<(Wire, Cursor), Error>(
            (Wire::INT1, fresh(seq![value] + more)),
        ),
        le_value((seq![value] + more).take(1)) == value,
{
    lemma_assoc(header_bytes(Wire::INT1, tag), seq![value], more);
    lemma_find_hit(fresh(byte_image(tag, value) + more), Wire::INT1, tag, seq![value] + more);
    lemma_front(seq![value], more);
    assert(seq![value] =~= le_bytes(value as int, 1));
    lemma_le_value_le_bytes(value as int, 1);
}

/// A 32-bit integer is read back from what `push_i32` writes.
#[verifier::spinoff_prover]
pub proof fn lemma_i32_symmetry(tag: u16, value: i32, more: Seq<u8>)
    ensures
        ({
            let wire = int_wire(value as int);
            let payload = le_bytes(value as int, int_width(wire));
            &&& find(fresh(i32_image(tag, value) + more), tag) == Ok::<(Wire, Cursor), Error>(
                (wire, fresh(payload + more)),
            )
            &&& integer_field(wire, payload + more) == Ok::<(int, nat), Error>(
                (value as int, int_width(wire)),
            )
        }),
{
    let wire = int_wire(value as int);
    let payload = le_bytes(value as int, int_width(wire));
    lemma_assoc(header_bytes(wire, tag), payload, more);
    lemma_find_hit(fresh(i32_image(tag, value) + more), wire, tag, payload + more);
    lemma_payload_scalar(ScalarKind::I32, value as int, more);
}

/// Eight bytes are read back from what `push_quad` writes.
#[verifier::spinoff_prover]
pub proof fn lemma_quad_symmetry(tag: u16, value: u64, more: Seq<u8>)
    ensures
        ({
            let payload = le_bytes(value as int, 8);
            &&& find(fresh(quad_image(tag, value) + more), tag) == Ok::<(Wire, Cursor), Error>(
                (Wire::QUAD, fresh(payload + more)),
            )
            &&& le_value((payload + more).take(8)) == value
        }),
{
    let payload = le_bytes(value as int, 8);
    lemma_assoc(header_bytes(Wire::QUAD, tag), payload, more);
    lemma_find_hit(fresh(quad_image(tag, value) + more), Wire::QUAD, tag, payload + more);
    lemma_front(payload, more);
    lemma_le_value_le_bytes(value as int, 8);
}

/// A block length is read back from what `push_len` writes.
#[verifier::spinoff_prover]
pub proof fn lemma_len_symmetry(tag: u16, len: usize, more: Seq<u8>)
    requires
        len <= u32::MAX,
    ensures
        ({
            let wire = len_wire(len as int);
            let payload = le_bytes(len as int, len_width(wire));
            &&& find(fresh(len_image(tag, len as int) + more), tag) == Ok::<
                (Wire, Cursor),
                Error,
            >((wire, fresh(payload + more)))
            &&& block_len(wire, payload + more) == Ok::<nat, Error>(len as nat)
        }),
{
    let wire = len_wire(len as int);
    let payload = le_bytes(len as int, len_width(wire));
    lemma_assoc(header_bytes(wire, tag), payload, more);
    lemma_find_hit(fresh(len_image(tag, len as int) + more), wire, tag, payload + more);
    lemma_front(payload, more);
    lemma_le_value_le_bytes(len as int, len_width(wire));
}

/// A repeat count is read back from what `push_repeated_len` writes.
#[verifier::spinoff_prover]
pub proof fn lemma_repeated_len_symmetry(tag: u16, len: usize, more: Seq<u8>)
    requires
        len <= u32::MAX,
    ensures
        ({
            let payload = le_bytes(len as int, 4);
            &&& find(fresh(repeated_len_image(tag, len as int) + more), tag) == Ok::<
                (Wire, Cursor),
                Error,
            >((Wire::REPEAT, fresh(payload + more)))
            &&& fixed_field(Wire::REPEAT, 4, Wire::REPEAT, payload + more) == Ok::<int, Error>(
                len as int,
            )
        }),
{
    let payload = le_bytes(len as int, 4);
    lemma_assoc(header_bytes(Wire::REPEAT, tag), payload, more);
    lemma_find_hit(
        fresh(repeated_len_image(tag, len as int) + more),
        Wire::REPEAT,
        tag,
        payload + more,
    );
    lemma_front(payload, more);
    lemma_le_value_le_bytes(len as int, 4);
}

/// A byte string is read back from what `push_bytes` writes.
#[verifier::spinoff_prover]
pub proof fn lemma_bytes_symmetry(tag: u16, bytes: Seq<u8>, more: Seq<u8>)
    requires
        bytes.len() < u32::MAX,
    ensures
        ({
            let wire = len_wire(bytes.len() as int + 1);
            let payload = string_payload(bytes);
            &&& find(fresh(bytes_image(tag, bytes) + more), tag) == Ok::<(Wire, Cursor), Error>(
                (wire, fresh(payload + more)),
            )
            &&& bytes_field(wire, payload + more) == Ok::<(Seq<u8>, nat), Error>(
                (bytes, payload.len()),
            )
        }),
{
    let wire = len_wire(bytes.len() as int + 1);
    let payload = string_payload(bytes);
    let head = header_bytes(wire, tag);
    let len = le_bytes(bytes.len() as int + 1, len_width(wire));
    lemma_assoc(head, len, bytes);
    lemma_assoc(head, len + bytes, seq![0u8]);
    lemma_assoc(head, payload, more);
    lemma_find_hit(fresh(bytes_image(tag, bytes) + more), wire, tag, payload + more);
    lemma_bytes_field(bytes, more);
}

} // verus!
