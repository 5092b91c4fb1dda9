//! Packing. A `Serializer` writes one value after the other under the tag
//! that was set for it; records, sequences and unions are written step by
//! step around their parts. `to_bytes` walks a `Value` that way.

use crate::error::Error;
use crate::value::{views, ScalarKind, Value, ValueView};
use vstd::prelude::*;
use vstd::string::StringSliceAdditionalSpecFns;
use vstd::utf8::encode_utf8;

pub mod pack;

use pack::{
    bytes_image, f32_image, get_mut_slice, i32_image, i64_image, len32_image, push_byte,
    push_bytes, push_f32_bits, push_f64_bits, push_i32, push_quad, push_repeated_len, quad_image,
    repeated_len_image, set_len32, tag_len, tag_width,
};

verus! {

/// The signed integer with the same 64-bit image as `v`.
pub open spec fn signed64(v: u64) -> i64 {
    if v < 0x8000_0000_0000_0000 {
        v as i64
    } else {
        (v - 0x1_0000_0000_0000_0000) as i64
    }
}

/// An output buffer and the tag under which the next value is written.
pub struct Serializer {
    output: Vec<u8>,
    current_tag: Option<u16>,
}

/// The place of a length prefix that was reserved and is filled in when the
/// body behind it is complete.
pub struct Frame {
    pos: usize,
    tag: u16,
}

/// A record that is being written: the tag of its next field and, for a
/// nested record, the prefix reserved for it.
pub struct StructSerializer {
    tag: u16,
    frame: Option<Frame>,
}

impl Frame {
    /// Where in the output the prefix starts.
    pub closed spec fn start(&self) -> nat {
        self.pos as nat
    }

    /// The tag that the prefix will carry.
    pub closed spec fn tag(&self) -> u16 {
        self.tag
    }

    /// Where in the output the body starts.
    pub open spec fn body_start(&self) -> nat {
        self.start() + tag_width(self.tag()) + 5
    }

    /// The frame was opened on a serializer whose output, up to the body,
    /// has since only grown.
    pub open spec fn open_on(&self, ser: &Serializer) -> bool {
        self.body_start() <= ser.output().len()
    }

    /// The body behind the prefix is short enough for its length to go
    /// into the prefix.
    pub open spec fn closable_on(&self, ser: &Serializer) -> bool {
        self.open_on(ser) && ser.output().len() - self.body_start() <= u32::MAX
    }

    /// Whether the prefix can be filled in now.
    pub fn can_close(&self, ser: &Serializer) -> (b: bool)
        ensures
            b == self.closable_on(ser),
    {
        let slot_len: usize = tag_len(self.tag) + 5;
        ser.output.len() >= slot_len && self.pos <= ser.output.len() - slot_len
            && ser.output.len() - slot_len - self.pos <= 0xffff_ffff
    }

    /// The output of `ser` once the prefix is filled in.
    pub open spec fn closed_output(&self, ser: &Serializer) -> Seq<u8> {
        ser.output().take(self.start() as int) + len32_image(
            self.tag(),
            ser.output().len() - self.body_start(),
        ) + ser.output().skip(self.body_start() as int)
    }
}

impl Serializer {
    /// What has been written.
    pub closed spec fn output(&self) -> Seq<u8> {
        self.output@
    }

    /// The tag under which the next value is written, if one is set.
    pub closed spec fn tag(&self) -> Option<u16> {
        self.current_tag
    }

    /// `after` is this serializer after `res`: with `image` appended where
    /// a tag was set, and untouched, with `MissingTag`, where none was.
    pub open spec fn wrote(&self, after: Self, res: Result<(), Error>, image: Seq<u8>) -> bool {
        &&& after.tag() == self.tag()
        &&& match self.tag() {
            Some(_) => res is Ok && after.output() == self.output() + image,
            None => res == Err::<(), Error>(Error::MissingTag) && after.output() == self.output(),
        }
    }

    /// `after` has the output and the tag of this serializer.
    pub open spec fn unchanged(&self, after: Self) -> bool {
        after.output() == self.output() && after.tag() == self.tag()
    }

    /// A serializer with nothing written and no tag set.
    pub fn new() -> (ser: Self)
        ensures
            ser.output() == Seq::<u8>::empty(),
            ser.tag() is None,
    {
        Serializer { output: Vec::new(), current_tag: None }
    }

    /// Hands out what has been written.
    pub fn into_bytes(self) -> (bytes: Vec<u8>)
        ensures
            bytes@ == self.output(),
    {
        self.output
    }

    /// How many bytes have been written.
    pub fn len(&self) -> (n: usize)
        ensures
            n == self.output().len(),
    {
        self.output.len()
    }

    /// The tag for the next value, or `MissingTag`.
    pub fn get_tag(&mut self) -> (res: Result<u16, Error>)
        ensures
            final(self).output() == old(self).output(),
            final(self).tag() == old(self).tag(),
            match old(self).tag() {
                Some(tag) => res == Ok::<u16, Error>(tag),
                None => res == Err::<u16, Error>(Error::MissingTag),
            },
    {
        match self.current_tag {
            Some(tag) => Ok(tag),
            None => Err(Error::MissingTag),
        }
    }

    /// Sets the tag under which the next value is written.
    pub fn set_tag(&mut self, tag: u16)
        ensures
            final(self).output() == old(self).output(),
            final(self).tag() == Some(tag),
    {
        self.current_tag = Some(tag);
    }

    /// Writes a boolean: one byte, 0 or 1.
    pub fn serialize_bool(&mut self, v: bool) -> (res: Result<(), Error>)
        ensures
            old(self).wrote(
                *final(self),
                res,
                i64_image(
                    old(self).tag().unwrap(),
                    if v {
                        1
                    } else {
                        0
                    },
                ),
            ),
    {
        self.serialize_i8(
            if v {
                1
            } else {
                0
            },
        )
    }

    /// Writes an 8-bit signed integer: always one byte.
    pub fn serialize_i8(&mut self, v: i8) -> (res: Result<(), Error>)
        ensures
            old(self).wrote(*final(self), res, i64_image(old(self).tag().unwrap(), v as i64)),
    {
        let tag = self.get_tag()?;
        let image: u8 = if v >= 0 {
            v as u8
        } else {
            (v as i16 + 0x100) as u8
        };
        push_byte(tag, image, &mut self.output);
        assert(self.output@ =~= old(self).output() + i64_image(tag, v as i64));
        Ok(())
    }

    /// Writes an 8-bit unsigned integer.
    pub fn serialize_u8(&mut self, v: u8) -> (res: Result<(), Error>)
        ensures
            old(self).wrote(*final(self), res, i64_image(old(self).tag().unwrap(), v as i64)),
    {
        self.serialize_i32(v as i32)
    }

    /// Writes a 16-bit signed integer.
    pub fn serialize_i16(&mut self, v: i16) -> (res: Result<(), Error>)
        ensures
            old(self).wrote(*final(self), res, i64_image(old(self).tag().unwrap(), v as i64)),
    {
        self.serialize_i32(v as i32)
    }

    /// Writes a 16-bit unsigned integer.
    pub fn serialize_u16(&mut self, v: u16) -> (res: Result<(), Error>)
        ensures
            old(self).wrote(*final(self), res, i64_image(old(self).tag().unwrap(), v as i64)),
    {
        self.serialize_i32(v as i32)
    }

    /// Writes a 32-bit signed integer in the narrowest class that holds it.
    pub fn serialize_i32(&mut self, v: i32) -> (res: Result<(), Error>)
        ensures
            old(self).wrote(*final(self), res, i64_image(old(self).tag().unwrap(), v as i64)),
    {
        let tag = self.get_tag()?;
        if v == 0 {
            push_byte(tag, 0, &mut self.output);
            assert(self.output@ =~= old(self).output() + i32_image(tag, 0));
        } else {
            push_i32(tag, v, &mut self.output);
        }
        Ok(())
    }

    /// Writes a 32-bit unsigned integer.
    pub fn serialize_u32(&mut self, v: u32) -> (res: Result<(), Error>)
        ensures
            old(self).wrote(*final(self), res, i64_image(old(self).tag().unwrap(), v as i64)),
    {
        self.serialize_i64(v as i64)
    }

    /// Writes a 64-bit signed integer: as a 32-bit one where it is one, else
    /// in eight bytes.
    pub fn serialize_i64(&mut self, v: i64) -> (res: Result<(), Error>)
        ensures
            old(self).wrote(*final(self), res, i64_image(old(self).tag().unwrap(), v)),
    {
        let tag = self.get_tag()?;
        if -0x8000_0000 <= v && v <= 0x7fff_ffff {
            push_i32(tag, v as i32, &mut self.output);
        } else {
            push_quad(tag, pack::image64(v), &mut self.output);
        }
        Ok(())
    }

    /// Writes a 64-bit unsigned integer as the signed integer with the same
    /// image.
    pub fn serialize_u64(&mut self, v: u64) -> (res: Result<(), Error>)
        ensures
            old(self).wrote(*final(self), res, i64_image(old(self).tag().unwrap(), signed64(v))),
    {
        let signed: i64 = if v < 0x8000_0000_0000_0000 {
            v as i64
        } else {
            (v - 0x8000_0000_0000_0000) as i64 + i64::MIN
        };
        self.serialize_i64(signed)
    }

    /// Writes the bit image of a single-precision float.
    pub fn serialize_f32_bits(&mut self, bits: u32) -> (res: Result<(), Error>)
        ensures
            old(self).wrote(*final(self), res, f32_image(old(self).tag().unwrap(), bits)),
    {
        let tag = self.get_tag()?;
        push_f32_bits(tag, bits, &mut self.output);
        Ok(())
    }

    /// Writes the bit image of a double-precision float.
    pub fn serialize_f64_bits(&mut self, bits: u64) -> (res: Result<(), Error>)
        ensures
            old(self).wrote(*final(self), res, quad_image(old(self).tag().unwrap(), bits)),
    {
        let tag = self.get_tag()?;
        push_f64_bits(tag, bits, &mut self.output);
        Ok(())
    }

    /// Writes a character as the integer of its code point.
    pub fn serialize_char(&mut self, v: char) -> (res: Result<(), Error>)
        ensures
            old(self).wrote(*final(self), res, i64_image(old(self).tag().unwrap(), v as i64)),
    {
        self.serialize_u32(v as u32)
    }

    /// Writes a text as the byte string of its UTF-8 encoding.
    pub fn serialize_str(&mut self, v: &str) -> (res: Result<(), Error>)
        requires
            v.spec_bytes().len() < u32::MAX,
        ensures
            old(self).wrote(
                *final(self),
                res,
                bytes_image(old(self).tag().unwrap(), v.spec_bytes()),
            ),
    {
        let tag = self.get_tag()?;
        push_bytes(tag, v.as_bytes(), &mut self.output);
        Ok(())
    }

    /// Writes a byte string.
    pub fn serialize_bytes(&mut self, v: &[u8]) -> (res: Result<(), Error>)
        requires
            v@.len() < u32::MAX,
        ensures
            old(self).wrote(*final(self), res, bytes_image(old(self).tag().unwrap(), v@)),
    {
        let tag = self.get_tag()?;
        push_bytes(tag, v, &mut self.output);
        Ok(())
    }

    /// An absent optional value: nothing is written.
    pub fn serialize_none(&mut self) -> (res: Result<(), Error>)
        ensures
            res is Ok,
            old(self).unchanged(*final(self)),
    {
        Ok(())
    }

    /// The unit value: nothing is written.
    pub fn serialize_unit(&mut self) -> (res: Result<(), Error>)
        ensures
            res is Ok,
            old(self).unchanged(*final(self)),
    {
        Ok(())
    }

    /// Starts a sequence of `len` elements: writes their count. A sequence
    /// of unknown length cannot be written.
    pub fn serialize_seq(&mut self, len: Option<usize>) -> (res: Result<(), Error>)
        requires
            len matches Some(n) ==> n <= u32::MAX,
        ensures
            match len {
                Some(n) => old(self).wrote(
                    *final(self),
                    res,
                    repeated_len_image(old(self).tag().unwrap(), n as int),
                ),
                None => {
                    &&& old(self).unchanged(*final(self))
                    &&& res == Err::<(), Error>(
                        if old(self).tag() is None {
                            Error::MissingTag
                        } else {
                            Error::UnknownLen
                        },
                    )
                },
            },
    {
        let tag = self.get_tag()?;
        let len = match len {
            Some(len) => len,
            None => {
                return Err(Error::UnknownLen);
            },
        };
        push_repeated_len(tag, len, &mut self.output);
        Ok(())
    }

    /// Before each element of a sequence: elements are written under tag 0.
    pub fn serialize_element(&mut self)
        ensures
            final(self).output() == old(self).output(),
            final(self).tag() == Some(0u16),
    {
        self.current_tag = Some(0);
    }

    /// Reserves the length prefix of a nested record or union under `tag`.
    fn reserve(&mut self, tag: u16) -> (frame: Frame)
        ensures
            final(self).tag() == old(self).tag(),
            final(self).output() == old(self).output() + Seq::new(
                tag_width(tag) + 5,
                |i: int| 0u8,
            ),
            frame.start() == old(self).output().len(),
            frame.tag() == tag,
            frame.open_on(final(self)),
    {
        let pos: usize = self.output.len();
        let _ = get_mut_slice(&mut self.output, tag_len(tag) + 1 + 4);
        Frame { pos, tag }
    }

    /// Fills in the length prefix of `frame` with the size of what was
    /// written behind it.
    fn close(&mut self, frame: Frame)
        requires
            frame.closable_on(old(self)),
        ensures
            final(self).tag() == old(self).tag(),
            final(self).output() == frame.closed_output(old(self)),
    {
        let slot_len: usize = tag_len(frame.tag) + 1 + 4;
        let body_len: usize = self.output.len() - frame.pos - slot_len;
        let whole = self.output.as_mut_slice();
        let (_head, from_slot) = whole.split_at_mut(frame.pos);
        let (slot, _body) = from_slot.split_at_mut(slot_len);
        set_len32(frame.tag, body_len, slot);
        assert(self.output@ =~= frame.closed_output(old(self)));
    }

    /// Starts a union under the current tag: reserves its length prefix and
    /// sets the tag of the chosen arm for the value that follows.
    pub fn begin_newtype_variant(&mut self, variant_index: u32) -> (res: Result<Frame, Error>)
        ensures
            match old(self).tag() {
                None => res == Err::<Frame, Error>(Error::MissingTag) && old(self).unchanged(
                    *final(self),
                ),
                Some(tag) => if variant_index > u16::MAX {
                    res == Err::<Frame, Error>(Error::Unimplemented("variant index"))
                        && old(self).unchanged(*final(self))
                } else {
                    &&& res matches Ok(frame)
                    &&& frame.start() == old(self).output().len()
                    &&& frame.tag() == tag
                    &&& frame.open_on(final(self))
                    &&& final(self).tag() == Some(variant_index as u16)
                    &&& final(self).output() == old(self).output() + Seq::new(
                        tag_width(tag) + 5,
                        |i: int| 0u8,
                    )
                },
            },
    {
        let tag = self.get_tag()?;
        if variant_index > 0xffff {
            return Err(Error::Unimplemented("variant index"));
        }
        let frame = self.reserve(tag);
        self.current_tag = Some(variant_index as u16);
        Ok(frame)
    }

    /// Ends a union: fills in its length prefix and sets its own tag again.
    pub fn end_newtype_variant(&mut self, frame: Frame)
        requires
            frame.closable_on(old(self)),
        ensures
            final(self).tag() == Some(frame.tag()),
            final(self).output() == frame.closed_output(old(self)),
    {
        self.current_tag = Some(frame.tag);
        self.close(frame);
    }

    /// Starts a record. Under a tag it is a nested record, whose length
    /// prefix is reserved; with no tag set it is the outermost one, which
    /// has none.
    pub fn serialize_struct(&mut self) -> (st: StructSerializer)
        ensures
            final(self).tag() == old(self).tag(),
            st.next_tag() == 1,
            match old(self).tag() {
                None => st.frame() is None && final(self).output() == old(self).output(),
                Some(tag) => {
                    &&& st.frame() matches Some(frame)
                    &&& frame.start() == old(self).output().len()
                    &&& frame.tag() == tag
                    &&& frame.open_on(final(self))
                    &&& final(self).output() == old(self).output() + Seq::new(
                        tag_width(tag) + 5,
                        |i: int| 0u8,
                    )
                },
            },
    {
        match self.current_tag {
            Some(tag) => {
                let frame = self.reserve(tag);
                StructSerializer { tag: 1, frame: Some(frame) }
            },
            None => StructSerializer { tag: 1, frame: None },
        }
    }
}

impl StructSerializer {
    /// The tag that the next field gets.
    pub closed spec fn next_tag(&self) -> u16 {
        self.tag
    }

    /// The reserved prefix, if the record is a nested one.
    pub closed spec fn frame(&self) -> Option<Frame> {
        self.frame
    }

    /// Before each field: sets the field's tag, which is one more than that
    /// of the field before. A record has no field after the one tagged
    /// 65535.
    pub fn serialize_field(&mut self, ser: &mut Serializer) -> (res: Result<(), Error>)
        ensures
            final(self).frame() == old(self).frame(),
            final(ser).output() == old(ser).output(),
            if old(self).next_tag() == 0 {
                &&& res == Err::<(), Error>(Error::Unimplemented("value too large"))
                &&& final(self).next_tag() == 0
                &&& final(ser).tag() == old(ser).tag()
            } else {
                &&& res is Ok
                &&& final(ser).tag() == Some(old(self).next_tag())
                &&& final(self).next_tag() == if old(self).next_tag() == u16::MAX {
                    0u16
                } else {
                    (old(self).next_tag() + 1) as u16
                }
            },
    {
        if self.tag == 0 {
            return Err(Error::Unimplemented("value too large"));
        }
        ser.current_tag = Some(self.tag);
        self.tag = if self.tag == 0xffff {
            0
        } else {
            self.tag + 1
        };
        Ok(())
    }

    /// Whether the record can be ended now: a nested one is short enough
    /// for its length to go into its prefix.
    pub fn can_end(&self, ser: &Serializer) -> (b: bool)
        ensures
            b == (self.frame() matches Some(frame) ==> frame.closable_on(ser)),
    {
        match &self.frame {
            Some(frame) => frame.can_close(ser),
            None => true,
        }
    }

    /// Ends the record: fills in the length prefix of a nested record, and
    /// sets its own tag again.
    pub fn end(self, ser: &mut Serializer)
        requires
            self.frame() matches Some(frame) ==> frame.closable_on(old(ser)),
        ensures
            match self.frame() {
                Some(frame) => {
                    &&& final(ser).tag() == Some(frame.tag())
                    &&& final(ser).output() == frame.closed_output(old(ser))
                },
                None => {
                    &&& final(ser).tag() is None
                    &&& final(ser).output() == old(ser).output()
                },
            },
    {
        match self.frame {
            Some(frame) => {
                ser.current_tag = Some(frame.tag);
                ser.close(frame);
            },
            None => {
                ser.current_tag = None;
            },
        }
    }
}

/// The integer that a scalar travels as: itself, but for a 64-bit unsigned
/// integer, which travels as the signed integer with the same image.
pub open spec fn wire_int(kind: ScalarKind, v: int) -> i64 {
    if kind == ScalarKind::U64 && v >= 0x8000_0000_0000_0000 {
        (v - 0x1_0000_0000_0000_0000) as i64
    } else {
        v as i64
    }
}

/// A body behind its length prefix under `tag`.
pub open spec fn framed(tag: u16, body: Seq<u8>) -> Seq<u8> {
    len32_image(tag, body.len() as int) + body
}

/// The bytes of `v` under `tag`.
pub open spec fn image(tag: u16, v: ValueView) -> Seq<u8>
    decreases v, 0nat,
{
    match v {
        ValueView::Unit => Seq::empty(),
        ValueView::Scalar(kind, i) => i64_image(tag, wire_int(kind, i)),
        ValueView::F32(bits) => f32_image(tag, bits),
        ValueView::F64(bits) => quad_image(tag, bits),
        ValueView::Bytes(bytes) => bytes_image(tag, bytes),
        ValueView::Text(text) => bytes_image(tag, encode_utf8(text)),
        ValueView::Optional(None) => Seq::empty(),
        ValueView::Optional(Some(inner)) => image(tag, *inner),
        ValueView::Repeated(items) => repeated_len_image(tag, items.len() as int) + items_image(
            items,
            0,
        ),
        ValueView::Record(fields) => framed(tag, fields_image(fields, 0)),
        ValueView::Union(arm, inner) => framed(tag, image(arm, *inner)),
    }
}

/// The bytes of the elements of a sequence from the one at `from` on: each
/// under tag 0, one after the other.
pub open spec fn items_image(items: Seq<ValueView>, from: nat) -> Seq<u8>
    decreases items, items.len() - from,
{
    if from >= items.len() {
        Seq::empty()
    } else {
        image(0, items[from as int]) + items_image(items, from + 1)
    }
}

/// The bytes of the fields of a record from the one at `from` on: the field
/// at position `i` under tag `i + 1`, one after the other.
pub open spec fn fields_image(fields: Seq<ValueView>, from: nat) -> Seq<u8>
    decreases fields, fields.len() - from,
{
    if from >= fields.len() {
        Seq::empty()
    } else {
        image((from + 1) as u16, fields[from as int]) + fields_image(fields, from + 1)
    }
}

/// Whether the format can hold `v` under a tag: every length and count fits
/// in 32 bits, and every record has at most 65535 fields.
pub open spec fn fits(v: ValueView) -> bool
    decreases v,
{
    match v {
        ValueView::Bytes(bytes) => bytes.len() < u32::MAX,
        ValueView::Text(text) => encode_utf8(text).len() < u32::MAX,
        ValueView::Optional(Some(inner)) => fits(*inner),
        ValueView::Repeated(items) => {
            &&& items.len() <= u32::MAX
            &&& forall|i: int| 0 <= i < items.len() ==> fits(#[trigger] items[i])
        },
        ValueView::Record(fields) => {
            &&& fits_fields(fields)
            &&& fields_image(fields, 0).len() <= u32::MAX
        },
        ValueView::Union(arm, inner) => {
            &&& fits(*inner)
            &&& image(arm, *inner).len() <= u32::MAX
        },
        _ => true,
    }
}

/// Whether the format can hold these fields of a record.
pub open spec fn fits_fields(fields: Seq<ValueView>) -> bool
    decreases fields,
{
    &&& fields.len() <= u16::MAX
    &&& forall|i: int| 0 <= i < fields.len() ==> fits(#[trigger] fields[i])
}

/// What is written for `v`, or the error. Under a tag every value has its
/// image, if the format can hold it. With no tag set a record is written
/// without a prefix, a unit and an absent value as nothing; any other value
/// needs a tag.
pub open spec fn encoding(tag: Option<u16>, v: ValueView) -> Result<Seq<u8>, Error>
    decreases v,
{
    match tag {
        Some(t) => if fits(v) {
            Ok(image(t, v))
        } else {
            Err(Error::Unimplemented("value too large"))
        },
        None => match v {
            ValueView::Unit => Ok(Seq::empty()),
            ValueView::Optional(None) => Ok(Seq::empty()),
            ValueView::Optional(Some(inner)) => encoding(None, *inner),
            ValueView::Record(fields) => if fits_fields(fields) {
                Ok(fields_image(fields, 0))
            } else {
                Err(Error::Unimplemented("value too large"))
            },
            _ => Err(Error::MissingTag),
        },
    }
}

/// The fields before position `upto + 1` are those before `upto` and the
/// one at `upto`.
pub proof fn lemma_fields_image_push(fields: Seq<ValueView>, from: nat, upto: nat)
    requires
        from <= upto < fields.len(),
    ensures
        fields_image(fields.take(upto as int + 1), from) == fields_image(
            fields.take(upto as int),
            from,
        ) + image((upto + 1) as u16, fields[upto as int]),
    decreases upto - from,
{
    let longer = fields.take(upto as int + 1);
    let shorter = fields.take(upto as int);
    if from == upto {
        assert(fields_image(longer, from + 1) == Seq::<u8>::empty());
        assert(fields_image(shorter, from) == Seq::<u8>::empty());
        assert(fields_image(longer, from) =~= fields_image(shorter, from) + image(
            (upto + 1) as u16,
            fields[upto as int],
        ));
    } else {
        lemma_fields_image_push(fields, from + 1, upto);
        assert(longer[from as int] == shorter[from as int]);
        assert(fields_image(longer, from) =~= fields_image(shorter, from) + image(
            (upto + 1) as u16,
            fields[upto as int],
        ));
    }
}

/// The elements before position `upto + 1` are those before `upto` and the
/// one at `upto`.
pub proof fn lemma_items_image_push(items: Seq<ValueView>, from: nat, upto: nat)
    requires
        from <= upto < items.len(),
    ensures
        items_image(items.take(upto as int + 1), from) == items_image(items.take(upto as int), from)
            + image(0, items[upto as int]),
    decreases upto - from,
{
    let longer = items.take(upto as int + 1);
    let shorter = items.take(upto as int);
    if from == upto {
        assert(items_image(longer, from + 1) == Seq::<u8>::empty());
        assert(items_image(shorter, from) == Seq::<u8>::empty());
        assert(items_image(longer, from) =~= items_image(shorter, from) + image(
            0,
            items[upto as int],
        ));
    } else {
        lemma_items_image_push(items, from + 1, upto);
        assert(longer[from as int] == shorter[from as int]);
        assert(items_image(longer, from) =~= items_image(shorter, from) + image(
            0,
            items[upto as int],
        ));
    }
}

impl Serializer {
    /// Writes `value` under the current tag.
    pub fn serialize_value(&mut self, value: &Value) -> (res: Result<(), Error>)
        ensures
            match encoding(old(self).tag(), value@) {
                Ok(bytes) => {
                    &&& res is Ok
                    &&& final(self).output() == old(self).output() + bytes
                    &&& final(self).tag() == old(self).tag()
                },
                Err(e) => res == Err::<(), Error>(e),
            },
        decreases value,
    {
        match value {
            Value::Unit => self.serialize_unit(),
            Value::Bool(v) => self.serialize_bool(*v),
            Value::I8(v) => self.serialize_i8(*v),
            Value::I16(v) => self.serialize_i16(*v),
            Value::I32(v) => self.serialize_i32(*v),
            Value::I64(v) => self.serialize_i64(*v),
            Value::U8(v) => self.serialize_u8(*v),
            Value::U16(v) => self.serialize_u16(*v),
            Value::U32(v) => self.serialize_u32(*v),
            Value::U64(v) => self.serialize_u64(*v),
            Value::Char(v) => self.serialize_char(*v),
            Value::F32(bits) => self.serialize_f32_bits(*bits),
            Value::F64(bits) => self.serialize_f64_bits(*bits),
            Value::Bytes(bytes) => {
                let _ = self.get_tag()?;
                if bytes.len() >= 0xffff_ffff {
                    return Err(Error::Unimplemented("value too large"));
                }
                self.serialize_bytes(bytes.as_slice())
            },
            Value::Text(text) => {
                let _ = self.get_tag()?;
                let bytes = text.as_str().as_bytes();
                if bytes.len() >= 0xffff_ffff {
                    return Err(Error::Unimplemented("value too large"));
                }
                self.serialize_bytes(bytes)
            },
            Value::Optional(None) => self.serialize_none(),
            Value::Optional(Some(inner)) => self.serialize_value(inner),
            Value::Repeated(items) => self.serialize_items(items),
            Value::Record(fields) => self.serialize_fields(fields),
            Value::Union(arm, inner) => {
                let frame = self.begin_newtype_variant(*arm as u32)?;
                match self.serialize_value(inner) {
                    Ok(_) => {},
                    Err(e) => {
                        return Err(e);
                    },
                }
                if !frame.can_close(self) {
                    return Err(Error::Unimplemented("value too large"));
                }
                let ghost body = image(*arm, inner@);
                self.end_newtype_variant(frame);
                assert(self.output() =~= old(self).output() + framed(frame.tag(), body));
                Ok(())
            },
        }
    }

    /// Writes a sequence under the current tag: the count, then each element
    /// under tag 0.
    fn serialize_items(&mut self, items: &Vec<Value>) -> (res: Result<(), Error>)
        ensures
            match encoding(old(self).tag(), ValueView::Repeated(views(items@))) {
                Ok(bytes) => {
                    &&& res is Ok
                    &&& final(self).output() == old(self).output() + bytes
                    &&& final(self).tag() == old(self).tag()
                },
                Err(e) => res == Err::<(), Error>(e),
            },
        decreases items,
    {
        let tag = self.get_tag()?;
        let ghost all = views(items@);
        if items.len() > 0xffff_ffff {
            assert(!fits(ValueView::Repeated(all)));
            return Err(Error::Unimplemented("value too large"));
        }
        match self.serialize_seq(Some(items.len())) {
            Ok(_) => {},
            Err(e) => {
                return Err(e);
            },
        }
        let ghost start = self.output();
        let mut i: usize = 0;
        while i < items.len()
            invariant
                i <= items.len() <= u32::MAX,
                all == views(items@),
                old(self).tag() == Some(tag),
                self.output() == start + items_image(all.take(i as int), 0),
                forall|j: int| 0 <= j < i ==> fits(#[trigger] all[j]),
            decreases items.len() - i,
        {
            self.serialize_element();
            match self.serialize_value(&items[i]) {
                Ok(_) => {},
                Err(e) => {
                    assert(!fits(all[i as int]));
                    return Err(e);
                },
            }
            proof {
                assert(fits(all[i as int]));
                lemma_items_image_push(all, 0, i as nat);
                assert(self.output() =~= start + items_image(all.take(i + 1), 0));
            }
            i += 1;
        }
        self.set_tag(tag);
        proof {
            assert(all.take(items.len() as int) =~= all);
            assert(self.output() =~= old(self).output() + image(tag, ValueView::Repeated(all)));
        }
        Ok(())
    }

    /// Writes a record: its fields under the tags 1, 2, 3, ..., behind a
    /// length prefix if it is a nested one.
    fn serialize_fields(&mut self, fields: &Vec<Value>) -> (res: Result<(), Error>)
        ensures
            match encoding(old(self).tag(), ValueView::Record(views(fields@))) {
                Ok(bytes) => {
                    &&& res is Ok
                    &&& final(self).output() == old(self).output() + bytes
                    &&& final(self).tag() == old(self).tag()
                },
                Err(e) => res == Err::<(), Error>(e),
            },
        decreases fields,
    {
        let ghost all = views(fields@);
        if fields.len() > 0xffff {
            assert(!fits_fields(all));
            assert(!fits(ValueView::Record(all)));
            return Err(Error::Unimplemented("value too large"));
        }
        let mut st = self.serialize_struct();
        let ghost start = self.output();
        let ghost frame0 = st.frame();
        let mut i: usize = 0;
        while i < fields.len()
            invariant
                i <= fields.len() <= 0xffff,
                all == views(fields@),
                st.frame() == frame0,
                st.next_tag() == if i == 0xffff {
                    0
                } else {
                    i + 1
                },
                self.output() == start + fields_image(all.take(i as int), 0),
                forall|j: int| 0 <= j < i ==> fits(#[trigger] all[j]),
            decreases fields.len() - i,
        {
            match st.serialize_field(self) {
                Ok(_) => {},
                Err(e) => {
                    return Err(e);
                },
            }
            match self.serialize_value(&fields[i]) {
                Ok(_) => {},
                Err(e) => {
                    assert(!fits(all[i as int]));
                    return Err(e);
                },
            }
            proof {
                assert(fits(all[i as int]));
                lemma_fields_image_push(all, 0, i as nat);
                assert(self.output() =~= start + fields_image(all.take(i + 1), 0));
            }
            i += 1;
        }
        proof {
            assert(all.take(fields.len() as int) =~= all);
        }
        if !st.can_end(self) {
            return Err(Error::Unimplemented("value too large"));
        }
        let ghost open = self.output();
        st.end(self);
        proof {
            assert(fits_fields(all));
            if let Some(frame) = st.frame() {
                assert(start.len() == frame.body_start());
                assert(open.len() - frame.body_start() == fields_image(all, 0).len());
                assert(fits(ValueView::Record(all)));
                assert(self.output() =~= old(self).output() + framed(
                    frame.tag(),
                    fields_image(all, 0),
                ));
            }
        }
        Ok(())
    }
}

/// Packs `value` into a buffer of its own.
pub fn to_bytes(value: &Value) -> (res: Result<Vec<u8>, Error>)
    ensures
        match encoding(None, value@) {
            Ok(bytes) => res matches Ok(out) && out@ == bytes,
            Err(e) => res == Err::<Vec<u8>, Error>(e),
        },
{
    let mut serializer = Serializer::new();
    match serializer.serialize_value(value) {
        Ok(_) => {
            assert(serializer.output() =~= encoding(None, value@).unwrap());
            Ok(serializer.into_bytes())
        },
        Err(e) => Err(e),
    }
}

} // verus!
