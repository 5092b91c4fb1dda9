//! Unpacking. A `Deserializer` looks for one value after the other under
//! the tag that was set for it and passes over what stands before it;
//! `from_bytes` reads a `Value` of a given kind that way. The spec functions
//! here say what is found in which bytes.

use crate::error::Error;
use crate::ser::pack::{int_width, twos64};
use crate::value::{views, Kind, ScalarKind, Value, ValueView};
use crate::wire::Wire;
use vstd::prelude::*;
use vstd::string::StringSliceAdditionalSpecFns;
use vstd::utf8::{decode_utf8, is_scalar, valid_utf8};

pub mod read;

use read::{
    block_len, bytes_field, find, find_optional, le_signed, le_value, lemma_le_value_bound,
    lemma_tail_tail, len_field_width, parse_header, tail, BinReader, Cursor,
};

verus! {

/// The least and the greatest value of the integer kinds that are narrower
/// than the wire.
pub open spec fn bounds(kind: ScalarKind) -> (int, int) {
    match kind {
        ScalarKind::I8 => (i8::MIN as int, i8::MAX as int),
        ScalarKind::I16 => (i16::MIN as int, i16::MAX as int),
        ScalarKind::I32 => (i32::MIN as int, i32::MAX as int),
        ScalarKind::U8 => (0, u8::MAX as int),
        ScalarKind::U16 => (0, u16::MAX as int),
        ScalarKind::U32 => (0, u32::MAX as int),
        ScalarKind::Char => (0, 0x10FFFF),
        _ => (i64::MIN as int, i64::MAX as int),
    }
}

/// The scalar of kind `kind` that the integer `i` from the wire stands for.
/// A boolean is true for every integer but 0; a 64-bit unsigned integer is
/// the image of `i`; a character is the one with code point `i`; every
/// other kind takes `i` itself, if it is one of its values.
pub open spec fn scalar_of(kind: ScalarKind, i: int) -> Result<int, Error> {
    match kind {
        ScalarKind::Bool => Ok(
            if i != 0 {
                1
            } else {
                0
            },
        ),
        ScalarKind::I64 => Ok(i),
        ScalarKind::U64 => Ok(twos64(i)),
        _ => if bounds(kind).0 <= i <= bounds(kind).1 && (kind == ScalarKind::Char ==> is_scalar(
            i as u32,
        )) {
            Ok(i)
        } else {
            Err(Error::InvalidEncoding)
        },
    }
}

/// The integer at the front of `s` under class `wire`, sign-extended, and
/// the number of bytes that it takes.
pub open spec fn integer_field(wire: Wire, s: Seq<u8>) -> Result<(int, nat), Error> {
    let w = int_width(wire);
    if w == 0 {
        Err(Error::InvalidEncoding)
    } else if s.len() < w {
        Err(Error::InputTooShort)
    } else {
        Ok((le_signed(s.take(w as int)), w))
    }
}

/// The unsigned integer of `width` bytes at the front of `s`, which is read
/// only under class `wanted`.
pub open spec fn fixed_field(wanted: Wire, width: nat, wire: Wire, s: Seq<u8>) -> Result<
    int,
    Error,
> {
    if wire != wanted {
        Err(Error::InvalidEncoding)
    } else if s.len() < width {
        Err(Error::InputTooShort)
    } else {
        Ok(le_value(s.take(width as int)))
    }
}

/// The body of the block at the front of `s` under class `wire`, and the
/// number of bytes that the block takes with its length.
pub open spec fn block_field(wire: Wire, s: Seq<u8>) -> Result<(Seq<u8>, nat), Error> {
    let w = len_field_width(wire);
    match block_len(wire, s) {
        Err(e) => Err(e),
        Ok(n) => if s.len() < w + n {
            Err(Error::InputTooShort)
        } else {
            Ok((s.subrange(w as int, w as int + n), w + n))
        },
    }
}

/// The body of the block that a reader at `c` finds under `tag`, and where
/// the reader stands behind the block.
pub open spec fn framing(tag: Option<u16>, c: Cursor) -> Result<(Seq<u8>, Cursor), Error> {
    match tag {
        None => Err(Error::MissingTag),
        Some(t) => match find(c, t) {
            Err(e) => Err(e),
            Ok((wire, c1)) => match block_field(wire, c1.rest) {
                Err(e) => Err(e),
                Ok((body, n)) => Ok((body, Cursor { rest: tail(c1.rest, n), pending: None })),
            },
        },
    }
}

/// A reader at the start of bytes of its own.
pub open spec fn fresh(bytes: Seq<u8>) -> Cursor {
    Cursor { rest: bytes, pending: None }
}

/// The value of kind `kind` that a reader at `c` finds under `tag`, and
/// where the reader then stands.
pub open spec fn decode(kind: Kind, tag: u16, c: Cursor) -> Result<(ValueView, Cursor), Error>
    decreases kind, 1nat,
{
    match kind {
        Kind::Unit => Ok((ValueView::Unit, c)),
        Kind::Optional(inner) => match find_optional(c, tag) {
            Err(e) => Err(e),
            Ok((None, c1)) => Ok((ValueView::Optional(None), c1)),
            Ok((Some(_), c1)) => match decode(*inner, tag, c1) {
                Err(e) => Err(e),
                Ok((v, c2)) => Ok((ValueView::Optional(Some(Box::new(v))), c2)),
            },
        },
        Kind::Repeated(inner) => match find(c, tag) {
            Err(e) => Err(e),
            Ok((wire, c1)) => match fixed_field(Wire::REPEAT, 4, wire, c1.rest) {
                Err(e) => Err(e),
                Ok(count) => match decode_items(*inner, count as nat, fresh(tail(c1.rest, 4))) {
                    Err(e) => Err(e),
                    Ok((items, c2)) => Ok((ValueView::Repeated(items), c2)),
                },
            },
        },
        _ => match find(c, tag) {
            Err(e) => Err(e),
            Ok((wire, c1)) => match decode_payload(kind, wire, c1.rest) {
                Err(e) => Err(e),
                Ok((v, n)) => Ok((v, Cursor { rest: tail(c1.rest, n), pending: None })),
            },
        },
    }
}

/// The value of kind `kind` whose payload, of class `wire`, stands at the
/// front of `s`, and the number of bytes that the payload takes. This is for
/// the kinds whose payload says where it ends.
pub open spec fn decode_payload(kind: Kind, wire: Wire, s: Seq<u8>) -> Result<
    (ValueView, nat),
    Error,
>
    decreases kind, 0nat,
{
    match kind {
        Kind::Scalar(sk) => match integer_field(wire, s) {
            Err(e) => Err(e),
            Ok((i, n)) => match scalar_of(sk, i) {
                Err(e) => Err(e),
                Ok(v) => Ok((ValueView::Scalar(sk, v), n)),
            },
        },
        Kind::F32 => match fixed_field(Wire::INT4, 4, wire, s) {
            Err(e) => Err(e),
            Ok(bits) => Ok((ValueView::F32(bits as u32), 4)),
        },
        Kind::F64 => match fixed_field(Wire::QUAD, 8, wire, s) {
            Err(e) => Err(e),
            Ok(bits) => Ok((ValueView::F64(bits as u64), 8)),
        },
        Kind::Bytes => match bytes_field(wire, s) {
            Err(e) => Err(e),
            Ok((bytes, n)) => Ok((ValueView::Bytes(bytes), n)),
        },
        Kind::Text => match bytes_field(wire, s) {
            Err(e) => Err(e),
            Ok((bytes, n)) => if valid_utf8(bytes) {
                Ok((ValueView::Text(decode_utf8(bytes)), n))
            } else {
                Err(Error::InvalidEncoding)
            },
        },
        Kind::Record(fields) => match block_field(wire, s) {
            Err(e) => Err(e),
            Ok((body, n)) => match decode_fields(fields@, 0, fresh(body)) {
                Err(e) => Err(e),
                Ok((values, _)) => Ok((ValueView::Record(values), n)),
            },
        },
        Kind::Union(arms) => match block_field(wire, s) {
            Err(e) => Err(e),
            Ok((body, n)) => match parse_header(body) {
                None => Err(Error::InputTooShort),
                Some((hdr, hl)) => if hdr.tag >= arms@.len() {
                    Err(Error::InvalidEncoding)
                } else {
                    match decode(
                        arms@[hdr.tag as int],
                        hdr.tag,
                        Cursor { rest: tail(body, hl), pending: Some(hdr) },
                    ) {
                        Err(e) => Err(e),
                        Ok((v, _)) => Ok((ValueView::Union(hdr.tag, Box::new(v)), n)),
                    }
                },
            },
        },
        _ => Err(Error::InvalidEncoding),
    }
}

/// The `count` values of kind `kind` that a reader at `c` finds under tag
/// 0, one after the other, and where the reader then stands.
pub open spec fn decode_items(kind: Kind, count: nat, c: Cursor) -> Result<
    (Seq<ValueView>, Cursor),
    Error,
>
    decreases kind, count + 2,
{
    if count == 0 {
        Ok((Seq::empty(), c))
    } else {
        match decode(kind, 0, c) {
            Err(e) => Err(e),
            Ok((v, c1)) => match decode_items(kind, (count - 1) as nat, c1) {
                Err(e) => Err(e),
                Ok((more, c2)) => Ok((seq![v] + more, c2)),
            },
        }
    }
}

/// The fields of the kinds `kinds[from..]` that a reader at `c` finds under
/// the tags `from + 1`, `from + 2`, ..., and where the reader then stands.
pub open spec fn decode_fields(kinds: Seq<Kind>, from: nat, c: Cursor) -> Result<
    (Seq<ValueView>, Cursor),
    Error,
>
    decreases kinds, kinds.len() - from,
{
    if from >= kinds.len() {
        Ok((Seq::empty(), c))
    } else if from >= u16::MAX {
        Err(Error::Unimplemented("value too large"))
    } else {
        match decode(kinds[from as int], (from + 1) as u16, c) {
            Err(e) => Err(e),
            Ok((v, c1)) => match decode_fields(kinds, from + 1, c1) {
                Err(e) => Err(e),
                Ok((more, c2)) => Ok((seq![v] + more, c2)),
            },
        }
    }
}

/// The value of kind `kind` that a reader at `c` finds. Under a tag every
/// kind is read; with no tag set only a record, whose fields then stand
/// without a prefix, and a unit.
pub open spec fn decoding(kind: Kind, tag: Option<u16>, c: Cursor) -> Result<
    (ValueView, Cursor),
    Error,
> {
    match tag {
        Some(t) => decode(kind, t, c),
        None => match kind {
            Kind::Unit => Ok((ValueView::Unit, c)),
            Kind::Record(fields) => match decode_fields(fields@, 0, c) {
                Err(e) => Err(e),
                Ok((values, c1)) => Ok((ValueView::Record(values), c1)),
            },
            _ => Err(Error::MissingTag),
        },
    }
}

/// The value of kind `kind` that the message `input` holds: what a reader
/// finds from its start, if nothing is left over behind it.
pub open spec fn parse(kind: Kind, input: Seq<u8>) -> Result<ValueView, Error> {
    match decoding(kind, None, fresh(input)) {
        Err(e) => Err(e),
        Ok((v, c)) => if c.rest.len() == 0 && c.pending is None {
            Ok(v)
        } else {
            Err(Error::TrailingCharacters)
        },
    }
}

/// `char::from_u32` of std: the character with code point `i`, which
/// exists exactly where `i` is a Unicode scalar value.
pub assume_specification[ char::from_u32 ](i: u32) -> (c: Option<char>)
    ensures
        c is Some <==> is_scalar(i),
        c matches Some(ch) ==> ch as int == i as int,
;

/// `core::str::from_utf8` of std: `bytes` as a text, which they are exactly
/// where they are valid UTF-8; the text then has these very bytes.
#[verifier::external_body]
fn utf8_text(bytes: &[u8]) -> (res: Option<&str>)
    ensures
        res is Some <==> valid_utf8(bytes@),
        res matches Some(text) ==> text.spec_bytes() == bytes@,
{
    match core::str::from_utf8(bytes) {
        Ok(text) => Some(text),
        Err(_) => None,
    }
}

/// A reader and the tag under which the next value is looked for.
pub struct Deserializer<'de> {
    reader: BinReader<'de>,
    current_tag: Option<u16>,
}

impl<'de> Deserializer<'de> {
    /// Where the reader stands.
    pub closed spec fn cursor(&self) -> Cursor {
        self.reader.cursor()
    }

    /// The tag under which the next value is looked for, if one is set.
    pub closed spec fn tag(&self) -> Option<u16> {
        self.current_tag
    }

    /// What reading a value of kind `kind` does: `res` holds what `decode`
    /// finds under the current tag, seen through `model`, and `after` stands
    /// where it ends; with no tag set, the tag is missed.
    pub open spec fn decodes<T>(
        &self,
        after: Self,
        res: Result<T, Error>,
        kind: Kind,
        model: spec_fn(T) -> ValueView,
    ) -> bool {
        match self.tag() {
            None => res == Err::<T, Error>(Error::MissingTag),
            Some(t) => match decode(kind, t, self.cursor()) {
                Ok((v, c)) => {
                    &&& res matches Ok(x) && model(x) == v
                    &&& after.cursor() == c
                    &&& after.tag() == self.tag()
                },
                Err(e) => res == Err::<T, Error>(e),
            },
        }
    }

    /// A deserializer at the start of `input`, with no tag set.
    pub fn from_bytes(input: &'de [u8]) -> (de: Self)
        ensures
            de.cursor() == fresh(input@),
            de.tag() is None,
    {
        let reader = BinReader::new(input);
        assert(reader.rest() =~= input@);
        Deserializer { reader, current_tag: None }
    }

    /// Sets the tag under which the next value is looked for.
    pub fn set_tag(&mut self, tag: u16)
        ensures
            final(self).cursor() == old(self).cursor(),
            final(self).tag() == Some(tag),
    {
        self.current_tag = Some(tag);
    }

    /// Whether the whole input has gone into values: no byte is left and no
    /// header waits for its value.
    pub fn is_finished(&self) -> (b: bool)
        ensures
            b == (self.cursor().rest.len() == 0 && self.cursor().pending is None),
    {
        self.reader.is_empty() && !self.reader.has_pending()
    }

    /// Looks for the value under the current tag, which must be there, and
    /// hands out its wire class.
    pub fn get_wire(&mut self) -> (res: Result<Wire, Error>)
        ensures
            final(self).tag() == old(self).tag(),
            match old(self).tag() {
                None => res == Err::<Wire, Error>(Error::MissingTag) && final(self).cursor()
                    == old(self).cursor(),
                Some(t) => match find(old(self).cursor(), t) {
                    Ok((wire, c)) => res == Ok::<Wire, Error>(wire) && final(self).cursor() == c,
                    Err(e) => {
                        &&& res == Err::<Wire, Error>(e)
                        &&& final(self).cursor() == old(self).cursor()
                    },
                },
            },
    {
        let tag = match self.current_tag {
            Some(tag) => tag,
            None => {
                return Err(Error::MissingTag);
            },
        };
        self.reader.get_tag(tag)
    }

    /// Looks for the value under the current tag, which may be missing, and
    /// hands out its wire class if it is there.
    pub fn get_optional_wire(&mut self) -> (res: Result<Option<Wire>, Error>)
        ensures
            final(self).tag() == old(self).tag(),
            match old(self).tag() {
                None => {
                    &&& res == Err::<Option<Wire>, Error>(Error::MissingTag)
                    &&& final(self).cursor() == old(self).cursor()
                },
                Some(t) => match find_optional(old(self).cursor(), t) {
                    Ok((wire, c)) => {
                        &&& res == Ok::<Option<Wire>, Error>(wire)
                        &&& final(self).cursor() == c
                    },
                    Err(e) => {
                        &&& res == Err::<Option<Wire>, Error>(e)
                        &&& final(self).cursor() == old(self).cursor()
                    },
                },
            },
    {
        let tag = match self.current_tag {
            Some(tag) => tag,
            None => {
                return Err(Error::MissingTag);
            },
        };
        self.reader.get_optional_tag(tag)
    }

    /// Reads the integer under the current tag and checks that it is a
    /// value of kind `kind`.
    fn scalar(&mut self, kind: ScalarKind) -> (res: Result<i64, Error>)
        ensures
            old(self).decodes(
                *final(self),
                res,
                Kind::Scalar(kind),
                |i: i64| ValueView::Scalar(kind, scalar_of(kind, i as int).unwrap()),
            ),
            res matches Ok(i) ==> scalar_of(kind, i as int) is Ok,
    {
        let wire = self.get_wire()?;
        // Naming the step on the payload lets the verifier unfold it.
        let ghost payload = decode_payload(Kind::Scalar(kind), wire, self.cursor().rest);
        let i: i64 = self.reader.read_integer(wire)?;
        let (lo, hi): (i64, i64) = match kind {
            ScalarKind::I8 => (-0x80, 0x7f),
            ScalarKind::I16 => (-0x8000, 0x7fff),
            ScalarKind::I32 => (-0x8000_0000, 0x7fff_ffff),
            ScalarKind::U8 => (0, 0xff),
            ScalarKind::U16 => (0, 0xffff),
            ScalarKind::U32 => (0, 0xffff_ffff),
            ScalarKind::Char => (0, 0x10FFFF),
            _ => (i64::MIN, i64::MAX),
        };
        if i < lo || i > hi {
            return Err(Error::InvalidEncoding);
        }
        match kind {
            ScalarKind::Char => {
                if char::from_u32(i as u32).is_none() {
                    return Err(Error::InvalidEncoding);
                }
            },
            _ => {},
        }
        Ok(i)
    }

    /// Reads a boolean: any integer, true unless it is 0.
    pub fn deserialize_bool(&mut self) -> (res: Result<bool, Error>)
        ensures
            old(self).decodes(
                *final(self),
                res,
                Kind::Scalar(ScalarKind::Bool),
                |b: bool|
                    ValueView::Scalar(
                        ScalarKind::Bool,
                        if b {
                            1
                        } else {
                            0
                        },
                    ),
            ),
    {
        let i = self.scalar(ScalarKind::Bool)?;
        Ok(i != 0)
    }

    /// Reads an 8-bit signed integer.
    pub fn deserialize_i8(&mut self) -> (res: Result<i8, Error>)
        ensures
            old(self).decodes(
                *final(self),
                res,
                Kind::Scalar(ScalarKind::I8),
                |v: i8| ValueView::Scalar(ScalarKind::I8, v as int),
            ),
    {
        let i = self.scalar(ScalarKind::I8)?;
        Ok(i as i8)
    }

    /// Reads a 16-bit signed integer.
    pub fn deserialize_i16(&mut self) -> (res: Result<i16, Error>)
        ensures
            old(self).decodes(
                *final(self),
                res,
                Kind::Scalar(ScalarKind::I16),
                |v: i16| ValueView::Scalar(ScalarKind::I16, v as int),
            ),
    {
        let i = self.scalar(ScalarKind::I16)?;
        Ok(i as i16)
    }

    /// Reads a 32-bit signed integer.
    pub fn deserialize_i32(&mut self) -> (res: Result<i32, Error>)
        ensures
            old(self).decodes(
                *final(self),
                res,
                Kind::Scalar(ScalarKind::I32),
                |v: i32| ValueView::Scalar(ScalarKind::I32, v as int),
            ),
    {
        let i = self.scalar(ScalarKind::I32)?;
        Ok(i as i32)
    }

    /// Reads a 64-bit signed integer.
    pub fn deserialize_i64(&mut self) -> (res: Result<i64, Error>)
        ensures
            old(self).decodes(
                *final(self),
                res,
                Kind::Scalar(ScalarKind::I64),
                |v: i64| ValueView::Scalar(ScalarKind::I64, v as int),
            ),
    {
        self.scalar(ScalarKind::I64)
    }

    /// Reads an 8-bit unsigned integer.
    pub fn deserialize_u8(&mut self) -> (res: Result<u8, Error>)
        ensures
            old(self).decodes(
                *final(self),
                res,
                Kind::Scalar(ScalarKind::U8),
                |v: u8| ValueView::Scalar(ScalarKind::U8, v as int),
            ),
    {
        let i = self.scalar(ScalarKind::U8)?;
        Ok(i as u8)
    }

    /// Reads a 16-bit unsigned integer.
    pub fn deserialize_u16(&mut self) -> (res: Result<u16, Error>)
        ensures
            old(self).decodes(
                *final(self),
                res,
                Kind::Scalar(ScalarKind::U16),
                |v: u16| ValueView::Scalar(ScalarKind::U16, v as int),
            ),
    {
        let i = self.scalar(ScalarKind::U16)?;
        Ok(i as u16)
    }

    /// Reads a 32-bit unsigned integer.
    pub fn deserialize_u32(&mut self) -> (res: Result<u32, Error>)
        ensures
            old(self).decodes(
                *final(self),
                res,
                Kind::Scalar(ScalarKind::U32),
                |v: u32| ValueView::Scalar(ScalarKind::U32, v as int),
            ),
    {
        let i = self.scalar(ScalarKind::U32)?;
        Ok(i as u32)
    }

    /// Reads a 64-bit unsigned integer: the image of the signed integer
    /// that is there.
    pub fn deserialize_u64(&mut self) -> (res: Result<u64, Error>)
        ensures
            old(self).decodes(
                *final(self),
                res,
                Kind::Scalar(ScalarKind::U64),
                |v: u64| ValueView::Scalar(ScalarKind::U64, v as int),
            ),
    {
        let i = self.scalar(ScalarKind::U64)?;
        Ok(crate::ser::pack::image64(i))
    }

    /// Reads a character: an integer that is a Unicode scalar value.
    pub fn deserialize_char(&mut self) -> (res: Result<char, Error>)
        ensures
            old(self).decodes(
                *final(self),
                res,
                Kind::Scalar(ScalarKind::Char),
                |c: char| ValueView::Scalar(ScalarKind::Char, c as int),
            ),
    {
        let i = self.scalar(ScalarKind::Char)?;
        match char::from_u32(i as u32) {
            Some(c) => Ok(c),
            None => Err(Error::InvalidEncoding),
        }
    }

    /// Reads the bit image of a single-precision float.
    pub fn deserialize_f32_bits(&mut self) -> (res: Result<u32, Error>)
        ensures
            old(self).decodes(*final(self), res, Kind::F32, |bits: u32| ValueView::F32(bits)),
    {
        let wire = self.get_wire()?;
        // Naming the step on the payload lets the verifier unfold it.
        let ghost payload = decode_payload(Kind::F32, wire, self.cursor().rest);
        self.reader.read_f32_bits(wire)
    }

    /// Reads the bit image of a double-precision float.
    pub fn deserialize_f64_bits(&mut self) -> (res: Result<u64, Error>)
        ensures
            old(self).decodes(*final(self), res, Kind::F64, |bits: u64| ValueView::F64(bits)),
    {
        let wire = self.get_wire()?;
        // Naming the step on the payload lets the verifier unfold it.
        let ghost payload = decode_payload(Kind::F64, wire, self.cursor().rest);
        self.reader.read_f64_bits(wire)
    }

    /// Reads a byte string, which is handed out as a part of the input.
    pub fn deserialize_bytes(&mut self) -> (res: Result<&'de [u8], Error>)
        ensures
            old(self).decodes(
                *final(self),
                res,
                Kind::Bytes,
                |bytes: &[u8]| ValueView::Bytes(bytes@),
            ),
    {
        let wire = self.get_wire()?;
        // Naming the step on the payload lets the verifier unfold it.
        let ghost payload = decode_payload(Kind::Bytes, wire, self.cursor().rest);
        self.reader.read_bytes(wire)
    }

    /// Reads a text: a byte string that is valid UTF-8.
    pub fn deserialize_string(&mut self) -> (res: Result<String, Error>)
        ensures
            old(self).decodes(*final(self), res, Kind::Text, |text: String| ValueView::Text(text@)),
    {
        let wire = self.get_wire()?;
        // Naming the step on the payload lets the verifier unfold it.
        let ghost payload = decode_payload(Kind::Text, wire, self.cursor().rest);
        let bytes = self.reader.read_bytes(wire)?;
        match utf8_text(bytes) {
            Some(text) => {
                proof {
                    vstd::utf8::encode_utf8_decode_utf8(text@);
                }
                Ok(text.to_owned())
            },
            None => Err(Error::InvalidEncoding),
        }
    }

    /// Looks for an optional value under the current tag: whether it is
    /// there. Where it is, it is read next, under the same tag.
    pub fn deserialize_option(&mut self) -> (res: Result<bool, Error>)
        ensures
            final(self).tag() == old(self).tag(),
            match old(self).tag() {
                None => res == Err::<bool, Error>(Error::MissingTag) && final(self).cursor()
                    == old(self).cursor(),
                Some(t) => match find_optional(old(self).cursor(), t) {
                    Ok((wire, c)) => {
                        &&& res == Ok::<bool, Error>(wire is Some)
                        &&& final(self).cursor() == c
                    },
                    Err(e) => res == Err::<bool, Error>(e),
                },
            },
    {
        match self.get_optional_wire() {
            Ok(Some(_)) => Ok(true),
            Ok(None) => Ok(false),
            Err(e) => Err(e),
        }
    }

    /// Starts a sequence: reads the count of its elements, which are read
    /// next, each under tag 0.
    pub fn deserialize_seq(&mut self) -> (res: Result<usize, Error>)
        ensures
            final(self).tag() == old(self).tag(),
            match old(self).tag() {
                None => res == Err::<usize, Error>(Error::MissingTag) && final(self).cursor()
                    == old(self).cursor(),
                Some(t) => match find(old(self).cursor(), t) {
                    Err(e) => res == Err::<usize, Error>(e),
                    Ok((wire, c)) => match fixed_field(Wire::REPEAT, 4, wire, c.rest) {
                        Err(e) => res == Err::<usize, Error>(e),
                        Ok(count) => {
                            &&& res == Ok::<usize, Error>(count as usize)
                            &&& final(self).cursor() == fresh(tail(c.rest, 4))
                        },
                    },
                },
            },
    {
        let wire = self.get_wire()?;
        proof {
            if self.cursor().rest.len() >= 4 {
                lemma_le_value_bound(self.cursor().rest.take(4));
            }
        }
        self.reader.read_repeated_len(wire)
    }

    /// Reads the frame of a nested record or union under the current tag,
    /// and hands out a deserializer over its body.
    fn frame(&mut self) -> (res: Result<Deserializer<'de>, Error>)
        ensures
            final(self).tag() == old(self).tag(),
            match framing(old(self).tag(), old(self).cursor()) {
                Err(e) => res == Err::<Deserializer<'de>, Error>(e),
                Ok((body, after)) => {
                    &&& res matches Ok(sub)
                    &&& sub.cursor() == fresh(body)
                    &&& sub.tag() is None
                    &&& final(self).cursor() == after
                },
            },
    {
        let wire = self.get_wire()?;
        let ghost rest = self.cursor().rest;
        proof {
            if rest.len() >= len_field_width(wire) {
                lemma_le_value_bound(rest.take(len_field_width(wire) as int));
            }
        }
        let len = self.reader.read_len(wire)?;
        let body = self.reader.get_slice(len)?;
        proof {
            lemma_tail_tail(rest, len_field_width(wire), len as nat);
        }
        Ok(Deserializer::from_bytes(body))
    }

    /// Starts a record. Under a tag it is a nested record: its frame is
    /// read, and its fields are read with the deserializer over its body
    /// that is handed out. With no tag set it is the outermost one, whose
    /// fields are read with this deserializer.
    pub fn deserialize_struct(&mut self) -> (res: Result<Option<Deserializer<'de>>, Error>)
        ensures
            final(self).tag() == old(self).tag(),
            match old(self).tag() {
                None => res matches Ok(None) && final(self).cursor() == old(self).cursor(),
                Some(_) => match framing(old(self).tag(), old(self).cursor()) {
                    Err(e) => res == Err::<Option<Deserializer<'de>>, Error>(e),
                    Ok((body, after)) => {
                        &&& res matches Ok(Some(sub))
                        &&& sub.cursor() == fresh(body)
                        &&& sub.tag() is None
                        &&& final(self).cursor() == after
                    },
                },
            },
    {
        if self.current_tag.is_none() {
            Ok(None)
        } else {
            let sub = self.frame()?;
            Ok(Some(sub))
        }
    }

    /// Starts a union under the current tag: its frame is read, and the tag
    /// of the value in it, which says which arm it is. The value is read
    /// with the deserializer over the body that is handed out, under that
    /// tag.
    pub fn deserialize_enum(&mut self) -> (res: Result<(u16, Deserializer<'de>), Error>)
        ensures
            final(self).tag() == old(self).tag(),
            match framing(old(self).tag(), old(self).cursor()) {
                Err(e) => res == Err::<(u16, Deserializer<'de>), Error>(e),
                Ok((body, after)) => match parse_header(body) {
                    None => res == Err::<(u16, Deserializer<'de>), Error>(Error::InputTooShort),
                    Some((hdr, hl)) => {
                        &&& res matches Ok((arm, sub))
                        &&& arm == hdr.tag
                        &&& sub.cursor() == Cursor { rest: tail(body, hl), pending: Some(hdr) }
                        &&& sub.tag() == Some(arm)
                        &&& final(self).cursor() == after
                    },
                },
            },
    {
        let mut sub = self.frame()?;
        let arm: u16 = sub.reader.get_next_tag_value()?;
        sub.set_tag(arm);
        Ok((arm, sub))
    }
}

/// A sequence that is being read: how many of its elements are still to
/// come.
pub struct SeqDeserializer {
    remaining_elements: usize,
}

impl SeqDeserializer {
    /// How many elements are still to come.
    pub closed spec fn remaining(&self) -> usize {
        self.remaining_elements
    }

    /// A sequence of `elements` elements, none of them read yet.
    pub fn new(elements: usize) -> (seq: Self)
        ensures
            seq.remaining() == elements,
    {
        SeqDeserializer { remaining_elements: elements }
    }

    /// Before each element: whether there is one more. If so it is read
    /// next, under tag 0.
    pub fn next_element(&mut self, de: &mut Deserializer) -> (more: bool)
        ensures
            final(de).cursor() == old(de).cursor(),
            more == (old(self).remaining() != 0),
            more ==> final(self).remaining() == old(self).remaining() - 1 && final(de).tag()
                == Some(0u16),
            !more ==> final(self).remaining() == 0 && final(de).tag() == old(de).tag(),
    {
        if self.remaining_elements == 0 {
            return false;
        }
        self.remaining_elements -= 1;
        de.current_tag = Some(0);
        true
    }
}

/// A record that is being read: how many of its fields are still to come,
/// and the tag of the next one.
pub struct StructDeserializer {
    nb_fields: usize,
    current_tag: u16,
}

impl StructDeserializer {
    /// How many fields are still to come.
    pub closed spec fn remaining(&self) -> usize {
        self.nb_fields
    }

    /// The tag that the next field has; 0 once the tags have run out.
    pub closed spec fn next_tag(&self) -> u16 {
        self.current_tag
    }

    /// A record of `nb_fields` fields, none of them read yet.
    pub fn new(nb_fields: usize) -> (st: Self)
        ensures
            st.remaining() == nb_fields,
            st.next_tag() == 1,
    {
        StructDeserializer { nb_fields, current_tag: 1 }
    }

    /// Before each field: whether there is one more. If so it is read next,
    /// under a tag that is one more than that of the field before. A record
    /// has no field after the one tagged 65535.
    pub fn next_element(&mut self, de: &mut Deserializer) -> (res: Result<bool, Error>)
        ensures
            final(de).cursor() == old(de).cursor(),
            if old(self).remaining() == 0 {
                &&& res == Ok::<bool, Error>(false)
                &&& final(self).remaining() == 0
                &&& final(self).next_tag() == old(self).next_tag()
                &&& final(de).tag() == old(de).tag()
            } else if old(self).next_tag() == 0 {
                res == Err::<bool, Error>(Error::Unimplemented("value too large"))
            } else {
                &&& res == Ok::<bool, Error>(true)
                &&& final(self).remaining() == old(self).remaining() - 1
                &&& final(self).next_tag() == if old(self).next_tag() == u16::MAX {
                    0u16
                } else {
                    (old(self).next_tag() + 1) as u16
                }
                &&& final(de).tag() == Some(old(self).next_tag())
            },
    {
        if self.nb_fields == 0 {
            return Ok(false);
        }
        if self.current_tag == 0 {
            return Err(Error::Unimplemented("value too large"));
        }
        de.current_tag = Some(self.current_tag);
        self.current_tag = if self.current_tag == 0xffff {
            0
        } else {
            self.current_tag + 1
        };
        self.nb_fields -= 1;
        Ok(true)
    }
}

/// What was read so far, put in front of what is read from here on.
pub open spec fn prepend(before: Seq<ValueView>, found: Result<(Seq<ValueView>, Cursor), Error>)
    -> Result<(Seq<ValueView>, Cursor), Error> {
    match found {
        Ok((more, c)) => Ok((before + more, c)),
        Err(e) => Err(e),
    }
}

/// One more value read is one more value in front.
proof fn lemma_prepend_push(
    before: Seq<ValueView>,
    v: ValueView,
    found: Result<(Seq<ValueView>, Cursor), Error>,
)
    ensures
        prepend(before, prepend(seq![v], found)) == prepend(before.push(v), found),
{
    if let Ok((more, c)) = found {
        assert(before + (seq![v] + more) =~= before.push(v) + more);
    }
}

/// The views of a list with one more value.
proof fn lemma_views_push(values: Seq<Value>, value: Value)
    ensures
        views(values.push(value)) == views(values).push(value@),
{
    assert(views(values.push(value)) =~= views(values).push(value@));
}

impl<'de> Deserializer<'de> {
    /// Reads a scalar of kind `kind` under the current tag.
    fn deserialize_scalar(&mut self, kind: ScalarKind) -> (res: Result<Value, Error>)
        ensures
            old(self).decodes(*final(self), res, Kind::Scalar(kind), |value: Value| value@),
    {
        match kind {
            ScalarKind::Bool => Ok(Value::Bool(self.deserialize_bool()?)),
            ScalarKind::I8 => Ok(Value::I8(self.deserialize_i8()?)),
            ScalarKind::I16 => Ok(Value::I16(self.deserialize_i16()?)),
            ScalarKind::I32 => Ok(Value::I32(self.deserialize_i32()?)),
            ScalarKind::I64 => Ok(Value::I64(self.deserialize_i64()?)),
            ScalarKind::U8 => Ok(Value::U8(self.deserialize_u8()?)),
            ScalarKind::U16 => Ok(Value::U16(self.deserialize_u16()?)),
            ScalarKind::U32 => Ok(Value::U32(self.deserialize_u32()?)),
            ScalarKind::U64 => Ok(Value::U64(self.deserialize_u64()?)),
            ScalarKind::Char => {
                // Naming the step on the payload lets the verifier unfold it.
                let ghost found = find(self.cursor(), self.tag().unwrap());
                let ghost payload = decode_payload(
                    Kind::Scalar(kind),
                    found.unwrap().0,
                    found.unwrap().1.rest,
                );
                Ok(Value::Char(self.deserialize_char()?))
            },
        }
    }

    /// Reads a value of kind `kind` under the current tag.
    pub fn deserialize_value(&mut self, kind: &Kind) -> (res: Result<Value, Error>)
        ensures
            match decoding(*kind, old(self).tag(), old(self).cursor()) {
                Ok((v, c)) => {
                    &&& res matches Ok(value) && value@ == v
                    &&& final(self).cursor() == c
                    &&& final(self).tag() == old(self).tag()
                },
                Err(e) => res == Err::<Value, Error>(e),
            },
        decreases kind, 2nat,
    {
        match kind {
            Kind::Unit => Ok(Value::Unit),
            Kind::Scalar(scalar) => self.deserialize_scalar(*scalar),
            Kind::F32 => Ok(Value::F32(self.deserialize_f32_bits()?)),
            Kind::F64 => Ok(Value::F64(self.deserialize_f64_bits()?)),
            Kind::Bytes => {
                let bytes = self.deserialize_bytes()?;
                Ok(Value::Bytes(vstd::slice::slice_to_vec(bytes)))
            },
            Kind::Text => Ok(Value::Text(self.deserialize_string()?)),
            Kind::Optional(inner) => {
                if self.deserialize_option()? {
                    let value = self.deserialize_value(&**inner)?;
                    Ok(Value::Optional(Some(Box::new(value))))
                } else {
                    Ok(Value::Optional(None))
                }
            },
            Kind::Repeated(inner) => {
                let items = self.deserialize_items(&**inner)?;
                Ok(Value::Repeated(items))
            },
            Kind::Record(fields) => {
                let values = self.deserialize_record(fields)?;
                Ok(Value::Record(values))
            },
            Kind::Union(arms) => self.deserialize_union(arms),
        }
    }

    /// Reads a record of kinds `kinds`: with no tag set the outermost one,
    /// whose fields stand without a prefix; under a tag a nested one, whose
    /// fields are the body of a block.
    fn deserialize_record(&mut self, kinds: &Vec<Kind>) -> (res: Result<Vec<Value>, Error>)
        ensures
            match decoding(Kind::Record(*kinds), old(self).tag(), old(self).cursor()) {
                Ok((v, c)) => {
                    &&& res matches Ok(fields) && ValueView::Record(views(fields@)) == v
                    &&& final(self).cursor() == c
                    &&& final(self).tag() == old(self).tag()
                },
                Err(e) => res == Err::<Vec<Value>, Error>(e),
            },
        decreases kinds, 1nat,
    {
        // Naming the step on the payload lets the verifier unfold it.
        let ghost found = find(self.cursor(), self.tag().unwrap());
        let ghost payload = decode_payload(
            Kind::Record(*kinds),
            found.unwrap().0,
            found.unwrap().1.rest,
        );
        match self.deserialize_struct()? {
            None => self.deserialize_fields(kinds),
            Some(mut sub) => sub.deserialize_fields(kinds),
        }
    }

    /// Reads a union of arms `arms` under the current tag: the block, the
    /// tag of the value in it, which says which arm it is, and the value.
    fn deserialize_union(&mut self, arms: &Vec<Kind>) -> (res: Result<Value, Error>)
        ensures
            old(self).decodes(*final(self), res, Kind::Union(*arms), |value: Value| value@),
        decreases arms, 1nat,
    {
        // Naming the step on the payload lets the verifier unfold it.
        let ghost found = find(self.cursor(), self.tag().unwrap());
        let ghost payload = decode_payload(
            Kind::Union(*arms),
            found.unwrap().0,
            found.unwrap().1.rest,
        );
        let (arm, mut sub) = self.deserialize_enum()?;
        if arm as usize >= arms.len() {
            return Err(Error::InvalidEncoding);
        }
        let value = sub.deserialize_value(&arms[arm as usize])?;
        Ok(Value::Union(arm, Box::new(value)))
    }

    /// Reads a sequence under the current tag: the count, then each element
    /// under tag 0.
    #[verifier::loop_isolation(false)]
    fn deserialize_items(&mut self, kind: &Kind) -> (res: Result<Vec<Value>, Error>)
        ensures
            match old(self).tag() {
                None => res == Err::<Vec<Value>, Error>(Error::MissingTag),
                Some(t) => match find(old(self).cursor(), t) {
                    Err(e) => res == Err::<Vec<Value>, Error>(e),
                    Ok((wire, c)) => match fixed_field(Wire::REPEAT, 4, wire, c.rest) {
                        Err(e) => res == Err::<Vec<Value>, Error>(e),
                        Ok(count) => match decode_items(
                            *kind,
                            count as nat,
                            fresh(tail(c.rest, 4)),
                        ) {
                            Err(e) => res == Err::<Vec<Value>, Error>(e),
                            Ok((items, c2)) => {
                                &&& res matches Ok(values) && views(values@) == items
                                &&& final(self).cursor() == c2
                                &&& final(self).tag() == old(self).tag()
                            },
                        },
                    },
                },
            },
        decreases kind, 3nat,
    {
        proof {
            if let Some(t) = self.tag() {
                if let Ok((_, c)) = find(self.cursor(), t) {
                    if c.rest.len() >= 4 {
                        lemma_le_value_bound(c.rest.take(4));
                    }
                }
            }
        }
        let count: usize = self.deserialize_seq()?;
        let tag = self.current_tag;
        let mut seq = SeqDeserializer::new(count);
        let ghost start = self.cursor();
        let mut items: Vec<Value> = Vec::new();
        let mut i: usize = 0;
        while i < count
            invariant
                i <= count,
                seq.remaining() == count - i,
                decode_items(*kind, count as nat, start) == prepend(
                    views(items@),
                    decode_items(*kind, (count - i) as nat, self.cursor()),
                ),
            decreases count - i,
        {
            let _ = seq.next_element(self);
            let value = self.deserialize_value(kind)?;
            proof {
                lemma_prepend_push(
                    views(items@),
                    value@,
                    decode_items(*kind, (count - i - 1) as nat, self.cursor()),
                );
                lemma_views_push(items@, value);
            }
            items.push(value);
            i += 1;
        }
        self.current_tag = tag;
        proof {
            assert(views(items@) + Seq::<ValueView>::empty() =~= views(items@));
        }
        Ok(items)
    }

    /// Reads the fields of a record of kinds `kinds`, under the tags 1, 2,
    /// 3, ..., from where the reader stands.
    #[verifier::loop_isolation(false)]
    fn deserialize_fields(&mut self, kinds: &Vec<Kind>) -> (res: Result<Vec<Value>, Error>)
        ensures
            match decode_fields(kinds@, 0, old(self).cursor()) {
                Ok((values, c)) => {
                    &&& res matches Ok(fields) && views(fields@) == values
                    &&& final(self).cursor() == c
                    &&& final(self).tag() == old(self).tag()
                },
                Err(e) => res == Err::<Vec<Value>, Error>(e),
            },
        decreases kinds, 0nat,
    {
        let tag = self.current_tag;
        let mut st = StructDeserializer::new(kinds.len());
        let ghost start = self.cursor();
        let mut fields: Vec<Value> = Vec::new();
        let mut i: usize = 0;
        while i < kinds.len()
            invariant
                i <= kinds.len(),
                st.remaining() == kinds.len() - i,
                st.next_tag() == if i >= 0xffff {
                    0
                } else {
                    i + 1
                },
                decode_fields(kinds@, 0, start) == prepend(
                    views(fields@),
                    decode_fields(kinds@, i as nat, self.cursor()),
                ),
            decreases kinds.len() - i,
        {
            let _ = st.next_element(self)?;
            let value = self.deserialize_value(&kinds[i])?;
            proof {
                lemma_prepend_push(
                    views(fields@),
                    value@,
                    decode_fields(kinds@, (i + 1) as nat, self.cursor()),
                );
                lemma_views_push(fields@, value);
            }
            fields.push(value);
            i += 1;
        }
        self.current_tag = tag;
        proof {
            assert(views(fields@) + Seq::<ValueView>::empty() =~= views(fields@));
        }
        Ok(fields)
    }
}

/// Unpacks the value of kind `kind` that the message `input` holds.
pub fn from_bytes(kind: &Kind, input: &[u8]) -> (res: Result<Value, Error>)
    ensures
        match parse(*kind, input@) {
            Ok(v) => res matches Ok(value) && value@ == v,
            Err(e) => res == Err::<Value, Error>(e),
        },
{
    let mut deserializer = Deserializer::from_bytes(input);
    let value = deserializer.deserialize_value(kind)?;
    if deserializer.is_finished() {
        Ok(value)
    } else {
        Err(Error::TrailingCharacters)
    }
}

} // verus!
