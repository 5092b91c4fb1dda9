//! Values that can be packed, the kinds that say what a reader expects,
//! and the mathematical model of a value.

use vstd::prelude::*;
use vstd::utf8::is_scalar;

verus! {

/// The kinds of value that travel as an integer.
#[derive(Clone, Copy, Debug, PartialEq, Eq, Structural)]
pub enum ScalarKind {
    Bool,
    I8,
    I16,
    I32,
    I64,
    U8,
    U16,
    U32,
    U64,
    Char,
}

/// The shape of a value: what a reader expects to find.
#[derive(Debug, PartialEq, Eq)]
pub enum Kind {
    /// Nothing at all; it holds the place of a tag that is not in use.
    Unit,
    /// A boolean, an integer or a character.
    Scalar(ScalarKind),
    /// A single-precision float, as its bit image.
    F32,
    /// A double-precision float, as its bit image.
    F64,
    /// A byte string.
    Bytes,
    /// A text.
    Text,
    /// A value that may be absent.
    Optional(Box<Kind>),
    /// A sequence of values of one kind.
    Repeated(Box<Kind>),
    /// A record; its fields carry the tags 1, 2, 3, ... in this order.
    Record(Vec<Kind>),
    /// A union; its arms carry the tags 0, 1, 2, ... in this order.
    Union(Vec<Kind>),
}

/// A value that can be packed and unpacked.
#[derive(Debug, PartialEq, Eq)]
pub enum Value {
    Unit,
    Bool(bool),
    I8(i8),
    I16(i16),
    I32(i32),
    I64(i64),
    U8(u8),
    U16(u16),
    U32(u32),
    U64(u64),
    Char(char),
    /// The bit image of a single-precision float.
    F32(u32),
    /// The bit image of a double-precision float.
    F64(u64),
    Bytes(Vec<u8>),
    Text(String),
    Optional(Option<Box<Value>>),
    Repeated(Vec<Value>),
    /// The fields of a record, in the order of their tags 1, 2, 3, ...
    Record(Vec<Value>),
    /// The tag of the chosen arm of a union, and its value.
    Union(u16, Box<Value>),
}

/// What a `Value` stands for.
pub enum ValueView {
    Unit,
    /// A boolean (0 or 1), an integer, or the code point of a character.
    Scalar(ScalarKind, int),
    F32(u32),
    F64(u64),
    Bytes(Seq<u8>),
    Text(Seq<char>),
    Optional(Option<Box<ValueView>>),
    Repeated(Seq<ValueView>),
    Record(Seq<ValueView>),
    Union(u16, Box<ValueView>),
}

/// What each of `values` stands for.
pub open spec fn views(values: Seq<Value>) -> Seq<ValueView>
    decreases values, 0nat,
{
    Seq::new(
        values.len(),
        |i: int|
            if 0 <= i < values.len() {
                values[i].model()
            } else {
                ValueView::Unit
            },
    )
}

impl Value {
    /// What this value stands for.
    pub open spec fn model(&self) -> ValueView
        decreases self, 1nat,
    {
        match self {
            Value::Unit => ValueView::Unit,
            Value::Bool(b) => ValueView::Scalar(
                ScalarKind::Bool,
                if *b {
                    1
                } else {
                    0
                },
            ),
            Value::I8(v) => ValueView::Scalar(ScalarKind::I8, *v as int),
            Value::I16(v) => ValueView::Scalar(ScalarKind::I16, *v as int),
            Value::I32(v) => ValueView::Scalar(ScalarKind::I32, *v as int),
            Value::I64(v) => ValueView::Scalar(ScalarKind::I64, *v as int),
            Value::U8(v) => ValueView::Scalar(ScalarKind::U8, *v as int),
            Value::U16(v) => ValueView::Scalar(ScalarKind::U16, *v as int),
            Value::U32(v) => ValueView::Scalar(ScalarKind::U32, *v as int),
            Value::U64(v) => ValueView::Scalar(ScalarKind::U64, *v as int),
            Value::Char(c) => ValueView::Scalar(ScalarKind::Char, *c as int),
            Value::F32(bits) => ValueView::F32(*bits),
            Value::F64(bits) => ValueView::F64(*bits),
            Value::Bytes(bytes) => ValueView::Bytes(bytes@),
            Value::Text(text) => ValueView::Text(text@),
            Value::Optional(None) => ValueView::Optional(None),
            Value::Optional(Some(inner)) => ValueView::Optional(Some(Box::new((**inner).model()))),
            Value::Repeated(items) => ValueView::Repeated(views(items@)),
            Value::Record(fields) => ValueView::Record(views(fields@)),
            Value::Union(arm, inner) => ValueView::Union(*arm, Box::new((**inner).model())),
        }
    }
}

impl View for Value {
    type V = ValueView;

    open spec fn view(&self) -> ValueView {
        self.model()
    }
}

/// Whether the integer `i` is a value of the scalar kind `kind`.
pub open spec fn in_kind(kind: ScalarKind, i: int) -> bool {
    match kind {
        ScalarKind::Bool => i == 0 || i == 1,
        ScalarKind::I8 => i8::MIN <= i <= i8::MAX,
        ScalarKind::I16 => i16::MIN <= i <= i16::MAX,
        ScalarKind::I32 => i32::MIN <= i <= i32::MAX,
        ScalarKind::I64 => i64::MIN <= i <= i64::MAX,
        ScalarKind::U8 => 0 <= i <= u8::MAX,
        ScalarKind::U16 => 0 <= i <= u16::MAX,
        ScalarKind::U32 => 0 <= i <= u32::MAX,
        ScalarKind::U64 => 0 <= i <= u64::MAX,
        ScalarKind::Char => 0 <= i <= 0x10FFFF && is_scalar(i as u32),
    }
}

/// Whether `v` is a value of kind `kind`.
pub open spec fn has_kind(v: ValueView, kind: Kind) -> bool
    decreases v,
{
    match (v, kind) {
        (ValueView::Unit, Kind::Unit) => true,
        (ValueView::Scalar(sk, i), Kind::Scalar(k)) => sk == k && in_kind(k, i),
        (ValueView::F32(_), Kind::F32) => true,
        (ValueView::F64(_), Kind::F64) => true,
        (ValueView::Bytes(_), Kind::Bytes) => true,
        (ValueView::Text(_), Kind::Text) => true,
        (ValueView::Optional(None), Kind::Optional(_)) => true,
        (ValueView::Optional(Some(inner)), Kind::Optional(k)) => has_kind(*inner, *k),
        (ValueView::Repeated(items), Kind::Repeated(k)) => forall|i: int|
            0 <= i < items.len() ==> has_kind(#[trigger] items[i], *k),
        (ValueView::Record(fields), Kind::Record(kinds)) => {
            &&& fields.len() == kinds@.len()
            &&& forall|i: int| 0 <= i < fields.len() ==> has_kind(#[trigger] fields[i], kinds@[i])
        },
        (ValueView::Union(arm, inner), Kind::Union(arms)) => {
            &&& arm < arms@.len()
            &&& has_kind(*inner, arms@[arm as int])
        },
        _ => false,
    }
}

} // verus!
