//! The reader: a cursor over a message that reads headers, passes over
//! values by their wire class alone, looks for tags, and reads integers,
//! lengths and byte strings. Every failure leaves the cursor where it was.

use crate::error::Error;
use crate::ser::pack::{image64, int_width, le_bytes, radix, twos64};
use crate::wire::Wire;
use vstd::prelude::*;
use vstd::slice::slice_subrange;

verus! {

/// What stands in front of every value: its wire class and its field tag.
#[derive(Clone, Copy, Debug, PartialEq, Eq, Structural)]
pub struct Header {
    pub wire: Wire,
    pub tag: u16,
}

/// What is left of `s` after its first `k` bytes; nothing, if it is shorter.
pub open spec fn tail(s: Seq<u8>, k: nat) -> Seq<u8> {
    if k <= s.len() {
        s.skip(k as int)
    } else {
        Seq::empty()
    }
}

/// Leaving out `a` bytes and then `b` more leaves out `a + b`; the `b` bytes
/// that follow the first `a` are the ones from `a` to `a + b`.
pub proof fn lemma_tail_tail(s: Seq<u8>, a: nat, b: nat)
    requires
        a + b <= s.len(),
    ensures
        tail(tail(s, a), b) == tail(s, a + b),
        tail(s, a).take(b as int) == s.subrange(a as int, a as int + b),
        tail(s, a).len() == s.len() - a,
{
    assert(tail(tail(s, a), b) =~= tail(s, a + b));
    assert(tail(s, a).take(b as int) =~= s.subrange(a as int, a as int + b));
}

/// The header at the front of `s` and the number of bytes it takes, if `s`
/// holds a whole one.
pub open spec fn parse_header(s: Seq<u8>) -> Option<(Header, nat)> {
    if s.len() < 1 {
        None
    } else {
        let wire = Wire::of_class(s[0] as int / 32);
        let low = s[0] as int % 32;
        if low < 30 {
            Some((Header { wire, tag: low as u16 }, 1))
        } else if low == 30 {
            if s.len() < 2 {
                None
            } else {
                Some((Header { wire, tag: s[1] as u16 }, 2))
            }
        } else {
            if s.len() < 3 {
                None
            } else {
                Some((Header { wire, tag: (s[1] as int + 256 * s[2] as int) as u16 }, 3))
            }
        }
    }
}

/// The byte of `s` at position `i`, weighted by its place; 0 past the end.
pub open spec fn digit(s: Seq<u8>, i: int) -> int {
    if 0 <= i < s.len() {
        s[i] as int * radix(i)
    } else {
        0
    }
}

/// The unsigned integer that up to eight bytes spell, least significant
/// first.
#[verifier::opaque]
pub open spec fn le_value(s: Seq<u8>) -> int {
    digit(s, 0) + digit(s, 1) + digit(s, 2) + digit(s, 3) + digit(s, 4) + digit(s, 5) + digit(s, 6)
        + digit(s, 7)
}

/// The signed integer that up to eight bytes spell in two's complement,
/// least significant first.
#[verifier::opaque]
pub open spec fn le_signed(s: Seq<u8>) -> int {
    let u = le_value(s);
    if 2 * u >= radix(s.len() as int) {
        u - radix(s.len() as int)
    } else {
        u
    }
}

/// An unsigned integer is the sum of its bytes, each weighted by its place.
proof fn lemma_digits(v: int)
    requires
        0 <= v < 0x1_0000_0000_0000_0000,
    ensures
        v == le_value(le_bytes(v, 8)),
{
    reveal(le_value);
    let q1 = v / 0x100;
    let q2 = q1 / 0x100;
    let q3 = q2 / 0x100;
    let q4 = q3 / 0x100;
    let q5 = q4 / 0x100;
    let q6 = q5 / 0x100;
    let q7 = q6 / 0x100;
    assert(q1 == v / radix(1));
    assert(q2 == v / radix(2));
    assert(q3 == v / radix(3));
    assert(q4 == v / radix(4));
    assert(q5 == v / radix(5));
    assert(q6 == v / radix(6));
    assert(q7 == v / radix(7));
    assert(q7 < 0x100);
    let s = le_bytes(v, 8);
    assert(s[0] == v % 256);
    assert(s[1] == q1 % 256);
    assert(s[2] == q2 % 256);
    assert(s[3] == q3 % 256);
    assert(s[4] == q4 % 256);
    assert(s[5] == q5 % 256);
    assert(s[6] == q6 % 256);
    assert(s[7] == q7 % 256);
}

/// Up to eight bytes spell an unsigned integer below `256` to the power of
/// their number.
pub proof fn lemma_le_value_bound(s: Seq<u8>)
    requires
        s.len() <= 8,
    ensures
        0 <= le_value(s) < radix(s.len() as int),
{
    reveal(le_value);
}

/// Bytes spell the unsigned integer that they are the bytes of.
pub proof fn lemma_le_value_le_bytes(v: int, n: nat)
    requires
        n <= 8,
        0 <= v < radix(n as int),
    ensures
        le_value(le_bytes(v, n)) == v,
{
    reveal(le_value);
    lemma_digits(v);
    let long = le_bytes(v, 8);
    let short = le_bytes(v, n);
    assert forall|i: int| 0 <= i < 8 implies digit(short, i) == #[trigger] digit(long, i) by {
        if i >= n {
            assert(v / radix(i) == 0);
        }
    }
}

/// Bytes spell the signed integer that they are the bytes of.
pub proof fn lemma_le_signed_le_bytes(v: int, n: nat)
    requires
        1 <= n <= 8,
        -radix(n as int) <= 2 * v < radix(n as int),
    ensures
        le_signed(le_bytes(v, n)) == v,
{
    reveal(le_signed);
    if v >= 0 {
        lemma_le_value_le_bytes(v, n);
    } else {
        crate::ser::pack::lemma_le_bytes_wrap(v, n);
        lemma_le_value_le_bytes(v + radix(n as int), n);
    }
}

/// The width in bytes of the length that a block class, or `QUAD`, puts in
/// front of a block; 0 for the classes that announce no block.
pub open spec fn len_field_width(wire: Wire) -> nat {
    match wire {
        Wire::BLK1 => 1,
        Wire::BLK2 => 2,
        Wire::BLK4 => 4,
        Wire::QUAD => 8,
        _ => 0,
    }
}

/// The block length at the front of `s` under class `wire`. A length that no
/// input on this machine can hold counts as input that is too short.
pub open spec fn block_len(wire: Wire, s: Seq<u8>) -> Result<nat, Error> {
    let w = len_field_width(wire);
    if w == 0 {
        Err(Error::InvalidEncoding)
    } else if s.len() < w {
        Err(Error::InputTooShort)
    } else if le_value(s.take(w as int)) > usize::MAX {
        Err(Error::InputTooShort)
    } else {
        Ok(le_value(s.take(w as int)) as nat)
    }
}

/// The byte string at the front of `s` under class `wire`, and the number of
/// bytes that it takes with its length and its closing zero.
pub open spec fn bytes_field(wire: Wire, s: Seq<u8>) -> Result<(Seq<u8>, nat), Error> {
    let w = len_field_width(wire);
    match block_len(wire, s) {
        Err(e) => Err(e),
        Ok(n) => if n < 1 {
            Err(Error::InvalidEncoding)
        } else if s.len() < w + n {
            Err(Error::InputTooShort)
        } else if s[w + n - 1] != 0 {
            Err(Error::InvalidEncoding)
        } else {
            Ok((s.subrange(w as int, w + n - 1), w + n))
        },
    }
}

/// The number of bytes that the payload of a value of class `wire` takes at
/// the front of `s`.
pub open spec fn payload_len(wire: Wire, s: Seq<u8>) -> Result<nat, Error>
    decreases s.len(), 0nat,
{
    match wire {
        Wire::BLK1 | Wire::BLK2 | Wire::BLK4 => {
            let w = len_field_width(wire);
            match block_len(wire, s) {
                Err(e) => Err(e),
                Ok(n) => if s.len() < w + n {
                    Err(Error::InputTooShort)
                } else {
                    Ok(w + n)
                },
            }
        },
        Wire::REPEAT => {
            if s.len() < 4 {
                Err(Error::InputTooShort)
            } else {
                match items_len(le_value(s.take(4)) as nat, tail(s, 4)) {
                    Err(e) => Err(e),
                    Ok(m) => Ok(4 + m),
                }
            }
        },
        _ => {
            if s.len() < int_width(wire) {
                Err(Error::InputTooShort)
            } else {
                Ok(int_width(wire))
            }
        },
    }
}

/// The number of bytes that `count` values take at the front of `s`, each
/// with its header, whose tag must be 0.
pub open spec fn items_len(count: nat, s: Seq<u8>) -> Result<nat, Error>
    decreases s.len(), 1nat,
{
    if count == 0 {
        Ok(0)
    } else {
        match parse_header(s) {
            None => Err(Error::InputTooShort),
            Some((hdr, hl)) => {
                if hdr.tag != 0 {
                    Err(Error::InvalidEncoding)
                } else {
                    match payload_len(hdr.wire, tail(s, hl)) {
                        Err(e) => Err(e),
                        Ok(m) => match items_len((count - 1) as nat, tail(s, hl + m)) {
                            Err(e) => Err(e),
                            Ok(k) => Ok(hl + m + k),
                        },
                    }
                }
            },
        }
    }
}

/// Where a search for `target` ends that starts with the header `hdr` in
/// hand and `s` behind it: values with lower tags are passed over, and the
/// first header whose tag is at least `target` is handed out with the number
/// of bytes taken from `s`.
pub open spec fn seek_from(hdr: Header, s: Seq<u8>, target: u16) -> Result<(Header, nat), Error>
    decreases s.len(),
{
    if hdr.tag >= target {
        Ok((hdr, 0))
    } else {
        match payload_len(hdr.wire, s) {
            Err(e) => Err(e),
            Ok(n) => match parse_header(tail(s, n)) {
                None => Err(Error::InputTooShort),
                Some((next, hl)) => match seek_from(next, tail(s, n + hl), target) {
                    Err(e) => Err(e),
                    Ok((found, m)) => Ok((found, n + hl + m)),
                },
            },
        }
    }
}

/// A search result, with `by` more bytes counted as taken.
pub open spec fn shifted(found: Result<(Header, nat), Error>, by: int) -> Result<
    (Header, nat),
    Error,
> {
    match found {
        Ok((hdr, m)) => Ok((hdr, (by + m) as nat)),
        Err(e) => Err(e),
    }
}

/// Where a search for `target` ends: it starts with the header read ahead,
/// if there is one, and else with the header at the front of `s`.
pub open spec fn seek(pending: Option<Header>, s: Seq<u8>, target: u16) -> Result<
    (Header, nat),
    Error,
> {
    match pending {
        Some(hdr) => seek_from(hdr, s, target),
        None => match parse_header(s) {
            None => Err(Error::InputTooShort),
            Some((hdr, hl)) => match seek_from(hdr, tail(s, hl), target) {
                Err(e) => Err(e),
                Ok((found, m)) => Ok((found, hl + m)),
            },
        },
    }
}

/// One step of a search: the value under `hdr` is passed over, and the
/// search goes on from the header behind it.
pub proof fn lemma_seek_from_step(hdr: Header, s: Seq<u8>, target: u16)
    requires
        hdr.tag < target,
    ensures
        seek_from(hdr, s, target) == match payload_len(hdr.wire, s) {
            Err(e) => Err::<(Header, nat), Error>(e),
            Ok(n) => match parse_header(tail(s, n)) {
                None => Err(Error::InputTooShort),
                Some((next, hl)) => shifted(
                    seek_from(next, tail(s, n + hl), target),
                    (n + hl) as int,
                ),
            },
        },
{
}

/// A payload never takes more than there is, and never nothing.
pub proof fn lemma_payload_len_bounds(wire: Wire, s: Seq<u8>)
    ensures
        payload_len(wire, s) matches Ok(n) ==> 1 <= n <= s.len(),
    decreases s.len(), 0nat,
{
    if wire == Wire::REPEAT && s.len() >= 4 {
        lemma_items_len_bounds(le_value(s.take(4)) as nat, tail(s, 4));
    }
}

/// A run of values never takes more than there is.
pub proof fn lemma_items_len_bounds(count: nat, s: Seq<u8>)
    ensures
        items_len(count, s) matches Ok(n) ==> n <= s.len(),
    decreases s.len(), 1nat,
{
    if count > 0 {
        if let Some((hdr, hl)) = parse_header(s) {
            lemma_payload_len_bounds(hdr.wire, tail(s, hl));
            if let Ok(m) = payload_len(hdr.wire, tail(s, hl)) {
                lemma_items_len_bounds((count - 1) as nat, tail(s, hl + m));
            }
        }
    }
}

/// Where a reader stands: the bytes not yet taken, and a header that was
/// read ahead and belongs to no value yet.
pub struct Cursor {
    pub rest: Seq<u8>,
    pub pending: Option<Header>,
}

/// The search for a field that must be there: the wire class of the value
/// tagged `tag`, and where the reader then stands.
pub open spec fn find(c: Cursor, tag: u16) -> Result<(Wire, Cursor), Error> {
    match seek(c.pending, c.rest, tag) {
        Ok((hdr, n)) => if hdr.tag == tag {
            Ok((hdr.wire, Cursor { rest: tail(c.rest, n), pending: None }))
        } else {
            Err(Error::InvalidEncoding)
        },
        Err(e) => Err(e),
    }
}

/// The search for a field that may be missing: the wire class of the value
/// tagged `tag`, or `None` where the search ends on a higher tag or at the
/// end of the input, and where the reader then stands.
pub open spec fn find_optional(c: Cursor, tag: u16) -> Result<(Option<Wire>, Cursor), Error> {
    match seek(c.pending, c.rest, tag) {
        Ok((hdr, n)) => Ok(
            (
                if hdr.tag == tag {
                    Some(hdr.wire)
                } else {
                    None
                },
                Cursor { rest: tail(c.rest, n), pending: Some(hdr) },
            ),
        ),
        Err(Error::InputTooShort) => Ok((None, Cursor { rest: Seq::empty(), pending: None })),
        Err(e) => Err(e),
    }
}

/// A cursor over a complete message.
pub struct BinReader<'de> {
    input: &'de [u8],
    pos: usize,
    current_hdr: Option<Header>,
}

impl<'de> BinReader<'de> {
    #[verifier::type_invariant]
    spec fn inv(self) -> bool {
        self.pos <= self.input@.len()
    }

    /// The whole message.
    pub closed spec fn input(&self) -> Seq<u8> {
        self.input@
    }

    /// How many bytes have been taken from the message.
    pub closed spec fn consumed(&self) -> nat {
        self.pos as nat
    }

    /// The bytes not yet taken.
    pub open spec fn rest(&self) -> Seq<u8> {
        tail(self.input(), self.consumed())
    }

    /// A header that was read ahead and belongs to no value yet.
    pub closed spec fn pending(&self) -> Option<Header> {
        self.current_hdr
    }

    /// What a read of `width` bytes does: it takes them, or fails for want
    /// of input and takes none.
    pub open spec fn reads<T>(&self, after: Self, res: Result<T, Error>, width: nat) -> bool {
        &&& after.input() == self.input()
        &&& after.pending() == self.pending()
        &&& self.consumed() <= self.input().len()
        &&& match res {
            Ok(_) => width <= self.rest().len() && self.took(after, width),
            Err(e) => width > self.rest().len() && e == Error::InputTooShort && self.same(after),
        }
    }

    /// `after` stands where this reader stands, over the same message.
    pub open spec fn same(&self, after: Self) -> bool {
        &&& after.input() == self.input()
        &&& after.consumed() == self.consumed()
        &&& self.consumed() <= self.input().len()
        &&& after.rest() == self.rest()
    }

    /// `after` stands `n` bytes further on, over the same message.
    pub open spec fn took(&self, after: Self, n: nat) -> bool {
        &&& after.input() == self.input()
        &&& after.consumed() == self.consumed() + n
        &&& after.consumed() <= self.input().len()
        &&& after.rest() == tail(self.rest(), n)
    }

    /// The header read ahead, and the bytes not yet taken.
    pub open spec fn cursor(&self) -> Cursor {
        Cursor { rest: self.rest(), pending: self.pending() }
    }

    /// What is left after a step of `n` bytes is what was left before,
    /// without its first `n` bytes.
    pub proof fn lemma_took_rest(&self, after: Self, n: nat)
        requires
            after.input() == self.input(),
            after.consumed() == self.consumed() + n,
            after.consumed() <= self.input().len(),
        ensures
            self.took(after, n),
            after.rest() == tail(self.rest(), n),
            n <= self.rest().len(),
            after.rest().len() == self.rest().len() - n,
    {
        assert(after.rest() =~= tail(self.rest(), n));
    }

    /// A reader at the start of `slice`.
    pub fn new(slice: &'de [u8]) -> (r: Self)
        ensures
            r.input() == slice@,
            r.consumed() == 0,
            r.pending() is None,
    {
        Self { input: slice, pos: 0, current_hdr: None }
    }

    /// Whether every byte has been taken.
    pub fn is_empty(&self) -> (b: bool)
        ensures
            b == (self.rest().len() == 0),
            self.consumed() <= self.input().len(),
    {
        proof {
            use_type_invariant(self);
        }
        self.pos == self.input.len()
    }

    /// Whether a header was read ahead and waits for its value.
    pub fn has_pending(&self) -> (b: bool)
        ensures
            b == self.pending() is Some,
    {
        self.current_hdr.is_some()
    }

    /// How many bytes have been taken.
    pub fn get_total_read_len(&self) -> (n: usize)
        ensures
            n == self.consumed(),
            n <= self.input().len(),
    {
        proof {
            use_type_invariant(self);
        }
        self.pos
    }

    /// Takes the next `len` bytes, or fails and takes none.
    pub fn get_slice(&mut self, len: usize) -> (res: Result<&'de [u8], Error>)
        ensures
            final(self).input() == old(self).input(),
            final(self).pending() == old(self).pending(),
            old(self).consumed() <= old(self).input().len(),
            match res {
                Ok(slice) => {
                    &&& len <= old(self).rest().len()
                    &&& slice@ == old(self).rest().take(len as int)
                    &&& old(self).took(*final(self), len as nat)
                },
                Err(e) => {
                    &&& len > old(self).rest().len()
                    &&& e == Error::InputTooShort
                    &&& old(self).same(*final(self))
                },
            },
    {
        proof {
            use_type_invariant(&*self);
        }
        if self.input.len() - self.pos < len {
            Err(Error::InputTooShort)
        } else {
            let slice = slice_subrange(self.input, self.pos, self.pos + len);
            self.pos += len;
            proof {
                assert(slice@ =~= old(self).rest().take(len as int));
                old(self).lemma_took_rest(*self, len as nat);
            }
            Ok(slice)
        }
    }

    /// Puts the cursor back where it stood at `pos`.
    fn rewind(&mut self, pos: usize)
        requires
            pos <= old(self).consumed(),
        ensures
            final(self).input() == old(self).input(),
            final(self).pending() == old(self).pending(),
            final(self).consumed() == pos,
            final(self).rest() == tail(final(self).input(), pos as nat),
    {
        proof {
            use_type_invariant(&*self);
        }
        self.pos = pos;
    }

    /// Reads one byte as an unsigned integer.
    pub fn read_u8(&mut self) -> (res: Result<u8, Error>)
        ensures
            old(self).reads(*final(self), res, 1),
            res matches Ok(v) ==> v == le_value(old(self).rest().take(1)),
    {
        proof {
            reveal(le_value);
            reveal(le_signed);
        }
        match self.get_slice(1) {
            Ok(s) => Ok(s[0]),
            Err(e) => Err(e),
        }
    }

    /// Reads one byte as a signed integer.
    pub fn read_i8(&mut self) -> (res: Result<i8, Error>)
        ensures
            old(self).reads(*final(self), res, 1),
            res matches Ok(v) ==> v == le_signed(old(self).rest().take(1)),
    {
        proof {
            reveal(le_value);
            reveal(le_signed);
        }
        match self.get_slice(1) {
            Ok(s) => {
                let u: u8 = s[0];
                if u < 0x80 {
                    Ok(u as i8)
                } else {
                    Ok((u as i16 - 0x100) as i8)
                }
            },
            Err(e) => Err(e),
        }
    }

    /// Reads two bytes as an unsigned integer, low byte first.
    pub fn read_u16(&mut self) -> (res: Result<u16, Error>)
        ensures
            old(self).reads(*final(self), res, 2),
            res matches Ok(v) ==> v == le_value(old(self).rest().take(2)),
    {
        proof {
            reveal(le_value);
            reveal(le_signed);
        }
        match self.get_slice(2) {
            Ok(s) => Ok(s[0] as u16 + 0x100 * (s[1] as u16)),
            Err(e) => Err(e),
        }
    }

    /// Reads two bytes as a signed integer, low byte first.
    pub fn read_i16(&mut self) -> (res: Result<i16, Error>)
        ensures
            old(self).reads(*final(self), res, 2),
            res matches Ok(v) ==> v == le_signed(old(self).rest().take(2)),
    {
        proof {
            reveal(le_value);
            reveal(le_signed);
        }
        match self.get_slice(2) {
            Ok(s) => {
                let u: u16 = s[0] as u16 + 0x100 * (s[1] as u16);
                if u < 0x8000 {
                    Ok(u as i16)
                } else {
                    Ok((u as i32 - 0x1_0000) as i16)
                }
            },
            Err(e) => Err(e),
        }
    }

    /// Reads four bytes as an unsigned integer, low byte first.
    pub fn read_u32(&mut self) -> (res: Result<u32, Error>)
        ensures
            old(self).reads(*final(self), res, 4),
            res matches Ok(v) ==> v == le_value(old(self).rest().take(4)),
    {
        proof {
            reveal(le_value);
            reveal(le_signed);
        }
        match self.get_slice(4) {
            Ok(s) => Ok(
                s[0] as u32 + 0x100 * (s[1] as u32) + 0x1_0000 * (s[2] as u32) + 0x100_0000 * (
                s[3] as u32),
            ),
            Err(e) => Err(e),
        }
    }

    /// Reads four bytes as a signed integer, low byte first.
    pub fn read_i32(&mut self) -> (res: Result<i32, Error>)
        ensures
            old(self).reads(*final(self), res, 4),
            res matches Ok(v) ==> v == le_signed(old(self).rest().take(4)),
    {
        proof {
            reveal(le_value);
            reveal(le_signed);
        }
        match self.read_u32() {
            Ok(u) => {
                if u < 0x8000_0000 {
                    Ok(u as i32)
                } else {
                    Ok((u as i64 - 0x1_0000_0000) as i32)
                }
            },
            Err(e) => Err(e),
        }
    }

    /// Reads eight bytes as an unsigned integer, low byte first.
    pub fn read_quad(&mut self) -> (res: Result<u64, Error>)
        ensures
            old(self).reads(*final(self), res, 8),
            res matches Ok(v) ==> v == le_value(old(self).rest().take(8)),
    {
        proof {
            reveal(le_value);
            reveal(le_signed);
        }
        match self.get_slice(8) {
            Ok(s) => Ok(
                s[0] as u64 + 0x100 * (s[1] as u64) + 0x1_0000 * (s[2] as u64) + 0x100_0000 * (
                s[3] as u64) + 0x1_0000_0000 * (s[4] as u64) + 0x100_0000_0000 * (s[5] as u64)
                    + 0x1_0000_0000_0000 * (s[6] as u64) + 0x100_0000_0000_0000 * (s[7] as u64),
            ),
            Err(e) => Err(e),
        }
    }

    /// Reads eight bytes as a signed integer, low byte first.
    pub fn read_i64(&mut self) -> (res: Result<i64, Error>)
        ensures
            old(self).reads(*final(self), res, 8),
            res matches Ok(v) ==> v == le_signed(old(self).rest().take(8)),
    {
        proof {
            reveal(le_value);
            reveal(le_signed);
        }
        match self.read_quad() {
            Ok(u) => {
                if u < 0x8000_0000_0000_0000 {
                    Ok(u as i64)
                } else {
                    Ok((u - 0x8000_0000_0000_0000) as i64 + i64::MIN)
                }
            },
            Err(e) => Err(e),
        }
    }

    /// Reads the header of the next value, or fails and takes nothing.
    pub fn read_hdr(&mut self) -> (res: Result<Header, Error>)
        ensures
            final(self).input() == old(self).input(),
            final(self).pending() == old(self).pending(),
            old(self).consumed() <= old(self).input().len(),
            match parse_header(old(self).rest()) {
                Some((hdr, len)) => {
                    &&& res == Ok::<Header, Error>(hdr)
                    &&& 1 <= len <= old(self).rest().len()
                    &&& old(self).took(*final(self), len)
                },
                None => {
                    &&& res == Err::<Header, Error>(Error::InputTooShort)
                    &&& old(self).same(*final(self))
                },
            },
    {
        proof {
            reveal(le_value);
        }
        let start: usize = self.get_total_read_len();
        let first: u8 = match self.get_slice(1) {
            Ok(s) => s[0],
            Err(e) => {
                return Err(e);
            },
        };
        let wire = Wire::from(first);
        let low: u8 = first % 32;
        let tag: u16 = if low < 30 {
            low as u16
        } else if low == 30 {
            match self.read_u8() {
                Ok(b) => b as u16,
                Err(e) => {
                    self.rewind(start);
                    return Err(e);
                },
            }
        } else {
            match self.read_u16() {
                Ok(t) => t,
                Err(e) => {
                    self.rewind(start);
                    return Err(e);
                },
            }
        };
        proof {
            old(self).lemma_took_rest(*self, (self.consumed() - old(self).consumed()) as nat);
        }
        Ok(Header { wire, tag })
    }

    /// Forgets or sets the header read ahead.
    fn set_pending(&mut self, hdr: Option<Header>)
        ensures
            final(self).input() == old(self).input(),
            final(self).consumed() == old(self).consumed(),
            final(self).pending() == hdr,
    {
        proof {
            use_type_invariant(&*self);
        }
        self.current_hdr = hdr;
    }

    /// Takes all that is left.
    fn exhaust(&mut self)
        ensures
            final(self).input() == old(self).input(),
            final(self).pending() == old(self).pending(),
            final(self).consumed() == old(self).input().len(),
    {
        self.pos = self.input.len();
    }

    /// The tag of the next value, whose header is read ahead if none is yet.
    pub fn get_next_tag_value(&mut self) -> (res: Result<u16, Error>)
        ensures
            final(self).input() == old(self).input(),
            match old(self).pending() {
                Some(hdr) => res == Ok::<u16, Error>(hdr.tag) && old(self).same(*final(self)),
                None => match parse_header(old(self).rest()) {
                    Some((hdr, len)) => {
                        &&& res == Ok::<u16, Error>(hdr.tag)
                        &&& old(self).took(*final(self), len)
                        &&& final(self).pending() == Some(hdr)
                    },
                    None => res == Err::<u16, Error>(Error::InputTooShort) && old(self).same(
                        *final(self),
                    ),
                },
            },
    {
        proof {
            use_type_invariant(&*self);
        }
        match self.current_hdr {
            Some(hdr) => Ok(hdr.tag),
            None => match self.read_hdr() {
                Ok(hdr) => {
                    self.set_pending(Some(hdr));
                    Ok(hdr.tag)
                },
                Err(e) => Err(e),
            },
        }
    }

    /// Passes over the payload of a value of class `wire`, or fails and
    /// takes nothing.
    pub fn skip_data(&mut self, wire: Wire) -> (res: Result<(), Error>)
        ensures
            match payload_len(wire, old(self).rest()) {
                Ok(n) => res is Ok && old(self).took(*final(self), n),
                Err(e) => res == Err::<(), Error>(e) && old(self).same(*final(self)),
            },
            final(self).pending() == old(self).pending(),
        decreases old(self).rest().len(),
    {
        proof {
            reveal(le_value);
        }
        let start: usize = self.get_total_read_len();
        proof {
            lemma_payload_len_bounds(wire, self.rest());
        }
        match wire {
            Wire::QUAD => match self.get_slice(8) {
                Ok(_) => Ok(()),
                Err(e) => Err(e),
            },
            Wire::INT1 => match self.get_slice(1) {
                Ok(_) => Ok(()),
                Err(e) => Err(e),
            },
            Wire::INT2 => match self.get_slice(2) {
                Ok(_) => Ok(()),
                Err(e) => Err(e),
            },
            Wire::INT4 => match self.get_slice(4) {
                Ok(_) => Ok(()),
                Err(e) => Err(e),
            },
            Wire::BLK1 | Wire::BLK2 | Wire::BLK4 => {
                let len: usize = match self.read_len(wire) {
                    Ok(len) => len,
                    Err(e) => {
                        return Err(e);
                    },
                };
                match self.get_slice(len) {
                    Ok(_) => {
                        proof {
                            old(self).lemma_took_rest(
                                *self,
                                (self.consumed() - old(self).consumed()) as nat,
                            );
                        }
                        Ok(())
                    },
                    Err(e) => {
                        self.rewind(start);
                        Err(e)
                    },
                }
            },
            Wire::REPEAT => {
                let count: usize = match self.read_repeated_len(wire) {
                    Ok(count) => count,
                    Err(e) => {
                        return Err(e);
                    },
                };
                let ghost items = tail(old(self).rest(), 4);
                proof {
                    old(self).lemma_took_rest(*self, 4);
                }
                let mut done: usize = 0;
                while done < count
                    invariant
                        done <= count,
                        self.input() == old(self).input(),
                        self.pending() == old(self).pending(),
                        start == old(self).consumed(),
                        wire == Wire::REPEAT,
                        old(self).rest().len() >= 4,
                        count == le_value(old(self).rest().take(4)),
                        items == tail(old(self).rest(), 4),
                        start + 4 <= self.consumed() <= self.input().len(),
                        items_len(count as nat, items) == match items_len(
                            (count - done) as nat,
                            self.rest(),
                        ) {
                            Ok(k) => Ok::<nat, Error>((self.consumed() - start - 4 + k) as nat),
                            Err(e) => Err(e),
                        },
                    decreases count - done,
                {
                    let ghost at_item = *self;
                    let hdr = match self.read_hdr() {
                        Ok(hdr) => hdr,
                        Err(e) => {
                            self.rewind(start);
                            return Err(e);
                        },
                    };
                    if hdr.tag != 0 {
                        self.rewind(start);
                        return Err(Error::InvalidEncoding);
                    }
                    let ghost at_payload = *self;
                    proof {
                        at_item.lemma_took_rest(
                            at_payload,
                            (at_payload.consumed() - at_item.consumed()) as nat,
                        );
                        old(self).lemma_took_rest(
                            at_payload,
                            (at_payload.consumed() - start) as nat,
                        );
                    }
                    match self.skip_data(hdr.wire) {
                        Ok(_) => {},
                        Err(e) => {
                            self.rewind(start);
                            return Err(e);
                        },
                    }
                    proof {
                        lemma_payload_len_bounds(hdr.wire, at_payload.rest());
                        at_item.lemma_took_rest(
                            *self,
                            (self.consumed() - at_item.consumed()) as nat,
                        );
                    }
                    done += 1;
                }
                proof {
                    old(self).lemma_took_rest(
                        *self,
                        (self.consumed() - old(self).consumed()) as nat,
                    );
                }
                Ok(())
            },
        }
    }

    /// Reads ahead to the first value whose tag is at least `target_tag`,
    /// passing over those before it, and hands out its header; or fails and
    /// leaves the reader as it was.
    pub fn skip_upto_tag(&mut self, target_tag: u16) -> (res: Result<Header, Error>)
        ensures
            final(self).input() == old(self).input(),
            match seek(old(self).pending(), old(self).rest(), target_tag) {
                Ok((hdr, n)) => {
                    &&& res == Ok::<Header, Error>(hdr)
                    &&& hdr.tag >= target_tag
                    &&& old(self).took(*final(self), n)
                    &&& final(self).pending() is None
                },
                Err(e) => {
                    &&& res == Err::<Header, Error>(e)
                    &&& old(self).same(*final(self))
                    &&& final(self).pending() == old(self).pending()
                },
            },
    {
        proof {
            use_type_invariant(&*self);
        }
        let start: usize = self.get_total_read_len();
        let ahead: Option<Header> = self.current_hdr;
        let mut hdr: Header = match ahead {
            Some(hdr) => {
                self.set_pending(None);
                hdr
            },
            None => match self.read_hdr() {
                Ok(hdr) => hdr,
                Err(e) => {
                    return Err(e);
                },
            },
        };
        proof {
            old(self).lemma_took_rest(*self, (self.consumed() - start) as nat);
        }
        while hdr.tag < target_tag
            invariant
                self.input() == old(self).input(),
                self.pending() is None,
                ahead == old(self).pending(),
                start == old(self).consumed(),
                start <= self.consumed() <= self.input().len(),
                seek(old(self).pending(), old(self).rest(), target_tag) == shifted(
                    seek_from(hdr, self.rest(), target_tag),
                    self.consumed() - start,
                ),
            decreases self.input().len() - self.consumed(),
        {
            let ghost at_payload = *self;
            let ghost passed = hdr;
            proof {
                lemma_seek_from_step(hdr, at_payload.rest(), target_tag);
                lemma_payload_len_bounds(hdr.wire, at_payload.rest());
            }
            match self.skip_data(hdr.wire) {
                Ok(_) => {},
                Err(e) => {
                    self.rewind(start);
                    self.set_pending(ahead);
                    return Err(e);
                },
            }
            let ghost n = (self.consumed() - at_payload.consumed()) as nat;
            let ghost at_header = *self;
            hdr = match self.read_hdr() {
                Ok(hdr) => hdr,
                Err(e) => {
                    self.rewind(start);
                    self.set_pending(ahead);
                    return Err(e);
                },
            };
            proof {
                let hl = (self.consumed() - at_header.consumed()) as nat;
                lemma_tail_tail(at_payload.rest(), n, hl);
                assert(self.rest() == tail(at_payload.rest(), n + hl));
                assert(seek_from(passed, at_payload.rest(), target_tag) == shifted(
                    seek_from(hdr, self.rest(), target_tag),
                    (n + hl) as int,
                ));
            }
        }
        proof {
            old(self).lemma_took_rest(*self, (self.consumed() - old(self).consumed()) as nat);
        }
        Ok(hdr)
    }

    /// Looks for a field that may be missing. The wire class of the value
    /// tagged `target_tag`, if the search ends on it; `None` if it ends on
    /// a higher tag, or if the input ends first, which then counts as read
    /// to its end.
    pub fn get_optional_tag(&mut self, target_tag: u16) -> (res: Result<Option<Wire>, Error>)
        ensures
            final(self).input() == old(self).input(),
            match find_optional(old(self).cursor(), target_tag) {
                Ok((wire, c)) => res == Ok::<Option<Wire>, Error>(wire) && final(self).cursor()
                    == c,
                Err(e) => {
                    &&& res == Err::<Option<Wire>, Error>(e)
                    &&& final(self).cursor() == old(self).cursor()
                },
            },
            final(self).consumed() <= final(self).input().len(),
    {
        let hdr = match self.skip_upto_tag(target_tag) {
            Ok(hdr) => hdr,
            Err(e) => {
                match e {
                    Error::InputTooShort => {
                        self.exhaust();
                        self.set_pending(None);
                        assert(self.rest() =~= Seq::<u8>::empty());
                        return Ok(None);
                    },
                    _ => {
                        return Err(e);
                    },
                }
            },
        };
        self.set_pending(Some(hdr));
        if hdr.tag > target_tag {
            Ok(None)
        } else {
            Ok(Some(hdr.wire))
        }
    }

    /// Looks for a field that must be there. The wire class of the value
    /// tagged `target_tag`; a search that ends on a higher tag is an error,
    /// and every error leaves the reader as it was.
    pub fn get_tag(&mut self, target_tag: u16) -> (res: Result<Wire, Error>)
        ensures
            final(self).input() == old(self).input(),
            match find(old(self).cursor(), target_tag) {
                Ok((wire, c)) => res == Ok::<Wire, Error>(wire) && final(self).cursor() == c,
                Err(e) => {
                    &&& res == Err::<Wire, Error>(e)
                    &&& final(self).cursor() == old(self).cursor()
                },
            },
            final(self).consumed() <= final(self).input().len(),
    {
        proof {
            use_type_invariant(&*self);
        }
        let start: usize = self.get_total_read_len();
        let ahead: Option<Header> = self.current_hdr;
        let hdr = match self.skip_upto_tag(target_tag) {
            Ok(hdr) => hdr,
            Err(e) => {
                return Err(e);
            },
        };
        if hdr.tag > target_tag {
            self.rewind(start);
            self.set_pending(ahead);
            Err(Error::InvalidEncoding)
        } else {
            Ok(hdr.wire)
        }
    }

    /// Reads an integer of class `wire`, sign-extended to 64 bits.
    pub fn read_integer(&mut self, wire: Wire) -> (res: Result<i64, Error>)
        ensures
            final(self).pending() == old(self).pending(),
            match wire {
                Wire::INT1 | Wire::INT2 | Wire::INT4 | Wire::QUAD => {
                    &&& old(self).reads(*final(self), res, int_width(wire))
                    &&& res matches Ok(v) ==> v == le_signed(
                        old(self).rest().take(int_width(wire) as int),
                    )
                },
                _ => res == Err::<i64, Error>(Error::InvalidEncoding) && old(self).same(
                    *final(self),
                ),
            },
    {
        proof {
            use_type_invariant(&*self);
        }
        match wire {
            Wire::INT1 => match self.read_i8() {
                Ok(v) => Ok(v as i64),
                Err(e) => Err(e),
            },
            Wire::INT2 => match self.read_i16() {
                Ok(v) => Ok(v as i64),
                Err(e) => Err(e),
            },
            Wire::INT4 => match self.read_i32() {
                Ok(v) => Ok(v as i64),
                Err(e) => Err(e),
            },
            Wire::QUAD => self.read_i64(),
            _ => Err(Error::InvalidEncoding),
        }
    }

    /// Reads an integer of class `wire` as the 64-bit image of its
    /// sign-extended value.
    pub fn read_u64(&mut self, wire: Wire) -> (res: Result<u64, Error>)
        ensures
            final(self).pending() == old(self).pending(),
            match wire {
                Wire::INT1 | Wire::INT2 | Wire::INT4 | Wire::QUAD => {
                    &&& old(self).reads(*final(self), res, int_width(wire))
                    &&& res matches Ok(v) ==> v == twos64(
                        le_signed(old(self).rest().take(int_width(wire) as int)),
                    )
                },
                _ => res == Err::<u64, Error>(Error::InvalidEncoding) && old(self).same(
                    *final(self),
                ),
            },
    {
        match self.read_integer(wire) {
            Ok(v) => Ok(image64(v)),
            Err(e) => Err(e),
        }
    }

    /// Reads the bit image of a single-precision float: four bytes, and only
    /// under `INT4`.
    pub fn read_f32_bits(&mut self, wire: Wire) -> (res: Result<u32, Error>)
        ensures
            final(self).pending() == old(self).pending(),
            match wire {
                Wire::INT4 => {
                    &&& old(self).reads(*final(self), res, 4)
                    &&& res matches Ok(v) ==> v == le_value(old(self).rest().take(4))
                },
                _ => res == Err::<u32, Error>(Error::InvalidEncoding) && old(self).same(
                    *final(self),
                ),
            },
    {
        proof {
            use_type_invariant(&*self);
        }
        match wire {
            Wire::INT4 => self.read_u32(),
            _ => Err(Error::InvalidEncoding),
        }
    }

    /// Reads the bit image of a double-precision float: eight bytes, and
    /// only under `QUAD`.
    pub fn read_f64_bits(&mut self, wire: Wire) -> (res: Result<u64, Error>)
        ensures
            final(self).pending() == old(self).pending(),
            match wire {
                Wire::QUAD => {
                    &&& old(self).reads(*final(self), res, 8)
                    &&& res matches Ok(v) ==> v == le_value(old(self).rest().take(8))
                },
                _ => res == Err::<u64, Error>(Error::InvalidEncoding) && old(self).same(
                    *final(self),
                ),
            },
    {
        proof {
            use_type_invariant(&*self);
        }
        match wire {
            Wire::QUAD => self.read_quad(),
            _ => Err(Error::InvalidEncoding),
        }
    }

    /// Reads the length of a block of class `wire`, or fails and takes
    /// nothing.
    pub fn read_len(&mut self, wire: Wire) -> (res: Result<usize, Error>)
        ensures
            final(self).pending() == old(self).pending(),
            match block_len(wire, old(self).rest()) {
                Ok(n) => res == Ok::<usize, Error>(n as usize) && old(self).took(
                    *final(self),
                    len_field_width(wire),
                ),
                Err(e) => res == Err::<usize, Error>(e) && old(self).same(*final(self)),
            },
    {
        proof {
            reveal(le_value);
        }
        let start: usize = self.get_total_read_len();
        match wire {
            Wire::BLK1 => match self.read_u8() {
                Ok(v) => Ok(v as usize),
                Err(e) => Err(e),
            },
            Wire::BLK2 => match self.read_u16() {
                Ok(v) => Ok(v as usize),
                Err(e) => Err(e),
            },
            Wire::BLK4 => match self.read_u32() {
                Ok(v) => Ok(v as usize),
                Err(e) => Err(e),
            },
            Wire::QUAD => match self.read_quad() {
                Ok(v) => {
                    if v > usize::MAX as u64 {
                        self.rewind(start);
                        Err(Error::InputTooShort)
                    } else {
                        Ok(v as usize)
                    }
                },
                Err(e) => Err(e),
            },
            _ => Err(Error::InvalidEncoding),
        }
    }

    /// Reads the count of a repeated field: four bytes, and only under
    /// `REPEAT`.
    pub fn read_repeated_len(&mut self, wire: Wire) -> (res: Result<usize, Error>)
        ensures
            final(self).pending() == old(self).pending(),
            match wire {
                Wire::REPEAT => {
                    &&& old(self).reads(*final(self), res, 4)
                    &&& res matches Ok(v) ==> v == le_value(old(self).rest().take(4))
                },
                _ => res == Err::<usize, Error>(Error::InvalidEncoding) && old(self).same(
                    *final(self),
                ),
            },
    {
        proof {
            reveal(le_value);
        }
        proof {
            use_type_invariant(&*self);
        }
        match wire {
            Wire::REPEAT => match self.read_u32() {
                Ok(v) => Ok(v as usize),
                Err(e) => Err(e),
            },
            _ => Err(Error::InvalidEncoding),
        }
    }

    /// Reads a byte string of class `wire` and hands out its bytes, without
    /// the closing zero; or fails and takes nothing.
    pub fn read_bytes(&mut self, wire: Wire) -> (res: Result<&'de [u8], Error>)
        ensures
            final(self).pending() == old(self).pending(),
            match bytes_field(wire, old(self).rest()) {
                Ok((bytes, n)) => {
                    &&& res matches Ok(slice) && slice@ == bytes
                    &&& old(self).took(*final(self), n)
                },
                Err(e) => res == Err::<&[u8], Error>(e) && old(self).same(*final(self)),
            },
    {
        proof {
            reveal(le_value);
        }
        let start: usize = self.get_total_read_len();
        let len: usize = match self.read_len(wire) {
            Ok(len) => len,
            Err(e) => {
                return Err(e);
            },
        };
        if len < 1 {
            self.rewind(start);
            return Err(Error::InvalidEncoding);
        }
        let slice = match self.get_slice(len - 1) {
            Ok(slice) => slice,
            Err(e) => {
                self.rewind(start);
                return Err(e);
            },
        };
        let last: u8 = match self.get_slice(1) {
            Ok(end) => end[0],
            Err(e) => {
                self.rewind(start);
                return Err(e);
            },
        };
        if last != 0 {
            self.rewind(start);
            return Err(Error::InvalidEncoding);
        }
        proof {
            assert(slice@ =~= old(self).rest().subrange(
                len_field_width(wire) as int,
                len_field_width(wire) + len - 1,
            ));
            old(self).lemma_took_rest(*self, (self.consumed() - old(self).consumed()) as nat);
        }
        Ok(slice)
    }
}

} // verus!
