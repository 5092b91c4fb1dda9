//! The primitive packer.
//!
//! Every value is packed as a header and a payload. The three high bits of
//! the header's first byte are the wire class. Then:
//! * if the five low bits are below 30, they are the tag;
//! * if they are 30, the tag is in the next byte;
//! * if they are 31, the tag is in the next two bytes, low byte first.
//!
//! An integer travels in the narrowest of one, two, four or eight bytes,
//! low byte first. A byte string travels as its length plus one, its bytes
//! and a zero byte. A sequence travels as the count of its elements and the
//! elements, each under tag 0. A record or a union travels as the length of
//! its body, in four bytes, and the body.

use crate::wire::Wire;
use vstd::prelude::*;

verus! {

/// `256^i` for the byte positions an eight-byte integer has; 2^64 past them.
pub open spec fn radix(i: int) -> int {
    if i <= 0 {
        1
    } else if i == 1 {
        0x100
    } else if i == 2 {
        0x1_0000
    } else if i == 3 {
        0x100_0000
    } else if i == 4 {
        0x1_0000_0000
    } else if i == 5 {
        0x100_0000_0000
    } else if i == 6 {
        0x1_0000_0000_0000
    } else if i == 7 {
        0x100_0000_0000_0000
    } else {
        0x1_0000_0000_0000_0000
    }
}

/// The `n` low bytes of `v`, least significant first. For a negative `v` this
/// is its two's-complement image, since `/` and `%` round towards minus
/// infinity here.
pub open spec fn le_bytes(v: int, n: nat) -> Seq<u8> {
    Seq::new(n, |i: int| ((v / radix(i)) % 256) as u8)
}

/// How many extra bytes the header of `tag` needs after its first byte.
pub open spec fn tag_width(tag: u16) -> nat {
    if tag <= 29 {
        0
    } else if tag <= 255 {
        1
    } else {
        2
    }
}

/// The header of a value: the wire class in the top three bits of the first
/// byte, and in its low five bits the tag itself (below 30), 30 with the tag
/// in one more byte, or 31 with the tag in two more bytes, low byte first.
pub open spec fn header_bytes(wire: Wire, tag: u16) -> Seq<u8> {
    if tag <= 29 {
        seq![(32 * wire.class() + tag) as u8]
    } else if tag <= 255 {
        seq![(32 * wire.class() + 30) as u8, tag as u8]
    } else {
        seq![(32 * wire.class() + 31) as u8, (tag % 256) as u8, (tag / 256) as u8]
    }
}

/// In bits, the first byte of a header is `(class << 5) | low`, and it is
/// taken apart again by `>> 5` and `& 0x1f`.
pub proof fn lemma_header_bits(class: u8, low: u8)
    requires
        class < 8,
        low < 32,
    ensures
        32 * class + low == ((class << 5) | low) as int,
        ((32 * class + low) as u8) >> 5 == class,
        ((32 * class + low) as u8) & 0x1f == low,
{
    assert(class < 8 && low < 32 ==> 32 * class + low == ((class << 5) | low) as int)
        by (bit_vector);
    let byte: u8 = (32 * class + low) as u8;
    assert(byte >> 5 == byte / 32) by (bit_vector);
    assert(byte & 0x1f == byte % 32) by (bit_vector);
}

/// The zigzag image of a 32-bit integer: 0, -1, 1, -2, ... become 0, 1, 2, 3, ...
pub open spec fn zigzag(v: int) -> int {
    if v >= 0 {
        2 * v
    } else {
        -2 * v - 1
    }
}

/// In bits, the zigzag image of `v` is `(v << 1) ^ (v >> 31)`.
pub proof fn lemma_zigzag_bits(v: i32)
    ensures
        zigzag(v as int) == (((v << 1) ^ (v >> 31)) as u32) as int,
{
    assert(v >= 0 ==> (((v << 1) ^ (v >> 31)) as u32) as int == 2 * (v as int)) by (bit_vector);
    assert(v < 0 ==> (((v << 1) ^ (v >> 31)) as u32) as int == -2 * (v as int) - 1)
        by (bit_vector);
}

/// The number of bytes that hold the zigzag image of `v`, and at least 1.
pub open spec fn required_space(v: int) -> nat {
    let z = zigzag(v);
    if z < 0x100 {
        1
    } else if z < 0x1_0000 {
        2
    } else if z < 0x100_0000 {
        3
    } else {
        4
    }
}

/// The wire class a 32-bit integer travels in: the narrowest that holds it.
pub open spec fn int_wire(v: int) -> Wire {
    if required_space(v) == 1 {
        Wire::INT1
    } else if required_space(v) == 2 {
        Wire::INT2
    } else {
        Wire::INT4
    }
}

/// The payload width in bytes of the integer classes and of `QUAD`.
pub open spec fn int_width(wire: Wire) -> nat {
    match wire {
        Wire::INT1 => 1,
        Wire::INT2 => 2,
        Wire::INT4 => 4,
        Wire::QUAD => 8,
        _ => 0,
    }
}

/// The block class a length of `len` is announced in.
pub open spec fn len_wire(len: int) -> Wire {
    if len <= 0xff {
        Wire::BLK1
    } else if len <= 0xffff {
        Wire::BLK2
    } else {
        Wire::BLK4
    }
}

/// The width in bytes of the length field of the block classes.
pub open spec fn len_width(wire: Wire) -> nat {
    match wire {
        Wire::BLK1 => 1,
        Wire::BLK2 => 2,
        Wire::BLK4 => 4,
        _ => 0,
    }
}

/// A one-byte integer under `tag`.
pub open spec fn byte_image(tag: u16, value: u8) -> Seq<u8> {
    header_bytes(Wire::INT1, tag) + seq![value]
}

/// A 32-bit integer under `tag`, in the narrowest integer class.
pub open spec fn i32_image(tag: u16, value: i32) -> Seq<u8> {
    header_bytes(int_wire(value as int), tag) + le_bytes(
        value as int,
        int_width(int_wire(value as int)),
    )
}

/// Eight bytes under `tag`.
pub open spec fn quad_image(tag: u16, value: u64) -> Seq<u8> {
    header_bytes(Wire::QUAD, tag) + le_bytes(value as int, 8)
}

/// The bit image of a single-precision float under `tag`: always four bytes.
pub open spec fn f32_image(tag: u16, bits: u32) -> Seq<u8> {
    header_bytes(Wire::INT4, tag) + le_bytes(bits as int, 4)
}

/// A 64-bit integer under `tag`: as a 32-bit integer where it is one, else
/// in eight bytes.
pub open spec fn i64_image(tag: u16, value: i64) -> Seq<u8> {
    if i32::MIN <= value <= i32::MAX {
        i32_image(tag, value as i32)
    } else {
        quad_image(tag, twos64(value as int) as u64)
    }
}

/// A block length under `tag`.
pub open spec fn len_image(tag: u16, len: int) -> Seq<u8> {
    header_bytes(len_wire(len), tag) + le_bytes(len, len_width(len_wire(len)))
}

/// A repeat count under `tag`.
pub open spec fn repeated_len_image(tag: u16, len: int) -> Seq<u8> {
    header_bytes(Wire::REPEAT, tag) + le_bytes(len, 4)
}

/// A byte string under `tag`: the length counts the closing zero byte.
pub open spec fn bytes_image(tag: u16, bytes: Seq<u8>) -> Seq<u8> {
    len_image(tag, bytes.len() as int + 1) + bytes + seq![0u8]
}

/// The header of a nested record or union whose body is `len` bytes long:
/// always the four-byte block class, whatever the length.
pub open spec fn len32_image(tag: u16, len: int) -> Seq<u8> {
    header_bytes(Wire::BLK4, tag) + le_bytes(len, 4)
}

/// Counts the bytes that the zigzag image of `value` takes.
pub fn required_space_for_i32(value: i32) -> (cnt: u8)
    ensures
        cnt == required_space(value as int),
{
    let wide: i64 = value as i64;
    let image: i64 = if wide >= 0 {
        2 * wide
    } else {
        2 * (0 - wide) - 1
    };
    let mut rest: i64 = image / 256;
    let mut cnt: u8 = 1;
    while rest != 0
        invariant
            1 <= cnt <= 4,
            0 <= image <= 0xffff_ffff,
            image == zigzag(value as int),
            rest == (image as int) / radix(cnt as int),
            cnt > 1 ==> image >= radix(cnt - 1),
        decreases rest,
    {
        cnt += 1;
        rest = rest / 256;
    }
    cnt
}

/// Grows `out` by `size` zero bytes and hands out the new region.
pub fn get_mut_slice(out: &mut Vec<u8>, size: usize) -> (region: &mut [u8])
    ensures
        region@ == Seq::new(size as nat, |i: int| 0u8),
        final(out)@ == old(out)@ + final(region)@,
{
    let len: usize = out.len();
    let mut added: usize = 0;
    while added < size
        invariant
            added <= size,
            out@ == old(out)@ + Seq::new(added as nat, |i: int| 0u8),
            len == old(out)@.len(),
        decreases size - added,
    {
        out.push(0);
        added += 1;
        assert(out@ == old(out)@ + Seq::new(added as nat, |i: int| 0u8)) by {
            assert(out@ =~= old(out)@ + Seq::new(added as nat, |i: int| 0u8));
        }
    }
    let whole = out.as_mut_slice();
    let (_head, region) = whole.split_at_mut(len);
    assert(region@ =~= Seq::new(size as nat, |i: int| 0u8));
    region
}

/// How many extra bytes the header of `tag` needs after its first byte.
pub fn tag_len(tag: u16) -> (n: usize)
    ensures
        n == tag_width(tag),
        header_bytes(Wire::BLK1, tag).len() == n + 1,
{
    if tag <= 29 {
        0
    } else if tag <= 255 {
        1
    } else {
        2
    }
}

/// Writes the header of (`wiretype`, `tag`) at the front of `out` and hands
/// out what follows it.
pub fn set_tag(wiretype: Wire, tag: u16, out: &mut [u8]) -> (rest: &mut [u8])
    requires
        old(out)@.len() >= tag_width(tag) + 1,
    ensures
        rest@ == old(out)@.skip(tag_width(tag) as int + 1),
        final(out)@ == header_bytes(wiretype, tag) + final(rest)@,
{
    let bits: u8 = wiretype.bits();
    if tag <= 29 {
        out[0] = bits + tag as u8;
        let (head, rest) = out.split_at_mut(1);
        assert(head@ =~= header_bytes(wiretype, tag));
        rest
    } else if tag <= 255 {
        out[0] = bits + 30;
        out[1] = tag as u8;
        let (head, rest) = out.split_at_mut(2);
        assert(head@ =~= header_bytes(wiretype, tag));
        rest
    } else {
        out[0] = bits + 31;
        out[1] = (tag % 256) as u8;
        out[2] = (tag / 256) as u8;
        let (head, rest) = out.split_at_mut(3);
        assert(head@ =~= header_bytes(wiretype, tag));
        rest
    }
}

/// Appends the header of (`wiretype`, `tag`).
pub fn push_tag(wiretype: Wire, tag: u16, out: &mut Vec<u8>)
    ensures
        final(out)@ == old(out)@ + header_bytes(wiretype, tag),
{
    let region = get_mut_slice(out, tag_len(tag) + 1);
    let rest = set_tag(wiretype, tag, region);
    assert(rest@.len() == 0);
}

/// The two's-complement image of a signed integer in 64 bits.
pub open spec fn twos64(v: int) -> int {
    if v >= 0 {
        v
    } else {
        v + 0x1_0000_0000_0000_0000
    }
}

/// Adding a multiple of `256 * d` leaves the byte at position `d` alone.
proof fn lemma_byte_stable(v: int, k: int, d: int)
    requires
        d > 0,
    ensures
        ((v + k * 256 * d) / d) % 256 == (v / d) % 256,
{
    vstd::arithmetic::div_mod::lemma_hoist_over_denominator(v, k * 256, d as nat);
    vstd::arithmetic::div_mod::lemma_mod_multiples_vanish(k, v / d, 256);
    assert(k * 256 * d == (k * 256) * d) by (nonlinear_arith);
}

/// The place values multiply as powers do.
pub proof fn lemma_radix_mul(a: nat, b: nat)
    requires
        a + b <= 8,
    ensures
        radix((a + b) as int) == radix(a as int) * radix(b as int),
    decreases b,
{
    if b > 0 {
        lemma_radix_mul(a, (b - 1) as nat);
        assert(radix((a + b) as int) == 256 * radix(a + b - 1));
        assert(radix(b as int) == 256 * radix(b - 1));
        assert(256 * (radix(a as int) * radix(b - 1)) == radix(a as int) * (256 * radix(b - 1)))
            by (nonlinear_arith);
    }
}

/// Adding `256^n` leaves the `n` low bytes alone.
pub proof fn lemma_le_bytes_wrap(v: int, n: nat)
    requires
        n <= 8,
    ensures
        le_bytes(v + radix(n as int), n) == le_bytes(v, n),
{
    assert forall|i: int| 0 <= i < n implies #[trigger] le_bytes(v + radix(n as int), n)[i]
        == le_bytes(v, n)[i] by {
        let d = radix(i);
        let k = radix(n - i - 1);
        lemma_radix_mul(i as nat, (n - i) as nat);
        assert(radix(n - i) == 256 * k);
        assert(k * 256 * d == d * (256 * k)) by (nonlinear_arith);
        lemma_byte_stable(v, k, d);
    }
    assert(le_bytes(v + radix(n as int), n) =~= le_bytes(v, n));
}

/// The low bytes of an integer and of its two's-complement image agree.
pub proof fn lemma_le_bytes_twos64(v: int, n: nat)
    requires
        n <= 8,
    ensures
        le_bytes(twos64(v), n) == le_bytes(v, n),
{
    if v < 0 {
        assert forall|i: int| 0 <= i < n implies #[trigger] le_bytes(twos64(v), n)[i]
            == le_bytes(v, n)[i] by {
            let d = radix(i);
            let k = 0x100_0000_0000_0000int / d;
            assert(k * 256 * d == 0x1_0000_0000_0000_0000int);
            lemma_byte_stable(v, k, d);
        }
    }
    assert(le_bytes(twos64(v), n) =~= le_bytes(v, n));
}

/// The two's-complement image of `v`.
pub(crate) fn image64(v: i64) -> (u: u64)
    ensures
        u == twos64(v as int),
{
    if v >= 0 {
        v as u64
    } else {
        ((v + 1 + i64::MAX) as u64) + 0x8000_0000_0000_0000u64
    }
}

/// Appends the `width` low bytes of `v`, least significant first.
fn push_le(v: u64, width: usize, out: &mut Vec<u8>)
    requires
        width <= 8,
    ensures
        final(out)@ == old(out)@ + le_bytes(v as int, width as nat),
{
    let mut rest: u64 = v;
    let mut done: usize = 0;
    while done < width
        invariant
            done <= width <= 8,
            rest == (v as int) / radix(done as int),
            out@ == old(out)@ + le_bytes(v as int, done as nat),
        decreases width - done,
    {
        out.push((rest % 256) as u8);
        rest = rest / 256;
        done += 1;
        assert(out@ =~= old(out)@ + le_bytes(v as int, done as nat));
    }
}

/// Appends the `width` low bytes of the two's-complement image of `v`.
fn push_le_signed(v: i64, width: usize, out: &mut Vec<u8>)
    requires
        width <= 8,
    ensures
        final(out)@ == old(out)@ + le_bytes(v as int, width as nat),
{
    proof {
        lemma_le_bytes_twos64(v as int, width as nat);
    }
    push_le(image64(v), width, out);
}

/// Appends a one-byte integer under `tag`.
pub fn push_byte(tag: u16, value: u8, out: &mut Vec<u8>)
    ensures
        final(out)@ == old(out)@ + byte_image(tag, value),
{
    push_tag(Wire::INT1, tag, out);
    out.push(value);
    assert(out@ =~= old(out)@ + byte_image(tag, value));
}

/// Appends a 32-bit integer under `tag`, in the narrowest class that holds it.
pub fn push_i32(tag: u16, value: i32, out: &mut Vec<u8>)
    ensures
        final(out)@ == old(out)@ + i32_image(tag, value),
{
    let space: u8 = required_space_for_i32(value);
    if space == 1 {
        push_tag(Wire::INT1, tag, out);
        push_le_signed(value as i64, 1, out);
    } else if space == 2 {
        push_tag(Wire::INT2, tag, out);
        push_le_signed(value as i64, 2, out);
    } else {
        push_tag(Wire::INT4, tag, out);
        push_le_signed(value as i64, 4, out);
    }
    assert(out@ =~= old(out)@ + i32_image(tag, value));
}

/// Appends eight bytes under `tag`.
pub fn push_quad(tag: u16, value: u64, out: &mut Vec<u8>)
    ensures
        final(out)@ == old(out)@ + quad_image(tag, value),
{
    push_tag(Wire::QUAD, tag, out);
    push_le(value, 8, out);
    assert(out@ =~= old(out)@ + quad_image(tag, value));
}

/// Appends the bit image of a single-precision float under `tag`.
pub fn push_f32_bits(tag: u16, bits: u32, out: &mut Vec<u8>)
    ensures
        final(out)@ == old(out)@ + f32_image(tag, bits),
{
    push_tag(Wire::INT4, tag, out);
    push_le32(bits, out);
    assert(out@ =~= old(out)@ + f32_image(tag, bits));
}

/// Appends the bit image of a double-precision float under `tag`.
pub fn push_f64_bits(tag: u16, bits: u64, out: &mut Vec<u8>)
    ensures
        final(out)@ == old(out)@ + quad_image(tag, bits),
{
    push_quad(tag, bits, out);
}

/// Appends the four bytes of `v`, least significant first.
pub fn push_le32(v: u32, out: &mut Vec<u8>)
    ensures
        final(out)@ == old(out)@ + le_bytes(v as int, 4),
{
    push_le(v as u64, 4, out);
}

/// Appends the count of a repeated field under `tag`.
pub fn push_repeated_len(tag: u16, len: usize, out: &mut Vec<u8>)
    requires
        len <= u32::MAX,
    ensures
        final(out)@ == old(out)@ + repeated_len_image(tag, len as int),
{
    push_tag(Wire::REPEAT, tag, out);
    push_le32(len as u32, out);
    assert(out@ =~= old(out)@ + repeated_len_image(tag, len as int));
}

/// Appends a block length under `tag`, in the narrowest block class.
pub fn push_len(tag: u16, len: usize, out: &mut Vec<u8>)
    requires
        len <= u32::MAX,
    ensures
        final(out)@ == old(out)@ + len_image(tag, len as int),
{
    if len <= 0xff {
        push_tag(Wire::BLK1, tag, out);
        push_le(len as u64, 1, out);
    } else if len <= 0xffff {
        push_tag(Wire::BLK2, tag, out);
        push_le(len as u64, 2, out);
    } else {
        push_tag(Wire::BLK4, tag, out);
        push_le32(len as u32, out);
    }
    assert(out@ =~= old(out)@ + len_image(tag, len as int));
}

/// Appends a byte string under `tag`: its length plus one, the bytes, and a
/// closing zero byte.
pub fn push_bytes(tag: u16, bytes: &[u8], out: &mut Vec<u8>)
    requires
        bytes@.len() < u32::MAX,
    ensures
        final(out)@ == old(out)@ + bytes_image(tag, bytes@),
{
    push_len(tag, bytes.len() + 1, out);
    let ghost start = out@;
    let mut i: usize = 0;
    while i < bytes.len()
        invariant
            i <= bytes@.len(),
            out@ == start + bytes@.take(i as int),
        decreases bytes@.len() - i,
    {
        out.push(bytes[i]);
        i += 1;
        assert(out@ =~= start + bytes@.take(i as int));
    }
    out.push(0);
    assert(bytes@.take(bytes@.len() as int) =~= bytes@);
    assert(out@ =~= old(out)@ + bytes_image(tag, bytes@));
}

/// Fills a reserved slot with the header of a nested record or union under
/// `tag` whose body is `len` bytes long.
pub fn set_len32(tag: u16, len: usize, out: &mut [u8])
    requires
        len <= u32::MAX,
        old(out)@.len() == tag_width(tag) + 5,
    ensures
        final(out)@ == len32_image(tag, len as int),
{
    let rest = set_tag(Wire::BLK4, tag, out);
    let v: u32 = len as u32;
    rest[0] = (v % 256) as u8;
    rest[1] = (v / 0x100 % 256) as u8;
    rest[2] = (v / 0x1_0000 % 256) as u8;
    rest[3] = (v / 0x100_0000 % 256) as u8;
    assert(rest@ =~= le_bytes(len as int, 4));
}

} // verus!
