//! Little-endian integer elements of one, two or four bytes.
use vstd::prelude::*;

verus! {

/// The element widths that the parameter layout uses.
pub open spec fn valid_width(w: nat) -> bool {
    w == 1 || w == 2 || w == 4
}

/// `256` raised to the element width.
pub open spec fn width_modulus(w: nat) -> int {
    if w == 1 {
        256
    } else if w == 2 {
        65536
    } else {
        4294967296
    }
}

/// The unsigned little-endian value of one element's bytes.
pub open spec fn unsigned_le(s: Seq<u8>) -> int {
    if s.len() == 1 {
        s[0] as int
    } else if s.len() == 2 {
        s[0] + 256 * s[1]
    } else {
        s[0] + 256 * s[1] + 65536 * s[2] + 16777216 * s[3]
    }
}

/// The value of one element's bytes: two's complement when `signed`.
pub open spec fn element_value(s: Seq<u8>, signed: bool) -> int {
    let u = unsigned_le(s);
    if signed && u >= width_modulus(s.len()) / 2 {
        u - width_modulus(s.len())
    } else {
        u
    }
}

/// The `w` little-endian bytes of `u`, for `0 <= u < width_modulus(w)`.
pub open spec fn le_bytes(u: int, w: nat) -> Seq<u8> {
    if w == 1 {
        seq![u as u8]
    } else if w == 2 {
        seq![(u % 256) as u8, (u / 256) as u8]
    } else {
        seq![
            (u % 256) as u8,
            ((u / 256) % 256) as u8,
            ((u / 65536) % 256) as u8,
            (u / 16777216) as u8,
        ]
    }
}

/// The bytes stored for the value `v` in an element of width `w`: `v`
/// taken modulo `256^w`, so a value outside the element's range is
/// truncated to its low bytes.
pub open spec fn element_bytes(v: int, w: nat) -> Seq<u8> {
    le_bytes(v % width_modulus(w), w)
}

/// The smallest value an element can hold.
pub open spec fn element_min(w: nat, signed: bool) -> int {
    if signed {
        -(width_modulus(w) / 2)
    } else {
        0
    }
}

/// The largest value an element can hold.
pub open spec fn element_max(w: nat, signed: bool) -> int {
    if signed {
        width_modulus(w) / 2 - 1
    } else {
        width_modulus(w) - 1
    }
}

pub open spec fn element_in_range(v: int, w: nat, signed: bool) -> bool {
    element_min(w, signed) <= v <= element_max(w, signed)
}

/// Reads the element of `elem_bytes` bytes at `offset`.
pub fn read_element(data: &[u8], offset: usize, elem_bytes: usize, signed: bool) -> (r: i64)
    requires
        valid_width(elem_bytes as nat),
        offset + elem_bytes <= data@.len(),
    ensures
        r == element_value(data@.subrange(offset as int, offset + elem_bytes), signed),
{
    let ghost s = data@.subrange(offset as int, offset + elem_bytes);
    let b0 = data[offset] as i64;
    let u: i64 = if elem_bytes == 1 {
        b0
    } else if elem_bytes == 2 {
        b0 + 256 * (data[offset + 1] as i64)
    } else {
        b0 + 256 * (data[offset + 1] as i64) + 65536 * (data[offset + 2] as i64) + 16777216 * (
        data[offset + 3] as i64)
    };
    assert(u == unsigned_le(s));
    let m: i64 = if elem_bytes == 1 {
        256
    } else if elem_bytes == 2 {
        65536
    } else {
        4294967296
    };
    if signed && u >= m / 2 {
        u - m
    } else {
        u
    }
}

/// Appends the element bytes of `val` to `buf`. The value is truncated to
/// the element width; `signed` does not change the bytes.
pub fn write_element(buf: &mut Vec<u8>, val: i64, elem_bytes: usize, signed: bool)
    requires
        valid_width(elem_bytes as nat),
    ensures
        final(buf)@ == old(buf)@ + element_bytes(val as int, elem_bytes as nat),
{
    let m: u64 = if elem_bytes == 1 {
        256
    } else if elem_bytes == 2 {
        65536
    } else {
        4294967296
    };
    let u: u64 = if val >= 0 {
        (val as u64) % m
    } else {
        let w = (-(val + 1)) as u64;
        m - 1 - w % m
    };
    assert(u == (val as int) % width_modulus(elem_bytes as nat)) by (nonlinear_arith)
        requires
            m == width_modulus(elem_bytes as nat),
            m > 0,
            val >= 0 ==> u == (val as int) % (m as int),
            val < 0 ==> u == m - 1 - (-(val + 1)) % (m as int),
    ;
    if elem_bytes == 1 {
        buf.push(u as u8);
    } else if elem_bytes == 2 {
        buf.push((u % 256) as u8);
        buf.push((u / 256) as u8);
    } else {
        buf.push((u % 256) as u8);
        buf.push(((u / 256) % 256) as u8);
        buf.push(((u / 65536) % 256) as u8);
        buf.push((u / 16777216) as u8);
    }
    assert(final(buf)@ =~= old(buf)@ + element_bytes(val as int, elem_bytes as nat));
}

/// Reading back an element gives the value written, for every value that
/// the element's type can hold.
pub proof fn lemma_element_value_of_bytes(v: int, w: nat, signed: bool)
    requires
        valid_width(w),
        element_in_range(v, w, signed),
    ensures
        element_bytes(v, w).len() == w,
        element_value(element_bytes(v, w), signed) == v,
{
    let m = width_modulus(w);
    let u = v % m;
    let s = element_bytes(v, w);
    if w == 1 {
        assert(u == if v >= 0 { v } else { v + 256 }) by (nonlinear_arith)
            requires
                -128 <= v < 256,
                u == v % 256,
        ;
        assert(unsigned_le(s) == u);
    } else if w == 2 {
        assert(u == if v >= 0 { v } else { v + 65536 }) by (nonlinear_arith)
            requires
                -32768 <= v < 65536,
                u == v % 65536,
        ;
        assert(u % 256 + 256 * (u / 256) == u && 0 <= u / 256 < 256) by (nonlinear_arith)
            requires
                0 <= u < 65536,
        ;
        assert(unsigned_le(s) == u);
    } else {
        assert(u == if v >= 0 { v } else { v + 4294967296 }) by (nonlinear_arith)
            requires
                -2147483648 <= v < 4294967296,
                u == v % 4294967296,
        ;
        assert(u % 256 + 256 * ((u / 256) % 256) + 65536 * ((u / 65536) % 256) + 16777216 * (u
            / 16777216) == u && 0 <= u / 16777216 < 256) by (nonlinear_arith)
            requires
                0 <= u < 4294967296,
        ;
        assert(unsigned_le(s) == u);
    }
}

/// Writing back the value read from an element's bytes gives those bytes.
pub proof fn lemma_element_bytes_of_value(s: Seq<u8>, signed: bool)
    requires
        valid_width(s.len()),
    ensures
        element_in_range(element_value(s, signed), s.len(), signed),
        element_bytes(element_value(s, signed), s.len()) =~= s,
{
    let w = s.len();
    let m = width_modulus(w);
    let u = unsigned_le(s);
    let (b0, b1, b2, b3) = (s[0] as int, s[1] as int, s[2] as int, s[3] as int);
    if w == 1 {
        assert(element_value(s, signed) % m == u);
    } else if w == 2 {
        assert(u % 256 == b0 && u / 256 == b1 && 0 <= u < 65536) by (nonlinear_arith)
            requires
                u == b0 + 256 * b1,
                0 <= b0 < 256,
                0 <= b1 < 256,
        ;
        assert(element_value(s, signed) % m == u);
    } else {
        assert(u % 256 == b0 && (u / 256) % 256 == b1 && (u / 65536) % 256 == b2 && u / 16777216
            == b3 && 0 <= u < 4294967296) by (nonlinear_arith)
            requires
                u == b0 + 256 * b1 + 65536 * b2 + 16777216 * b3,
                0 <= b0 < 256,
                0 <= b1 < 256,
                0 <= b2 < 256,
                0 <= b3 < 256,
        ;
        assert(element_value(s, signed) % m == u);
    }
}

/// `offset` rounded up to a multiple of `a`.
pub open spec fn align_up(offset: int, a: int) -> int {
    if offset % a == 0 {
        offset
    } else {
        offset + a - offset % a
    }
}

pub proof fn lemma_align_up(offset: int, a: int)
    requires
        0 <= offset,
        0 < a,
    ensures
        align_up(offset, a) % a == 0,
        offset <= align_up(offset, a) < offset + a,
        align_up(offset, a) == offset <==> offset % a == 0,
{
    assert(align_up(offset, a) % a == 0 && offset <= align_up(offset, a) < offset + a) by (nonlinear_arith)
        requires
            0 <= offset,
            0 < a,
            align_up(offset, a) == if offset % a == 0 { offset } else { offset + a - offset % a },
    {
        assert(0 <= offset % a < a);
        assert(offset == a * (offset / a) + offset % a);
        if offset % a != 0 {
            assert(offset + a - offset % a == a * (offset / a + 1));
            assert((a * (offset / a + 1)) % a == 0);
        }
    }
}

/// Rounds `offset` up to the next multiple of `alignment`.
pub fn align_to(offset: usize, alignment: usize) -> (r: usize)
    requires
        alignment > 0,
        align_up(offset as int, alignment as int) <= usize::MAX,
    ensures
        r == align_up(offset as int, alignment as int),
        r % alignment == 0,
        offset <= r < offset + alignment,
{
    proof {
        lemma_align_up(offset as int, alignment as int);
    }
    let rem = offset % alignment;
    if rem == 0 {
        offset
    } else {
        offset + (alignment - rem)
    }
}

/// Reads the little-endian `u32` at `offset`.
pub fn read_u32_le(data: &[u8], offset: usize) -> (r: u32)
    requires
        offset + 4 <= data@.len(),
    ensures
        r == unsigned_le(data@.subrange(offset as int, offset + 4)),
{
    let ghost s = data@.subrange(offset as int, offset + 4);
    let r = (data[offset] as u32) + 256 * (data[offset + 1] as u32) + 65536 * (data[offset + 2] as u32)
        + 16777216 * (data[offset + 3] as u32);
    assert(r == unsigned_le(s));
    r
}

} // verus!
