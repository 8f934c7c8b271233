//! A compact OpenType/CFF font for the reusable surah-name artwork: the byte writers of its
//! tables and of the sfnt wrapper.
//!
//! CFF keeps the source cubic Béziers. A TrueType `glyf` table would require converting them to
//! quadratics, which would make the generated font an approximation.
use vstd::prelude::*;

verus! {

pub const UNITS_PER_EM: u16 = 5000;

/// A 16-bit value, big-endian.
pub open spec fn u16_be(v: int) -> Seq<u8> {
    seq![((v / 256) % 256) as u8, (v % 256) as u8]
}

/// A 32-bit value, big-endian.
pub open spec fn u32_be(v: int) -> Seq<u8> {
    seq![
        ((v / 0x100_0000) % 256) as u8,
        ((v / 0x1_0000) % 256) as u8,
        ((v / 256) % 256) as u8,
        (v % 256) as u8,
    ]
}

/// A signed 16-bit value, big-endian two's complement.
pub open spec fn i16_be(v: int) -> Seq<u8> {
    u16_be(if v < 0 { v + 0x1_0000 } else { v })
}

/// A signed 32-bit value, big-endian two's complement.
pub open spec fn i32_be(v: int) -> Seq<u8> {
    u32_be(if v < 0 { v + 0x1_0000_0000 } else { v })
}

pub fn be16(out: &mut Vec<u8>, value: u16)
    ensures
        final(out)@ == old(out)@ + u16_be(value as int),
{
    out.push((value / 256) as u8);
    out.push((value % 256) as u8);
    assert(out@ =~= old(out)@ + u16_be(value as int));
}

pub fn bei16(out: &mut Vec<u8>, value: i16)
    ensures
        final(out)@ == old(out)@ + i16_be(value as int),
{
    let u: u16 = if value < 0 {
        (value as i32 + 0x1_0000) as u16
    } else {
        value as u16
    };
    be16(out, u);
}

pub fn be32(out: &mut Vec<u8>, value: u32)
    ensures
        final(out)@ == old(out)@ + u32_be(value as int),
{
    out.push((value / 0x100_0000) as u8);
    out.push(((value / 0x1_0000) % 256) as u8);
    out.push(((value / 256) % 256) as u8);
    out.push((value % 256) as u8);
    assert(out@ =~= old(out)@ + u32_be(value as int));
}

pub fn bei32(out: &mut Vec<u8>, value: i32)
    ensures
        final(out)@ == old(out)@ + i32_be(value as int),
{
    let u: u32 = if value < 0 {
        (value as i64 + 0x1_0000_0000) as u32
    } else {
        value as u32
    };
    be32(out, u);
}

/// The `k`th big-endian 32-bit word of `b`, a short last word padded with zeros.
pub open spec fn word_at(b: Seq<u8>, k: int) -> int {
    let byte = |j: int| if 0 <= j < b.len() { b[j] as int } else { 0 };
    byte(4 * k) * 0x100_0000 + byte(4 * k + 1) * 0x1_0000 + byte(4 * k + 2) * 256 + byte(4 * k + 3)
}

/// The sum of the first `n` words of `b`.
pub open spec fn word_sum(b: Seq<u8>, n: int) -> int
    decreases n,
{
    if n <= 0 {
        0
    } else {
        word_sum(b, n - 1) + word_at(b, n - 1)
    }
}

/// The number of 32-bit words `b` takes, the last one padded.
pub open spec fn n_words(b: Seq<u8>) -> int {
    (b.len() as int + 3) / 4
}

/// The OpenType table checksum: the sum of the big-endian 32-bit words, modulo 2^32.
#[verifier::opaque]
pub open spec fn checksum_of(b: Seq<u8>) -> int {
    word_sum(b, n_words(b)) % 0x1_0000_0000
}

pub fn checksum(bytes: &[u8]) -> (sum: u32)
    ensures
        sum == checksum_of(bytes@),
{
    reveal(checksum_of);
    let n = bytes.len();
    let mut sum: u32 = 0;
    let mut k: usize = 0;
    let ghost words = n_words(bytes@);
    let total: usize = n / 4 + (if n % 4 == 0 { 0 } else { 1 });
    while k < total
        invariant
            n == bytes@.len(),
            words == n_words(bytes@),
            k <= words,
            words == total,
            sum == word_sum(bytes@, k as int) % 0x1_0000_0000,
        decreases words - k,
    {
        let base = 4 * k;
        let b0: u32 = if base < n { bytes[base] as u32 } else { 0 };
        let b1: u32 = if base + 1 < n { bytes[base + 1] as u32 } else { 0 };
        let b2: u32 = if base + 2 < n { bytes[base + 2] as u32 } else { 0 };
        let b3: u32 = if base + 3 < n { bytes[base + 3] as u32 } else { 0 };
        let w: u32 = b0 * 0x100_0000 + b1 * 0x1_0000 + b2 * 256 + b3;
        assert(w == word_at(bytes@, k as int));
        sum = sum.wrapping_add(w);
        proof {
            lemma_wrap_sum(word_sum(bytes@, k as int), w as int);
        }
        k += 1;
    }
    sum
}

proof fn lemma_wrap_sum(a: int, w: int)
    requires
        0 <= w < 0x1_0000_0000,
    ensures
        ((a % 0x1_0000_0000) + w) % 0x1_0000_0000 == (a + w) % 0x1_0000_0000,
{
    vstd::arithmetic::div_mod::lemma_add_mod_noop(a, w, 0x1_0000_0000);
    vstd::arithmetic::div_mod::lemma_mod_twice(w, 0x1_0000_0000);
    vstd::arithmetic::div_mod::lemma_small_mod(w as nat, 0x1_0000_0000);
}


/// The one- and two-byte CFF operand forms, shared by charstrings and DICTs, for the values
/// they cover.
pub open spec fn cff_short(v: int) -> Seq<u8> {
    if -107 <= v <= 107 {
        seq![(v + 139) as u8]
    } else if 108 <= v <= 1131 {
        seq![((v - 108) / 256 + 247) as u8, ((v - 108) % 256) as u8]
    } else {
        seq![((-v - 108) / 256 + 251) as u8, ((-v - 108) % 256) as u8]
    }
}

pub open spec fn is_short(v: int) -> bool {
    -1131 <= v <= 1131
}

/// A Type 2 charstring operand. Outside the 16-bit range it is the 16.16 fixed form of the
/// value shifted left by 16 in 32 bits, which keeps only its low 16 bits.
#[verifier::opaque]
pub open spec fn type2_bytes(v: int) -> Seq<u8> {
    if is_short(v) {
        cff_short(v)
    } else if -32768 <= v <= 32767 {
        seq![28u8] + i16_be(v)
    } else {
        seq![255u8] + u32_be(((if v < 0 { v + 0x1_0000_0000 } else { v }) * 0x1_0000) % 0x1_0000_0000)
    }
}

/// A DICT integer operand.
pub open spec fn dict_int_bytes(v: int) -> Seq<u8> {
    if is_short(v) {
        cff_short(v)
    } else if -32768 <= v <= 32767 {
        seq![28u8] + i16_be(v)
    } else {
        seq![29u8] + i32_be(v)
    }
}

/// A 16-bit big-endian two's complement value read back.
pub open spec fn read_i16(b1: u8, b2: u8) -> int {
    let u = b1 as int * 256 + b2 as int;
    if u >= 0x8000 { u - 0x1_0000 } else { u }
}

/// A 32-bit big-endian two's complement value read back.
pub open spec fn read_i32(b: Seq<u8>) -> int {
    let u = b[0] as int * 0x100_0000 + b[1] as int * 0x1_0000 + b[2] as int * 256 + b[3] as int;
    if u >= 0x8000_0000 { u - 0x1_0000_0000 } else { u }
}

/// How a CFF reader takes an integer operand back: its value and its length in bytes. A 255
/// (Type 2 fixed) operand reads as its 32-bit pattern; its value is that over 65536.
pub open spec fn read_operand(b: Seq<u8>) -> Option<(int, int)> {
    if b.len() == 0 {
        None
    } else {
        let b0 = b[0] as int;
        if 32 <= b0 <= 246 {
            Some((b0 - 139, 1))
        } else if 247 <= b0 <= 250 && b.len() >= 2 {
            Some(((b0 - 247) * 256 + b[1] as int + 108, 2))
        } else if 251 <= b0 <= 254 && b.len() >= 2 {
            Some((-(b0 - 251) * 256 - b[1] as int - 108, 2))
        } else if b0 == 28 && b.len() >= 3 {
            Some((read_i16(b[1], b[2]), 3))
        } else if (b0 == 29 || b0 == 255) && b.len() >= 5 {
            Some((read_i32(b.subrange(1, 5)), 5))
        } else {
            None
        }
    }
}

/// Every DICT integer reads back as itself, whatever follows it.
pub proof fn dict_int_round_trip(v: i32, rest: Seq<u8>)
    ensures
        read_operand(dict_int_bytes(v as int) + rest) == Some(
            (v as int, dict_int_bytes(v as int).len() as int),
        ),
{
    let b = dict_int_bytes(v as int) + rest;
    if is_short(v as int) {
    } else if -32768 <= v <= 32767 {
    } else {
        assert(b.subrange(1, 5) =~= i32_be(v as int));
    }
}

/// A charstring operand in the 16-bit range reads back as itself. Past that range the operand
/// keeps only the low 16 bits of the value (40000 comes back as 40000 - 65536).
pub proof fn type2_round_trip(v: i16, rest: Seq<u8>)
    ensures
        read_operand(type2_bytes(v as int) + rest) == Some(
            (v as int, type2_bytes(v as int).len() as int),
        ),
{
    reveal(type2_bytes);
}

pub fn type2_int(value: i32, out: &mut Vec<u8>)
    ensures
        final(out)@ == old(out)@ + type2_bytes(value as int),
{
    reveal(type2_bytes);
    if -107 <= value && value <= 107 {
        out.push((value + 139) as u8);
    } else if 108 <= value && value <= 1131 {
        let v = value - 108;
        out.push((v / 256 + 247) as u8);
        out.push((v % 256) as u8);
    } else if -1131 <= value && value <= -108 {
        let v = -value - 108;
        out.push((v / 256 + 251) as u8);
        out.push((v % 256) as u8);
    } else if -32768 <= value && value <= 32767 {
        out.push(28);
        bei16(out, value as i16);
    } else {
        out.push(255);
        let bits: u32 = if value < 0 {
            (value as i64 + 0x1_0000_0000) as u32
        } else {
            value as u32
        };
        be32(out, bits.wrapping_mul(0x1_0000));
    }
    assert(out@ =~= old(out)@ + type2_bytes(value as int));
}

pub fn dict_int(value: i32, out: &mut Vec<u8>)
    ensures
        final(out)@ == old(out)@ + dict_int_bytes(value as int),
{
    if -107 <= value && value <= 107 {
        out.push((value + 139) as u8);
    } else if 108 <= value && value <= 1131 {
        let v = value - 108;
        out.push((v / 256 + 247) as u8);
        out.push((v % 256) as u8);
    } else if -1131 <= value && value <= -108 {
        let v = -value - 108;
        out.push((v / 256 + 251) as u8);
        out.push((v % 256) as u8);
    } else if -32768 <= value && value <= 32767 {
        out.push(28);
        bei16(out, value as i16);
    } else {
        out.push(29);
        bei32(out, value);
    }
    assert(out@ =~= old(out)@ + dict_int_bytes(value as int));
}


/// The characters a DICT real may be written with: digits, a point and a minus sign.
pub open spec fn is_real_byte(c: u8) -> bool {
    (0x30 <= c <= 0x39) || c == 0x2e || c == 0x2d
}

/// The nibble a DICT real writes for one of its characters.
pub open spec fn real_nibble(c: u8) -> u8 {
    if 0x30 <= c <= 0x39 {
        (c - 0x30) as u8
    } else if c == 0x2e {
        0x0a
    } else {
        0x0e
    }
}

/// A decimal's nibbles, closed by `f` and padded by another `f` to a whole number of bytes.
pub open spec fn real_nibbles(s: Seq<u8>) -> Seq<u8> {
    let n = s.map_values(|c: u8| real_nibble(c)).push(0x0f);
    if n.len() % 2 != 0 {
        n.push(0x0f)
    } else {
        n
    }
}

/// Nibbles packed two to a byte, high nibble first.
pub open spec fn packed(n: Seq<u8>) -> Seq<u8> {
    Seq::new(n.len() / 2, |k: int| (n[2 * k] * 16 + n[2 * k + 1]) as u8)
}

/// A DICT real operand: 30, then the packed nibbles.
pub open spec fn dict_real_bytes(s: Seq<u8>) -> Seq<u8> {
    seq![30u8] + packed(real_nibbles(s))
}

pub fn dict_real(value: &[u8], out: &mut Vec<u8>)
    requires
        forall|j: int| 0 <= j < value@.len() ==> is_real_byte(#[trigger] value@[j]),
    ensures
        final(out)@ == old(out)@ + dict_real_bytes(value@),
{
    let mut nibbles: Vec<u8> = Vec::new();
    let mut i: usize = 0;
    while i < value.len()
        invariant
            i <= value@.len(),
            forall|j: int| 0 <= j < value@.len() ==> is_real_byte(#[trigger] value@[j]),
            nibbles@ =~= value@.take(i as int).map_values(|c: u8| real_nibble(c)),
            forall|j: int| 0 <= j < nibbles@.len() ==> #[trigger] nibbles@[j] <= 15,
        decreases value@.len() - i,
    {
        let byte = value[i];
        let nib: u8 = if 0x30 <= byte && byte <= 0x39 {
            byte - 0x30
        } else if byte == 0x2e {
            0x0a
        } else {
            0x0e
        };
        nibbles.push(nib);
        i += 1;
        assert(value@.take(i as int).map_values(|c: u8| real_nibble(c)) =~= value@.take(
            i - 1,
        ).map_values(|c: u8| real_nibble(c)).push(real_nibble(byte)));
    }
    assert(value@.take(i as int) =~= value@);
    nibbles.push(0x0f);
    if nibbles.len() % 2 != 0 {
        nibbles.push(0x0f);
    }
    assert(nibbles@ =~= real_nibbles(value@));
    let ghost start = out@;
    out.push(30);
    let mut k: usize = 0;
    while k < nibbles.len() / 2
        invariant
            nibbles@ == real_nibbles(value@),
            nibbles@.len() % 2 == 0,
            forall|j: int| 0 <= j < nibbles@.len() ==> #[trigger] nibbles@[j] <= 15,
            k <= nibbles@.len() / 2,
            out@ =~= start + seq![30u8] + packed(nibbles@).take(k as int),
        decreases nibbles@.len() / 2 - k,
    {
        let hi = nibbles[2 * k];
        let lo = nibbles[2 * k + 1];
        out.push(hi * 16 + lo);
        k += 1;
        assert(packed(nibbles@).take(k as int) =~= packed(nibbles@).take(k - 1).push(
            (hi * 16 + lo) as u8,
        ));
    }
    assert(packed(nibbles@).take(k as int) =~= packed(nibbles@));
}

/// `v` written in `size` big-endian bytes, higher bytes cut off.
pub open spec fn be_bytes(v: int, size: int) -> Seq<u8> {
    Seq::new(size as nat, |t: int| ((v / pow256(size - 1 - t)) % 256) as u8)
}

pub open spec fn pow256(e: int) -> int
    decreases e,
{
    if e <= 0 {
        1
    } else {
        256 * pow256(e - 1)
    }
}

/// The total length of the items.
pub open spec fn total_len(items: Seq<Seq<u8>>) -> int
    decreases items.len(),
{
    if items.len() == 0 {
        0
    } else {
        total_len(items.drop_last()) + items.last().len()
    }
}

/// The smallest offset size that holds every offset of a CFF INDEX of `total` data bytes.
pub open spec fn off_size_for(total: int) -> int {
    if total <= 0xff {
        1
    } else if total <= 0xffff {
        2
    } else if total <= 0xff_ffff {
        3
    } else {
        4
    }
}

/// The offsets of a CFF INDEX: one before each item and one past the last, counted from 1.
pub open spec fn index_offsets(items: Seq<Seq<u8>>, size: int) -> Seq<u8>
    decreases items.len(),
{
    if items.len() == 0 {
        be_bytes(1, size)
    } else {
        index_offsets(items.drop_last(), size) + be_bytes(1 + total_len(items), size)
    }
}

/// A CFF INDEX: the count, then (when there are items) the offset size, the offsets and the data.
pub open spec fn index_bytes(items: Seq<Seq<u8>>) -> Seq<u8> {
    let count = u16_be(items.len() as int % 0x1_0000);
    if items.len() == 0 {
        count
    } else {
        let size = off_size_for(1 + total_len(items));
        count + seq![size as u8] + index_offsets(items, size) + items.flatten_alt()
    }
}


pub open spec fn byte_items(items: Seq<Vec<u8>>) -> Seq<Seq<u8>> {
    items.map_values(|v: Vec<u8>| v@)
}

fn push_be(out: &mut Vec<u8>, v: u128, size: usize)
    requires
        1 <= size <= 4,
    ensures
        final(out)@ == old(out)@ + be_bytes(v as int, size as int),
{
    reveal_with_fuel(pow256, 4);
    if size >= 4 {
        out.push(((v / 0x100_0000) % 256) as u8);
    }
    if size >= 3 {
        out.push(((v / 0x1_0000) % 256) as u8);
    }
    if size >= 2 {
        out.push(((v / 256) % 256) as u8);
    }
    out.push((v % 256) as u8);
    assert(out@ =~= old(out)@ + be_bytes(v as int, size as int));
}

/// Adding the data of one more item.
proof fn lemma_total_take(items: Seq<Seq<u8>>, k: int)
    requires
        0 <= k < items.len(),
    ensures
        total_len(items.take(k + 1)) == total_len(items.take(k)) + items[k].len(),
{
    assert(items.take(k + 1).drop_last() =~= items.take(k));
}

proof fn lemma_total_nonneg(items: Seq<Seq<u8>>)
    ensures
        total_len(items) >= 0,
    decreases items.len(),
{
    if items.len() > 0 {
        lemma_total_nonneg(items.drop_last());
    }
}

/// A CFF INDEX of the items.
pub fn index(items: &[Vec<u8>]) -> (r: Result<Vec<u8>, String>)
    ensures
        r matches Ok(v) && v@ == index_bytes(byte_items(items@)),
{
    let ghost its = byte_items(items@);
    let mut out: Vec<u8> = Vec::new();
    be16(&mut out, (items.len() % 0x1_0000) as u16);
    if items.len() == 0 {
        return Ok(out);
    }
    let mut total: u128 = 1;
    let mut i: usize = 0;
    while i < items.len()
        invariant
            its == byte_items(items@),
            i <= items@.len(),
            total == 1 + total_len(its.take(i as int)),
            total <= 1 + i * 0x1_0000_0000_0000_0000,
        decreases items@.len() - i,
    {
        proof {
            lemma_total_take(its, i as int);
        }
        total = total + items[i].len() as u128;
        i += 1;
    }
    assert(its.take(i as int) =~= its);
    let off_size: usize = if total <= 0xff {
        1
    } else if total <= 0xffff {
        2
    } else if total <= 0xff_ffff {
        3
    } else {
        4
    };
    out.push(off_size as u8);
    let ghost head = out@;
    let mut offset: u128 = 1;
    let mut k: usize = 0;
    assert(its.take(0) =~= Seq::<Seq<u8>>::empty());
    push_be(&mut out, offset, off_size);
    while k < items.len()
        invariant
            its == byte_items(items@),
            total == 1 + total_len(its),
            total <= 1 + items@.len() * 0x1_0000_0000_0000_0000,
            1 <= off_size <= 4,
            k <= items@.len(),
            offset == 1 + total_len(its.take(k as int)),
            out@ == head + index_offsets(its.take(k as int), off_size as int),
        decreases items@.len() - k,
    {
        proof {
            lemma_total_take(its, k as int);
            lemma_total_nonneg(its.skip(k + 1));
            lemma_total_split(its, k + 1);
            assert(its.take(k + 1).drop_last() =~= its.take(k as int));
        }
        offset = offset + items[k].len() as u128;
        push_be(&mut out, offset, off_size);
        k += 1;
    }
    assert(its.take(k as int) =~= its);
    let ghost mid = out@;
    let mut j: usize = 0;
    while j < items.len()
        invariant
            its == byte_items(items@),
            j <= items@.len(),
            out@ == mid + its.take(j as int).flatten_alt(),
        decreases items@.len() - j,
    {
        let ghost before = out@;
        let mut t: usize = 0;
        while t < items[j].len()
            invariant
                j < items@.len(),
                t <= items@[j as int]@.len(),
                out@ == before + items@[j as int]@.take(t as int),
            decreases items@[j as int]@.len() - t,
        {
            out.push(items[j][t]);
            t += 1;
            assert(items@[j as int]@.take(t as int) =~= items@[j as int]@.take(t - 1).push(
                items@[j as int]@[t - 1],
            ));
        }
        assert(items@[j as int]@.take(t as int) =~= items@[j as int]@);
        assert(its.take(j + 1).drop_last() =~= its.take(j as int));
        assert(its.take(j + 1).last() == items@[j as int]@);
        j += 1;
    }
    assert(its.take(j as int) =~= its);
    Ok(out)
}

/// The data of all the items is the data of the first `k` and of the rest.
proof fn lemma_total_split(items: Seq<Seq<u8>>, k: int)
    requires
        0 <= k <= items.len(),
    ensures
        total_len(items) == total_len(items.take(k)) + total_len(items.skip(k)),
    decreases items.len(),
{
    if k == items.len() {
        assert(items.take(k) =~= items);
        assert(items.skip(k) =~= Seq::<Seq<u8>>::empty());
    } else {
        lemma_total_split(items.drop_last(), k);
        assert(items.drop_last().take(k) =~= items.take(k));
        assert(items.skip(k).drop_last() =~= items.drop_last().skip(k));
        assert(items.skip(k).last() == items.last());
    }
}


/// The cmap table: one Windows Unicode BMP subtable (format 4) mapping U+E001..U+E072 to
/// glyphs 1..114.
pub open spec fn cmap_bytes() -> Seq<u8> {
    u16_be(0) + u16_be(1) + u16_be(3) + u16_be(1) + u32_be(12) + u16_be(4) + u16_be(32) + u16_be(0) + u16_be(4) + u16_be(4) + u16_be(1) + u16_be(0) + u16_be(0xe072) + u16_be(0xffff) + u16_be(0) + u16_be(0xe001) + u16_be(0xffff) + u16_be(0x2000) + u16_be(1) + u16_be(0) + u16_be(0)
}

pub fn cmap() -> (out: Vec<u8>)
    ensures
        out@ == cmap_bytes(),
{
    let mut sub: Vec<u8> = Vec::new();
    be16(&mut sub, 4); // format
    be16(&mut sub, 32); // length
    be16(&mut sub, 0); // language
    be16(&mut sub, 4); // segCountX2: PUA range + sentinel
    be16(&mut sub, 4); // searchRange
    be16(&mut sub, 1); // entrySelector
    be16(&mut sub, 0); // rangeShift
    be16(&mut sub, 0xe072); // end PUA
    be16(&mut sub, 0xffff);
    be16(&mut sub, 0); // reservedPad
    be16(&mut sub, 0xe001); // start PUA
    be16(&mut sub, 0xffff);
    be16(&mut sub, 1u16.wrapping_sub(0xe001)); // glyph 1 at E001
    be16(&mut sub, 1); // sentinel maps to glyph 0
    be16(&mut sub, 0); // idRangeOffset
    be16(&mut sub, 0);
    let mut out: Vec<u8> = Vec::new();
    be16(&mut out, 0);
    be16(&mut out, 1);
    be16(&mut out, 3); // Windows
    be16(&mut out, 1); // Unicode BMP
    be32(&mut out, 12);
    let ghost h = out@;
    append_bytes(&mut out, &sub);
    assert(out@ =~= cmap_bytes());
    out
}

/// Append every byte of `src`.
pub fn append_bytes(out: &mut Vec<u8>, src: &[u8])
    ensures
        final(out)@ == old(out)@ + src@,
{
    let mut t: usize = 0;
    while t < src.len()
        invariant
            t <= src@.len(),
            out@ == old(out)@ + src@.take(t as int),
        decreases src@.len() - t,
    {
        out.push(src[t]);
        t += 1;
        assert(src@.take(t as int) =~= src@.take(t - 1).push(src@[t - 1]));
    }
    assert(src@.take(t as int) =~= src@);
}

/// The head table, its checksum adjustment left zero for the sfnt writer to fill.
pub open spec fn head_bytes(x_max: int, y_max: int) -> Seq<u8> {
    u32_be(0x0001_0000) + u32_be(0x0001_0000) + u32_be(0) + u32_be(0x5f0f_3cf5) + u16_be(3)
        + u16_be(5000) + Seq::new(16, |i: int| 0u8) + i16_be(0) + i16_be(0) + i16_be(x_max)
        + i16_be(y_max) + u16_be(0) + u16_be(8) + i16_be(2) + i16_be(0) + i16_be(0)
}

pub fn head(x_max: i16, y_max: i16) -> (out: Vec<u8>)
    ensures
        out@ == head_bytes(x_max as int, y_max as int),
{
    let mut out: Vec<u8> = Vec::new();
    be32(&mut out, 0x0001_0000);
    be32(&mut out, 0x0001_0000);
    be32(&mut out, 0); // checksumAdjustment, patched in sfnt
    be32(&mut out, 0x5f0f_3cf5);
    be16(&mut out, 3);
    be16(&mut out, UNITS_PER_EM);
    let ghost before = out@;
    let mut z: usize = 0;
    while z < 16
        invariant
            z <= 16,
            out@ =~= before + Seq::new(z as nat, |i: int| 0u8),
        decreases 16 - z,
    {
        out.push(0);
        z += 1;
    }
    bei16(&mut out, 0);
    bei16(&mut out, 0);
    bei16(&mut out, x_max);
    bei16(&mut out, y_max);
    be16(&mut out, 0);
    be16(&mut out, 8);
    bei16(&mut out, 2);
    bei16(&mut out, 0);
    bei16(&mut out, 0);
    assert(out@ =~= head_bytes(x_max as int, y_max as int));
    out
}

/// The largest advance, or 0 for none.
pub open spec fn max_of(a: Seq<u16>) -> int
    decreases a.len(),
{
    if a.len() == 0 {
        0
    } else {
        let m = max_of(a.drop_last());
        if a.last() as int > m {
            a.last() as int
        } else {
            m
        }
    }
}

/// The sum of the advances.
pub open spec fn sum_of(a: Seq<u16>) -> int
    decreases a.len(),
{
    if a.len() == 0 {
        0
    } else {
        sum_of(a.drop_last()) + a.last() as int
    }
}

pub open spec fn hhea_bytes(advances: Seq<u16>, x_max: int, y_max: int) -> Seq<u8> {
    u32_be(0x0001_0000) + i16_be(y_max) + i16_be(0) + i16_be(0) + u16_be(max_of(advances))
        + i16_be(0) + i16_be(0) + i16_be(x_max) + i16_be(1) + i16_be(0) + i16_be(0) + i16_be(0)
        + i16_be(0) + i16_be(0) + i16_be(0) + i16_be(0) + u16_be(advances.len() as int % 0x1_0000)
}

fn max_advance(advances: &[u16]) -> (m: u16)
    ensures
        m == max_of(advances@),
{
    let mut m: u16 = 0;
    let mut i: usize = 0;
    while i < advances.len()
        invariant
            i <= advances@.len(),
            m == max_of(advances@.take(i as int)),
        decreases advances@.len() - i,
    {
        assert(advances@.take(i + 1).drop_last() =~= advances@.take(i as int));
        if advances[i] > m {
            m = advances[i];
        }
        i += 1;
    }
    assert(advances@.take(i as int) =~= advances@);
    m
}

pub fn hhea(advances: &[u16], x_max: i16, y_max: i16) -> (out: Vec<u8>)
    ensures
        out@ == hhea_bytes(advances@, x_max as int, y_max as int),
{
    let mut out: Vec<u8> = Vec::new();
    be32(&mut out, 0x0001_0000);
    bei16(&mut out, y_max);
    bei16(&mut out, 0);
    bei16(&mut out, 0);
    be16(&mut out, max_advance(advances));
    bei16(&mut out, 0);
    bei16(&mut out, 0);
    bei16(&mut out, x_max);
    bei16(&mut out, 1);
    bei16(&mut out, 0);
    bei16(&mut out, 0);
    bei16(&mut out, 0);
    bei16(&mut out, 0);
    bei16(&mut out, 0);
    bei16(&mut out, 0);
    bei16(&mut out, 0);
    be16(&mut out, (advances.len() % 0x1_0000) as u16);
    assert(out@ =~= hhea_bytes(advances@, x_max as int, y_max as int));
    out
}

/// One (advance, left side bearing 0) pair per glyph.
pub open spec fn hmtx_bytes(advances: Seq<u16>) -> Seq<u8>
    decreases advances.len(),
{
    if advances.len() == 0 {
        Seq::empty()
    } else {
        hmtx_bytes(advances.drop_last()) + u16_be(advances.last() as int) + i16_be(0)
    }
}

pub fn hmtx(advances: &[u16]) -> (out: Vec<u8>)
    ensures
        out@ == hmtx_bytes(advances@),
{
    let mut out: Vec<u8> = Vec::new();
    let mut i: usize = 0;
    while i < advances.len()
        invariant
            i <= advances@.len(),
            out@ == hmtx_bytes(advances@.take(i as int)),
        decreases advances@.len() - i,
    {
        assert(advances@.take(i + 1).drop_last() =~= advances@.take(i as int));
        be16(&mut out, advances[i]);
        bei16(&mut out, 0);
        i += 1;
    }
    assert(advances@.take(i as int) =~= advances@);
    out
}

pub open spec fn maxp_bytes(glyphs: int) -> Seq<u8> {
    u32_be(0x0000_5000) + u16_be(glyphs)
}

pub fn maxp(glyphs: u16) -> (out: Vec<u8>)
    ensures
        out@ == maxp_bytes(glyphs as int),
{
    let mut out: Vec<u8> = Vec::new();
    be32(&mut out, 0x0000_5000);
    be16(&mut out, glyphs);
    out
}

pub open spec fn post_bytes() -> Seq<u8> {
    u32_be(0x0003_0000) + u32_be(0) + i16_be(0) + i16_be(0) + u32_be(0) + u32_be(0) + u32_be(0)
        + u32_be(0) + u32_be(0)
}

pub fn post() -> (out: Vec<u8>)
    ensures
        out@ == post_bytes(),
{
    let mut out: Vec<u8> = Vec::new();
    be32(&mut out, 0x0003_0000);
    be32(&mut out, 0);
    bei16(&mut out, 0);
    bei16(&mut out, 0);
    be32(&mut out, 0);
    be32(&mut out, 0);
    be32(&mut out, 0);
    be32(&mut out, 0);
    be32(&mut out, 0);
    assert(out@ =~= post_bytes());
    out
}


pub open spec fn min_int(a: int, b: int) -> int {
    if a < b { a } else { b }
}

pub open spec fn os2_bytes(advances: Seq<u16>, y_max: int) -> Seq<u8> {
    let average = sum_of(advances) / (advances.len() as int);
    let y = min_int(y_max, 32767);
    u16_be(4) + i16_be(min_int(average, 32767)) + u16_be(400) + u16_be(5) + u16_be(0) + Seq::new(
        20,
        |i: int| 0u8,
    ) + i16_be(0) + Seq::new(10, |i: int| 0u8) + u32_be(0) + u32_be(0x1000_0000) + u32_be(0)
        + u32_be(0) + seq![0x51u8, 0x57u8, 0x53u8, 0x20u8] + u16_be(0x0040) + u16_be(0xe001) + u16_be(
        0xe072,
    ) + i16_be(y) + i16_be(0) + i16_be(0) + u16_be(y_max) + u16_be(0) + u32_be(0) + u32_be(0)
        + i16_be(0) + i16_be(y) + u16_be(0) + u16_be(0x0020) + u16_be(1)
}

fn push_zeros(out: &mut Vec<u8>, n: usize)
    ensures
        final(out)@ == old(out)@ + Seq::new(n as nat, |i: int| 0u8),
{
    let mut z: usize = 0;
    while z < n
        invariant
            z <= n,
            out@ =~= old(out)@ + Seq::new(z as nat, |i: int| 0u8),
        decreases n - z,
    {
        out.push(0);
        z += 1;
    }
}

#[verifier::rlimit(40)]
pub fn os2(advances: &[u16], y_max: u16) -> (out: Vec<u8>)
    requires
        1 <= advances@.len() <= u32::MAX,
        sum_of(advances@) <= u32::MAX,
    ensures
        out@ == os2_bytes(advances@, y_max as int),
{
    let mut total: u32 = 0;
    let mut i: usize = 0;
    while i < advances.len()
        invariant
            i <= advances@.len(),
            sum_of(advances@) <= u32::MAX,
            total == sum_of(advances@.take(i as int)),
        decreases advances@.len() - i,
    {
        assert(advances@.take(i + 1).drop_last() =~= advances@.take(i as int));
        proof {
            lemma_sum_prefix(advances@, i + 1);
        }
        total = total + advances[i] as u32;
        i += 1;
    }
    assert(advances@.take(i as int) =~= advances@);
    let count = advances.len() as u32;
    let average = total / count;
    assert(average as int == sum_of(advances@) / (advances@.len() as int));
    let y: i16 = if y_max < 32767 { y_max as i16 } else { 32767 };
    let avg: i16 = if average < 32767 { average as i16 } else { 32767 };
    assert(avg as int == min_int(sum_of(advances@) / (advances@.len() as int), 32767));
    assert(y as int == min_int(y_max as int, 32767));
    let mut out: Vec<u8> = Vec::new();
    be16(&mut out, 4);
    bei16(&mut out, avg);
    be16(&mut out, 400);
    be16(&mut out, 5);
    be16(&mut out, 0);
    push_zeros(&mut out, 20);
    bei16(&mut out, 0);
    push_zeros(&mut out, 10);
    be32(&mut out, 0);
    be32(&mut out, 0x1000_0000); // Unicode range bit 60: BMP Private Use Area
    be32(&mut out, 0);
    be32(&mut out, 0);
    out.push(0x51);
    out.push(0x57);
    out.push(0x53);
    out.push(0x20);
    be16(&mut out, 0x0040); // regular
    be16(&mut out, 0xe001);
    be16(&mut out, 0xe072);
    bei16(&mut out, y);
    bei16(&mut out, 0);
    bei16(&mut out, 0);
    be16(&mut out, y_max);
    be16(&mut out, 0);
    be32(&mut out, 0);
    be32(&mut out, 0);
    bei16(&mut out, 0);
    bei16(&mut out, y);
    be16(&mut out, 0);
    be16(&mut out, 0x0020);
    be16(&mut out, 1);
    assert(out@ =~= os2_bytes(advances@, y_max as int));
    out
}

proof fn lemma_sum_prefix(a: Seq<u16>, k: int)
    requires
        0 <= k <= a.len(),
    ensures
        sum_of(a.take(k)) <= sum_of(a),
    decreases a.len() - k,
{
    if k < a.len() {
        lemma_sum_prefix(a, k + 1);
        assert(a.take(k + 1).drop_last() =~= a.take(k));
    } else {
        assert(a.take(k) =~= a);
    }
}

/// A string's UTF-16 code units, big-endian; every character of it is in the BMP.
pub open spec fn utf16_be(s: Seq<char>) -> Seq<u8>
    decreases s.len(),
{
    if s.len() == 0 {
        Seq::empty()
    } else {
        utf16_be(s.drop_last()) + u16_be((s.last() as u32) as int)
    }
}

fn push_utf16(out: &mut Vec<u8>, s: &str)
    requires
        forall|j: int| 0 <= j < s@.len() ==> (#[trigger] s@[j] as u32) < 0x1_0000,
    ensures
        final(out)@ == old(out)@ + utf16_be(s@),
{
    let v = crate::strings::chars_of(s);
    let mut i: usize = 0;
    while i < v.len()
        invariant
            v@ == s@,
            forall|j: int| 0 <= j < s@.len() ==> (#[trigger] s@[j] as u32) < 0x1_0000,
            i <= v@.len(),
            out@ == old(out)@ + utf16_be(v@.take(i as int)),
        decreases v@.len() - i,
    {
        assert(v@.take(i + 1).drop_last() =~= v@.take(i as int));
        let c = v[i];
        let code: u32 = c as u32;
        assert(code < 0x1_0000);
        let unit: u16 = code as u16;
        assert(unit as int == code as int);
        be16(out, unit);
        i += 1;
        assert(utf16_be(v@.take(i as int)) =~= utf16_be(v@.take(i - 1)) + u16_be(code as int));
    }
    assert(v@.take(i as int) =~= v@);
}

pub open spec fn name_record(id: int, len: int, offset: int) -> Seq<u8> {
    u16_be(3) + u16_be(1) + u16_be(0x0409) + u16_be(id) + u16_be(len) + u16_be(offset)
}

/// The name table: family, subfamily, full name, version and PostScript name, for Windows
/// Unicode English, in UTF-16.
pub open spec fn name_bytes() -> Seq<u8> {
    let f = utf16_be("Quran Surah Names"@);
    let g = utf16_be("Regular"@);
    let v = utf16_be("Version 1.000"@);
    let p = utf16_be("QuranSurahNames-Regular"@);
    u16_be(0) + u16_be(5) + u16_be(66) + name_record(1, f.len() as int, 0) + name_record(
        2,
        g.len() as int,
        f.len() as int,
    ) + name_record(4, f.len() as int, (f.len() + g.len()) as int) + name_record(
        5,
        v.len() as int,
        (2 * f.len() + g.len()) as int,
    ) + name_record(6, p.len() as int, (2 * f.len() + g.len() + v.len()) as int) + f + g + f + v
        + p
}

proof fn lemma_utf16_len(s: Seq<char>)
    ensures
        utf16_be(s).len() == 2 * s.len(),
    decreases s.len(),
{
    if s.len() > 0 {
        lemma_utf16_len(s.drop_last());
    }
}

pub fn name() -> (out: Vec<u8>)
    ensures
        out@ == name_bytes(),
{
    let family = "Quran Surah Names";
    let regular = "Regular";
    let version = "Version 1.000";
    let postscript = "QuranSurahNames-Regular";
    proof {
        reveal_strlit("Quran Surah Names");
        reveal_strlit("Regular");
        reveal_strlit("Version 1.000");
        reveal_strlit("QuranSurahNames-Regular");
        lemma_utf16_len(family@);
        lemma_utf16_len(regular@);
        lemma_utf16_len(version@);
        lemma_utf16_len(postscript@);
    }
    let mut strings: Vec<u8> = Vec::new();
    push_utf16(&mut strings, family);
    push_utf16(&mut strings, regular);
    push_utf16(&mut strings, family);
    push_utf16(&mut strings, version);
    push_utf16(&mut strings, postscript);
    let mut out: Vec<u8> = Vec::new();
    be16(&mut out, 0);
    be16(&mut out, 5);
    be16(&mut out, 6 + 5 * 12);
    let records: [(u16, u16, u16); 5] = [(1, 34, 0), (2, 14, 34), (4, 34, 48), (5, 26, 82), (6, 46, 108)];
    let mut r: usize = 0;
    let ghost h = out@;
    while r < 5
        invariant
            r <= 5,
            records@ == seq![(1u16, 34u16, 0u16), (2u16, 14u16, 34u16), (4u16, 34u16, 48u16), (5u16, 26u16, 82u16), (6u16, 46u16, 108u16)],
            out@ == h + Seq::new(r as nat, |k: int| name_record(records@[k].0 as int, records@[k].1 as int, records@[k].2 as int)).flatten_alt(),
        decreases 5 - r,
    {
        let (id, len, offset) = records[r];
        be16(&mut out, 3);
        be16(&mut out, 1);
        be16(&mut out, 0x0409);
        be16(&mut out, id);
        be16(&mut out, len);
        be16(&mut out, offset);
        r += 1;
        assert(Seq::new(r as nat, |k: int| name_record(records@[k].0 as int, records@[k].1 as int, records@[k].2 as int)).drop_last() =~= Seq::new((r - 1) as nat, |k: int| name_record(records@[k].0 as int, records@[k].1 as int, records@[k].2 as int)));
    }
    append_bytes(&mut out, &strings);
    reveal_with_fuel(Seq::flatten_alt, 6);
    assert(out@ =~= name_bytes());
    out
}


/// A table tag read as the big-endian number it spells, so that tags order as their bytes do.
pub open spec fn tag_key(t: [u8; 4]) -> int {
    t@[0] as int * 0x100_0000 + t@[1] as int * 0x1_0000 + t@[2] as int * 256 + t@[3] as int
}

/// The tables with tag `tag`, in their order.
pub open spec fn tagged(t: Seq<([u8; 4], Vec<u8>)>, tag: [u8; 4]) -> Seq<([u8; 4], Vec<u8>)> {
    t.filter(|e: ([u8; 4], Vec<u8>)| e.0 == tag)
}

/// Sort tables by tag (`<[T]>::sort_by_key`, a stable sort: tables that share a tag keep the
/// order they came in).
#[verifier::external_body]
fn sort_by_tag(tables: &mut [([u8; 4], Vec<u8>)])
    ensures
        final(tables)@.len() == old(tables)@.len(),
        final(tables)@.to_multiset() == old(tables)@.to_multiset(),
        forall|tag: [u8; 4]| #[trigger] tagged(final(tables)@, tag) == tagged(old(tables)@, tag),
        forall|i: int, j: int|
            0 <= i <= j < final(tables)@.len() ==> tag_key(final(tables)@[i].0) <= tag_key(
                final(tables)@[j].0,
            ),
{
    tables.sort_by_key(|entry: &([u8; 4], Vec<u8>)| entry.0);
}

/// `n` rounded up to a multiple of four.
pub open spec fn aligned(n: int) -> int {
    (n + 3) / 4 * 4
}

/// Where the `k`th table starts: after the header, the records and the tables before it.
pub open spec fn table_offset(t: Seq<([u8; 4], Vec<u8>)>, k: int) -> int
    decreases k,
{
    if k <= 0 {
        12 + 16 * (t.len() as int)
    } else {
        table_offset(t, k - 1) + aligned(t[k - 1].1@.len() as int)
    }
}

/// The table records of the first `k` tables: tag, checksum, offset and length.
pub open spec fn table_records(t: Seq<([u8; 4], Vec<u8>)>, k: int) -> Seq<u8>
    decreases k,
{
    if k <= 0 {
        Seq::empty()
    } else {
        table_records(t, k - 1) + t[k - 1].0@ + u32_be(checksum_of(t[k - 1].1@)) + u32_be(
            table_offset(t, k - 1),
        ) + u32_be(t[k - 1].1@.len() as int)
    }
}

/// The first `k` tables, each padded with zeros to a multiple of four bytes.
pub open spec fn table_bodies(t: Seq<([u8; 4], Vec<u8>)>, k: int) -> Seq<u8>
    decreases k,
{
    if k <= 0 {
        Seq::empty()
    } else {
        table_bodies(t, k - 1) + t[k - 1].1@ + Seq::new(
            (aligned(t[k - 1].1@.len() as int) - t[k - 1].1@.len()) as nat,
            |i: int| 0u8,
        )
    }
}

/// The largest power of two not above `n`, and its exponent, searched up from `p = 2^e`.
pub open spec fn pow2_floor(n: int, p: int, e: int) -> (int, int)
    decreases n - p,
{
    if 0 < p && p * 2 <= n {
        pow2_floor(n, p * 2, e + 1)
    } else {
        (p, e)
    }
}

/// The sfnt header: version `OTTO`, the table count and the binary-search fields.
pub open spec fn sfnt_header(n: int) -> Seq<u8> {
    let (p, e) = pow2_floor(n, 1, 0);
    seq![0x4fu8, 0x54u8, 0x54u8, 0x4fu8] + u16_be(n) + u16_be(p * 16) + u16_be(e) + u16_be(
        n * 16 - p * 16,
    )
}

/// The font before its checksum adjustment is written.
#[verifier::opaque]
pub open spec fn sfnt_unpatched(t: Seq<([u8; 4], Vec<u8>)>) -> Seq<u8> {
    sfnt_header(t.len() as int) + table_records(t, t.len() as int) + table_bodies(t, t.len() as int)
}

pub open spec fn is_head(tag: [u8; 4]) -> bool {
    tag@ == seq![0x68u8, 0x65u8, 0x61u8, 0x64u8]
}

/// The first table at or after `k` tagged `head`, if any.
pub open spec fn head_from(t: Seq<([u8; 4], Vec<u8>)>, k: int) -> Option<int>
    decreases t.len() - k,
{
    if k < 0 || k >= t.len() {
        None
    } else if is_head(t[k].0) {
        Some(k)
    } else {
        head_from(t, k + 1)
    }
}

/// The first table tagged `head`, if any.
pub open spec fn first_head(t: Seq<([u8; 4], Vec<u8>)>) -> Option<int> {
    head_from(t, 0)
}

/// `b` with the four bytes at `p` replaced by `w`.
pub open spec fn patched(b: Seq<u8>, p: int, w: Seq<u8>) -> Seq<u8> {
    b.take(p) + w + b.skip(p + 4)
}

/// The checksum adjustment that brings a font's checksum to 0xB1B0AFBA.
pub open spec fn adjustment(b: Seq<u8>) -> int {
    (0xB1B0_AFBA - checksum_of(b) + 0x1_0000_0000) % 0x1_0000_0000
}

/// The font the tables make, in the order given: Err when it has no `head` table.
pub open spec fn sfnt_font(t: Seq<([u8; 4], Vec<u8>)>) -> Result<Seq<u8>, ()> {
    match first_head(t) {
        None => Err(()),
        Some(h) => {
            let base = sfnt_unpatched(t);
            Ok(patched(base, table_offset(t, h) + 8, u32_be(adjustment(base))))
        },
    }
}


fn header_bytes(n: u16) -> (out: Vec<u8>)
    requires
        1 <= n <= 4095,
    ensures
        out@ == sfnt_header(n as int),
{
    let mut p: u16 = 1;
    let mut e: u16 = 0;
    while p * 2 <= n
        invariant
            1 <= p <= n,
            n <= 4095,
            e < p,
            pow2_floor(n as int, p as int, e as int) == pow2_floor(n as int, 1, 0),
        decreases n - p,
    {
        p = p * 2;
        e = e + 1;
    }
    let mut out: Vec<u8> = Vec::new();
    out.push(0x4f);
    out.push(0x54);
    out.push(0x54);
    out.push(0x4f);
    be16(&mut out, n);
    be16(&mut out, p * 16);
    be16(&mut out, e);
    be16(&mut out, n * 16 - p * 16);
    assert(out@ =~= sfnt_header(n as int));
    out
}


/// Tables small enough that every offset fits comfortably in 64 bits.
pub open spec fn tables_fit(t: Seq<([u8; 4], Vec<u8>)>) -> bool {
    1 <= t.len() <= 4095
}

fn push_records(out: &mut Vec<u8>, t: &[([u8; 4], Vec<u8>)])
    requires
        tables_fit(t@),
    ensures
        final(out)@ == old(out)@ + table_records(t@, t@.len() as int),
{
    let n = t.len();
    let mut offset: u128 = 12 + 16 * n as u128;
    let mut k: usize = 0;
    while k < n
        invariant
            n == t@.len(),
            tables_fit(t@),
            k <= n,
            offset == table_offset(t@, k as int),
            offset <= 12 + 16 * 4095 + k * 0x1_0000_0000_0000_0004,
            out@ == old(out)@ + table_records(t@, k as int),
        decreases n - k,
    {
        let tag = t[k].0;
        let bytes = &t[k].1;
        let len = bytes.len();
        out.push(tag[0]);
        out.push(tag[1]);
        out.push(tag[2]);
        out.push(tag[3]);
        be32(out, checksum(bytes.as_slice()));
        be32(out, (offset % 0x1_0000_0000) as u32);
        be32(out, (len as u128 % 0x1_0000_0000) as u32);
        proof {
            lemma_be32_low(offset);
            lemma_be32_low(len as u128);
        }
        assert(out@ =~= old(out)@ + table_records(t@, k + 1));
        offset = offset + ((len as u128 + 3) / 4 * 4);
        k += 1;
    }
}

/// Only the low 32 bits of a value reach its four bytes.
proof fn lemma_be32_low(v: u128)
    ensures
        u32_be(v as int % 0x1_0000_0000) == u32_be(v as int),
{
    assert((v % 0x1_0000_0000) / 0x100_0000 % 256 == v / 0x100_0000 % 256) by (bit_vector);
    assert((v % 0x1_0000_0000) / 0x1_0000 % 256 == v / 0x1_0000 % 256) by (bit_vector);
    assert((v % 0x1_0000_0000) / 256 % 256 == v / 256 % 256) by (bit_vector);
    assert((v % 0x1_0000_0000) % 256 == v % 256) by (bit_vector);
    assert(u32_be(v as int % 0x1_0000_0000) =~= u32_be(v as int));
}

/// Rounding up to four adds what the last word is short of.
proof fn lemma_aligned(n: int)
    requires
        n >= 0,
    ensures
        aligned(n) == n + (4 - n % 4) % 4,
        aligned(n) % 4 == 0,
        aligned(n) >= n,
{
    let r = n % 4;
    let q = n / 4;
    assert(n == 4 * q + r);
    if r == 0 {
        assert((n + 3) / 4 == q);
    } else {
        assert((n + 3) / 4 == q + 1);
    }
}

fn push_bodies(out: &mut Vec<u8>, t: &[([u8; 4], Vec<u8>)])
    ensures
        final(out)@ == old(out)@ + table_bodies(t@, t@.len() as int),
{
    let n = t.len();
    let mut k: usize = 0;
    while k < n
        invariant
            n == t@.len(),
            k <= n,
            out@ == old(out)@ + table_bodies(t@, k as int),
        decreases n - k,
    {
        let bytes = &t[k].1;
        append_bytes(out, bytes.as_slice());
        let pad: usize = (4 - bytes.len() % 4) % 4;
        proof {
            lemma_aligned(bytes@.len() as int);
        }
        push_zeros(out, pad);
        assert(out@ =~= old(out)@ + table_bodies(t@, k + 1));
        k += 1;
    }
}


proof fn lemma_records_len(t: Seq<([u8; 4], Vec<u8>)>, k: int)
    requires
        0 <= k <= t.len(),
    ensures
        table_records(t, k).len() == 16 * k,
    decreases k,
{
    if k > 0 {
        lemma_records_len(t, k - 1);
        assert(t[k - 1].0@.len() == 4);
    }
}

proof fn lemma_offsets(t: Seq<([u8; 4], Vec<u8>)>, k: int)
    requires
        0 <= k <= t.len(),
    ensures
        table_offset(t, k) % 4 == 0,
        table_offset(t, k) >= 12 + 16 * t.len(),
    decreases k,
{
    if k > 0 {
        lemma_offsets(t, k - 1);
        lemma_aligned(t[k - 1].1@.len() as int);
    }
}

proof fn lemma_bodies_len(t: Seq<([u8; 4], Vec<u8>)>, k: int)
    requires
        0 <= k <= t.len(),
    ensures
        table_bodies(t, k).len() == table_offset(t, k) - 12 - 16 * t.len(),
    decreases k,
{
    if k > 0 {
        lemma_bodies_len(t, k - 1);
        lemma_aligned(t[k - 1].1@.len() as int);
    }
}

proof fn lemma_offset_monotone(t: Seq<([u8; 4], Vec<u8>)>, j: int, k: int)
    requires
        0 <= j <= k <= t.len(),
    ensures
        table_offset(t, j) <= table_offset(t, k),
    decreases k - j,
{
    if j < k {
        lemma_offset_monotone(t, j, k - 1);
        lemma_aligned(t[k - 1].1@.len() as int);
    }
}

/// Overwrite the four bytes at `pos` with `w`, big-endian.
fn write_word(out: &mut Vec<u8>, pos: usize, w: u32)
    requires
        pos + 4 <= old(out)@.len(),
    ensures
        final(out)@ == patched(old(out)@, pos as int, u32_be(w as int)),
{
    let n = out.len();
    assert(pos + 4 <= n);
    out.set(pos, (w / 0x100_0000) as u8);
    out.set(pos + 1, ((w / 0x1_0000) % 256) as u8);
    out.set(pos + 2, ((w / 256) % 256) as u8);
    out.set(pos + 3, (w % 256) as u8);
    assert(out@ =~= patched(old(out)@, pos as int, u32_be(w as int)));
}

/// The first table tagged `head`: found by walking from the front.
fn find_head(t: &[([u8; 4], Vec<u8>)]) -> (r: Option<usize>)
    ensures
        r is None ==> first_head(t@) is None,
        r matches Some(h) ==> first_head(t@) == Some(h as int) && h < t@.len() && is_head(t@[h as int].0),
{
    let mut k: usize = 0;
    while k < t.len()
        invariant
            k <= t@.len(),
            head_from(t@, k as int) == first_head(t@),
        decreases t@.len() - k,
    {
        let tag = t[k].0;
        let found = tag[0] == 0x68 && tag[1] == 0x65 && tag[2] == 0x61 && tag[3] == 0x64;
        assert(found <==> is_head(t@[k as int].0)) by {
            if found {
                assert(tag@ =~= seq![0x68u8, 0x65u8, 0x61u8, 0x64u8]);
            }
            if is_head(t@[k as int].0) {
                assert(tag@[0] == 0x68 && tag@[1] == 0x65 && tag@[2] == 0x61 && tag@[3] == 0x64);
            }
        }
        if found {
            return Some(k);
        }
        k += 1;
    }
    None
}

/// Where table `h` starts.
fn offset_of(t: &[([u8; 4], Vec<u8>)], h: usize) -> (r: u128)
    requires
        tables_fit(t@),
        h <= t@.len(),
    ensures
        r == table_offset(t@, h as int),
{
    let n = t.len();
    let mut offset: u128 = 12 + 16 * n as u128;
    let mut k: usize = 0;
    while k < h
        invariant
            n == t@.len(),
            tables_fit(t@),
            k <= h <= n,
            offset == table_offset(t@, k as int),
            offset <= 12 + 16 * 4095 + k * 0x1_0000_0000_0000_0004,
        decreases h - k,
    {
        let len = t[k].1.len();
        offset = offset + ((len as u128 + 3) / 4 * 4);
        k += 1;
    }
    offset
}

/// A reordering keeps every table's size, and keeps every head table at least 12 bytes.
proof fn lemma_same_tables(a: Seq<([u8; 4], Vec<u8>)>, b: Seq<([u8; 4], Vec<u8>)>)
    requires
        a.to_multiset() == b.to_multiset(),
        a.len() == b.len(),
        tables_fit(a),
        forall|k: int| 0 <= k < a.len() && is_head(#[trigger] a[k].0) ==> a[k].1@.len() >= 12,
    ensures
        tables_fit(b),
        forall|k: int| 0 <= k < b.len() && is_head(#[trigger] b[k].0) ==> b[k].1@.len() >= 12,
{
    broadcast use vstd::seq_lib::group_to_multiset_ensures;

    assert forall|k: int| 0 <= k < b.len() implies a.contains(#[trigger] b[k]) by {
        assert(b.contains(b[k]));
        assert(b.to_multiset().count(b[k]) > 0);
    }
    assert forall|k: int| 0 <= k < b.len() implies (is_head(#[trigger] b[k].0) ==> b[k].1@.len() >= 12) by {
        assert(a.contains(b[k]));
        let j = choose|j: int| 0 <= j < a.len() && a[j] == b[k];
        assert(a[j] == b[k]);
    }
}

/// The head table's checksum word lies inside the font, on a word boundary.
proof fn lemma_head_in_bounds(t: Seq<([u8; 4], Vec<u8>)>, h: int)
    requires
        0 <= h < t.len(),
        t[h].1@.len() >= 12,
    ensures
        table_offset(t, h) + 12 <= sfnt_unpatched(t).len(),
        table_offset(t, h) % 4 == 0,
{
    reveal(sfnt_unpatched);
    lemma_records_len(t, t.len() as int);
    lemma_bodies_len(t, t.len() as int);
    lemma_offsets(t, h);
    lemma_offset_monotone(t, h + 1, t.len() as int);
    lemma_aligned(t[h].1@.len() as int);
    assert(sfnt_header(t.len() as int).len() == 12);
}

/// The font of tables already in order.
#[verifier::rlimit(40)]
fn sfnt_sorted(t: &[([u8; 4], Vec<u8>)]) -> (r: Result<Vec<u8>, String>)
    requires
        tables_fit(t@),
        forall|k: int| 0 <= k < t@.len() && is_head(#[trigger] t@[k].0) ==> t@[k].1@.len() >= 12,
    ensures
        r is Err ==> sfnt_font(t@) is Err,
        r matches Ok(v) ==> sfnt_font(t@) == Ok::<Seq<u8>, ()>(v@),
{
    let n = t.len();
    let mut out = header_bytes(n as u16);
    push_records(&mut out, t);
    push_bodies(&mut out, t);
    let ghost base = out@;
    assert(base == sfnt_unpatched(t@)) by {
        reveal(sfnt_unpatched);
    }
    let h = match find_head(t) {
        None => {
            return Err(crate::strings::text_of_str("font has no head table"));
        },
        Some(h) => h,
    };
    let head = offset_of(t, h);
    proof {
        lemma_head_in_bounds(t@, h as int);
    }
    let len = out.len();
    assert(head + 12 <= len);
    let pos: usize = (head + 8) as usize;
    let sum = checksum(out.as_slice());
    let adj = 0xb1b0_afbau32.wrapping_sub(sum);
    proof {
        lemma_adjustment(base, sum);
        lemma_font_is(t@, h as int, base);
    }
    write_word(&mut out, pos, adj);
    Ok(out)
}

proof fn lemma_adjustment(b: Seq<u8>, sum: u32)
    requires
        sum == checksum_of(b),
    ensures
        vstd::wrapping::u32_specs::wrapping_sub(0xb1b0_afbau32, sum) as int == adjustment(b),
{
}

proof fn lemma_font_is(t: Seq<([u8; 4], Vec<u8>)>, h: int, base: Seq<u8>)
    requires
        first_head(t) == Some(h),
        base == sfnt_unpatched(t),
    ensures
        sfnt_font(t) == Ok::<Seq<u8>, ()>(
            patched(base, table_offset(t, h) + 8, u32_be(adjustment(base))),
        ),
{
}

/// The sfnt (OpenType) file of the tables, sorted by tag, with the checksum adjustment of its
/// head table filled in.
pub fn sfnt(tables: &mut [([u8; 4], Vec<u8>)]) -> (r: Result<Vec<u8>, String>)
    requires
        tables_fit(old(tables)@),
        forall|k: int|
            0 <= k < old(tables)@.len() && is_head(#[trigger] old(tables)@[k].0) ==> old(
                tables,
            )@[k].1@.len() >= 12,
    ensures
        final(tables)@.len() == old(tables)@.len(),
        final(tables)@.to_multiset() == old(tables)@.to_multiset(),
        forall|i: int, j: int|
            0 <= i <= j < final(tables)@.len() ==> tag_key(final(tables)@[i].0) <= tag_key(
                final(tables)@[j].0,
            ),
        forall|tag: [u8; 4]| #[trigger] tagged(final(tables)@, tag) == tagged(old(tables)@, tag),
        r is Err ==> sfnt_font(final(tables)@) is Err,
        r matches Ok(v) ==> sfnt_font(final(tables)@) == Ok::<Seq<u8>, ()>(v@),
{
    let ghost before = tables@;
    sort_by_tag(tables);
    proof {
        lemma_same_tables(before, tables@);
    }
    sfnt_sorted(tables)
}




/// A table's bytes sit in the bodies where the tables before it end.
proof fn lemma_body_bytes(t: Seq<([u8; 4], Vec<u8>)>, m: int, k: int, j: int)
    requires
        0 <= k < m <= t.len(),
        0 <= j < t[k].1@.len(),
    ensures
        table_bodies(t, k).len() + j < table_bodies(t, m).len(),
        table_bodies(t, m)[table_bodies(t, k).len() + j] == t[k].1@[j],
    decreases m,
{
    if k < m - 1 {
        lemma_body_bytes(t, m - 1, k, j);
    }
}

/// Words other than the one at `p` are untouched by a patch there.
proof fn lemma_patch_sum(b: Seq<u8>, p: int, w: Seq<u8>, n: int)
    requires
        p % 4 == 0,
        0 <= p,
        p + 4 <= b.len(),
        w.len() == 4,
        b[p] == 0 && b[p + 1] == 0 && b[p + 2] == 0 && b[p + 3] == 0,
        0 <= n,
    ensures
        word_sum(patched(b, p, w), n) == word_sum(b, n) + (if n > p / 4 {
            w[0] as int * 0x100_0000 + w[1] as int * 0x1_0000 + w[2] as int * 256 + w[3] as int
        } else {
            0
        }),
    decreases n,
{
    let c = patched(b, p, w);
    assert(c.len() == b.len());
    if n > 0 {
        lemma_patch_sum(b, p, w, n - 1);
        let k = n - 1;
        if k == p / 4 {
            assert(4 * k == p);
            assert(c[p] == w[0] && c[p + 1] == w[1] && c[p + 2] == w[2] && c[p + 3] == w[3]);
        } else {
            assert forall|i: int| 4 * k <= i < 4 * k + 4 && 0 <= i < b.len() implies c[i] == b[i] by {
                assert(i < p || i >= p + 4);
            }
            assert(word_at(c, k) == word_at(b, k));
        }
    }
}

/// The head table's bytes 8..12 sit at its offset plus 8 in the unpatched font.
proof fn lemma_head_word(t: Seq<([u8; 4], Vec<u8>)>, h: int)
    requires
        0 <= h < t.len(),
        t[h].1@.len() >= 12,
    ensures
        forall|j: int| 8 <= j < 12 ==> sfnt_unpatched(t)[table_offset(t, h) + j] == t[h].1@[j],
{
    let n = t.len() as int;
    reveal(sfnt_unpatched);
    lemma_records_len(t, n);
    lemma_bodies_len(t, h);
    let front = sfnt_header(n) + table_records(t, n);
    assert(front.len() == 12 + 16 * n);
    assert forall|j: int| 8 <= j < 12 implies sfnt_unpatched(t)[table_offset(t, h) + j]
        == t[h].1@[j] by {
        lemma_body_bytes(t, n, h, j);
        assert(sfnt_unpatched(t) == front + table_bodies(t, n));
    }
}

/// Tables in strictly increasing tag order.
pub open spec fn strictly_sorted(t: Seq<([u8; 4], Vec<u8>)>) -> bool {
    forall|i: int, j: int| 0 <= i < j < t.len() ==> #[trigger] tag_key(t[i].0) < #[trigger] tag_key(t[j].0)
}

/// Tables in non-decreasing tag order.
pub open spec fn sorted_by_tag(t: Seq<([u8; 4], Vec<u8>)>) -> bool {
    forall|i: int, j: int| 0 <= i <= j < t.len() ==> tag_key(#[trigger] t[i].0) <= tag_key(#[trigger] t[j].0)
}

/// Sorting tables whose tags already rise strictly leaves them as they are: a reordering that is
/// sorted by tag is the list itself.
pub proof fn lemma_sorted_unique(a: Seq<([u8; 4], Vec<u8>)>, b: Seq<([u8; 4], Vec<u8>)>)
    requires
        strictly_sorted(a),
        sorted_by_tag(b),
        a.to_multiset() == b.to_multiset(),
    ensures
        a == b,
    decreases a.len(),
{
    broadcast use vstd::seq_lib::group_to_multiset_ensures;

    assert(a.len() == a.to_multiset().len());
    assert(b.len() == b.to_multiset().len());
    if a.len() == 0 {
        assert(a =~= b);
    } else {
        assert(a.contains(a[0]));
        assert(b.to_multiset().count(a[0]) > 0);
        assert(b.contains(a[0]));
        let j = choose|j: int| 0 <= j < b.len() && b[j] == a[0];
        assert(b.contains(b[0]));
        assert(a.to_multiset().count(b[0]) > 0);
        assert(a.contains(b[0]));
        let k = choose|k: int| 0 <= k < a.len() && a[k] == b[0];
        assert(tag_key(b[0].0) <= tag_key(b[j].0));
        if k > 0 {
            assert(tag_key(a[0].0) < tag_key(a[k].0));
            assert(false);
        }
        assert(b[0] == a[0]);
        let a2 = a.remove(0);
        let b2 = b.remove(0);
        assert(a2.to_multiset() =~= a.to_multiset().remove(a[0]));
        assert(b2.to_multiset() =~= b.to_multiset().remove(b[0]));
        assert forall|i: int, j2: int| 0 <= i < j2 < a2.len() implies #[trigger] tag_key(a2[i].0) < #[trigger] tag_key(
            a2[j2].0,
        ) by {
            assert(a2[i] == a[i + 1] && a2[j2] == a[j2 + 1]);
            assert(tag_key(a[i + 1].0) < tag_key(a[j2 + 1].0));
        }
        assert forall|i: int, j2: int| 0 <= i <= j2 < b2.len() implies tag_key(#[trigger] b2[i].0) <= tag_key(#[trigger] b2[j2].0) by {
            assert(b2[i] == b[i + 1] && b2[j2] == b[j2 + 1]);
        }
        lemma_sorted_unique(a2, b2);
        assert(a =~= seq![a[0]] + a2);
        assert(b =~= seq![b[0]] + b2);
    }
}

/// The checksum of a font: its words sum, modulo 2^32, to 0xB1B0AFBA once the adjustment is
/// written, provided the head table left that field zero.
#[verifier::rlimit(30)]
pub proof fn font_checksum_law(t: Seq<([u8; 4], Vec<u8>)>)
    requires
        tables_fit(t),
        first_head(t) matches Some(h) && t[h].1@.len() >= 12 && t[h].1@[8] == 0 && t[h].1@[9] == 0
            && t[h].1@[10] == 0 && t[h].1@[11] == 0,
    ensures
        sfnt_font(t) matches Ok(font) && checksum_of(font) == 0xB1B0_AFBA,
{
    let h = first_head(t)->Some_0;
    lemma_head_from(t, 0);
    let base = sfnt_unpatched(t);
    lemma_head_in_bounds(t, h);
    lemma_head_word(t, h);
    lemma_offsets(t, h);
    let p = table_offset(t, h) + 8;
    assert(base[p] == 0 && base[p + 1] == 0 && base[p + 2] == 0 && base[p + 3] == 0) by {
        assert(base[table_offset(t, h) + 8] == t[h].1@[8]);
        assert(base[table_offset(t, h) + 9] == t[h].1@[9]);
        assert(base[table_offset(t, h) + 10] == t[h].1@[10]);
        assert(base[table_offset(t, h) + 11] == t[h].1@[11]);
    }
    let adj = adjustment(base);
    let w = u32_be(adj);
    let font = patched(base, p, w);
    assert(font.len() == base.len());
    lemma_patch_sum(base, p, w, n_words(base));
    let wv = w[0] as int * 0x100_0000 + w[1] as int * 0x1_0000 + w[2] as int * 256 + w[3] as int;
    reveal(checksum_of);
    assert(0 <= adj < 0x1_0000_0000);
    assert(wv == adj);
    let s = word_sum(base, n_words(base));
    lemma_checksum_mod(s);
}

proof fn lemma_checksum_mod(s: int)
    ensures
        (s + (0xB1B0_AFBA - s % 0x1_0000_0000 + 0x1_0000_0000) % 0x1_0000_0000) % 0x1_0000_0000
            == 0xB1B0_AFBA,
{
    let m = 0x1_0000_0000int;
    let r = s % m;
    let q = s / m;
    assert(s == q * m + r) by {
        vstd::arithmetic::div_mod::lemma_fundamental_div_mod(s, m);
    }
    assert(0 <= r < m) by {
        vstd::arithmetic::div_mod::lemma_mod_bound(s, m);
    }
    let a = (0xB1B0_AFBA - r + m) % m;
    if r <= 0xB1B0_AFBA {
        assert(a == 0xB1B0_AFBA - r) by {
            vstd::arithmetic::div_mod::lemma_mod_sub_multiples_vanish(0xB1B0_AFBA - r, m);
            vstd::arithmetic::div_mod::lemma_small_mod((0xB1B0_AFBA - r) as nat, m as nat);
        }
        assert(s + a == q * m + 0xB1B0_AFBA);
    } else {
        assert(a == 0xB1B0_AFBA - r + m) by {
            vstd::arithmetic::div_mod::lemma_small_mod((0xB1B0_AFBA - r + m) as nat, m as nat);
        }
        assert(s + a == (q + 1) * m + 0xB1B0_AFBA) by (nonlinear_arith)
            requires
                s == q * m + r,
                a == 0xB1B0_AFBA - r + m,
        ;
    }
    vstd::arithmetic::div_mod::lemma_mod_multiples_vanish(if r <= 0xB1B0_AFBA { q } else { q + 1 }, 0xB1B0_AFBA, m);
    vstd::arithmetic::div_mod::lemma_small_mod(0xB1B0_AFBA, m as nat);
}

proof fn lemma_head_from(t: Seq<([u8; 4], Vec<u8>)>, k: int)
    requires
        0 <= k,
    ensures
        head_from(t, k) matches Some(h) ==> k <= h < t.len() && is_head(t[h].0),
    decreases t.len() - k,
{
    if k < t.len() && !is_head(t[k].0) {
        lemma_head_from(t, k + 1);
    }
}

} // verus!
