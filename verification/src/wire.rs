//! Byte-level primitives of the wire format: 4-byte alignment padding,
//! big-endian 32-bit fields, and null-terminated, padded string regions.

use vstd::prelude::*;
use vstd::slice::slice_subrange;
use vstd::string::StringSliceAdditionalSpecFns;
use vstd::utf8::*;

use crate::error::Error;

verus! {

/// Number of zero bytes needed to grow a region of length `n` to a multiple
/// of four. Zero when `n` is already a multiple of four.
pub open spec fn pad_len(n: int) -> int {
    if n % 4 == 0 {
        0
    } else {
        4 - n % 4
    }
}

/// A run of `n` zero bytes.
pub open spec fn zero_pad(n: int) -> Seq<u8> {
    Seq::new(n as nat, |i: int| 0u8)
}

/// The bytes `b` followed by the alignment padding that makes their length a
/// multiple of four.
pub open spec fn padded(b: Seq<u8>) -> Seq<u8> {
    b + zero_pad(pad_len(b.len() as int))
}

pub proof fn lemma_padded_len(b: Seq<u8>)
    ensures
        padded(b).len() == b.len() + pad_len(b.len() as int),
        padded(b).len() % 4 == 0,
{
}

/// Padding a region that starts at a multiple-of-four boundary pads the
/// region alone: the prefix before it is left untouched.
pub proof fn lemma_padded_concat(a: Seq<u8>, b: Seq<u8>)
    requires
        a.len() % 4 == 0,
    ensures
        padded(a + b) == a + padded(b),
{
    assert((a + b).len() % 4 == (b.len() % 4) as int) by {
        assert((a.len() + b.len()) % 4 == b.len() % 4) by (nonlinear_arith)
            requires
                a.len() % 4 == 0,
        ;
    }
    assert(padded(a + b) =~= a + padded(b));
}

/// Appends zero bytes until the buffer's length is a multiple of four.
/// If the length already is one, nothing is appended.
pub fn pad(buf: &mut Vec<u8>)
    ensures
        final(buf)@ == padded(old(buf)@),
{
    let r: usize = buf.len() % 4;
    if r != 0 {
        let mut k: usize = 4 - r;
        proof {
            assert(pad_len(old(buf)@.len() as int) == 4 - r);
        }
        while k > 0
            invariant
                k <= 4 - r,
                r == old(buf)@.len() as int % 4,
                r != 0,
                buf@ == old(buf)@ + zero_pad(4 - r - k),
            decreases k,
        {
            buf.push(0);
            proof {
                assert(old(buf)@ + zero_pad(4 - r - k + 1) =~= (old(buf)@ + zero_pad(4 - r - k)).push(
                    0u8,
                ));
            }
            k = k - 1;
        }
        proof {
            assert(buf@ =~= padded(old(buf)@));
        }
    } else {
        proof {
            assert(buf@ =~= padded(old(buf)@));
        }
    }
}

/// Appends every byte of `data` to `buf`, in order.
pub fn push_bytes(buf: &mut Vec<u8>, data: &[u8])
    ensures
        final(buf)@ == old(buf)@ + data@,
{
    let n = data.len();
    let mut i: usize = 0;
    while i < n
        invariant
            i <= n,
            n == data@.len(),
            buf@ == old(buf)@ + data@.subrange(0, i as int),
        decreases n - i,
    {
        buf.push(data[i]);
        proof {
            assert(old(buf)@ + data@.subrange(0, i + 1) =~= (old(buf)@ + data@.subrange(
                0,
                i as int,
            )).push(data@[i as int]));
        }
        i = i + 1;
    }
    proof {
        assert(data@.subrange(0, n as int) =~= data@);
    }
}

/// The four bytes of `v` in big-endian order.
pub open spec fn be32_bytes(v: u32) -> Seq<u8> {
    seq![
        (v as int / 0x1000000 % 0x100) as u8,
        (v as int / 0x10000 % 0x100) as u8,
        (v as int / 0x100 % 0x100) as u8,
        (v as int % 0x100) as u8,
    ]
}

/// The value read from four bytes in big-endian order.
pub open spec fn be32_value(b: Seq<u8>) -> u32
    recommends
        b.len() == 4,
{
    (b[0] as int * 0x1000000 + b[1] as int * 0x10000 + b[2] as int * 0x100 + b[3] as int) as u32
}

/// Reading back the four big-endian bytes of a value yields the value.
pub proof fn lemma_be32_round_trip(v: u32)
    ensures
        be32_value(be32_bytes(v)) == v,
{
    let n = v as int;
    assert(n / 0x1000000 % 0x100 * 0x1000000 + n / 0x10000 % 0x100 * 0x10000 + n / 0x100 % 0x100
        * 0x100 + n % 0x100 == n) by (nonlinear_arith)
        requires
            0 <= n < 0x100000000,
    ;
}

/// The unsigned 32-bit pattern that carries `v` on the wire, in two's
/// complement.
pub open spec fn i32_bits(v: i32) -> u32 {
    if v >= 0 {
        v as u32
    } else {
        (v + 0x100000000) as u32
    }
}

/// The signed value carried by the unsigned 32-bit pattern `u`, in two's
/// complement.
pub open spec fn i32_of_bits(u: u32) -> i32 {
    if u < 0x80000000 {
        u as i32
    } else {
        (u - 0x100000000) as i32
    }
}

pub proof fn lemma_i32_bits_round_trip(v: i32)
    ensures
        i32_of_bits(i32_bits(v)) == v,
{
}

/// Appends the four big-endian bytes of `v` to `buf`.
pub fn put_be32(buf: &mut Vec<u8>, v: u32)
    ensures
        final(buf)@ == old(buf)@ + be32_bytes(v),
{
    buf.push((v / 0x1000000 % 0x100) as u8);
    buf.push((v / 0x10000 % 0x100) as u8);
    buf.push((v / 0x100 % 0x100) as u8);
    buf.push((v % 0x100) as u8);
    proof {
        assert(buf@ =~= old(buf)@ + be32_bytes(v));
    }
}

/// Reads a big-endian 32-bit value from `buf` at `pos`.
pub fn get_be32(buf: &[u8], pos: usize) -> (v: u32)
    requires
        pos + 4 <= buf@.len(),
    ensures
        v == be32_value(buf@.subrange(pos as int, pos + 4)),
{
    let b0 = buf[pos] as u32;
    let b1 = buf[pos + 1] as u32;
    let b2 = buf[pos + 2] as u32;
    let b3 = buf[pos + 3] as u32;
    b0 * 0x1000000 + b1 * 0x10000 + b2 * 0x100 + b3
}

/// Index of the first zero byte of `b` at or after `pos`, if any.
pub open spec fn first_nul_at(b: Seq<u8>, pos: int) -> Option<int>
    decreases b.len() - pos when 0 <= pos <= b.len()
{
    if pos < 0 || pos >= b.len() {
        None
    } else if b[pos] == 0 {
        Some(pos)
    } else {
        first_nul_at(b, pos + 1)
    }
}

/// A zero byte preceded by no other zero byte is the first one.
pub proof fn lemma_first_nul_at_found(b: Seq<u8>, pos: int, i: int)
    requires
        0 <= pos <= i < b.len(),
        b[i] == 0,
        forall|j: int| pos <= j < i ==> b[j] != 0,
    ensures
        first_nul_at(b, pos) == Some(i),
    decreases i - pos,
{
    if pos < i {
        lemma_first_nul_at_found(b, pos + 1, i);
    }
}

/// The first zero byte at or after `pos` lies in bounds, is zero, and is
/// preceded by no other zero byte.
pub proof fn lemma_first_nul_at_some(b: Seq<u8>, pos: int)
    requires
        0 <= pos <= b.len(),
        first_nul_at(b, pos) is Some,
    ensures
        ({
            let i = first_nul_at(b, pos)->Some_0;
            &&& pos <= i < b.len()
            &&& b[i] == 0
            &&& forall|j: int| pos <= j < i ==> b[j] != 0
        }),
    decreases b.len() - pos,
{
    if pos < b.len() && b[pos] != 0 {
        lemma_first_nul_at_some(b, pos + 1);
    }
}

/// Where no byte at or after `pos` is zero, there is no first zero byte.
pub proof fn lemma_first_nul_at_none(b: Seq<u8>, pos: int)
    requires
        0 <= pos <= b.len(),
        forall|j: int| pos <= j < b.len() ==> b[j] != 0,
    ensures
        first_nul_at(b, pos) is None,
    decreases b.len() - pos,
{
    if pos < b.len() {
        lemma_first_nul_at_none(b, pos + 1);
    }
}

/// True when the character sequence holds no null character. Only such
/// sequences can be carried by a null-terminated string region.
pub open spec fn no_nul(s: Seq<char>) -> bool {
    forall|i: int| 0 <= i < s.len() ==> s[i] != '\0'
}

/// The wire region of a string: its UTF-8 bytes, a null terminator, and
/// alignment padding.
pub open spec fn str_block(s: Seq<char>) -> Seq<u8> {
    padded(encode_utf8(s).push(0))
}

/// Appends the UTF-8 bytes of `s`, a null terminator, and alignment padding
/// to `buf`. The input must hold no null character, since the null byte is
/// the terminator sentinel.
pub fn encode_string(s: &str, buf: &mut Vec<u8>)
    requires
        no_nul(s@),
    ensures
        final(buf)@ == padded(old(buf)@ + encode_utf8(s@).push(0)),
{
    push_bytes(buf, s.as_bytes());
    buf.push(0);
    pad(buf);
    proof {
        assert((old(buf)@ + encode_utf8(s@)).push(0) =~= old(buf)@ + encode_utf8(s@).push(0));
    }
}

/// Relies on core::str::from_utf8: it returns `Ok` exactly when the bytes
/// are valid UTF-8, and the returned string slice views those same bytes.
#[verifier::external_body]
fn try_from_utf8<'a>(bytes: &'a [u8]) -> (r: Option<&'a str>)
    ensures
        r is Some <==> valid_utf8(bytes@),
        r matches Some(s) ==> s.spec_bytes() == bytes@,
{
    match core::str::from_utf8(bytes) {
        Ok(s) => Some(s),
        Err(_) => None,
    }
}

/// What decoding a string region of `b` that starts at `pos` yields: the
/// characters before the first null byte, and the cursor just past the
/// terminator and the alignment padding that follows it. The skip is driven
/// by the terminator's offset within the region: terminator plus padding
/// always amount to `4 - (i - pos) % 4` bytes.
pub open spec fn spec_decode_string(b: Seq<u8>, pos: int) -> Result<(Seq<char>, int), Error>
    recommends
        0 <= pos <= b.len(),
{
    match first_nul_at(b, pos) {
        Option::None => Err(Error::MalformedMessage),
        Option::Some(i) => {
            let region = b.subrange(pos, i);
            if !valid_utf8(region) {
                Err(Error::MalformedMessage)
            } else {
                let next = i + 4 - (i - pos) % 4;
                if next > b.len() {
                    Err(Error::TruncatedBuffer)
                } else {
                    Ok((decode_utf8(region), next))
                }
            }
        },
    }
}

/// The cursor returned by a successful string decode sits at a
/// multiple-of-four offset from the start of the region.
pub proof fn lemma_decode_string_aligned(b: Seq<u8>, pos: int, s: Seq<char>, next: int)
    requires
        0 <= pos <= b.len(),
        spec_decode_string(b, pos) == Ok::<(Seq<char>, int), Error>((s, next)),
    ensures
        (next - pos) % 4 == 0,
        pos < next <= b.len(),
{
    lemma_first_nul_at_some(b, pos);
    let i = first_nul_at(b, pos)->Some_0;
    let rel = i - pos;
    assert(next - pos == rel + 4 - rel % 4);
    assert((rel + 4 - rel % 4) % 4 == 0) by (nonlinear_arith)
        requires
            rel >= 0,
    ;
}

/// Decodes a string region of `buf` starting at `pos`: the bytes before the
/// first null terminator, interpreted as UTF-8, and the cursor past the
/// terminator and the padding that follows it.
pub fn decode_string(buf: &[u8], pos: usize) -> (r: Result<(String, usize), Error>)
    requires
        pos <= buf@.len(),
    ensures
        match r {
            Ok(sp) => spec_decode_string(buf@, pos as int) == Ok::<(Seq<char>, int), Error>(
                (sp.0@, sp.1 as int),
            ) && pos < sp.1 <= buf@.len(),
            Err(e) => spec_decode_string(buf@, pos as int) == Err::<(Seq<char>, int), Error>(e),
        },
{
    match find_nul(buf, pos) {
        Option::None => Err(Error::MalformedMessage),
        Option::Some(i) => {
            let region = slice_subrange(buf, pos, i);
            match try_from_utf8(region) {
                Option::None => Err(Error::MalformedMessage),
                Option::Some(st) => {
                    let skip: usize = 4 - (i - pos) % 4;
                    if buf.len() - i < skip {
                        Err(Error::TruncatedBuffer)
                    } else {
                        let next = i + skip;
                        let owned = String::from_str(st);
                        proof {
                            encode_utf8_decode_utf8(st@);
                        }
                        Ok((owned, next))
                    }
                },
            }
        },
    }
}

proof fn lemma_encode_scalar_no_nul(c: u32)
    requires
        is_scalar(c),
        c != 0,
    ensures
        forall|j: int| 0 <= j < encode_scalar(c).len() ==> encode_scalar(c)[j] != 0,
{
    if has_width_1_encoding(c) {
        assert((c & 0x7F) as u8 != 0) by (bit_vector)
            requires
                c != 0 && c <= 0x7F,
        ;
    } else if has_width_2_encoding(c) {
        assert(0xC0 | ((c >> 6) & 0x1F) as u8 != 0) by (bit_vector);
        assert(0x80 | (c & 0x3F) as u8 != 0) by (bit_vector);
    } else if has_width_3_encoding(c) {
        assert(0xE0 | ((c >> 12) & 0x0F) as u8 != 0) by (bit_vector);
        assert(0x80 | ((c >> 6) & 0x3F) as u8 != 0) by (bit_vector);
        assert(0x80 | (c & 0x3F) as u8 != 0) by (bit_vector);
    } else {
        assert(0xF0 | ((c >> 18) & 0x7) as u8 != 0) by (bit_vector);
        assert(0x80 | ((c >> 12) & 0x3F) as u8 != 0) by (bit_vector);
        assert(0x80 | ((c >> 6) & 0x3F) as u8 != 0) by (bit_vector);
        assert(0x80 | (c & 0x3F) as u8 != 0) by (bit_vector);
    }
}

/// The UTF-8 bytes of a sequence without null characters hold no zero byte.
pub proof fn lemma_encode_utf8_no_nul(s: Seq<char>)
    requires
        no_nul(s),
    ensures
        forall|j: int| 0 <= j < encode_utf8(s).len() ==> encode_utf8(s)[j] != 0,
    decreases s.len(),
{
    if s.len() > 0 {
        let c = s[0] as u32;
        char_is_scalar(s[0]);
        assert(c != 0) by {
            if c == 0 {
                char_u32_cast(s[0], c);
                char_u32_cast('\0', 0u32);
            }
        }
        lemma_encode_scalar_no_nul(c);
        assert(no_nul(s.drop_first()));
        lemma_encode_utf8_no_nul(s.drop_first());
        let head = encode_scalar(c);
        let tail = encode_utf8(s.drop_first());
        assert forall|j: int| 0 <= j < encode_utf8(s).len() implies encode_utf8(s)[j] != 0 by {
            assert(encode_utf8(s) == head + tail);
            if j < head.len() {
                assert(encode_utf8(s)[j] == head[j]);
            } else {
                assert(encode_utf8(s)[j] == tail[j - head.len()]);
            }
        }
    }
}

/// Decoding a string region that carries the block of `s` yields `s` and the
/// cursor just past the block: the wire round trip for one string.
pub proof fn lemma_decode_string_of_block(s: Seq<char>, b: Seq<u8>, pos: int)
    requires
        no_nul(s),
        0 <= pos,
        pos + str_block(s).len() <= b.len(),
        b.subrange(pos, pos + str_block(s).len()) == str_block(s),
    ensures
        spec_decode_string(b, pos) == Ok::<(Seq<char>, int), Error>(
            (s, pos + str_block(s).len()),
        ),
{
    let bytes = encode_utf8(s);
    let len = bytes.len() as int;
    let block = str_block(s);
    let blen = block.len() as int;
    lemma_padded_len(bytes.push(0));

    // The block's bytes as seen inside b.
    assert forall|j: int| 0 <= j < blen implies b[pos + j] == block[j] by {
        assert(b.subrange(pos, pos + blen)[j] == b[pos + j]);
    }
    assert(forall|j: int| 0 <= j < len ==> block[j] == bytes[j]);
    assert(block[len] == 0);
    assert(forall|j: int| len + 1 <= j < blen ==> block[j] == 0);

    // The first null byte sits exactly at the end of the character bytes.
    lemma_encode_utf8_no_nul(s);
    assert forall|j: int| pos <= j < pos + len implies b[j] != 0 by {
        assert(b[j] == block[j - pos]);
        assert(block[j - pos] == bytes[j - pos]);
    }
    lemma_first_nul_at_found(b, pos, pos + len);
    assert(first_nul_at(b, pos) == Some(pos + len));

    let region = b.subrange(pos, pos + len);
    assert(region =~= bytes);
    encode_utf8_valid_utf8(s);
    encode_utf8_decode_utf8(s);

    // The skip past terminator and padding reaches exactly the block's end.
    let next = (pos + len) + 4 - ((pos + len) - pos) % 4;
    assert(blen == len + 1 + pad_len(len + 1));
    assert(next - pos == blen) by (nonlinear_arith)
        requires
            len >= 0,
            next - pos == len + 4 - len % 4,
            blen == len + 1 + (if (len + 1) % 4 == 0 { 0int } else { 4 - (len + 1) % 4 }),
    ;
    assert(next <= b.len());
}

/// Finds the first zero byte of `buf` at or after `pos`.
fn find_nul(buf: &[u8], pos: usize) -> (r: Option<usize>)
    requires
        pos <= buf@.len(),
    ensures
        match r {
            Some(i) => first_nul_at(buf@, pos as int) == Some(i as int) && pos <= i < buf@.len(),
            None => first_nul_at(buf@, pos as int) is None,
        },
{
    let n = buf.len();
    let mut i: usize = pos;
    while i < n
        invariant
            pos <= i <= n,
            n == buf@.len(),
            first_nul_at(buf@, pos as int) == first_nul_at(buf@, i as int),
        decreases n - i,
    {
        if buf[i] == 0 {
            return Some(i);
        }
        i = i + 1;
    }
    None
}

} // verus!
