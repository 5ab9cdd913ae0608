//! Base64 encoding of byte strings: each 3-byte chunk becomes four
//! 6-bit indices into the base64 alphabet, packed big-endian into a
//! `u32`; index 64 stands for the `=` padding character.

use vstd::prelude::*;

verus! {

/// The four indices of a chunk word, packed big-endian.
pub open spec fn word_of_indices(a: int, b: int, c: int, d: int) -> int {
    a * 0x1000000 + b * 0x10000 + c * 0x100 + d
}

/// The packed word for the chunk of `s` that starts at byte `3 * i`:
/// the chunk's bits regrouped into 6-bit indices, missing trailing
/// bytes filled with the padding index 64.
pub open spec fn chunk_word_spec(s: Seq<u8>, i: int) -> int {
    let b0 = s[3 * i] as int;
    if 3 * i + 3 <= s.len() {
        let b1 = s[3 * i + 1] as int;
        let b2 = s[3 * i + 2] as int;
        word_of_indices(b0 / 4, (b0 % 4) * 16 + b1 / 16, (b1 % 16) * 4 + b2 / 64, b2 % 64)
    } else if 3 * i + 2 == s.len() {
        let b1 = s[3 * i + 1] as int;
        word_of_indices(b0 / 4, (b0 % 4) * 16 + b1 / 16, (b1 % 16) * 4, 64)
    } else {
        word_of_indices(b0 / 4, (b0 % 4) * 16, 64, 64)
    }
}

/// Pack the input into one `u32` of four 6-bit alphabet indices per
/// 3-byte chunk; a final short chunk is completed with padding indices.
pub fn encode_to_bytes(bytes: Vec<u8>) -> (r: Vec<u32>)
    ensures
        r@.len() == (bytes@.len() + 2) / 3,
        forall|k: int| 0 <= k < r@.len() ==> #[trigger] r@[k] as int == chunk_word_spec(bytes@, k),
{
    let mut result: Vec<u32> = Vec::new();
    let mut i: usize = 0;
    while i < bytes.len()
        invariant
            i <= bytes@.len(),
            i == 3 * result@.len() || i == bytes@.len(),
            result@.len() == (i + 2) / 3,
            forall|k: int| 0 <= k < result@.len()
                ==> #[trigger] result@[k] as int == chunk_word_spec(bytes@, k),
        decreases bytes@.len() - i,
    {
        let n = bytes.len() - i;
        if n >= 3 {
            let b0 = bytes[i];
            let b1 = bytes[i + 1];
            let b2 = bytes[i + 2];
            let val: u32 = ((b0 >> 2) as u32) << 24
                | (((b0 & 0x3) << 4 | ((b1 & 0xF0) >> 4)) as u32) << 16
                | (((b1 & 0x0F) << 2 | ((b2 & 0xC0) >> 6)) as u32) << 8
                | ((b2 << 2) >> 2) as u32;
            proof {
                assert(val == ((b0 as u32) / 4) * 0x1000000
                    + (((b0 as u32) % 4) * 16 + (b1 as u32) / 16) * 0x10000
                    + (((b1 as u32) % 16) * 4 + (b2 as u32) / 64) * 0x100
                    + (b2 as u32) % 64) by (bit_vector)
                    requires
                        val == ((b0 >> 2) as u32) << 24
                            | (((b0 & 0x3) << 4 | ((b1 & 0xF0) >> 4)) as u32) << 16
                            | (((b1 & 0x0F) << 2 | ((b2 & 0xC0) >> 6)) as u32) << 8
                            | ((b2 << 2) >> 2) as u32,
                ;
            }
            result.push(val);
            i = i + 3;
        } else if n == 2 {
            let b0 = bytes[i];
            let b1 = bytes[i + 1];
            let val: u32 = ((b0 >> 2) as u32) << 24
                | (((b0 & 0x3) << 4 | ((b1 & 0xF0) >> 4)) as u32) << 16
                | (((b1 & 0x0F) << 2) as u32) << 8
                | 64;
            proof {
                assert(val == ((b0 as u32) / 4) * 0x1000000
                    + (((b0 as u32) % 4) * 16 + (b1 as u32) / 16) * 0x10000
                    + ((b1 as u32) % 16) * 4 * 0x100
                    + 64) by (bit_vector)
                    requires
                        val == ((b0 >> 2) as u32) << 24
                            | (((b0 & 0x3) << 4 | ((b1 & 0xF0) >> 4)) as u32) << 16
                            | (((b1 & 0x0F) << 2) as u32) << 8
                            | 64,
                ;
            }
            result.push(val);
            i = i + 2;
        } else {
            let b0 = bytes[i];
            let val: u32 = ((b0 >> 2) as u32) << 24
                | (((b0 & 0x3) << 4) as u32) << 16
                | 64u32 << 8
                | 64;
            proof {
                assert(val == ((b0 as u32) / 4) * 0x1000000
                    + ((b0 as u32) % 4) * 16 * 0x10000
                    + 64 * 0x100
                    + 64) by (bit_vector)
                    requires
                        val == ((b0 >> 2) as u32) << 24
                            | (((b0 & 0x3) << 4) as u32) << 16
                            | 64u32 << 8
                            | 64,
                ;
            }
            result.push(val);
            i = i + 1;
        }
    }
    result
}

/// ASCII code of the base64 alphabet character for index `x`: `A`-`Z`,
/// `a`-`z`, `0`-`9`, `+`, `/`, and `=` (padding) for index 64.
pub open spec fn b64_code(x: int) -> int {
    if x < 26 {
        65 + x
    } else if x < 52 {
        97 + (x - 26)
    } else if x < 62 {
        48 + (x - 52)
    } else if x == 62 {
        43
    } else if x == 63 {
        47
    } else {
        61
    }
}

/// Big-endian byte `j` (0..4) of the 32-bit word `w`.
pub open spec fn word_byte(w: int, j: int) -> int {
    if j == 0 {
        w / 0x1000000 % 0x100
    } else if j == 1 {
        w / 0x10000 % 0x100
    } else if j == 2 {
        w / 0x100 % 0x100
    } else {
        w % 0x100
    }
}

/// The base64 alphabet character for index `x` (padding for 64).
fn b64_char(x: u8) -> (r: u8)
    ensures
        r as int == b64_code(x as int),
{
    if x < 26 {
        65 + x
    } else if x < 52 {
        97 + (x - 26)
    } else if x < 62 {
        48 + (x - 52)
    } else if x == 62 {
        43
    } else if x == 63 {
        47
    } else {
        61
    }
}

/// Relies on `String::from_utf8`: a vector of ASCII bytes decodes to
/// the string of exactly those code points, in order.
#[verifier::external_body]
fn ascii_to_string(v: Vec<u8>) -> (r: String)
    requires
        forall|i: int| 0 <= i < v@.len() ==> v@[i] < 128,
    ensures
        r@.len() == v@.len(),
        forall|i: int| 0 <= i < v@.len() ==> #[trigger] r@[i] as int == v@[i] as int,
{
    String::from_utf8(v).unwrap_or_default()
}

/// Encode the input in base64: the alphabet character of every 6-bit
/// index of every chunk word, in order, `=` standing for padding.
pub fn encode_to_string(bytes: Vec<u8>) -> (r: String)
    ensures
        r@.len() == 4 * ((bytes@.len() + 2) / 3),
        forall|k: int| 0 <= k < r@.len() ==> #[trigger] r@[k] as int == b64_code(
            word_byte(chunk_word_spec(bytes@, k / 4), k % 4),
        ),
{
    let ghost input = bytes@;
    let words = encode_to_bytes(bytes);
    let mut codes: Vec<u8> = Vec::new();
    let mut i: usize = 0;
    while i < words.len()
        invariant
            i <= words@.len(),
            words@.len() == (input.len() + 2) / 3,
            forall|k: int| 0 <= k < words@.len() ==> #[trigger] words@[k] as int
                == chunk_word_spec(input, k),
            codes@.len() == 4 * i,
            forall|k: int| 0 <= k < codes@.len() ==> #[trigger] codes@[k] as int == b64_code(
                word_byte(chunk_word_spec(input, k / 4), k % 4),
            ),
            forall|k: int| 0 <= k < codes@.len() ==> codes@[k] < 128,
        decreases words@.len() - i,
    {
        let w = words[i];
        let s0 = ((w >> 24) & 0xFF) as u8;
        let s1 = ((w >> 16) & 0xFF) as u8;
        let s2 = ((w >> 8) & 0xFF) as u8;
        let s3 = (w & 0xFF) as u8;
        proof {
            assert(((w >> 24) & 0xFF) as int == w as int / 0x1000000 % 0x100 && ((w >> 16)
                & 0xFF) as int == w as int / 0x10000 % 0x100 && ((w >> 8) & 0xFF) as int
                == w as int / 0x100 % 0x100 && (w & 0xFF) as int == w as int % 0x100)
                by (bit_vector);
        }
        codes.push(b64_char(s0));
        codes.push(b64_char(s1));
        codes.push(b64_char(s2));
        codes.push(b64_char(s3));
        i = i + 1;
        proof {
            assert forall|k: int| 0 <= k < codes@.len() implies #[trigger] codes@[k] as int
                == b64_code(word_byte(chunk_word_spec(input, k / 4), k % 4)) by {
                if k >= codes@.len() - 4 {
                    assert(k / 4 == i - 1) by (nonlinear_arith)
                        requires
                            4 * (i - 1) <= k < 4 * i,
                    ;
                }
            }
        }
    }
    ascii_to_string(codes)
}

} // verus!
