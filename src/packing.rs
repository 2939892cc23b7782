use vstd::prelude::*;

use crate::error::{first_where, lemma_first_where_skip, Asc100Error};
use crate::text::push_char;

verus! {

/// The symbol of a 6-bit value in the output alphabet
/// `A`-`Z`, `a`-`z`, `0`-`9`, `+`, `/`.
pub open spec fn b64_char(v: int) -> char {
    if v < 26 {
        (v + 65) as u32 as char
    } else if v < 52 {
        (v - 26 + 97) as u32 as char
    } else if v < 62 {
        (v - 52 + 48) as u32 as char
    } else if v == 62 {
        '+'
    } else {
        '/'
    }
}

/// The 6-bit value of the character with code `a`, or 255 when it is no symbol
/// of the output alphabet.
pub open spec fn b64_value(a: int) -> u8 {
    if 65 <= a <= 90 {
        (a - 65) as u8
    } else if 97 <= a <= 122 {
        (a - 97 + 26) as u8
    } else if 48 <= a <= 57 {
        (a - 48 + 52) as u8
    } else if a == 43 {
        62
    } else if a == 47 {
        63
    } else {
        255
    }
}

/// The value of a character of an encoded stream, 255 for a character outside the
/// output alphabet.
pub open spec fn char_b64_value(c: char) -> u8 {
    b64_value(c as u32 as int)
}

pub proof fn lemma_b64_inverse()
    ensures
        forall|v: int| 0 <= v < 64 ==> #[trigger] char_b64_value(b64_char(v)) == v,
        forall|c: char| #[trigger] char_b64_value(c) != 255 ==> char_b64_value(c) < 64 && b64_char(char_b64_value(c) as int) == c,
{
    assert forall|c: char| #[trigger] char_b64_value(c) != 255 implies char_b64_value(c) < 64 && b64_char(char_b64_value(c) as int) == c by {
        vstd::utf8::char_u32_cast(c, c as u32);
    }
}

/// The output symbol of a 6-bit value.
pub fn base64_char(value: u8) -> (r: char)
    requires
        value < 64,
    ensures
        r == b64_char(value as int),
{
    if value < 26 {
        (value + 65) as char
    } else if value < 52 {
        (value - 26 + 97) as char
    } else if value < 62 {
        (value - 52 + 48) as char
    } else if value == 62 {
        '+'
    } else {
        '/'
    }
}

/// The output alphabet in value order.
pub fn base64_chars() -> (r: [char; 64])
    ensures
        forall|v: int| 0 <= v < 64 ==> #[trigger] r@[v] == b64_char(v),
{
    let mut chars: [char; 64] = ['A'; 64];
    let mut i: u8 = 0;
    while i < 64
        invariant
            i <= 64,
            chars@.len() == 64,
            forall|v: int| 0 <= v < i ==> #[trigger] chars@[v] == b64_char(v),
        decreases 64 - i,
    {
        chars[i as usize] = base64_char(i);
        i += 1;
    }
    chars
}

/// The inverse of the output alphabet, one entry per 7-bit code, 255 for codes that
/// are no symbol.
pub fn build_base64_lookup() -> (r: [u8; 128])
    ensures
        forall|a: int| 0 <= a < 128 ==> #[trigger] r@[a] == b64_value(a),
{
    let chars = base64_chars();
    let mut table: [u8; 128] = [255u8; 128];
    let mut i: usize = 0;
    proof {
        lemma_b64_inverse();
    }
    while i < 64
        invariant
            i <= 64,
            table@.len() == 128,
            forall|v: int| 0 <= v < 64 ==> #[trigger] chars@[v] == b64_char(v),
            forall|a: int|
                0 <= a < 128 ==> #[trigger] table@[a] == if b64_value(a) < i {
                    b64_value(a)
                } else {
                    255
                },
        decreases 64 - i,
    {
        let ch = chars[i];
        proof {
            assert(char_b64_value(b64_char(i as int)) == i);
        }
        table[ch as usize] = i as u8;
        i += 1;
        proof {
            assert forall|a: int| 0 <= a < 128 implies #[trigger] table@[a] == if b64_value(a) < i {
                b64_value(a)
            } else {
                255
            } by {
                if b64_value(a) == i - 1 {
                    let c = a as u32 as char;
                    assert(char_b64_value(c) == i - 1);
                    assert(b64_char(char_b64_value(c) as int) == c);
                }
            }
        }
    }
    table
}


/// Bit `j` of the stream that holds each index as 7 bits, most significant first;
/// zero past the end of the stream.
pub open spec fn index_bit(ix: Seq<u8>, j: int) -> u8 {
    if 0 <= j < 7 * ix.len() {
        (ix[j / 7] >> ((6 - j % 7) as u8)) & 1u8
    } else {
        0
    }
}

/// The number of output symbols for `n` indices: 7n bits padded up to a multiple of 6.
pub open spec fn packed_len(n: int) -> int {
    (7 * n + 5) / 6
}

/// The six bits at positions 6k..6k+5 of the padded stream, read as a number.
pub open spec fn group6(ix: Seq<u8>, k: int) -> u8 {
    (index_bit(ix, 6 * k) << 5u8) | (index_bit(ix, 6 * k + 1) << 4u8) | (index_bit(ix, 6 * k + 2)
        << 3u8) | (index_bit(ix, 6 * k + 3) << 2u8) | (index_bit(ix, 6 * k + 4) << 1u8)
        | index_bit(ix, 6 * k + 5)
}

/// The 6-bit values of the packed stream.
pub open spec fn pack_values(ix: Seq<u8>) -> Seq<u8> {
    Seq::new(packed_len(ix.len() as int) as nat, |k: int| group6(ix, k))
}

/// The encoded stream of a sequence of indices.
pub open spec fn pack(ix: Seq<u8>) -> Seq<char> {
    pack_values(ix).map_values(|v: u8| b64_char(v as int))
}

/// Bit `j` of the stream that holds each value as 6 bits, most significant first.
pub open spec fn value_bit(vs: Seq<u8>, j: int) -> u8 {
    (vs[j / 6] >> ((5 - j % 6) as u8)) & 1u8
}

/// The seven bits at positions 7m..7m+6 of the value stream, read as a number.
pub open spec fn group7(vs: Seq<u8>, m: int) -> u8 {
    (value_bit(vs, 7 * m) << 6u8) | (value_bit(vs, 7 * m + 1) << 5u8) | (value_bit(vs, 7 * m + 2)
        << 4u8) | (value_bit(vs, 7 * m + 3) << 3u8) | (value_bit(vs, 7 * m + 4) << 2u8) | (
    value_bit(vs, 7 * m + 5) << 1u8) | value_bit(vs, 7 * m + 6)
}

/// The indices held in a stream of 6-bit values: every complete group of seven bits,
/// a shorter tail being padding.
pub open spec fn unpack(vs: Seq<u8>) -> Seq<u8> {
    Seq::new((6 * vs.len() / 7) as nat, |m: int| group7(vs, m))
}

/// The position of the first character of `s` outside the output alphabet, or its length.
pub open spec fn first_bad_symbol(s: Seq<char>) -> int {
    first_where(|i: int| char_b64_value(s[i]) == 255, 0, s.len() as int)
}

/// The indices that an encoded stream holds, or the error for its first character
/// outside the output alphabet.
pub open spec fn unpack_spec(s: Seq<char>) -> Result<Seq<u8>, Asc100Error> {
    let k = first_bad_symbol(s);
    if k < s.len() {
        Err(Asc100Error::InvalidBase64Character(s[k]))
    } else {
        Ok(unpack(s.map_values(|c: char| char_b64_value(c))))
    }
}

proof fn lemma_bits6(b0: u8, b1: u8, b2: u8, b3: u8, b4: u8, b5: u8)
    by (bit_vector)
    requires
        b0 <= 1,
        b1 <= 1,
        b2 <= 1,
        b3 <= 1,
        b4 <= 1,
        b5 <= 1,
    ensures
        ({
            let g = (b0 << 5u8) | (b1 << 4u8) | (b2 << 3u8) | (b3 << 2u8) | (b4 << 1u8) | b5;
            &&& g < 64
            &&& (g >> 5u8) & 1u8 == b0
            &&& (g >> 4u8) & 1u8 == b1
            &&& (g >> 3u8) & 1u8 == b2
            &&& (g >> 2u8) & 1u8 == b3
            &&& (g >> 1u8) & 1u8 == b4
            &&& (g >> 0u8) & 1u8 == b5
        }),
{
}

proof fn lemma_bits7(x: u8)
    by (bit_vector)
    requires
        x < 128,
    ensures
        (((x >> 6u8) & 1u8) << 6u8) | (((x >> 5u8) & 1u8) << 5u8) | (((x >> 4u8) & 1u8) << 4u8) | (((
        x >> 3u8) & 1u8) << 3u8) | (((x >> 2u8) & 1u8) << 2u8) | (((x >> 1u8) & 1u8) << 1u8) | ((x
            >> 0u8) & 1u8) == x,
{
}

proof fn lemma_bit_le1(x: u8, s: u8)
    by (bit_vector)
    ensures
        (x >> s) & 1u8 <= 1,
{
}

proof fn lemma_div_mod(q: int, r: int, d: int)
    requires
        0 <= r < d,
        d > 0,
    ensures
        (d * q + r) / d == q,
        (d * q + r) % d == r,
{
    assert(d * q == q * d) by (nonlinear_arith);
    vstd::arithmetic::div_mod::lemma_fundamental_div_mod_converse(d * q + r, d, q, r);
}

/// The padded stream has 6 * packed_len(n) bits, at least 7n and fewer than 7n + 6.
proof fn lemma_packed_len(n: int)
    requires
        n >= 0,
    ensures
        7 * n <= 6 * packed_len(n) < 7 * n + 6,
        (6 * packed_len(n)) / 7 == n,
        packed_len(n) >= 0,
{
    let t = 7 * n + 5;
    vstd::arithmetic::div_mod::lemma_fundamental_div_mod(t, 6);
    let q = t / 6;
    let r = t % 6;
    assert(6 * q == t - r);
    let u = 6 * q - 7 * n;
    assert(0 <= u < 7);
    lemma_div_mod(n, u, 7);
    assert(7 * n + u == 6 * q);
}

/// Unpacking the values of a packed stream gives back the indices exactly.
pub proof fn lemma_unpack_pack(ix: Seq<u8>)
    requires
        forall|i: int| 0 <= i < ix.len() ==> ix[i] < 128,
    ensures
        unpack(pack_values(ix)) == ix,
        pack_values(ix).len() == packed_len(ix.len() as int),
        forall|k: int| 0 <= k < pack_values(ix).len() ==> #[trigger] pack_values(ix)[k] < 64,
{
    let n = ix.len() as int;
    let vs = pack_values(ix);
    lemma_packed_len(n);
    assert forall|j: int| 0 <= j < 6 * vs.len() implies #[trigger] value_bit(vs, j) == index_bit(ix, j) by {
        let k = j / 6;
        let t = j % 6;
        vstd::arithmetic::div_mod::lemma_fundamental_div_mod(j, 6);
        assert(0 <= k < vs.len()) by (nonlinear_arith)
            requires
                0 <= j < 6 * vs.len(),
                k == j / 6,
        ;
        let b0 = index_bit(ix, 6 * k);
        let b1 = index_bit(ix, 6 * k + 1);
        let b2 = index_bit(ix, 6 * k + 2);
        let b3 = index_bit(ix, 6 * k + 3);
        let b4 = index_bit(ix, 6 * k + 4);
        let b5 = index_bit(ix, 6 * k + 5);
        assert forall|jj: int| #[trigger] index_bit(ix, jj) <= 1 by {
            if 0 <= jj < 7 * ix.len() {
                lemma_bit_le1(ix[jj / 7], (6 - jj % 7) as u8);
            }
        }
        lemma_bits6(b0, b1, b2, b3, b4, b5);
        assert(j == 6 * k + t);
    }
    assert forall|k: int| 0 <= k < vs.len() implies #[trigger] vs[k] < 64 by {
        assert forall|jj: int| #[trigger] index_bit(ix, jj) <= 1 by {
            if 0 <= jj < 7 * ix.len() {
                lemma_bit_le1(ix[jj / 7], (6 - jj % 7) as u8);
            }
        }
        lemma_bits6(
            index_bit(ix, 6 * k),
            index_bit(ix, 6 * k + 1),
            index_bit(ix, 6 * k + 2),
            index_bit(ix, 6 * k + 3),
            index_bit(ix, 6 * k + 4),
            index_bit(ix, 6 * k + 5),
        );
    }
    let u = unpack(vs);
    assert(u.len() == n);
    assert forall|m: int| 0 <= m < n implies #[trigger] u[m] == ix[m] by {
        assert(7 * m + 6 < 7 * n);
        assert forall|t: int| 0 <= t < 7 implies #[trigger] index_bit(ix, 7 * m + t) == (ix[m] >> ((6 - t) as u8)) & 1u8 by {
            lemma_div_mod(m, t, 7);
        }
        assert(index_bit(ix, 7 * m) == (ix[m] >> 6u8) & 1u8);
        assert(index_bit(ix, 7 * m + 1) == (ix[m] >> 5u8) & 1u8);
        assert(index_bit(ix, 7 * m + 2) == (ix[m] >> 4u8) & 1u8);
        assert(index_bit(ix, 7 * m + 3) == (ix[m] >> 3u8) & 1u8);
        assert(index_bit(ix, 7 * m + 4) == (ix[m] >> 2u8) & 1u8);
        assert(index_bit(ix, 7 * m + 5) == (ix[m] >> 1u8) & 1u8);
        assert(index_bit(ix, 7 * m + 6) == (ix[m] >> 0u8) & 1u8);
        lemma_bits7(ix[m]);
    }
    assert(u =~= ix);
}


/// Packs indices into the output alphabet: each index as 7 bits, most significant
/// first, zero bits up to a multiple of 6, then one symbol per 6 bits.
pub fn pack_indices(indices: &[u8]) -> (r: String)
    ensures
        r@ == pack(indices@),
{
    let ghost ix = indices@;
    let mut bits: Vec<u8> = Vec::new();
    let mut i: usize = 0;
    while i < indices.len()
        invariant
            ix == indices@,
            i <= ix.len(),
            bits@.len() == 7 * i,
            forall|j: int| 0 <= j < bits@.len() ==> #[trigger] bits@[j] == index_bit(ix, j),
        decreases ix.len() - i,
    {
        let index = indices[i];
        let mut b: u8 = 0;
        while b < 7
            invariant
                ix == indices@,
                i < ix.len(),
                index == ix[i as int],
                b <= 7,
                bits@.len() == 7 * i + b,
                forall|j: int| 0 <= j < bits@.len() ==> #[trigger] bits@[j] == index_bit(ix, j),
            decreases 7 - b,
        {
            proof {
                lemma_div_mod(i as int, b as int, 7);
                assert(7 * i + b < 7 * ix.len());
            }
            bits.push((index >> (6 - b)) & 1);
            assert(bits@[7 * i + b] == index_bit(ix, 7 * i + b));
            b += 1;
        }
        i += 1;
    }
    proof {
        lemma_packed_len(ix.len() as int);
    }
    let ghost n = ix.len() as int;
    let pad: usize = (6 - bits.len() % 6) % 6;
    let mut p: usize = 0;
    while p < pad
        invariant
            p <= pad,
            pad < 6,
            n == ix.len(),
            bits@.len() == 7 * n + p,
            forall|j: int| 0 <= j < bits@.len() ==> #[trigger] bits@[j] == index_bit(ix, j),
        decreases pad - p,
    {
        bits.push(0);
        p += 1;
    }
    proof {
        let t = 7 * n;
        vstd::arithmetic::div_mod::lemma_fundamental_div_mod(t, 6);
        vstd::arithmetic::div_mod::lemma_fundamental_div_mod(t + 5, 6);
        assert(bits@.len() == 6 * packed_len(n));
    }
    let mut result = String::new();
    let mut k: usize = 0;
    while k < bits.len() / 6
        invariant
            bits@.len() == 6 * packed_len(n),
            n == ix.len(),
            k <= packed_len(n),
            forall|j: int| 0 <= j < bits@.len() ==> #[trigger] bits@[j] == index_bit(ix, j),
            result@ == pack(ix).take(k as int),
        decreases packed_len(n) - k,
    {
        let s = 6 * k;
        let value: u8 = (bits[s] << 5u8) | (bits[s + 1] << 4u8) | (bits[s + 2] << 3u8) | (bits[s + 3]
            << 2u8) | (bits[s + 4] << 1u8) | bits[s + 5];
        proof {
            assert forall|jj: int| #[trigger] index_bit(ix, jj) <= 1 by {
                if 0 <= jj < 7 * ix.len() {
                    lemma_bit_le1(ix[jj / 7], (6 - jj % 7) as u8);
                }
            }
            lemma_bits6(bits@[s as int], bits@[s + 1], bits@[s + 2], bits@[s + 3], bits@[s + 4], bits@[s + 5]);
            assert(value == group6(ix, k as int));
        }
        push_char(&mut result, base64_char(value));
        k += 1;
        assert(result@ =~= pack(ix).take(k as int));
    }
    assert(pack(ix).take(packed_len(n)) =~= pack(ix));
    result
}

/// Reads an encoded stream back into the indices it holds: each symbol gives 6 bits,
/// every complete group of 7 bits is one index, and a shorter tail is dropped.
pub fn unpack_symbols(encoded: &[char]) -> (r: Result<Vec<u8>, Asc100Error>)
    ensures
        match r {
            Ok(v) => unpack_spec(encoded@) == Ok::<Seq<u8>, Asc100Error>(v@),
            Err(e) => unpack_spec(encoded@) == Err::<Seq<u8>, Asc100Error>(e),
        },
{
    let ghost s = encoded@;
    let ghost vs = s.map_values(|c: char| char_b64_value(c));
    let ghost bad = |i: int| char_b64_value(s[i]) == 255;
    let table = build_base64_lookup();
    let mut bits: Vec<u8> = Vec::new();
    let mut i: usize = 0;
    while i < encoded.len()
        invariant
            s == encoded@,
            vs == s.map_values(|c: char| char_b64_value(c)),
            bad == (|i: int| char_b64_value(s[i]) == 255),
            forall|a: int| 0 <= a < 128 ==> #[trigger] table@[a] == b64_value(a),
            i <= s.len(),
            forall|j: int| 0 <= j < i ==> !#[trigger] bad(j),
            bits@.len() == 6 * i,
            forall|j: int| 0 <= j < bits@.len() ==> #[trigger] bits@[j] == value_bit(vs, j),
        decreases s.len() - i,
    {
        let ch = encoded[i];
        let ascii = ch as u32;
        if ascii >= 128 {
            proof {
                lemma_first_where_skip(bad, 0, i as int, s.len() as int);
            }
            return Err(Asc100Error::InvalidBase64Character(ch));
        }
        let value = table[ascii as usize];
        if value == 255 {
            proof {
                lemma_first_where_skip(bad, 0, i as int, s.len() as int);
            }
            return Err(Asc100Error::InvalidBase64Character(ch));
        }
        let mut b: u8 = 0;
        while b < 6
            invariant
                i < s.len(),
                vs == s.map_values(|c: char| char_b64_value(c)),
                value == vs[i as int],
                b <= 6,
                bits@.len() == 6 * i + b,
                forall|j: int| 0 <= j < bits@.len() ==> #[trigger] bits@[j] == value_bit(vs, j),
            decreases 6 - b,
        {
            proof {
                lemma_div_mod(i as int, b as int, 6);
            }
            bits.push((value >> (5 - b)) & 1);
            b += 1;
        }
        i += 1;
    }
    proof {
        lemma_first_where_skip(bad, 0, s.len() as int, s.len() as int);
    }
    let mut indices: Vec<u8> = Vec::new();
    let mut m: usize = 0;
    while m < bits.len() / 7
        invariant
            bits@.len() == 6 * vs.len(),
            vs.len() == s.len(),
            m <= bits@.len() / 7,
            forall|j: int| 0 <= j < bits@.len() ==> #[trigger] bits@[j] == value_bit(vs, j),
            indices@ == unpack(vs).take(m as int),
        decreases bits@.len() / 7 - m,
    {
        proof {
            vstd::arithmetic::div_mod::lemma_fundamental_div_mod(bits@.len() as int, 7);
        }
        let s7 = 7 * m;
        let index: u8 = (bits[s7] << 6u8) | (bits[s7 + 1] << 5u8) | (bits[s7 + 2] << 4u8) | (bits[s7
            + 3] << 3u8) | (bits[s7 + 4] << 2u8) | (bits[s7 + 5] << 1u8) | bits[s7 + 6];
        indices.push(index);
        m += 1;
        assert(indices@ =~= unpack(vs).take(m as int));
    }
    assert(unpack(vs).take(m as int) =~= unpack(vs));
    Ok(indices)
}

} // verus!
