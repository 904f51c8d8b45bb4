//! Bit packing and hexadecimal rendering of the fingerprint.
//!
//! Bits are packed most-significant-bit-first into whole bytes, the last
//! byte zero-padded, and each byte is rendered as two lowercase hexadecimal
//! digits, high nibble first, with no separators or prefix.

use vstd::prelude::*;
use vstd::string::StringExecFns;

verus! {

/// The numeric value of bit `k`; positions beyond the end count as `0`.
pub open spec fn bit_val(bits: Seq<bool>, k: int) -> int {
    if 0 <= k < bits.len() && bits[k] {
        1
    } else {
        0
    }
}

/// Byte `j` of the packed bit string, most-significant-bit-first.
pub open spec fn byte_of_bits(bits: Seq<bool>, j: int) -> int {
    128 * bit_val(bits, 8 * j) + 64 * bit_val(bits, 8 * j + 1) + 32 * bit_val(bits, 8 * j + 2)
        + 16 * bit_val(bits, 8 * j + 3) + 8 * bit_val(bits, 8 * j + 4) + 4 * bit_val(
        bits, 8 * j + 5,
    ) + 2 * bit_val(bits, 8 * j + 6) + bit_val(bits, 8 * j + 7)
}

/// The packed bytes: one byte per eight bits, rounded up.
pub open spec fn pack_bits(bits: Seq<bool>) -> Seq<u8> {
    Seq::new(((bits.len() + 7) / 8) as nat, |j: int| byte_of_bits(bits, j) as u8)
}

/// The lowercase hexadecimal digit of a value in `[0, 16)`.
pub open spec fn hex_digit(d: int) -> char {
    if d == 0 { '0' }
    else if d == 1 { '1' }
    else if d == 2 { '2' }
    else if d == 3 { '3' }
    else if d == 4 { '4' }
    else if d == 5 { '5' }
    else if d == 6 { '6' }
    else if d == 7 { '7' }
    else if d == 8 { '8' }
    else if d == 9 { '9' }
    else if d == 10 { 'a' }
    else if d == 11 { 'b' }
    else if d == 12 { 'c' }
    else if d == 13 { 'd' }
    else if d == 14 { 'e' }
    else { 'f' }
}

/// Two lowercase hexadecimal digits per byte, high nibble first.
pub open spec fn hex_of(bytes: Seq<u8>) -> Seq<char> {
    Seq::new((bytes.len() * 2) as nat, |k: int| hex_digit(
        if k % 2 == 0 { (bytes[k / 2] as int) / 16 } else { (bytes[k / 2] as int) % 16 },
    ))
}

/// Membership in the lowercase hexadecimal alphabet.
pub open spec fn is_hex_char(c: char) -> bool {
    c == '0' || c == '1' || c == '2' || c == '3' || c == '4' || c == '5' || c == '6' || c == '7'
        || c == '8' || c == '9' || c == 'a' || c == 'b' || c == 'c' || c == 'd' || c == 'e'
        || c == 'f'
}

/// Every digit the renderer can produce is in the hexadecimal alphabet.
pub proof fn lemma_hex_digit_is_hex(d: int)
    ensures
        is_hex_char(hex_digit(d)),
{
}

/// Pack bits into bytes, most-significant-bit-first.
pub fn pack_exec(bits: &Vec<bool>) -> (r: Vec<u8>)
    requires
        bits@.len() + 7 <= usize::MAX as int,
    ensures
        r@ == pack_bits(bits@),
{
    let blen: usize = bits.len();
    let nb: usize = (blen + 7) / 8;
    proof {
        vstd::arithmetic::div_mod::lemma_fundamental_div_mod(blen as int + 7, 8);
    }
    let mut out: Vec<u8> = Vec::new();
    let mut j: usize = 0;
    while j < nb
        invariant
            blen == bits@.len(),
            nb == (bits@.len() + 7) / 8,
            8 * (nb as int) <= bits@.len() + 7,
            j <= nb,
            out@.len() == j,
            forall|t: int| 0 <= t < j ==> out@[t] == byte_of_bits(bits@, t) as u8,
        decreases nb - j,
    {
        let base: usize = 8 * j;
        let mut b: u32 = 0;
        if base < blen && bits[base] { b = b + 128; }
        if base + 1 < blen && bits[base + 1] { b = b + 64; }
        if base + 2 < blen && bits[base + 2] { b = b + 32; }
        if base + 3 < blen && bits[base + 3] { b = b + 16; }
        if base + 4 < blen && bits[base + 4] { b = b + 8; }
        if base + 5 < blen && bits[base + 5] { b = b + 4; }
        if base + 6 < blen && bits[base + 6] { b = b + 2; }
        if base + 7 < blen && bits[base + 7] { b = b + 1; }
        proof {
            assert(b == byte_of_bits(bits@, j as int));
        }
        out.push(b as u8);
        j = j + 1;
    }
    proof {
        assert(out@ =~= pack_bits(bits@));
    }
    out
}

/// Append one hexadecimal digit to the string.
fn push_hex_digit(out: &mut String, d: u8)
    requires
        d < 16,
    ensures
        final(out)@ == old(out)@.push(hex_digit(d as int)),
{
    match d {
        0 => {
            out.append("0");
            proof { reveal_strlit("0"); assert(out@ =~= old(out)@.push('0')); }
        }
        1 => {
            out.append("1");
            proof { reveal_strlit("1"); assert(out@ =~= old(out)@.push('1')); }
        }
        2 => {
            out.append("2");
            proof { reveal_strlit("2"); assert(out@ =~= old(out)@.push('2')); }
        }
        3 => {
            out.append("3");
            proof { reveal_strlit("3"); assert(out@ =~= old(out)@.push('3')); }
        }
        4 => {
            out.append("4");
            proof { reveal_strlit("4"); assert(out@ =~= old(out)@.push('4')); }
        }
        5 => {
            out.append("5");
            proof { reveal_strlit("5"); assert(out@ =~= old(out)@.push('5')); }
        }
        6 => {
            out.append("6");
            proof { reveal_strlit("6"); assert(out@ =~= old(out)@.push('6')); }
        }
        7 => {
            out.append("7");
            proof { reveal_strlit("7"); assert(out@ =~= old(out)@.push('7')); }
        }
        8 => {
            out.append("8");
            proof { reveal_strlit("8"); assert(out@ =~= old(out)@.push('8')); }
        }
        9 => {
            out.append("9");
            proof { reveal_strlit("9"); assert(out@ =~= old(out)@.push('9')); }
        }
        10 => {
            out.append("a");
            proof { reveal_strlit("a"); assert(out@ =~= old(out)@.push('a')); }
        }
        11 => {
            out.append("b");
            proof { reveal_strlit("b"); assert(out@ =~= old(out)@.push('b')); }
        }
        12 => {
            out.append("c");
            proof { reveal_strlit("c"); assert(out@ =~= old(out)@.push('c')); }
        }
        13 => {
            out.append("d");
            proof { reveal_strlit("d"); assert(out@ =~= old(out)@.push('d')); }
        }
        14 => {
            out.append("e");
            proof { reveal_strlit("e"); assert(out@ =~= old(out)@.push('e')); }
        }
        _ => {
            out.append("f");
            proof { reveal_strlit("f"); assert(out@ =~= old(out)@.push('f')); }
        }
    }
}

/// Render bytes as lowercase hexadecimal.
pub fn hex_exec(bytes: &Vec<u8>) -> (r: String)
    ensures
        r@ == hex_of(bytes@),
{
    let mut out: String = String::new();
    let mut k: usize = 0;
    while k < bytes.len()
        invariant
            k <= bytes@.len(),
            out@.len() == 2 * k,
            forall|t: int| 0 <= t < out@.len() ==> out@[t] == hex_of(bytes@)[t],
        decreases bytes@.len() - k,
    {
        let b: u8 = bytes[k];
        push_hex_digit(&mut out, b / 16);
        push_hex_digit(&mut out, b % 16);
        proof {
            vstd::arithmetic::div_mod::lemma_fundamental_div_mod_converse(
                2 * (k as int), 2, k as int, 0,
            );
            vstd::arithmetic::div_mod::lemma_fundamental_div_mod_converse(
                2 * (k as int) + 1, 2, k as int, 1,
            );
        }
        k = k + 1;
    }
    proof {
        assert(out@ =~= hex_of(bytes@));
    }
    out
}

} // verus!
