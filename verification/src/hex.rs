//! Conversion between hexadecimal strings and raw byte sequences.

use vstd::prelude::*;
use vstd::string::StrSliceExecFns;
use vstd::string::StringExecFns;

verus! {

/// Malformed hex input: odd length or a character that is no hex digit.
#[derive(Clone, Copy, Debug, PartialEq, Eq)]
pub struct FormatError;

/// The character is a hex digit; uppercase letters are accepted on input.
pub open spec fn is_hex_digit(c: char) -> bool {
    ||| c == '0' || c == '1' || c == '2' || c == '3' || c == '4'
    ||| c == '5' || c == '6' || c == '7' || c == '8' || c == '9'
    ||| c == 'a' || c == 'b' || c == 'c' || c == 'd' || c == 'e' || c == 'f'
    ||| c == 'A' || c == 'B' || c == 'C' || c == 'D' || c == 'E' || c == 'F'
}

/// Numeric value of a hex digit (zero for any other character).
pub open spec fn char_to_nibble(c: char) -> u8 {
    if c == '0' { 0 }
    else if c == '1' { 1 }
    else if c == '2' { 2 }
    else if c == '3' { 3 }
    else if c == '4' { 4 }
    else if c == '5' { 5 }
    else if c == '6' { 6 }
    else if c == '7' { 7 }
    else if c == '8' { 8 }
    else if c == '9' { 9 }
    else if c == 'a' || c == 'A' { 10 }
    else if c == 'b' || c == 'B' { 11 }
    else if c == 'c' || c == 'C' { 12 }
    else if c == 'd' || c == 'D' { 13 }
    else if c == 'e' || c == 'E' { 14 }
    else if c == 'f' || c == 'F' { 15 }
    else { 0 }
}

/// Lowercase hex digit for a value below sixteen.
pub open spec fn nibble_to_char(n: u8) -> char {
    if n == 0 { '0' }
    else if n == 1 { '1' }
    else if n == 2 { '2' }
    else if n == 3 { '3' }
    else if n == 4 { '4' }
    else if n == 5 { '5' }
    else if n == 6 { '6' }
    else if n == 7 { '7' }
    else if n == 8 { '8' }
    else if n == 9 { '9' }
    else if n == 10 { 'a' }
    else if n == 11 { 'b' }
    else if n == 12 { 'c' }
    else if n == 13 { 'd' }
    else if n == 14 { 'e' }
    else if n == 15 { 'f' }
    else { '0' }
}

/// A well-formed hex string: even length, hex digits throughout.
pub open spec fn is_hex_seq(s: Seq<char>) -> bool {
    s.len() % 2 == 0 && forall|i: int| 0 <= i < s.len() ==> is_hex_digit(#[trigger] s[i])
}

/// The hex rendering of a byte sequence: two lowercase digits per byte,
/// high nibble first.
pub open spec fn hex_of_bytes(b: Seq<u8>) -> Seq<char> {
    Seq::new(
        2 * b.len(),
        |i: int| if i % 2 == 0 { nibble_to_char(b[i / 2] / 16) } else { nibble_to_char(b[i / 2] % 16) },
    )
}

/// The bytes encoded by a hex string: each consecutive pair of digits gives
/// one byte via base-16 parsing.
pub open spec fn bytes_of_hex(s: Seq<char>) -> Seq<u8> {
    Seq::new(
        s.len() / 2,
        |i: int| (char_to_nibble(s[2 * i]) * 16 + char_to_nibble(s[2 * i + 1])) as u8,
    )
}

/// Lowercase image of a hex digit: the uppercase letters map to their
/// lowercase forms, every other character stays as it is.
pub open spec fn lower_hex_char(c: char) -> char {
    if c == 'A' { 'a' }
    else if c == 'B' { 'b' }
    else if c == 'C' { 'c' }
    else if c == 'D' { 'd' }
    else if c == 'E' { 'e' }
    else if c == 'F' { 'f' }
    else { c }
}

/// The same string with its hex digits in lowercase.
pub open spec fn lower_hex(s: Seq<char>) -> Seq<char> {
    Seq::new(s.len(), |i: int| lower_hex_char(s[i]))
}

/// Numeric value of a hex digit, or nothing for any other character.
fn hex_digit_value(c: char) -> (r: Option<u8>)
    ensures
        r is Some <==> is_hex_digit(c),
        r matches Some(v) ==> v == char_to_nibble(c),
{
    if c == '0' { Some(0) }
    else if c == '1' { Some(1) }
    else if c == '2' { Some(2) }
    else if c == '3' { Some(3) }
    else if c == '4' { Some(4) }
    else if c == '5' { Some(5) }
    else if c == '6' { Some(6) }
    else if c == '7' { Some(7) }
    else if c == '8' { Some(8) }
    else if c == '9' { Some(9) }
    else if c == 'a' || c == 'A' { Some(10) }
    else if c == 'b' || c == 'B' { Some(11) }
    else if c == 'c' || c == 'C' { Some(12) }
    else if c == 'd' || c == 'D' { Some(13) }
    else if c == 'e' || c == 'E' { Some(14) }
    else if c == 'f' || c == 'F' { Some(15) }
    else { None }
}

/// Append the lowercase hex digit of a value below sixteen.
fn push_nibble(s: &mut String, n: u8)
    requires
        n < 16,
    ensures
        final(s)@ == old(s)@.push(nibble_to_char(n)),
{
    if n == 0 {
        proof { reveal_strlit("0"); }
        s.append("0");
        assert(s@ =~= old(s)@.push('0'));
    } else if n == 1 {
        proof { reveal_strlit("1"); }
        s.append("1");
        assert(s@ =~= old(s)@.push('1'));
    } else if n == 2 {
        proof { reveal_strlit("2"); }
        s.append("2");
        assert(s@ =~= old(s)@.push('2'));
    } else if n == 3 {
        proof { reveal_strlit("3"); }
        s.append("3");
        assert(s@ =~= old(s)@.push('3'));
    } else if n == 4 {
        proof { reveal_strlit("4"); }
        s.append("4");
        assert(s@ =~= old(s)@.push('4'));
    } else if n == 5 {
        proof { reveal_strlit("5"); }
        s.append("5");
        assert(s@ =~= old(s)@.push('5'));
    } else if n == 6 {
        proof { reveal_strlit("6"); }
        s.append("6");
        assert(s@ =~= old(s)@.push('6'));
    } else if n == 7 {
        proof { reveal_strlit("7"); }
        s.append("7");
        assert(s@ =~= old(s)@.push('7'));
    } else if n == 8 {
        proof { reveal_strlit("8"); }
        s.append("8");
        assert(s@ =~= old(s)@.push('8'));
    } else if n == 9 {
        proof { reveal_strlit("9"); }
        s.append("9");
        assert(s@ =~= old(s)@.push('9'));
    } else if n == 10 {
        proof { reveal_strlit("a"); }
        s.append("a");
        assert(s@ =~= old(s)@.push('a'));
    } else if n == 11 {
        proof { reveal_strlit("b"); }
        s.append("b");
        assert(s@ =~= old(s)@.push('b'));
    } else if n == 12 {
        proof { reveal_strlit("c"); }
        s.append("c");
        assert(s@ =~= old(s)@.push('c'));
    } else if n == 13 {
        proof { reveal_strlit("d"); }
        s.append("d");
        assert(s@ =~= old(s)@.push('d'));
    } else if n == 14 {
        proof { reveal_strlit("e"); }
        s.append("e");
        assert(s@ =~= old(s)@.push('e'));
    } else {
        proof { reveal_strlit("f"); }
        s.append("f");
        assert(s@ =~= old(s)@.push('f'));
    }
}

/// Render each byte as two lowercase hex digits, in order; the output has
/// twice as many characters as the input has bytes. Never fails.
pub fn bytes_to_hex(bytes: &[u8]) -> (r: String)
    ensures
        r@ == hex_of_bytes(bytes@),
{
    let mut s = String::new();
    let mut i: usize = 0;
    while i < bytes.len()
        invariant
            i <= bytes@.len(),
            s@ == hex_of_bytes(bytes@).take(2 * i as int),
        decreases bytes@.len() - i,
    {
        let b = bytes[i];
        push_nibble(&mut s, b / 16);
        push_nibble(&mut s, b % 16);
        proof {
            assert(s@ =~= hex_of_bytes(bytes@).take(2 * (i + 1) as int));
        }
        i += 1;
    }
    proof {
        assert(s@ =~= hex_of_bytes(bytes@));
    }
    s
}

/// Decode a hex string into bytes: every consecutive pair of digits gives
/// one byte. Succeeds exactly on even-length strings of hex digits
/// (uppercase digits accepted); fails with [`FormatError`] otherwise.
#[verifier::loop_isolation(false)]
pub fn hex_to_bytes(hex: &str) -> (r: Result<Vec<u8>, FormatError>)
    ensures
        r is Ok <==> is_hex_seq(hex@),
        r matches Ok(b) ==> b@ == bytes_of_hex(hex@),
{
    let n = hex.unicode_len();
    if n % 2 != 0 {
        return Err(FormatError);
    }
    let mut out: Vec<u8> = Vec::new();
    let mut i: usize = 0;
    while i < n
        invariant
            i <= n,
            i % 2 == 0,
            forall|t: int| 0 <= t < i ==> is_hex_digit(#[trigger] hex@[t]),
            out@ == bytes_of_hex(hex@).take(i as int / 2),
        decreases n - i,
    {
        let c1 = hex.get_char(i);
        let c2 = hex.get_char(i + 1);
        let v1 = hex_digit_value(c1);
        let v2 = hex_digit_value(c2);
        match (v1, v2) {
            (Some(h), Some(l)) => {
                out.push(16 * h + l);
                proof {
                    assert(out@ =~= bytes_of_hex(hex@).take((i + 2) as int / 2));
                }
            },
            _ => {
                return Err(FormatError);
            },
        }
        i += 2;
    }
    proof {
        assert(out@ =~= bytes_of_hex(hex@));
    }
    Ok(out)
}

/// A hex digit's value round-trips through its lowercase rendering.
proof fn lemma_nibble_char_roundtrip(n: u8)
    requires
        n < 16,
    ensures
        is_hex_digit(nibble_to_char(n)),
        char_to_nibble(nibble_to_char(n)) == n,
{
}

/// Rendering a hex digit's value gives the digit back, lowercased.
proof fn lemma_char_nibble_lower(c: char)
    requires
        is_hex_digit(c),
    ensures
        char_to_nibble(c) < 16,
        nibble_to_char(char_to_nibble(c)) == lower_hex_char(c),
{
}

/// A byte splits into its nibbles and the nibbles combine back to the byte.
proof fn lemma_nibble_combine(h: u8, l: u8)
    requires
        h < 16,
        l < 16,
    ensures
        (16 * h + l) / 16 == h,
        (16 * h + l) % 16 == l,
{
}

/// Encoding a byte sequence gives a well-formed hex string, and decoding it
/// gives the bytes back.
pub proof fn lemma_hex_round_trip(b: Seq<u8>)
    ensures
        is_hex_seq(hex_of_bytes(b)),
        bytes_of_hex(hex_of_bytes(b)) == b,
{
    let s = hex_of_bytes(b);
    assert forall|i: int| 0 <= i < s.len() implies is_hex_digit(#[trigger] s[i]) by {
        if i % 2 == 0 {
            lemma_nibble_char_roundtrip(b[i / 2] / 16);
        } else {
            lemma_nibble_char_roundtrip(b[i / 2] % 16);
        }
    }
    assert forall|i: int| 0 <= i < b.len() implies bytes_of_hex(s)[i] == b[i] by {
        lemma_nibble_char_roundtrip(b[i] / 16);
        lemma_nibble_char_roundtrip(b[i] % 16);
        assert(s[2 * i] == nibble_to_char(b[i] / 16));
        assert(s[2 * i + 1] == nibble_to_char(b[i] % 16));
        assert((b[i] / 16) * 16 + b[i] % 16 == b[i]);
    }
    assert(bytes_of_hex(s) =~= b);
}

/// Decoding a well-formed hex string and encoding the bytes again gives the
/// same string with its digits lowercased.
pub proof fn lemma_hex_lower_round_trip(s: Seq<char>)
    requires
        is_hex_seq(s),
    ensures
        hex_of_bytes(bytes_of_hex(s)) == lower_hex(s),
{
    let b = bytes_of_hex(s);
    assert(b.len() == s.len() / 2);
    assert forall|i: int| 0 <= i < s.len() implies hex_of_bytes(b)[i] == lower_hex(s)[i] by {
        let p = i / 2;
        lemma_char_nibble_lower(s[2 * p]);
        lemma_char_nibble_lower(s[2 * p + 1]);
        lemma_nibble_combine(char_to_nibble(s[2 * p]), char_to_nibble(s[2 * p + 1]));
        if i % 2 == 0 {
            assert(i == 2 * p);
            assert(hex_of_bytes(b)[i] == nibble_to_char(b[p] / 16));
        } else {
            assert(i == 2 * p + 1);
            assert(hex_of_bytes(b)[i] == nibble_to_char(b[p] % 16));
        }
    }
    assert(hex_of_bytes(b) =~= lower_hex(s));
}

} // verus!
