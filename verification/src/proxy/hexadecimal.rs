//! Bytes in hexadecimal.

use vstd::prelude::*;

verus! {

/// A lower-case hexadecimal digit.
pub open spec fn hex_digit(d: int) -> char {
    if d < 10 {
        (48 + d) as char
    } else {
        (87 + d) as char
    }
}

/// Each byte as two lower-case digits, the high one first.
pub open spec fn hex_text(data: Seq<u8>) -> Seq<char> {
    Seq::new(
        2 * data.len(),
        |i: int|
            hex_digit(
                if i % 2 == 0 {
                    data[i / 2] as int / 16
                } else {
                    data[i / 2] as int % 16
                },
            ),
    )
}

/// The value of a hexadecimal digit of either case, -1 for any other character.
pub open spec fn hex_value(c: char) -> int {
    if '0' <= c <= '9' {
        c as int - 48
    } else if 'a' <= c <= 'f' {
        c as int - 87
    } else if 'A' <= c <= 'F' {
        c as int - 55
    } else {
        -1
    }
}

/// An even number of hexadecimal digits.
pub open spec fn is_hex(s: Seq<char>) -> bool {
    &&& s.len() % 2 == 0
    &&& forall|i: int| 0 <= i < s.len() ==> hex_value(#[trigger] s[i]) >= 0
}

/// The bytes that hexadecimal digits write.
pub open spec fn hex_bytes(s: Seq<char>) -> Seq<u8> {
    Seq::new(
        s.len() / 2,
        |i: int| (16 * hex_value(s[2 * i]) + hex_value(s[2 * i + 1])) as u8,
    )
}

/// Calls `hex::encode`. Claims that each byte becomes two lower-case digits.
#[verifier::external_body]
pub(crate) fn hex_encode(data: &[u8]) -> (out: String)
    ensures
        out@ == hex_text(data@),
{
    hex::encode(data)
}

/// Calls `hex::decode`. Claims that it succeeds exactly on an even number of hexadecimal digits
/// of either case, and gives one byte for each two of them.
#[verifier::external_body]
pub(crate) fn hex_decode(s: &str) -> (out: Option<Vec<u8>>)
    ensures
        out is Some <==> is_hex(s@),
        out matches Some(data) ==> data@ == hex_bytes(s@),
{
    hex::decode(s).ok()
}

/// Decoding what was encoded gives the bytes back.
pub proof fn law_hex_round_trip(data: Seq<u8>)
    ensures
        is_hex(hex_text(data)),
        hex_bytes(hex_text(data)) == data,
{
    let s = hex_text(data);
    assert forall|i: int| 0 <= i < data.len() implies hex_bytes(s)[i] == data[i] by {
        assert((2 * i) / 2 == i && (2 * i) % 2 == 0);
        assert((2 * i + 1) / 2 == i && (2 * i + 1) % 2 == 1);
    }
    assert(hex_bytes(s) =~= data);
}

/// The sixteen digits: `0` to `9` and `a` to `f`, read in either case.
pub proof fn law_hex_digits(d: int)
    requires
        0 <= d < 16,
    ensures
        hex_digit(d) == seq![
            '0',
            '1',
            '2',
            '3',
            '4',
            '5',
            '6',
            '7',
            '8',
            '9',
            'a',
            'b',
            'c',
            'd',
            'e',
            'f',
        ][d],
        hex_value(hex_digit(d)) == d,
        d >= 10 ==> hex_value(seq!['A', 'B', 'C', 'D', 'E', 'F'][d - 10]) == d,
{
}

/// Each byte is written in two digits, the high one first, and read from two digits in that order.
pub proof fn law_two_digits_for_each_byte(data: Seq<u8>, s: Seq<char>, i: int)
    requires
        0 <= i,
        is_hex(s),
    ensures
        hex_text(data).len() == 2 * data.len(),
        i < data.len() ==> hex_text(data)[2 * i] == hex_digit(data[i] as int / 16),
        i < data.len() ==> hex_text(data)[2 * i + 1] == hex_digit(data[i] as int % 16),
        hex_bytes(s).len() == s.len() / 2,
        i < s.len() / 2 ==> hex_bytes(s)[i] == 16 * hex_value(s[2 * i]) + hex_value(s[2 * i + 1]),
{
    assert((2 * i) / 2 == i && (2 * i) % 2 == 0);
    assert((2 * i + 1) / 2 == i && (2 * i + 1) % 2 == 1);
    if i < s.len() / 2 {
        assert(hex_value(s[2 * i]) >= 0 && hex_value(s[2 * i + 1]) >= 0);
    }
}

/// Hexadecimal is an even number of digits, each one of `0` to `9`, `a` to `f` and `A` to `F`.
pub proof fn law_what_is_hex(s: Seq<char>)
    ensures
        is_hex(s) <==> s.len() % 2 == 0 && forall|i: int|
            0 <= i < s.len() ==> '0' <= #[trigger] s[i] <= '9' || 'a' <= s[i] <= 'f' || 'A' <= s[i]
                <= 'F',
{
    if is_hex(s) {
        assert forall|i: int| 0 <= i < s.len() implies '0' <= #[trigger] s[i] <= '9' || 'a' <= s[i]
            <= 'f' || 'A' <= s[i] <= 'F' by {
            assert(hex_value(s[i]) >= 0);
        }
    }
}

} // verus!
