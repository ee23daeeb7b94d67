use percent_encoding::{utf8_percent_encode, NON_ALPHANUMERIC};
use vstd::prelude::*;
use vstd::utf8::encode_utf8;

verus! {

/// An ASCII letter or digit: the only bytes that a key segment keeps as they are.
pub open spec fn is_alnum(b: u8) -> bool {
    (48 <= b <= 57) || (65 <= b <= 90) || (97 <= b <= 122)
}

/// The upper-case hexadecimal digit of a value below sixteen.
pub open spec fn hex_digit(n: u8) -> u8 {
    if n < 10 {
        (48 + n) as u8
    } else {
        (55 + n) as u8
    }
}

/// What one byte becomes in a key segment.
pub open spec fn escape_byte(b: u8) -> Seq<u8> {
    if is_alnum(b) {
        seq![b]
    } else {
        seq![37u8, hex_digit(b / 16), hex_digit(b % 16)]
    }
}

/// The percent-encoding of a byte string: each byte that is not an ASCII
/// letter or digit becomes `%` followed by two upper-case hex digits.
pub open spec fn percent_encoded(s: Seq<u8>) -> Seq<u8>
    decreases s.len(),
{
    if s.len() == 0 {
        Seq::empty()
    } else {
        escape_byte(s[0]) + percent_encoded(s.drop_first())
    }
}

/// The value of a hexadecimal digit (either case).
pub open spec fn hex_value_spec(d: u8) -> u8 {
    if d <= 57 {
        (d - 48) as u8
    } else if d <= 70 {
        (d - 55) as u8
    } else {
        (d - 87) as u8
    }
}

/// What a server reads back from a percent-encoded byte string: each `%`
/// followed by two more bytes stands for the byte those two digits spell.
pub open spec fn percent_decoded(s: Seq<u8>) -> Seq<u8>
    decreases s.len(),
{
    if s.len() == 0 {
        Seq::empty()
    } else if s[0] == 37 && s.len() >= 3 {
        seq![(hex_value_spec(s[1]) * 16 + hex_value_spec(s[2])) as u8] + percent_decoded(
            s.subrange(3, s.len() as int),
        )
    } else {
        seq![s[0]] + percent_decoded(s.drop_first())
    }
}

/// A byte string read as characters, one per byte.
pub open spec fn ascii_chars(b: Seq<u8>) -> Seq<char> {
    Seq::new(b.len(), |i: int| b[i] as char)
}

/// The path segment that stands for a key in a fetch request.
pub open spec fn key_segment(key: Seq<char>) -> Seq<char> {
    ascii_chars(percent_encoded(encode_utf8(key)))
}

/// Relies on percent_encoding::utf8_percent_encode with NON_ALPHANUMERIC: each
/// byte of the key's UTF-8 form that is not an ASCII letter or digit is written
/// as `%` and two upper-case hex digits, the others are kept.
#[verifier::external_body]
fn percent_encode_str(key: &str) -> (r: String)
    ensures
        r@ == ascii_chars(percent_encoded(encode_utf8(key@))),
{
    utf8_percent_encode(key, NON_ALPHANUMERIC).to_string()
}

/// The key as it stands in the path of a fetch request.
pub fn encode_key(key: &str) -> (r: String)
    ensures
        r@ == key_segment(key@),
{
    percent_encode_str(key)
}

proof fn lemma_decode_escape(b: u8, t: Seq<u8>)
    ensures
        percent_decoded(escape_byte(b) + t) == seq![b] + percent_decoded(t),
{
    let s = escape_byte(b) + t;
    if is_alnum(b) {
        assert(s.drop_first() =~= t);
    } else {
        assert(s.subrange(3, s.len() as int) =~= t);
        assert(s[1] == hex_digit(b / 16));
        assert(s[2] == hex_digit(b % 16));
        assert(hex_value_spec(hex_digit(b / 16)) == b / 16);
        assert(hex_value_spec(hex_digit(b % 16)) == b % 16);
    }
}

/// Decoding the encoding of any byte string gives the byte string back: the
/// server sees exactly the key's bytes.
pub proof fn lemma_decode_encode(s: Seq<u8>)
    ensures
        percent_decoded(percent_encoded(s)) == s,
    decreases s.len(),
{
    if s.len() > 0 {
        lemma_decode_encode(s.drop_first());
        lemma_decode_escape(s[0], percent_encoded(s.drop_first()));
        assert(seq![s[0]] + s.drop_first() =~= s);
    }
}

/// Every byte of an encoding is an ASCII letter, a digit or `%`: no `/`, space,
/// control or non-ASCII byte reaches a request path.
pub proof fn lemma_encoded_is_plain(s: Seq<u8>)
    ensures
        forall|i: int|
            0 <= i < percent_encoded(s).len() ==> #[trigger] is_alnum(percent_encoded(s)[i])
                || percent_encoded(s)[i] == 37u8,
    decreases s.len(),
{
    if s.len() > 0 {
        lemma_encoded_is_plain(s.drop_first());
        let e = escape_byte(s[0]);
        let rest = percent_encoded(s.drop_first());
        assert(percent_encoded(s) == e + rest);
        assert forall|i: int| 0 <= i < percent_encoded(s).len() implies #[trigger] is_alnum(
            percent_encoded(s)[i],
        ) || percent_encoded(s)[i] == 37u8 by {
            if i >= e.len() {
                assert(percent_encoded(s)[i] == rest[i - e.len()]);
            }
        }
    }
}

} // verus!
