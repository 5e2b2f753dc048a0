//! Percent-decoding of URL text and strict encoding of query components.

use vstd::prelude::*;
use vstd::string::StringSliceAdditionalSpecFns;
use vstd::utf8::{encode_utf8, is_ascii_chars, is_ascii_chars_encode_utf8};

verus! {

/// Value of an ASCII hexadecimal digit, either case.
pub open spec fn hex_digit_value(c: u8) -> Option<u8> {
    if 0x30 <= c <= 0x39 {
        Some((c - 0x30) as u8)
    } else if 0x61 <= c <= 0x66 {
        Some((c - 0x61 + 10) as u8)
    } else if 0x41 <= c <= 0x46 {
        Some((c - 0x41 + 10) as u8)
    } else {
        None
    }
}

/// The characters that the decoder makes of a byte string: `%XX` becomes the
/// byte `XX`, `+` becomes a space, and every other byte stands for itself.
pub open spec fn percent_decoded(b: Seq<u8>) -> Seq<char>
    decreases b.len(),
{
    if b.len() == 0 {
        Seq::empty()
    } else if b[0] == 0x25u8 && b.len() > 2 && hex_digit_value(b[1]) is Some
        && hex_digit_value(b[2]) is Some {
        seq![((hex_digit_value(b[1])->0 * 16 + hex_digit_value(b[2])->0) as u8) as char]
            + percent_decoded(b.subrange(3, b.len() as int))
    } else if b[0] == 0x2bu8 {
        seq![' '] + percent_decoded(b.drop_first())
    } else {
        seq![b[0] as char] + percent_decoded(b.drop_first())
    }
}

/// Returns the value of `c` as a hexadecimal digit.
pub fn hex(c: u8) -> (r: Option<u8>)
    ensures
        r == hex_digit_value(c),
{
    if 0x30u8 <= c && c <= 0x39u8 {
        Some(c - 0x30u8)
    } else if 0x61u8 <= c && c <= 0x66u8 {
        Some(10 + (c - 0x61u8))
    } else if 0x41u8 <= c && c <= 0x46u8 {
        Some(10 + (c - 0x41u8))
    } else {
        None
    }
}

/// Relies on `String::push`: the character is appended at the end.
#[verifier::external_body]
pub(crate) fn push_char(s: &mut String, c: char)
    ensures
        final(s)@ == old(s)@.push(c),
{
    s.push(c)
}

/// Decodes `%XX` triplets and `+`; a `%` without two hex digits after it is kept.
pub fn percent_decode(input: &str) -> (r: String)
    ensures
        r@ == percent_decoded(input.spec_bytes()),
{
    let bytes = input.as_bytes();
    assert(bytes@.subrange(0, bytes@.len() as int) =~= bytes@);
    percent_decode_range(bytes, 0, bytes.len())
}

/// Decodes the bytes `lo..hi` of `bytes` as `percent_decode` does.
pub fn percent_decode_range(bytes: &[u8], lo: usize, hi: usize) -> (r: String)
    requires
        lo <= hi <= bytes@.len(),
    ensures
        r@ == percent_decoded(bytes@.subrange(lo as int, hi as int)),
{
    let mut out = String::new();
    let mut i: usize = lo;
    let ghost whole = bytes@.subrange(lo as int, hi as int);
    assert(out@ + percent_decoded(whole) =~= percent_decoded(whole));
    while i < hi
        invariant
            hi <= bytes@.len(),
            lo <= i <= hi,
            whole == bytes@.subrange(lo as int, hi as int),
            out@ + percent_decoded(bytes@.subrange(i as int, hi as int)) == percent_decoded(whole),
        decreases hi - i,
    {
        let ghost rest = bytes@.subrange(i as int, hi as int);
        let c = bytes[i];
        let mut done = false;
        if c == 0x25u8 && hi - i > 2 {
            let hv = hex(bytes[i + 1]);
            let lv = hex(bytes[i + 2]);
            if let (Some(h), Some(l)) = (hv, lv) {
                assert(rest.subrange(3, rest.len() as int) =~= bytes@.subrange(i + 3, hi as int));
                let v: u8 = h * 16 + l;
                push_char(&mut out, v as char);
                i = i + 3;
                done = true;
            }
        }
        if !done {
            assert(rest.drop_first() =~= bytes@.subrange(i + 1, hi as int));
            if c == 0x2bu8 {
                push_char(&mut out, ' ');
            } else {
                push_char(&mut out, c as char);
            }
            i = i + 1;
        }
        assert(out@ + percent_decoded(bytes@.subrange(i as int, hi as int)) =~= percent_decoded(
            whole,
        ));
    }
    assert(bytes@.subrange(hi as int, hi as int) =~= Seq::<u8>::empty());
    assert(out@ + Seq::<char>::empty() =~= out@);
    out
}

/// Bytes that the component encoder lets through: ASCII letters and digits and `-_.~`.
pub open spec fn is_unreserved(c: u8) -> bool {
    (0x30 <= c <= 0x39) || (0x41 <= c <= 0x5a) || (0x61 <= c <= 0x7a) || c == 0x2d || c == 0x5f
        || c == 0x2e || c == 0x7e
}

/// Upper-case hexadecimal digit of a value below sixteen.
pub open spec fn upper_hex_digit(v: u8) -> char {
    if v < 10 {
        (0x30 + v) as u8 as char
    } else {
        (0x41 + v - 10) as u8 as char
    }
}

/// What the encoder writes for one byte.
pub open spec fn encoded_byte(c: u8) -> Seq<char> {
    if is_unreserved(c) {
        seq![c as char]
    } else {
        seq!['%', upper_hex_digit(c / 16), upper_hex_digit(c % 16)]
    }
}

/// What the encoder writes for a byte string.
pub open spec fn component_encoded(b: Seq<u8>) -> Seq<char>
    decreases b.len(),
{
    if b.len() == 0 {
        Seq::empty()
    } else {
        encoded_byte(b[0]) + component_encoded(b.drop_first())
    }
}

fn upper_hex(v: u8) -> (r: char)
    requires
        v < 16,
    ensures
        r == upper_hex_digit(v),
{
    if v < 10 {
        (0x30u8 + v) as char
    } else {
        (0x41u8 + v - 10) as char
    }
}

fn unreserved(c: u8) -> (r: bool)
    ensures
        r == is_unreserved(c),
{
    (0x30u8 <= c && c <= 0x39u8) || (0x41u8 <= c && c <= 0x5au8) || (0x61u8 <= c && c <= 0x7au8)
        || c == 0x2du8 || c == 0x5fu8 || c == 0x2eu8 || c == 0x7eu8
}

/// Encodes text for a query component: unreserved bytes stay, every other byte
/// becomes `%XX` with upper-case hex digits.
pub fn encode_component(s: &str) -> (r: String)
    ensures
        r@ == component_encoded(s.spec_bytes()),
{
    let bytes = s.as_bytes();
    let n = bytes.len();
    let mut out = String::new();
    let mut i: usize = 0;
    assert(bytes@.subrange(0, n as int) =~= bytes@);
    assert(out@ + component_encoded(bytes@) =~= component_encoded(bytes@));
    while i < n
        invariant
            n == bytes@.len(),
            bytes@ == s.spec_bytes(),
            i <= n,
            out@ + component_encoded(bytes@.subrange(i as int, n as int)) == component_encoded(
                bytes@,
            ),
        decreases n - i,
    {
        let c = bytes[i];
        assert(bytes@.subrange(i as int, n as int).drop_first() =~= bytes@.subrange(
            i + 1,
            n as int,
        ));
        if unreserved(c) {
            push_char(&mut out, c as char);
        } else {
            push_char(&mut out, '%');
            push_char(&mut out, upper_hex(c / 16));
            push_char(&mut out, upper_hex(c % 16));
        }
        i = i + 1;
        assert(out@ + component_encoded(bytes@.subrange(i as int, n as int)) =~= component_encoded(
            bytes@,
        ));
    }
    assert(bytes@.subrange(n as int, n as int) =~= Seq::<u8>::empty());
    assert(out@ + Seq::<char>::empty() =~= out@);
    out
}

/// The bytes of a sequence of characters below 256, one byte each.
pub open spec fn byte_chars(b: Seq<u8>) -> Seq<char> {
    Seq::new(b.len(), |i: int| b[i] as char)
}

/// The byte values of a sequence of characters, one byte each.
pub open spec fn char_bytes(cs: Seq<char>) -> Seq<u8> {
    Seq::new(cs.len(), |i: int| cs[i] as u8)
}

proof fn lemma_encoded_is_ascii(b: Seq<u8>)
    ensures
        is_ascii_chars(component_encoded(b)),
    decreases b.len(),
{
    if b.len() > 0 {
        lemma_encoded_is_ascii(b.drop_first());
        let e = encoded_byte(b[0]);
        let r = component_encoded(b.drop_first());
        assert(component_encoded(b) == e + r);
        assert forall|i| 0 <= i < (e + r).len() implies '\0' <= #[trigger] (e + r)[i] <= '\u{7f}' by {
            if i >= e.len() {
                assert((e + r)[i] == r[i - e.len()]);
            }
        }
    }
}

proof fn lemma_decode_encoded_bytes(b: Seq<u8>)
    ensures
        percent_decoded(char_bytes(component_encoded(b))) == byte_chars(b),
    decreases b.len(),
{
    if b.len() == 0 {
        assert(char_bytes(component_encoded(b)) =~= Seq::<u8>::empty());
        assert(byte_chars(b) =~= Seq::<char>::empty());
    } else {
        let c = b[0];
        let e = encoded_byte(c);
        let rest = component_encoded(b.drop_first());
        lemma_decode_encoded_bytes(b.drop_first());
        let all = char_bytes(e + rest);
        assert(char_bytes(component_encoded(b)) == all);
        assert(byte_chars(b) =~= seq![c as char] + byte_chars(b.drop_first()));
        if is_unreserved(c) {
            assert(all =~= seq![c] + char_bytes(rest));
            assert(all.drop_first() =~= char_bytes(rest));
        } else {
            let hi = c / 16;
            let lo = c % 16;
            assert(all =~= seq![0x25u8, upper_hex_digit(hi) as u8, upper_hex_digit(lo) as u8]
                + char_bytes(rest));
            assert(all.subrange(3, all.len() as int) =~= char_bytes(rest));
            assert(hex_digit_value(all[1]) == Some(hi));
            assert(hex_digit_value(all[2]) == Some(lo));
        }
    }
}

/// Decoding undoes the component encoder on printable ASCII text:
/// `percent_decode(encode_component(s)) == s`.
pub proof fn lemma_decode_inverts_encode(s: Seq<char>)
    requires
        forall|i| 0 <= i < s.len() ==> ' ' <= #[trigger] s[i] <= '~',
    ensures
        percent_decoded(encode_utf8(component_encoded(encode_utf8(s)))) == s,
{
    assert(is_ascii_chars(s));
    is_ascii_chars_encode_utf8(s);
    let b = encode_utf8(s);
    assert(b =~= char_bytes(s));
    lemma_encoded_is_ascii(b);
    is_ascii_chars_encode_utf8(component_encoded(b));
    assert(encode_utf8(component_encoded(b)) =~= char_bytes(component_encoded(b)));
    lemma_decode_encoded_bytes(b);
    assert(byte_chars(b) =~= s);
}

} // verus!
