//! Percent-encoding, by `urlencoding`.
use vstd::prelude::*;
use vstd::utf8::{decode_utf8, encode_utf8, valid_utf8};

verus! {

/// A byte that stands for itself in a URL.
pub open spec fn is_unreserved(b: u8) -> bool {
    ||| 48 <= b <= 57
    ||| 65 <= b <= 90
    ||| 97 <= b <= 122
    ||| b == 45
    ||| b == 46
    ||| b == 95
    ||| b == 126
}

/// The hexadecimal digit for `d`, in upper case.
pub open spec fn upper_hex(d: u8) -> u8 {
    if d < 10 {
        (48 + d) as u8
    } else {
        (55 + d) as u8
    }
}

/// What a hexadecimal digit of either case stands for.
pub open spec fn hex_value(b: u8) -> Option<u8> {
    if 48 <= b <= 57 {
        Some((b - 48) as u8)
    } else if 65 <= b <= 70 {
        Some((b - 55) as u8)
    } else if 97 <= b <= 102 {
        Some((b - 87) as u8)
    } else {
        None
    }
}

/// `bytes` with every byte that does not stand for itself as a percent sign
/// and two hexadecimal digits.
pub open spec fn percent_encoded(bytes: Seq<u8>) -> Seq<u8>
    decreases bytes.len(),
{
    if bytes.len() == 0 {
        Seq::empty()
    } else if is_unreserved(bytes[0]) {
        seq![bytes[0]] + percent_encoded(bytes.skip(1))
    } else {
        seq![37u8, upper_hex((bytes[0] / 16) as u8), upper_hex((bytes[0] % 16) as u8)]
            + percent_encoded(bytes.skip(1))
    }
}

/// `bytes` with every percent sign that two hexadecimal digits follow, and
/// those digits, as the byte they stand for.
pub open spec fn percent_decoded(bytes: Seq<u8>) -> Seq<u8>
    decreases bytes.len(),
{
    if bytes.len() == 0 {
        Seq::empty()
    } else if bytes[0] == 37 && bytes.len() >= 3 && hex_value(bytes[1]) is Some && hex_value(
        bytes[2],
    ) is Some {
        seq![(hex_value(bytes[1])->0 * 16 + hex_value(bytes[2])->0) as u8] + percent_decoded(
            bytes.skip(3),
        )
    } else {
        seq![bytes[0]] + percent_decoded(bytes.skip(1))
    }
}

/// A text in a URL.
pub open spec fn url_encoded(s: Seq<char>) -> Seq<char> {
    decode_utf8(percent_encoded(encode_utf8(s)))
}

/// A text from a URL, if what it spells is UTF-8.
pub open spec fn url_decoded(s: Seq<char>) -> Option<Seq<char>> {
    let bytes = percent_decoded(encode_utf8(s));
    if valid_utf8(bytes) {
        Some(decode_utf8(bytes))
    } else {
        None
    }
}

/// `urlencoding::encode` leaves the ASCII letters and digits and `-`, `_`,
/// `.`, `~` as they are, and writes every other byte of the text's UTF-8 as a
/// percent sign and two hexadecimal digits in upper case.
#[verifier::external_body]
pub(crate) fn encode(s: &str) -> (r: String)
    ensures
        r@ == url_encoded(s@),
{
    urlencoding::encode(s).into_owned()
}

/// `urlencoding::decode` turns a percent sign and two hexadecimal digits of
/// either case into the byte they stand for, leaves everything else as it is,
/// and fails where the bytes are then not UTF-8.
#[verifier::external_body]
pub(crate) fn decode(s: &str) -> (r: Option<String>)
    ensures
        match r {
            Some(t) => url_decoded(s@) == Some(t@),
            None => url_decoded(s@) is None,
        },
{
    match urlencoding::decode(s) {
        Ok(t) => Some(t.into_owned()),
        Err(_) => None,
    }
}

/// What was encoded decodes to itself.
pub proof fn law_encoding_reads_back(s: Seq<char>)
    ensures
        url_decoded(url_encoded(s)) == Some(s),
{
    broadcast use {
        vstd::utf8::encode_utf8_valid_utf8,
        vstd::utf8::encode_utf8_decode_utf8,
        vstd::utf8::decode_utf8_encode_utf8,
    };

    let bytes = encode_utf8(s);
    lemma_encoded_is_valid(bytes);
    lemma_decoded_encoded(bytes);
}

proof fn lemma_ascii_is_valid(bytes: Seq<u8>)
    requires
        forall|i: int| 0 <= i < bytes.len() ==> (#[trigger] bytes[i]) < 128,
    ensures
        valid_utf8(bytes),
    decreases bytes.len(),
{
    if bytes.len() > 0 {
        let b = bytes[0];
        assert(b < 128);
        assert((b & 0x7f) as u32 == b) by (bit_vector)
            requires
                b < 128,
        ;
        let rest = vstd::utf8::pop_first_scalar(bytes);
        assert(rest =~= bytes.skip(1));
        assert forall|i: int| 0 <= i < rest.len() implies (#[trigger] rest[i]) < 128 by {
            assert(rest[i] == bytes[i + 1]);
        }
        lemma_ascii_is_valid(rest);
    }
}

proof fn lemma_encoded_is_valid(bytes: Seq<u8>)
    ensures
        valid_utf8(percent_encoded(bytes)),
{
    lemma_encoded_is_ascii(bytes);
    lemma_ascii_is_valid(percent_encoded(bytes));
}

proof fn lemma_encoded_is_ascii(bytes: Seq<u8>)
    ensures
        forall|i: int|
            0 <= i < percent_encoded(bytes).len() ==> (#[trigger] percent_encoded(bytes)[i]) < 128,
    decreases bytes.len(),
{
    if bytes.len() > 0 {
        let rest = percent_encoded(bytes.skip(1));
        let all = percent_encoded(bytes);
        lemma_encoded_is_ascii(bytes.skip(1));
        assert forall|i: int| 0 <= i < all.len() implies (#[trigger] all[i]) < 128 by {
            let head = all.len() - rest.len();
            if i >= head {
                assert(all[i] == rest[i - head]);
            }
        }
    }
}

proof fn lemma_decoded_encoded(bytes: Seq<u8>)
    ensures
        percent_decoded(percent_encoded(bytes)) == bytes,
    decreases bytes.len(),
{
    if bytes.len() > 0 {
        let b = bytes[0];
        let rest = percent_encoded(bytes.skip(1));
        let all = percent_encoded(bytes);
        lemma_decoded_encoded(bytes.skip(1));
        if is_unreserved(b) {
            assert(all[0] == b && all.skip(1) == rest);
        } else {
            assert(all[0] == 37 && all.skip(3) == rest);
            let hi = (b / 16) as u8;
            let lo = (b % 16) as u8;
            assert(all[1] == upper_hex(hi) && all[2] == upper_hex(lo));
            assert(hex_value(all[1]) == Some(hi));
            assert(hex_value(all[2]) == Some(lo));
            assert(hi * 16 + lo == b);
        }
        assert(bytes == seq![b] + bytes.skip(1));
    } else {
        assert(percent_decoded(percent_encoded(bytes)) == bytes);
    }
}

/// An encoded text holds letters, digits, `-`, `.`, `_` and `~` as they are,
/// and percent signs with two hexadecimal digits for all else.
pub proof fn law_encoding_is_bytewise(b: u8, rest: Seq<u8>)
    ensures
        percent_encoded(Seq::<u8>::empty()).len() == 0,
        percent_encoded(seq![b] + rest) == percent_encoded(seq![b]) + percent_encoded(rest),
        (48 <= b <= 57 || 65 <= b <= 90 || 97 <= b <= 122 || b == 45 || b == 46 || b == 95 || b
            == 126) ==> percent_encoded(seq![b]) == seq![b],
        !(48 <= b <= 57 || 65 <= b <= 90 || 97 <= b <= 122 || b == 45 || b == 46 || b == 95 || b
            == 126) ==> percent_encoded(seq![b]).len() == 3 && percent_encoded(seq![b])[0] == 37,
{
    let s = seq![b] + rest;
    assert(s.skip(1) =~= rest);
    assert(seq![b].skip(1) =~= Seq::<u8>::empty());
    assert(s[0] == b);
    let e = percent_encoded(Seq::<u8>::empty());
    assert(e =~= Seq::<u8>::empty());
    assert(percent_encoded(s) =~= percent_encoded(seq![b]) + percent_encoded(rest));
}

/// A percent sign with two hexadecimal digits, in either case, stands for the
/// byte that they give; every other byte stands for itself.
pub proof fn law_decoding_is_bytewise(b: u8, rest: Seq<u8>)
    ensures
        percent_decoded(Seq::<u8>::empty()).len() == 0,
        b != 37 ==> percent_decoded(seq![b] + rest) == seq![b] + percent_decoded(rest),
        rest.len() < 2 ==> percent_decoded(seq![37u8] + rest) == seq![37u8] + percent_decoded(rest),
        rest.len() >= 2 && 48 <= rest[0] <= 57 && 48 <= rest[1] <= 57 ==> percent_decoded(
            seq![37u8] + rest,
        ) == seq![((rest[0] - 48) * 16 + (rest[1] - 48)) as u8] + percent_decoded(rest.skip(2)),
        rest.len() >= 2 && 48 <= rest[0] <= 57 && 65 <= rest[1] <= 70 ==> percent_decoded(
            seq![37u8] + rest,
        ) == seq![((rest[0] - 48) * 16 + (rest[1] - 55)) as u8] + percent_decoded(rest.skip(2)),
        rest.len() >= 2 && 48 <= rest[0] <= 57 && 97 <= rest[1] <= 102 ==> percent_decoded(
            seq![37u8] + rest,
        ) == seq![((rest[0] - 48) * 16 + (rest[1] - 87)) as u8] + percent_decoded(rest.skip(2)),
        rest.len() >= 2 && hex_value(rest[0]) is None ==> percent_decoded(seq![37u8] + rest)
            == seq![37u8] + percent_decoded(rest),
{
    let s = seq![b] + rest;
    assert(s.skip(1) =~= rest && s[0] == b);
    let t = seq![37u8] + rest;
    assert(t.skip(1) =~= rest && t[0] == 37);
    if rest.len() >= 2 {
        assert(t[1] == rest[0] && t[2] == rest[1]);
        assert(t.skip(3) =~= rest.skip(2));
    }
}

} // verus!
