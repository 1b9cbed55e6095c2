//! Lossy UTF-8 decoding of raw entry-name bytes.
//!
//! The operating system reports a file name as raw bytes, and those bytes
//! need not be valid UTF-8. A name is decoded front to back: wherever a
//! well-formed UTF-8 scalar encoding begins, it becomes the character it
//! encodes; where none begins, the maximal subpart of the ill-formed
//! sequence — the longest prefix of a well-formed encoding, at least one
//! byte — becomes one Unicode replacement character, as std's lossy decoding
//! substitutes. Decoding is total, so no name can make a listing fail.

use vstd::prelude::*;
use vstd::utf8::char_u32_cast;
use vstd::utf8::decode_first_scalar;
use vstd::utf8::decode_utf8;
use vstd::utf8::is_continuation_byte;
use vstd::utf8::is_scalar;
use vstd::utf8::length_of_first_scalar;
use vstd::utf8::pop_first_scalar;
use vstd::utf8::valid_first_scalar;
use vstd::utf8::valid_utf8;

verus! {

/// The character substituted for each maximal subpart of an ill-formed
/// sequence.
pub open spec fn replacement() -> char {
    '\u{fffd}'
}

/// The range allowed for the byte after the given lead byte in a well-formed
/// encoding: the plain continuation range, narrowed for the leads 0xe0, 0xed,
/// 0xf0 and 0xf4 so that no overlong encoding, no surrogate and no value
/// beyond the last scalar ever begins.
pub open spec fn valid_second_byte(b0: u8, b1: u8) -> bool {
    if b0 == 0xe0 {
        0xa0 <= b1 <= 0xbf
    } else if b0 == 0xed {
        0x80 <= b1 <= 0x9f
    } else if b0 == 0xf0 {
        0x90 <= b1 <= 0xbf
    } else if b0 == 0xf4 {
        0x80 <= b1 <= 0x8f
    } else {
        0x80 <= b1 <= 0xbf
    }
}

/// How many bytes the maximal subpart at the front takes, where no
/// well-formed scalar encoding begins: the longest prefix of a well-formed
/// encoding — a three- or four-byte lead with its allowed second byte, plus
/// one continuation byte for a four-byte lead — and a single byte where not
/// even that much is present. One replacement character stands for the whole
/// subpart.
pub open spec fn maximal_subpart_len(bytes: Seq<u8>) -> int
    recommends
        bytes.len() > 0,
        !valid_first_scalar(bytes),
{
    let b0 = bytes[0];
    if b0 < 0xe0 || 0xf4 < b0 {
        1
    } else if bytes.len() < 2 || !valid_second_byte(b0, bytes[1]) {
        1
    } else if b0 < 0xf0 {
        2
    } else if bytes.len() < 3 || !is_continuation_byte(bytes[2]) {
        2
    } else {
        3
    }
}

/// The text that a sequence of raw name bytes decodes to: each well-formed
/// UTF-8 scalar encoding becomes its character, and each maximal subpart of
/// an ill-formed sequence becomes one replacement character.
pub open spec fn lossy_decode(bytes: Seq<u8>) -> Seq<char>
    decreases bytes.len(),
{
    if bytes.len() == 0 {
        seq![]
    } else if valid_first_scalar(bytes) {
        seq![decode_first_scalar(bytes) as char] + lossy_decode(pop_first_scalar(bytes))
    } else {
        seq![replacement()] + lossy_decode(bytes.skip(maximal_subpart_len(bytes)))
    }
}

/// What reading one scalar encoding at the front of `tail` reports: either
/// the first scalar's value and the width in bytes of its encoding, or that
/// no well-formed scalar encoding begins there.
spec fn first_scalar_report(tail: Seq<u8>, r: Option<(u32, usize)>) -> bool {
    match r {
        Some(p) => {
            &&& valid_first_scalar(tail)
            &&& p.0 == decode_first_scalar(tail)
            &&& is_scalar(p.0)
            &&& p.1 == length_of_first_scalar(tail)
            &&& 1 <= p.1 <= tail.len()
        },
        None => !valid_first_scalar(tail),
    }
}

/// Reads the UTF-8 scalar encoding that begins at position `i` of `bytes`,
/// if a well-formed one begins there.
fn decode_first(bytes: &Vec<u8>, i: usize) -> (r: Option<(u32, usize)>)
    requires
        i < bytes@.len(),
    ensures
        first_scalar_report(bytes@.skip(i as int), r),
{
    let n = bytes.len();
    let rem = n - i;
    let b0 = bytes[i];
    let ghost tail = bytes@.skip(i as int);
    proof {
        assert(tail.len() == n - i);
        assert(tail[0] == b0);
    }
    if b0 < 0x80 {
        let v: u32 = b0 as u32;
        proof {
            assert(b0 & 0x7f == b0) by (bit_vector)
                requires
                    b0 < 0x80,
            ;
        }
        Some((v, 1))
    } else if b0 < 0xc0 {
        // a continuation byte cannot begin a scalar encoding
        None
    } else if b0 < 0xe0 {
        if rem < 2 {
            return None;
        }
        let b1 = bytes[i + 1];
        proof {
            assert(tail[1] == b1);
        }
        if b1 < 0x80 || 0xbf < b1 {
            return None;
        }
        let v: u32 = (((b0 & 0x1f) as u32) << 6) | ((b1 & 0x3f) as u32);
        if v < 0x80 {
            // overlong encoding
            return None;
        }
        proof {
            assert(v <= 0x7ff) by (bit_vector)
                requires
                    v == (((b0 & 0x1f) as u32) << 6) | ((b1 & 0x3f) as u32),
            ;
        }
        Some((v, 2))
    } else if b0 < 0xf0 {
        if rem < 3 {
            return None;
        }
        let b1 = bytes[i + 1];
        let b2 = bytes[i + 2];
        proof {
            assert(tail[1] == b1);
            assert(tail[2] == b2);
        }
        if b1 < 0x80 || 0xbf < b1 {
            return None;
        }
        if b2 < 0x80 || 0xbf < b2 {
            return None;
        }
        let v: u32 = (((b0 & 0x0f) as u32) << 12) | (((b1 & 0x3f) as u32) << 6) | ((b2
            & 0x3f) as u32);
        if v < 0x800 {
            // overlong encoding
            return None;
        }
        if 0xd800 <= v && v <= 0xdfff {
            // surrogate range
            return None;
        }
        proof {
            assert(v <= 0xffff) by (bit_vector)
                requires
                    v == (((b0 & 0x0f) as u32) << 12) | (((b1 & 0x3f) as u32) << 6) | ((b2
                        & 0x3f) as u32),
            ;
        }
        Some((v, 3))
    } else if b0 < 0xf8 {
        if rem < 4 {
            return None;
        }
        let b1 = bytes[i + 1];
        let b2 = bytes[i + 2];
        let b3 = bytes[i + 3];
        proof {
            assert(tail[1] == b1);
            assert(tail[2] == b2);
            assert(tail[3] == b3);
        }
        if b1 < 0x80 || 0xbf < b1 {
            return None;
        }
        if b2 < 0x80 || 0xbf < b2 {
            return None;
        }
        if b3 < 0x80 || 0xbf < b3 {
            return None;
        }
        let v: u32 = (((b0 & 0x07) as u32) << 18) | (((b1 & 0x3f) as u32) << 12) | (((b2
            & 0x3f) as u32) << 6) | ((b3 & 0x3f) as u32);
        if v < 0x10000 || 0x10ffff < v {
            // overlong encoding, or beyond the last Unicode scalar
            return None;
        }
        Some((v, 4))
    } else {
        None
    }
}

/// Measures the maximal subpart at position `i` of `bytes`, where no
/// well-formed scalar encoding begins there.
fn invalid_len(bytes: &Vec<u8>, i: usize) -> (l: usize)
    requires
        i < bytes@.len(),
        !valid_first_scalar(bytes@.skip(i as int)),
    ensures
        l == maximal_subpart_len(bytes@.skip(i as int)),
        1 <= l && i + l <= bytes@.len(),
{
    let n = bytes.len();
    let rem = n - i;
    let b0 = bytes[i];
    let ghost tail = bytes@.skip(i as int);
    proof {
        assert(tail.len() == n - i);
        assert(tail[0] == b0);
    }
    if b0 < 0xe0 || 0xf4 < b0 {
        // at most the lead byte itself: a two-byte lead followed by a
        // continuation byte would have been a well-formed encoding, and the
        // remaining values can begin none
        return 1;
    }
    if rem < 2 {
        return 1;
    }
    let b1 = bytes[i + 1];
    proof {
        assert(tail[1] == b1);
    }
    let second_ok = if b0 == 0xe0 {
        0xa0 <= b1 && b1 <= 0xbf
    } else if b0 == 0xed {
        0x80 <= b1 && b1 <= 0x9f
    } else if b0 == 0xf0 {
        0x90 <= b1 && b1 <= 0xbf
    } else if b0 == 0xf4 {
        0x80 <= b1 && b1 <= 0x8f
    } else {
        0x80 <= b1 && b1 <= 0xbf
    };
    if !second_ok {
        return 1;
    }
    if b0 < 0xf0 {
        return 2;
    }
    if rem < 3 {
        return 2;
    }
    let b2 = bytes[i + 2];
    proof {
        assert(tail[2] == b2);
    }
    if 0x80 <= b2 && b2 <= 0xbf {
        3
    } else {
        2
    }
}

/// Relies on `char::from_u32`: for every Unicode scalar value it returns
/// `Some` of the character with exactly that value.
#[verifier::external_body]
fn char_from_scalar(v: u32) -> (c: char)
    requires
        is_scalar(v),
    ensures
        c as u32 == v,
{
    char::from_u32(v).unwrap()
}

/// Relies on `String::from_iter`: the built string holds exactly the given
/// characters, in order.
#[verifier::external_body]
fn string_from_chars(chars: Vec<char>) -> (s: String)
    ensures
        s@ == chars@,
{
    String::from_iter(chars)
}

/// Decodes raw name bytes into text, substituting one replacement character
/// for each maximal subpart of an ill-formed sequence.
pub fn lossy_string(bytes: &Vec<u8>) -> (s: String)
    ensures
        s@ == lossy_decode(bytes@),
{
    let mut chars: Vec<char> = Vec::new();
    let mut i: usize = 0;
    proof {
        assert(bytes@.skip(0) =~= bytes@);
        assert(chars@ + lossy_decode(bytes@) =~= lossy_decode(bytes@));
    }
    while i < bytes.len()
        invariant
            i <= bytes@.len(),
            lossy_decode(bytes@) == chars@ + lossy_decode(bytes@.skip(i as int)),
        decreases bytes@.len() - i,
    {
        let ghost tail = bytes@.skip(i as int);
        let ghost prev = chars@;
        match decode_first(bytes, i) {
            Some((v, width)) => {
                let c = char_from_scalar(v);
                chars.push(c);
                proof {
                    char_u32_cast(c, v);
                    assert(pop_first_scalar(tail) =~= bytes@.skip(i + width));
                    assert(lossy_decode(tail) == seq![c] + lossy_decode(bytes@.skip(i + width)));
                    assert(chars@ + lossy_decode(bytes@.skip(i + width)) =~= prev + lossy_decode(
                        tail,
                    ));
                }
                i += width;
            },
            None => {
                let l = invalid_len(bytes, i);
                chars.push('\u{fffd}');
                proof {
                    assert(tail.skip(maximal_subpart_len(tail)) =~= bytes@.skip(i + l));
                    assert(lossy_decode(tail) == seq![replacement()] + lossy_decode(
                        bytes@.skip(i + l),
                    ));
                    assert(chars@ + lossy_decode(bytes@.skip(i + l)) =~= prev + lossy_decode(tail));
                }
                i += l;
            },
        }
    }
    proof {
        assert(bytes@.skip(i as int) =~= Seq::<u8>::empty());
        assert(chars@ + lossy_decode(bytes@.skip(i as int)) =~= chars@);
    }
    string_from_chars(chars)
}

/// On well-formed UTF-8 the lossy decoding is exact: nothing is substituted,
/// and the result is precisely the character sequence the bytes encode.
pub proof fn lemma_lossy_decode_exact_on_valid(bytes: Seq<u8>)
    requires
        valid_utf8(bytes),
    ensures
        lossy_decode(bytes) == decode_utf8(bytes),
    decreases bytes.len(),
{
    if bytes.len() == 0 {
        assert(lossy_decode(bytes) =~= decode_utf8(bytes));
    } else {
        lemma_lossy_decode_exact_on_valid(pop_first_scalar(bytes));
    }
}

/// Lossy decoding is total and loses no name: a non-empty name decodes to at
/// least one character, and never to more characters than it has bytes.
pub proof fn lemma_lossy_decode_len(bytes: Seq<u8>)
    ensures
        lossy_decode(bytes).len() <= bytes.len(),
        bytes.len() > 0 ==> lossy_decode(bytes).len() > 0,
    decreases bytes.len(),
{
    if bytes.len() == 0 {
    } else if valid_first_scalar(bytes) {
        lemma_lossy_decode_len(pop_first_scalar(bytes));
    } else {
        lemma_lossy_decode_len(bytes.skip(maximal_subpart_len(bytes)));
    }
}

} // verus!
