//! Source text as it arrives: bytes that have to be valid UTF-8 before they
//! are read as text. The check is made here, so that text which is not valid
//! can be reported with the line on which it goes wrong.

use vstd::prelude::*;
use vstd::utf8::*;

verus! {

/// The number of bytes at the beginning of `bytes` that are made of
/// well-formed encodings of scalar values.
pub open spec fn valid_prefix(bytes: Seq<u8>) -> nat
    decreases bytes.len(),
{
    if bytes.len() == 0 || !valid_first_scalar(bytes) {
        0
    } else {
        length_of_first_scalar(bytes) as nat + valid_prefix(pop_first_scalar(bytes))
    }
}

/// The valid prefix is valid, it is the whole text exactly if the text is
/// valid, and otherwise no scalar value is encoded where it ends.
pub proof fn lemma_valid_prefix(bytes: Seq<u8>)
    ensures
        valid_prefix(bytes) <= bytes.len(),
        valid_utf8(bytes.take(valid_prefix(bytes) as int)),
        valid_utf8(bytes) <==> valid_prefix(bytes) == bytes.len(),
        valid_prefix(bytes) < bytes.len() ==> !valid_first_scalar(
            bytes.skip(valid_prefix(bytes) as int),
        ),
    decreases bytes.len(),
{
    if bytes.len() == 0 {
        assert(bytes.take(0) =~= bytes);
    } else if !valid_first_scalar(bytes) {
        assert(bytes.take(0) =~= Seq::<u8>::empty());
        assert(bytes.skip(0) =~= bytes);
    } else {
        let k = length_of_first_scalar(bytes);
        let rest = pop_first_scalar(bytes);
        let n = valid_prefix(rest) as int;
        lemma_valid_prefix(rest);
        let head = bytes.take(k + n);
        assert(valid_first_scalar(head));
        assert(length_of_first_scalar(head) == k);
        assert(pop_first_scalar(head) =~= rest.take(n));
        assert(rest.skip(n) =~= bytes.skip(k + n));
    }
}

/// The number of line feeds among `bytes`.
pub open spec fn line_feeds(bytes: Seq<u8>) -> nat
    decreases bytes.len(),
{
    if bytes.len() == 0 {
        0
    } else {
        line_feeds(bytes.drop_last()) + if bytes.last() == 0x0Au8 {
            1nat
        } else {
            0nat
        }
    }
}

/// The number of bytes that the well-formed encoding of a scalar value
/// takes at `at`, or 0 if none stands there.
pub fn scalar_len(bytes: &[u8], at: usize) -> (k: usize)
    requires
        at < bytes@.len(),
    ensures
        k == if valid_first_scalar(bytes@.skip(at as int)) {
            length_of_first_scalar(bytes@.skip(at as int))
        } else {
            0
        },
        k <= bytes@.len() - at,
{
    let ghost rest = bytes@.skip(at as int);
    let left = bytes.len() - at;
    let b0 = bytes[at];
    assert(rest[0] == b0);
    if b0 <= 0x7f {
        assert((b0 & 0x7F) as u32 <= 0x7F) by (bit_vector);
        1
    } else if 0xc0 <= b0 && b0 <= 0xdf {
        if left < 2 {
            return 0;
        }
        let b1 = bytes[at + 1];
        assert(rest[1] == b1);
        if !(0x80 <= b1 && b1 <= 0xbf) {
            return 0;
        }
        let point: u32 = (((b0 & 0x1F) as u32) << 6) | ((b1 & 0x3f) as u32);
        if 0x80 <= point && !(0xD800 <= point && point <= 0xDFFF) {
            2
        } else {
            0
        }
    } else if 0xe0 <= b0 && b0 <= 0xef {
        if left < 3 {
            return 0;
        }
        let b1 = bytes[at + 1];
        let b2 = bytes[at + 2];
        assert(rest[1] == b1 && rest[2] == b2);
        if !(0x80 <= b1 && b1 <= 0xbf && 0x80 <= b2 && b2 <= 0xbf) {
            return 0;
        }
        let point: u32 = (((b0 & 0x0F) as u32) << 12) | (((b1 & 0x3f) as u32) << 6) | ((b2
            & 0x3f) as u32);
        if 0x800 <= point && !(0xD800 <= point && point <= 0xDFFF) {
            3
        } else {
            0
        }
    } else if 0xf0 <= b0 && b0 <= 0xf7 {
        if left < 4 {
            return 0;
        }
        let b1 = bytes[at + 1];
        let b2 = bytes[at + 2];
        let b3 = bytes[at + 3];
        assert(rest[1] == b1 && rest[2] == b2 && rest[3] == b3);
        if !(0x80 <= b1 && b1 <= 0xbf && 0x80 <= b2 && b2 <= 0xbf && 0x80 <= b3 && b3 <= 0xbf) {
            return 0;
        }
        let point: u32 = (((b0 & 0x07) as u32) << 18) | (((b1 & 0x3f) as u32) << 12) | (((b2
            & 0x3f) as u32) << 6) | ((b3 & 0x3f) as u32);
        if 0x10000 <= point && point <= 0x10ffff && !(0xD800 <= point && point <= 0xDFFF) {
            4
        } else {
            0
        }
    } else {
        0
    }
}

/// The length of the valid prefix of `bytes`: the length of `bytes` if they
/// are valid UTF-8, and else the index of the first byte at which no scalar
/// value is encoded.
pub fn valid_up_to(bytes: &[u8]) -> (n: usize)
    ensures
        n == valid_prefix(bytes@),
        n <= bytes@.len(),
        n == bytes@.len() <==> valid_utf8(bytes@),
{
    let mut i: usize = 0;
    proof {
        assert(bytes@.skip(0) =~= bytes@);
    }
    while i < bytes.len()
        invariant
            i <= bytes@.len(),
            valid_prefix(bytes@) == i + valid_prefix(bytes@.skip(i as int)),
        decreases bytes@.len() - i,
    {
        let k = scalar_len(bytes, i);
        if k == 0 {
            proof {
                lemma_valid_prefix(bytes@);
            }
            return i;
        }
        proof {
            let rest = bytes@.skip(i as int);
            assert(pop_first_scalar(rest) =~= bytes@.skip(i + k));
        }
        i += k;
    }
    proof {
        assert(bytes@.skip(i as int).len() == 0);
        lemma_valid_prefix(bytes@);
    }
    i
}

/// The number of line feeds among the first `upto` bytes, counted up to
/// 65535.
pub fn count_line_feeds(bytes: &[u8], upto: usize) -> (n: u16)
    requires
        upto <= bytes@.len(),
    ensures
        n == if line_feeds(bytes@.take(upto as int)) >= 0xFFFF {
            0xFFFFu16
        } else {
            line_feeds(bytes@.take(upto as int)) as u16
        },
{
    let mut n: u16 = 0;
    let mut i: usize = 0;
    proof {
        assert(bytes@.take(0) =~= Seq::<u8>::empty());
    }
    while i < upto
        invariant
            i <= upto <= bytes@.len(),
            n == if line_feeds(bytes@.take(i as int)) >= 0xFFFF {
                0xFFFFu16
            } else {
                line_feeds(bytes@.take(i as int)) as u16
            },
        decreases upto - i,
    {
        proof {
            assert(bytes@.take(i + 1).drop_last() =~= bytes@.take(i as int));
            assert(bytes@.take(i + 1).last() == bytes@[i as int]);
        }
        if bytes[i] == 0x0A {
            n = n.saturating_add(1);
        }
        i += 1;
    }
    n
}

/// The text that `bytes` encode, if they are valid UTF-8.
///
/// Calls `core::str::from_utf8` of the standard library, of which nothing is
/// proved here. The contract restates its documentation: it succeeds exactly
/// on valid UTF-8, and the string slice it gives holds the characters that
/// the bytes encode.
#[verifier::external_body]
pub(crate) fn as_text(bytes: &[u8]) -> (r: Option<&str>)
    ensures
        r is Some <==> valid_utf8(bytes@),
        r matches Some(text) ==> text@ == decode_utf8(bytes@),
{
    match core::str::from_utf8(bytes) {
        Ok(text) => Some(text),
        Err(_) => None,
    }
}

} // verus!
