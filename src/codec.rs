//! The runtime's text record: a 4-byte little-endian length of the UTF-8
//! bytes, the bytes, and a null byte that the length does not count. Decoding
//! goes by the terminator, not by the length.
use vstd::prelude::*;
use vstd::utf8::*;
use crate::memory::{le_bytes, push_u32_le};

verus! {

/// What lossy UTF-8 decoding makes of bytes that are not valid UTF-8.
pub uninterp spec fn lossy_text(b: Seq<u8>) -> Seq<char>;

/// The text that lossy decoding gives: the decoded characters where `b` is
/// valid UTF-8, replacement characters standing in for invalid sequences
/// otherwise.
pub open spec fn utf8_text(b: Seq<u8>) -> Seq<char> {
    if valid_utf8(b) {
        decode_utf8(b)
    } else {
        lossy_text(b)
    }
}

/// Relies on `String::from_utf8_lossy`: valid UTF-8 decodes to its own
/// characters; the result depends on the bytes alone.
#[verifier::external_body]
pub(crate) fn decode_utf8_lossy(b: &[u8]) -> (r: String)
    ensures
        valid_utf8(b@) ==> r@ == decode_utf8(b@),
        !valid_utf8(b@) ==> r@ == lossy_text(b@),
{
    String::from_utf8_lossy(b).into_owned()
}

/// The record that holds `s`.
pub open spec fn encode_record(s: Seq<char>) -> Seq<u8> {
    le_bytes(encode_utf8(s).len() as u32) + encode_utf8(s) + seq![0u8]
}

/// `n` is the position of the first null byte of `b`.
pub open spec fn is_terminator(b: Seq<u8>, n: int) -> bool {
    &&& 0 <= n < b.len()
    &&& b[n] == 0
    &&& forall|k: int| 0 <= k < n ==> #[trigger] b[k] != 0
}

/// The text of a record: the bytes after the length prefix up to the first
/// null byte, decoded; `None` where the record is shorter than its prefix or
/// holds no terminator.
pub open spec fn record_text(rec: Seq<u8>) -> Option<Seq<char>> {
    let body = rec.skip(4);
    if rec.len() >= 4 && exists|n: int| is_terminator(body, n) {
        let n = choose|n: int| is_terminator(body, n);
        Some(utf8_text(body.take(n)))
    } else {
        None
    }
}

/// Encodes `text` as a record. The byte length must fit the 4-byte prefix.
pub fn string_to_gmpointer(text: &str) -> (r: Vec<u8>)
    requires
        encode_utf8(text@).len() <= u32::MAX,
    ensures
        r@ == encode_record(text@),
{
    let b = text.as_bytes();
    let mut r: Vec<u8> = Vec::new();
    push_u32_le(&mut r, b.len() as u32);
    let mut i: usize = 0;
    while i < b.len()
        invariant
            b@ == encode_utf8(text@),
            i <= b@.len(),
            r@ == le_bytes(b@.len() as u32) + b@.take(i as int),
        decreases b@.len() - i,
    {
        r.push(b[i]);
        assert(b@.take(i + 1) =~= b@.take(i as int).push(b@[i as int]));
        i += 1;
    }
    r.push(0);
    assert(b@.take(b@.len() as int) =~= b@);
    assert(r@ =~= encode_record(text@));
    r
}

/// Decodes a record by its terminator.
pub fn decode_record(rec: &[u8]) -> (r: Option<String>)
    ensures
        r is Some <==> record_text(rec@) is Some,
        r is Some ==> r->0@ == record_text(rec@)->0,
{
    if rec.len() < 4 {
        return None;
    }
    let ghost body = rec@.skip(4);
    let mut n: usize = 4;
    while n < rec.len() && rec[n] != 0
        invariant
            4 <= n <= rec@.len(),
            body == rec@.skip(4),
            forall|k: int| 0 <= k < n - 4 ==> #[trigger] body[k] != 0,
        decreases rec@.len() - n,
    {
        n += 1;
    }
    if n == rec.len() {
        assert(!exists|m: int| is_terminator(body, m));
        return None;
    }
    assert(is_terminator(body, n - 4));
    let ghost m = choose|m: int| is_terminator(body, m);
    assert(m == n - 4) by {
        if m < n - 4 {
            assert(body[m] != 0);
        } else if m > n - 4 {
            assert(body[n - 4] == 0);
        }
    }
    let mut text_bytes: Vec<u8> = Vec::new();
    let mut k: usize = 4;
    while k < n
        invariant
            4 <= k <= n < rec@.len(),
            text_bytes@ == rec@.subrange(4, k as int),
        decreases n - k,
    {
        text_bytes.push(rec[k]);
        assert(rec@.subrange(4, k + 1) =~= rec@.subrange(4, k as int).push(rec@[k as int]));
        k += 1;
    }
    assert(text_bytes@ =~= body.take(m));
    Some(decode_utf8_lossy(text_bytes.as_slice()))
}

proof fn lemma_scalar_bytes_nonzero(c: u32)
    requires
        is_scalar(c),
        c != 0,
    ensures
        forall|k: int| 0 <= k < encode_scalar(c).len() ==> #[trigger] encode_scalar(c)[k] != 0,
{
    if has_width_1_encoding(c) {
        assert((c & 0x7F) as u8 != 0) by (bit_vector)
            requires
                1 <= c <= 0x7F,
        ;
    } else {
        assert(0xC0 | ((c >> 6) & 0x1F) as u8 != 0) by (bit_vector);
        assert(0xE0 | ((c >> 12) & 0x0F) as u8 != 0) by (bit_vector);
        assert(0xF0 | ((c >> 18) & 0x7) as u8 != 0) by (bit_vector);
        assert(0x80 | (c & 0x3F) as u8 != 0) by (bit_vector);
        assert(0x80 | ((c >> 6) & 0x3F) as u8 != 0) by (bit_vector);
        assert(0x80 | ((c >> 12) & 0x3F) as u8 != 0) by (bit_vector);
    }
}

proof fn lemma_encoding_nonzero(s: Seq<char>)
    requires
        forall|i: int| 0 <= i < s.len() ==> #[trigger] s[i] != '\0',
    ensures
        forall|k: int| 0 <= k < encode_utf8(s).len() ==> #[trigger] encode_utf8(s)[k] != 0,
    decreases s.len(),
{
    if s.len() > 0 {
        let c = s[0] as u32;
        char_is_scalar(s[0]);
        char_u32_cast(s[0], c);
        assert(c != 0) by {
            if c == 0 {
                assert((0u32 as char) == '\0');
            }
        }
        lemma_scalar_bytes_nonzero(c);
        lemma_encoding_nonzero(s.drop_first());
        let head = encode_scalar(c);
        let tail = encode_utf8(s.drop_first());
        assert forall|k: int| 0 <= k < encode_utf8(s).len() implies #[trigger] encode_utf8(s)[k]
            != 0 by {
            if k < head.len() {
                assert(encode_utf8(s)[k] == head[k]);
            } else {
                assert(encode_utf8(s)[k] == tail[k - head.len()]);
            }
        }
    }
}

/// Decoding the record that encodes a string gives the string back, for every
/// string without a null character whose UTF-8 length fits the prefix.
pub proof fn lemma_text_round_trip(s: Seq<char>)
    requires
        forall|i: int| 0 <= i < s.len() ==> #[trigger] s[i] != '\0',
        encode_utf8(s).len() <= u32::MAX,
    ensures
        record_text(encode_record(s)) == Some(s),
{
    let bytes = encode_utf8(s);
    let rec = encode_record(s);
    let body = rec.skip(4);
    lemma_encoding_nonzero(s);
    assert(body =~= bytes + seq![0u8]);
    assert(is_terminator(body, bytes.len() as int));
    let m = choose|m: int| is_terminator(body, m);
    assert(m == bytes.len()) by {
        if m < bytes.len() {
            assert(body[m] == bytes[m]);
        } else if m > bytes.len() {
            assert(body[bytes.len() as int] == 0);
        }
    }
    assert(body.take(m) =~= bytes);
    encode_utf8_valid_utf8(s);
    encode_utf8_decode_utf8(s);
}

} // verus!
