//! Text as bytes.

use crate::text::chars_of;
use vstd::prelude::*;
use vstd::utf8::*;

verus! {

/// What std says of bytes that are not UTF-8.
pub uninterp spec fn utf8_fault(bytes: Seq<u8>) -> Seq<char>;

/// The text that std makes of bytes that are not UTF-8, with replacement characters.
pub uninterp spec fn repaired_text(bytes: Seq<u8>) -> Seq<char>;

/// The text of bytes: what they encode, with replacement characters where they are not UTF-8.
pub open spec fn lossy_text(bytes: Seq<u8>) -> Seq<char> {
    if valid_utf8(bytes) {
        decode_utf8(bytes)
    } else {
        repaired_text(bytes)
    }
}

/// Calls `String::from_utf8`, and `to_string` on its error. Trusted: it succeeds on UTF-8 alone
/// and decodes it; otherwise the error's message is a function of the bytes.
#[verifier::external_body]
pub(crate) fn decode(bytes: Vec<u8>) -> (r: Result<String, String>)
    ensures
        match r {
            Ok(s) => valid_utf8(bytes@) && s@ == decode_utf8(bytes@),
            Err(e) => !valid_utf8(bytes@) && e@ == utf8_fault(bytes@),
        },
{
    String::from_utf8(bytes).map_err(|error| error.to_string())
}

/// Calls `String::from_utf8_lossy`. Trusted: UTF-8 is decoded as it stands, and the text of other
/// bytes is a function of them.
#[verifier::external_body]
pub(crate) fn decode_lossy(bytes: &Vec<u8>) -> (r: String)
    ensures
        r@ == if valid_utf8(bytes@) {
            decode_utf8(bytes@)
        } else {
            repaired_text(bytes@)
        },
{
    String::from_utf8_lossy(bytes).into_owned()
}

/// The bytes of a text.
pub fn bytes_of(s: &str) -> (r: Vec<u8>)
    ensures
        r@ == encode_utf8(s@),
{
    let b: &[u8] = s.as_bytes();
    let mut out: Vec<u8> = Vec::new();
    let mut i: usize = 0;
    while i < b.len()
        invariant
            i <= b@.len(),
            out@ == b@.take(i as int),
        decreases b@.len() - i,
    {
        out.push(b[i]);
        assert(b@.take(i + 1) =~= b@.take(i as int).push(b@[i as int]));
        i += 1;
    }
    assert(b@.take(b@.len() as int) =~= b@);
    out
}

/// The text of bytes, with replacement characters for what is not UTF-8.
pub fn lossy(bytes: &Vec<u8>) -> (r: String)
    ensures
        r@ == lossy_text(bytes@),
{
    decode_lossy(bytes)
}

/// Bytes as text that loses nothing: one character for each byte.
pub open spec fn raw_text(bytes: Seq<u8>) -> Seq<char> {
    bytes.map_values(|b: u8| b as char)
}

/// Bytes as text that loses nothing: one character for each byte.
pub fn raw(bytes: &Vec<u8>) -> (r: String)
    ensures
        r@ == raw_text(bytes@),
{
    let mut out: String = String::new();
    let mut i: usize = 0;
    assert(out@ =~= raw_text(bytes@.take(0)));
    while i < bytes.len()
        invariant
            i <= bytes@.len(),
            out@ == raw_text(bytes@.take(i as int)),
        decreases bytes.len() - i,
    {
        out.push(bytes[i] as char);
        assert(out@ =~= raw_text(bytes@.take(i + 1)));
        i += 1;
    }
    assert(bytes@.take(i as int) =~= bytes@);
    out
}

proof fn lemma_code(c: char)
    ensures
        0 <= c as int <= 0x10ffff,
        c as u32 as int == c as int,
{
    assert(c as u32 <= 0x10ffff);
}

/// The bytes that a text stands for which has one character for each; none for another text.
pub fn bytes_of_raw(text: &str) -> (r: Option<Vec<u8>>)
    ensures
        match r {
            Some(bytes) => raw_text(bytes@) == text@,
            None => exists|i: int| 0 <= i < text@.len() && #[trigger] text@[i] as u32 > 0xff,
        },
{
    let chars: Vec<char> = chars_of(text);
    let mut out: Vec<u8> = Vec::new();
    let mut i: usize = 0;
    assert(raw_text(out@) =~= text@.take(0));
    while i < chars.len()
        invariant
            i <= chars@.len(),
            chars@ == text@,
            raw_text(out@) == text@.take(i as int),
        decreases chars.len() - i,
    {
        let c: char = chars[i];
        let code: u32 = c as u32;
        proof {
            lemma_code(c);
        }
        if code > 0xff {
            assert(text@[i as int] as u32 > 0xff);
            return None;
        }
        let ghost before = out@;
        let byte: u8 = code as u8;
        assert(byte as int == c as int);
        assert(byte as char == c);
        out.push(byte);
        assert(raw_text(out@) =~= raw_text(before).push(text@[i as int]));
        assert(text@.take(i + 1) =~= text@.take(i as int).push(text@[i as int]));
        i += 1;
    }
    assert(text@.take(i as int) =~= text@);
    Some(out)
}

/// Different bytes are different texts.
pub proof fn law_raw_text_loses_nothing(a: Seq<u8>, b: Seq<u8>)
    ensures
        raw_text(a) == raw_text(b) <==> a == b,
{
    if raw_text(a) == raw_text(b) {
        assert(a.len() == raw_text(a).len() && b.len() == raw_text(b).len());
        assert forall|i: int| 0 <= i < a.len() implies a[i] == b[i] by {
            assert(raw_text(a)[i] == a[i] as char && raw_text(b)[i] == b[i] as char);
        }
        assert(a =~= b);
    }
}

/// Whether two byte strings are equal.
pub fn same_bytes(a: &Vec<u8>, b: &Vec<u8>) -> (r: bool)
    ensures
        r == (a@ == b@),
{
    if a.len() != b.len() {
        return false;
    }
    let mut i: usize = 0;
    while i < a.len()
        invariant
            a.len() == b.len(),
            i <= a.len(),
            forall|j: int| 0 <= j < i ==> a@[j] == b@[j],
        decreases a.len() - i,
    {
        if a[i] != b[i] {
            return false;
        }
        i += 1;
    }
    assert(a@ =~= b@);
    true
}

/// A copy of bytes.
pub fn copy_bytes(a: &Vec<u8>) -> (r: Vec<u8>)
    ensures
        r@ == a@,
{
    let r: Vec<u8> = a.clone();
    assert(r@ =~= a@);
    r
}

/// The bytes of two texts, one behind the other, are their bytes one behind the other.
pub proof fn lemma_encode_concat(a: Seq<char>, b: Seq<char>)
    ensures
        encode_utf8(a + b) == encode_utf8(a) + encode_utf8(b),
    decreases a.len(),
{
    if a.len() == 0 {
        assert(a + b =~= b);
        assert(encode_utf8(a) + encode_utf8(b) =~= encode_utf8(b));
    } else {
        assert((a + b).drop_first() =~= a.drop_first() + b);
        lemma_encode_concat(a.drop_first(), b);
        assert(encode_utf8(a + b) =~= encode_utf8(a) + encode_utf8(b));
    }
}

proof fn lemma_scalar_bytes(v: u32, byte: u8)
    requires
        is_scalar(v),
        byte < 0x80,
        v != byte,
    ensures
        forall|i: int| 0 <= i < encode_scalar(v).len() ==> encode_scalar(v)[i] != byte,
{
    if has_width_1_encoding(v) {
        assert(v <= 0x7f ==> (v & 0x7F) as u8 == v) by (bit_vector);
    } else {
        assert(0x80 | (v & 0x3F) as u8 >= 0x80) by (bit_vector);
        assert(0x80 | ((v >> 6) & 0x3F) as u8 >= 0x80) by (bit_vector);
        assert(0x80 | ((v >> 12) & 0x3F) as u8 >= 0x80) by (bit_vector);
        assert(0xC0 | ((v >> 6) & 0x1F) as u8 >= 0x80) by (bit_vector);
        assert(0xE0 | ((v >> 12) & 0x0F) as u8 >= 0x80) by (bit_vector);
        assert(0xF0 | ((v >> 18) & 0x7) as u8 >= 0x80) by (bit_vector);
    }
}

/// A text without an ASCII character has no byte of it.
pub proof fn lemma_encode_lacks(s: Seq<char>, c: char, byte: u8)
    requires
        c as u32 == byte as u32,
        byte < 0x80,
        forall|i: int| 0 <= i < s.len() ==> s[i] != c,
    ensures
        forall|i: int| 0 <= i < encode_utf8(s).len() ==> encode_utf8(s)[i] != byte,
    decreases s.len(),
{
    if s.len() > 0 {
        char_is_scalar(s[0]);
        char_u32_cast(s[0], s[0] as u32);
        char_u32_cast(c, c as u32);
        lemma_scalar_bytes(s[0] as u32, byte);
        assert forall|i: int| 0 <= i < s.drop_first().len() implies s.drop_first()[i] != c by {
            assert(s.drop_first()[i] == s[i + 1]);
        }
        lemma_encode_lacks(s.drop_first(), c, byte);
        let head = encode_scalar(s[0] as u32);
        let tail = encode_utf8(s.drop_first());
        assert(encode_utf8(s) == head + tail);
        assert forall|i: int| 0 <= i < encode_utf8(s).len() implies encode_utf8(s)[i] != byte by {
            if i >= head.len() {
                assert((head + tail)[i] == tail[i - head.len()]);
            } else {
                assert((head + tail)[i] == head[i]);
            }
        }
    }
}

} // verus!
