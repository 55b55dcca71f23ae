//! Keys of the artifact store.
//!
//! An artifact is stored under a flat file name derived from its absolute
//! path: every byte that could end a path segment or upset a shell, and
//! `%` itself, is replaced by `%` and two upper-case hexadecimal digits.
//! Different paths have different keys, and a key reads back as its path.

use vstd::prelude::*;
use vstd::string::*;
use vstd::utf8::*;
use crate::text::push_char;

verus! {

/// The bytes that a key holds only as escapes: the C0 controls, DEL,
/// every non-ASCII byte, space, `"`, `<`, `>`, `` ` ``, `/`, `\`, and `%`
/// itself, so that a `%` in a key always begins an escape.
pub open spec fn is_reserved(b: u8) -> bool {
    b < 0x20 || b >= 0x7f || b == 0x20 || b == 0x22 || b == 0x25 || b == 0x3c || b == 0x3e || b
        == 0x60 || b == 0x2f || b == 0x5c
}

/// The upper-case hexadecimal digit for a value below sixteen.
pub open spec fn upper_hex(n: int) -> char {
    if n < 10 {
        ((0x30 + n) as u8) as char
    } else {
        ((0x37 + n) as u8) as char
    }
}

/// The three characters that stand for an escaped byte.
pub open spec fn escape_of(b: u8) -> Seq<char> {
    seq!['%', upper_hex(b as int / 16), upper_hex(b as int % 16)]
}

/// What one byte of a path contributes to the key.
pub open spec fn key_unit(b: u8) -> Seq<char> {
    if is_reserved(b) {
        escape_of(b)
    } else {
        seq![b as char]
    }
}

/// The key of a byte string: the contributions of its bytes, in order.
pub open spec fn key_of_bytes(s: Seq<u8>) -> Seq<char>
    decreases s.len(),
{
    if s.len() == 0 {
        Seq::empty()
    } else {
        key_of_bytes(s.drop_last()) + key_unit(s.last())
    }
}

/// The key of a path, taken over its UTF-8 encoding.
pub open spec fn key_of(path: Seq<char>) -> Seq<char> {
    key_of_bytes(encode_utf8(path))
}

/// `percent_encoding::percent_encode_byte` returns, for every byte, the
/// text `%XY` where `X` and `Y` are the upper-case hexadecimal digits of
/// the byte's high and low half.
pub assume_specification[ percent_encoding::percent_encode_byte ](byte: u8) -> (text: &'static str)
    ensures
        text@ == escape_of(byte),
;

/// Whether a byte is replaced by an escape in a key.
pub fn reserved(b: u8) -> (r: bool)
    ensures
        r == is_reserved(b),
{
    b < 0x20 || b >= 0x7f || b == 0x20 || b == 0x22 || b == 0x25 || b == 0x3c || b == 0x3e || b
        == 0x60 || b == 0x2f || b == 0x5c
}

/// The artifact-store key of a path.
pub fn artifact_key(path: &str) -> (key: String)
    ensures
        key@ == key_of(path@),
        is_flat(key@),
{
    let bytes = path.as_bytes();
    let mut key = String::new();
    let mut i: usize = 0;
    while i < bytes.len()
        invariant
            i <= bytes.len(),
            key@ == key_of_bytes(bytes@.take(i as int)),
        decreases bytes.len() - i,
    {
        let b = bytes[i];
        if reserved(b) {
            key.append(percent_encoding::percent_encode_byte(b));
        } else {
            push_char(&mut key, b as char);
        }
        proof {
            assert(bytes@.take(i + 1).drop_last() =~= bytes@.take(i as int));
        }
        i += 1;
    }
    proof {
        assert(bytes@.take(i as int) =~= bytes@);
        key_is_flat(bytes@);
    }
    key
}

/// Whether a character is one of `0`..`9`, `A`..`F`.
pub open spec fn is_upper_hex(c: char) -> bool {
    ('0' <= c && c <= '9') || ('A' <= c && c <= 'F')
}

/// The value of an upper-case hexadecimal digit.
pub open spec fn hex_value(c: char) -> int {
    if c <= '9' {
        c as int - 0x30
    } else {
        c as int - 0x37
    }
}

/// The byte that the two digits of an escape name.
pub open spec fn escaped_byte(high: char, low: char) -> u8 {
    (hex_value(high) * 16 + hex_value(low)) as u8
}

/// Whether a key consists only of characters that may stand in a single
/// file name: `%` and the ASCII characters that are not reserved.
pub open spec fn is_flat(key: Seq<char>) -> bool {
    forall|i: int| 0 <= i < key.len() ==> is_flat_char(#[trigger] key[i])
}

/// Whether one character may stand in a key: `%`, or an ASCII character
/// that is not reserved. No path separator, space, quote, angle bracket
/// or control character is among them.
pub open spec fn is_flat_char(c: char) -> bool {
    (c as u32) < 0x80 && (c == '%' || !is_reserved(c as u8))
}

/// Whether a key begins with an escape.
pub open spec fn starts_with_escape(key: Seq<char>) -> bool {
    &&& key.len() >= 3
    &&& key[0] == '%'
    &&& is_upper_hex(key[1])
    &&& is_upper_hex(key[2])
}

/// The bytes that a key stands for: each escape is the byte it names,
/// every other character is itself.
pub open spec fn path_of_key(key: Seq<char>) -> Seq<u8>
    decreases key.len(),
{
    if key.len() == 0 {
        Seq::empty()
    } else if starts_with_escape(key) {
        seq![escaped_byte(key[1], key[2])] + path_of_key(key.skip(3))
    } else {
        seq![key[0] as u8] + path_of_key(key.drop_first())
    }
}

/// The digit for a value is an upper-case digit with that value.
proof fn lemma_upper_hex(n: int)
    requires
        0 <= n < 16,
    ensures
        is_upper_hex(upper_hex(n)),
        hex_value(upper_hex(n)) == n,
        is_flat_char(upper_hex(n)),
{
}

/// An escape is `%` and two digits that name the escaped byte.
proof fn lemma_escape_of(b: u8)
    ensures
        escape_of(b).len() == 3,
        escape_of(b)[0] == '%',
        is_upper_hex(escape_of(b)[1]),
        is_upper_hex(escape_of(b)[2]),
        escaped_byte(escape_of(b)[1], escape_of(b)[2]) == b,
        is_flat(escape_of(b)),
{
    lemma_upper_hex(b as int / 16);
    lemma_upper_hex(b as int % 16);
}

/// The key of a concatenation is the concatenation of the keys.
pub proof fn lemma_key_concat(a: Seq<u8>, b: Seq<u8>)
    ensures
        key_of_bytes(a + b) == key_of_bytes(a) + key_of_bytes(b),
    decreases b.len(),
{
    if b.len() == 0 {
        assert(a + b =~= a);
        assert(key_of_bytes(a) + key_of_bytes(b) =~= key_of_bytes(a));
    } else {
        lemma_key_concat(a, b.drop_last());
        assert((a + b).drop_last() =~= a + b.drop_last());
        assert(key_of_bytes(a + b) =~= key_of_bytes(a) + key_of_bytes(b));
    }
}

/// The key of a single byte is what the byte contributes.
proof fn lemma_key_single(b: u8)
    ensures
        key_of_bytes(seq![b]) == key_unit(b),
{
    let s = seq![b];
    assert(s.drop_last() =~= Seq::<u8>::empty());
    assert(key_of_bytes(s.drop_last()) =~= Seq::<char>::empty());
    assert(key_of_bytes(s) =~= key_unit(b));
}

/// The key begins with what the first byte contributes.
proof fn lemma_key_front(s: Seq<u8>)
    requires
        s.len() > 0,
    ensures
        key_of_bytes(s) == key_unit(s[0]) + key_of_bytes(s.drop_first()),
{
    assert(s =~= seq![s[0]] + s.drop_first());
    lemma_key_concat(seq![s[0]], s.drop_first());
    lemma_key_single(s[0]);
}

/// Every key is a flat file name: it holds no path separator, no space,
/// no quote, no control character and nothing outside ASCII.
pub proof fn key_is_flat(s: Seq<u8>)
    ensures
        is_flat(key_of_bytes(s)),
    decreases s.len(),
{
    if s.len() > 0 {
        key_is_flat(s.drop_last());
        lemma_escape_of(s.last());
    }
}

/// Decoding the key of a path gives the path back.
pub proof fn key_round_trip(s: Seq<u8>)
    ensures
        path_of_key(key_of_bytes(s)) == s,
    decreases s.len(),
{
    if s.len() > 0 {
        let k = key_of_bytes(s);
        let r = s.drop_first();
        let kr = key_of_bytes(r);
        lemma_key_front(s);
        key_round_trip(r);
        if is_reserved(s[0]) {
            lemma_escape_of(s[0]);
            assert(k.skip(3) =~= kr);
            assert(starts_with_escape(k));
        } else {
            assert(k[0] != '%');
            assert(k.drop_first() =~= kr);
        }
        assert(path_of_key(k) =~= s);
    }
}

/// Two byte strings with the same key are the same.
pub proof fn key_injective_bytes(a: Seq<u8>, b: Seq<u8>)
    requires
        key_of_bytes(a) == key_of_bytes(b),
    ensures
        a == b,
{
    key_round_trip(a);
    key_round_trip(b);
}

/// Two distinct paths have distinct keys.
pub proof fn key_injective(p: Seq<char>, q: Seq<char>)
    requires
        p != q,
    ensures
        key_of(p) != key_of(q),
{
    if key_of(p) == key_of(q) {
        key_injective_bytes(encode_utf8(p), encode_utf8(q));
        encode_utf8_decode_utf8(p);
        encode_utf8_decode_utf8(q);
    }
}

/// The path that a key stands for: the text whose UTF-8 encoding the key
/// decodes to.
pub open spec fn text_of_key(key: Seq<char>) -> Seq<char> {
    decode_utf8(path_of_key(key))
}

/// Decoding the key of a path gives the path back.
pub proof fn key_reads_back(path: Seq<char>)
    ensures
        text_of_key(key_of(path)) == path,
{
    key_round_trip(encode_utf8(path));
    encode_utf8_decode_utf8(path);
}

/// The bytes of a text of ASCII characters: each character as one byte.
pub open spec fn ascii_bytes(path: Seq<char>) -> Seq<u8> {
    Seq::new(path.len(), |i: int| path[i] as u8)
}

/// The key of a path of ASCII characters is made character by character.
pub proof fn lemma_key_of_ascii(path: Seq<char>)
    requires
        is_ascii_chars(path),
    ensures
        key_of(path) == key_of_bytes(ascii_bytes(path)),
{
    is_ascii_chars_encode_utf8(path);
    assert(encode_utf8(path) =~= ascii_bytes(path));
}

} // verus!
