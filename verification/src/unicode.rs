//! The byte-level reading of fields in `text` agrees with reading them as
//! UTF-8 text: decoding the bytes, removing the characters with the Unicode
//! `White_Space` property from both ends, and reading the rest as a number.
use crate::text::{
    all_digits, is_ascii_ws, is_digit, unsigned_digits, is_ws2, is_ws3, leading_ws_len, parse_decimal, parse_trimmed, trailing_ws_len,
    trim, trim_end, trim_start,
};
use vstd::prelude::*;
use vstd::utf8::{
    char_is_scalar, decode_utf8, encode_scalar, encode_utf8, has_width_1_encoding,
    has_width_2_encoding, has_width_3_encoding, last_continuation_byte, leading_byte_width_1,
    leading_byte_width_2, leading_byte_width_3, leading_byte_width_4,
    second_last_continuation_byte, third_last_continuation_byte, valid_utf8,
};

verus! {

/// The characters with the Unicode `White_Space` property (`char::is_whitespace`).
pub open spec fn is_whitespace(c: char) -> bool {
    let v = c as u32;
    ||| (0x09 <= v && v <= 0x0d)
    ||| v == 0x20
    ||| v == 0x85
    ||| v == 0xa0
    ||| v == 0x1680
    ||| (0x2000 <= v && v <= 0x200a)
    ||| v == 0x2028
    ||| v == 0x2029
    ||| v == 0x202f
    ||| v == 0x205f
    ||| v == 0x3000
}

/// `cs` without its leading whitespace characters.
pub open spec fn trim_start_chars(cs: Seq<char>) -> Seq<char>
    decreases cs.len(),
{
    if cs.len() > 0 && is_whitespace(cs[0]) {
        trim_start_chars(cs.drop_first())
    } else {
        cs
    }
}

/// `cs` without its trailing whitespace characters.
pub open spec fn trim_end_chars(cs: Seq<char>) -> Seq<char>
    decreases cs.len(),
{
    if cs.len() > 0 && is_whitespace(cs.last()) {
        trim_end_chars(cs.drop_last())
    } else {
        cs
    }
}

/// `cs` without whitespace characters at either end (`str::trim`).
pub open spec fn trim_chars(cs: Seq<char>) -> Seq<char> {
    trim_end_chars(trim_start_chars(cs))
}

proof fn lemma_encode_concat(a: Seq<char>, b: Seq<char>)
    ensures
        encode_utf8(a + b) == encode_utf8(a) + encode_utf8(b),
    decreases a.len(),
{
    if a.len() == 0 {
        assert(a + b =~= b);
        assert(encode_utf8(a) + encode_utf8(b) =~= encode_utf8(b));
    } else {
        assert((a + b).drop_first() =~= a.drop_first() + b);
        lemma_encode_concat(a.drop_first(), b);
        assert((a + b)[0] == a[0]);
        assert(encode_utf8(a + b) =~= encode_scalar(a[0] as u32) + encode_utf8(a.drop_first() + b));
        assert(encode_utf8(a) =~= encode_scalar(a[0] as u32) + encode_utf8(a.drop_first()));
    }
}

proof fn lemma_encode_single(c: char)
    ensures
        encode_utf8(seq![c]) == encode_scalar(c as u32),
{
    assert(seq![c].drop_first() =~= Seq::<char>::empty());
    assert(encode_utf8(seq![c]) =~= encode_scalar(c as u32) + encode_utf8(Seq::<char>::empty()));
}

/// Which whitespace pattern the encoding of `c` starts with.
proof fn lemma_leading_ws_of_char(c: char, rest: Seq<u8>)
    ensures
        leading_ws_len(encode_scalar(c as u32) + rest) == if is_whitespace(c) {
            encode_scalar(c as u32).len()
        } else {
            0
        },
{
    let v = c as u32;
    char_is_scalar(c);
    let e = encode_scalar(v);
    let s = e + rest;
    if has_width_1_encoding(v) {
        let b0 = leading_byte_width_1(v);
        assert(b0 as u32 == v) by (bit_vector)
            requires
                v <= 0x7f,
                b0 == (v & 0x7f) as u8,
        ;
        assert(s[0] == b0);
    } else if has_width_2_encoding(v) {
        let b0 = leading_byte_width_2(v);
        let b1 = last_continuation_byte(v);
        assert(s[0] == b0 && s[1] == b1);
        assert(0xc0 <= b0 && b0 <= 0xdf && (is_ws2(b0, b1) <==> (v == 0x85 || v == 0xa0))) by (
        bit_vector)
            requires
                0x80 <= v <= 0x7ff,
                b0 == 0xC0 | ((v >> 6) & 0x1F) as u8,
                b1 == 0x80 | (v & 0x3F) as u8,
        ;
    } else if has_width_3_encoding(v) {
        let b0 = leading_byte_width_3(v);
        let b1 = second_last_continuation_byte(v);
        let b2 = last_continuation_byte(v);
        assert(s[0] == b0 && s[1] == b1 && s[2] == b2);
        assert(0xe0 <= b0 && (is_ws3(b0, b1, b2) <==> (v == 0x1680 || (0x2000 <= v && v
            <= 0x200a) || v == 0x2028 || v == 0x2029 || v == 0x202f || v == 0x205f || v
            == 0x3000))) by (bit_vector)
            requires
                0x800 <= v <= 0xFFFF,
                b0 == 0xE0 | ((v >> 12) & 0x0F) as u8,
                b1 == 0x80 | ((v >> 6) & 0x3F) as u8,
                b2 == 0x80 | (v & 0x3F) as u8,
        ;
    } else {
        let b0 = leading_byte_width_4(v);
        assert(s[0] == b0);
        assert(0xf0 <= b0) by (bit_vector)
            requires
                b0 == 0xF0 | ((v >> 18) & 0x7) as u8,
        ;
    }
}

/// Which whitespace pattern a sequence that ends with the encoding of `c` ends with.
proof fn lemma_trailing_ws_of_char(prefix: Seq<u8>, c: char)
    ensures
        trailing_ws_len(prefix + encode_scalar(c as u32)) == if is_whitespace(c) {
            encode_scalar(c as u32).len()
        } else {
            0
        },
{
    let v = c as u32;
    char_is_scalar(c);
    let e = encode_scalar(v);
    let s = prefix + e;
    let n = s.len() as int;
    if has_width_1_encoding(v) {
        let b0 = leading_byte_width_1(v);
        assert(b0 as u32 == v && b0 < 0x80) by (bit_vector)
            requires
                v <= 0x7f,
                b0 == (v & 0x7f) as u8,
        ;
        assert(s[n - 1] == b0);
    } else if has_width_2_encoding(v) {
        let b0 = leading_byte_width_2(v);
        let b1 = last_continuation_byte(v);
        assert(s[n - 2] == b0 && s[n - 1] == b1);
        assert(0xc0 <= b0 && b0 <= 0xdf && 0x80 <= b1 && b1 <= 0xbf && (is_ws2(b0, b1) <==> (v
            == 0x85 || v == 0xa0))) by (bit_vector)
            requires
                0x80 <= v <= 0x7ff,
                b0 == 0xC0 | ((v >> 6) & 0x1F) as u8,
                b1 == 0x80 | (v & 0x3F) as u8,
        ;
    } else if has_width_3_encoding(v) {
        let b0 = leading_byte_width_3(v);
        let b1 = second_last_continuation_byte(v);
        let b2 = last_continuation_byte(v);
        assert(s[n - 3] == b0 && s[n - 2] == b1 && s[n - 1] == b2);
        assert(0x80 <= b1 && b1 <= 0xbf && 0x80 <= b2 && (is_ws3(b0, b1, b2) <==> (v == 0x1680
            || (0x2000 <= v && v <= 0x200a) || v == 0x2028 || v == 0x2029 || v == 0x202f || v
            == 0x205f || v == 0x3000))) by (bit_vector)
            requires
                0x800 <= v <= 0xFFFF,
                b0 == 0xE0 | ((v >> 12) & 0x0F) as u8,
                b1 == 0x80 | ((v >> 6) & 0x3F) as u8,
                b2 == 0x80 | (v & 0x3F) as u8,
        ;
    } else {
        let b1 = third_last_continuation_byte(v);
        let b2 = second_last_continuation_byte(v);
        let b3 = last_continuation_byte(v);
        assert(s[n - 3] == b1 && s[n - 2] == b2 && s[n - 1] == b3);
        assert(0x80 <= b1 && b1 <= 0xbf && 0x80 <= b2 && b2 <= 0xbf && 0x80 <= b3) by (
        bit_vector)
            requires
                b1 == 0x80 | ((v >> 12) & 0x3F) as u8,
                b2 == 0x80 | ((v >> 6) & 0x3F) as u8,
                b3 == 0x80 | (v & 0x3F) as u8,
        ;
    }
}

proof fn lemma_trim_start_encoding(cs: Seq<char>)
    ensures
        trim_start(encode_utf8(cs)) == encode_utf8(trim_start_chars(cs)),
    decreases cs.len(),
{
    let s = encode_utf8(cs);
    if cs.len() == 0 {
        assert(leading_ws_len(s) == 0);
    } else {
        let e = encode_scalar(cs[0] as u32);
        let rest = encode_utf8(cs.drop_first());
        assert(s == e + rest);
        lemma_leading_ws_of_char(cs[0], rest);
        if is_whitespace(cs[0]) {
            assert(s.skip(e.len() as int) =~= rest);
            lemma_trim_start_encoding(cs.drop_first());
        }
    }
}

proof fn lemma_trim_end_encoding(cs: Seq<char>)
    ensures
        trim_end(encode_utf8(cs)) == encode_utf8(trim_end_chars(cs)),
    decreases cs.len(),
{
    let s = encode_utf8(cs);
    if cs.len() == 0 {
        assert(trailing_ws_len(s) == 0);
    } else {
        let init = cs.drop_last();
        let c = cs.last();
        assert(cs =~= init + seq![c]);
        lemma_encode_concat(init, seq![c]);
        lemma_encode_single(c);
        let e = encode_scalar(c as u32);
        assert(s == encode_utf8(init) + e);
        lemma_trailing_ws_of_char(encode_utf8(init), c);
        if is_whitespace(c) {
            assert(s.take(s.len() - e.len()) =~= encode_utf8(init));
            lemma_trim_end_encoding(init);
        }
    }
}

/// Removing whitespace from the UTF-8 encoding of a text is encoding the text
/// with its whitespace removed.
pub proof fn lemma_trim_matches_text(cs: Seq<char>)
    ensures
        trim(encode_utf8(cs)) == encode_utf8(trim_chars(cs)),
{
    lemma_trim_start_encoding(cs);
    lemma_trim_end_encoding(trim_start_chars(cs));
}

/// The bytes of a leading whitespace pattern are the encoding of one
/// whitespace character.
proof fn leading_ws_char(s: Seq<u8>) -> (c: char)
    requires
        leading_ws_len(s) > 0,
    ensures
        is_whitespace(c),
        encode_scalar(c as u32) == s.take(leading_ws_len(s) as int),
{
    let k = leading_ws_len(s);
    if k == 1 {
        let b0 = s[0];
        let v = b0 as u32;
        assert(v <= 0x7f && (v & 0x7f) as u8 == b0) by (bit_vector)
            requires
                v == b0 as u32,
                is_ascii_ws(b0),
        ;
        let c = v as char;
        assert(c as u32 == v);
        assert(encode_scalar(v) =~= s.take(1));
        c
    } else if k == 2 {
        let b0 = s[0];
        let b1 = s[1];
        let v: u32 = if b1 == 0x85 {
            0x85
        } else {
            0xa0
        };
        assert(0x80 <= v <= 0x7ff && 0xC0 | ((v >> 6) & 0x1F) as u8 == b0 && 0x80 | (v & 0x3F) as u8
            == b1) by (bit_vector)
            requires
                is_ws2(b0, b1),
                v == if b1 == 0x85 {
                    0x85u32
                } else {
                    0xa0u32
                },
        ;
        let c = v as char;
        assert(c as u32 == v);
        assert(encode_scalar(v) =~= s.take(2));
        c
    } else {
        let b0 = s[0];
        let b1 = s[1];
        let b2 = s[2];
        let v: u32 = (((b0 & 0x0f) as u32) << 12) | (((b1 & 0x3f) as u32) << 6) | ((b2 & 0x3f) as u32);
        assert(0x800 <= v <= 0xFFFF && !(0xD800 <= v <= 0xDFFF) && 0xE0 | ((v >> 12) & 0x0F) as u8
            == b0 && 0x80 | ((v >> 6) & 0x3F) as u8 == b1 && 0x80 | (v & 0x3F) as u8 == b2 && (v
            == 0x1680 || (0x2000 <= v && v <= 0x200a) || v == 0x2028 || v == 0x2029 || v == 0x202f
            || v == 0x205f || v == 0x3000)) by (bit_vector)
            requires
                is_ws3(b0, b1, b2),
                v == (((b0 & 0x0f) as u32) << 12) | (((b1 & 0x3f) as u32) << 6) | ((b2
                    & 0x3f) as u32),
        ;
        let c = v as char;
        assert(c as u32 == v);
        assert(encode_scalar(v) =~= s.take(3));
        c
    }
}

/// The bytes of a trailing whitespace pattern are the encoding of one
/// whitespace character.
proof fn trailing_ws_char(s: Seq<u8>) -> (c: char)
    requires
        trailing_ws_len(s) > 0,
    ensures
        is_whitespace(c),
        encode_scalar(c as u32) == s.skip(s.len() - trailing_ws_len(s)),
{
    let k = trailing_ws_len(s) as int;
    let tail = s.skip(s.len() - k);
    assert(leading_ws_len(tail) == k) by {
        let n = s.len() as int;
        assert(tail.len() == k);
        if k == 1 {
            assert(tail[0] == s[n - 1]);
        } else if k == 2 {
            assert(tail[0] == s[n - 2] && tail[1] == s[n - 1]);
            assert(!is_ascii_ws(s[n - 2])) by {
                assert(s[n - 2] == 0xc2);
            }
        } else {
            assert(tail[0] == s[n - 3] && tail[1] == s[n - 2] && tail[2] == s[n - 1]);
            let b0 = s[n - 3];
            let b1 = s[n - 2];
            let b2 = s[n - 1];
            assert(!is_ascii_ws(b0) && !is_ws2(b0, b1)) by (bit_vector)
                requires
                    is_ws3(b0, b1, b2),
            ;
        }
    }
    let c = leading_ws_char(tail);
    assert(tail.take(k) =~= tail);
    c
}

/// Any sequence is a run of encoded whitespace characters followed by the
/// sequence without its leading whitespace.
proof fn leading_ws_chars(s: Seq<u8>) -> (w: Seq<char>)
    ensures
        s == encode_utf8(w) + trim_start(s),
    decreases s.len(),
{
    let k = leading_ws_len(s);
    if k == 0 {
        assert(s =~= encode_utf8(Seq::<char>::empty()) + s);
        Seq::empty()
    } else {
        let c = leading_ws_char(s);
        let rest = leading_ws_chars(s.skip(k as int));
        lemma_encode_concat(seq![c], rest);
        lemma_encode_single(c);
        assert(s =~= s.take(k as int) + s.skip(k as int));
        seq![c] + rest
    }
}

/// Any sequence is the sequence without its trailing whitespace followed by a
/// run of encoded whitespace characters.
proof fn trailing_ws_chars(s: Seq<u8>) -> (w: Seq<char>)
    ensures
        s == trim_end(s) + encode_utf8(w),
    decreases s.len(),
{
    let k = trailing_ws_len(s);
    if k == 0 {
        assert(s =~= s + encode_utf8(Seq::<char>::empty()));
        Seq::empty()
    } else {
        let c = trailing_ws_char(s);
        let init = s.take(s.len() - k);
        let rest = trailing_ws_chars(init);
        lemma_encode_concat(rest, seq![c]);
        lemma_encode_single(c);
        assert(s =~= init + s.skip(s.len() - k));
        rest + seq![c]
    }
}

/// ASCII bytes are the encoding of the characters with the same codes.
pub proof fn lemma_ascii_encoding(b: Seq<u8>)
    requires
        forall|i: int| 0 <= i < b.len() ==> #[trigger] b[i] < 0x80,
    ensures
        encode_utf8(Seq::new(b.len(), |i: int| b[i] as char)) == b,
    decreases b.len(),
{
    let cs = Seq::new(b.len(), |i: int| b[i] as char);
    if b.len() > 0 {
        let rest = b.drop_first();
        lemma_ascii_encoding(rest);
        assert(cs.drop_first() =~= Seq::new(rest.len(), |i: int| rest[i] as char));
        let b0 = b[0];
        let v = b0 as u32;
        assert(v <= 0x7f && (v & 0x7f) as u8 == b0) by (bit_vector)
            requires
                v == b0 as u32,
                b0 < 0x80,
        ;
        assert(cs[0] as u32 == v);
        assert(encode_utf8(cs) =~= seq![b0] + encode_utf8(cs.drop_first()));
        assert(b =~= seq![b0] + rest);
    } else {
        assert(b =~= Seq::<u8>::empty());
    }
}

/// A field from which a number is read is valid UTF-8.
proof fn lemma_number_field_is_utf8(s: Seq<u8>, max: nat)
    requires
        parse_trimmed(s, max) is Some,
    ensures
        valid_utf8(s),
{
    let front = trim_start(s);
    let core = trim_end(front);
    let w1 = leading_ws_chars(s);
    let w2 = trailing_ws_chars(front);
    assert(core == trim(s));
    let d = unsigned_digits(core);
    assert(d.len() > 0 && all_digits(d));
    assert forall|i: int| 0 <= i < core.len() implies #[trigger] core[i] < 0x80 by {
        if core.len() > 0 && core[0] == 0x2b {
            if i > 0 {
                assert(core[i] == d[i - 1]);
                assert(is_digit(d[i - 1]));
            }
        } else {
            assert(is_digit(d[i]));
        }
    }
    let core_chars = Seq::new(core.len(), |i: int| core[i] as char);
    lemma_ascii_encoding(core);
    lemma_encode_concat(core_chars, w2);
    lemma_encode_concat(w1, core_chars + w2);
    assert(s == encode_utf8(w1 + (core_chars + w2)));
    vstd::utf8::encode_utf8_valid_utf8(w1 + (core_chars + w2));
}

/// Reading a number from a field's bytes is reading it from the field's text:
/// the bytes must be valid UTF-8, and the text, without the whitespace
/// characters at its ends (`str::trim`), must be an optional `+` and decimal
/// digits (`str::parse`, which reads the text's bytes) of a value at most `max`.
pub proof fn lemma_field_number_is_text_number(s: Seq<u8>, max: nat)
    ensures
        parse_trimmed(s, max) == if valid_utf8(s) {
            parse_decimal(encode_utf8(trim_chars(decode_utf8(s))), max)
        } else {
            None
        },
{
    if valid_utf8(s) {
        vstd::utf8::decode_utf8_encode_utf8(s);
        lemma_trim_matches_text(decode_utf8(s));
    } else if parse_trimmed(s, max) is Some {
        lemma_number_field_is_utf8(s, max);
    }
}

} // verus!
