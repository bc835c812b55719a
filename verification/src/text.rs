//! Byte-level text helpers: removing surrounding whitespace and reading
//! unsigned decimal numbers.
//!
//! A field of the dataset is read the way `str::trim` followed by
//! `str::parse` reads UTF-8 text: every character with the Unicode
//! `White_Space` property is whitespace, and a number is an optional `+`
//! followed by at least one ASCII digit.
use vstd::prelude::*;

verus! {

/// ASCII whitespace: tab, line feed, vertical tab, form feed, carriage return, space.
pub open spec fn is_ascii_ws(b: u8) -> bool {
    (0x09 <= b && b <= 0x0d) || b == 0x20
}

/// Two-byte UTF-8 encodings of whitespace: U+0085 and U+00A0.
pub open spec fn is_ws2(b0: u8, b1: u8) -> bool {
    b0 == 0xc2 && (b1 == 0x85 || b1 == 0xa0)
}

/// Three-byte UTF-8 encodings of whitespace: U+1680, U+2000..=U+200A, U+2028,
/// U+2029, U+202F, U+205F and U+3000.
pub open spec fn is_ws3(b0: u8, b1: u8, b2: u8) -> bool {
    ||| (b0 == 0xe1 && b1 == 0x9a && b2 == 0x80)
    ||| (b0 == 0xe2 && b1 == 0x80 && ((0x80 <= b2 && b2 <= 0x8a) || b2 == 0xa8 || b2 == 0xa9
        || b2 == 0xaf))
    ||| (b0 == 0xe2 && b1 == 0x81 && b2 == 0x9f)
    ||| (b0 == 0xe3 && b1 == 0x80 && b2 == 0x80)
}

/// Length of the encoded whitespace character that `s` starts with, or 0.
pub open spec fn leading_ws_len(s: Seq<u8>) -> nat {
    if s.len() >= 1 && is_ascii_ws(s[0]) {
        1
    } else if s.len() >= 2 && is_ws2(s[0], s[1]) {
        2
    } else if s.len() >= 3 && is_ws3(s[0], s[1], s[2]) {
        3
    } else {
        0
    }
}

/// Length of the encoded whitespace character that `s` ends with, or 0.
pub open spec fn trailing_ws_len(s: Seq<u8>) -> nat {
    let n = s.len() as int;
    if n >= 1 && is_ascii_ws(s[n - 1]) {
        1
    } else if n >= 2 && is_ws2(s[n - 2], s[n - 1]) {
        2
    } else if n >= 3 && is_ws3(s[n - 3], s[n - 2], s[n - 1]) {
        3
    } else {
        0
    }
}

/// `s` without its leading whitespace.
pub open spec fn trim_start(s: Seq<u8>) -> Seq<u8>
    decreases s.len(),
{
    let k = leading_ws_len(s);
    if k > 0 {
        trim_start(s.skip(k as int))
    } else {
        s
    }
}

/// `s` without its trailing whitespace.
pub open spec fn trim_end(s: Seq<u8>) -> Seq<u8>
    decreases s.len(),
{
    let k = trailing_ws_len(s);
    if k > 0 {
        trim_end(s.take(s.len() - k))
    } else {
        s
    }
}

/// `s` without leading and trailing whitespace.
pub open spec fn trim(s: Seq<u8>) -> Seq<u8> {
    trim_end(trim_start(s))
}

pub open spec fn is_digit(b: u8) -> bool {
    0x30 <= b && b <= 0x39
}

pub open spec fn all_digits(s: Seq<u8>) -> bool {
    forall|i: int| 0 <= i < s.len() ==> #[trigger] is_digit(s[i])
}

/// The number written by the decimal digits `s`.
pub open spec fn digits_value(s: Seq<u8>) -> nat
    decreases s.len(),
{
    if s.len() == 0 {
        0
    } else {
        digits_value(s.drop_last()) * 10 + ((s.last() - 0x30) as nat)
    }
}

/// The digits of a number, after an optional leading `+`.
pub open spec fn unsigned_digits(s: Seq<u8>) -> Seq<u8> {
    if s.len() > 0 && s[0] == 0x2b {
        s.drop_first()
    } else {
        s
    }
}

/// The unsigned number that `s` writes, if it is no larger than `max`:
/// an optional `+` and at least one decimal digit, nothing else.
pub open spec fn parse_decimal(s: Seq<u8>, max: nat) -> Option<nat> {
    let d = unsigned_digits(s);
    if d.len() > 0 && all_digits(d) && digits_value(d) <= max {
        Some(digits_value(d))
    } else {
        None
    }
}

/// The unsigned number that `s` writes once its surrounding whitespace is removed.
pub open spec fn parse_trimmed(s: Seq<u8>, max: nat) -> Option<nat> {
    parse_decimal(trim(s), max)
}

/// A prefix of a digit string is worth no more than the whole string.
pub proof fn lemma_digits_value_prefix(s: Seq<u8>, k: int)
    requires
        0 <= k <= s.len(),
        all_digits(s),
    ensures
        digits_value(s.take(k)) <= digits_value(s),
    decreases s.len() - k,
{
    if k < s.len() {
        lemma_digits_value_prefix(s, k + 1);
        assert(s.take(k + 1).drop_last() =~= s.take(k));
        assert(is_digit(s[k]));
    } else {
        assert(s.take(k) =~= s);
    }
}

/// The decimal digits of `v` with no leading zero (`"0"` for zero).
pub open spec fn decimal_digits(v: nat) -> Seq<u8>
    decreases v,
{
    if v < 10 {
        seq![(0x30 + v) as u8]
    } else {
        decimal_digits(v / 10).push((0x30 + v % 10) as u8)
    }
}

/// `z` digits `0`.
pub open spec fn zeros(z: nat) -> Seq<u8> {
    Seq::new(z, |i: int| 0x30u8)
}

proof fn lemma_zeros_value(z: nat)
    ensures
        all_digits(zeros(z)),
        digits_value(zeros(z)) == 0,
    decreases z,
{
    if z > 0 {
        lemma_zeros_value((z - 1) as nat);
        assert(zeros(z).drop_last() =~= zeros((z - 1) as nat));
    }
}

/// Zeros followed by the decimal digits of `v` are a non-empty run of
/// digits that writes `v`.
pub proof fn lemma_padded_digits_value(z: nat, v: nat)
    ensures
        all_digits(zeros(z) + decimal_digits(v)),
        digits_value(zeros(z) + decimal_digits(v)) == v,
        (zeros(z) + decimal_digits(v)).len() > 0,
        (zeros(z) + decimal_digits(v))[0] != 0x2b,
    decreases v,
{
    lemma_zeros_value(z);
    let s = zeros(z) + decimal_digits(v);
    if v < 10 {
        assert(s.drop_last() =~= zeros(z));
    } else {
        lemma_padded_digits_value(z, v / 10);
        assert(s.drop_last() =~= zeros(z) + decimal_digits(v / 10));
        assert(s =~= (zeros(z) + decimal_digits(v / 10)).push((0x30 + v % 10) as u8));
    }
    assert forall|i: int| 0 <= i < s.len() implies #[trigger] is_digit(s[i]) by {
        if i >= z {
            lemma_decimal_digits_are_digits(v);
            assert(s[i] == decimal_digits(v)[i - z]);
        }
    }
    if z == 0 {
        lemma_decimal_digits_are_digits(v);
        assert(s[0] == decimal_digits(v)[0]);
    }
}

proof fn lemma_decimal_digits_are_digits(v: nat)
    ensures
        decimal_digits(v).len() > 0,
        all_digits(decimal_digits(v)),
    decreases v,
{
    if v >= 10 {
        lemma_decimal_digits_are_digits(v / 10);
    }
}

/// A number is read from its decimal digits, whatever zeros pad them on the
/// left and whether a `+` comes first, exactly when it is at most `max`.
pub proof fn lemma_parse_decimal_reads_numbers(z: nat, v: nat, max: nat)
    ensures
        parse_decimal(zeros(z) + decimal_digits(v), max) == if v <= max {
            Some(v)
        } else {
            None::<nat>
        },
        parse_decimal(seq![0x2bu8] + zeros(z) + decimal_digits(v), max) == if v <= max {
            Some(v)
        } else {
            None::<nat>
        },
{
    lemma_padded_digits_value(z, v);
    let d = zeros(z) + decimal_digits(v);
    assert(unsigned_digits(d) == d);
    assert((seq![0x2bu8] + d).drop_first() =~= d);
    assert(seq![0x2bu8] + zeros(z) + decimal_digits(v) =~= seq![0x2bu8] + d);
}

/// A text that starts with a digit or `+` and ends with a digit has no
/// surrounding whitespace.
proof fn lemma_trim_keeps_number(s: Seq<u8>)
    requires
        s.len() > 0,
        is_digit(s[0]) || s[0] == 0x2b,
        is_digit(s.last()),
    ensures
        trim(s) == s,
{
    assert(leading_ws_len(s) == 0);
    assert(trim_start(s) == s);
    assert(trailing_ws_len(s) == 0);
    assert(trim_end(s) == s);
}

/// A field that holds the decimal digits of a number, zero-padded or not and
/// with or without a leading `+`, is read as that number exactly when it is at
/// most `max`.
pub proof fn lemma_parse_trimmed_reads_numbers(z: nat, v: nat, max: nat)
    ensures
        parse_trimmed(zeros(z) + decimal_digits(v), max) == if v <= max {
            Some(v)
        } else {
            None::<nat>
        },
        parse_trimmed(seq![0x2bu8] + zeros(z) + decimal_digits(v), max) == if v <= max {
            Some(v)
        } else {
            None::<nat>
        },
{
    lemma_parse_decimal_reads_numbers(z, v, max);
    lemma_padded_digits_value(z, v);
    let d = zeros(z) + decimal_digits(v);
    let p = seq![0x2bu8] + zeros(z) + decimal_digits(v);
    assert(is_digit(d[0]));
    assert(is_digit(d.last()));
    lemma_trim_keeps_number(d);
    assert(p =~= seq![0x2bu8] + d);
    assert(p.last() == d.last());
    lemma_trim_keeps_number(p);
}

/// Only an optional `+` followed by at least one decimal digit is read as a
/// number.
pub proof fn lemma_parse_decimal_only_digits(s: Seq<u8>, max: nat)
    ensures
        parse_decimal(s, max) is Some ==> {
            let d = if s[0] == 0x2b {
                s.drop_first()
            } else {
                s
            };
            &&& s.len() > 0
            &&& d.len() > 0
            &&& forall|i: int| 0 <= i < d.len() ==> 0x30 <= #[trigger] d[i] <= 0x39
        },
{
    if parse_decimal(s, max) is Some {
        let d = unsigned_digits(s);
        assert(d.len() > 0 && all_digits(d));
        assert(s.len() > 0);
        assert forall|i: int| 0 <= i < d.len() implies 0x30 <= #[trigger] d[i] <= 0x39 by {
            assert(is_digit(d[i]));
        }
    }
}

/// Length of the encoded whitespace character that `s[lo..hi]` starts with, or 0.
fn leading_ws_at(s: &[u8], lo: usize, hi: usize) -> (k: usize)
    requires
        lo <= hi <= s@.len(),
    ensures
        k == leading_ws_len(s@.subrange(lo as int, hi as int)),
{
    let n: usize = hi - lo;
    if n >= 1 && ((0x09 <= s[lo] && s[lo] <= 0x0d) || s[lo] == 0x20) {
        1
    } else if n >= 2 && s[lo] == 0xc2 && (s[lo + 1] == 0x85 || s[lo + 1] == 0xa0) {
        2
    } else if n >= 3 {
        let b0: u8 = s[lo];
        let b1: u8 = s[lo + 1];
        let b2: u8 = s[lo + 2];
        if (b0 == 0xe1 && b1 == 0x9a && b2 == 0x80) || (b0 == 0xe2 && b1 == 0x80 && ((0x80
            <= b2 && b2 <= 0x8a) || b2 == 0xa8 || b2 == 0xa9 || b2 == 0xaf)) || (b0 == 0xe2 && b1
            == 0x81 && b2 == 0x9f) || (b0 == 0xe3 && b1 == 0x80 && b2 == 0x80) {
            3
        } else {
            0
        }
    } else {
        0
    }
}

/// Length of the encoded whitespace character that `s[lo..hi]` ends with, or 0.
fn trailing_ws_at(s: &[u8], lo: usize, hi: usize) -> (k: usize)
    requires
        lo <= hi <= s@.len(),
    ensures
        k == trailing_ws_len(s@.subrange(lo as int, hi as int)),
{
    let n: usize = hi - lo;
    if n >= 1 && ((0x09 <= s[hi - 1] && s[hi - 1] <= 0x0d) || s[hi - 1] == 0x20) {
        1
    } else if n >= 2 && s[hi - 2] == 0xc2 && (s[hi - 1] == 0x85 || s[hi - 1] == 0xa0) {
        2
    } else if n >= 3 {
        let b0: u8 = s[hi - 3];
        let b1: u8 = s[hi - 2];
        let b2: u8 = s[hi - 1];
        if (b0 == 0xe1 && b1 == 0x9a && b2 == 0x80) || (b0 == 0xe2 && b1 == 0x80 && ((0x80
            <= b2 && b2 <= 0x8a) || b2 == 0xa8 || b2 == 0xa9 || b2 == 0xaf)) || (b0 == 0xe2 && b1
            == 0x81 && b2 == 0x9f) || (b0 == 0xe3 && b1 == 0x80 && b2 == 0x80) {
            3
        } else {
            0
        }
    } else {
        0
    }
}

/// The bounds of `s` once its leading and trailing whitespace is removed.
pub fn trim_bounds(s: &[u8]) -> (r: (usize, usize))
    ensures
        r.0 <= r.1 <= s@.len(),
        s@.subrange(r.0 as int, r.1 as int) == trim(s@),
{
    let len: usize = s.len();
    let mut lo: usize = 0;
    assert(s@.subrange(0, len as int) =~= s@);
    loop
        invariant
            lo <= len == s@.len(),
            trim_start(s@.subrange(lo as int, len as int)) == trim_start(s@),
        ensures
            lo <= len,
            trim_start(s@.subrange(lo as int, len as int)) == trim_start(s@),
            leading_ws_len(s@.subrange(lo as int, len as int)) == 0,
        decreases len - lo,
    {
        let k: usize = leading_ws_at(s, lo, len);
        if k == 0 {
            break;
        }
        assert(s@.subrange(lo as int, len as int).skip(k as int) =~= s@.subrange(
            lo + k,
            len as int,
        ));
        lo = lo + k;
    }
    let ghost front = s@.subrange(lo as int, len as int);
    assert(trim_start(s@) == front);
    let mut hi: usize = len;
    loop
        invariant
            lo <= hi <= len == s@.len(),
            trim_end(s@.subrange(lo as int, hi as int)) == trim(s@),
        ensures
            lo <= hi <= len,
            trim_end(s@.subrange(lo as int, hi as int)) == trim(s@),
            trailing_ws_len(s@.subrange(lo as int, hi as int)) == 0,
        decreases hi - lo,
    {
        let k: usize = trailing_ws_at(s, lo, hi);
        if k == 0 {
            break;
        }
        assert(s@.subrange(lo as int, hi as int).take(hi - lo - k) =~= s@.subrange(
            lo as int,
            hi - k,
        ));
        hi = hi - k;
    }
    (lo, hi)
}

/// Reads the unsigned number that `s` writes (an optional `+`, then decimal
/// digits), if it is no larger than `max`.
pub fn parse_decimal_bytes(s: &[u8], max: u64) -> (r: Option<u64>)
    ensures
        match r {
            Some(v) => parse_decimal(s@, max as nat) == Some(v as nat),
            None => parse_decimal(s@, max as nat) is None,
        },
{
    let len: usize = s.len();
    let start: usize = if len > 0 && s[0] == 0x2b {
        1
    } else {
        0
    };
    let ghost d = unsigned_digits(s@);
    assert(d =~= s@.subrange(start as int, len as int));
    if start == len {
        return None;
    }
    let mut v: u64 = 0;
    let mut i: usize = start;
    assert(d.take(0) =~= Seq::<u8>::empty());
    while i < len
        invariant
            start <= i <= len == s@.len(),
            d == s@.subrange(start as int, len as int),
            d == unsigned_digits(s@),
            d.len() > 0,
            forall|j: int| 0 <= j < i - start ==> #[trigger] is_digit(d[j]),
            v as nat == digits_value(d.take(i - start)),
            v <= max,
        decreases len - i,
    {
        let b: u8 = s[i];
        if b < 0x30 || b > 0x39 {
            assert(!is_digit(d[i - start]));
            return None;
        }
        let digit: u64 = (b - 0x30) as u64;
        let ghost k: int = i - start;
        assert(d.take(k + 1).drop_last() =~= d.take(k));
        assert(d.take(k + 1).last() == b);
        let next: Option<u64> = match v.checked_mul(10) {
            Some(t) => t.checked_add(digit),
            None => None,
        };
        match next {
            Some(n) if n <= max => {
                v = n;
                i = i + 1;
            },
            _ => {
                proof {
                    if all_digits(d) {
                        lemma_digits_value_prefix(d, k + 1);
                    }
                }
                return None;
            },
        }
    }
    assert(d.take(len - start) =~= d);
    Some(v)
}

/// Reads the unsigned number that `s` writes once its surrounding whitespace
/// is removed, if it is no larger than `max`.
pub fn parse_trimmed_bytes(s: &[u8], max: u64) -> (r: Option<u64>)
    ensures
        match r {
            Some(v) => parse_trimmed(s@, max as nat) == Some(v as nat),
            None => parse_trimmed(s@, max as nat) is None,
        },
{
    let (lo, hi) = trim_bounds(s);
    parse_decimal_bytes(&s[lo..hi], max)
}

} // verus!
