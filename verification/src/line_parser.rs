//! Splitting one CSV line into its fields and reading the integer fields.
use crate::text::{
    decimal_digits, lemma_parse_trimmed_reads_numbers, parse_decimal, parse_trimmed,
    parse_trimmed_bytes, zeros,
};
use crate::unicode::{lemma_field_number_is_text_number, trim_chars};
use vstd::utf8::{decode_utf8, encode_utf8, valid_utf8};
use vstd::prelude::*;

verus! {

/// The byte `,`.
pub const COMMA: u8 = 0x2c;

/// Number of fields a line is split into.
pub const FIELD_COUNT: usize = 9;

/// Index of the first comma in `s`, or `s.len()` when there is none.
pub open spec fn first_comma(s: Seq<u8>) -> int
    decreases s.len(),
{
    if s.len() == 0 {
        0
    } else if s[0] == COMMA {
        0
    } else {
        1 + first_comma(s.drop_first())
    }
}

/// `s` split at its commas into at most `n` pieces (the last piece keeps the
/// rest of the line, commas included), padded with empty pieces to exactly `n`.
pub open spec fn split_fields(s: Seq<u8>, n: nat) -> Seq<Seq<u8>>
    decreases n,
{
    if n == 0 {
        Seq::empty()
    } else if n == 1 {
        seq![s]
    } else {
        let c = first_comma(s);
        if c < s.len() {
            seq![s.take(c)] + split_fields(s.skip(c + 1), (n - 1) as nat)
        } else {
            seq![s] + Seq::new((n - 1) as nat, |i: int| Seq::<u8>::empty())
        }
    }
}

/// The value of a field read as a `u16`, after removing surrounding whitespace.
pub open spec fn field_u16(s: Seq<u8>) -> Option<u16> {
    match parse_trimmed(s, 0xffff) {
        Some(v) => Some(v as u16),
        None => None,
    }
}

/// The value of a field read as a `u8`, after removing surrounding whitespace.
pub open spec fn field_u8(s: Seq<u8>) -> Option<u8> {
    match parse_trimmed(s, 0xff) {
        Some(v) => Some(v as u8),
        None => None,
    }
}

/// The number written in a field's text, once the whitespace characters at
/// its ends are removed (`str::trim` then `str::parse`), or `None` where the
/// bytes are not UTF-8 or the text is no number up to `max`.
pub open spec fn text_number(s: Seq<u8>, max: nat) -> Option<nat> {
    if valid_utf8(s) {
        parse_decimal(encode_utf8(trim_chars(decode_utf8(s))), max)
    } else {
        None
    }
}

/// Reading a date field gives what `str::from_utf8`, `str::trim` and
/// `str::parse` give on it: the number its trimmed text writes when that
/// fits the field's type, and nothing otherwise.
pub proof fn lemma_date_fields_read_text(s: Seq<u8>)
    ensures
        field_u8(s) == match text_number(s, 0xff) {
            Some(v) => Some(v as u8),
            None => None::<u8>,
        },
        field_u16(s) == match text_number(s, 0xffff) {
            Some(v) => Some(v as u16),
            None => None::<u16>,
        },
        text_number(s, 0xff) matches Some(v) ==> v <= 0xff,
        text_number(s, 0xffff) matches Some(v) ==> v <= 0xffff,
{
    lemma_field_number_is_text_number(s, 0xff);
    lemma_field_number_is_text_number(s, 0xffff);
}

/// A date field holding the decimal digits of a number, zero-padded or not
/// and with or without a leading `+` (such as `07` or `+2024`), reads as that
/// number whenever it fits the field's type, and as nothing otherwise.
pub proof fn lemma_date_fields_read_digits(z: nat, v: nat)
    ensures
        field_u8(zeros(z) + decimal_digits(v)) == if v <= 0xff {
            Some(v as u8)
        } else {
            None::<u8>
        },
        field_u8(seq![0x2bu8] + zeros(z) + decimal_digits(v)) == if v <= 0xff {
            Some(v as u8)
        } else {
            None::<u8>
        },
        field_u16(zeros(z) + decimal_digits(v)) == if v <= 0xffff {
            Some(v as u16)
        } else {
            None::<u16>
        },
        field_u16(seq![0x2bu8] + zeros(z) + decimal_digits(v)) == if v <= 0xffff {
            Some(v as u16)
        } else {
            None::<u16>
        },
{
    lemma_parse_trimmed_reads_numbers(z, v, 0xff);
    lemma_parse_trimmed_reads_numbers(z, v, 0xffff);
}

proof fn lemma_first_comma_at(s: Seq<u8>, c: int)
    requires
        0 <= c < s.len(),
        s[c] == COMMA,
        forall|j: int| 0 <= j < c ==> s[j] != COMMA,
    ensures
        first_comma(s) == c,
    decreases c,
{
    if c > 0 {
        lemma_first_comma_at(s.drop_first(), c - 1);
    }
}

proof fn lemma_first_comma_none(s: Seq<u8>)
    requires
        forall|j: int| 0 <= j < s.len() ==> s[j] != COMMA,
    ensures
        first_comma(s) == s.len(),
    decreases s.len(),
{
    if s.len() > 0 {
        lemma_first_comma_none(s.drop_first());
    }
}

/// The pieces joined back together with a comma between each two.
pub open spec fn join_with_commas(pieces: Seq<Seq<u8>>) -> Seq<u8>
    decreases pieces.len(),
{
    if pieces.len() == 0 {
        Seq::empty()
    } else if pieces.len() == 1 {
        pieces[0]
    } else {
        pieces[0] + seq![COMMA] + join_with_commas(pieces.drop_first())
    }
}

/// `fields` are the nine fields of `line`: none of the first eight holds a
/// comma, and for some `k` the first `k + 1` fields joined with commas give
/// back the line while the others are empty.
pub open spec fn splits_line(fields: Seq<Seq<u8>>, line: Seq<u8>) -> bool {
    &&& fields.len() == 9
    &&& forall|i: int| 0 <= i < 8 ==> !(#[trigger] fields[i]).contains(COMMA)
    &&& exists|k: int|
        0 <= k < 9 && #[trigger] join_with_commas(fields.take(k + 1)) == line && forall|i: int|
            k < i < 9 ==> (#[trigger] fields[i]).len() == 0
}

proof fn lemma_first_comma_props(s: Seq<u8>)
    ensures
        0 <= first_comma(s) <= s.len(),
        forall|j: int| 0 <= j < first_comma(s) ==> s[j] != COMMA,
        first_comma(s) < s.len() ==> s[first_comma(s)] == COMMA,
    decreases s.len(),
{
    if s.len() > 0 && s[0] != COMMA {
        lemma_first_comma_props(s.drop_first());
        assert forall|j: int| 0 <= j < first_comma(s) implies s[j] != COMMA by {
            if j > 0 {
                assert(s[j] == s.drop_first()[j - 1]);
            }
        }
    }
}

proof fn lemma_split_fields_split(s: Seq<u8>, n: nat)
    requires
        n >= 1,
    ensures
        split_fields(s, n).len() == n,
        forall|i: int| 0 <= i < n - 1 ==> !(#[trigger] split_fields(s, n)[i]).contains(COMMA),
        exists|k: int|
            0 <= k < n && #[trigger] join_with_commas(split_fields(s, n).take(k + 1)) == s
                && forall|i: int| k < i < n ==> (#[trigger] split_fields(s, n)[i]).len() == 0,
    decreases n,
{
    let f = split_fields(s, n);
    if n == 1 {
        assert(f.take(1) =~= seq![s]);
        assert(join_with_commas(f.take(0int + 1)) == s);
    } else {
        lemma_first_comma_props(s);
        let c = first_comma(s);
        if c < s.len() {
            let rest = s.skip(c + 1);
            let g = split_fields(rest, (n - 1) as nat);
            lemma_split_fields_split(rest, (n - 1) as nat);
            let k2 = choose|k: int|
                0 <= k < n - 1 && #[trigger] join_with_commas(g.take(k + 1)) == rest && forall|
                    i: int,
                | k < i < n - 1 ==> (#[trigger] g[i]).len() == 0;
            assert(f =~= seq![s.take(c)] + g);
            assert forall|i: int| 0 <= i < n - 1 implies !(#[trigger] f[i]).contains(COMMA) by {
                if i == 0 {
                    if f[0].contains(COMMA) {
                        let j = choose|j: int| 0 <= j < f[0].len() && f[0][j] == COMMA;
                        assert(s[j] == COMMA);
                    }
                } else {
                    assert(f[i] == g[i - 1]);
                }
            }
            let k = k2 + 1;
            assert(f.take(k + 1).drop_first() =~= g.take(k2 + 1));
            assert(f.take(k + 1)[0] == s.take(c));
            assert(join_with_commas(f.take(k + 1)) == s.take(c) + seq![COMMA] + rest);
            assert(s.take(c) + seq![COMMA] + rest =~= s);
            assert forall|i: int| k < i < n implies (#[trigger] f[i]).len() == 0 by {
                assert(f[i] == g[i - 1]);
            }
            assert(join_with_commas(f.take(k + 1)) == s);
        } else {
            assert(!f[0].contains(COMMA)) by {
                if f[0].contains(COMMA) {
                    let j = choose|j: int| 0 <= j < f[0].len() && f[0][j] == COMMA;
                    assert(s[j] == COMMA);
                }
            }
            assert(f.take(1) =~= seq![s]);
            assert(join_with_commas(f.take(0int + 1)) == s);
            assert forall|i: int| 0 < i < n implies (#[trigger] f[i]).len() == 0 by {}
            assert forall|i: int| 0 <= i < n - 1 implies !(#[trigger] f[i]).contains(COMMA) by {
                if i > 0 {
                    assert(f[i].len() == 0);
                }
            }
        }
    }
}

/// A line's nine fields are its pieces between commas: the first eight hold
/// no comma, and joined back with commas the fields give the line, the
/// missing ones being empty.
pub proof fn lemma_fields_split_the_line(line: Seq<u8>)
    ensures
        splits_line(split_fields(line, 9), line),
{
    lemma_split_fields_split(line, 9);
}

/// Parses a single CSV line as a byte slice, giving access to each of its
/// nine fields without copying them.
pub struct LineParser<'a> {
    fields: Vec<&'a [u8]>,
}

impl<'a> View for LineParser<'a> {
    type V = Seq<Seq<u8>>;

    closed spec fn view(&self) -> Seq<Seq<u8>> {
        self.fields@.map_values(|f: &'a [u8]| f@)
    }
}

impl<'a> LineParser<'a> {
    #[verifier::type_invariant]
    spec fn has_all_fields(self) -> bool {
        self.fields@.len() == FIELD_COUNT
    }

    /// Creates a new LineParser from a line of bytes: the line is split at its
    /// first eight commas, and missing fields are empty.
    pub fn new(line: &'a [u8]) -> (r: Option<Self>)
        ensures
            r matches Some(p) && p@ == split_fields(line@, 9) && splits_line(p@, line@),
    {
        let len: usize = line.len();
        let mut fields: Vec<&'a [u8]> = Vec::new();
        let mut start: usize = 0;
        let mut i: usize = 0;
        assert(line@.subrange(0, len as int) =~= line@);
        while i < len && fields.len() < 8
            invariant
                start <= i <= len == line@.len(),
                fields@.len() <= 8,
                forall|j: int| start <= j < i ==> line@[j] != COMMA,
                fields@.map_values(|f: &'a [u8]| f@) + split_fields(
                    line@.subrange(start as int, len as int),
                    (9 - fields@.len()) as nat,
                ) == split_fields(line@, 9),
            decreases len - i,
        {
            if line[i] == COMMA {
                let ghost rest = line@.subrange(start as int, len as int);
                let ghost before = fields@.map_values(|f: &'a [u8]| f@);
                proof {
                    lemma_first_comma_at(rest, i - start);
                    assert(rest.take(i - start) =~= line@.subrange(start as int, i as int));
                    assert(rest.skip(i - start + 1) =~= line@.subrange(i + 1, len as int));
                }
                fields.push(&line[start..i]);
                assert(fields@.map_values(|f: &'a [u8]| f@) =~= before.push(
                    line@.subrange(start as int, i as int),
                ));
                start = i + 1;
            }
            i = i + 1;
        }
        let ghost rest = line@.subrange(start as int, len as int);
        let ghost before = fields@.map_values(|f: &'a [u8]| f@);
        let ghost m = (9 - fields@.len()) as nat;
        proof {
            if fields@.len() < 8 {
                assert forall|j: int| 0 <= j < rest.len() implies rest[j] != COMMA by {
                    assert(rest[j] == line@[start + j]);
                }
                lemma_first_comma_none(rest);
            }
        }
        fields.push(&line[start..len]);
        let ghost pushed = fields@.len();
        while fields.len() < FIELD_COUNT
            invariant
                len == line@.len(),
                pushed <= fields@.len() <= FIELD_COUNT,
                fields@.map_values(|f: &'a [u8]| f@) =~= before.push(rest) + Seq::new(
                    (fields@.len() - pushed) as nat,
                    |i: int| Seq::<u8>::empty(),
                ),
            decreases FIELD_COUNT - fields@.len(),
        {
            let ghost prev = fields@.map_values(|f: &'a [u8]| f@);
            let ghost k = (fields@.len() - pushed) as nat;
            let empty: &'a [u8] = &line[len..len];
            assert(empty@ =~= Seq::<u8>::empty());
            fields.push(empty);
            assert(fields@.map_values(|f: &'a [u8]| f@) =~= prev.push(Seq::<u8>::empty()));
            assert(Seq::new(k + 1, |i: int| Seq::<u8>::empty()) =~= Seq::new(
                k,
                |i: int| Seq::<u8>::empty(),
            ).push(Seq::<u8>::empty()));
        }
        proof {
            lemma_fields_split_the_line(line@);
            assert(before.push(rest) =~= before + seq![rest]);
            assert(split_fields(rest, m) =~= seq![rest] + Seq::new(
                (m - 1) as nat,
                |i: int| Seq::<u8>::empty(),
            ));
        }
        Some(LineParser { fields })
    }

    /// The field at `index`, as the bytes of the line it covers.
    pub fn field(&self, index: usize) -> (r: &'a [u8])
        requires
            index < FIELD_COUNT,
        ensures
            r@ == self@[index as int],
    {
        proof {
            use_type_invariant(self);
        }
        self.fields[index]
    }

    /// Returns the year field.
    pub fn year(&self) -> (r: Option<u16>)
        ensures
            r == field_u16(self@[5]),
    {
        proof {
            use_type_invariant(self);
        }
        parse_u16(self.fields[5])
    }

    /// Returns the month field.
    pub fn month(&self) -> (r: Option<u8>)
        ensures
            r == field_u8(self@[6]),
    {
        proof {
            use_type_invariant(self);
        }
        parse_u8(self.fields[6])
    }

    /// Returns the day field.
    pub fn day(&self) -> (r: Option<u8>)
        ensures
            r == field_u8(self@[7]),
    {
        proof {
            use_type_invariant(self);
        }
        parse_u8(self.fields[7])
    }
}

/// Reads a `u16` from a field, ignoring surrounding whitespace.
pub fn parse_u16(bytes: &[u8]) -> (r: Option<u16>)
    ensures
        r == field_u16(bytes@),
{
    match parse_trimmed_bytes(bytes, 0xffff) {
        Some(v) => Some(v as u16),
        None => None,
    }
}

/// Reads a `u8` from a field, ignoring surrounding whitespace.
pub fn parse_u8(bytes: &[u8]) -> (r: Option<u8>)
    ensures
        r == field_u8(bytes@),
{
    match parse_trimmed_bytes(bytes, 0xff) {
        Some(v) => Some(v as u8),
        None => None,
    }
}

} // verus!
