//! Parsing of the JSON rendering, and the round-trip laws.
//!
//! The digit strings and the string escaping of `render` have verified
//! inverses: parsing the digits of an integer gives the integer back, and
//! unescaping an escaped text gives the text back.  Together with the
//! named decimal round trip of the value, parsing a serialized record
//! recovers it field for field.

use vstd::prelude::*;

use crate::bits::is_finite_bits;
use crate::record::DataModel;
use crate::render::dec_digit;
use crate::render::decimal_of;
use crate::render::digits_of;
use crate::render::esc_char;
use crate::render::escape_seq;
use crate::render::hex_digit;
use crate::render::parse_decimal;
use crate::render::parsed_decimal_of;
use crate::render::record_json;
use crate::render::record_json_pretty;

verus! {

/// The value of a decimal digit character; `10` for anything else.
pub open spec fn digit_val(c: char) -> u64 {
    if c == '0' {
        0
    } else if c == '1' {
        1
    } else if c == '2' {
        2
    } else if c == '3' {
        3
    } else if c == '4' {
        4
    } else if c == '5' {
        5
    } else if c == '6' {
        6
    } else if c == '7' {
        7
    } else if c == '8' {
        8
    } else if c == '9' {
        9
    } else {
        10
    }
}

/// Whether a character is a decimal digit.
pub open spec fn is_dec_digit(c: char) -> bool {
    digit_val(c) < 10
}

/// The number that a digit string denotes, most significant digit first.
pub open spec fn digits_val(s: Seq<char>) -> nat
    decreases s.len(),
{
    if s.len() == 0 {
        0
    } else {
        (digits_val(s.drop_last()) * 10 + digit_val(s.last())) as nat
    }
}

/// The value of a hexadecimal digit character; `16` for anything else.
pub open spec fn hex_val(c: char) -> u64 {
    if digit_val(c) < 10 {
        digit_val(c)
    } else if c == 'a' {
        10
    } else if c == 'b' {
        11
    } else if c == 'c' {
        12
    } else if c == 'd' {
        13
    } else if c == 'e' {
        14
    } else if c == 'f' {
        15
    } else {
        16
    }
}

/// The character that a two-character escape denotes.
pub open spec fn unesc_named(e: char) -> char {
    if e == '"' {
        '"'
    } else if e == '\\' {
        '\\'
    } else if e == 'n' {
        '\n'
    } else if e == 'r' {
        '\r'
    } else if e == 't' {
        '\t'
    } else if e == 'b' {
        '\u{8}'
    } else {
        '\u{c}'
    }
}

/// The inverse of the JSON string escaping: `None` for a text that is
/// not a well-formed escape of anything.
pub open spec fn unescape_seq(s: Seq<char>) -> Option<Seq<char>>
    decreases s.len(),
{
    if s.len() == 0 {
        Some(Seq::empty())
    } else if s.first() == '\\' {
        if s.len() < 2 {
            None
        } else {
            let e = s[1];
            if e == '"' || e == '\\' || e == 'n' || e == 'r' || e == 't' || e == 'b' || e == 'f' {
                match unescape_seq(s.skip(2)) {
                    None => None,
                    Some(t) => Some(seq![unesc_named(e)] + t),
                }
            } else if e == 'u' {
                if s.len() < 6 {
                    None
                } else if s[2] == '0' && s[3] == '0' && hex_val(s[4]) < 16 && hex_val(s[5]) < 16 {
                    let code = hex_val(s[4]) * 16 + hex_val(s[5]);
                    match unescape_seq(s.skip(6)) {
                        None => None,
                        Some(t) => Some(seq![(code as u32) as char] + t),
                    }
                } else {
                    None
                }
            } else {
                None
            }
        }
    } else {
        match unescape_seq(s.drop_first()) {
            None => None,
            Some(t) => Some(seq![s.first()] + t),
        }
    }
}

/// The end of the run of decimal digits that starts at position `p`.
pub open spec fn digits_end(s: Seq<char>, p: int) -> int
    decreases s.len() - p when 0 <= p <= s.len()
{
    if p >= s.len() {
        p
    } else if is_dec_digit(s[p]) {
        digits_end(s, p + 1)
    } else {
        p
    }
}

/// Whether a text is a plain decimal number: an optional minus sign,
/// digits, an optional fraction (a dot followed by digits), and an
/// optional exponent (`e` or `E`, an optional sign, and digits).  This is
/// the shape of every number the library renders, and the only shape the
/// outside decimal parser is given: its other input forms (hexadecimal
/// floats, named specials) are not JSON numbers, and on enormous
/// hexadecimal significands it aborts.
pub open spec fn plain_decimal(s: Seq<char>) -> bool {
    let p0: int = if s.len() > 0 && s[0] == '-' {
        1
    } else {
        0
    };
    let e1 = digits_end(s, p0);
    e1 > p0 && {
        let p2: int = if e1 < s.len() && s[e1] == '.' {
            let e2 = digits_end(s, e1 + 1);
            if e2 > e1 + 1 {
                e2
            } else {
                -1
            }
        } else {
            e1
        };
        p2 >= 0 && {
            if p2 == s.len() {
                true
            } else if s[p2] == 'e' || s[p2] == 'E' {
                let p3: int = if p2 + 1 < s.len() && (s[p2 + 1] == '+' || s[p2 + 1] == '-') {
                    p2 + 2
                } else {
                    p2 + 1
                };
                let e3 = digits_end(s, p3);
                e3 > p3 && e3 == s.len()
            } else {
                false
            }
        }
    }
}

/// The scan of a JSON string body from position `p` up to its closing
/// quote: the unescaped content and the position of the quote, or `None`
/// for a malformed text.
pub open spec fn scan_jstring(s: Seq<char>, p: int) -> Option<(Seq<char>, int)>
    decreases s.len() - p when 0 <= p <= s.len()
{
    if p >= s.len() {
        None
    } else if s[p] == '"' {
        Some((Seq::empty(), p))
    } else if s[p] == '\\' {
        if p + 2 > s.len() {
            None
        } else {
            let e = s[p + 1];
            if e == '"' || e == '\\' || e == 'n' || e == 'r' || e == 't' || e == 'b' || e == 'f' {
                match scan_jstring(s, p + 2) {
                    None => None,
                    Some((t, q)) => Some((seq![unesc_named(e)] + t, q)),
                }
            } else if e == 'u' {
                if p + 6 > s.len() {
                    None
                } else if s[p + 2] == '0' && s[p + 3] == '0' && hex_val(s[p + 4]) < 16 && hex_val(
                    s[p + 5],
                ) < 16 {
                    let code = hex_val(s[p + 4]) * 16 + hex_val(s[p + 5]);
                    match scan_jstring(s, p + 6) {
                        None => None,
                        Some((t, q)) => Some((seq![(code as u32) as char] + t, q)),
                    }
                } else {
                    None
                }
            } else {
                None
            }
        }
    } else {
        match scan_jstring(s, p + 1) {
            None => None,
            Some((t, q)) => Some((seq![s[p]] + t, q)),
        }
    }
}

/// The fields that the compact JSON rendering of a record denotes: the
/// number of the `id` digits, the unescaped `name`, and the undecoded
/// `value` token; `None` for a text that does not have the rendering's
/// shape.
pub open spec fn parse_fields(s: Seq<char>) -> Option<(nat, Seq<char>, Seq<char>)> {
    let l1 = "{\"id\":"@;
    let l2 = ",\"name\":\""@;
    let l3 = "\",\"value\":"@;
    if s.len() < l1.len() || s.subrange(0, l1.len() as int) != l1 {
        None
    } else {
        let e1 = digits_end(s, l1.len() as int);
        if e1 == l1.len() {
            None
        } else if e1 + l2.len() > s.len() || s.subrange(e1, e1 + l2.len()) != l2 {
            None
        } else {
            match scan_jstring(s, e1 + l2.len()) {
                None => None,
                Some((nm, q)) => {
                    if q + l3.len() + 1 > s.len() || s.subrange(q, q + l3.len()) != l3 || s[s.len()
                        - 1] != '}' {
                        None
                    } else {
                        Some(
                            (
                                digits_val(s.subrange(l1.len() as int, e1)),
                                nm,
                                s.subrange(q + l3.len(), s.len() - 1),
                            ),
                        )
                    }
                },
            }
        }
    }
}

/// The fields that the pretty JSON rendering of a record denotes, as
/// `parse_fields` for the compact form: the number of the `id` digits,
/// the unescaped `name`, and the undecoded `value` token.
pub open spec fn parse_fields_pretty(s: Seq<char>) -> Option<(nat, Seq<char>, Seq<char>)> {
    let l1 = "{\n  \"id\": "@;
    let l2 = ",\n  \"name\": \""@;
    let l3 = "\",\n  \"value\": "@;
    if s.len() < l1.len() || s.subrange(0, l1.len() as int) != l1 {
        None
    } else {
        let e1 = digits_end(s, l1.len() as int);
        if e1 == l1.len() {
            None
        } else if e1 + l2.len() > s.len() || s.subrange(e1, e1 + l2.len()) != l2 {
            None
        } else {
            match scan_jstring(s, e1 + l2.len()) {
                None => None,
                Some((nm, q)) => {
                    if q + l3.len() + 2 > s.len() || s.subrange(q, q + l3.len()) != l3 || s[s.len()
                        - 2] != '\n' || s[s.len() - 1] != '}' {
                        None
                    } else {
                        Some(
                            (
                                digits_val(s.subrange(l1.len() as int, e1)),
                                nm,
                                s.subrange(q + l3.len(), s.len() - 2),
                            ),
                        )
                    }
                },
            }
        }
    }
}

/// Reading back the digit string of an integer gives the integer.
pub proof fn lemma_digits_round_trip(n: u64)
    ensures
        digits_val(digits_of(n)) == n,
    decreases n,
{
    if n < 10 {
        assert(digits_of(n) =~= seq![dec_digit(n)]);
        assert(digits_of(n).drop_last() =~= Seq::<char>::empty());
        assert(digits_val(digits_of(n).drop_last()) == 0);
    } else {
        lemma_digits_round_trip(n / 10);
        assert(digits_of(n).drop_last() =~= digits_of(n / 10));
        assert(digits_of(n).last() == dec_digit(n % 10));
    }
}

/// Every character of a digit string is a decimal digit.
pub proof fn lemma_digits_are_digits(n: u64)
    ensures
        forall|i: int| 0 <= i < digits_of(n).len() ==> is_dec_digit(#[trigger] digits_of(n)[i]),
    decreases n,
{
    if n >= 10 {
        lemma_digits_are_digits(n / 10);
        assert forall|i: int|
            0 <= i < digits_of(n).len() implies is_dec_digit(#[trigger] digits_of(n)[i]) by {
            if i < digits_of(n / 10).len() {
                assert(digits_of(n)[i] == digits_of(n / 10)[i]);
            } else {
                assert(digits_of(n)[i] == dec_digit(n % 10));
            }
        }
    }
}

/// Unescaping is a left inverse of escaping: the escaped form of any
/// text unescapes to exactly that text.
pub proof fn lemma_unescape_escape(s: Seq<char>)
    ensures
        unescape_seq(escape_seq(s)) == Some(s),
    decreases s.len(),
{
    if s.len() == 0 {
        assert(escape_seq(s) =~= Seq::<char>::empty());
        assert(unescape_seq(escape_seq(s)) == Some(Seq::<char>::empty()));
        assert(Seq::<char>::empty() =~= s);
    } else {
        let c = s.first();
        let d = s.drop_first();
        lemma_unescape_escape(d);
        let tail = escape_seq(d);
        assert(escape_seq(s) == esc_char(c) + tail);
        let w = escape_seq(s);
        if c == '"' || c == '\\' || c == '\n' || c == '\r' || c == '\t' || c == '\u{8}' || c
            == '\u{c}' {
            assert(w.len() == 2 + tail.len());
            assert(w.first() == '\\');
            assert(w[1] == esc_char(c)[1]);
            assert(w.skip(2) =~= tail);
            assert(unesc_named(esc_char(c)[1]) == c);
            assert(seq![c] + d =~= s);
        } else if (c as u32) < 0x20 {
            assert(w.len() == 6 + tail.len());
            assert(w.first() == '\\');
            assert(w[1] == 'u');
            assert(w[2] == '0');
            assert(w[3] == '0');
            assert(w[4] == hex_digit(((c as u32) >> 4) as u64));
            assert(w[5] == hex_digit(((c as u32) & 0xf) as u64));
            assert(w.skip(6) =~= tail);
            let x: u32 = c as u32;
            assert(x < 0x20 ==> (x >> 4) < 16 && (x & 0xf) < 16 && ((x >> 4) * 16 + (x & 0xf))
                == x) by (bit_vector);
            assert(hex_val(w[4]) == (x >> 4) as u64);
            assert(hex_val(w[5]) == (x & 0xf) as u64);
            let code = hex_val(w[4]) * 16 + hex_val(w[5]);
            assert(code == x);
            vstd::utf8::char_u32_cast(c, code as u32);
            assert(((code as u32) as char) == c);
            assert(seq![c] + d =~= s);
        } else {
            assert(w.len() == 1 + tail.len());
            assert(w.first() == c);
            assert(c != '\\');
            assert(w.drop_first() =~= tail);
            assert(seq![c] + d =~= s);
        }
    }
}

proof fn lemma_digits_end_of_run(s: Seq<char>, p: int, q: int)
    requires
        0 <= p <= q <= s.len(),
        forall|i: int| p <= i < q ==> is_dec_digit(#[trigger] s[i]),
        q == s.len() || !is_dec_digit(s[q]),
    ensures
        digits_end(s, p) == q,
    decreases q - p,
{
    if p < q {
        lemma_digits_end_of_run(s, p + 1, q);
    }
}

proof fn lemma_scan_escaped(s: Seq<char>, p: int, name: Seq<char>)
    requires
        0 <= p,
        p + escape_seq(name).len() < s.len(),
        forall|i: int|
            0 <= i < escape_seq(name).len() ==> s[p + i] == #[trigger] escape_seq(name)[i],
        s[p + escape_seq(name).len()] == '"',
    ensures
        scan_jstring(s, p) == Some((name, p + escape_seq(name).len() as int)),
    decreases name.len(),
{
    if name.len() == 0 {
        assert(escape_seq(name) =~= Seq::<char>::empty());
        assert(s[p] == '"');
        assert(name =~= Seq::<char>::empty());
    } else {
        let c = name.first();
        let rest = name.drop_first();
        let ec = esc_char(c);
        let tail = escape_seq(rest);
        assert(escape_seq(name) == ec + tail);
        let w = escape_seq(name);
        assert forall|i: int| 0 <= i < ec.len() implies s[p + i] == ec[i] by {
            assert(w[i] == ec[i]);
        }
        let p2 = p + ec.len();
        assert forall|i: int| 0 <= i < tail.len() implies s[p2 + i] == #[trigger] tail[i] by {
            assert(w[ec.len() + i] == tail[i]);
            assert(s[p + (ec.len() + i)] == w[ec.len() + i]);
        }
        lemma_scan_escaped(s, p2, rest);
        assert(seq![c] + rest =~= name);
        if c == '"' || c == '\\' || c == '\n' || c == '\r' || c == '\t' || c == '\u{8}' || c
            == '\u{c}' {
            assert(ec.len() == 2);
            assert(s[p] == '\\');
            assert(s[p + 1] == ec[1]);
            assert(unesc_named(ec[1]) == c);
        } else if (c as u32) < 0x20 {
            assert(ec.len() == 6);
            assert(s[p] == '\\');
            assert(s[p + 1] == 'u');
            assert(s[p + 2] == '0');
            assert(s[p + 3] == '0');
            assert(s[p + 4] == hex_digit(((c as u32) >> 4) as u64));
            assert(s[p + 5] == hex_digit(((c as u32) & 0xf) as u64));
            let x: u32 = c as u32;
            assert(x < 0x20 ==> (x >> 4) < 16 && (x & 0xf) < 16 && ((x >> 4) * 16 + (x & 0xf))
                == x) by (bit_vector);
            assert(hex_val(s[p + 4]) == (x >> 4) as u64);
            assert(hex_val(s[p + 5]) == (x & 0xf) as u64);
            let code = hex_val(s[p + 4]) * 16 + hex_val(s[p + 5]);
            assert(code == x);
            vstd::utf8::char_u32_cast(c, code as u32);
            assert(((code as u32) as char) == c);
        } else {
            assert(ec.len() == 1);
            assert(s[p] == c);
            assert(c != '"');
            assert(c != '\\');
        }
    }
}

/// Parsing the compact JSON rendering of any record recovers its three
/// fields: the identifier, the name, and the decimal token of the value.
pub proof fn lemma_parse_of_rendered(m: DataModel)
    ensures
        parse_fields(record_json(m)) == Some(
            (m.id as nat, m.name@, decimal_of(m.value)),
        ),
{
    reveal_strlit("{\"id\":");
    reveal_strlit(",\"name\":\"");
    reveal_strlit("\",\"value\":");
    reveal_strlit("}");
    let s = record_json(m);
    let l1 = "{\"id\":"@;
    let l2 = ",\"name\":\""@;
    let l3 = "\",\"value\":"@;
    let dd = digits_of(m.id);
    let ee = escape_seq(m.name@);
    let vv = decimal_of(m.value);
    let a2 = 6 + dd.len() as int;
    let a3 = a2 + 9;
    let a4 = a3 + ee.len() as int;
    let a5 = a4 + 10;
    assert(l1.len() == 6);
    assert(l2.len() == 9);
    assert(l3.len() == 10);
    assert(s.len() == a5 + vv.len() + 1);
    assert forall|i: int| 0 <= i < 6 implies s[i] == l1[i] by {}
    assert forall|i: int| 0 <= i < dd.len() implies s[6 + i] == #[trigger] dd[i] by {}
    assert forall|i: int| 0 <= i < 9 implies s[a2 + i] == l2[i] by {}
    assert forall|i: int| 0 <= i < ee.len() implies s[a3 + i] == #[trigger] ee[i] by {}
    assert forall|i: int| 0 <= i < 10 implies s[a4 + i] == l3[i] by {}
    assert forall|i: int| 0 <= i < vv.len() implies s[a5 + i] == #[trigger] vv[i] by {}
    assert(s[s.len() - 1] == '}');
    assert(s.subrange(0, 6) =~= l1);
    lemma_digits_are_digits(m.id);
    assert(dd.len() >= 1);
    assert(s[a2] == ',');
    assert(!is_dec_digit(','));
    assert forall|i: int| 6 <= i < a2 implies is_dec_digit(#[trigger] s[i]) by {
        assert(s[i] == dd[i - 6]);
    }
    lemma_digits_end_of_run(s, 6, a2);
    assert(digits_end(s, l1.len() as int) == a2);
    assert(s.subrange(6, a2) =~= dd);
    lemma_digits_round_trip(m.id);
    assert(s.subrange(a2, a2 + 9) =~= l2);
    assert(s[a4] == '"');
    lemma_scan_escaped(s, a3, m.name@);
    assert(scan_jstring(s, a3) == Some((m.name@, a4)));
    assert(s.subrange(a4, a4 + 10) =~= l3);
    assert(s.subrange(a5, s.len() - 1) =~= vv);
}

/// Parsing the pretty JSON rendering of any record likewise recovers its
/// three fields.
pub proof fn lemma_parse_of_rendered_pretty(m: DataModel)
    ensures
        parse_fields_pretty(record_json_pretty(m)) == Some(
            (m.id as nat, m.name@, decimal_of(m.value)),
        ),
{
    reveal_strlit("{\n  \"id\": ");
    reveal_strlit(",\n  \"name\": \"");
    reveal_strlit("\",\n  \"value\": ");
    reveal_strlit("\n}");
    let s = record_json_pretty(m);
    let l1 = "{\n  \"id\": "@;
    let l2 = ",\n  \"name\": \""@;
    let l3 = "\",\n  \"value\": "@;
    let dd = digits_of(m.id);
    let ee = escape_seq(m.name@);
    let vv = decimal_of(m.value);
    let a2 = 10 + dd.len() as int;
    let a3 = a2 + 13;
    let a4 = a3 + ee.len() as int;
    let a5 = a4 + 14;
    assert(l1.len() == 10);
    assert(l2.len() == 13);
    assert(l3.len() == 14);
    assert(s.len() == a5 + vv.len() + 2);
    assert forall|i: int| 0 <= i < 10 implies s[i] == l1[i] by {}
    assert forall|i: int| 0 <= i < dd.len() implies s[10 + i] == #[trigger] dd[i] by {}
    assert forall|i: int| 0 <= i < 13 implies s[a2 + i] == l2[i] by {}
    assert forall|i: int| 0 <= i < ee.len() implies s[a3 + i] == #[trigger] ee[i] by {}
    assert forall|i: int| 0 <= i < 14 implies s[a4 + i] == l3[i] by {}
    assert forall|i: int| 0 <= i < vv.len() implies s[a5 + i] == #[trigger] vv[i] by {}
    assert(s[s.len() - 2] == '\n');
    assert(s[s.len() - 1] == '}');
    assert(s.subrange(0, 10) =~= l1);
    lemma_digits_are_digits(m.id);
    assert(dd.len() >= 1);
    assert(s[a2] == ',');
    assert(!is_dec_digit(','));
    assert forall|i: int| 10 <= i < a2 implies is_dec_digit(#[trigger] s[i]) by {
        assert(s[i] == dd[i - 10]);
    }
    lemma_digits_end_of_run(s, 10, a2);
    assert(digits_end(s, l1.len() as int) == a2);
    assert(s.subrange(10, a2) =~= dd);
    lemma_digits_round_trip(m.id);
    assert(s.subrange(a2, a2 + 13) =~= l2);
    assert(s[a4] == '"');
    lemma_scan_escaped(s, a3, m.name@);
    assert(scan_jstring(s, a3) == Some((m.name@, a4)));
    assert(s.subrange(a4, a4 + 14) =~= l3);
    assert(s.subrange(a5, s.len() - 2) =~= vv);
}

proof fn lemma_digits_end_ge(s: Seq<char>, p: int)
    requires
        0 <= p <= s.len(),
    ensures
        p <= digits_end(s, p) <= s.len(),
    decreases s.len() - p,
{
    if p < s.len() && is_dec_digit(s[p]) {
        lemma_digits_end_ge(s, p + 1);
    }
}

proof fn lemma_digits_val_mono(s: Seq<char>, p: int, a: int, b: int)
    requires
        0 <= p <= a <= b <= s.len(),
    ensures
        digits_val(s.subrange(p, a)) <= digits_val(s.subrange(p, b)),
    decreases b - a,
{
    if a < b {
        lemma_digits_val_mono(s, p, a, b - 1);
        assert(s.subrange(p, b).drop_last() =~= s.subrange(p, b - 1));
    }
}

fn digit_of(c: char) -> (r: u64)
    ensures
        r == digit_val(c),
{
    if c == '0' {
        0
    } else if c == '1' {
        1
    } else if c == '2' {
        2
    } else if c == '3' {
        3
    } else if c == '4' {
        4
    } else if c == '5' {
        5
    } else if c == '6' {
        6
    } else if c == '7' {
        7
    } else if c == '8' {
        8
    } else if c == '9' {
        9
    } else {
        10
    }
}

fn hex_of(c: char) -> (r: u64)
    ensures
        r == hex_val(c),
{
    let d = digit_of(c);
    if d < 10 {
        d
    } else if c == 'a' {
        10
    } else if c == 'b' {
        11
    } else if c == 'c' {
        12
    } else if c == 'd' {
        13
    } else if c == 'e' {
        14
    } else if c == 'f' {
        15
    } else {
        16
    }
}

fn expect_lit(s: &str, n: usize, p: usize, lit: &str, ln: usize) -> (r: bool)
    requires
        n == s@.len(),
        ln == lit@.len(),
        p <= n,
    ensures
        r == (p + ln <= n && s@.subrange(p as int, p as int + ln as int) == lit@),
{
    if ln > n - p {
        return false;
    }
    let mut j: usize = 0;
    while j < ln
        invariant
            n == s@.len(),
            ln == lit@.len(),
            p + ln <= n,
            j <= ln,
            forall|k: int| 0 <= k < j ==> s@[p + k] == lit@[k],
        decreases ln - j,
    {
        if s.get_char(p + j) != lit.get_char(j) {
            proof {
                assert(s@.subrange(p as int, p as int + ln as int)[j as int] == s@[p + j]);
            }
            return false;
        }
        j = j + 1;
    }
    proof {
        assert(s@.subrange(p as int, p as int + ln as int) =~= lit@);
    }
    true
}

fn scan_digits_exec(s: &str, n: usize, p0: usize) -> (r: Option<(u64, usize)>)
    requires
        n == s@.len(),
        p0 <= n,
    ensures
        match r {
            Some((v, q)) => p0 <= q <= n && q as int == digits_end(s@, p0 as int) && v as nat
                == digits_val(s@.subrange(p0 as int, q as int)),
            None => digits_val(s@.subrange(p0 as int, digits_end(s@, p0 as int))) > u64::MAX,
        },
{
    let mut p: usize = p0;
    let mut acc: u64 = 0;
    proof {
        assert(s@.subrange(p0 as int, p0 as int) =~= Seq::<char>::empty());
    }
    while p < n && digit_of(s.get_char(p)) < 10
        invariant
            p0 <= p <= n,
            n == s@.len(),
            digits_end(s@, p0 as int) == digits_end(s@, p as int),
            acc as nat == digits_val(s@.subrange(p0 as int, p as int)),
        decreases n - p,
    {
        let d = digit_of(s.get_char(p));
        proof {
            assert(digits_end(s@, p as int) == digits_end(s@, p + 1));
            lemma_digits_end_ge(s@, p + 1);
            assert(s@.subrange(p0 as int, p + 1).drop_last() =~= s@.subrange(p0 as int, p as int));
            assert(s@.subrange(p0 as int, p + 1).last() == s@[p as int]);
        }
        if acc > (u64::MAX - d) / 10 {
            proof {
                let e = digits_end(s@, p0 as int);
                lemma_digits_val_mono(s@, p0 as int, p + 1, e);
                assert(acc * 10 + d > u64::MAX) by (nonlinear_arith)
                    requires
                        acc > (u64::MAX - d) / 10,
                        d <= 10,
                ;
            }
            return None;
        }
        proof {
            assert(acc * 10 + d <= u64::MAX) by (nonlinear_arith)
                requires
                    acc <= (u64::MAX - d) / 10,
                    d <= 10,
            ;
        }
        acc = acc * 10 + d;
        p = p + 1;
    }
    Some((acc, p))
}

fn digits_run(s: &str, n: usize, p0: usize) -> (r: usize)
    requires
        n == s@.len(),
        p0 <= n,
    ensures
        r as int == digits_end(s@, p0 as int),
        p0 <= r <= n,
{
    let mut p: usize = p0;
    while p < n && digit_of(s.get_char(p)) < 10
        invariant
            p0 <= p <= n,
            n == s@.len(),
            digits_end(s@, p0 as int) == digits_end(s@, p as int),
        decreases n - p,
    {
        proof {
            assert(digits_end(s@, p as int) == digits_end(s@, p + 1));
        }
        p = p + 1;
    }
    p
}

fn is_plain_decimal(s: &str, n: usize) -> (r: bool)
    requires
        n == s@.len(),
    ensures
        r == plain_decimal(s@),
{
    let start: usize = if n > 0 && s.get_char(0) == '-' {
        1
    } else {
        0
    };
    let e1 = digits_run(s, n, start);
    if e1 == start {
        return false;
    }
    let p2: usize = if e1 < n && s.get_char(e1) == '.' {
        let e2 = digits_run(s, n, e1 + 1);
        if e2 == e1 + 1 {
            return false;
        }
        e2
    } else {
        e1
    };
    if p2 == n {
        return true;
    }
    let c = s.get_char(p2);
    if c != 'e' && c != 'E' {
        return false;
    }
    let p3: usize = if p2 + 1 < n {
        let d = s.get_char(p2 + 1);
        if d == '+' || d == '-' {
            p2 + 2
        } else {
            p2 + 1
        }
    } else {
        p2 + 1
    };
    let e3 = digits_run(s, n, p3);
    e3 > p3 && e3 == n
}

fn scan_name(s: &str, n: usize, p0: usize) -> (r: Option<(Vec<char>, usize)>)
    requires
        n == s@.len(),
        p0 <= n,
    ensures
        match r {
            None => scan_jstring(s@, p0 as int) is None,
            Some((cs, q)) => p0 <= q <= n && scan_jstring(s@, p0 as int) == Some(
                (cs@, q as int),
            ),
        },
{
    let mut out: Vec<char> = Vec::new();
    let mut p: usize = p0;
    loop
        invariant
            p0 <= p <= n,
            n == s@.len(),
            scan_jstring(s@, p as int) is None ==> scan_jstring(s@, p0 as int) is None,
            forall|t: Seq<char>, q: int|
                scan_jstring(s@, p as int) == Some((t, q)) ==> scan_jstring(s@, p0 as int)
                    == Some((out@ + t, q)),
        decreases n - p,
    {
        if p == n {
            return None;
        }
        let c = s.get_char(p);
        if c == '"' {
            proof {
                assert(scan_jstring(s@, p as int) == Some((Seq::<char>::empty(), p as int)));
                assert(out@ + Seq::<char>::empty() =~= out@);
            }
            return Some((out, p));
        }
        if c == '\\' {
            if n - p < 2 {
                return None;
            }
            let e = s.get_char(p + 1);
            if e == '"' || e == '\\' || e == 'n' || e == 'r' || e == 't' || e == 'b' || e == 'f' {
                let u: char = if e == '"' {
                    '"'
                } else if e == '\\' {
                    '\\'
                } else if e == 'n' {
                    '\n'
                } else if e == 'r' {
                    '\r'
                } else if e == 't' {
                    '\t'
                } else if e == 'b' {
                    '\u{8}'
                } else {
                    '\u{c}'
                };
                proof {
                    assert(u == unesc_named(e));
                    let ghost pre = out@;
                    assert forall|t: Seq<char>, q: int|
                        scan_jstring(s@, p + 2) == Some((t, q)) implies scan_jstring(
                        s@,
                        p0 as int,
                    ) == Some((pre.push(u) + t, q)) by {
                        assert(scan_jstring(s@, p as int) == Some((seq![u] + t, q)));
                        assert(pre + (seq![u] + t) =~= pre.push(u) + t);
                    }
                }
                out.push(u);
                p = p + 2;
            } else if e == 'u' {
                if n - p < 6 {
                    return None;
                }
                let c2 = s.get_char(p + 2);
                let c3 = s.get_char(p + 3);
                let h4 = hex_of(s.get_char(p + 4));
                let h5 = hex_of(s.get_char(p + 5));
                if c2 == '0' && c3 == '0' && h4 < 16 && h5 < 16 {
                    let code: u64 = h4 * 16 + h5;
                    let u: char = (code as u8) as char;
                    proof {
                        assert((u as u32) == code as u32);
                        vstd::utf8::char_u32_cast(u, code as u32);
                        assert(u == ((code as u32) as char));
                        let ghost pre = out@;
                        assert forall|t: Seq<char>, q: int|
                            scan_jstring(s@, p + 6) == Some((t, q)) implies scan_jstring(
                            s@,
                            p0 as int,
                        ) == Some((pre.push(u) + t, q)) by {
                            assert(scan_jstring(s@, p as int) == Some((seq![u] + t, q)));
                            assert(pre + (seq![u] + t) =~= pre.push(u) + t);
                        }
                    }
                    out.push(u);
                    p = p + 6;
                } else {
                    return None;
                }
            } else {
                return None;
            }
        } else {
            proof {
                let ghost pre = out@;
                assert forall|t: Seq<char>, q: int|
                    scan_jstring(s@, p + 1) == Some((t, q)) implies scan_jstring(s@, p0 as int)
                        == Some((pre.push(c) + t, q)) by {
                    assert(scan_jstring(s@, p as int) == Some((seq![c] + t, q)));
                    assert(pre + (seq![c] + t) =~= pre.push(c) + t);
                }
            }
            out.push(c);
            p = p + 1;
        }
    }
}

/// The parser for the compact JSON rendering.  On the rendering of any
/// well-formed record it returns a record with the same fields; on a text
/// that does not have that shape, or whose fields a record cannot carry,
/// it returns `None`.  The value token must be a plain decimal number of
/// bounded length: only that class is handed to the outside parser.
pub fn parse_record(s: &str) -> (r: Option<DataModel>)
    ensures
        match parse_fields(s@) {
            None => r is None,
            Some((idv, nm, tok)) => {
                if idv > u64::MAX || !plain_decimal(tok) || tok.len() >= 0x8000_0000 {
                    r is None
                } else {
                    match parsed_decimal_of(tok) {
                        None => r is None,
                        Some(v) => {
                            if nm.len() > 0 && is_finite_bits(v) {
                                r matches Some(p) && p.id as nat == idv && p.name@ == nm
                                    && p.value == v
                            } else {
                                r is None
                            }
                        },
                    }
                }
            },
        },
{
    proof {
        reveal_strlit("{\"id\":");
        reveal_strlit(",\"name\":\"");
        reveal_strlit("\",\"value\":");
    }
    let n = s.unicode_len();
    if !expect_lit(s, n, 0, "{\"id\":", 6) {
        return None;
    }
    let scanned = scan_digits_exec(s, n, 6);
    if scanned.is_none() {
        return None;
    }
    let (idv, e1) = scanned.unwrap();
    if e1 == 6 {
        return None;
    }
    if !expect_lit(s, n, e1, ",\"name\":\"", 9) {
        return None;
    }
    let name_scan = scan_name(s, n, e1 + 9);
    if name_scan.is_none() {
        return None;
    }
    let (cs, q) = name_scan.unwrap();
    if !expect_lit(s, n, q, "\",\"value\":", 10) {
        return None;
    }
    if n - (q + 10) < 1 {
        return None;
    }
    if s.get_char(n - 1) != '}' {
        return None;
    }
    let tok = s.substring_char(q + 10, n - 1);
    let tok_len: usize = (n - 1) - (q + 10);
    if tok_len >= 0x8000_0000 {
        return None;
    }
    if !is_plain_decimal(tok, tok_len) {
        return None;
    }
    let parsed = parse_decimal(tok);
    if parsed.is_none() {
        return None;
    }
    let v = parsed.unwrap();
    let name_str = crate::render::chars_to_string(&cs);
    match DataModel::new(idv, name_str, v) {
        Ok(m) => Some(m),
        Err(_) => None,
    }
}

/// The serialization round trip: rendering a well-formed record to JSON
/// and parsing the text back yields a record that equals the original,
/// field for field.  The contract proves that this check never fails.
pub fn rendered_round_trips(m: &DataModel) -> (r: bool)
    requires
        m.wf(),
    ensures
        r,
{
    let json = match m.to_json() {
        Ok(j) => j,
        Err(_) => vstd::pervasive::unreached(),
    };
    match parse_record(json.as_str()) {
        Some(p) => {
            let same = p.id == m.id && p.name == m.name && p.value == m.value;
            proof {
                assert(same);
            }
            same
        },
        None => vstd::pervasive::unreached(),
    }
}

} // verus!
