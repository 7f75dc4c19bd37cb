//! Rendering of records: the plain-text line and the JSON serialization.
//!
//! The digit strings, the JSON string escaping and the assembly of the
//! output are verified character by character.  Only the decimal rendering
//! of the binary64 value itself is an outside call, with a named result:
//! `rustc_apfloat`'s decimal formatter emits enough digits that parsing
//! the text back recovers the exact bit pattern of any finite value.

use rustc_apfloat::Float;
use vstd::prelude::*;

use crate::bits::is_finite_bits;
use crate::parse::lemma_parse_of_rendered;
use crate::parse::lemma_parse_of_rendered_pretty;
use crate::parse::parse_fields;
use crate::parse::parse_fields_pretty;
use crate::parse::plain_decimal;
use crate::record::CoreError;
use crate::record::DataModel;

verus! {

/// The decimal character of a digit.
pub open spec fn dec_digit(d: u64) -> char {
    if d == 0 {
        '0'
    } else if d == 1 {
        '1'
    } else if d == 2 {
        '2'
    } else if d == 3 {
        '3'
    } else if d == 4 {
        '4'
    } else if d == 5 {
        '5'
    } else if d == 6 {
        '6'
    } else if d == 7 {
        '7'
    } else if d == 8 {
        '8'
    } else {
        '9'
    }
}

/// The decimal digit string of an unsigned integer, most significant
/// digit first, without leading zeros (`0` itself is `"0"`).
pub open spec fn digits_of(n: u64) -> Seq<char>
    decreases n,
{
    if n < 10 {
        seq![dec_digit(n)]
    } else {
        digits_of(n / 10).push(dec_digit(n % 10))
    }
}

/// The lower-case hexadecimal character of a digit.
pub open spec fn hex_digit(d: u64) -> char {
    if d < 10 {
        dec_digit(d)
    } else if d == 10 {
        'a'
    } else if d == 11 {
        'b'
    } else if d == 12 {
        'c'
    } else if d == 13 {
        'd'
    } else if d == 14 {
        'e'
    } else {
        'f'
    }
}

/// The JSON escape of one character: quote, backslash and the named
/// control characters get a two-character escape, the other control
/// characters a `\u00` escape, everything else stands for itself.
pub open spec fn esc_char(c: char) -> Seq<char> {
    if c == '"' {
        seq!['\\', '"']
    } else if c == '\\' {
        seq!['\\', '\\']
    } else if c == '\n' {
        seq!['\\', 'n']
    } else if c == '\r' {
        seq!['\\', 'r']
    } else if c == '\t' {
        seq!['\\', 't']
    } else if c == '\u{8}' {
        seq!['\\', 'b']
    } else if c == '\u{c}' {
        seq!['\\', 'f']
    } else if (c as u32) < 0x20 {
        seq!['\\', 'u', '0', '0', hex_digit(((c as u32) >> 4) as u64), hex_digit(
            ((c as u32) & 0xf) as u64,
        )]
    } else {
        seq![c]
    }
}

/// The JSON escape of a character sequence.
pub open spec fn escape_seq(s: Seq<char>) -> Seq<char>
    decreases s.len(),
{
    if s.len() == 0 {
        Seq::empty()
    } else {
        esc_char(s.first()) + escape_seq(s.drop_first())
    }
}

/// The decimal text that the outside formatter renders for a pattern.
pub uninterp spec fn decimal_of(b: u64) -> Seq<char>;

/// The pattern that the outside parser recovers from a decimal text, if
/// any.
pub uninterp spec fn parsed_decimal_of(s: Seq<char>) -> Option<u64>;

/// The plain-text rendering of a record.
pub open spec fn formatted(m: DataModel) -> Seq<char> {
    "Data #"@ + digits_of(m.id) + ": "@ + m.name@ + " = "@ + decimal_of(m.value)
}

/// The compact JSON rendering of a record.
pub open spec fn record_json(m: DataModel) -> Seq<char> {
    "{\"id\":"@ + digits_of(m.id) + ",\"name\":\""@ + escape_seq(m.name@) + "\",\"value\":"@
        + decimal_of(m.value) + "}"@
}

/// The pretty JSON rendering of a record, with two-space indentation.
pub open spec fn record_json_pretty(m: DataModel) -> Seq<char> {
    "{\n  \"id\": "@ + digits_of(m.id) + ",\n  \"name\": \""@ + escape_seq(m.name@)
        + "\",\n  \"value\": "@ + decimal_of(m.value) + "\n}"@
}

/// Relies on the `core::fmt::Display` rendering of
/// `rustc_apfloat::ieee::Double`: a decimal form of the encoded value
/// with enough digits that it can be parsed back to the same value, and
/// on `rustc_apfloat::ieee::Double::from_str`, the correctly rounded
/// parser that recovers it.  For a finite value the rendered text is a
/// short plain decimal number (an optional sign, digits, an optional
/// fraction, an optional exponent), the shape the parser is given.
#[verifier::external_body]
fn decimal_bits(b: u64) -> (r: String)
    ensures
        r@ == decimal_of(b),
        is_finite_bits(b) ==> parsed_decimal_of(r@) == Some(b),
        is_finite_bits(b) ==> plain_decimal(r@) && r@.len() < 0x8000_0000,
{
    let x = rustc_apfloat::ieee::Double::from_bits(b as u128);
    format!("{}", x)
}

/// Relies on `rustc_apfloat::ieee::Double::from_str`: correctly rounded
/// parsing of a decimal text; an unparsable text is reported, not a
/// panic.  Callers keep to plain decimal tokens of bounded length: on
/// other forms the parser is not a JSON number reader, and on an
/// enormous hexadecimal significand it would abort.
#[verifier::external_body]
pub(crate) fn parse_decimal(s: &str) -> (r: Option<u64>)
    requires
        plain_decimal(s@),
        s@.len() < 0x8000_0000,
    ensures
        r == parsed_decimal_of(s@),
{
    match s.parse::<rustc_apfloat::ieee::Double>() {
        Ok(d) => Some(d.to_bits() as u64),
        Err(_) => None,
    }
}

/// Relies on `String`'s `FromIterator` over characters: collecting
/// characters yields exactly that character sequence.
#[verifier::external_body]
pub(crate) fn chars_to_string(v: &Vec<char>) -> (r: String)
    ensures
        r@ == v@,
{
    v.iter().collect()
}

fn digit_str(d: u64) -> (r: &'static str)
    requires
        d < 10,
    ensures
        r@ == seq![dec_digit(d)],
{
    let r: &'static str = if d == 0 {
        "0"
    } else if d == 1 {
        "1"
    } else if d == 2 {
        "2"
    } else if d == 3 {
        "3"
    } else if d == 4 {
        "4"
    } else if d == 5 {
        "5"
    } else if d == 6 {
        "6"
    } else if d == 7 {
        "7"
    } else if d == 8 {
        "8"
    } else {
        "9"
    };
    proof {
        reveal_strlit("0");
        reveal_strlit("1");
        reveal_strlit("2");
        reveal_strlit("3");
        reveal_strlit("4");
        reveal_strlit("5");
        reveal_strlit("6");
        reveal_strlit("7");
        reveal_strlit("8");
        reveal_strlit("9");
        assert(r@ =~= seq![dec_digit(d)]);
    }
    r
}

fn push_digits(s: &mut String, n: u64)
    ensures
        final(s)@ == old(s)@ + digits_of(n),
    decreases n,
{
    if n < 10 {
        s.append(digit_str(n));
        proof {
            assert(s@ =~= old(s)@ + digits_of(n));
        }
    } else {
        push_digits(s, n / 10);
        s.append(digit_str(n % 10));
        proof {
            assert(s@ =~= old(s)@ + digits_of(n));
        }
    }
}

proof fn lemma_escape_push(t: Seq<char>, c: char)
    ensures
        escape_seq(t.push(c)) == escape_seq(t) + esc_char(c),
    decreases t.len(),
{
    if t.len() == 0 {
        let e = t.push(c).drop_first();
        assert(e =~= Seq::<char>::empty());
        assert(t.push(c).first() == c);
        assert(escape_seq(e) =~= Seq::<char>::empty());
        assert(escape_seq(t) =~= Seq::<char>::empty());
        assert(escape_seq(t.push(c)) == esc_char(c) + escape_seq(e));
        assert(escape_seq(t.push(c)) =~= escape_seq(t) + esc_char(c));
    } else {
        assert(t.push(c).drop_first() =~= t.drop_first().push(c));
        assert(t.push(c).first() == t.first());
        lemma_escape_push(t.drop_first(), c);
        assert(escape_seq(t.push(c)) == esc_char(t.first()) + escape_seq(t.drop_first().push(c)));
        assert(escape_seq(t.push(c)) == esc_char(t.first()) + (escape_seq(t.drop_first())
            + esc_char(c)));
        assert(escape_seq(t) == esc_char(t.first()) + escape_seq(t.drop_first()));
        assert(escape_seq(t.push(c)) =~= escape_seq(t) + esc_char(c));
    }
}

fn hex_char(n: u32) -> (r: char)
    requires
        n < 16,
    ensures
        r == hex_digit(n as u64),
{
    if n == 0 {
        '0'
    } else if n == 1 {
        '1'
    } else if n == 2 {
        '2'
    } else if n == 3 {
        '3'
    } else if n == 4 {
        '4'
    } else if n == 5 {
        '5'
    } else if n == 6 {
        '6'
    } else if n == 7 {
        '7'
    } else if n == 8 {
        '8'
    } else if n == 9 {
        '9'
    } else if n == 10 {
        'a'
    } else if n == 11 {
        'b'
    } else if n == 12 {
        'c'
    } else if n == 13 {
        'd'
    } else if n == 14 {
        'e'
    } else {
        'f'
    }
}

fn escape_chars(s: &str) -> (r: Vec<char>)
    ensures
        r@ == escape_seq(s@),
{
    let mut out: Vec<char> = Vec::new();
    let n: usize = s.unicode_len();
    let mut i: usize = 0;
    proof {
        assert(s@.take(0) =~= Seq::<char>::empty());
    }
    while i < n
        invariant
            i <= n,
            n == s@.len(),
            out@ == escape_seq(s@.take(i as int)),
        decreases n - i,
    {
        let c: char = s.get_char(i);
        proof {
            assert(s@.take(i + 1) =~= s@.take(i as int).push(s@[i as int]));
            lemma_escape_push(s@.take(i as int), s@[i as int]);
        }
        if c == '"' {
            out.push('\\');
            out.push('"');
        } else if c == '\\' {
            out.push('\\');
            out.push('\\');
        } else if c == '\n' {
            out.push('\\');
            out.push('n');
        } else if c == '\r' {
            out.push('\\');
            out.push('r');
        } else if c == '\t' {
            out.push('\\');
            out.push('t');
        } else if c == '\u{8}' {
            out.push('\\');
            out.push('b');
        } else if c == '\u{c}' {
            out.push('\\');
            out.push('f');
        } else if (c as u32) < 0x20 {
            proof {
                let x: u32 = c as u32;
                assert(x < 0x20 ==> (x >> 4) < 16 && (x & 0xf) < 16) by (bit_vector);
            }
            out.push('\\');
            out.push('u');
            out.push('0');
            out.push('0');
            out.push(hex_char((c as u32) >> 4));
            out.push(hex_char((c as u32) & 0xf));
        } else {
            out.push(c);
        }
        proof {
            assert(out@ =~= escape_seq(s@.take(i + 1)));
        }
        i = i + 1;
    }
    proof {
        assert(s@.take(s@.len() as int) =~= s@);
    }
    out
}

/// The plain-text rendering: `Data #<id>: <name> = <value>`, with the
/// value in the decimal form of the outside formatter.
pub fn format_data(model: &DataModel) -> (r: String)
    ensures
        r@ == formatted(*model),
{
    let mut s = "Data #".to_owned();
    push_digits(&mut s, model.id);
    s.append(": ");
    s.append(model.name.as_str());
    s.append(" = ");
    let dec = decimal_bits(model.value);
    s.append(dec.as_str());
    proof {
        assert(s@ =~= formatted(*model));
    }
    s
}

/// The pretty JSON rendering of a record, preserving the field names
/// `id`, `name` and `value`.  Serialization of a well-formed record
/// cannot fail; the `Result` shape is kept for callers that propagate
/// serialization errors.
///
/// The last two clauses are the round trip: parsing the rendered text
/// recovers the record's fields, and decoding the value token recovers
/// the exact bit pattern.
pub fn serialize_data(model: &DataModel) -> (r: Result<String, CoreError>)
    requires
        model.wf(),
    ensures
        r matches Ok(s) && s@ == record_json_pretty(*model),
        parse_fields_pretty(record_json_pretty(*model)) == Some(
            (model.id as nat, model.name@, decimal_of(model.value)),
        ),
        parsed_decimal_of(decimal_of(model.value)) == Some(model.value),
{
    proof {
        lemma_parse_of_rendered_pretty(*model);
    }
    let mut s = "{\n  \"id\": ".to_owned();
    push_digits(&mut s, model.id);
    s.append(",\n  \"name\": \"");
    let esc = escape_chars(model.name.as_str());
    let esc_s = chars_to_string(&esc);
    s.append(esc_s.as_str());
    s.append("\",\n  \"value\": ");
    let dec = decimal_bits(model.value);
    s.append(dec.as_str());
    s.append("\n}");
    proof {
        assert(s@ =~= record_json_pretty(*model));
    }
    Ok(s)
}

impl DataModel {
    /// The compact JSON rendering, preserving the field names `id`,
    /// `name` and `value`.  Serialization of a well-formed record cannot
    /// fail; the `Result` shape is kept for callers that propagate
    /// serialization errors.
    ///
    /// The last two clauses are the round trip: parsing the rendered
    /// text recovers the record's fields, and decoding the value token
    /// recovers the exact bit pattern.
    pub fn to_json(&self) -> (r: Result<String, CoreError>)
        requires
            self.wf(),
        ensures
            r matches Ok(s) && s@ == record_json(*self),
            parse_fields(record_json(*self)) == Some(
                (self.id as nat, self.name@, decimal_of(self.value)),
            ),
            parsed_decimal_of(decimal_of(self.value)) == Some(self.value),
            plain_decimal(decimal_of(self.value)) && decimal_of(self.value).len() < 0x8000_0000,
    {
        proof {
            lemma_parse_of_rendered(*self);
        }
        let mut s = "{\"id\":".to_owned();
        push_digits(&mut s, self.id);
        s.append(",\"name\":\"");
        let esc = escape_chars(self.name.as_str());
        let esc_s = chars_to_string(&esc);
        s.append(esc_s.as_str());
        s.append("\",\"value\":");
        let dec = decimal_bits(self.value);
        s.append(dec.as_str());
        s.append("}");
        proof {
            assert(s@ =~= record_json(*self));
        }
        Ok(s)
    }
}

} // verus!
