use vstd::prelude::*;

use crate::lexer::{chars_to_string, false_chars, null_chars, str_to_chars, true_chars};
use crate::types::{JsonValue, ParseError, SpecError, SpecValue};

verus! {

// ----------------------------------------------------------------------------
// Rendering a value back to text, as mathematics
// ----------------------------------------------------------------------------

/// The control characters: the only characters that must leave a string as
/// `\uXXXX` escapes.
pub open spec fn is_ctrl_char(c: char) -> bool {
    (c as u32) < 0x20 || (0x7F <= c as u32 && c as u32 <= 0x9F)
}

/// The lower-case hexadecimal digit with value `d`.
pub open spec fn hex_char_of(d: u32) -> char {
    if d == 0 {
        '0'
    } else if d == 1 {
        '1'
    } else if d == 2 {
        '2'
    } else if d == 3 {
        '3'
    } else if d == 4 {
        '4'
    } else if d == 5 {
        '5'
    } else if d == 6 {
        '6'
    } else if d == 7 {
        '7'
    } else if d == 8 {
        '8'
    } else if d == 9 {
        '9'
    } else if d == 10 {
        'a'
    } else if d == 11 {
        'b'
    } else if d == 12 {
        'c'
    } else if d == 13 {
        'd'
    } else if d == 14 {
        'e'
    } else {
        'f'
    }
}

/// How one character leaves a rendered string: quote, backslash, newline,
/// carriage return and tab as two-character escapes, any other control
/// character as `\uXXXX`, everything else as itself.
pub open spec fn esc_char(c: char) -> Seq<char> {
    if c == '"' {
        seq!['\\', '"']
    } else if c == '\\' {
        seq!['\\', '\\']
    } else if c == '\n' {
        seq!['\\', 'n']
    } else if c == '\r' {
        seq!['\\', 'r']
    } else if c == '\t' {
        seq!['\\', 't']
    } else if is_ctrl_char(c) {
        seq![
            '\\',
            'u',
            hex_char_of((c as u32) / 0x1000 % 16),
            hex_char_of((c as u32) / 0x100 % 16),
            hex_char_of((c as u32) / 0x10 % 16),
            hex_char_of((c as u32) % 16),
        ]
    } else {
        seq![c]
    }
}

/// A string's text with every character escaped as display requires.
pub open spec fn spec_escape(t: Seq<char>) -> Seq<char>
    decreases t,
{
    if t.len() == 0 {
        Seq::empty()
    } else {
        spec_escape(t.drop_last()) + esc_char(t.last())
    }
}

/// A value rendered compactly: strings quoted and escaped, numbers as their
/// numeral text, object members and array elements separated by commas.
pub open spec fn spec_render(v: SpecValue) -> Seq<char>
    decreases v, 0nat,
{
    match v {
        SpecValue::String(t) => seq!['"'] + spec_escape(t) + seq!['"'],
        SpecValue::Number(t) => t,
        SpecValue::Boolean(b) => if b {
            true_chars()
        } else {
            false_chars()
        },
        SpecValue::Null => null_chars(),
        SpecValue::Object(m) => seq!['{'] + render_members(m) + seq!['}'],
        SpecValue::Array(a) => seq!['['] + render_elems(a) + seq![']'],
    }
}

/// One rendered object member: the quoted key, a colon, the value.
pub open spec fn render_pair(p: (Seq<char>, SpecValue)) -> Seq<char>
    decreases p.1, 1nat,
{
    seq!['"'] + spec_escape(p.0) + seq!['"', ':'] + spec_render(p.1)
}

pub open spec fn render_members(m: Seq<(Seq<char>, SpecValue)>) -> Seq<char>
    decreases m, 0nat,
{
    if m.len() == 0 {
        Seq::empty()
    } else {
        render_pair(m[0]) + render_members_rest(m.drop_first())
    }
}

pub open spec fn render_members_rest(m: Seq<(Seq<char>, SpecValue)>) -> Seq<char>
    decreases m, 0nat,
{
    if m.len() == 0 {
        Seq::empty()
    } else {
        seq![','] + render_pair(m[0]) + render_members_rest(m.drop_first())
    }
}

pub open spec fn render_elems(a: Seq<SpecValue>) -> Seq<char>
    decreases a, 0nat,
{
    if a.len() == 0 {
        Seq::empty()
    } else {
        spec_render(a[0]) + render_elems_rest(a.drop_first())
    }
}

pub open spec fn render_elems_rest(a: Seq<SpecValue>) -> Seq<char>
    decreases a, 0nat,
{
    if a.len() == 0 {
        Seq::empty()
    } else {
        seq![','] + spec_render(a[0]) + render_elems_rest(a.drop_first())
    }
}

// ----------------------------------------------------------------------------
// Executable rendering
// ----------------------------------------------------------------------------

fn hex_char(d: u32) -> (r: char)
    requires
        d < 16,
    ensures
        r == hex_char_of(d),
{
    if d == 0 {
        '0'
    } else if d == 1 {
        '1'
    } else if d == 2 {
        '2'
    } else if d == 3 {
        '3'
    } else if d == 4 {
        '4'
    } else if d == 5 {
        '5'
    } else if d == 6 {
        '6'
    } else if d == 7 {
        '7'
    } else if d == 8 {
        '8'
    } else if d == 9 {
        '9'
    } else if d == 10 {
        'a'
    } else if d == 11 {
        'b'
    } else if d == 12 {
        'c'
    } else if d == 13 {
        'd'
    } else if d == 14 {
        'e'
    } else {
        'f'
    }
}

/// Writes one character's escaped form.
fn write_escaped_char(c: char, out: &mut Vec<char>)
    ensures
        final(out)@ == old(out)@ + esc_char(c),
{
    if c == '"' {
        out.push('\\');
        out.push('"');
    } else if c == '\\' {
        out.push('\\');
        out.push('\\');
    } else if c == '\n' {
        out.push('\\');
        out.push('n');
    } else if c == '\r' {
        out.push('\\');
        out.push('r');
    } else if c == '\t' {
        out.push('\\');
        out.push('t');
    } else {
        let u = c as u32;
        if u < 0x20 || (0x7F <= u && u <= 0x9F) {
            out.push('\\');
            out.push('u');
            out.push(hex_char(u / 0x1000 % 16));
            out.push(hex_char(u / 0x100 % 16));
            out.push(hex_char(u / 0x10 % 16));
            out.push(hex_char(u % 16));
        } else {
            out.push(c);
        }
    }
    proof {
        assert(out@ =~= old(out)@ + esc_char(c));
    }
}

/// Appends the characters of a string slice.
#[verifier::loop_isolation(false)]
fn write_chars(sv: &str, out: &mut Vec<char>)
    ensures
        final(out)@ == old(out)@ + sv@,
{
    let n = sv.unicode_len();
    let mut i: usize = 0;
    while i < n
        invariant
            i <= n,
            n == sv@.len(),
            out@ == old(out)@ + sv@.take(i as int),
        decreases n - i,
    {
        out.push(sv.get_char(i));
        i = i + 1;
        proof {
            assert(old(out)@ + sv@.take(i as int) =~= (old(out)@ + sv@.take(i - 1)).push(
                sv@[i - 1],
            ));
        }
    }
    proof {
        assert(sv@.take(n as int) =~= sv@);
    }
}

/// Appends a string's text with every character escaped.
#[verifier::loop_isolation(false)]
fn write_escaped(sv: &str, out: &mut Vec<char>)
    ensures
        final(out)@ == old(out)@ + spec_escape(sv@),
{
    let n = sv.unicode_len();
    let mut i: usize = 0;
    while i < n
        invariant
            i <= n,
            n == sv@.len(),
            out@ == old(out)@ + spec_escape(sv@.take(i as int)),
        decreases n - i,
    {
        write_escaped_char(sv.get_char(i), out);
        i = i + 1;
        proof {
            assert(sv@.take(i as int).drop_last() =~= sv@.take(i - 1));
            assert(sv@.take(i as int).last() == sv@[i - 1]);
            assert(old(out)@ + spec_escape(sv@.take(i as int)) =~= (old(out)@ + spec_escape(
                sv@.take(i - 1),
            )) + esc_char(sv@[i - 1]));
        }
    }
    proof {
        assert(sv@.take(n as int) =~= sv@);
    }
}

/// Escapes a string for display: quote, backslash, newline, carriage
/// return and tab as two-character escapes, any other control character as
/// `\uXXXX`, everything else as itself.
pub fn escape_string(s: &str) -> (r: String)
    ensures
        r@ == spec_escape(s@),
{
    let mut out: Vec<char> = Vec::new();
    write_escaped(s, &mut out);
    chars_to_string(&out)
}

/// Appends one rendered value.
#[verifier::loop_isolation(false)]
#[verifier::rlimit(60)]
fn write_value(v: &JsonValue, out: &mut Vec<char>)
    ensures
        final(out)@ == old(out)@ + spec_render(v@),
    decreases v, 0nat,
{
    match v {
        JsonValue::String(st) => {
            out.push('"');
            write_escaped(st.as_str(), out);
            out.push('"');
            proof {
                assert(out@ =~= old(out)@ + (seq!['"'] + spec_escape(st@) + seq!['"']));
            }
        },
        JsonValue::Number(t) => {
            write_chars(t.as_str(), out);
        },
        JsonValue::Boolean(b) => {
            if *b {
                write_chars("true", out);
                proof {
                    reveal_strlit("true");
                    assert("true"@ =~= true_chars());
                }
            } else {
                write_chars("false", out);
                proof {
                    reveal_strlit("false");
                    assert("false"@ =~= false_chars());
                }
            }
        },
        JsonValue::Null => {
            write_chars("null", out);
            proof {
                reveal_strlit("null");
                assert("null"@ =~= null_chars());
            }
        },
        JsonValue::Object(m) => {
            let ghost base = out@;
            let ghost mv = crate::types::pairs_view(m@);
            proof {
                crate::types::lemma_pairs_view_props(m@);
            }
            out.push('{');
            let n = m.len();
            if n > 0 {
                write_pair(&m[0], out);
                proof {
                    assert(mv[0] == (m@[0].0@, crate::types::value_view(m@[0].1)));
                    assert(mv.drop_first() =~= mv.skip(1));
                    assert(out@ + render_members_rest(mv.skip(1)) =~= base + seq!['{']
                        + render_members(mv));
                }
                let mut k: usize = 1;
                while k < n
                    invariant
                        1 <= k <= n,
                        n == m.len(),
                        out@ + render_members_rest(mv.skip(k as int)) == base + seq!['{']
                            + render_members(mv),
                    decreases n - k,
                {
                    out.push(',');
                    write_pair(&m[k], out);
                    k = k + 1;
                    proof {
                        assert(mv.skip(k - 1 as int)[0] == mv[k - 1]);
                        assert(mv[k - 1] == (m@[k - 1].0@, crate::types::value_view(
                            m@[k - 1].1,
                        )));
                        assert(mv.skip(k - 1 as int).drop_first() =~= mv.skip(k as int));
                        assert(out@ + render_members_rest(mv.skip(k as int)) =~= base + seq!['{']
                            + render_members(mv));
                    }
                }
                proof {
                    assert(mv.skip(n as int).len() == 0);
                    assert(render_members_rest(mv.skip(n as int)) =~= Seq::<char>::empty());
                    assert(out@ =~= base + seq!['{'] + render_members(mv));
                }
            } else {
                proof {
                    assert(render_members(mv) =~= Seq::<char>::empty());
                }
            }
            out.push('}');
            proof {
                assert(out@ =~= old(out)@ + (seq!['{'] + render_members(mv) + seq!['}']));
            }
        },
        JsonValue::Array(a) => {
            let ghost base = out@;
            let ghost av = crate::types::elems_view(a@);
            proof {
                crate::types::lemma_elems_view_props(a@);
            }
            out.push('[');
            let n = a.len();
            if n > 0 {
                write_value(&a[0], out);
                proof {
                    assert(av[0] == crate::types::value_view(a@[0]));
                    assert(av.drop_first() =~= av.skip(1));
                    assert(out@ + render_elems_rest(av.skip(1)) =~= base + seq!['[']
                        + render_elems(av));
                }
                let mut k: usize = 1;
                while k < n
                    invariant
                        1 <= k <= n,
                        n == a.len(),
                        out@ + render_elems_rest(av.skip(k as int)) == base + seq!['[']
                            + render_elems(av),
                    decreases n - k,
                {
                    out.push(',');
                    write_value(&a[k], out);
                    k = k + 1;
                    proof {
                        assert(av.skip(k - 1 as int)[0] == av[k - 1]);
                        assert(av[k - 1] == crate::types::value_view(a@[k - 1]));
                        assert(av.skip(k - 1 as int).drop_first() =~= av.skip(k as int));
                        assert(out@ + render_elems_rest(av.skip(k as int)) =~= base + seq!['[']
                            + render_elems(av));
                    }
                }
                proof {
                    assert(av.skip(n as int).len() == 0);
                    assert(render_elems_rest(av.skip(n as int)) =~= Seq::<char>::empty());
                    assert(out@ =~= base + seq!['['] + render_elems(av));
                }
            } else {
                proof {
                    assert(render_elems(av) =~= Seq::<char>::empty());
                }
            }
            out.push(']');
            proof {
                assert(out@ =~= old(out)@ + (seq!['['] + render_elems(av) + seq![']']));
            }
        },
    }
}

/// Appends one rendered object member: the quoted key, a colon, the value.
fn write_pair(p: &(String, JsonValue), out: &mut Vec<char>)
    ensures
        final(out)@ == old(out)@ + render_pair((p.0@, crate::types::value_view(p.1))),
    decreases p.1, 1nat,
{
    out.push('"');
    write_escaped(p.0.as_str(), out);
    out.push('"');
    out.push(':');
    write_value(&p.1, out);
    proof {
        assert(out@ =~= old(out)@ + render_pair((p.0@, crate::types::value_view(p.1))));
    }
}

impl JsonValue {
    /// The value as compact text: strings quoted and escaped, numbers as
    /// their numeral text, members and elements separated by commas.
    pub fn to_json_string(&self) -> (r: String)
        ensures
            r@ == spec_render(self@),
    {
        let mut out: Vec<char> = Vec::new();
        write_value(self, &mut out);
        chars_to_string(&out)
    }
}


// ----------------------------------------------------------------------------
// Error messages
// ----------------------------------------------------------------------------

/// A number written in decimal.
pub open spec fn dec_digits(n: nat) -> Seq<char>
    decreases n,
{
    if n < 10 {
        seq![hex_char_of(n as u32)]
    } else {
        dec_digits(n / 10) + seq![hex_char_of((n % 10) as u32)]
    }
}

/// Appends a number written in decimal.
fn write_decimal(n: usize, out: &mut Vec<char>)
    ensures
        final(out)@ == old(out)@ + dec_digits(n as nat),
    decreases n,
{
    if n < 10 {
        out.push(hex_char((n % 10) as u32));
    } else {
        proof {
            assert(n / 10 < n) by (nonlinear_arith)
                requires
                    n >= 10,
            ;
        }
        write_decimal(n / 10, out);
        out.push(hex_char((n % 10) as u32));
    }
    proof {
        assert(out@ =~= old(out)@ + dec_digits(n as nat));
    }
}

/// The human-readable text of an error.
pub open spec fn spec_message(e: SpecError) -> Seq<char> {
    match e {
        SpecError::UnexpectedEof(p) => "Unexpected end of input at position "@ + dec_digits(p),
        SpecError::InvalidCharacter { found, position } => "Invalid character '"@ + seq![found]
            + "' at position "@ + dec_digits(position),
        SpecError::InvalidNumber(p) => "Invalid number format at position "@ + dec_digits(p),
        SpecError::UnterminatedString(p) => "Unterminated string at position "@ + dec_digits(p),
        SpecError::InvalidEscape(p) => "Invalid escape sequence at position "@ + dec_digits(p),
        SpecError::UnexpectedToken { expected, found, position } => "Expected "@ + expected
            + ", found "@ + found + " at position "@ + dec_digits(position),
        SpecError::TrailingComma(p) => "Trailing comma not allowed at position "@ + dec_digits(p),
        SpecError::InvalidStructure(p) => "Invalid JSON structure at position "@ + dec_digits(p),
        SpecError::Io(m) => "IO error: "@ + m,
    }
}

impl ParseError {
    /// The error as a human-readable message: its kind, and the position
    /// or transport detail it carries.
    pub fn message(&self) -> (r: String)
        ensures
            r@ == spec_message(self@),
    {
        let mut out: Vec<char> = Vec::new();
        match self {
            ParseError::UnexpectedEof(p) => {
                write_chars("Unexpected end of input at position ", &mut out);
                write_decimal(*p, &mut out);
            },
            ParseError::InvalidCharacter { found, position } => {
                write_chars("Invalid character '", &mut out);
                out.push(*found);
                write_chars("' at position ", &mut out);
                write_decimal(*position, &mut out);
                proof {
                    assert(out@ =~= "Invalid character '"@ + seq![*found] + "' at position "@
                        + dec_digits(*position as nat));
                }
            },
            ParseError::InvalidNumber(p) => {
                write_chars("Invalid number format at position ", &mut out);
                write_decimal(*p, &mut out);
            },
            ParseError::UnterminatedString(p) => {
                write_chars("Unterminated string at position ", &mut out);
                write_decimal(*p, &mut out);
            },
            ParseError::InvalidEscape(p) => {
                write_chars("Invalid escape sequence at position ", &mut out);
                write_decimal(*p, &mut out);
            },
            ParseError::UnexpectedToken { expected, found, position } => {
                write_chars("Expected ", &mut out);
                write_chars(expected.as_str(), &mut out);
                write_chars(", found ", &mut out);
                write_chars(found.as_str(), &mut out);
                write_chars(" at position ", &mut out);
                write_decimal(*position, &mut out);
                proof {
                    assert(out@ =~= "Expected "@ + expected@ + ", found "@ + found@
                        + " at position "@ + dec_digits(*position as nat));
                }
            },
            ParseError::TrailingComma(p) => {
                write_chars("Trailing comma not allowed at position ", &mut out);
                write_decimal(*p, &mut out);
            },
            ParseError::InvalidStructure(p) => {
                write_chars("Invalid JSON structure at position ", &mut out);
                write_decimal(*p, &mut out);
            },
            ParseError::Io(m) => {
                write_chars("IO error: ", &mut out);
                write_chars(m.as_str(), &mut out);
            },
        }
        chars_to_string(&out)
    }
}

} // verus!
