use vstd::prelude::*;

use crate::types::{ParseError, SpecError, Token, TokenType};

verus! {

// ----------------------------------------------------------------------------
// Character classes of the grammar
// ----------------------------------------------------------------------------

/// Whitespace between lexemes and between top-level documents:
/// space, tab, newline, carriage return.
pub open spec fn is_ws_char(c: char) -> bool {
    c == ' ' || c == '\t' || c == '\n' || c == '\r'
}

pub open spec fn is_digit_char(c: char) -> bool {
    '0' <= c && c <= '9'
}

pub open spec fn is_hex_char(c: char) -> bool {
    is_digit_char(c) || ('a' <= c && c <= 'f') || ('A' <= c && c <= 'F')
}

pub open spec fn is_alpha_char(c: char) -> bool {
    ('a' <= c && c <= 'z') || ('A' <= c && c <= 'Z')
}

/// Numeric value of a hexadecimal digit.
pub open spec fn hex_val(c: char) -> int {
    if is_digit_char(c) {
        (c as int) - ('0' as int)
    } else if 'a' <= c && c <= 'f' {
        (c as int) - ('a' as int) + 10
    } else if 'A' <= c && c <= 'F' {
        (c as int) - ('A' as int) + 10
    } else {
        0
    }
}

/// Code points that denote a character: everything except the surrogate range
/// and values beyond the last code point.
pub open spec fn valid_code_point(cp: int) -> bool {
    (0 <= cp && cp < 0xD800) || (0xE000 <= cp && cp <= 0x10FFFF)
}

/// The code point of a character.
pub open spec fn cp_of(c: char) -> u32 {
    c as u32
}

/// The character with the given code point.
pub open spec fn char_from_cp(cp: u32) -> char {
    choose|c: char| cp_of(c) == cp
}

/// Two characters with one code point are one character.
pub proof fn lemma_char_cast_injective(a: char, b: char)
    requires
        a as u32 == b as u32,
    ensures
        a == b,
{
}

/// Relies on `char::from_u32` of std: it returns `Some` exactly for
/// non-surrogate code points up to `char::MAX`, and then the character
/// with that code point.
pub assume_specification[ char::from_u32 ](cp: u32) -> (r: Option<char>)
    ensures
        r matches Some(c) ==> valid_code_point(cp as int) && c as u32 == cp,
        r is None ==> !valid_code_point(cp as int),
;

// ----------------------------------------------------------------------------
// The scanner, as mathematics: deterministic functions over the character
// sequence and a cursor. Every exec routine of the lexer is proved equal
// to one of these.
// ----------------------------------------------------------------------------

/// Characters left to scan; the measure for every scan that moves right.
pub open spec fn rem(s: Seq<char>, i: nat) -> nat {
    if i < s.len() {
        (s.len() - i) as nat
    } else {
        0
    }
}

/// The first index at or after `i` that does not hold whitespace.
pub open spec fn skip_ws(s: Seq<char>, i: nat) -> nat
    decreases rem(s, i),
{
    if i < s.len() && is_ws_char(s[i as int]) {
        skip_ws(s, (i + 1) as nat)
    } else {
        i
    }
}

pub proof fn lemma_skip_ws_bounds(s: Seq<char>, i: nat)
    ensures
        i <= skip_ws(s, i),
        i <= s.len() ==> skip_ws(s, i) <= s.len(),
        s.len() < i ==> skip_ws(s, i) == i,
    decreases rem(s, i),
{
    if i < s.len() && is_ws_char(s[i as int]) {
        lemma_skip_ws_bounds(s, (i + 1) as nat);
    }
}

/// The first index at or after `i` that does not hold a decimal digit.
pub open spec fn digits_end(s: Seq<char>, i: nat) -> nat
    decreases rem(s, i),
{
    if i < s.len() && is_digit_char(s[i as int]) {
        digits_end(s, (i + 1) as nat)
    } else {
        i
    }
}

pub proof fn lemma_digits_end_bounds(s: Seq<char>, i: nat)
    ensures
        i <= digits_end(s, i),
        i <= s.len() ==> digits_end(s, i) <= s.len(),
        s.len() < i ==> digits_end(s, i) == i,
    decreases rem(s, i),
{
    if i < s.len() && is_digit_char(s[i as int]) {
        lemma_digits_end_bounds(s, (i + 1) as nat);
    }
}

/// The first index at or after `i` that does not hold an ASCII letter.
pub open spec fn alpha_end(s: Seq<char>, i: nat) -> nat
    decreases rem(s, i),
{
    if i < s.len() && is_alpha_char(s[i as int]) {
        alpha_end(s, (i + 1) as nat)
    } else {
        i
    }
}

pub proof fn lemma_alpha_end_bounds(s: Seq<char>, i: nat)
    ensures
        i <= alpha_end(s, i),
        i <= s.len() ==> alpha_end(s, i) <= s.len(),
        s.len() < i ==> alpha_end(s, i) == i,
    decreases rem(s, i),
{
    if i < s.len() && is_alpha_char(s[i as int]) {
        lemma_alpha_end_bounds(s, (i + 1) as nat);
    }
}

// ----------------------------------------------------------------------------
// String bodies
// ----------------------------------------------------------------------------

/// Where a failed `\uXXXX` escape is reported: after the first offending
/// character when one was read, at the end of input when none was left.
/// `i` is the index of the backslash.
pub open spec fn hex_fail_pos(s: Seq<char>, i: nat) -> nat {
    if i + 2 >= s.len() {
        s.len()
    } else if !is_hex_char(s[i + 2 as int]) {
        (i + 3) as nat
    } else if i + 3 >= s.len() {
        s.len()
    } else if !is_hex_char(s[i + 3 as int]) {
        (i + 4) as nat
    } else if i + 4 >= s.len() {
        s.len()
    } else if !is_hex_char(s[i + 4 as int]) {
        (i + 5) as nat
    } else if i + 5 >= s.len() {
        s.len()
    } else {
        (i + 6) as nat
    }
}

/// The character that a single-letter escape denotes, if the letter is one
/// of the eight simple escapes.
pub open spec fn simple_esc(e: char) -> Option<char> {
    if e == '"' {
        Some('"')
    } else if e == '\\' {
        Some('\\')
    } else if e == '/' {
        Some('/')
    } else if e == 'b' {
        Some('\u{0008}')
    } else if e == 'f' {
        Some('\u{000C}')
    } else if e == 'n' {
        Some('\n')
    } else if e == 'r' {
        Some('\r')
    } else if e == 't' {
        Some('\t')
    } else {
        None
    }
}

/// Whether the four characters after `\u` at backslash index `i` are hex
/// digits, all present.
pub open spec fn has_four_hex(s: Seq<char>, i: nat) -> bool {
    i + 6 <= s.len() && is_hex_char(s[i + 2 as int]) && is_hex_char(s[i + 3 as int]) && is_hex_char(s[i + 4 as int])
        && is_hex_char(s[i + 5 as int])
}

/// The code point the four hex digits after `\u` at backslash index `i` spell.
pub open spec fn four_hex_val(s: Seq<char>, i: nat) -> int {
    hex_val(s[i + 2 as int]) * 0x1000 + hex_val(s[i + 3 as int]) * 0x100 + hex_val(s[i + 4 as int]) * 0x10 + hex_val(
        s[i + 5 as int],
    )
}

/// Scans the body of a string lexeme. The opening quote stands at `start`
/// and has been consumed; `i` is the cursor inside the body and `acc` what
/// has been decoded so far. Returns the decoded text and the cursor after
/// the closing quote, or the error the body holds.
pub open spec fn scan_string(s: Seq<char>, i: nat, acc: Seq<char>, start: nat) -> Result<
    (Seq<char>, nat),
    SpecError,
>
    decreases rem(s, i),
{
    if i >= s.len() {
        Err(SpecError::UnterminatedString(start))
    } else if s[i as int] == '"' {
        Ok((acc, (i + 1) as nat))
    } else if s[i as int] == '\\' {
        if i + 1 >= s.len() {
            Err(SpecError::UnterminatedString(start))
        } else {
            let e = s[i + 1 as int];
            if e == 'u' {
                if has_four_hex(s, i) {
                    let cp = four_hex_val(s, i);
                    if valid_code_point(cp) {
                        scan_string(s, (i + 6) as nat, acc.push(char_from_cp(cp as u32)), start)
                    } else {
                        Err(SpecError::InvalidEscape((i + 6) as nat))
                    }
                } else {
                    Err(SpecError::InvalidEscape(hex_fail_pos(s, i)))
                }
            } else {
                match simple_esc(e) {
                    Some(c) => scan_string(s, (i + 2) as nat, acc.push(c), start),
                    None => Err(SpecError::InvalidEscape((i + 2) as nat)),
                }
            }
        }
    } else {
        scan_string(s, (i + 1) as nat, acc.push(s[i as int]), start)
    }
}

pub proof fn lemma_scan_string_bounds(s: Seq<char>, i: nat, acc: Seq<char>, start: nat)
    requires
        i <= s.len(),
    ensures
        scan_string(s, i, acc, start) matches Ok((txt, e)) ==> i < e <= s.len(),
    decreases rem(s, i),
{
    if i >= s.len() {
    } else if s[i as int] == '"' {
    } else if s[i as int] == '\\' {
        if i + 1 < s.len() {
            let e = s[i + 1 as int];
            if e == 'u' {
                if has_four_hex(s, i) && valid_code_point(four_hex_val(s, i)) {
                    lemma_scan_string_bounds(
                        s,
                        (i + 6) as nat,
                        acc.push(char_from_cp(four_hex_val(s, i) as u32)),
                        start,
                    );
                }
            } else {
                match simple_esc(e) {
                    Some(c) => lemma_scan_string_bounds(s, (i + 2) as nat, acc.push(c), start),
                    None => {},
                }
            }
        }
    } else {
        lemma_scan_string_bounds(s, (i + 1) as nat, acc.push(s[i as int]), start);
    }
}


// ----------------------------------------------------------------------------
// Numbers
// ----------------------------------------------------------------------------

/// Scans the optional exponent part beginning at `i` and closes the numeral
/// that began at `start`.
pub open spec fn scan_exp(s: Seq<char>, start: nat, i: nat) -> Result<(Seq<char>, nat), SpecError> {
    if i < s.len() && (s[i as int] == 'e' || s[i as int] == 'E') {
        let k = if i + 1 < s.len() && (s[i + 1 as int] == '+' || s[i + 1 as int] == '-') {
            (i + 2) as nat
        } else {
            (i + 1) as nat
        };
        let j = digits_end(s, k);
        if j == k {
            Err(SpecError::InvalidNumber(start))
        } else {
            Ok((s.subrange(start as int, j as int), j))
        }
    } else {
        Ok((s.subrange(start as int, i as int), i))
    }
}

/// Scans the optional fractional part beginning at `i`, then the exponent.
pub open spec fn scan_frac(s: Seq<char>, start: nat, i: nat) -> Result<
    (Seq<char>, nat),
    SpecError,
> {
    if i < s.len() && s[i as int] == '.' {
        let j = digits_end(s, (i + 1) as nat);
        if j == i + 1 {
            Err(SpecError::InvalidNumber(start))
        } else {
            scan_exp(s, start, j)
        }
    } else {
        scan_exp(s, start, i)
    }
}

/// Scans a numeral beginning at `start`: an optional minus sign, an integer
/// part that is a single `0` or a nonzero-led run of digits, an optional
/// fraction with at least one digit, an optional exponent with at least one
/// digit. Returns the numeral text and the cursor after it.
pub open spec fn scan_number(s: Seq<char>, start: nat) -> Result<(Seq<char>, nat), SpecError> {
    let i = if start < s.len() && s[start as int] == '-' {
        (start + 1) as nat
    } else {
        start
    };
    if i >= s.len() {
        Err(SpecError::InvalidNumber(start))
    } else if s[i as int] == '0' {
        if i + 1 < s.len() && is_digit_char(s[i + 1 as int]) {
            Err(SpecError::InvalidNumber(start))
        } else {
            scan_frac(s, start, (i + 1) as nat)
        }
    } else if is_digit_char(s[i as int]) {
        scan_frac(s, start, digits_end(s, i))
    } else {
        Err(SpecError::InvalidNumber(start))
    }
}

pub proof fn lemma_scan_number_bounds(s: Seq<char>, start: nat)
    requires
        start <= s.len(),
    ensures
        scan_number(s, start) matches Ok((txt, e)) ==> start < e <= s.len() && txt
            == s.subrange(start as int, e as int),
{
    let i = if start < s.len() && s[start as int] == '-' {
        (start + 1) as nat
    } else {
        start
    };
    if i < s.len() {
        lemma_digits_end_bounds(s, i);
        lemma_digits_end_bounds(s, (i + 1) as nat);
        let f = if s[i as int] == '0' {
            (i + 1) as nat
        } else {
            digits_end(s, i)
        };
        if f <= s.len() {
            lemma_digits_end_bounds(s, (f + 1) as nat);
            let j = digits_end(s, (f + 1) as nat);
            lemma_scan_exp_bounds(s, start, f);
            if f < s.len() && s[f as int] == '.' && j != f + 1 {
                lemma_scan_exp_bounds(s, start, j);
            }
        }
    }
}

pub proof fn lemma_scan_exp_bounds(s: Seq<char>, start: nat, i: nat)
    requires
        start <= i <= s.len(),
    ensures
        scan_exp(s, start, i) matches Ok((txt, e)) ==> start <= i <= e <= s.len() && txt
            == s.subrange(start as int, e as int),
{
    if i < s.len() && (s[i as int] == 'e' || s[i as int] == 'E') {
        let k = if i + 1 < s.len() && (s[i + 1 as int] == '+' || s[i + 1 as int] == '-') {
            (i + 2) as nat
        } else {
            (i + 1) as nat
        };
        lemma_digits_end_bounds(s, k);
    }
}

// ----------------------------------------------------------------------------
// The tokenizer, as mathematics
// ----------------------------------------------------------------------------

use crate::types::SpecTok;

/// One step of the tokenizer: the lexeme, the position of its first
/// character, and the cursor after its last.
pub ghost struct LexStep {
    pub tok: SpecTok,
    pub at: nat,
    pub end: nat,
}

/// The literal lexemes, spelled out.
pub open spec fn true_chars() -> Seq<char> {
    seq!['t', 'r', 'u', 'e']
}

pub open spec fn false_chars() -> Seq<char> {
    seq!['f', 'a', 'l', 's', 'e']
}

pub open spec fn null_chars() -> Seq<char> {
    seq!['n', 'u', 'l', 'l']
}

/// The next lexeme at or after cursor `i`: whitespace is skipped, then one
/// lexeme is classified by its first character. Absence of input yields the
/// `Eof` lexeme rather than nothing.
pub open spec fn spec_next_token(s: Seq<char>, i: nat) -> Result<LexStep, SpecError> {
    let j = skip_ws(s, i);
    if j >= s.len() {
        Ok(LexStep { tok: SpecTok::Eof, at: j, end: j })
    } else {
        let c = s[j as int];
        if c == '{' {
            Ok(LexStep { tok: SpecTok::LBrace, at: j, end: (j + 1) as nat })
        } else if c == '}' {
            Ok(LexStep { tok: SpecTok::RBrace, at: j, end: (j + 1) as nat })
        } else if c == '[' {
            Ok(LexStep { tok: SpecTok::LBracket, at: j, end: (j + 1) as nat })
        } else if c == ']' {
            Ok(LexStep { tok: SpecTok::RBracket, at: j, end: (j + 1) as nat })
        } else if c == ',' {
            Ok(LexStep { tok: SpecTok::Comma, at: j, end: (j + 1) as nat })
        } else if c == ':' {
            Ok(LexStep { tok: SpecTok::Colon, at: j, end: (j + 1) as nat })
        } else if c == '"' {
            match scan_string(s, (j + 1) as nat, Seq::empty(), j) {
                Ok((txt, e)) => Ok(LexStep { tok: SpecTok::Str(txt), at: j, end: e }),
                Err(er) => Err(er),
            }
        } else if c == '-' || is_digit_char(c) {
            match scan_number(s, j) {
                Ok((txt, e)) => Ok(LexStep { tok: SpecTok::Num(txt), at: j, end: e }),
                Err(er) => Err(er),
            }
        } else if is_alpha_char(c) {
            let e = alpha_end(s, j);
            let run = s.subrange(j as int, e as int);
            if run == true_chars() {
                Ok(LexStep { tok: SpecTok::Bool(true), at: j, end: e })
            } else if run == false_chars() {
                Ok(LexStep { tok: SpecTok::Bool(false), at: j, end: e })
            } else if run == null_chars() {
                Ok(LexStep { tok: SpecTok::Null, at: j, end: e })
            } else {
                Err(SpecError::InvalidCharacter { found: c, position: j })
            }
        } else {
            Err(SpecError::InvalidCharacter { found: c, position: j })
        }
    }
}

/// The tokenizer moves the cursor forward, never past the end, and strictly
/// forward on every lexeme but `Eof`.
pub proof fn lemma_next_token_bounds(s: Seq<char>, i: nat)
    requires
        i <= s.len(),
    ensures
        spec_next_token(s, i) matches Ok(st) ==> i <= st.at <= st.end <= s.len(),
        spec_next_token(s, i) matches Ok(st) ==> (st.tok != SpecTok::Eof ==> st.at < st.end),
        spec_next_token(s, i) matches Ok(st) ==> (st.tok == SpecTok::Eof ==> st.at == st.end),
{
    lemma_skip_ws_bounds(s, i);
    let j = skip_ws(s, i);
    if j < s.len() {
        let c = s[j as int];
        if c == '"' {
            lemma_scan_string_bounds(s, (j + 1) as nat, Seq::empty(), j);
        } else if c == '-' || is_digit_char(c) {
            lemma_scan_number_bounds(s, j);
        } else if is_alpha_char(c) {
            lemma_alpha_end_bounds(s, j);
            let e = alpha_end(s, j);
            let run = s.subrange(j as int, e as int);
            assert(run.len() == e - j);
            assert(true_chars().len() == 4);
            assert(false_chars().len() == 5);
            assert(null_chars().len() == 4);
        }
    }
}


// ----------------------------------------------------------------------------
// Executable character classes
// ----------------------------------------------------------------------------

fn is_ws(c: char) -> (r: bool)
    ensures
        r == is_ws_char(c),
{
    c == ' ' || c == '\t' || c == '\n' || c == '\r'
}

fn is_digit(c: char) -> (r: bool)
    ensures
        r == is_digit_char(c),
{
    '0' <= c && c <= '9'
}

fn is_hex(c: char) -> (r: bool)
    ensures
        r == is_hex_char(c),
{
    is_digit(c) || ('a' <= c && c <= 'f') || ('A' <= c && c <= 'F')
}

fn is_alpha(c: char) -> (r: bool)
    ensures
        r == is_alpha_char(c),
{
    ('a' <= c && c <= 'z') || ('A' <= c && c <= 'Z')
}

fn hex_digit_val(c: char) -> (r: u32)
    requires
        is_hex_char(c),
    ensures
        r as int == hex_val(c),
        r <= 15,
{
    if '0' <= c && c <= '9' {
        c as u32 - '0' as u32
    } else if 'a' <= c && c <= 'f' {
        c as u32 - 'a' as u32 + 10
    } else {
        c as u32 - 'A' as u32 + 10
    }
}

fn simple_escape_char(e: char) -> (r: Option<char>)
    ensures
        r == simple_esc(e),
{
    if e == '"' {
        Some('"')
    } else if e == '\\' {
        Some('\\')
    } else if e == '/' {
        Some('/')
    } else if e == 'b' {
        Some('\u{0008}')
    } else if e == 'f' {
        Some('\u{000C}')
    } else if e == 'n' {
        Some('\n')
    } else if e == 'r' {
        Some('\r')
    } else if e == 't' {
        Some('\t')
    } else {
        None
    }
}

// ----------------------------------------------------------------------------
// Conversions between text and character vectors
// ----------------------------------------------------------------------------

/// Relies on `FromIterator for String` of std: collecting an iterator of
/// characters yields the string of exactly those characters, in order.
#[verifier::external_body]
pub(crate) fn chars_to_string(v: &Vec<char>) -> (r: String)
    ensures
        r@ == v@,
{
    v.iter().collect()
}

/// The characters of a string slice, as an owned vector.
pub(crate) fn str_to_chars(input: &str) -> (r: Vec<char>)
    ensures
        r@ == input@,
{
    let n = input.unicode_len();
    let mut v: Vec<char> = Vec::new();
    let mut i: usize = 0;
    while i < n
        invariant
            i <= n,
            n == input@.len(),
            v@ == input@.take(i as int),
        decreases n - i,
    {
        let c = input.get_char(i);
        v.push(c);
        i = i + 1;
        proof {
            assert(input@.take(i as int) =~= input@.take(i - 1).push(input@[i - 1]));
        }
    }
    proof {
        assert(input@.take(n as int) =~= input@);
    }
    v
}

// ----------------------------------------------------------------------------
// The scanner/tokenizer over an owned chunk of characters
// ----------------------------------------------------------------------------

/// The lexer: an owned chunk of characters and a cursor into it. The cursor
/// is the absolute position, a count of characters consumed from the start
/// of input; multi-byte characters count as one unit.
pub struct Lexer {
    chars: Vec<char>,
    pos: usize,
}

impl Lexer {
    /// The whole input, as a character sequence.
    pub closed spec fn src(&self) -> Seq<char> {
        self.chars@
    }

    /// The cursor: how many characters have been consumed.
    pub closed spec fn at(&self) -> nat {
        self.pos as nat
    }

    /// The cursor never runs past the end of the input.
    pub open spec fn wf(&self) -> bool {
        self.at() <= self.src().len()
    }

    pub fn new(input: &str) -> (l: Lexer)
        ensures
            l.src() == input@,
            l.at() == 0,
            l.wf(),
    {
        Lexer { chars: str_to_chars(input), pos: 0 }
    }

    /// The character under the cursor, without consuming it.
    pub fn current_char(&self) -> (r: Option<char>)
        requires
            self.wf(),
        ensures
            self.at() < self.src().len() ==> r == Some(self.src()[self.at() as int]),
            self.at() >= self.src().len() ==> r is None,
    {
        if self.pos < self.chars.len() {
            Some(self.chars[self.pos])
        } else {
            None
        }
    }

    /// Consumes and returns the character under the cursor.
    pub fn advance(&mut self) -> (r: Option<char>)
        requires
            old(self).wf(),
        ensures
            final(self).src() == old(self).src(),
            final(self).wf(),
            old(self).at() < old(self).src().len() ==> r == Some(
                old(self).src()[old(self).at() as int],
            ) && final(self).at() == old(self).at() + 1,
            old(self).at() >= old(self).src().len() ==> r is None && final(self).at() == old(
                self,
            ).at(),
    {
        if self.pos < self.chars.len() {
            let c = self.chars[self.pos];
            self.pos = self.pos + 1;
            Some(c)
        } else {
            None
        }
    }

    /// Consumes every whitespace character under the cursor.
    #[verifier::loop_isolation(false)]
    pub fn skip_whitespace(&mut self)
        requires
            old(self).wf(),
        ensures
            final(self).src() == old(self).src(),
            final(self).wf(),
            final(self).at() == skip_ws(old(self).src(), old(self).at()),
    {
        let n = self.chars.len();
        while self.pos < n && is_ws(self.chars[self.pos])
            invariant
                self.wf(),
                self.chars == old(self).chars,
                skip_ws(self.src(), self.at()) == skip_ws(old(self).src(), old(self).at()),
            decreases n - self.pos,
        {
            self.pos = self.pos + 1;
        }
    }

    /// The first index at or after `i` that does not hold a digit.
    #[verifier::loop_isolation(false)]
    fn digits_from(&self, i: usize) -> (r: usize)
        requires
            self.wf(),
            i <= self.src().len(),
        ensures
            r == digits_end(self.src(), i as nat),
            i <= r <= self.src().len(),
    {
        let n = self.chars.len();
        let mut j = i;
        while j < n && is_digit(self.chars[j])
            invariant
                i <= j <= n,
                digits_end(self.src(), j as nat) == digits_end(self.src(), i as nat),
            decreases n - j,
        {
            j = j + 1;
        }
        proof {
            lemma_digits_end_bounds(self.src(), i as nat);
        }
        j
    }

    /// The characters in `[a, b)`, as a string.
    #[verifier::loop_isolation(false)]
    fn substring(&self, a: usize, b: usize) -> (r: String)
        requires
            a <= b <= self.src().len(),
        ensures
            r@ == self.src().subrange(a as int, b as int),
    {
        let mut v: Vec<char> = Vec::new();
        let mut i = a;
        while i < b
            invariant
                a <= i <= b,
                v@ == self.src().subrange(a as int, i as int),
            decreases b - i,
        {
            v.push(self.chars[i]);
            i = i + 1;
            proof {
                assert(self.src().subrange(a as int, i as int) =~= self.src().subrange(
                    a as int,
                    i - 1,
                ).push(self.src()[i - 1]));
            }
        }
        chars_to_string(&v)
    }
}


impl Lexer {
    /// Reads a string lexeme whose opening quote stands under the cursor,
    /// decoding the eight simple escapes and `\uXXXX`; leaves the cursor
    /// after the closing quote.
    #[verifier::loop_isolation(false)]
    pub fn read_string(&mut self) -> (r: Result<String, ParseError>)
        requires
            old(self).wf(),
        ensures
            final(self).src() == old(self).src(),
            final(self).wf(),
            ({
                let s = old(self).src();
                let p = old(self).at();
                if p < s.len() && s[p as int] == '"' {
                    match scan_string(s, (p + 1) as nat, Seq::empty(), p) {
                        Ok(te) => r matches Ok(x) && x@ == te.0 && final(self).at() == te.1,
                        Err(er) => r matches Err(x) && x@ == er,
                    }
                } else {
                    r matches Err(x) && x@ == (SpecError::InvalidCharacter {
                        found: '"',
                        position: p,
                    })
                }
            }),
    {
        let n = self.chars.len();
        let start = self.pos;
        let opening = self.advance();
        let is_q = match opening {
            Some(c) => c == '"',
            None => false,
        };
        if !is_q {
            return Err(ParseError::InvalidCharacter { found: '"', position: start });
        }
        let ghost s = self.src();
        let mut acc: Vec<char> = Vec::new();
        let mut i = start + 1;
        loop
            invariant
                start + 1 <= i <= n,
                n == s.len(),
                self.src() == s,
                self.at() == start + 1,
                scan_string(s, i as nat, acc@, start as nat) == scan_string(
                    s,
                    (start + 1) as nat,
                    Seq::empty(),
                    start as nat,
                ),
            decreases n - i,
        {
            if i >= n {
                self.pos = n;
                return Err(ParseError::UnterminatedString(start));
            }
            let c = self.chars[i];
            if c == '"' {
                self.pos = i + 1;
                return Ok(chars_to_string(&acc));
            }
            if c == '\\' {
                if n - i < 2 {
                    self.pos = n;
                    return Err(ParseError::UnterminatedString(start));
                }
                let e = self.chars[i + 1];
                if e == 'u' {
                    let h = i + 2;
                    if h >= n {
                        self.pos = n;
                        return Err(ParseError::InvalidEscape(n));
                    }
                    if !is_hex(self.chars[h]) {
                        self.pos = h + 1;
                        return Err(ParseError::InvalidEscape(h + 1));
                    }
                    if h + 1 >= n {
                        self.pos = n;
                        return Err(ParseError::InvalidEscape(n));
                    }
                    if !is_hex(self.chars[h + 1]) {
                        self.pos = h + 2;
                        return Err(ParseError::InvalidEscape(h + 2));
                    }
                    if h + 2 >= n {
                        self.pos = n;
                        return Err(ParseError::InvalidEscape(n));
                    }
                    if !is_hex(self.chars[h + 2]) {
                        self.pos = h + 3;
                        return Err(ParseError::InvalidEscape(h + 3));
                    }
                    if h + 3 >= n {
                        self.pos = n;
                        return Err(ParseError::InvalidEscape(n));
                    }
                    if !is_hex(self.chars[h + 3]) {
                        self.pos = h + 4;
                        return Err(ParseError::InvalidEscape(h + 4));
                    }
                    let cp: u32 = hex_digit_val(self.chars[h]) * 0x1000 + hex_digit_val(
                        self.chars[h + 1],
                    ) * 0x100 + hex_digit_val(self.chars[h + 2]) * 0x10 + hex_digit_val(
                        self.chars[h + 3],
                    );
                    proof {
                        assert(has_four_hex(s, i as nat));
                        assert(cp as int == four_hex_val(s, i as nat));
                    }
                    match char::from_u32(cp) {
                        Some(u) => {
                            proof {
                                assert(cp_of(u) == cp);
                                assert(exists|c2: char| cp_of(c2) == cp);
                                assert(cp_of(char_from_cp(cp)) == cp);
                                lemma_char_cast_injective(char_from_cp(cp), u);
                                assert(char_from_cp(cp) == u);
                                assert(cp == four_hex_val(s, i as nat) as u32);
                            }
                            acc.push(u);
                            i = i + 6;
                        },
                        None => {
                            self.pos = i + 6;
                            return Err(ParseError::InvalidEscape(i + 6));
                        },
                    }
                } else {
                    match simple_escape_char(e) {
                        Some(d) => {
                            acc.push(d);
                            i = i + 2;
                        },
                        None => {
                            self.pos = i + 2;
                            return Err(ParseError::InvalidEscape(i + 2));
                        },
                    }
                }
            } else {
                acc.push(c);
                i = i + 1;
            }
        }
    }
}


impl Lexer {
    /// Reads a numeral beginning under the cursor and returns its text;
    /// leaves the cursor after its last character.
    pub fn read_number(&mut self) -> (r: Result<String, ParseError>)
        requires
            old(self).wf(),
        ensures
            final(self).src() == old(self).src(),
            final(self).wf(),
            ({
                let s = old(self).src();
                let p = old(self).at();
                match scan_number(s, p) {
                    Ok(te) => r matches Ok(x) && x@ == te.0 && final(self).at() == te.1,
                    Err(er) => r matches Err(x) && x@ == er,
                }
            }),
    {
        let n = self.chars.len();
        let start = self.pos;
        let mut i = start;
        if i < n && self.chars[i] == '-' {
            i = i + 1;
        }
        if i >= n {
            return Err(ParseError::InvalidNumber(start));
        }
        let c = self.chars[i];
        if c == '0' {
            if i + 1 < n && is_digit(self.chars[i + 1]) {
                return Err(ParseError::InvalidNumber(start));
            }
            i = i + 1;
        } else if is_digit(c) {
            i = self.digits_from(i);
        } else {
            return Err(ParseError::InvalidNumber(start));
        }
        if i < n && self.chars[i] == '.' {
            let j = self.digits_from(i + 1);
            if j == i + 1 {
                return Err(ParseError::InvalidNumber(start));
            }
            i = j;
        }
        if i < n && (self.chars[i] == 'e' || self.chars[i] == 'E') {
            let mut k = i + 1;
            if k < n && (self.chars[k] == '+' || self.chars[k] == '-') {
                k = k + 1;
            }
            let j = self.digits_from(k);
            if j == k {
                return Err(ParseError::InvalidNumber(start));
            }
            i = j;
        }
        let text = self.substring(start, i);
        self.pos = i;
        Ok(text)
    }

    /// Reads the maximal run of ASCII letters beginning under the cursor.
    #[verifier::loop_isolation(false)]
    pub fn read_literal(&mut self) -> (r: String)
        requires
            old(self).wf(),
        ensures
            final(self).src() == old(self).src(),
            final(self).wf(),
            final(self).at() == alpha_end(old(self).src(), old(self).at()),
            old(self).at() <= final(self).at(),
            r@ == old(self).src().subrange(old(self).at() as int, final(self).at() as int),
    {
        let n = self.chars.len();
        let start = self.pos;
        let mut i = start;
        while i < n && is_alpha(self.chars[i])
            invariant
                start <= i <= n,
                self == old(self),
                alpha_end(self.src(), i as nat) == alpha_end(self.src(), start as nat),
            decreases n - i,
        {
            i = i + 1;
        }
        proof {
            lemma_alpha_end_bounds(self.src(), start as nat);
        }
        let text = self.substring(start, i);
        self.pos = i;
        text
    }

    /// Classifies and consumes the next lexeme: skips whitespace, then reads
    /// one punctuation mark, string, number or literal; at the end of input
    /// it yields the `Eof` lexeme.
    pub fn next_token(&mut self) -> (r: Result<Token, ParseError>)
        requires
            old(self).wf(),
        ensures
            final(self).src() == old(self).src(),
            final(self).wf(),
            ({
                let step = spec_next_token(old(self).src(), old(self).at());
                match step {
                    Ok(st) => r matches Ok(t) && t.token_type@ == st.tok && t.position as nat
                        == st.at && final(self).at() == st.end,
                    Err(er) => r matches Err(x) && x@ == er,
                }
            }),
    {
        self.skip_whitespace();
        let current_pos = self.pos;
        let c = match self.current_char() {
            Some(c) => c,
            None => {
                return Ok(Token::new(TokenType::Eof, current_pos));
            },
        };
        if c == '{' {
            self.advance();
            Ok(Token::new(TokenType::LeftBrace, current_pos))
        } else if c == '}' {
            self.advance();
            Ok(Token::new(TokenType::RightBrace, current_pos))
        } else if c == '[' {
            self.advance();
            Ok(Token::new(TokenType::LeftBracket, current_pos))
        } else if c == ']' {
            self.advance();
            Ok(Token::new(TokenType::RightBracket, current_pos))
        } else if c == ',' {
            self.advance();
            Ok(Token::new(TokenType::Comma, current_pos))
        } else if c == ':' {
            self.advance();
            Ok(Token::new(TokenType::Colon, current_pos))
        } else if c == '"' {
            match self.read_string() {
                Ok(text) => Ok(Token::new(TokenType::String(text), current_pos)),
                Err(e) => Err(e),
            }
        } else if c == '-' || is_digit(c) {
            match self.read_number() {
                Ok(text) => Ok(Token::new(TokenType::Number(text), current_pos)),
                Err(e) => Err(e),
            }
        } else if is_alpha(c) {
            let lit = self.read_literal();
            let end = self.pos;
            let ghost s = self.src();
            let ghost run = s.subrange(current_pos as int, end as int);
            if end - current_pos == 4 && self.chars[current_pos] == 't' && self.chars[current_pos
                + 1] == 'r' && self.chars[current_pos + 2] == 'u' && self.chars[current_pos + 3]
                == 'e' {
                proof {
                    assert(run =~= true_chars());
                }
                Ok(Token::new(TokenType::Boolean(true), current_pos))
            } else if end - current_pos == 5 && self.chars[current_pos] == 'f'
                && self.chars[current_pos + 1] == 'a' && self.chars[current_pos + 2] == 'l'
                && self.chars[current_pos + 3] == 's' && self.chars[current_pos + 4] == 'e' {
                proof {
                    assert(run =~= false_chars());
                }
                Ok(Token::new(TokenType::Boolean(false), current_pos))
            } else if end - current_pos == 4 && self.chars[current_pos] == 'n'
                && self.chars[current_pos + 1] == 'u' && self.chars[current_pos + 2] == 'l'
                && self.chars[current_pos + 3] == 'l' {
                proof {
                    assert(run =~= null_chars());
                }
                Ok(Token::new(TokenType::Null, current_pos))
            } else {
                proof {
                    if run == true_chars() {
                        assert(run.len() == 4);
                        assert(run[0] == 't' && run[1] == 'r' && run[2] == 'u' && run[3] == 'e');
                        assert(false);
                    }
                    if run == false_chars() {
                        assert(run.len() == 5);
                        assert(run[0] == 'f' && run[1] == 'a' && run[2] == 'l' && run[3] == 's'
                            && run[4] == 'e');
                        assert(false);
                    }
                    if run == null_chars() {
                        assert(run.len() == 4);
                        assert(run[0] == 'n' && run[1] == 'u' && run[2] == 'l' && run[3] == 'l');
                        assert(false);
                    }
                }
                Err(ParseError::InvalidCharacter { found: c, position: current_pos })
            }
        } else {
            Err(ParseError::InvalidCharacter { found: c, position: current_pos })
        }
    }

    /// The next lexeme, without consuming it: the cursor stands where it
    /// stood, whatever was read.
    pub fn peek_token(&mut self) -> (r: Result<Token, ParseError>)
        requires
            old(self).wf(),
        ensures
            final(self).src() == old(self).src(),
            final(self).at() == old(self).at(),
            final(self).wf(),
            ({
                let step = spec_next_token(old(self).src(), old(self).at());
                match step {
                    Ok(st) => r matches Ok(t) && t.token_type@ == st.tok && t.position as nat
                        == st.at,
                    Err(er) => r matches Err(x) && x@ == er,
                }
            }),
    {
        let saved = self.pos;
        let r = self.next_token();
        self.pos = saved;
        r
    }
}

} // verus!
