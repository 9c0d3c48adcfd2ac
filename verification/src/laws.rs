use vstd::prelude::*;

use crate::lexer::{
    alpha_end, char_from_cp, digits_end, four_hex_val, has_four_hex, is_alpha_char,
    is_digit_char, is_hex_char, lemma_next_token_bounds, lemma_skip_ws_bounds, rem, scan_number,
    scan_string, simple_esc, skip_ws, spec_next_token, valid_code_point,
};
use crate::parser::{
    adv, elems_wf, is_numeral, keys_unique, pairs_wf, spec_next_document, spec_parse_array,
    spec_parse_document, spec_parse_elems, spec_parse_members, spec_parse_object,
    spec_parse_single_at, spec_parse_value, value_wf,
};
use crate::render::{
    render_elems, render_elems_rest, render_members, render_members_rest, render_pair,
    spec_escape, spec_render,
};
use crate::types::{spec_error_position, SpecError, SpecTok, SpecValue};

verus! {

// ----------------------------------------------------------------------------
// Position monotonicity: every error a parse raises is located inside the
// consumed input — at or after the cursor the parse began at, and never
// past the end of the input.
// ----------------------------------------------------------------------------

proof fn lemma_scan_string_err_pos(s: Seq<char>, i: nat, acc: Seq<char>, start: nat)
    requires
        start <= i <= s.len(),
    ensures
        scan_string(s, i, acc, start) matches Err(e) ==> (spec_error_position(e) matches Some(p)
            && start <= p <= s.len()),
    decreases rem(s, i),
{
    if i >= s.len() {
    } else if s[i as int] == '"' {
    } else if s[i as int] == '\\' {
        if i + 1 < s.len() {
            let e = s[i + 1 as int];
            if e == 'u' {
                if has_four_hex(s, i) && valid_code_point(four_hex_val(s, i)) {
                    lemma_scan_string_err_pos(
                        s,
                        (i + 6) as nat,
                        acc.push(char_from_cp(four_hex_val(s, i) as u32)),
                        start,
                    );
                }
            } else {
                match simple_esc(e) {
                    Some(c) => lemma_scan_string_err_pos(s, (i + 2) as nat, acc.push(c), start),
                    None => {},
                }
            }
        }
    } else {
        lemma_scan_string_err_pos(s, (i + 1) as nat, acc.push(s[i as int]), start);
    }
}

proof fn lemma_scan_number_err_pos(s: Seq<char>, start: nat)
    requires
        start <= s.len(),
    ensures
        scan_number(s, start) matches Err(e) ==> (spec_error_position(e) matches Some(p) && start
            <= p <= s.len()),
{
}

/// Every error of the tokenizer is located at or after the cursor it was
/// started at, and within the input.
pub proof fn lemma_next_token_err_pos(s: Seq<char>, i: nat)
    requires
        i <= s.len(),
    ensures
        spec_next_token(s, i) matches Err(e) ==> (spec_error_position(e) matches Some(p) && i <= p
            <= s.len()),
{
    lemma_skip_ws_bounds(s, i);
    let j = skip_ws(s, i);
    if j < s.len() {
        let c = s[j as int];
        if c == '"' {
            lemma_scan_string_err_pos(s, (j + 1) as nat, Seq::empty(), j);
        } else if c == '-' || is_digit_char(c) {
            lemma_scan_number_err_pos(s, j);
        }
    }
}

proof fn lemma_value_err_pos(s: Seq<char>, i: nat)
    requires
        i <= s.len(),
    ensures
        spec_parse_value(s, i) matches Err(e) ==> (spec_error_position(e) matches Some(p) && i <= p
            <= s.len()),
        spec_parse_value(s, i) matches Ok(vj) ==> i < vj.1 <= s.len(),
    decreases rem(s, i), 1nat,
{
    lemma_next_token_bounds(s, i);
    lemma_next_token_err_pos(s, i);
    if i < s.len() {
        match spec_next_token(s, i) {
            Err(e) => {},
            Ok(st) => match st.tok {
                SpecTok::LBrace => lemma_object_err_pos(s, adv(i, st.end)),
                SpecTok::LBracket => lemma_array_err_pos(s, adv(i, st.end)),
                _ => {},
            },
        }
    }
}

#[verifier::rlimit(100)]
proof fn lemma_object_err_pos(s: Seq<char>, i: nat)
    requires
        i <= s.len(),
    ensures
        spec_parse_object(s, i) matches Err(e) ==> (spec_error_position(e) matches Some(p) && i <= p
            <= s.len()),
        spec_parse_object(s, i) matches Ok(vj) ==> i < vj.1 <= s.len(),
    decreases rem(s, i), 3nat,
{
    lemma_next_token_bounds(s, i);
    lemma_next_token_err_pos(s, i);
    match spec_next_token(s, i) {
        Err(e) => {},
        Ok(st) => if st.tok == SpecTok::RBrace {
        } else {
            lemma_members_err_pos(s, i, Seq::empty());
        },
    }
}

proof fn lemma_members_err_pos(s: Seq<char>, i: nat, acc: Seq<(Seq<char>, SpecValue)>)
    requires
        i <= s.len(),
    ensures
        spec_parse_members(s, i, acc) matches Err(e) ==> (spec_error_position(e) matches Some(p)
            && i <= p <= s.len()),
        spec_parse_members(s, i, acc) matches Ok(vj) ==> i < vj.1 <= s.len(),
    decreases rem(s, i), 2nat,
{
    lemma_next_token_bounds(s, i);
    lemma_next_token_err_pos(s, i);
    if i < s.len() {
        match spec_next_token(s, i) {
            Err(e) => {},
            Ok(kst) => match kst.tok {
                SpecTok::Str(k) => {
                    let ik = adv(i, kst.end);
                    lemma_next_token_bounds(s, ik);
                    lemma_next_token_err_pos(s, ik);
                    match spec_next_token(s, ik) {
                        Err(e) => {},
                        Ok(cst) => if cst.tok == SpecTok::Colon {
                            let iv = adv(ik, cst.end);
                            lemma_value_err_pos(s, iv);
                            match spec_parse_value(s, iv) {
                                Err(e) => {},
                                Ok(vj) => {
                                    let is = adv(iv, vj.1);
                                    lemma_next_token_bounds(s, is);
                                    lemma_next_token_err_pos(s, is);
                                    match spec_next_token(s, is) {
                                        Err(e) => {},
                                        Ok(sst) => if sst.tok == SpecTok::RBrace {
                                        } else if sst.tok == SpecTok::Comma {
                                            let ic = adv(is, sst.end);
                                            lemma_next_token_bounds(s, ic);
                                            lemma_next_token_err_pos(s, ic);
                                            match spec_next_token(s, ic) {
                                                Err(e) => {},
                                                Ok(nst) => if nst.tok == SpecTok::RBrace {
                                                } else {
                                                    lemma_members_err_pos(
                                                        s,
                                                        ic,
                                                        crate::types::obj_put(acc, k, vj.0),
                                                    );
                                                },
                                            }
                                        } else {
                                        },
                                    }
                                },
                            }
                        } else {
                        },
                    }
                },
                _ => {},
            },
        }
    }
}

proof fn lemma_array_err_pos(s: Seq<char>, i: nat)
    requires
        i <= s.len(),
    ensures
        spec_parse_array(s, i) matches Err(e) ==> (spec_error_position(e) matches Some(p) && i <= p
            <= s.len()),
        spec_parse_array(s, i) matches Ok(vj) ==> i < vj.1 <= s.len(),
    decreases rem(s, i), 3nat,
{
    lemma_next_token_bounds(s, i);
    lemma_next_token_err_pos(s, i);
    match spec_next_token(s, i) {
        Err(e) => {},
        Ok(st) => if st.tok == SpecTok::RBracket {
        } else {
            lemma_elems_err_pos(s, i, Seq::empty());
        },
    }
}

proof fn lemma_elems_err_pos(s: Seq<char>, i: nat, acc: Seq<SpecValue>)
    requires
        i <= s.len(),
    ensures
        spec_parse_elems(s, i, acc) matches Err(e) ==> (spec_error_position(e) matches Some(p) && i
            <= p <= s.len()),
        spec_parse_elems(s, i, acc) matches Ok(vj) ==> i < vj.1 <= s.len(),
    decreases rem(s, i), 2nat,
{
    if i < s.len() {
        lemma_value_err_pos(s, i);
        match spec_parse_value(s, i) {
            Err(e) => {},
            Ok(vj) => {
                let is = adv(i, vj.1);
                lemma_next_token_bounds(s, is);
                lemma_next_token_err_pos(s, is);
                match spec_next_token(s, is) {
                    Err(e) => {},
                    Ok(sst) => if sst.tok == SpecTok::RBracket {
                    } else if sst.tok == SpecTok::Comma {
                        let ic = adv(is, sst.end);
                        lemma_next_token_bounds(s, ic);
                        lemma_next_token_err_pos(s, ic);
                        match spec_next_token(s, ic) {
                            Err(e) => {},
                            Ok(nst) => if nst.tok == SpecTok::RBracket {
                            } else {
                                lemma_elems_err_pos(s, ic, acc.push(vj.0));
                            },
                        }
                    } else {
                    },
                }
            },
        }
    } else {
        lemma_skip_ws_bounds(s, i);
    }
}

/// Position monotonicity for a single document: an error's position never
/// runs past the characters consumed, which never run past the input; and
/// the error a parse that began at cursor `i` raises is located at or
/// after `i`.
pub proof fn lemma_single_error_position(s: Seq<char>, i: nat)
    requires
        i <= s.len(),
    ensures
        spec_parse_single_at(s, i) matches Err(e) ==> (spec_error_position(e) matches Some(p) && i
            <= p <= s.len()),
{
    lemma_value_err_pos(s, i);
    match spec_parse_value(s, i) {
        Err(e) => {},
        Ok(vj) => {
            lemma_next_token_bounds(s, vj.1);
            lemma_next_token_err_pos(s, vj.1);
        },
    }
}

/// Position monotonicity for a whole document: every error of
/// `spec_parse_document` carries a position, and it lies within the input.
pub proof fn lemma_document_error_position(s: Seq<char>)
    ensures
        spec_parse_document(s) matches Err(e) ==> (spec_error_position(e) matches Some(p) && p
            <= s.len()),
{
    lemma_single_error_position(s, 0);
}

/// Position monotonicity for the document stream: an error yielded at
/// cursor `i` is located at or after `i` — at or after every previously
/// yielded document — and within the input.
pub proof fn lemma_stream_error_position(s: Seq<char>, i: nat)
    requires
        i <= s.len(),
    ensures
        spec_next_document(s, i) matches Some(Err(e)) ==> (spec_error_position(e) matches Some(p)
            && i <= p <= s.len()),
{
    lemma_next_token_err_pos(s, i);
    lemma_value_err_pos(s, i);
}


// ----------------------------------------------------------------------------
// Round-trip: rendering a well-formed value and parsing the text back
// yields the value again. The lemmas below walk the rendered text exactly
// as the scanner and parser walk it.
// ----------------------------------------------------------------------------

/// Characterization of `digits_end`: it stops exactly at the first
/// position that is out of input or not a digit.
proof fn lemma_digits_end_exact(s: Seq<char>, x: nat, e: nat)
    requires
        x <= e <= s.len(),
        forall|j: int| x <= j < e ==> is_digit_char(#[trigger] s[j]),
        e == s.len() || !is_digit_char(s[e as int]),
    ensures
        digits_end(s, x) == e,
    decreases e - x,
{
    if x < e {
        lemma_digits_end_exact(s, (x + 1) as nat, e);
    }
}

/// Characterization of `alpha_end`.
proof fn lemma_alpha_end_exact(s: Seq<char>, x: nat, e: nat)
    requires
        x <= e <= s.len(),
        forall|j: int| x <= j < e ==> is_alpha_char(#[trigger] s[j]),
        e == s.len() || !is_alpha_char(s[e as int]),
    ensures
        alpha_end(s, x) == e,
    decreases e - x,
{
    if x < e {
        lemma_alpha_end_exact(s, (x + 1) as nat, e);
    }
}

/// An escaped text, read from the front: the first character's escape,
/// then the rest.
proof fn lemma_escape_front(t: Seq<char>)
    requires
        t.len() > 0,
    ensures
        crate::render::spec_escape(t) == crate::render::esc_char(t[0]) + crate::render::spec_escape(
            t.drop_first(),
        ),
    decreases t,
{
    let e = crate::render::spec_escape(t);
    if t.len() == 1 {
        assert(t.drop_last().len() == 0);
        assert(t.drop_first().len() == 0);
        assert(t.last() == t[0]);
        assert(crate::render::spec_escape(t.drop_last()) =~= Seq::<char>::empty());
        assert(crate::render::spec_escape(t.drop_first()) =~= Seq::<char>::empty());
        assert(e =~= crate::render::esc_char(t[0]) + crate::render::spec_escape(t.drop_first()));
    } else {
        lemma_escape_front(t.drop_last());
        assert(t.drop_last().drop_first() =~= t.drop_first().drop_last());
        assert(t.drop_last()[0] == t[0]);
        assert(t.drop_first().last() == t.last());
        assert(e =~= crate::render::esc_char(t[0]) + (crate::render::spec_escape(
            t.drop_first().drop_last(),
        ) + crate::render::esc_char(t.drop_first().last())));
        assert(crate::render::esc_char(t[0]) + crate::render::spec_escape(t.drop_first()) =~= crate::render::esc_char(
            t[0],
        ) + (crate::render::spec_escape(t.drop_first().drop_last()) + crate::render::esc_char(
            t.drop_first().last(),
        )));
    }
}

/// Recomposing a code point from its four hexadecimal digits.
proof fn lemma_hex_recompose(u: u32)
    requires
        u < 0x10000,
    ensures
        (u / 0x1000 % 16) * 0x1000 + (u / 0x100 % 16) * 0x100 + (u / 0x10 % 16) * 0x10 + u % 16
            == u,
        u / 0x1000 % 16 < 16,
        u / 0x100 % 16 < 16,
        u / 0x10 % 16 < 16,
        u % 16 < 16,
{
    assert((u / 0x1000 % 16) * 0x1000 + (u / 0x100 % 16) * 0x100 + (u / 0x10 % 16) * 0x10 + u % 16
        == u) by (bit_vector)
        requires
            u < 0x10000,
    ;
}

/// The value of the hexadecimal digit that spells `d`.
proof fn lemma_hex_char_val(d: u32)
    requires
        d < 16,
    ensures
        is_hex_char(crate::render::hex_char_of(d)),
        crate::lexer::hex_val(crate::render::hex_char_of(d)) == d,
{
}

/// Scanning an escaped string body: at cursor `i` the text holds the
/// escape of `t` and then the closing quote; the scan decodes exactly `t`
/// and stops after the quote.
proof fn lemma_scan_escaped(s: Seq<char>, i: nat, acc: Seq<char>, start: nat, t: Seq<char>)
    requires
        i + crate::render::spec_escape(t).len() < s.len(),
        s.subrange(i as int, i + crate::render::spec_escape(t).len() as int) =~= crate::render::spec_escape(t),
        s[i + crate::render::spec_escape(t).len() as int] == '"',
    ensures
        scan_string(s, i, acc, start) == Ok::<_, SpecError>(
            (acc + t, (i + crate::render::spec_escape(t).len() + 1) as nat),
        ),
    decreases t.len(),
{
    let esc = crate::render::spec_escape(t);
    if t.len() == 0 {
        assert(esc.len() == 0);
        assert(s[i as int] == '"');
        assert(acc + t =~= acc);
    } else {
        lemma_escape_front(t);
        let c = t[0];
        let ec = crate::render::esc_char(c);
        let rest = crate::render::spec_escape(t.drop_first());
        assert(esc =~= ec + rest);
        assert(esc.len() == ec.len() + rest.len());
        let i2 = (i + ec.len()) as nat;
        assert(s.subrange(i2 as int, i2 + rest.len() as int) =~= rest) by {
            assert(forall|j: int|
                0 <= j < rest.len() ==> s.subrange(i2 as int, i2 + rest.len() as int)[j]
                    == esc[j + ec.len()] && rest[j] == esc[j + ec.len()]);
        }
        assert(forall|j: int| 0 <= j < ec.len() ==> s[i + j] == ec[j]) by {
            assert(forall|j: int|
                0 <= j < ec.len() ==> s.subrange(i as int, i + esc.len() as int)[j] == ec[j]);
        }
        assert(s[i + 0 as int] == ec[0]);
        assert(s[i as int] == ec[0]);
        if ec.len() >= 2 {
            assert(s[i + 1 as int] == ec[1]);
            assert(s[i + 1 as int] == ec[1]);
        }
        if ec.len() == 6 {
            assert(s[i + 2 as int] == ec[2]);
            assert(s[i + 3 as int] == ec[3]);
            assert(s[i + 4 as int] == ec[4]);
            assert(s[i + 5 as int] == ec[5]);
        }
        if c == '"' || c == '\\' {
            assert(ec =~= seq!['\\', c]);
            assert(s[i as int] == '\\' && s[i + 1 as int] == c);
            assert(crate::lexer::simple_esc(c) == Some(c));
            lemma_scan_escaped(s, i2, acc.push(c), start, t.drop_first());
            assert(acc.push(c) + t.drop_first() =~= acc + t);
        } else if c == '\n' {
            assert(ec =~= seq!['\\', 'n']);
            lemma_scan_escaped(s, i2, acc.push(c), start, t.drop_first());
            assert(acc.push(c) + t.drop_first() =~= acc + t);
        } else if c == '\r' {
            assert(ec =~= seq!['\\', 'r']);
            lemma_scan_escaped(s, i2, acc.push(c), start, t.drop_first());
            assert(acc.push(c) + t.drop_first() =~= acc + t);
        } else if c == '\t' {
            assert(ec =~= seq!['\\', 't']);
            lemma_scan_escaped(s, i2, acc.push(c), start, t.drop_first());
            assert(acc.push(c) + t.drop_first() =~= acc + t);
        } else if crate::render::is_ctrl_char(c) {
            let u = c as u32;
            assert(u < 0x10000);
            lemma_hex_recompose(u);
            let d1 = u / 0x1000 % 16;
            let d2 = u / 0x100 % 16;
            let d3 = u / 0x10 % 16;
            let d4 = u % 16;
            lemma_hex_char_val(d1);
            lemma_hex_char_val(d2);
            lemma_hex_char_val(d3);
            lemma_hex_char_val(d4);
            assert(ec =~= seq![
                '\\',
                'u',
                crate::render::hex_char_of(d1),
                crate::render::hex_char_of(d2),
                crate::render::hex_char_of(d3),
                crate::render::hex_char_of(d4),
            ]);
            assert(s[i as int] == '\\' && s[i + 1 as int] == 'u');
            assert(has_four_hex(s, i));
            assert(four_hex_val(s, i) == d1 * 0x1000 + d2 * 0x100 + d3 * 0x10 + d4);
            assert(four_hex_val(s, i) == u as int);
            assert(valid_code_point(u as int));
            assert(char_from_cp(u) == c) by {
                assert(crate::lexer::cp_of(c) == u);
                assert(crate::lexer::cp_of(char_from_cp(u)) == u);
                crate::lexer::lemma_char_cast_injective(char_from_cp(u), c);
            }
            lemma_scan_escaped(s, i2, acc.push(c), start, t.drop_first());
            assert(acc.push(c) + t.drop_first() =~= acc + t);
        } else {
            assert(ec =~= seq![c]);
            assert(s[i as int] == c);
            assert(c != '"' && c != '\\');
            lemma_scan_escaped(s, i2, acc.push(c), start, t.drop_first());
            assert(acc.push(c) + t.drop_first() =~= acc + t);
        }
    }
}


/// The run of digits that `digits_end` passes over.
proof fn lemma_digits_end_run(t: Seq<char>, x: nat)
    requires
        x <= t.len(),
    ensures
        x <= digits_end(t, x) <= t.len(),
        forall|j: int| x <= j < digits_end(t, x) ==> is_digit_char(#[trigger] t[j]),
        digits_end(t, x) == t.len() || !is_digit_char(t[digits_end(t, x) as int]),
    decreases t.len() - x,
{
    if x < t.len() && is_digit_char(t[x as int]) {
        lemma_digits_end_run(t, (x + 1) as nat);
    }
}

/// A lexeme may be followed by a separator or a closing delimiter without
/// the text changing how it is scanned.
pub open spec fn is_boundary_char(c: char) -> bool {
    c == ',' || c == '}' || c == ']'
}

/// A digit run inside a larger text ends where it ends in the numeral
/// itself, when what follows the numeral cannot extend a run.
proof fn lemma_digits_end_shift(s: Seq<char>, i: nat, t: Seq<char>, x: nat)
    requires
        x <= t.len(),
        i + t.len() <= s.len(),
        forall|j: int| 0 <= j < t.len() ==> s[i + j] == #[trigger] t[j],
        i + t.len() == s.len() || !is_digit_char(s[i + t.len() as int]),
    ensures
        digits_end(s, (i + x) as nat) == i + digits_end(t, x),
{
    lemma_digits_end_run(t, x);
    let e = digits_end(t, x);
    assert forall|j: int| i + x <= j < i + e implies is_digit_char(#[trigger] s[j]) by {
        assert(t[j - i] == s[i + (j - i)]);
        assert(s[j] == t[j - i]);
    }
    if e < t.len() {
        assert(s[i + e as int] == t[e as int]);
        lemma_digits_end_exact(s, (i + x) as nat, (i + e) as nat);
    } else {
        lemma_digits_end_exact(s, (i + x) as nat, (i + e) as nat);
    }
}

/// A well-formed numeral inside a larger text scans to itself: the scan
/// stops exactly at its end when what follows cannot extend it.
proof fn lemma_scan_number_shift(s: Seq<char>, i: nat, t: Seq<char>)
    requires
        scan_number(t, 0) == Ok::<(Seq<char>, nat), SpecError>((t, t.len() as nat)),
        i + t.len() <= s.len(),
        forall|j: int| 0 <= j < t.len() ==> s[i + j] == #[trigger] t[j],
        i + t.len() == s.len() || is_boundary_char(s[i + t.len() as int]),
    ensures
        scan_number(s, i) == Ok::<(Seq<char>, nat), SpecError>((t, (i + t.len()) as nat)),
{
    assert(t.len() > 0);
    assert(forall|j: int| 0 <= j < t.len() ==> s[i + j] == t[j]);
    assert(i + t.len() == s.len() || (!is_digit_char(s[i + t.len() as int]) && s[i + t.len() as int]
        != '.' && s[i + t.len() as int] != 'e' && s[i + t.len() as int] != 'E'));
    assert(s[i + 0 as int] == t[0]);
    assert(s[i as int] == t[0]);

    // the sign
    let x1: nat = if t[0] == '-' {
        1nat
    } else {
        0nat
    };
    assert(x1 < t.len());
    assert(s[i + x1 as int] == t[x1 as int]);

    // the integer part
    let x2: nat = if t[x1 as int] == '0' {
        (x1 + 1) as nat
    } else {
        digits_end(t, x1)
    };
    lemma_digits_end_run(t, x1);
    lemma_digits_end_shift(s, i, t, x1);
    assert(x2 <= t.len());
    if t[x1 as int] == '0' {
        if x1 + 1 < t.len() {
            assert(s[i + (x1 + 1) as int] == t[x1 + 1 as int]);
        }
    }
    if x2 < t.len() {
        assert(s[i + x2 as int] == t[x2 as int]);
    }

    // the fraction
    let x3: nat = if x2 < t.len() && t[x2 as int] == '.' {
        digits_end(t, (x2 + 1) as nat)
    } else {
        x2
    };
    if x2 < t.len() && t[x2 as int] == '.' {
        assert(x2 + 1 <= t.len());
        lemma_digits_end_run(t, (x2 + 1) as nat);
        lemma_digits_end_shift(s, i, t, (x2 + 1) as nat);
    }
    assert(x3 <= t.len());
    if x3 < t.len() {
        assert(s[i + x3 as int] == t[x3 as int]);
    }

    // the exponent
    if x3 < t.len() && (t[x3 as int] == 'e' || t[x3 as int] == 'E') {
        let x4: nat = if x3 + 1 < t.len() && (t[x3 + 1 as int] == '+' || t[x3 + 1 as int] == '-') {
            (x3 + 2) as nat
        } else {
            (x3 + 1) as nat
        };
        if x3 + 1 < t.len() {
            assert(s[i + (x3 + 1) as int] == t[x3 + 1 as int]);
        }
        assert(x4 <= t.len());
        lemma_digits_end_run(t, x4);
        lemma_digits_end_shift(s, i, t, x4);
    }

    assert(s.subrange(i as int, i + t.len() as int) =~= t);
}


/// The text at cursor `i` holds exactly the characters of `u`.
pub open spec fn agrees(s: Seq<char>, i: nat, u: Seq<char>) -> bool {
    i + u.len() <= s.len() && (forall|j: int| 0 <= j < u.len() ==> s[i + j] == #[trigger] u[j])
}

proof fn lemma_agrees_split(s: Seq<char>, i: nat, a: Seq<char>, b: Seq<char>)
    requires
        agrees(s, i, a + b),
    ensures
        agrees(s, i, a),
        agrees(s, (i + a.len()) as nat, b),
{
    assert forall|j: int| 0 <= j < a.len() implies s[i + j] == #[trigger] a[j] by {
        assert(s[i + j] == (a + b)[j]);
        assert((a + b)[j] == a[j]);
    }
    let i2 = (i + a.len()) as nat;
    assert forall|j: int| 0 <= j < b.len() implies s[i2 + j] == #[trigger] b[j] by {
        assert(s[i + (a.len() + j)] == (a + b)[a.len() + j]);
        assert((a + b)[a.len() + j] == b[j]);
        assert(i2 + j == i + (a.len() + j));
    }
}

/// A quoted, escaped string in the text makes one string lexeme.
proof fn lemma_string_token(s: Seq<char>, p: nat, k: Seq<char>)
    requires
        agrees(s, p, seq!['"'] + spec_escape(k) + seq!['"']),
    ensures
        spec_next_token(s, p) == Ok::<crate::lexer::LexStep, SpecError>(
            crate::lexer::LexStep {
                tok: SpecTok::Str(k),
                at: p,
                end: (p + spec_escape(k).len() + 2) as nat,
            },
        ),
{
    let esc = spec_escape(k);
    assert(seq!['"'] + esc + seq!['"'] =~= seq!['"'] + (esc + seq!['"']));
    lemma_agrees_split(s, p, seq!['"'], esc + seq!['"']);
    lemma_agrees_split(s, (p + 1) as nat, esc, seq!['"']);
    assert(s[p + 0 as int] == seq!['"'][0]);
    assert(s[p as int] == '"');
    assert(!crate::lexer::is_ws_char('"'));
    assert(skip_ws(s, p) == p);
    let q2 = (p + 1 + esc.len()) as nat;
    assert(s[q2 + 0 as int] == seq!['"'][0]);
    assert(s[q2 as int] == '"');
    assert(p + 1 + esc.len() < s.len());
    assert(s.subrange(p + 1 as int, p + 1 + esc.len() as int) =~= esc) by {
        assert(forall|j: int|
            0 <= j < esc.len() ==> #[trigger] s.subrange(p + 1 as int, p + 1 + esc.len() as int)[j]
                == s[p + 1 + j]);
    }
    lemma_scan_escaped(s, (p + 1) as nat, Seq::empty(), p, k);
    assert(Seq::empty() + k =~= k);
}

/// Parsing the rendered text of a well-formed value, inside a larger
/// text, yields the value and stops exactly at the text's end.
proof fn lemma_parse_rendered(s: Seq<char>, i: nat, v: SpecValue)
    requires
        value_wf(v),
        agrees(s, i, spec_render(v)),
        i + spec_render(v).len() == s.len() || is_boundary_char(s[i + spec_render(v).len() as int]),
    ensures
        spec_parse_value(s, i) == Ok::<(SpecValue, nat), SpecError>(
            (v, (i + spec_render(v).len()) as nat),
        ),
    decreases v, 1nat,
{
    match v {
        SpecValue::String(t) => {
            lemma_parse_rendered_string(s, i, v, t);
        },
        SpecValue::Number(t) => {
            lemma_parse_rendered_number(s, i, v, t);
        },
        SpecValue::Boolean(b) => {
            if b {
                lemma_parse_rendered_boolean_true(s, i, v);
            } else {
                lemma_parse_rendered_boolean_false(s, i, v);
            }
        },
        SpecValue::Null => {
            lemma_parse_rendered_null(s, i, v);
        },
        SpecValue::Object(m) => {
            lemma_parse_rendered_object(s, i, v, m);
        },
        SpecValue::Array(a) => {
            lemma_parse_rendered_array(s, i, v, a);
        },
    }
}

#[verifier::rlimit(100)]
#[verifier::spinoff_prover]
proof fn lemma_parse_rendered_string(s: Seq<char>, i: nat, v: SpecValue, t: Seq<char>)
    requires
        v == SpecValue::String(t),
        agrees(s, i, spec_render(v)),
        i + spec_render(v).len() == s.len() || is_boundary_char(s[i + spec_render(v).len() as int]),
    ensures
        spec_parse_value(s, i) == Ok::<(SpecValue, nat), SpecError>(
            (v, (i + spec_render(v).len()) as nat),
        ),
{
    let rv = spec_render(v);
    
            let esc = spec_escape(t);
            assert(rv =~= (seq!['"'] + esc + seq!['"']));
            lemma_string_token(s, i, t);
            assert(i < s.len());
}

#[verifier::rlimit(100)]
#[verifier::spinoff_prover]
proof fn lemma_parse_rendered_number(s: Seq<char>, i: nat, v: SpecValue, t: Seq<char>)
    requires
        v == SpecValue::Number(t),
        value_wf(v),
        agrees(s, i, spec_render(v)),
        i + spec_render(v).len() == s.len() || is_boundary_char(s[i + spec_render(v).len() as int]),
    ensures
        spec_parse_value(s, i) == Ok::<(SpecValue, nat), SpecError>(
            (v, (i + spec_render(v).len()) as nat),
        ),
{
    let rv = spec_render(v);
    
            assert(rv == t);
            if t.len() == 0 {
                assert(!is_numeral(t));
            }
            assert(t.len() > 0);
            assert(s[i + 0 as int] == t[0]);
            assert(s[i as int] == t[0]);
            assert(t[0] == '-' || is_digit_char(t[0])) by {
                if t[0] != '-' && !is_digit_char(t[0]) {
                    assert(!is_numeral(t));
                }
            }
            assert(!crate::lexer::is_ws_char(t[0]));
            assert(skip_ws(s, i) == i);
            lemma_scan_number_shift(s, i, t);
            assert(i < s.len());
}

#[verifier::rlimit(100)]
#[verifier::spinoff_prover]
proof fn lemma_parse_rendered_boolean_true(s: Seq<char>, i: nat, v: SpecValue)
    requires
        v == SpecValue::Boolean(true),
        agrees(s, i, spec_render(v)),
        i + spec_render(v).len() == s.len() || is_boundary_char(s[i + spec_render(v).len() as int]),
    ensures
        spec_parse_value(s, i) == Ok::<(SpecValue, nat), SpecError>(
            (v, (i + spec_render(v).len()) as nat),
        ),
{
    let rv = spec_render(v);
    
                assert(rv == crate::lexer::true_chars());
                assert(s[i + 0 as int] == 't');
                assert(s[i as int] == 't');
                assert(skip_ws(s, i) == i);
                assert(s[i + 1 as int] == 'r' && s[i + 2 as int] == 'u' && s[i + 3 as int] == 'e');
                assert forall|j: int| i <= j < i + 4 implies is_alpha_char(#[trigger] s[j]) by {
                    assert(s[i + (j - i)] == rv[j - i]);
                }
                lemma_alpha_end_exact(s, i, (i + 4) as nat);
                assert(s.subrange(i as int, i + 4 as int) =~= crate::lexer::true_chars());
    assert(i < s.len());
}

#[verifier::rlimit(100)]
#[verifier::spinoff_prover]
proof fn lemma_parse_rendered_boolean_false(s: Seq<char>, i: nat, v: SpecValue)
    requires
        v == SpecValue::Boolean(false),
        agrees(s, i, spec_render(v)),
        i + spec_render(v).len() == s.len() || is_boundary_char(s[i + spec_render(v).len() as int]),
    ensures
        spec_parse_value(s, i) == Ok::<(SpecValue, nat), SpecError>(
            (v, (i + spec_render(v).len()) as nat),
        ),
{
    let rv = spec_render(v);
    
                assert(rv == crate::lexer::false_chars());
                assert(s[i + 0 as int] == 'f');
                assert(s[i as int] == 'f');
                assert(skip_ws(s, i) == i);
                assert(s[i + 1 as int] == 'a' && s[i + 2 as int] == 'l' && s[i + 3 as int] == 's'
                    && s[i + 4 as int] == 'e');
                assert forall|j: int| i <= j < i + 5 implies is_alpha_char(#[trigger] s[j]) by {
                    assert(s[i + (j - i)] == rv[j - i]);
                }
                lemma_alpha_end_exact(s, i, (i + 5) as nat);
                assert(s.subrange(i as int, i + 5 as int) =~= crate::lexer::false_chars());
                assert(s.subrange(i as int, i + 5 as int) != crate::lexer::true_chars());
    assert(i < s.len());
}

#[verifier::rlimit(100)]
#[verifier::spinoff_prover]
proof fn lemma_parse_rendered_null(s: Seq<char>, i: nat, v: SpecValue)
    requires
        v == SpecValue::Null,
        agrees(s, i, spec_render(v)),
        i + spec_render(v).len() == s.len() || is_boundary_char(s[i + spec_render(v).len() as int]),
    ensures
        spec_parse_value(s, i) == Ok::<(SpecValue, nat), SpecError>(
            (v, (i + spec_render(v).len()) as nat),
        ),
{
    let rv = spec_render(v);
    
            assert(rv == crate::lexer::null_chars());
            assert(s[i + 0 as int] == 'n');
            assert(s[i as int] == 'n');
            assert(skip_ws(s, i) == i);
            assert(s[i + 1 as int] == 'u' && s[i + 2 as int] == 'l' && s[i + 3 as int] == 'l');
            assert forall|j: int| i <= j < i + 4 implies is_alpha_char(#[trigger] s[j]) by {
                assert(s[i + (j - i)] == rv[j - i]);
            }
            lemma_alpha_end_exact(s, i, (i + 4) as nat);
            let run = s.subrange(i as int, i + 4 as int);
            assert(run =~= crate::lexer::null_chars());
            assert(run != crate::lexer::true_chars()) by {
                if run == crate::lexer::true_chars() {
                    assert(run[0] == 't');
                    assert(false);
                }
            }
            assert(run != crate::lexer::false_chars()) by {
                if run == crate::lexer::false_chars() {
                    assert(run.len() == 5);
                    assert(false);
                }
            }
            assert(i < s.len());
}

#[verifier::rlimit(100)]
#[verifier::spinoff_prover]
proof fn lemma_parse_rendered_object(s: Seq<char>, i: nat, v: SpecValue, m: Seq<(Seq<char>, SpecValue)>)
    requires
        v == SpecValue::Object(m),
        value_wf(v),
        agrees(s, i, spec_render(v)),
        i + spec_render(v).len() == s.len() || is_boundary_char(s[i + spec_render(v).len() as int]),
    ensures
        spec_parse_value(s, i) == Ok::<(SpecValue, nat), SpecError>(
            (v, (i + spec_render(v).len()) as nat),
        ),
    decreases v, 0nat,
{
    let rv = spec_render(v);
    {
        
            let mem = render_members(m);
            assert(rv =~= seq!['{'] + (mem + seq!['}']));
            lemma_agrees_split(s, i, seq!['{'], mem + seq!['}']);
            lemma_agrees_split(s, (i + 1) as nat, mem, seq!['}']);
            assert(s[i + 0 as int] == seq!['{'][0]);
            assert(s[i as int] == '{');
            assert(skip_ws(s, i) == i);
            assert(i < s.len());
            let pb = (i + 1 + mem.len()) as nat;
            assert(s[pb + 0 as int] == seq!['}'][0]);
            assert(s[pb as int] == '}');
            assert(adv(i, (i + 1) as nat) == i + 1);
            if m.len() == 0 {
                assert(mem.len() == 0);
                assert(s[i + 1 as int] == '}');
                assert(skip_ws(s, (i + 1) as nat) == i + 1);
                assert(m =~= Seq::<(Seq<char>, SpecValue)>::empty());
            } else {
                lemma_parse_rendered_members(s, (i + 1) as nat, Seq::empty(), m);
                assert(Seq::empty() + m =~= m);
                // the peeked lexeme after the brace is the first key
                let p0 = m[0];
                assert(mem =~= render_pair(p0) + render_members_rest(m.drop_first()));
                assert(render_pair(p0) =~= (seq!['"'] + spec_escape(p0.0) + seq!['"']) + (seq![':']
                    + spec_render(p0.1)));
                lemma_agrees_split(
                    s,
                    (i + 1) as nat,
                    render_pair(p0),
                    render_members_rest(m.drop_first()),
                );
                lemma_agrees_split(
                    s,
                    (i + 1) as nat,
                    seq!['"'] + spec_escape(p0.0) + seq!['"'],
                    seq![':'] + spec_render(p0.1),
                );
                lemma_string_token(s, (i + 1) as nat, p0.0);
            }
    }
}

#[verifier::rlimit(100)]
#[verifier::spinoff_prover]
proof fn lemma_parse_rendered_array(s: Seq<char>, i: nat, v: SpecValue, a: Seq<SpecValue>)
    requires
        v == SpecValue::Array(a),
        value_wf(v),
        agrees(s, i, spec_render(v)),
        i + spec_render(v).len() == s.len() || is_boundary_char(s[i + spec_render(v).len() as int]),
    ensures
        spec_parse_value(s, i) == Ok::<(SpecValue, nat), SpecError>(
            (v, (i + spec_render(v).len()) as nat),
        ),
    decreases v, 0nat,
{
    let rv = spec_render(v);
    {
        
            let el = render_elems(a);
            assert(rv =~= seq!['['] + (el + seq![']']));
            lemma_agrees_split(s, i, seq!['['], el + seq![']']);
            lemma_agrees_split(s, (i + 1) as nat, el, seq![']']);
            assert(s[i + 0 as int] == seq!['['][0]);
            assert(s[i as int] == '[');
            assert(skip_ws(s, i) == i);
            assert(i < s.len());
            let pb = (i + 1 + el.len()) as nat;
            assert(s[pb + 0 as int] == seq![']'][0]);
            assert(s[pb as int] == ']');
            assert(adv(i, (i + 1) as nat) == i + 1);
            if a.len() == 0 {
                assert(el.len() == 0);
                assert(s[i + 1 as int] == ']');
                assert(skip_ws(s, (i + 1) as nat) == i + 1);
                assert(a =~= Seq::<SpecValue>::empty());
            } else {
                lemma_parse_rendered_elems(s, (i + 1) as nat, Seq::empty(), a);
                assert(Seq::empty() + a =~= a);
                // the lexeme after the bracket begins the first element,
                // never the closing bracket: were it anything else, the
                // elements could not have parsed
                let i1 = (i + 1) as nat;
                assert(i1 < s.len());
                assert(spec_parse_value(s, i1) is Ok) by {
                    if spec_parse_value(s, i1) is Err {
                        assert(spec_parse_elems(s, i1, Seq::empty()) is Err);
                    }
                }
                assert(spec_next_token(s, i1) matches Ok(nst) && nst.tok != SpecTok::RBracket) by {
                    match spec_next_token(s, i1) {
                        Err(e) => {
                            assert(spec_parse_value(s, i1) is Err);
                        },
                        Ok(nst) => {
                            if nst.tok == SpecTok::RBracket {
                                assert(spec_parse_value(s, i1) is Err);
                            }
                        },
                    }
                }
            }
    }
}


/// Parsing a rendered member list appends the members, in order, to what
/// was gathered before, and stops after the closing brace.
#[verifier::rlimit(100)]
#[verifier::spinoff_prover]
proof fn lemma_parse_rendered_members(
    s: Seq<char>,
    i: nat,
    acc: Seq<(Seq<char>, SpecValue)>,
    m: Seq<(Seq<char>, SpecValue)>,
)
    requires
        m.len() > 0,
        pairs_wf(m),
        keys_unique(m),
        forall|j1: int, j2: int|
            #![trigger acc[j1], m[j2]]
            0 <= j1 < acc.len() && 0 <= j2 < m.len() ==> acc[j1].0 != m[j2].0,
        agrees(s, i, render_members(m)),
        i + render_members(m).len() < s.len(),
        s[i + render_members(m).len() as int] == '}',
    ensures
        spec_parse_members(s, i, acc) == Ok::<(SpecValue, nat), SpecError>(
            (SpecValue::Object(acc + m), (i + render_members(m).len() + 1) as nat),
        ),
    decreases m, 0nat,
{
    let mem = render_members(m);
    let p0 = m[0];
    let k = p0.0;
    let v0 = p0.1;
    let esc = spec_escape(k);
    let rest = render_members_rest(m.drop_first());
    assert(mem =~= render_pair(p0) + rest);
    lemma_agrees_split(s, i, render_pair(p0), rest);
    assert(render_pair(p0) =~= (seq!['"'] + esc + seq!['"']) + (seq![':'] + spec_render(v0)));
    lemma_agrees_split(s, i, seq!['"'] + esc + seq!['"'], seq![':'] + spec_render(v0));
    let ek = (i + esc.len() + 2) as nat;
    lemma_agrees_split(s, ek, seq![':'], spec_render(v0));
    lemma_string_token(s, i, k);
    assert(i < s.len());
    assert(adv(i, ek) == ek);
    // the colon
    assert(s[ek + 0 as int] == seq![':'][0]);
    assert(s[ek as int] == ':');
    assert(skip_ws(s, ek) == ek);
    assert(adv(ek, (ek + 1) as nat) == ek + 1);
    // the value
    let iv = (ek + 1) as nat;
    let jv = (iv + spec_render(v0).len()) as nat;
    assert(value_wf(v0));
    if m.len() == 1 {
        assert(rest.len() == 0);
        assert(jv == i + mem.len());
        assert(s[jv as int] == '}');
    } else {
        assert(rest =~= seq![','] + render_pair(m.drop_first()[0]) + render_members_rest(
            m.drop_first().drop_first(),
        ));
        assert(agrees(s, jv, rest));
        assert(s[jv + 0 as int] == rest[0]);
        assert(s[jv as int] == ',');
    }
    lemma_parse_rendered(s, iv, v0);
    assert(adv(iv, jv) == jv);
    // the member joins the object
    crate::types::lemma_find_key(acc, k);
    assert(crate::types::find_key(acc, k) == -1) by {
        if crate::types::find_key(acc, k) >= 0 {
            let fk = crate::types::find_key(acc, k);
            assert(acc[fk].0 == m[0].0);
            assert(false);
        }
    }
    let acc2 = crate::types::obj_put(acc, k, v0);
    assert(acc2 =~= acc.push((k, v0)));
    assert((k, v0) == m[0]) by {
        assert(m[0].0 == k && m[0].1 == v0);
    }
    // the separator
    if m.len() == 1 {
        assert(skip_ws(s, jv) == jv);
        assert(acc2 =~= acc + m);
        assert(jv + 1 == i + mem.len() + 1);
    } else {
        let md = m.drop_first();
        assert(skip_ws(s, jv) == jv);
        // the comma
        let ic = (jv + 1) as nat;
        assert(adv(jv, ic) == ic);
        assert(rest =~= seq![','] + render_members(md));
        lemma_agrees_split(s, jv, seq![','], render_members(md));
        assert(agrees(s, ic, render_members(md)));
        assert(ic + render_members(md).len() == i + mem.len());
        assert(s[ic + render_members(md).len() as int] == '}');
        // what follows the comma is the next key, never the closing brace
        let p1 = md[0];
        assert(render_members(md) =~= render_pair(p1) + render_members_rest(md.drop_first()));
        lemma_agrees_split(s, ic, render_pair(p1), render_members_rest(md.drop_first()));
        assert(render_pair(p1) =~= (seq!['"'] + spec_escape(p1.0) + seq!['"']) + (seq![':']
            + spec_render(p1.1)));
        lemma_agrees_split(
            s,
            ic,
            seq!['"'] + spec_escape(p1.0) + seq!['"'],
            seq![':'] + spec_render(p1.1),
        );
        lemma_string_token(s, ic, p1.0);
        // the remaining members
        assert(pairs_wf(md));
        assert(keys_unique(md)) by {
            assert(forall|j1: int, j2: int|
                #![trigger md[j1], md[j2]]
                0 <= j1 < j2 < md.len() ==> md[j1] == m[j1 + 1] && md[j2] == m[j2 + 1]);
        }
        assert(forall|j1: int, j2: int|
            #![trigger acc2[j1], md[j2]]
            0 <= j1 < acc2.len() && 0 <= j2 < md.len() ==> acc2[j1].0 != md[j2].0) by {
            assert(forall|j2: int| 0 <= j2 < md.len() ==> #[trigger] md[j2] == m[j2 + 1]);
            assert(forall|j1: int| 0 <= j1 < acc.len() ==> #[trigger] acc2[j1] == acc[j1]);
            assert(acc2[acc.len() as int] == m[0]);
        }
        lemma_parse_rendered_members(s, ic, acc2, md);
        assert(acc2 + md =~= acc + m);
        assert(ic + render_members(md).len() + 1 == i + mem.len() + 1);
    }
}

/// Parsing a rendered element list appends the elements, in order, to
/// what was gathered before, and stops after the closing bracket.
#[verifier::rlimit(100)]
#[verifier::spinoff_prover]
proof fn lemma_parse_rendered_elems(s: Seq<char>, i: nat, acc: Seq<SpecValue>, a: Seq<SpecValue>)
    requires
        a.len() > 0,
        elems_wf(a),
        agrees(s, i, render_elems(a)),
        i + render_elems(a).len() < s.len(),
        s[i + render_elems(a).len() as int] == ']',
    ensures
        spec_parse_elems(s, i, acc) == Ok::<(SpecValue, nat), SpecError>(
            (SpecValue::Array(acc + a), (i + render_elems(a).len() + 1) as nat),
        ),
    decreases a, 0nat,
{
    let el = render_elems(a);
    let v0 = a[0];
    let rest = render_elems_rest(a.drop_first());
    assert(el =~= spec_render(v0) + rest);
    lemma_agrees_split(s, i, spec_render(v0), rest);
    let jv = (i + spec_render(v0).len()) as nat;
    assert(value_wf(v0));
    if a.len() == 1 {
        assert(rest.len() == 0);
        assert(jv == i + el.len());
        assert(s[jv as int] == ']');
    } else {
        assert(rest =~= seq![','] + spec_render(a.drop_first()[0]) + render_elems_rest(
            a.drop_first().drop_first(),
        ));
        assert(s[jv + 0 as int] == rest[0]);
        assert(s[jv as int] == ',');
    }
    assert(i < s.len());
    lemma_parse_rendered(s, i, v0);
    assert(adv(i, jv) == jv);
    let acc2 = acc.push(v0);
    if a.len() == 1 {
        assert(skip_ws(s, jv) == jv);
        assert(acc2 =~= acc + a);
        assert(jv + 1 == i + el.len() + 1);
    } else {
        let ad = a.drop_first();
        assert(skip_ws(s, jv) == jv);
        let ic = (jv + 1) as nat;
        assert(adv(jv, ic) == ic);
        assert(rest =~= seq![','] + render_elems(ad));
        lemma_agrees_split(s, jv, seq![','], render_elems(ad));
        assert(agrees(s, ic, render_elems(ad)));
        assert(ic + render_elems(ad).len() == i + el.len());
        assert(s[ic + render_elems(ad).len() as int] == ']');
        assert(elems_wf(ad));
        lemma_parse_rendered_elems(s, ic, acc2, ad);
        // what follows the comma begins the next element, never the
        // closing bracket: were it anything else, the remaining elements
        // could not have parsed
        assert(ic < s.len());
        assert(spec_parse_value(s, ic) is Ok) by {
            if spec_parse_value(s, ic) is Err {
                assert(spec_parse_elems(s, ic, acc2) is Err);
            }
        }
        assert(spec_next_token(s, ic) matches Ok(nst) && nst.tok != SpecTok::RBracket) by {
            match spec_next_token(s, ic) {
                Err(e) => {
                    assert(spec_parse_value(s, ic) is Err);
                },
                Ok(nst) => {
                    if nst.tok == SpecTok::RBracket {
                        assert(spec_parse_value(s, ic) is Err);
                    }
                },
            }
        }
        assert(acc2 + ad =~= acc + a);
        assert(ic + render_elems(ad).len() + 1 == i + el.len() + 1);
    }
}

/// Round-trip: rendering a well-formed value to text and parsing the text
/// back yields the value again.
pub proof fn lemma_render_parse_roundtrip(v: SpecValue)
    requires
        value_wf(v),
    ensures
        spec_parse_document(spec_render(v)) == Ok::<SpecValue, SpecError>(v),
{
    let s = spec_render(v);
    assert(agrees(s, 0, s)) by {
        assert(forall|j: int| 0 <= j < s.len() ==> s[0 + j] == #[trigger] s[j]);
    }
    lemma_parse_rendered(s, 0, v);
    let n = s.len() as nat;
    assert(skip_ws(s, n) == n);
}


// ----------------------------------------------------------------------------
// What the parser hands out is well-formed: every numeral it carries
// satisfies the numeral grammar, and every object's keys are unique. Such
// a value renders back to text that parses to it again.
// ----------------------------------------------------------------------------

/// A numeral cut out of a larger text by the scanner satisfies the
/// numeral grammar on its own.
#[verifier::rlimit(100)]
#[verifier::spinoff_prover]
proof fn lemma_scanned_numeral(s: Seq<char>, j: nat)
    requires
        j <= s.len(),
    ensures
        scan_number(s, j) matches Ok(te) ==> is_numeral(te.0),
{
    match scan_number(s, j) {
        Err(e) => {},
        Ok(te) => {
            let t = te.0;
            let e = te.1;
            crate::lexer::lemma_scan_number_bounds(s, j);
            assert(t == s.subrange(j as int, e as int));
            assert(t.len() == e - j);
            assert(forall|x: int| 0 <= x < t.len() ==> #[trigger] t[x] == s[j + x]);

            // mirror the scan of `s`
            let i1: nat = if j < s.len() && s[j as int] == '-' {
                (j + 1) as nat
            } else {
                j
            };
            assert(i1 < s.len());
            let f: nat = if s[i1 as int] == '0' {
                (i1 + 1) as nat
            } else {
                digits_end(s, i1)
            };
            lemma_digits_end_run(s, i1);
            let g: nat = if f < s.len() && s[f as int] == '.' {
                digits_end(s, (f + 1) as nat)
            } else {
                f
            };
            if f < s.len() {
                lemma_digits_end_run(s, (f + 1) as nat);
            }
            if g <= s.len() && j <= g {
                crate::lexer::lemma_scan_exp_bounds(s, j, g);
            }
            if f <= s.len() && j <= f {
                crate::lexer::lemma_scan_exp_bounds(s, j, f);
            }
            // the exponent phase
            if g < s.len() && (s[g as int] == 'e' || s[g as int] == 'E') {
                let k: nat = if g + 1 < s.len() && (s[g + 1 as int] == '+' || s[g + 1 as int]
                    == '-') {
                    (g + 2) as nat
                } else {
                    (g + 1) as nat
                };
                lemma_digits_end_run(s, k);
                assert(e == digits_end(s, k));
                assert(e == s.len() || !is_digit_char(s[e as int]));
                // the scan of `t` walks the same characters
                assert(j + (i1 - j) == i1 && i1 - j < t.len());
                assert(t[i1 - j] == s[i1 as int]);
                check_numeral_shape(s, j, t, e, i1, f, g, k);
            } else {
                assert(e == g);
                check_numeral_shape_no_exp(s, j, t, e, i1, f, g);
            }
        },
    }
}

/// The scan of the cut-out numeral `t` retraces the scan of `s`, phase by
/// phase, when the numeral has an exponent part.
#[verifier::rlimit(100)]
#[verifier::spinoff_prover]
proof fn check_numeral_shape(
    s: Seq<char>,
    j: nat,
    t: Seq<char>,
    e: nat,
    i1: nat,
    f: nat,
    g: nat,
    k: nat,
)
    requires
        j <= i1 <= f <= g <= k <= e <= s.len(),
        t == s.subrange(j as int, e as int),
        i1 == j || (i1 == j + 1 && s[j as int] == '-'),
        i1 < s.len(),
        i1 < f,
        s[i1 as int] == '0' ==> f == i1 + 1 && (f == s.len() || (f < e ==> !is_digit_char(
            s[f as int],
        ))) && !(f < s.len() && is_digit_char(s[f as int])),
        s[i1 as int] != '0' ==> is_digit_char(s[i1 as int]) && f == digits_end(s, i1),
        s[i1 as int] == '0' || is_digit_char(s[i1 as int]),
        f < s.len() && s[f as int] == '.' ==> g == digits_end(s, (f + 1) as nat) && g > f + 1,
        !(f < s.len() && s[f as int] == '.') ==> g == f,
        g < s.len() && (s[g as int] == 'e' || s[g as int] == 'E'),
        k == if g + 1 < s.len() && (s[g + 1 as int] == '+' || s[g + 1 as int] == '-') {
            (g + 2) as nat
        } else {
            (g + 1) as nat
        },
        e == digits_end(s, k),
        e > k,
    ensures
        is_numeral(t),
{
    assert(t.len() == e - j);
    assert(forall|x: int| 0 <= x < t.len() ==> #[trigger] t[x] == s[j + x]);
    lemma_digits_end_run(s, i1);
    if f < s.len() {
        lemma_digits_end_run(s, (f + 1) as nat);
    }
    lemma_digits_end_run(s, k);
    // the sign
    assert(t[0] == s[j + 0 as int]);
    let x1: nat = (i1 - j) as nat;
    assert(t[x1 as int] == s[j + x1 as int]);
    // the integer part
    let xf: nat = (f - j) as nat;
    if s[i1 as int] != '0' {
        assert(forall|y: int| x1 <= y < xf ==> is_digit_char(#[trigger] t[y]));
        assert(xf < t.len() ==> !is_digit_char(t[xf as int]));
        lemma_digits_end_exact(t, x1, xf);
    }
    if xf < t.len() {
        assert(t[xf as int] == s[j + xf as int]);
    }
    // the fraction
    let xg: nat = (g - j) as nat;
    if f < s.len() && s[f as int] == '.' {
        assert(forall|y: int| xf + 1 <= y < xg ==> is_digit_char(#[trigger] t[y]));
        assert(xg < t.len() ==> !is_digit_char(t[xg as int]));
        lemma_digits_end_exact(t, (xf + 1) as nat, xg);
    }
    assert(t[xg as int] == s[j + xg as int]);
    // the exponent
    let xk: nat = (k - j) as nat;
    if g + 1 < e {
        assert(t[xg + 1 as int] == s[j + (xg + 1) as int]);
    }
    assert(forall|y: int| xk <= y < t.len() ==> is_digit_char(#[trigger] t[y]));
    lemma_digits_end_exact(t, xk, t.len() as nat);
    assert(t.subrange(0, t.len() as int) =~= t);
}

/// The scan of the cut-out numeral `t` retraces the scan of `s`, phase by
/// phase, when the numeral has no exponent part.
#[verifier::rlimit(100)]
#[verifier::spinoff_prover]
proof fn check_numeral_shape_no_exp(
    s: Seq<char>,
    j: nat,
    t: Seq<char>,
    e: nat,
    i1: nat,
    f: nat,
    g: nat,
)
    requires
        j <= i1 <= f <= g <= e <= s.len(),
        e == g,
        t == s.subrange(j as int, e as int),
        i1 == j || (i1 == j + 1 && s[j as int] == '-'),
        i1 < s.len(),
        i1 < f,
        s[i1 as int] == '0' ==> f == i1 + 1 && !(f < s.len() && is_digit_char(s[f as int])),
        s[i1 as int] != '0' ==> is_digit_char(s[i1 as int]) && f == digits_end(s, i1),
        s[i1 as int] == '0' || is_digit_char(s[i1 as int]),
        f < s.len() && s[f as int] == '.' ==> g == digits_end(s, (f + 1) as nat) && g > f + 1,
        !(f < s.len() && s[f as int] == '.') ==> g == f,
        !(g < s.len() && (s[g as int] == 'e' || s[g as int] == 'E')),
    ensures
        is_numeral(t),
{
    assert(t.len() == e - j);
    assert(forall|x: int| 0 <= x < t.len() ==> #[trigger] t[x] == s[j + x]);
    lemma_digits_end_run(s, i1);
    if f < s.len() {
        lemma_digits_end_run(s, (f + 1) as nat);
    }
    assert(t[0] == s[j + 0 as int]);
    let x1: nat = (i1 - j) as nat;
    assert(x1 < t.len());
    assert(t[x1 as int] == s[j + x1 as int]);
    let xf: nat = (f - j) as nat;
    if s[i1 as int] != '0' {
        assert(forall|y: int| x1 <= y < xf ==> is_digit_char(#[trigger] t[y]));
        assert(xf < t.len() ==> !is_digit_char(t[xf as int]));
        lemma_digits_end_exact(t, x1, xf);
    }
    if xf < t.len() {
        assert(t[xf as int] == s[j + xf as int]);
    }
    let xg: nat = (g - j) as nat;
    if f < s.len() && s[f as int] == '.' {
        assert(forall|y: int| xf + 1 <= y < xg ==> is_digit_char(#[trigger] t[y]));
        assert(xg < t.len() ==> !is_digit_char(t[xg as int]));
        lemma_digits_end_exact(t, (xf + 1) as nat, xg);
    }
    assert(t.subrange(0, t.len() as int) =~= t);
}

/// Putting a member keeps keys unique and keeps every member's value
/// well-formed, when the new value is.
proof fn lemma_obj_put_wf(m: Seq<(Seq<char>, SpecValue)>, k: Seq<char>, v: SpecValue)
    requires
        keys_unique(m),
        forall|j: int| 0 <= j < m.len() ==> value_wf((#[trigger] m[j]).1),
        value_wf(v),
    ensures
        keys_unique(crate::types::obj_put(m, k, v)),
        forall|j: int|
            0 <= j < crate::types::obj_put(m, k, v).len() ==> value_wf(
                (#[trigger] crate::types::obj_put(m, k, v)[j]).1,
            ),
{
    crate::types::lemma_find_key(m, k);
    let fk = crate::types::find_key(m, k);
    let mp = crate::types::obj_put(m, k, v);
    if fk < 0 {
        assert(forall|j: int| 0 <= j < m.len() ==> #[trigger] mp[j] == m[j]);
        assert(mp[m.len() as int] == (k, v));
        assert forall|j1: int, j2: int|
            #![trigger mp[j1], mp[j2]]
            0 <= j1 < j2 < mp.len() implies mp[j1].0 != mp[j2].0 by {
            if j2 == m.len() {
                assert(mp[j1] == m[j1]);
            }
        }
    } else {
        assert(m[fk].0 == k);
        assert(forall|j: int| 0 <= j < m.len() && j != fk ==> #[trigger] mp[j] == m[j]);
        assert(mp[fk] == (k, v));
        assert forall|j1: int, j2: int|
            #![trigger mp[j1], mp[j2]]
            0 <= j1 < j2 < mp.len() implies mp[j1].0 != mp[j2].0 by {
            assert(mp[j1].0 == m[j1].0 && mp[j2].0 == m[j2].0);
        }
    }
}

/// The recursive form of member well-formedness follows from the
/// member-by-member form.
proof fn lemma_pairs_wf_from_each(m: Seq<(Seq<char>, SpecValue)>)
    requires
        forall|j: int| 0 <= j < m.len() ==> value_wf((#[trigger] m[j]).1),
    ensures
        pairs_wf(m),
    decreases m,
{
    if m.len() > 0 {
        assert(forall|j: int|
            0 <= j < m.drop_first().len() ==> #[trigger] m.drop_first()[j] == m[j + 1]);
        lemma_pairs_wf_from_each(m.drop_first());
    }
}

proof fn lemma_elems_wf_from_each(a: Seq<SpecValue>)
    requires
        forall|j: int| 0 <= j < a.len() ==> value_wf(#[trigger] a[j]),
    ensures
        elems_wf(a),
    decreases a,
{
    if a.len() > 0 {
        assert(forall|j: int|
            0 <= j < a.drop_first().len() ==> #[trigger] a.drop_first()[j] == a[j + 1]);
        lemma_elems_wf_from_each(a.drop_first());
    }
}

proof fn lemma_parse_value_wf(s: Seq<char>, i: nat)
    requires
        i <= s.len(),
    ensures
        spec_parse_value(s, i) matches Ok(vj) ==> value_wf(vj.0),
    decreases rem(s, i), 1nat,
{
    lemma_next_token_bounds(s, i);
    if i < s.len() {
        match spec_next_token(s, i) {
            Err(e) => {},
            Ok(st) => match st.tok {
                SpecTok::LBrace => lemma_parse_object_wf(s, adv(i, st.end)),
                SpecTok::LBracket => lemma_parse_array_wf(s, adv(i, st.end)),
                SpecTok::Num(t) => {
                    lemma_skip_ws_bounds(s, i);
                    lemma_scanned_numeral(s, skip_ws(s, i));
                },
                _ => {},
            },
        }
    }
}

proof fn lemma_parse_object_wf(s: Seq<char>, i: nat)
    requires
        i <= s.len(),
    ensures
        spec_parse_object(s, i) matches Ok(vj) ==> value_wf(vj.0),
    decreases rem(s, i), 3nat,
{
    lemma_next_token_bounds(s, i);
    match spec_next_token(s, i) {
        Err(e) => {},
        Ok(st) => if st.tok == SpecTok::RBrace {
        } else {
            lemma_parse_members_wf(s, i, Seq::empty());
        },
    }
}

#[verifier::rlimit(100)]
#[verifier::spinoff_prover]
proof fn lemma_parse_members_wf(s: Seq<char>, i: nat, acc: Seq<(Seq<char>, SpecValue)>)
    requires
        i <= s.len(),
        keys_unique(acc),
        forall|j: int| 0 <= j < acc.len() ==> value_wf((#[trigger] acc[j]).1),
    ensures
        spec_parse_members(s, i, acc) matches Ok(vj) ==> value_wf(vj.0),
    decreases rem(s, i), 2nat,
{
    lemma_next_token_bounds(s, i);
    if i < s.len() {
        match spec_next_token(s, i) {
            Err(e) => {},
            Ok(kst) => match kst.tok {
                SpecTok::Str(k) => {
                    let ik = adv(i, kst.end);
                    lemma_next_token_bounds(s, ik);
                    match spec_next_token(s, ik) {
                        Err(e) => {},
                        Ok(cst) => if cst.tok == SpecTok::Colon {
                            let iv = adv(ik, cst.end);
                            lemma_value_err_pos(s, iv);
                            lemma_parse_value_wf(s, iv);
                            match spec_parse_value(s, iv) {
                                Err(e) => {},
                                Ok(vj) => {
                                    let acc2 = crate::types::obj_put(acc, k, vj.0);
                                    lemma_obj_put_wf(acc, k, vj.0);
                                    let is = adv(iv, vj.1);
                                    lemma_next_token_bounds(s, is);
                                    match spec_next_token(s, is) {
                                        Err(e) => {},
                                        Ok(sst) => if sst.tok == SpecTok::RBrace {
                                            lemma_pairs_wf_from_each(acc2);
                                        } else if sst.tok == SpecTok::Comma {
                                            let ic = adv(is, sst.end);
                                            lemma_next_token_bounds(s, ic);
                                            match spec_next_token(s, ic) {
                                                Err(e) => {},
                                                Ok(nst) => if nst.tok == SpecTok::RBrace {
                                                } else {
                                                    lemma_parse_members_wf(s, ic, acc2);
                                                },
                                            }
                                        } else {
                                        },
                                    }
                                },
                            }
                        } else {
                        },
                    }
                },
                _ => {},
            },
        }
    }
}

proof fn lemma_parse_array_wf(s: Seq<char>, i: nat)
    requires
        i <= s.len(),
    ensures
        spec_parse_array(s, i) matches Ok(vj) ==> value_wf(vj.0),
    decreases rem(s, i), 3nat,
{
    lemma_next_token_bounds(s, i);
    match spec_next_token(s, i) {
        Err(e) => {},
        Ok(st) => if st.tok == SpecTok::RBracket {
        } else {
            lemma_parse_elems_wf(s, i, Seq::empty());
        },
    }
}

#[verifier::rlimit(100)]
#[verifier::spinoff_prover]
proof fn lemma_parse_elems_wf(s: Seq<char>, i: nat, acc: Seq<SpecValue>)
    requires
        i <= s.len(),
        forall|j: int| 0 <= j < acc.len() ==> value_wf(#[trigger] acc[j]),
    ensures
        spec_parse_elems(s, i, acc) matches Ok(vj) ==> value_wf(vj.0),
    decreases rem(s, i), 2nat,
{
    if i < s.len() {
        lemma_value_err_pos(s, i);
        lemma_parse_value_wf(s, i);
        match spec_parse_value(s, i) {
            Err(e) => {},
            Ok(vj) => {
                let acc2 = acc.push(vj.0);
                assert(forall|j: int| 0 <= j < acc.len() ==> #[trigger] acc2[j] == acc[j]);
                assert(acc2[acc.len() as int] == vj.0);
                let is = adv(i, vj.1);
                lemma_next_token_bounds(s, is);
                match spec_next_token(s, is) {
                    Err(e) => {},
                    Ok(sst) => if sst.tok == SpecTok::RBracket {
                        lemma_elems_wf_from_each(acc2);
                    } else if sst.tok == SpecTok::Comma {
                        let ic = adv(is, sst.end);
                        lemma_next_token_bounds(s, ic);
                        match spec_next_token(s, ic) {
                            Err(e) => {},
                            Ok(nst) => if nst.tok == SpecTok::RBracket {
                            } else {
                                lemma_parse_elems_wf(s, ic, acc2);
                            },
                        }
                    } else {
                    },
                }
            },
        }
    }
}

/// Every value a whole-document parse yields is well-formed: its numerals
/// satisfy the numeral grammar and its objects' keys are unique. Such a
/// value is in the round-trip law's domain: rendering it and parsing the
/// text back yields it again.
pub proof fn lemma_parsed_value_wf(s: Seq<char>)
    ensures
        spec_parse_document(s) matches Ok(v) ==> value_wf(v),
{
    lemma_parse_value_wf(s, 0);
}

/// A parsed value survives a round trip: rendering what a parse yielded
/// and parsing that text gives the same value again.
pub proof fn lemma_reparse_rendered_document(s: Seq<char>)
    ensures
        spec_parse_document(s) matches Ok(v) ==> spec_parse_document(spec_render(v))
            == Ok::<SpecValue, SpecError>(v),
{
    lemma_parsed_value_wf(s);
    match spec_parse_document(s) {
        Ok(v) => lemma_render_parse_roundtrip(v),
        Err(e) => {},
    }
}

} // verus!
