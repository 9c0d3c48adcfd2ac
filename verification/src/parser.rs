use vstd::prelude::*;

use crate::lexer::{
    lemma_next_token_bounds, rem, scan_number, skip_ws, spec_next_token, Lexer,
};
use crate::types::{
    obj_insert, obj_put, pairs_view, JsonValue, ParseError, ParseResult, SpecError, SpecTok,
    SpecValue, TokenType,
};

verus! {

// ----------------------------------------------------------------------------
// Descriptions of lexemes in diagnostics
// ----------------------------------------------------------------------------

/// The name a lexeme goes by in an `UnexpectedToken` diagnostic.
pub open spec fn tok_desc(t: SpecTok) -> Seq<char> {
    match t {
        SpecTok::LBrace => "LeftBrace"@,
        SpecTok::RBrace => "RightBrace"@,
        SpecTok::LBracket => "LeftBracket"@,
        SpecTok::RBracket => "RightBracket"@,
        SpecTok::Comma => "Comma"@,
        SpecTok::Colon => "Colon"@,
        SpecTok::Str(_) => "String"@,
        SpecTok::Num(_) => "Number"@,
        SpecTok::Bool(_) => "Boolean"@,
        SpecTok::Null => "Null"@,
        SpecTok::Eof => "Eof"@,
    }
}

fn tok_desc_string(t: &TokenType) -> (r: String)
    ensures
        r@ == tok_desc(t@),
{
    match t {
        TokenType::LeftBrace => String::from_str("LeftBrace"),
        TokenType::RightBrace => String::from_str("RightBrace"),
        TokenType::LeftBracket => String::from_str("LeftBracket"),
        TokenType::RightBracket => String::from_str("RightBracket"),
        TokenType::Comma => String::from_str("Comma"),
        TokenType::Colon => String::from_str("Colon"),
        TokenType::String(_) => String::from_str("String"),
        TokenType::Number(_) => String::from_str("Number"),
        TokenType::Boolean(_) => String::from_str("Boolean"),
        TokenType::Null => String::from_str("Null"),
        TokenType::Eof => String::from_str("Eof"),
    }
}

// ----------------------------------------------------------------------------
// The grammar, as mathematics: a deterministic recursive-descent parse over
// the character sequence with one lexeme of lookahead. Every exec routine
// of the parser is proved equal to one of these.
// ----------------------------------------------------------------------------

/// The continuation cursor: parsing continues at `j` when the step before
/// moved the cursor forward, which every successful step does.
pub open spec fn adv(i: nat, j: nat) -> nat {
    if j > i {
        j
    } else {
        (i + 1) as nat
    }
}

/// One value: an object, array, string, number, boolean or null, chosen by
/// one lexeme of lookahead. Returns the value and the cursor after it.
pub open spec fn spec_parse_value(s: Seq<char>, i: nat) -> Result<(SpecValue, nat), SpecError>
    decreases rem(s, i), 0nat,
{
    if i >= s.len() {
        Err(SpecError::UnexpectedToken {
            expected: "JSON value"@,
            found: "Eof"@,
            position: skip_ws(s, i),
        })
    } else {
        match spec_next_token(s, i) {
            Err(e) => Err(e),
            Ok(st) => match st.tok {
                SpecTok::LBrace => spec_parse_object(s, adv(i, st.end)),
                SpecTok::LBracket => spec_parse_array(s, adv(i, st.end)),
                SpecTok::Str(t) => Ok((SpecValue::String(t), st.end)),
                SpecTok::Num(t) => Ok((SpecValue::Number(t), st.end)),
                SpecTok::Bool(b) => Ok((SpecValue::Boolean(b), st.end)),
                SpecTok::Null => Ok((SpecValue::Null, st.end)),
                _ => Err(SpecError::UnexpectedToken {
                    expected: "JSON value"@,
                    found: tok_desc(st.tok),
                    position: st.at,
                }),
            },
        }
    }
}

/// An object body: the opening brace has been consumed at a position before
/// `i`. An immediate closing brace makes the empty object; anything else is
/// a member list.
pub open spec fn spec_parse_object(s: Seq<char>, i: nat) -> Result<(SpecValue, nat), SpecError>
    decreases rem(s, i), 2nat,
{
    match spec_next_token(s, i) {
        Err(e) => Err(e),
        Ok(st) => if st.tok == SpecTok::RBrace {
            Ok((SpecValue::Object(Seq::empty()), st.end))
        } else {
            spec_parse_members(s, i, Seq::empty())
        },
    }
}

/// A member list: a string key, a colon, a value, then either a closing
/// brace, or a comma and—unless the next lexeme is the closing brace, which
/// is the trailing-comma error—further members.
pub open spec fn spec_parse_members(
    s: Seq<char>,
    i: nat,
    acc: Seq<(Seq<char>, SpecValue)>,
) -> Result<(SpecValue, nat), SpecError>
    decreases rem(s, i), 1nat,
{
    if i >= s.len() {
        Err(SpecError::UnexpectedToken {
            expected: "String"@,
            found: "Eof"@,
            position: skip_ws(s, i),
        })
    } else {
        match spec_next_token(s, i) {
            Err(e) => Err(e),
            Ok(kst) => match kst.tok {
                SpecTok::Str(k) => {
                    let ik = adv(i, kst.end);
                    match spec_next_token(s, ik) {
                        Err(e) => Err(e),
                        Ok(cst) => if cst.tok == SpecTok::Colon {
                            let iv = adv(ik, cst.end);
                            match spec_parse_value(s, iv) {
                                Err(e) => Err(e),
                                Ok(vj) => {
                                    let acc2 = obj_put(acc, k, vj.0);
                                    let is = adv(iv, vj.1);
                                    match spec_next_token(s, is) {
                                        Err(e) => Err(e),
                                        Ok(sst) => if sst.tok == SpecTok::RBrace {
                                            Ok((SpecValue::Object(acc2), sst.end))
                                        } else if sst.tok == SpecTok::Comma {
                                            let ic = adv(is, sst.end);
                                            match spec_next_token(s, ic) {
                                                Err(e) => Err(e),
                                                Ok(nst) => if nst.tok == SpecTok::RBrace {
                                                    Err(SpecError::TrailingComma(nst.at))
                                                } else {
                                                    spec_parse_members(s, ic, acc2)
                                                },
                                            }
                                        } else {
                                            Err(SpecError::UnexpectedToken {
                                                expected: "',' or '}'"@,
                                                found: tok_desc(sst.tok),
                                                position: sst.at,
                                            })
                                        },
                                    }
                                },
                            }
                        } else {
                            Err(SpecError::UnexpectedToken {
                                expected: "Colon"@,
                                found: tok_desc(cst.tok),
                                position: cst.at,
                            })
                        },
                    }
                },
                _ => Err(SpecError::UnexpectedToken {
                    expected: "String"@,
                    found: tok_desc(kst.tok),
                    position: kst.at,
                }),
            },
        }
    }
}

/// An array body: the opening bracket has been consumed at a position
/// before `i`. An immediate closing bracket makes the empty array; anything
/// else is an element list.
pub open spec fn spec_parse_array(s: Seq<char>, i: nat) -> Result<(SpecValue, nat), SpecError>
    decreases rem(s, i), 3nat,
{
    match spec_next_token(s, i) {
        Err(e) => Err(e),
        Ok(st) => if st.tok == SpecTok::RBracket {
            Ok((SpecValue::Array(Seq::empty()), st.end))
        } else {
            spec_parse_elems(s, i, Seq::empty())
        },
    }
}

/// An element list: a value, then either a closing bracket, or a comma
/// and—unless the next lexeme is the closing bracket, which is the
/// trailing-comma error—further elements.
pub open spec fn spec_parse_elems(s: Seq<char>, i: nat, acc: Seq<SpecValue>) -> Result<
    (SpecValue, nat),
    SpecError,
>
    decreases rem(s, i), 1nat,
{
    if i >= s.len() {
        Err(SpecError::UnexpectedToken {
            expected: "JSON value"@,
            found: "Eof"@,
            position: skip_ws(s, i),
        })
    } else {
        match spec_parse_value(s, i) {
            Err(e) => Err(e),
            Ok(vj) => {
                let acc2 = acc.push(vj.0);
                let is = adv(i, vj.1);
                match spec_next_token(s, is) {
                    Err(e) => Err(e),
                    Ok(sst) => if sst.tok == SpecTok::RBracket {
                        Ok((SpecValue::Array(acc2), sst.end))
                    } else if sst.tok == SpecTok::Comma {
                        let ic = adv(is, sst.end);
                        match spec_next_token(s, ic) {
                            Err(e) => Err(e),
                            Ok(nst) => if nst.tok == SpecTok::RBracket {
                                Err(SpecError::TrailingComma(nst.at))
                            } else {
                                spec_parse_elems(s, ic, acc2)
                            },
                        }
                    } else {
                        Err(SpecError::UnexpectedToken {
                            expected: "',' or ']'"@,
                            found: tok_desc(sst.tok),
                            position: sst.at,
                        })
                    },
                }
            },
        }
    }
}

/// One value beginning at `i`, with nothing but whitespace allowed to
/// follow it: the lexeme after the value must be `Eof`.
pub open spec fn spec_parse_single_at(s: Seq<char>, i: nat) -> Result<(SpecValue, nat), SpecError> {
    match spec_parse_value(s, i) {
        Err(e) => Err(e),
        Ok(vj) => match spec_next_token(s, vj.1) {
            Err(e) => Err(e),
            Ok(st) => if st.tok == SpecTok::Eof {
                Ok(vj)
            } else {
                Err(SpecError::UnexpectedToken {
                    expected: "end of input"@,
                    found: tok_desc(st.tok),
                    position: st.at,
                })
            },
        },
    }
}

/// A whole input holding exactly one value.
pub open spec fn spec_parse_document(s: Seq<char>) -> Result<SpecValue, SpecError> {
    match spec_parse_single_at(s, 0) {
        Ok(vj) => Ok(vj.0),
        Err(e) => Err(e),
    }
}

/// One step of the document stream at cursor `i`: nothing when the next
/// lexeme is `Eof`, otherwise one parsed value or the error that stops the
/// stream.
pub open spec fn spec_next_document(s: Seq<char>, i: nat) -> Option<
    Result<(SpecValue, nat), SpecError>,
> {
    match spec_next_token(s, i) {
        Err(e) => Some(Err(e)),
        Ok(st) => if st.tok == SpecTok::Eof {
            None
        } else {
            Some(spec_parse_value(s, i))
        },
    }
}


// ----------------------------------------------------------------------------
// The executable parser
// ----------------------------------------------------------------------------

/// The parser: one lexeme of lookahead over the lexer, and a latch that
/// remembers a failed stream. In stream mode the sequence stops at the
/// first error: the error is yielded once and every later call yields
/// nothing.
pub struct StreamingJsonParser {
    lexer: Lexer,
    failed: bool,
}

impl StreamingJsonParser {
    /// The whole input, as a character sequence.
    pub closed spec fn src(&self) -> Seq<char> {
        self.lexer.src()
    }

    /// The cursor: how many characters have been consumed.
    pub closed spec fn at(&self) -> nat {
        self.lexer.at()
    }

    pub closed spec fn wf(&self) -> bool {
        self.lexer.wf()
    }

    /// Whether the stream has stopped on an error.
    pub closed spec fn done(&self) -> bool {
        self.failed
    }

    pub fn new(input: &str) -> (p: StreamingJsonParser)
        ensures
            p.src() == input@,
            p.at() == 0,
            p.wf(),
            !p.done(),
    {
        StreamingJsonParser { lexer: Lexer::new(input), failed: false }
    }

    /// Consumes the next lexeme, which must be a string: the key of an
    /// object member.
    fn expect_key(&mut self) -> (r: ParseResult<String>)
        requires
            old(self).wf(),
        ensures
            final(self).src() == old(self).src(),
            final(self).wf(),
            final(self).done() == old(self).done(),
            ({
                match spec_next_token(old(self).src(), old(self).at()) {
                    Err(e) => r matches Err(x) && x@ == e,
                    Ok(st) => match st.tok {
                        SpecTok::Str(k) => r matches Ok(x) && x@ == k && final(self).at()
                            == st.end,
                        _ => r matches Err(x) && x@ == (SpecError::UnexpectedToken {
                            expected: "String"@,
                            found: tok_desc(st.tok),
                            position: st.at,
                        }),
                    },
                }
            }),
    {
        let t = match self.lexer.next_token() {
            Ok(t) => t,
            Err(e) => {
                return Err(e);
            },
        };
        match t.token_type {
            TokenType::String(k) => Ok(k),
            other => Err(
                ParseError::UnexpectedToken {
                    expected: String::from_str("String"),
                    found: tok_desc_string(&other),
                    position: t.position,
                },
            ),
        }
    }

    /// Consumes the next lexeme, which must be the colon between an object
    /// member's key and value.
    fn expect_colon(&mut self) -> (r: ParseResult<()>)
        requires
            old(self).wf(),
        ensures
            final(self).src() == old(self).src(),
            final(self).wf(),
            final(self).done() == old(self).done(),
            ({
                match spec_next_token(old(self).src(), old(self).at()) {
                    Err(e) => r matches Err(x) && x@ == e,
                    Ok(st) => if st.tok == SpecTok::Colon {
                        r is Ok && final(self).at() == st.end
                    } else {
                        r matches Err(x) && x@ == (SpecError::UnexpectedToken {
                            expected: "Colon"@,
                            found: tok_desc(st.tok),
                            position: st.at,
                        })
                    },
                }
            }),
    {
        let t = match self.lexer.next_token() {
            Ok(t) => t,
            Err(e) => {
                return Err(e);
            },
        };
        match t.token_type {
            TokenType::Colon => Ok(()),
            other => Err(
                ParseError::UnexpectedToken {
                    expected: String::from_str("Colon"),
                    found: tok_desc_string(&other),
                    position: t.position,
                },
            ),
        }
    }

    /// One value, chosen by one lexeme of lookahead.
    fn parse_value(&mut self) -> (r: ParseResult<JsonValue>)
        requires
            old(self).wf(),
        ensures
            final(self).src() == old(self).src(),
            final(self).wf(),
            final(self).done() == old(self).done(),
            ({
                match spec_parse_value(old(self).src(), old(self).at()) {
                    Ok(vj) => r matches Ok(v) && v@ == vj.0 && final(self).at() == vj.1 && old(
                        self,
                    ).at() < vj.1,
                    Err(e) => r matches Err(x) && x@ == e,
                }
            }),
        decreases rem(self.src(), self.at()), 1nat,
    {
        let ghost s = self.src();
        let ghost i0 = self.at();
        proof {
            lemma_next_token_bounds(s, i0);
        }
        let t = match self.lexer.peek_token() {
            Ok(t) => t,
            Err(e) => {
                return Err(e);
            },
        };
        match t.token_type {
            TokenType::LeftBrace => self.parse_object(),
            TokenType::LeftBracket => self.parse_array(),
            TokenType::String(sv) => {
                let _ = self.lexer.next_token();
                Ok(JsonValue::String(sv))
            },
            TokenType::Number(nv) => {
                let _ = self.lexer.next_token();
                Ok(JsonValue::Number(nv))
            },
            TokenType::Boolean(b) => {
                let _ = self.lexer.next_token();
                Ok(JsonValue::Boolean(b))
            },
            TokenType::Null => {
                let _ = self.lexer.next_token();
                Ok(JsonValue::Null)
            },
            other => Err(
                ParseError::UnexpectedToken {
                    expected: String::from_str("JSON value"),
                    found: tok_desc_string(&other),
                    position: t.position,
                },
            ),
        }
    }

    /// An object: the opening brace, then members up to the closing brace.
    fn parse_object(&mut self) -> (r: ParseResult<JsonValue>)
        requires
            old(self).wf(),
        ensures
            final(self).src() == old(self).src(),
            final(self).wf(),
            final(self).done() == old(self).done(),
            ({
                let s = old(self).src();
                let i = old(self).at();
                match spec_next_token(s, i) {
                    Err(e) => r matches Err(x) && x@ == e,
                    Ok(st) => if st.tok == SpecTok::LBrace {
                        match spec_parse_object(s, st.end) {
                            Ok(vj) => r matches Ok(v) && v@ == vj.0 && final(self).at() == vj.1
                                && i < vj.1,
                            Err(e) => r matches Err(x) && x@ == e,
                        }
                    } else {
                        r matches Err(x) && x@ == (SpecError::UnexpectedToken {
                            expected: "LeftBrace"@,
                            found: tok_desc(st.tok),
                            position: st.at,
                        })
                    },
                }
            }),
        decreases rem(self.src(), self.at()), 0nat,
    {
        let ghost s = self.src();
        let ghost i0 = self.at();
        proof {
            lemma_next_token_bounds(s, i0);
        }
        let t = match self.lexer.next_token() {
            Ok(t) => t,
            Err(e) => {
                return Err(e);
            },
        };
        if !matches!(t.token_type, TokenType::LeftBrace) {
            return Err(
                ParseError::UnexpectedToken {
                    expected: String::from_str("LeftBrace"),
                    found: tok_desc_string(&t.token_type),
                    position: t.position,
                },
            );
        }
        let ghost i1 = self.at();
        proof {
            lemma_next_token_bounds(s, i1);
        }
        let nt = match self.lexer.peek_token() {
            Ok(t) => t,
            Err(e) => {
                return Err(e);
            },
        };
        if matches!(nt.token_type, TokenType::RightBrace) {
            let _ = self.lexer.next_token();
            return Ok(JsonValue::Object(Vec::new()));
        }
        self.parse_members(Vec::new())
    }

    /// An object's member list, continued from the members gathered so far.
    fn parse_members(&mut self, acc: Vec<(String, JsonValue)>) -> (r: ParseResult<JsonValue>)
        requires
            old(self).wf(),
        ensures
            final(self).src() == old(self).src(),
            final(self).wf(),
            final(self).done() == old(self).done(),
            ({
                match spec_parse_members(old(self).src(), old(self).at(), pairs_view(acc@)) {
                    Ok(vj) => r matches Ok(v) && v@ == vj.0 && final(self).at() == vj.1 && old(
                        self,
                    ).at() < vj.1,
                    Err(e) => r matches Err(x) && x@ == e,
                }
            }),
        decreases rem(self.src(), self.at()), 2nat,
    {
        let ghost s = self.src();
        let ghost i0 = self.at();
        proof {
            lemma_next_token_bounds(s, i0);
        }
        let key = match self.expect_key() {
            Ok(k) => k,
            Err(e) => {
                return Err(e);
            },
        };
        let ghost ik = self.at();
        proof {
            lemma_next_token_bounds(s, ik);
        }
        match self.expect_colon() {
            Ok(u) => u,
            Err(e) => {
                return Err(e);
            },
        };
        let ghost iv = self.at();
        let value = match self.parse_value() {
            Ok(v) => v,
            Err(e) => {
                return Err(e);
            },
        };
        let mut acc2 = acc;
        obj_insert(&mut acc2, key, value);
        let ghost is = self.at();
        proof {
            lemma_next_token_bounds(s, is);
        }
        let sep = match self.lexer.next_token() {
            Ok(t) => t,
            Err(e) => {
                return Err(e);
            },
        };
        match sep.token_type {
            TokenType::RightBrace => Ok(JsonValue::Object(acc2)),
            TokenType::Comma => {
                let ghost ic = self.at();
                proof {
                    lemma_next_token_bounds(s, ic);
                }
                let nt = match self.lexer.peek_token() {
                    Ok(t) => t,
                    Err(e) => {
                        return Err(e);
                    },
                };
                if matches!(nt.token_type, TokenType::RightBrace) {
                    return Err(ParseError::TrailingComma(nt.position));
                }
                self.parse_members(acc2)
            },
            other => Err(
                ParseError::UnexpectedToken {
                    expected: String::from_str("',' or '}'"),
                    found: tok_desc_string(&other),
                    position: sep.position,
                },
            ),
        }
    }

    /// An array: the opening bracket, then elements up to the closing
    /// bracket.
    fn parse_array(&mut self) -> (r: ParseResult<JsonValue>)
        requires
            old(self).wf(),
        ensures
            final(self).src() == old(self).src(),
            final(self).wf(),
            final(self).done() == old(self).done(),
            ({
                let s = old(self).src();
                let i = old(self).at();
                match spec_next_token(s, i) {
                    Err(e) => r matches Err(x) && x@ == e,
                    Ok(st) => if st.tok == SpecTok::LBracket {
                        match spec_parse_array(s, st.end) {
                            Ok(vj) => r matches Ok(v) && v@ == vj.0 && final(self).at() == vj.1
                                && i < vj.1,
                            Err(e) => r matches Err(x) && x@ == e,
                        }
                    } else {
                        r matches Err(x) && x@ == (SpecError::UnexpectedToken {
                            expected: "LeftBracket"@,
                            found: tok_desc(st.tok),
                            position: st.at,
                        })
                    },
                }
            }),
        decreases rem(self.src(), self.at()), 0nat,
    {
        let ghost s = self.src();
        let ghost i0 = self.at();
        proof {
            lemma_next_token_bounds(s, i0);
        }
        let t = match self.lexer.next_token() {
            Ok(t) => t,
            Err(e) => {
                return Err(e);
            },
        };
        if !matches!(t.token_type, TokenType::LeftBracket) {
            return Err(
                ParseError::UnexpectedToken {
                    expected: String::from_str("LeftBracket"),
                    found: tok_desc_string(&t.token_type),
                    position: t.position,
                },
            );
        }
        let ghost i1 = self.at();
        proof {
            lemma_next_token_bounds(s, i1);
        }
        let nt = match self.lexer.peek_token() {
            Ok(t) => t,
            Err(e) => {
                return Err(e);
            },
        };
        if matches!(nt.token_type, TokenType::RightBracket) {
            let _ = self.lexer.next_token();
            return Ok(JsonValue::Array(Vec::new()));
        }
        self.parse_elems(Vec::new())
    }

    /// An array's element list, continued from the elements gathered so
    /// far.
    fn parse_elems(&mut self, acc: Vec<JsonValue>) -> (r: ParseResult<JsonValue>)
        requires
            old(self).wf(),
        ensures
            final(self).src() == old(self).src(),
            final(self).wf(),
            final(self).done() == old(self).done(),
            ({
                match spec_parse_elems(old(self).src(), old(self).at(), crate::types::elems_view(acc@)) {
                    Ok(vj) => r matches Ok(v) && v@ == vj.0 && final(self).at() == vj.1 && old(
                        self,
                    ).at() < vj.1,
                    Err(e) => r matches Err(x) && x@ == e,
                }
            }),
        decreases rem(self.src(), self.at()), 3nat,
    {
        let ghost s = self.src();
        let ghost i0 = self.at();
        let value = match self.parse_value() {
            Ok(v) => v,
            Err(e) => {
                return Err(e);
            },
        };
        let mut acc2 = acc;
        acc2.push(value);
        proof {
            crate::types::lemma_elems_view_push(acc@, value);
        }
        let ghost is = self.at();
        proof {
            lemma_next_token_bounds(s, is);
        }
        let sep = match self.lexer.next_token() {
            Ok(t) => t,
            Err(e) => {
                return Err(e);
            },
        };
        match sep.token_type {
            TokenType::RightBracket => Ok(JsonValue::Array(acc2)),
            TokenType::Comma => {
                let ghost ic = self.at();
                proof {
                    lemma_next_token_bounds(s, ic);
                }
                let nt = match self.lexer.peek_token() {
                    Ok(t) => t,
                    Err(e) => {
                        return Err(e);
                    },
                };
                if matches!(nt.token_type, TokenType::RightBracket) {
                    return Err(ParseError::TrailingComma(nt.position));
                }
                self.parse_elems(acc2)
            },
            other => Err(
                ParseError::UnexpectedToken {
                    expected: String::from_str("',' or ']'"),
                    found: tok_desc_string(&other),
                    position: sep.position,
                },
            ),
        }
    }

    /// One value, with nothing but whitespace allowed to follow it on the
    /// input.
    pub fn parse_single(&mut self) -> (r: ParseResult<JsonValue>)
        requires
            old(self).wf(),
        ensures
            final(self).src() == old(self).src(),
            final(self).wf(),
            final(self).done() == old(self).done(),
            ({
                match spec_parse_single_at(old(self).src(), old(self).at()) {
                    Ok(vj) => r matches Ok(v) && v@ == vj.0 && final(self).at() == vj.1,
                    Err(e) => r matches Err(x) && x@ == e,
                }
            }),
    {
        let value = match self.parse_value() {
            Ok(v) => v,
            Err(e) => {
                return Err(e);
            },
        };
        let nt = match self.lexer.peek_token() {
            Ok(t) => t,
            Err(e) => {
                return Err(e);
            },
        };
        if matches!(nt.token_type, TokenType::Eof) {
            Ok(value)
        } else {
            Err(
                ParseError::UnexpectedToken {
                    expected: String::from_str("end of input"),
                    found: tok_desc_string(&nt.token_type),
                    position: nt.position,
                },
            )
        }
    }

    /// One step of the document stream: nothing at the end of input, else
    /// one parsed value or the error that stops the stream. After an error
    /// the stream yields nothing forever.
    pub fn next(&mut self) -> (r: Option<ParseResult<JsonValue>>)
        requires
            old(self).wf(),
        ensures
            final(self).src() == old(self).src(),
            final(self).wf(),
            old(self).done() ==> r is None && final(self).done(),
            !old(self).done() ==> match spec_next_document(old(self).src(), old(self).at()) {
                None => r is None && final(self).at() == old(self).at() && !final(self).done(),
                Some(Ok(vj)) => r matches Some(Ok(v)) && v@ == vj.0 && final(self).at() == vj.1
                    && !final(self).done(),
                Some(Err(e)) => r matches Some(Err(x)) && x@ == e && final(self).done(),
            },
    {
        if self.failed {
            return None;
        }
        let t = match self.lexer.peek_token() {
            Ok(t) => t,
            Err(e) => {
                self.failed = true;
                return Some(Err(e));
            },
        };
        if matches!(t.token_type, TokenType::Eof) {
            return None;
        }
        match self.parse_value() {
            Ok(v) => Some(Ok(v)),
            Err(e) => {
                self.failed = true;
                Some(Err(e))
            },
        }
    }
}

/// Parses a whole string holding exactly one value.
pub fn parse_json_string(input: &str) -> (r: ParseResult<JsonValue>)
    ensures
        ({
            match spec_parse_document(input@) {
                Ok(v) => r matches Ok(x) && x@ == v,
                Err(e) => r matches Err(x) && x@ == e,
            }
        }),
{
    let mut parser = StreamingJsonParser::new(input);
    parser.parse_single()
}

/// A parser over the text of a stream of whitespace-separated documents;
/// each call of `next` yields one document's outcome.
pub fn parse_json_stream(input: &str) -> (p: StreamingJsonParser)
    ensures
        p.src() == input@,
        p.at() == 0,
        p.wf(),
        !p.done(),
{
    StreamingJsonParser::new(input)
}


// ----------------------------------------------------------------------------
// Well-formed values: what the parser produces, and what rendering takes
// back to the same value
// ----------------------------------------------------------------------------

/// A numeral exactly as the tokenizer validates it: scanning it consumes
/// the whole text and returns it.
pub open spec fn is_numeral(t: Seq<char>) -> bool {
    scan_number(t, 0) == Ok::<(Seq<char>, nat), SpecError>((t, t.len() as nat))
}

/// No two members share a key.
pub open spec fn keys_unique(m: Seq<(Seq<char>, SpecValue)>) -> bool {
    forall|j1: int, j2: int|
        #![trigger m[j1], m[j2]]
        0 <= j1 < j2 < m.len() ==> m[j1].0 != m[j2].0
}

/// A well-formed value: every numeral satisfies the numeral grammar and
/// every object's keys are unique.
pub open spec fn value_wf(v: SpecValue) -> bool
    decreases v, 1nat,
{
    match v {
        SpecValue::Number(t) => is_numeral(t),
        SpecValue::Object(m) => keys_unique(m) && pairs_wf(m),
        SpecValue::Array(a) => elems_wf(a),
        _ => true,
    }
}

pub open spec fn pairs_wf(m: Seq<(Seq<char>, SpecValue)>) -> bool
    decreases m, 0nat,
{
    m.len() == 0 || (value_wf(m[0].1) && pairs_wf(m.drop_first()))
}

pub open spec fn elems_wf(a: Seq<SpecValue>) -> bool
    decreases a, 0nat,
{
    a.len() == 0 || (value_wf(a[0]) && elems_wf(a.drop_first()))
}

} // verus!
