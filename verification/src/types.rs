use vstd::prelude::*;

verus! {

// ----------------------------------------------------------------------------
// Lexemes
// ----------------------------------------------------------------------------

/// A classified lexeme: punctuation, a decoded string, the text of a number,
/// a boolean or null literal, or the end-of-input sentinel.
///
/// A number lexeme carries the validated numeral text rather than a decoded
/// machine float; the text satisfies the numeral grammar, and callers that
/// want a float decode it themselves.
#[derive(Debug, Clone, PartialEq)]
pub enum TokenType {
    LeftBrace,
    RightBrace,
    LeftBracket,
    RightBracket,
    Comma,
    Colon,
    String(String),
    Number(String),
    Boolean(bool),
    Null,
    Eof,
}

/// A lexeme together with the absolute character position of its first
/// character (after any skipped whitespace).
#[derive(Debug, Clone, PartialEq)]
pub struct Token {
    pub token_type: TokenType,
    pub position: usize,
}

impl Token {
    pub fn new(token_type: TokenType, position: usize) -> (t: Token)
        ensures
            t.token_type == token_type,
            t.position == position,
    {
        Token { token_type, position }
    }
}

/// Mathematical mirror of `TokenType`: string-like payloads as `Seq<char>`.
#[verifier::ext_equal]
pub ghost enum SpecTok {
    LBrace,
    RBrace,
    LBracket,
    RBracket,
    Comma,
    Colon,
    Str(Seq<char>),
    Num(Seq<char>),
    Bool(bool),
    Null,
    Eof,
}

pub open spec fn token_type_view(t: TokenType) -> SpecTok {
    match t {
        TokenType::LeftBrace => SpecTok::LBrace,
        TokenType::RightBrace => SpecTok::RBrace,
        TokenType::LeftBracket => SpecTok::LBracket,
        TokenType::RightBracket => SpecTok::RBracket,
        TokenType::Comma => SpecTok::Comma,
        TokenType::Colon => SpecTok::Colon,
        TokenType::String(s) => SpecTok::Str(s@),
        TokenType::Number(s) => SpecTok::Num(s@),
        TokenType::Boolean(b) => SpecTok::Bool(b),
        TokenType::Null => SpecTok::Null,
        TokenType::Eof => SpecTok::Eof,
    }
}

impl View for TokenType {
    type V = SpecTok;

    open spec fn view(&self) -> SpecTok {
        token_type_view(*self)
    }
}

// ----------------------------------------------------------------------------
// Values
// ----------------------------------------------------------------------------

/// A parsed value tree.
///
/// `Number` holds the numeral text exactly as validated by the tokenizer.
/// `Object` holds its members in first-insertion order with unique keys;
/// a later member with an equal key overwrites the earlier member's value.
#[derive(Debug, PartialEq)]
pub enum JsonValue {
    String(String),
    Number(String),
    Boolean(bool),
    Null,
    Object(Vec<(String, JsonValue)>),
    Array(Vec<JsonValue>),
}

/// Mathematical mirror of `JsonValue`.
#[verifier::ext_equal]
pub ghost enum SpecValue {
    String(Seq<char>),
    Number(Seq<char>),
    Boolean(bool),
    Null,
    Object(Seq<(Seq<char>, SpecValue)>),
    Array(Seq<SpecValue>),
}

pub open spec fn value_view(v: JsonValue) -> SpecValue
    decreases v,
{
    match v {
        JsonValue::String(s) => SpecValue::String(s@),
        JsonValue::Number(s) => SpecValue::Number(s@),
        JsonValue::Boolean(b) => SpecValue::Boolean(b),
        JsonValue::Null => SpecValue::Null,
        JsonValue::Object(m) => SpecValue::Object(pairs_view(m@)),
        JsonValue::Array(a) => SpecValue::Array(elems_view(a@)),
    }
}

pub open spec fn pairs_view(m: Seq<(String, JsonValue)>) -> Seq<(Seq<char>, SpecValue)>
    decreases m,
{
    if m.len() == 0 {
        Seq::empty()
    } else {
        seq![(m[0].0@, value_view(m[0].1))] + pairs_view(m.drop_first())
    }
}

pub open spec fn elems_view(a: Seq<JsonValue>) -> Seq<SpecValue>
    decreases a,
{
    if a.len() == 0 {
        Seq::empty()
    } else {
        seq![value_view(a[0])] + elems_view(a.drop_first())
    }
}

impl View for JsonValue {
    type V = SpecValue;

    open spec fn view(&self) -> SpecValue {
        value_view(*self)
    }
}

// ----------------------------------------------------------------------------
// Errors
// ----------------------------------------------------------------------------

/// A parse error. Every variant that can be localized carries the absolute
/// character position (counted in characters, not bytes) where the violation
/// was detected.
#[derive(Debug, Clone, PartialEq)]
pub enum ParseError {
    UnexpectedEof(usize),
    InvalidCharacter { found: char, position: usize },
    InvalidNumber(usize),
    UnterminatedString(usize),
    InvalidEscape(usize),
    UnexpectedToken { expected: String, found: String, position: usize },
    TrailingComma(usize),
    InvalidStructure(usize),
    Io(String),
}

pub type ParseResult<T> = Result<T, ParseError>;

/// Mathematical mirror of `ParseError`.
#[verifier::ext_equal]
pub ghost enum SpecError {
    UnexpectedEof(nat),
    InvalidCharacter { found: char, position: nat },
    InvalidNumber(nat),
    UnterminatedString(nat),
    InvalidEscape(nat),
    UnexpectedToken { expected: Seq<char>, found: Seq<char>, position: nat },
    TrailingComma(nat),
    InvalidStructure(nat),
    Io(Seq<char>),
}

pub open spec fn error_view(e: ParseError) -> SpecError {
    match e {
        ParseError::UnexpectedEof(p) => SpecError::UnexpectedEof(p as nat),
        ParseError::InvalidCharacter { found, position } => SpecError::InvalidCharacter {
            found,
            position: position as nat,
        },
        ParseError::InvalidNumber(p) => SpecError::InvalidNumber(p as nat),
        ParseError::UnterminatedString(p) => SpecError::UnterminatedString(p as nat),
        ParseError::InvalidEscape(p) => SpecError::InvalidEscape(p as nat),
        ParseError::UnexpectedToken { expected, found, position } => SpecError::UnexpectedToken {
            expected: expected@,
            found: found@,
            position: position as nat,
        },
        ParseError::TrailingComma(p) => SpecError::TrailingComma(p as nat),
        ParseError::InvalidStructure(p) => SpecError::InvalidStructure(p as nat),
        ParseError::Io(m) => SpecError::Io(m@),
    }
}

impl View for ParseError {
    type V = SpecError;

    open spec fn view(&self) -> SpecError {
        error_view(*self)
    }
}


// ----------------------------------------------------------------------------
// Object membership: unique keys, a later member with an equal key
// overwrites the earlier member's value
// ----------------------------------------------------------------------------

/// The index of the first member with the given key, or -1.
pub open spec fn find_key(m: Seq<(Seq<char>, SpecValue)>, k: Seq<char>) -> int
    decreases m,
{
    if m.len() == 0 {
        -1
    } else if m[0].0 == k {
        0
    } else {
        let r = find_key(m.drop_first(), k);
        if r < 0 {
            -1
        } else {
            r + 1
        }
    }
}

/// Puts a member: overwrites the first member with an equal key, appends
/// otherwise.
pub open spec fn obj_put(
    m: Seq<(Seq<char>, SpecValue)>,
    k: Seq<char>,
    v: SpecValue,
) -> Seq<(Seq<char>, SpecValue)> {
    let i = find_key(m, k);
    if i < 0 {
        m.push((k, v))
    } else {
        m.update(i, (k, v))
    }
}

pub proof fn lemma_find_key(m: Seq<(Seq<char>, SpecValue)>, k: Seq<char>)
    ensures
        find_key(m, k) == -1 ==> (forall|j: int| 0 <= j < m.len() ==> (#[trigger] m[j]).0 != k),
        find_key(m, k) >= 0 ==> find_key(m, k) < m.len() && m[find_key(m, k)].0 == k && (forall|
            j: int,
        |
            0 <= j < find_key(m, k) ==> (#[trigger] m[j]).0 != k),
    decreases m,
{
    if m.len() > 0 && m[0].0 != k {
        lemma_find_key(m.drop_first(), k);
        let r = find_key(m.drop_first(), k);
        assert(forall|j: int| 1 <= j < m.len() ==> #[trigger] m[j] == m.drop_first()[j - 1]);
    }
}

pub proof fn lemma_pairs_view_props(m: Seq<(String, JsonValue)>)
    ensures
        pairs_view(m).len() == m.len(),
        forall|j: int| 0 <= j < m.len() ==> #[trigger] pairs_view(m)[j] == (
            m[j].0@,
            value_view(m[j].1),
        ),
    decreases m,
{
    if m.len() > 0 {
        lemma_pairs_view_props(m.drop_first());
        assert(forall|j: int| 1 <= j < m.len() ==> #[trigger] m[j] == m.drop_first()[j - 1]);
    }
}

pub proof fn lemma_elems_view_props(a: Seq<JsonValue>)
    ensures
        elems_view(a).len() == a.len(),
        forall|j: int| 0 <= j < a.len() ==> #[trigger] elems_view(a)[j] == value_view(a[j]),
    decreases a,
{
    if a.len() > 0 {
        lemma_elems_view_props(a.drop_first());
        assert(forall|j: int| 1 <= j < a.len() ==> #[trigger] a[j] == a.drop_first()[j - 1]);
    }
}

pub proof fn lemma_pairs_view_push(m: Seq<(String, JsonValue)>, p: (String, JsonValue))
    ensures
        pairs_view(m.push(p)) == pairs_view(m).push((p.0@, value_view(p.1))),
{
    let mp = m.push(p);
    lemma_pairs_view_props(m);
    lemma_pairs_view_props(mp);
    assert forall|j: int| 0 <= j < mp.len() implies #[trigger] pairs_view(mp)[j] == pairs_view(
        m,
    ).push((p.0@, value_view(p.1)))[j] by {
        if j < m.len() {
            assert(mp[j] == m[j]);
        } else {
            assert(mp[j] == p);
        }
    }
    assert(pairs_view(mp) =~~= pairs_view(m).push((p.0@, value_view(p.1))));
}

pub proof fn lemma_elems_view_push(a: Seq<JsonValue>, v: JsonValue)
    ensures
        elems_view(a.push(v)) == elems_view(a).push(value_view(v)),
{
    let ap = a.push(v);
    lemma_elems_view_props(a);
    lemma_elems_view_props(ap);
    assert forall|j: int| 0 <= j < ap.len() implies #[trigger] elems_view(ap)[j] == elems_view(
        a,
    ).push(value_view(v))[j] by {
        if j < a.len() {
            assert(ap[j] == a[j]);
        } else {
            assert(ap[j] == v);
        }
    }
    assert(elems_view(ap) =~~= elems_view(a).push(value_view(v)));
}

pub proof fn lemma_pairs_view_update(m: Seq<(String, JsonValue)>, i: int, p: (String, JsonValue))
    requires
        0 <= i < m.len(),
    ensures
        pairs_view(m.update(i, p)) == pairs_view(m).update(i, (p.0@, value_view(p.1))),
    decreases m,
{
    let mu = m.update(i, p);
    lemma_pairs_view_props(m);
    lemma_pairs_view_props(mu);
    assert forall|j: int| 0 <= j < m.len() implies #[trigger] pairs_view(mu)[j] == pairs_view(
        m,
    ).update(i, (p.0@, value_view(p.1)))[j] by {
        if j == i {
            assert(mu[j] == p);
        } else {
            assert(mu[j] == m[j]);
        }
    }
    assert(pairs_view(mu) =~~= pairs_view(m).update(i, (p.0@, value_view(p.1))));
}

/// Puts a member into an object's member vector: a member with an equal key
/// is overwritten in place, any other key is appended.
#[verifier::loop_isolation(false)]
pub fn obj_insert(obj: &mut Vec<(String, JsonValue)>, key: String, value: JsonValue)
    ensures
        pairs_view(final(obj)@) == obj_put(pairs_view(old(obj)@), key@, value_view(value)),
{
    let ghost m0 = pairs_view(old(obj)@);
    proof {
        lemma_pairs_view_props(old(obj)@);
        lemma_find_key(m0, key@);
    }
    let n = obj.len();
    let mut idx: usize = 0;
    while idx < n
        invariant
            idx <= n,
            n == obj.len(),
            obj == old(obj),
            m0 == pairs_view(obj@),
            forall|j: int| 0 <= j < idx ==> (#[trigger] m0[j]).0 != key@,
        decreases n - idx,
    {
        if obj[idx].0 == key {
            proof {
                assert(m0[idx as int].0 == key@);
                assert(find_key(m0, key@) == idx as int);
            }
            obj.set(idx, (key, value));
            proof {
                lemma_pairs_view_update(old(obj)@, idx as int, (key, value));
            }
            return ;
        }
        proof {
            assert(m0[idx as int].0 == obj@[idx as int].0@);
        }
        idx = idx + 1;
    }
    proof {
        assert(find_key(m0, key@) == -1) by {
            if find_key(m0, key@) >= 0 {
                assert(m0[find_key(m0, key@)].0 == key@);
            }
        }
    }
    obj.push((key, value));
    proof {
        lemma_pairs_view_push(old(obj)@, (key, value));
    }
}


/// The position an error is located at, when the variant carries one.
pub open spec fn spec_error_position(e: SpecError) -> Option<nat> {
    match e {
        SpecError::UnexpectedEof(p) => Some(p),
        SpecError::InvalidCharacter { found, position } => Some(position),
        SpecError::InvalidNumber(p) => Some(p),
        SpecError::UnterminatedString(p) => Some(p),
        SpecError::InvalidEscape(p) => Some(p),
        SpecError::UnexpectedToken { expected, found, position } => Some(position),
        SpecError::TrailingComma(p) => Some(p),
        SpecError::InvalidStructure(p) => Some(p),
        SpecError::Io(_) => None,
    }
}

impl ParseError {
    /// The absolute character position the error is located at; an
    /// input-transport failure has none.
    pub fn position(&self) -> (r: Option<usize>)
        ensures
            ({
                match spec_error_position(self@) {
                    Some(p) => r matches Some(x) && x as nat == p,
                    None => r is None,
                }
            }),
    {
        match self {
            ParseError::UnexpectedEof(p) => Some(*p),
            ParseError::InvalidCharacter { found, position } => Some(*position),
            ParseError::InvalidNumber(p) => Some(*p),
            ParseError::UnterminatedString(p) => Some(*p),
            ParseError::InvalidEscape(p) => Some(*p),
            ParseError::UnexpectedToken { expected, found, position } => Some(*position),
            ParseError::TrailingComma(p) => Some(*p),
            ParseError::InvalidStructure(p) => Some(*p),
            ParseError::Io(_) => None,
        }
    }
}

} // verus!
