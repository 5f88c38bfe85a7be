use vstd::prelude::*;

use crate::error::MapCssErrorKind;

verus! {

/// A token of the CSS syntax. A number keeps the bit pattern (`to_bits`) of
/// its single-precision value.
#[derive(Debug, PartialEq)]
pub enum Token {
    Ident(String),
    AtKeyword(String),
    Hash(String),
    IDHash(String),
    QuotedString(String),
    UnquotedUrl(String),
    Delim(char),
    /// `unit_byte` is the value scaled from the range 0..1 to 0..255, rounded
    /// and clamped, the way a colour component is read.
    Number { has_sign: bool, value_bits: u32, int_value: Option<i32>, unit_byte: u8 },
    /// `unit_value_bits` holds the value divided by 100.
    Percentage { has_sign: bool, unit_value_bits: u32, int_value: Option<i32> },
    Dimension { has_sign: bool, value_bits: u32, int_value: Option<i32>, unit: String },
    WhiteSpace(String),
    Comment(String),
    Colon,
    Semicolon,
    Comma,
    IncludeMatch,
    DashMatch,
    PrefixMatch,
    SuffixMatch,
    SubstringMatch,
    CDO,
    CDC,
    Function(String),
    ParenthesisBlock,
    SquareBracketBlock,
    CurlyBracketBlock,
    BadUrl(String),
    BadString(String),
    CloseParenthesis,
    CloseSquareBracket,
    CloseCurlyBracket,
}

impl Clone for Token {
    fn clone(&self) -> (r: Self)
        ensures
            r == *self,
    {
        match self {
            Token::Ident(s) => Token::Ident(s.clone()),
            Token::AtKeyword(s) => Token::AtKeyword(s.clone()),
            Token::Hash(s) => Token::Hash(s.clone()),
            Token::IDHash(s) => Token::IDHash(s.clone()),
            Token::QuotedString(s) => Token::QuotedString(s.clone()),
            Token::UnquotedUrl(s) => Token::UnquotedUrl(s.clone()),
            Token::Delim(c) => Token::Delim(*c),
            Token::Number { has_sign, value_bits, int_value, unit_byte } => Token::Number {
                has_sign: *has_sign,
                value_bits: *value_bits,
                int_value: *int_value,
                unit_byte: *unit_byte,
            },
            Token::Percentage { has_sign, unit_value_bits, int_value } => Token::Percentage {
                has_sign: *has_sign,
                unit_value_bits: *unit_value_bits,
                int_value: *int_value,
            },
            Token::Dimension { has_sign, value_bits, int_value, unit } => Token::Dimension {
                has_sign: *has_sign,
                value_bits: *value_bits,
                int_value: *int_value,
                unit: unit.clone(),
            },
            Token::WhiteSpace(s) => Token::WhiteSpace(s.clone()),
            Token::Comment(s) => Token::Comment(s.clone()),
            Token::Colon => Token::Colon,
            Token::Semicolon => Token::Semicolon,
            Token::Comma => Token::Comma,
            Token::IncludeMatch => Token::IncludeMatch,
            Token::DashMatch => Token::DashMatch,
            Token::PrefixMatch => Token::PrefixMatch,
            Token::SuffixMatch => Token::SuffixMatch,
            Token::SubstringMatch => Token::SubstringMatch,
            Token::CDO => Token::CDO,
            Token::CDC => Token::CDC,
            Token::Function(s) => Token::Function(s.clone()),
            Token::ParenthesisBlock => Token::ParenthesisBlock,
            Token::SquareBracketBlock => Token::SquareBracketBlock,
            Token::CurlyBracketBlock => Token::CurlyBracketBlock,
            Token::BadUrl(s) => Token::BadUrl(s.clone()),
            Token::BadString(s) => Token::BadString(s.clone()),
            Token::CloseParenthesis => Token::CloseParenthesis,
            Token::CloseSquareBracket => Token::CloseSquareBracket,
            Token::CloseCurlyBracket => Token::CloseCurlyBracket,
        }
    }
}

/// A token together with, for a block or function token, the components
/// between it and its matching closing token.
#[derive(Debug, PartialEq)]
pub struct Component {
    pub token: Token,
    pub block: Vec<Component>,
}

/// The error kinds of the CSS syntax itself.
#[derive(Debug, PartialEq)]
pub enum BasicParseErrorKind {
    UnexpectedToken(Token),
    EndOfInput,
}

/// Why a parse failed: a syntax error or one of MapCSS.
#[derive(Debug, PartialEq)]
pub enum ParseErrorKind {
    Basic(BasicParseErrorKind),
    Custom(MapCssErrorKind),
}

/// The tokens before which a delimited parser stops, at its own nesting level.
#[derive(Clone, Copy, Debug, PartialEq, Eq, Structural)]
pub struct Delimiters {
    pub comma: bool,
    pub curly_bracket_block: bool,
}

/// Whitespace and comments, which a parser passes over.
pub open spec fn is_blank(t: Token) -> bool {
    t is WhiteSpace || t is Comment
}

/// Whether a parser with delimiters `d` stops before token `t`.
pub open spec fn stops_at(t: Token, d: Delimiters) -> bool {
    (d.comma && t is Comma) || (d.curly_bracket_block && t is CurlyBracketBlock)
}

/// The first position at or after `pos` that is not blank.
pub open spec fn skip_blank(input: Seq<Component>, pos: int) -> int
    decreases input.len() - pos,
{
    if 0 <= pos < input.len() && is_blank(input[pos].token) {
        skip_blank(input, pos + 1)
    } else {
        pos
    }
}

/// Where a parser stands: its components, its position among them and its delimiters.
pub struct State {
    pub input: Seq<Component>,
    pub pos: int,
    pub stop: Delimiters,
}

impl State {
    pub open spec fn at(self, p: int) -> State {
        State { pos: p, ..self }
    }

    /// A parser at the start of `input`, with no delimiters: the parser of a
    /// whole input or of the contents of a block.
    pub open spec fn start(input: Seq<Component>) -> State {
        State { input, pos: 0, stop: Delimiters { comma: false, curly_bracket_block: false } }
    }
}

/// The position of the token that the parser reads next, if any: blanks are
/// passed over, and a delimiter counts as the end of the input.
pub open spec fn next_index(s: State) -> Option<int> {
    let p = skip_blank(s.input, s.pos);
    if 0 <= p < s.input.len() && !stops_at(s.input[p].token, s.stop) {
        Some(p)
    } else {
        None
    }
}

/// The token that the parser reads next, if any.
pub open spec fn next_token(s: State) -> Option<Token> {
    match next_index(s) {
        Some(p) => Some(s.input[p].token),
        None => None,
    }
}

/// Whether nothing but blanks is left before the end or a delimiter.
pub open spec fn exhausted(s: State) -> bool {
    next_index(s) is None
}

/// The error for a token that is not the one expected.
pub open spec fn unexpected(s: State) -> ParseErrorKind {
    match next_token(s) {
        Some(t) => ParseErrorKind::Basic(BasicParseErrorKind::UnexpectedToken(t)),
        None => ParseErrorKind::Basic(BasicParseErrorKind::EndOfInput),
    }
}

/// The ASCII lower case of a character, as a code point.
pub open spec fn ascii_lower(c: char) -> int {
    if 'A' <= c <= 'Z' {
        c as int + 32
    } else {
        c as int
    }
}

/// Whether `a` spells `lower` (lower case ASCII), ignoring ASCII case.
pub open spec fn eq_ignore_ascii_case(a: Seq<char>, lower: Seq<char>) -> bool {
    &&& a.len() == lower.len()
    &&& forall|i: int| 0 <= i < a.len() ==> ascii_lower(#[trigger] a[i]) == lower[i] as int
}

/// Compares `a` with a lower case ASCII word, ignoring ASCII case.
pub fn matches_ignore_ascii_case(a: &str, lower: &str) -> (r: bool)
    ensures
        r == eq_ignore_ascii_case(a@, lower@),
{
    let n = a.unicode_len();
    let m = lower.unicode_len();
    if n != m {
        return false;
    }
    let mut i: usize = 0;
    while i < n
        invariant
            n == a@.len(),
            m == lower@.len(),
            n == m,
            i <= n,
            forall|j: int| 0 <= j < i ==> ascii_lower(#[trigger] a@[j]) == lower@[j] as int,
        decreases n - i,
    {
        let c = a.get_char(i);
        let d = lower.get_char(i);
        let folded: u32 = if 'A' <= c && c <= 'Z' {
            (c as u32) + 32
        } else {
            c as u32
        };
        if folded != d as u32 {
            return false;
        }
        i = i + 1;
    }
    true
}

/// A parser over a sequence of components.
pub struct Parser<'a> {
    pub input: &'a [Component],
    pub position: usize,
    pub stop_before: Delimiters,
}

impl<'a> Parser<'a> {
    pub open spec fn st(&self) -> State {
        State { input: self.input@, pos: self.position as int, stop: self.stop_before }
    }

    /// Both parsers read the same components with the same delimiters.
    pub open spec fn same_input(&self, other: &Parser<'a>) -> bool {
        self.input@ == other.input@ && self.stop_before == other.stop_before
    }

    /// A parser at the start of `input`, with no delimiters.
    pub fn new(input: &'a [Component]) -> (r: Parser<'a>)
        ensures
            r.st() == State::start(input@),
    {
        Parser { input, position: 0, stop_before: Delimiters { comma: false, curly_bracket_block: false } }
    }

    /// Passes over blanks.
    pub fn skip_whitespace(&mut self)
        ensures
            final(self).same_input(old(self)),
            final(self).position == skip_blank(old(self).input@, old(self).position as int),
    {
        let ghost start = self.position as int;
        while self.position < self.input.len() && is_blank_token(&self.input[self.position].token)
            invariant
                self.input@ == old(self).input@,
                self.stop_before == old(self).stop_before,
                skip_blank(self.input@, self.position as int) == skip_blank(self.input@, start),
            decreases self.input@.len() - self.position,
        {
            self.position = self.position + 1;
        }
    }

    /// Reads the next token that is not blank, with the block that it opens.
    /// At the end of the input or before a delimiter it reads nothing.
    pub fn next(&mut self) -> (r: Result<&'a Component, ParseErrorKind>)
        ensures
            final(self).same_input(old(self)),
            match next_index(old(self).st()) {
                Some(p) => r is Ok && *r->Ok_0 == old(self).input@[p] && final(self).position == p + 1,
                None => r == Err::<&Component, ParseErrorKind>(ParseErrorKind::Basic(BasicParseErrorKind::EndOfInput))
                    && final(self).position == skip_blank(old(self).input@, old(self).position as int),
            },
    {
        self.skip_whitespace();
        let input = self.input;
        if self.position < input.len() && !stops(&input[self.position].token, self.stop_before) {
            let c = &input[self.position];
            self.position = self.position + 1;
            Ok(c)
        } else {
            Err(ParseErrorKind::Basic(BasicParseErrorKind::EndOfInput))
        }
    }

    /// Whether nothing but blanks is left; the position does not change.
    pub fn is_exhausted(&self) -> (r: bool)
        ensures
            r == exhausted(self.st()),
    {
        let mut probe = Parser { input: self.input, position: self.position, stop_before: self.stop_before };
        probe.next().is_err()
    }

    /// Fails with the next token if anything but blanks is left; the
    /// position does not change.
    pub fn expect_exhausted(&self) -> (r: Result<(), ParseErrorKind>)
        ensures
            exhausted(self.st()) ==> r is Ok,
            !exhausted(self.st()) ==> r == Err::<(), ParseErrorKind>(unexpected(self.st())),
    {
        let mut probe = Parser { input: self.input, position: self.position, stop_before: self.stop_before };
        match probe.next() {
            Ok(c) => Err(ParseErrorKind::Basic(BasicParseErrorKind::UnexpectedToken(c.token.clone()))),
            Err(_) => Ok(()),
        }
    }
}

/// Whether the token is whitespace or a comment.
pub fn is_blank_token(t: &Token) -> (r: bool)
    ensures
        r == is_blank(*t),
{
    match t {
        Token::WhiteSpace(_) | Token::Comment(_) => true,
        _ => false,
    }
}

/// Whether a parser with delimiters `d` stops before token `t`.
pub fn stops(t: &Token, d: Delimiters) -> (r: bool)
    ensures
        r == stops_at(*t, d),
{
    match t {
        Token::Comma => d.comma,
        Token::CurlyBracketBlock => d.curly_bracket_block,
        _ => false,
    }
}


proof fn lemma_skip_blank(input: Seq<Component>, pos: int)
    requires
        0 <= pos,
    ensures
        pos <= skip_blank(input, pos),
        pos <= input.len() ==> skip_blank(input, pos) <= input.len(),
    decreases input.len() - pos,
{
    if 0 <= pos < input.len() && is_blank(input[pos].token) {
        lemma_skip_blank(input, pos + 1);
    }
}

/// The token read next lies at or after the position, inside the input.
pub proof fn lemma_next_index(s: State)
    requires
        0 <= s.pos,
    ensures
        next_index(s) matches Some(p) ==> s.pos <= p < s.input.len(),
        s.pos <= s.input.len() ==> s.pos <= skip_blank(s.input, s.pos) <= s.input.len(),
{
    lemma_skip_blank(s.input, s.pos);
}

/// The result of reading the contents of a block: what was read, provided
/// that nothing but blanks is left after it.
pub open spec fn nested_entirely<V>(r: Result<(V, int), ParseErrorKind>, block: Seq<Component>) -> Result<V, ParseErrorKind> {
    match r {
        Ok((v, q)) => if exhausted(State::start(block).at(q)) {
            Ok(v)
        } else {
            Err(unexpected(State::start(block).at(q)))
        },
        Err(e) => Err(e),
    }
}

/// The parser `s` with the delimiters `comma` and `curly` added.
pub open spec fn with_stop(s: State, comma: bool, curly: bool) -> State {
    State {
        stop: Delimiters {
            comma: s.stop.comma || comma,
            curly_bracket_block: s.stop.curly_bracket_block || curly,
        },
        ..s
    }
}

/// The result of reading with the delimited parser `inner` up to a
/// delimiter: what was read, provided that nothing but blanks is left
/// before the delimiter; the outer parser then stands at the delimiter.
pub open spec fn until_before<V>(s: State, inner: State, r: Result<(V, int), ParseErrorKind>) -> Result<(V, int), ParseErrorKind> {
    match r {
        Ok((v, q)) => if exhausted(inner.at(q)) {
            Ok((v, skip_blank(s.input, q)))
        } else {
            Err(unexpected(inner.at(q)))
        },
        Err(e) => Err(e),
    }
}

/// Puts `prefix` before the items read, if reading succeeded.
pub open spec fn prepend_parsed<V>(prefix: Seq<V>, r: Result<(Seq<V>, int), ParseErrorKind>) -> Result<(Seq<V>, int), ParseErrorKind> {
    match r {
        Ok((vs, q)) => Ok((prefix + vs, q)),
        Err(e) => Err(e),
    }
}

/// Applies `f` to the value read, if reading succeeded.
pub open spec fn map_parsed<A, B>(r: Result<(A, int), ParseErrorKind>, f: spec_fn(A) -> B) -> Result<(B, int), ParseErrorKind> {
    match r {
        Ok((a, p)) => Ok((f(a), p)),
        Err(e) => Err(e),
    }
}

impl<'a> Parser<'a> {
    /// A parser at the same position that also stops before the given delimiters.
    pub fn delimited(&self, comma: bool, curly: bool) -> (r: Parser<'a>)
        ensures
            r.st() == with_stop(self.st(), comma, curly),
    {
        Parser {
            input: self.input,
            position: self.position,
            stop_before: Delimiters {
                comma: self.stop_before.comma || comma,
                curly_bracket_block: self.stop_before.curly_bracket_block || curly,
            },
        }
    }
}

/// The characters of an identifier or a quoted string that comes next.
pub open spec fn ident_or_string_at(s: State) -> Option<(Seq<char>, int)> {
    match next_index(s) {
        Some(p) => match s.input[p].token {
            Token::Ident(v) => Some((v@, p + 1)),
            Token::QuotedString(v) => Some((v@, p + 1)),
            _ => None,
        },
        None => None,
    }
}

/// The characters of an identifier that comes next.
pub open spec fn ident_at(s: State) -> Option<(Seq<char>, int)> {
    match next_index(s) {
        Some(p) => match s.input[p].token {
            Token::Ident(v) => Some((v@, p + 1)),
            _ => None,
        },
        None => None,
    }
}

/// The characters of a quoted string that comes next.
pub open spec fn quoted_string_at(s: State) -> Option<(Seq<char>, int)> {
    match next_index(s) {
        Some(p) => match s.input[p].token {
            Token::QuotedString(v) => Some((v@, p + 1)),
            _ => None,
        },
        None => None,
    }
}

/// Reads an identifier and gives its text.
pub fn parse_identifier(input: &mut Parser) -> (r: Result<String, ()>)
    ensures
        final(input).same_input(old(input)),
        match ident_at(old(input).st()) {
            Some((v, p)) => r is Ok && r->Ok_0@ == v && final(input).position == p,
            None => r is Err,
        },
{
    match input.next() {
        Ok(c) => match &c.token {
            Token::Ident(v) => Ok(v.clone()),
            _ => Err(()),
        },
        Err(_) => Err(()),
    }
}

/// Reads a quoted string and gives its text.
pub fn parse_quoted_string(input: &mut Parser) -> (r: Result<String, ()>)
    ensures
        final(input).same_input(old(input)),
        match quoted_string_at(old(input).st()) {
            Some((v, p)) => r is Ok && r->Ok_0@ == v && final(input).position == p,
            None => r is Err,
        },
{
    match input.next() {
        Ok(c) => match &c.token {
            Token::QuotedString(v) => Ok(v.clone()),
            _ => Err(()),
        },
        Err(_) => Err(()),
    }
}

/// Reads an identifier or a quoted string and gives its text.
pub fn parse_identifier_or_quoted_string(input: &mut Parser) -> (r: Result<String, ()>)
    ensures
        final(input).same_input(old(input)),
        match ident_or_string_at(old(input).st()) {
            Some((v, p)) => r is Ok && r->Ok_0@ == v && final(input).position == p,
            None => r is Err,
        },
{
    match input.next() {
        Ok(c) => match &c.token {
            Token::Ident(v) => Ok(v.clone()),
            Token::QuotedString(v) => Ok(v.clone()),
            _ => Err(()),
        },
        Err(_) => Err(()),
    }
}

} // verus!
