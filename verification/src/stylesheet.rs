use vstd::prelude::*;

use crate::css::{
    eq_ignore_ascii_case, exhausted, lemma_next_index, matches_ignore_ascii_case, nested_entirely,
    next_index, prepend_parsed, skip_blank, until_before, with_stop, ParseErrorKind, Parser, State, Token,
};
use crate::error::MapCssErrorKind;
use crate::selector::{
    custom, lemma_parsed_alternatives_bounds, parsed_alternatives,
    BasicSelectorView, SelectorAlternatives,
};

verus! {

/// The bit pattern of the opaque alpha value 1.0.
pub const OPAQUE_BITS: u32 = 0x3F80_0000;

/// The value of an ASCII hexadecimal digit.
pub open spec fn hex_digit(c: char) -> Option<int> {
    if '0' <= c <= '9' {
        Some(c as int - '0' as int)
    } else if 'a' <= c <= 'f' {
        Some(c as int - 'a' as int + 10)
    } else if 'A' <= c <= 'F' {
        Some(c as int - 'A' as int + 10)
    } else {
        None
    }
}

pub open spec fn all_hex_digits(v: Seq<char>) -> bool {
    forall|i: int| 0 <= i < v.len() ==> (#[trigger] hex_digit(v[i])) is Some
}

pub open spec fn hex_at(v: Seq<char>, i: int) -> int {
    hex_digit(v[i])->Some_0
}

/// The alpha value (as a bit pattern) that `cssparser::color::parse_hash_color`
/// gives for the hexadecimal digits of a colour with an alpha component:
/// the alpha byte divided by 255 in single precision.
pub uninterp spec fn hash_color_alpha(value: Seq<char>) -> u32;

/// The colour that a hash token's digits give: 3 or 4 digits of one hex
/// digit per component (repeated), 6 or 8 digits of two per component; the
/// fourth component, where present, is the alpha, given as `alpha`.
pub open spec fn hash_color_with_alpha(v: Seq<char>, alpha: u32) -> Option<(u8, u8, u8, u32)> {
    if !all_hex_digits(v) {
        None
    } else if v.len() == 8 {
        Some(
            (
                (hex_at(v, 0) * 16 + hex_at(v, 1)) as u8,
                (hex_at(v, 2) * 16 + hex_at(v, 3)) as u8,
                (hex_at(v, 4) * 16 + hex_at(v, 5)) as u8,
                alpha,
            ),
        )
    } else if v.len() == 6 {
        Some(
            (
                (hex_at(v, 0) * 16 + hex_at(v, 1)) as u8,
                (hex_at(v, 2) * 16 + hex_at(v, 3)) as u8,
                (hex_at(v, 4) * 16 + hex_at(v, 5)) as u8,
                OPAQUE_BITS,
            ),
        )
    } else if v.len() == 4 {
        Some(((hex_at(v, 0) * 17) as u8, (hex_at(v, 1) * 17) as u8, (hex_at(v, 2) * 17) as u8, alpha))
    } else if v.len() == 3 {
        Some(((hex_at(v, 0) * 17) as u8, (hex_at(v, 1) * 17) as u8, (hex_at(v, 2) * 17) as u8, OPAQUE_BITS))
    } else {
        None
    }
}

/// `cssparser::color::parse_hash_color` on the bytes of the value: the
/// colour for 3, 4, 6 or 8 hexadecimal digits, and nothing for any other
/// value (a non-ASCII character is no hexadecimal digit); the alpha comes
/// back as its bit pattern.
#[verifier::external_body]
fn hash_color(value: &str) -> (r: Option<(u8, u8, u8, u32)>)
    ensures
        r == hash_color_with_alpha(value@, hash_color_alpha(value@)),
{
    match cssparser::color::parse_hash_color(value.as_bytes()) {
        Ok((red, green, blue, alpha)) => Some((red, green, blue, alpha.to_bits())),
        Err(()) => None,
    }
}

/// Whether the single-precision value with these bits lies below 0 or above 1
/// (a NaN lies in neither).
pub open spec fn outside_unit_range(bits: u32) -> bool {
    let negative = bits >= 0x8000_0000;
    let magnitude = if negative {
        bits - 0x8000_0000
    } else {
        bits as int
    };
    &&& magnitude <= 0x7F80_0000
    &&& (negative && magnitude != 0) || (!negative && magnitude > 0x3F80_0000)
}

/// Read as single-precision floats, the bit patterns fall in four ranges:
/// `+0` up to `1.0` (`0..=0x3F80_0000`) and `-0` are in the unit range;
/// every other negative value down to negative infinity
/// (`0x8000_0001..=0xFF80_0000`) and every value above `1.0` up to positive
/// infinity (`0x3F80_0001..=0x7F80_0000`) lies outside it; a NaN compares
/// false with both bounds, so it is not outside.
pub proof fn lemma_outside_unit_range(bits: u32)
    ensures
        bits <= 0x3F80_0000 ==> !outside_unit_range(bits),
        bits == 0x8000_0000 ==> !outside_unit_range(bits),
        0x8000_0000 < bits <= 0xFF80_0000 ==> outside_unit_range(bits),
        0x3F80_0000 < bits <= 0x7F80_0000 ==> outside_unit_range(bits),
        (0x7F80_0000 < bits < 0x8000_0000 || 0xFF80_0000 < bits) ==> !outside_unit_range(bits),
{
}

fn is_outside_unit_range(bits: u32) -> (r: bool)
    ensures
        r == outside_unit_range(bits),
{
    let negative = bits >= 0x8000_0000;
    let magnitude = if negative {
        bits - 0x8000_0000
    } else {
        bits
    };
    magnitude <= 0x7F80_0000 && ((negative && magnitude != 0) || (!negative && magnitude > 0x3F80_0000))
}

/// The value of a property.
#[derive(Clone, Debug, PartialEq)]
pub enum PropertyValue {
    String(String),
    Integer(i32),
    /// The bit pattern of the value.
    Float(u32),
    /// The bit pattern of the fraction (12% is 0.12).
    Percentage(u32),
    /// Red, green, blue and the bit pattern of the alpha value.
    Color(u8, u8, u8, u32),
    Url(String),
    IntegerList(Vec<i32>),
}

/// What a property value stands for.
pub enum PropertyValueView {
    String(Seq<char>),
    Integer(i32),
    Float(u32),
    Percentage(u32),
    Color(u8, u8, u8, u32),
    Url(Seq<char>),
    IntegerList(Seq<i32>),
}

impl View for PropertyValue {
    type V = PropertyValueView;

    open spec fn view(&self) -> PropertyValueView {
        match self {
            PropertyValue::String(s) => PropertyValueView::String(s@),
            PropertyValue::Integer(i) => PropertyValueView::Integer(*i),
            PropertyValue::Float(f) => PropertyValueView::Float(*f),
            PropertyValue::Percentage(f) => PropertyValueView::Percentage(*f),
            PropertyValue::Color(r, g, b, a) => PropertyValueView::Color(*r, *g, *b, *a),
            PropertyValue::Url(s) => PropertyValueView::Url(s@),
            PropertyValue::IntegerList(l) => PropertyValueView::IntegerList(l@),
        }
    }
}

/// A property and its value.
#[derive(Clone, Debug, PartialEq)]
pub struct Declaration {
    pub property_name: String,
    pub property_value: PropertyValue,
}

pub struct DeclarationView {
    pub property_name: Seq<char>,
    pub property_value: PropertyValueView,
}

impl View for Declaration {
    type V = DeclarationView;

    open spec fn view(&self) -> DeclarationView {
        DeclarationView { property_name: self.property_name@, property_value: self.property_value@ }
    }
}

/// What the declarations stand for, in order.
pub open spec fn declarations_view(d: Seq<Declaration>) -> Seq<DeclarationView> {
    d.map_values(|x: Declaration| x@)
}

/// A selector and the declarations that apply to the objects it picks.
#[derive(Clone, Debug, PartialEq)]
pub struct Rule {
    pub selector: SelectorAlternatives,
    pub declarations: Vec<Declaration>,
}

pub struct RuleView {
    pub selector: Seq<Seq<BasicSelectorView>>,
    pub declarations: Seq<DeclarationView>,
}

impl View for Rule {
    type V = RuleView;

    open spec fn view(&self) -> RuleView {
        RuleView { selector: self.selector@, declarations: declarations_view(self.declarations@) }
    }
}

/// What the rules stand for, in order.
pub open spec fn rules_view(r: Seq<Rule>) -> Seq<RuleView> {
    r.map_values(|x: Rule| x@)
}

/// A MapCSS style sheet: its rules, in order.
#[derive(Clone, Debug, PartialEq)]
pub struct Stylesheet {
    pub rules: Vec<Rule>,
}

impl View for Stylesheet {
    type V = Seq<RuleView>;

    open spec fn view(&self) -> Seq<RuleView> {
        rules_view(self.rules@)
    }
}

/// The value of an integer that comes next.
pub open spec fn integer_at(s: State) -> Option<(i32, int)> {
    match next_index(s) {
        Some(p) => match s.input[p].token {
            Token::Number { int_value, .. } => match int_value {
                Some(i) => Some((i, p + 1)),
                None => None,
            },
            _ => None,
        },
        None => None,
    }
}

/// The position after a comma that comes next.
pub open spec fn comma_at(s: State) -> Option<int> {
    match next_index(s) {
        Some(p) => if s.input[p].token is Comma {
            Some(p + 1)
        } else {
            None
        },
        None => None,
    }
}

/// A colour component: a number from 0 to 1, as a byte.
pub open spec fn parsed_color_unit_float(s: State) -> Result<(u8, int), ParseErrorKind> {
    match next_index(s) {
        Some(p) => match s.input[p].token {
            Token::Number { value_bits, unit_byte, .. } => if outside_unit_range(value_bits) {
                Err(custom(MapCssErrorKind::ColorUnitFloatOutOfRange))
            } else {
                Ok((unit_byte, p + 1))
            },
            _ => Err(custom(MapCssErrorKind::ColorUnitFloatExpected)),
        },
        None => Err(custom(MapCssErrorKind::ColorUnitFloatExpected)),
    }
}

/// An alpha value: a number from 0 to 1.
pub open spec fn parsed_alpha(s: State) -> Result<(u32, int), ParseErrorKind> {
    match next_index(s) {
        Some(p) => match s.input[p].token {
            Token::Number { value_bits, .. } => if outside_unit_range(value_bits) {
                Err(custom(MapCssErrorKind::ColorAlphaUnitFloatOutOfRange))
            } else {
                Ok((value_bits, p + 1))
            },
            _ => Err(custom(MapCssErrorKind::ColorAlphaUnitFloatExpected)),
        },
        None => Err(custom(MapCssErrorKind::ColorAlphaUnitFloatExpected)),
    }
}

pub open spec fn parsed_comma(s: State) -> Result<int, ParseErrorKind> {
    match comma_at(s) {
        Some(p) => Ok(p),
        None => Err(custom(MapCssErrorKind::CommaExpected)),
    }
}

/// Three colour components separated by commas.
pub open spec fn parsed_rgb_function_content(s: State) -> Result<((u8, u8, u8), int), ParseErrorKind> {
    match parsed_color_unit_float(s) {
        Ok((r, p1)) => match parsed_comma(s.at(p1)) {
            Ok(c1) => match parsed_color_unit_float(s.at(c1)) {
                Ok((g, p2)) => match parsed_comma(s.at(p2)) {
                    Ok(c2) => match parsed_color_unit_float(s.at(c2)) {
                        Ok((b, p3)) => Ok(((r, g, b), p3)),
                        Err(e) => Err(e),
                    },
                    Err(e) => Err(e),
                },
                Err(e) => Err(e),
            },
            Err(e) => Err(e),
        },
        Err(e) => Err(e),
    }
}

/// Three colour components and an alpha value, separated by commas.
pub open spec fn parsed_rgba_function_content(s: State) -> Result<((u8, u8, u8, u32), int), ParseErrorKind> {
    match parsed_rgb_function_content(s) {
        Ok(((r, g, b), p)) => match parsed_comma(s.at(p)) {
            Ok(c) => match parsed_alpha(s.at(c)) {
                Ok((a, q)) => Ok(((r, g, b, a), q)),
                Err(e) => Err(e),
            },
            Err(e) => Err(e),
        },
        Err(e) => Err(e),
    }
}

pub open spec fn rgb_name() -> Seq<char> {
    seq!['r', 'g', 'b']
}

pub open spec fn rgba_name() -> Seq<char> {
    seq!['r', 'g', 'b', 'a']
}

pub open spec fn url_name() -> Seq<char> {
    seq!['u', 'r', 'l']
}

/// The colour that a hash token's digits give.
pub open spec fn hash_color_of(v: Seq<char>) -> Option<(u8, u8, u8, u32)> {
    hash_color_with_alpha(v, hash_color_alpha(v))
}

/// A colour: a hash token, or an `rgb` or `rgba` function whose contents
/// are read entirely; `rgb` colours are opaque.
pub open spec fn parsed_color(s: State) -> Result<((u8, u8, u8, u32), int), ParseErrorKind> {
    match next_index(s) {
        Some(p) => match s.input[p].token {
            Token::Hash(h) => match hash_color_of(h@) {
                Some(c) => Ok((c, p + 1)),
                None => Err(custom(MapCssErrorKind::InvalidHashColor)),
            },
            Token::IDHash(h) => match hash_color_of(h@) {
                Some(c) => Ok((c, p + 1)),
                None => Err(custom(MapCssErrorKind::InvalidHashColor)),
            },
            Token::Function(name) => {
                let block = s.input[p].block@;
                if eq_ignore_ascii_case(name@, rgb_name()) {
                    match nested_entirely(parsed_rgb_function_content(State::start(block)), block) {
                        Ok((r, g, b)) => Ok(((r, g, b, OPAQUE_BITS), p + 1)),
                        Err(e) => Err(e),
                    }
                } else if eq_ignore_ascii_case(name@, rgba_name()) {
                    match nested_entirely(parsed_rgba_function_content(State::start(block)), block) {
                        Ok(c) => Ok((c, p + 1)),
                        Err(e) => Err(e),
                    }
                } else {
                    Err(custom(MapCssErrorKind::ColorExpected))
                }
            },
            _ => Err(custom(MapCssErrorKind::ColorExpected)),
        },
        None => Err(custom(MapCssErrorKind::ColorExpected)),
    }
}

/// Further integers, each after a comma, as long as commas come.
pub open spec fn parsed_more_integers(s: State) -> Result<(Seq<i32>, int), ParseErrorKind>
    decreases s.input.len() - s.pos,
{
    match comma_at(s) {
        Some(c) => match integer_at(s.at(c)) {
            Some((i, q)) => if s.pos < q <= s.input.len() {
                prepend_parsed(seq![i], parsed_more_integers(s.at(q)))
            } else {
                Err(custom(MapCssErrorKind::IntegerExpected))
            },
            None => Err(custom(MapCssErrorKind::IntegerExpected)),
        },
        None => Ok((Seq::empty(), s.pos)),
    }
}

/// At least two integers separated by commas.
pub open spec fn parsed_comma_separated_integer_list(s: State) -> Result<(Seq<i32>, int), ParseErrorKind> {
    match integer_at(s) {
        Some((first, p)) => match comma_at(s.at(p)) {
            Some(c) => match integer_at(s.at(c)) {
                Some((second, q)) => prepend_parsed(seq![first, second], parsed_more_integers(s.at(q))),
                None => Err(custom(MapCssErrorKind::IntegerExpected)),
            },
            None => Err(custom(MapCssErrorKind::CommaSeparatedIntegerListTooShort)),
        },
        None => Err(custom(MapCssErrorKind::CommaSeparatedIntegerListExpected)),
    }
}

/// A property value of a single token: a percentage, a URL (unquoted, or
/// `url(` with a quoted string), an integer, any other number, or an
/// identifier or quoted string.
pub open spec fn parsed_simple_property_value(s: State) -> Result<(PropertyValueView, int), ParseErrorKind> {
    match next_index(s) {
        Some(p) => match s.input[p].token {
            Token::Percentage { unit_value_bits, .. } => Ok((PropertyValueView::Percentage(unit_value_bits), p + 1)),
            Token::UnquotedUrl(u) => Ok((PropertyValueView::Url(u@), p + 1)),
            Token::Function(name) => {
                let block = s.input[p].block@;
                if eq_ignore_ascii_case(name@, url_name()) {
                    match next_index(State::start(block)) {
                        Some(q) => match block[q].token {
                            Token::QuotedString(u) => if exhausted(State::start(block).at(q + 1)) {
                                Ok((PropertyValueView::Url(u@), p + 1))
                            } else {
                                Err(custom(MapCssErrorKind::PropertyValueExpected))
                            },
                            _ => Err(custom(MapCssErrorKind::PropertyValueExpected)),
                        },
                        None => Err(custom(MapCssErrorKind::PropertyValueExpected)),
                    }
                } else {
                    Err(custom(MapCssErrorKind::PropertyValueExpected))
                }
            },
            Token::Number { value_bits, int_value, .. } => match int_value {
                Some(i) => Ok((PropertyValueView::Integer(i), p + 1)),
                None => Ok((PropertyValueView::Float(value_bits), p + 1)),
            },
            Token::Ident(v) => Ok((PropertyValueView::String(v@), p + 1)),
            Token::QuotedString(v) => Ok((PropertyValueView::String(v@), p + 1)),
            _ => Err(custom(MapCssErrorKind::PropertyValueExpected)),
        },
        None => Err(custom(MapCssErrorKind::PropertyValueExpected)),
    }
}

/// A property value: an integer list, else a colour, else a single-token value.
/// Only the errors that say that neither a list nor a colour begins here
/// let the next kind of value be tried.
pub open spec fn parsed_property_value(s: State) -> Result<(PropertyValueView, int), ParseErrorKind> {
    match parsed_comma_separated_integer_list(s) {
        Ok((l, p)) => Ok((PropertyValueView::IntegerList(l), p)),
        Err(e) => if e == custom(MapCssErrorKind::CommaSeparatedIntegerListExpected) || e == custom(
            MapCssErrorKind::CommaSeparatedIntegerListTooShort,
        ) {
            match parsed_color(s) {
                Ok(((r, g, b, a), p)) => Ok((PropertyValueView::Color(r, g, b, a), p)),
                Err(e2) => if e2 == custom(MapCssErrorKind::ColorExpected) {
                    parsed_simple_property_value(s)
                } else {
                    Err(e2)
                },
            }
        } else {
            Err(e)
        },
    }
}

/// A declaration: a property name, a colon, a value and a semicolon.
pub open spec fn parsed_declaration(s: State) -> Result<(DeclarationView, int), ParseErrorKind> {
    match next_index(s) {
        Some(p) => match s.input[p].token {
            Token::Ident(name) => match next_index(s.at(p + 1)) {
                Some(c) => if s.input[c].token is Colon {
                    match parsed_property_value(s.at(c + 1)) {
                        Ok((v, q)) => match next_index(s.at(q)) {
                            Some(e) => if s.input[e].token is Semicolon {
                                Ok((DeclarationView { property_name: name@, property_value: v }, e + 1))
                            } else {
                                Err(custom(MapCssErrorKind::SemicolonExpected))
                            },
                            None => Err(custom(MapCssErrorKind::SemicolonExpected)),
                        },
                        Err(e) => Err(e),
                    }
                } else {
                    Err(custom(MapCssErrorKind::ColonExpected))
                },
                None => Err(custom(MapCssErrorKind::ColonExpected)),
            },
            _ => Err(custom(MapCssErrorKind::PropertyNameExpected)),
        },
        None => Err(custom(MapCssErrorKind::PropertyNameExpected)),
    }
}

/// Declarations, one after another, until nothing is left.
pub open spec fn parsed_declarations(s: State) -> Result<(Seq<DeclarationView>, int), ParseErrorKind>
    decreases s.input.len() - s.pos,
{
    if exhausted(s) {
        Ok((Seq::empty(), s.pos))
    } else {
        match parsed_declaration(s) {
            Ok((d, p)) => if s.pos < p <= s.input.len() {
                prepend_parsed(seq![d], parsed_declarations(s.at(p)))
            } else {
                Err(custom(MapCssErrorKind::PropertyNameExpected))
            },
            Err(e) => Err(e),
        }
    }
}

/// A rule: selectors read up to a curly bracket block, then the block,
/// whose contents are declarations.
pub open spec fn parsed_rule(s: State) -> Result<(RuleView, int), ParseErrorKind> {
    let inner = with_stop(s, false, true);
    match until_before(s, inner, parsed_alternatives(inner)) {
        Ok((selector, p)) => match next_index(s.at(p)) {
            Some(b) => if s.input[b].token is CurlyBracketBlock {
                let block = s.input[b].block@;
                match nested_entirely(parsed_declarations(State::start(block)), block) {
                    Ok(ds) => Ok((RuleView { selector, declarations: ds }, b + 1)),
                    Err(e) => Err(e),
                }
            } else {
                Err(custom(MapCssErrorKind::DeclarationBlockExpected))
            },
            None => Err(custom(MapCssErrorKind::DeclarationBlockExpected)),
        },
        Err(e) => Err(e),
    }
}

/// Rules, one after another, until nothing is left.
pub open spec fn parsed_rules(s: State) -> Result<(Seq<RuleView>, int), ParseErrorKind>
    decreases s.input.len() - s.pos,
{
    if exhausted(s) {
        Ok((Seq::empty(), s.pos))
    } else {
        match parsed_rule(s) {
            Ok((r, p)) => if s.pos < p <= s.input.len() {
                prepend_parsed(seq![r], parsed_rules(s.at(p)))
            } else {
                Err(custom(MapCssErrorKind::DeclarationBlockExpected))
            },
            Err(e) => Err(e),
        }
    }
}


/// The position after the bits of a hash token that comes next, with its value.
pub open spec fn hash_token_at(s: State) -> Option<(Seq<char>, int)> {
    match next_index(s) {
        Some(p) => match s.input[p].token {
            Token::Hash(h) => Some((h@, p + 1)),
            Token::IDHash(h) => Some((h@, p + 1)),
            _ => None,
        },
        None => None,
    }
}

/// Reads a hash token and gives its value.
pub fn parse_hash_token(input: &mut Parser) -> (r: Result<String, ()>)
    ensures
        final(input).same_input(old(input)),
        match hash_token_at(old(input).st()) {
            Some((h, p)) => r is Ok && r->Ok_0@ == h && final(input).position == p,
            None => r is Err,
        },
{
    match input.next() {
        Ok(c) => match &c.token {
            Token::IDHash(h) => Ok(h.clone()),
            Token::Hash(h) => Ok(h.clone()),
            _ => Err(()),
        },
        Err(_) => Err(()),
    }
}

/// Reads a colour component: a number from 0 to 1, scaled to a byte.
pub fn parse_color_unit_float(input: &mut Parser) -> (r: Result<u8, ParseErrorKind>)
    ensures
        final(input).same_input(old(input)),
        match parsed_color_unit_float(old(input).st()) {
            Ok((v, p)) => r == Ok::<u8, ParseErrorKind>(v) && final(input).position == p,
            Err(e) => r == Err::<u8, ParseErrorKind>(e),
        },
{
    match input.next() {
        Ok(c) => match &c.token {
            Token::Number { value_bits, unit_byte, .. } => if is_outside_unit_range(*value_bits) {
                Err(ParseErrorKind::Custom(MapCssErrorKind::ColorUnitFloatOutOfRange))
            } else {
                Ok(*unit_byte)
            },
            _ => Err(ParseErrorKind::Custom(MapCssErrorKind::ColorUnitFloatExpected)),
        },
        Err(_) => Err(ParseErrorKind::Custom(MapCssErrorKind::ColorUnitFloatExpected)),
    }
}

/// Reads an alpha value: a number from 0 to 1, as its bit pattern.
pub fn parse_alpha(input: &mut Parser) -> (r: Result<u32, ParseErrorKind>)
    ensures
        final(input).same_input(old(input)),
        match parsed_alpha(old(input).st()) {
            Ok((v, p)) => r == Ok::<u32, ParseErrorKind>(v) && final(input).position == p,
            Err(e) => r == Err::<u32, ParseErrorKind>(e),
        },
{
    match input.next() {
        Ok(c) => match &c.token {
            Token::Number { value_bits, .. } => if is_outside_unit_range(*value_bits) {
                Err(ParseErrorKind::Custom(MapCssErrorKind::ColorAlphaUnitFloatOutOfRange))
            } else {
                Ok(*value_bits)
            },
            _ => Err(ParseErrorKind::Custom(MapCssErrorKind::ColorAlphaUnitFloatExpected)),
        },
        Err(_) => Err(ParseErrorKind::Custom(MapCssErrorKind::ColorAlphaUnitFloatExpected)),
    }
}

/// Reads a comma.
pub fn parse_comma(input: &mut Parser) -> (r: Result<(), ParseErrorKind>)
    ensures
        final(input).same_input(old(input)),
        match parsed_comma(old(input).st()) {
            Ok(p) => r is Ok && final(input).position == p,
            Err(e) => r == Err::<(), ParseErrorKind>(e),
        },
{
    match input.next() {
        Ok(c) => match &c.token {
            Token::Comma => Ok(()),
            _ => Err(ParseErrorKind::Custom(MapCssErrorKind::CommaExpected)),
        },
        Err(_) => Err(ParseErrorKind::Custom(MapCssErrorKind::CommaExpected)),
    }
}

/// Reads three colour components separated by commas.
pub fn parse_rgb_function_content(input: &mut Parser) -> (r: Result<(u8, u8, u8), ParseErrorKind>)
    ensures
        final(input).same_input(old(input)),
        match parsed_rgb_function_content(old(input).st()) {
            Ok((v, p)) => r == Ok::<(u8, u8, u8), ParseErrorKind>(v) && final(input).position == p,
            Err(e) => r == Err::<(u8, u8, u8), ParseErrorKind>(e),
        },
{
    let r = match parse_color_unit_float(input) {
        Ok(v) => v,
        Err(e) => return Err(e),
    };
    match parse_comma(input) {
        Ok(()) => {},
        Err(e) => return Err(e),
    }
    let g = match parse_color_unit_float(input) {
        Ok(v) => v,
        Err(e) => return Err(e),
    };
    match parse_comma(input) {
        Ok(()) => {},
        Err(e) => return Err(e),
    }
    let b = match parse_color_unit_float(input) {
        Ok(v) => v,
        Err(e) => return Err(e),
    };
    Ok((r, g, b))
}

/// Reads three colour components and an alpha value, separated by commas.
pub fn parse_rgba_function_content(input: &mut Parser) -> (r: Result<(u8, u8, u8, u32), ParseErrorKind>)
    ensures
        final(input).same_input(old(input)),
        match parsed_rgba_function_content(old(input).st()) {
            Ok((v, p)) => r == Ok::<(u8, u8, u8, u32), ParseErrorKind>(v) && final(input).position == p,
            Err(e) => r == Err::<(u8, u8, u8, u32), ParseErrorKind>(e),
        },
{
    let (r, g, b) = match parse_rgb_function_content(input) {
        Ok(v) => v,
        Err(e) => return Err(e),
    };
    match parse_comma(input) {
        Ok(()) => {},
        Err(e) => return Err(e),
    }
    let alpha = match parse_alpha(input) {
        Ok(v) => v,
        Err(e) => return Err(e),
    };
    Ok((r, g, b, alpha))
}

/// Reads a colour: a hash token, `rgb(...)` or `rgba(...)`.
pub fn parse_color(input: &mut Parser) -> (r: Result<(u8, u8, u8, u32), ParseErrorKind>)
    ensures
        final(input).same_input(old(input)),
        match parsed_color(old(input).st()) {
            Ok((v, p)) => r == Ok::<(u8, u8, u8, u32), ParseErrorKind>(v) && final(input).position == p,
            Err(e) => r == Err::<(u8, u8, u8, u32), ParseErrorKind>(e),
        },
{
    let start = input.position;
    if let Ok(hash_string) = parse_hash_token(input) {
        return match hash_color(hash_string.as_str()) {
            Some(color) => Ok(color),
            None => Err(ParseErrorKind::Custom(MapCssErrorKind::InvalidHashColor)),
        };
    }
    input.position = start;
    let c = match input.next() {
        Ok(c) => c,
        Err(_) => return Err(ParseErrorKind::Custom(MapCssErrorKind::ColorExpected)),
    };
    let name = match &c.token {
        Token::Function(name) => name.as_str(),
        _ => return Err(ParseErrorKind::Custom(MapCssErrorKind::ColorExpected)),
    };
    proof {
        reveal_strlit("rgb");
        reveal_strlit("rgba");
    }
    let mut nested = Parser::new(c.block.as_slice());
    if matches_ignore_ascii_case(name, "rgb") {
        let (r, g, b) = match parse_rgb_function_content(&mut nested) {
            Ok(v) => v,
            Err(e) => return Err(e),
        };
        match nested.expect_exhausted() {
            Ok(()) => Ok((r, g, b, OPAQUE_BITS)),
            Err(e) => Err(e),
        }
    } else if matches_ignore_ascii_case(name, "rgba") {
        let color = match parse_rgba_function_content(&mut nested) {
            Ok(v) => v,
            Err(e) => return Err(e),
        };
        match nested.expect_exhausted() {
            Ok(()) => Ok(color),
            Err(e) => Err(e),
        }
    } else {
        Err(ParseErrorKind::Custom(MapCssErrorKind::ColorExpected))
    }
}

/// Reads an integer.
fn expect_integer(input: &mut Parser) -> (r: Result<i32, ()>)
    ensures
        final(input).same_input(old(input)),
        match integer_at(old(input).st()) {
            Some((i, p)) => r == Ok::<i32, ()>(i) && final(input).position == p,
            None => r is Err,
        },
{
    match input.next() {
        Ok(c) => match &c.token {
            Token::Number { int_value, .. } => match int_value {
                Some(i) => Ok(*i),
                None => Err(()),
            },
            _ => Err(()),
        },
        Err(_) => Err(()),
    }
}

proof fn lemma_more_integers_bounds(s: State)
    requires
        0 <= s.pos <= s.input.len(),
    ensures
        parsed_more_integers(s) matches Ok((l, q)) ==> s.pos <= q <= s.input.len(),
    decreases s.input.len() - s.pos,
{
    if let Some(c) = comma_at(s) {
        lemma_next_index(s);
        lemma_next_index(s.at(c));
        if let Some((i, q)) = integer_at(s.at(c)) {
            if s.pos < q <= s.input.len() {
                lemma_more_integers_bounds(s.at(q));
            }
        }
    }
}

/// Reads a list of at least two integers separated by commas.
pub fn parse_comma_separated_integer_list(input: &mut Parser) -> (r: Result<Vec<i32>, ParseErrorKind>)
    ensures
        final(input).same_input(old(input)),
        match parsed_comma_separated_integer_list(old(input).st()) {
            Ok((l, p)) => r is Ok && r->Ok_0@ == l && final(input).position == p,
            Err(e) => r == Err::<Vec<i32>, ParseErrorKind>(e),
        },
{
    let ghost s0 = input.st();
    let first = match expect_integer(input) {
        Ok(i) => i,
        Err(()) => return Err(ParseErrorKind::Custom(MapCssErrorKind::CommaSeparatedIntegerListExpected)),
    };
    let after_first = input.position;
    match parse_comma(input) {
        Ok(()) => {},
        Err(_) => {
            input.position = after_first;
            return Err(ParseErrorKind::Custom(MapCssErrorKind::CommaSeparatedIntegerListTooShort));
        },
    }
    let second = match expect_integer(input) {
        Ok(i) => i,
        Err(()) => return Err(ParseErrorKind::Custom(MapCssErrorKind::IntegerExpected)),
    };
    proof {
        lemma_next_index(s0);
        lemma_next_index(input.st());
    }
    let ghost s1 = input.st();
    let mut list: Vec<i32> = Vec::new();
    list.push(first);
    list.push(second);
    proof {
        assert(list@ =~= seq![first, second]);
    }
    loop
        invariant
            s0 == old(input).st(),
            input.input@ == s0.input,
            input.stop_before == s0.stop,
            input.position <= input.input@.len(),
            parsed_comma_separated_integer_list(s0) == prepend_parsed(seq![first, second], parsed_more_integers(s1)),
            prepend_parsed(list@, parsed_more_integers(input.st())) == prepend_parsed(
                seq![first, second],
                parsed_more_integers(s1),
            ),
        decreases input.input@.len() - input.position,
    {
        let ghost cur = input.st();
        let start = input.position;
        match parse_comma(input) {
            Ok(()) => {},
            Err(_) => {
                input.position = start;
                proof {
                    assert(parsed_more_integers(cur) == Ok::<(Seq<i32>, int), ParseErrorKind>((Seq::empty(), cur.pos)));
                    assert(list@ + Seq::<i32>::empty() =~= list@);
                }
                return Ok(list);
            },
        }
        proof {
            lemma_next_index(cur);
            lemma_next_index(input.st());
        }
        let integer = match expect_integer(input) {
            Ok(i) => i,
            Err(()) => return Err(ParseErrorKind::Custom(MapCssErrorKind::IntegerExpected)),
        };
        let ghost before = list@;
        list.push(integer);
        proof {
            let x = parsed_more_integers(input.st());
            assert(input.st() == cur.at(input.position as int));
            assert(parsed_more_integers(cur) == prepend_parsed(seq![integer], x));
            match x {
                Ok((vs, q)) => {
                    assert(before + (seq![integer] + vs) =~= list@ + vs);
                },
                Err(_) => {},
            }
        }
    }
}

impl PropertyValue {
    pub fn parse(input: &mut Parser) -> (r: Result<PropertyValue, ParseErrorKind>)
        ensures
            final(input).same_input(old(input)),
            match parsed_property_value(old(input).st()) {
                Ok((v, p)) => r is Ok && r->Ok_0@ == v && final(input).position == p,
                Err(e) => r == Err::<PropertyValue, ParseErrorKind>(e),
            },
    {
        let start = input.position;
        match parse_comma_separated_integer_list(input) {
            Ok(list) => return Ok(PropertyValue::IntegerList(list)),
            Err(e) => match e {
                ParseErrorKind::Custom(MapCssErrorKind::CommaSeparatedIntegerListExpected) => {},
                ParseErrorKind::Custom(MapCssErrorKind::CommaSeparatedIntegerListTooShort) => {},
                _ => return Err(e),
            },
        }
        input.position = start;
        match parse_color(input) {
            Ok((r, g, b, a)) => return Ok(PropertyValue::Color(r, g, b, a)),
            Err(e) => match e {
                ParseErrorKind::Custom(MapCssErrorKind::ColorExpected) => {},
                _ => return Err(e),
            },
        }
        input.position = start;
        parse_simple_property_value(input)
    }
}

/// Reads a property value of a single token.
fn parse_simple_property_value(input: &mut Parser) -> (r: Result<PropertyValue, ParseErrorKind>)
    ensures
        final(input).same_input(old(input)),
        match parsed_simple_property_value(old(input).st()) {
            Ok((v, p)) => r is Ok && r->Ok_0@ == v && final(input).position == p,
            Err(e) => r == Err::<PropertyValue, ParseErrorKind>(e),
        },
{
    let c = match input.next() {
        Ok(c) => c,
        Err(_) => return Err(ParseErrorKind::Custom(MapCssErrorKind::PropertyValueExpected)),
    };
    proof {
        reveal_strlit("url");
    }
    match &c.token {
        Token::Percentage { unit_value_bits, .. } => Ok(PropertyValue::Percentage(*unit_value_bits)),
        Token::UnquotedUrl(u) => Ok(PropertyValue::Url(u.clone())),
        Token::Function(name) => {
            if matches_ignore_ascii_case(name.as_str(), "url") {
                let mut nested = Parser::new(c.block.as_slice());
                match nested.next() {
                    Ok(inner) => match &inner.token {
                        Token::QuotedString(u) => if nested.is_exhausted() {
                            Ok(PropertyValue::Url(u.clone()))
                        } else {
                            Err(ParseErrorKind::Custom(MapCssErrorKind::PropertyValueExpected))
                        },
                        _ => Err(ParseErrorKind::Custom(MapCssErrorKind::PropertyValueExpected)),
                    },
                    Err(_) => Err(ParseErrorKind::Custom(MapCssErrorKind::PropertyValueExpected)),
                }
            } else {
                Err(ParseErrorKind::Custom(MapCssErrorKind::PropertyValueExpected))
            }
        },
        Token::Number { value_bits, int_value, .. } => match int_value {
            Some(i) => Ok(PropertyValue::Integer(*i)),
            None => Ok(PropertyValue::Float(*value_bits)),
        },
        Token::Ident(v) => Ok(PropertyValue::String(v.clone())),
        Token::QuotedString(v) => Ok(PropertyValue::String(v.clone())),
        _ => Err(ParseErrorKind::Custom(MapCssErrorKind::PropertyValueExpected)),
    }
}

impl Declaration {
    pub fn parse(input: &mut Parser) -> (r: Result<Declaration, ParseErrorKind>)
        ensures
            final(input).same_input(old(input)),
            match parsed_declaration(old(input).st()) {
                Ok((d, p)) => r is Ok && r->Ok_0@ == d && final(input).position == p,
                Err(e) => r == Err::<Declaration, ParseErrorKind>(e),
            },
    {
        let property_name = match input.next() {
            Ok(c) => match &c.token {
                Token::Ident(name) => name.clone(),
                _ => return Err(ParseErrorKind::Custom(MapCssErrorKind::PropertyNameExpected)),
            },
            Err(_) => return Err(ParseErrorKind::Custom(MapCssErrorKind::PropertyNameExpected)),
        };
        match input.next() {
            Ok(c) => match &c.token {
                Token::Colon => {},
                _ => return Err(ParseErrorKind::Custom(MapCssErrorKind::ColonExpected)),
            },
            Err(_) => return Err(ParseErrorKind::Custom(MapCssErrorKind::ColonExpected)),
        }
        let property_value = match PropertyValue::parse(input) {
            Ok(v) => v,
            Err(e) => return Err(e),
        };
        match input.next() {
            Ok(c) => match &c.token {
                Token::Semicolon => {},
                _ => return Err(ParseErrorKind::Custom(MapCssErrorKind::SemicolonExpected)),
            },
            Err(_) => return Err(ParseErrorKind::Custom(MapCssErrorKind::SemicolonExpected)),
        }
        Ok(Declaration { property_name, property_value })
    }
}

pub proof fn lemma_parsed_property_value_advances(s: State)
    requires
        0 <= s.pos,
    ensures
        parsed_property_value(s) matches Ok((v, q)) ==> s.pos < q <= s.input.len(),
{
    lemma_next_index(s);
    if let Some((first, p)) = integer_at(s) {
        lemma_next_index(s.at(p));
        if let Some(c) = comma_at(s.at(p)) {
            lemma_next_index(s.at(c));
            if let Some((second, q)) = integer_at(s.at(c)) {
                lemma_next_index(s.at(q));
                lemma_more_integers_bounds(s.at(q));
            }
        }
    }
}

pub proof fn lemma_parsed_declaration_advances(s: State)
    requires
        0 <= s.pos,
    ensures
        parsed_declaration(s) matches Ok((d, p)) ==> s.pos < p <= s.input.len(),
{
    lemma_next_index(s);
    if let Some(p) = next_index(s) {
        lemma_next_index(s.at(p + 1));
        if let Some(c) = next_index(s.at(p + 1)) {
            lemma_parsed_property_value_advances(s.at(c + 1));
            if let Ok((v, q)) = parsed_property_value(s.at(c + 1)) {
                lemma_next_index(s.at(q));
            }
        }
    }
}

/// Reads declarations until nothing is left.
pub fn parse_declaration_block_content(input: &mut Parser) -> (r: Result<Vec<Declaration>, ParseErrorKind>)
    ensures
        final(input).same_input(old(input)),
        match parsed_declarations(old(input).st()) {
            Ok((ds, p)) => r is Ok && declarations_view(r->Ok_0@) == ds && final(input).position == p,
            Err(e) => r == Err::<Vec<Declaration>, ParseErrorKind>(e),
        },
{
    let ghost s0 = input.st();
    let mut declarations: Vec<Declaration> = Vec::new();
    proof {
        assert(declarations_view(declarations@) =~= Seq::<DeclarationView>::empty());
        match parsed_declarations(s0) {
            Ok((vs, q)) => {
                assert(Seq::<DeclarationView>::empty() + vs =~= vs);
            },
            Err(_) => {},
        }
    }
    while !input.is_exhausted()
        invariant
            s0 == old(input).st(),
            input.input@ == s0.input,
            input.stop_before == s0.stop,
            prepend_parsed(declarations_view(declarations@), parsed_declarations(input.st())) == parsed_declarations(s0),
        decreases input.input@.len() - input.position,
    {
        let ghost cur = input.st();
        proof {
            lemma_parsed_declaration_advances(cur);
        }
        let declaration = match Declaration::parse(input) {
            Ok(d) => d,
            Err(e) => return Err(e),
        };
        let ghost dv = declaration@;
        let ghost before = declarations@;
        declarations.push(declaration);
        proof {
            assert(declarations_view(declarations@) =~= declarations_view(before).push(dv));
            let x = parsed_declarations(input.st());
            assert(input.st() == cur.at(input.position as int));
            assert(parsed_declarations(cur) == prepend_parsed(seq![dv], x));
            match x {
                Ok((vs, q)) => {
                    assert(declarations_view(before) + (seq![dv] + vs) =~= declarations_view(declarations@) + vs);
                },
                Err(_) => {},
            }
        }
    }
    proof {
        assert(declarations_view(declarations@) + Seq::<DeclarationView>::empty() =~= declarations_view(declarations@));
    }
    Ok(declarations)
}

impl Rule {
    pub fn parse(input: &mut Parser) -> (r: Result<Rule, ParseErrorKind>)
        ensures
            final(input).same_input(old(input)),
            match parsed_rule(old(input).st()) {
                Ok((v, p)) => r is Ok && r->Ok_0@ == v && final(input).position == p,
                Err(e) => r == Err::<Rule, ParseErrorKind>(e),
            },
    {
        let mut inner = input.delimited(false, true);
        let selector = match SelectorAlternatives::parse(&mut inner) {
            Ok(s) => s,
            Err(e) => return Err(e),
        };
        match inner.expect_exhausted() {
            Ok(()) => {},
            Err(e) => return Err(e),
        }
        input.position = inner.position;
        input.skip_whitespace();
        let c = match input.next() {
            Ok(c) => c,
            Err(_) => return Err(ParseErrorKind::Custom(MapCssErrorKind::DeclarationBlockExpected)),
        };
        match &c.token {
            Token::CurlyBracketBlock => {},
            _ => return Err(ParseErrorKind::Custom(MapCssErrorKind::DeclarationBlockExpected)),
        }
        let mut nested = Parser::new(c.block.as_slice());
        let declarations = match parse_declaration_block_content(&mut nested) {
            Ok(d) => d,
            Err(e) => return Err(e),
        };
        match nested.expect_exhausted() {
            Ok(()) => {},
            Err(e) => return Err(e),
        }
        Ok(Rule { selector, declarations })
    }
}

pub proof fn lemma_parsed_rule_advances(s: State)
    requires
        0 <= s.pos,
    ensures
        parsed_rule(s) matches Ok((r, p)) ==> s.pos < p <= s.input.len(),
{
    let inner = with_stop(s, false, true);
    lemma_next_index(s);
    if s.pos <= s.input.len() {
        lemma_parsed_alternatives_bounds(inner);
        if let Ok((a, q)) = parsed_alternatives(inner) {
            lemma_next_index(s.at(q));
            let p = skip_blank(s.input, q);
            lemma_next_index(s.at(p));
        }
    } else {
        lemma_next_index(s.at(skip_blank(s.input, s.pos)));
    }
}

impl Stylesheet {
    pub fn parse(input: &mut Parser) -> (r: Result<Stylesheet, ParseErrorKind>)
        ensures
            final(input).same_input(old(input)),
            match parsed_rules(old(input).st()) {
                Ok((rs, p)) => r is Ok && r->Ok_0@ == rs && final(input).position == p,
                Err(e) => r == Err::<Stylesheet, ParseErrorKind>(e),
            },
    {
        let ghost s0 = input.st();
        let mut rules: Vec<Rule> = Vec::new();
        proof {
            assert(rules_view(rules@) =~= Seq::<RuleView>::empty());
            match parsed_rules(s0) {
                Ok((vs, q)) => {
                    assert(Seq::<RuleView>::empty() + vs =~= vs);
                },
                Err(_) => {},
            }
        }
        while !input.is_exhausted()
            invariant
                s0 == old(input).st(),
                input.input@ == s0.input,
                input.stop_before == s0.stop,
                prepend_parsed(rules_view(rules@), parsed_rules(input.st())) == parsed_rules(s0),
            decreases input.input@.len() - input.position,
        {
            let ghost cur = input.st();
            proof {
                lemma_parsed_rule_advances(cur);
            }
            let rule = match Rule::parse(input) {
                Ok(r) => r,
                Err(e) => return Err(e),
            };
            let ghost rv = rule@;
            let ghost before = rules@;
            rules.push(rule);
            proof {
                assert(rules_view(rules@) =~= rules_view(before).push(rv));
                let x = parsed_rules(input.st());
                assert(input.st() == cur.at(input.position as int));
                assert(parsed_rules(cur) == prepend_parsed(seq![rv], x));
                match x {
                    Ok((vs, q)) => {
                        assert(rules_view(before) + (seq![rv] + vs) =~= rules_view(rules@) + vs);
                    },
                    Err(_) => {},
                }
            }
        }
        proof {
            assert(rules_view(rules@) + Seq::<RuleView>::empty() =~= rules_view(rules@));
        }
        Ok(Stylesheet { rules })
    }
}

/// An integer list that reads successfully has at least two integers.
pub proof fn lemma_integer_list_has_two(s: State)
    ensures
        parsed_comma_separated_integer_list(s) matches Ok((l, p)) ==> l.len() >= 2,
{
    if let Some((first, p)) = integer_at(s) {
        if let Some(c) = comma_at(s.at(p)) {
            if let Some((second, q)) = integer_at(s.at(c)) {
                if let Ok((rest, r)) = parsed_more_integers(s.at(q)) {
                    assert((seq![first, second] + rest).len() == 2 + rest.len());
                }
            }
        }
    }
}

/// A hash colour of three or six digits is opaque.
pub proof fn lemma_short_hash_colors_are_opaque(v: Seq<char>)
    requires
        v.len() == 3 || v.len() == 6,
    ensures
        hash_color_of(v) matches Some(c) ==> c.3 == OPAQUE_BITS,
{
}
} // verus!
