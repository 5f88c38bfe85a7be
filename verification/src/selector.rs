use vstd::prelude::*;

use crate::css::{
    eq_ignore_ascii_case, exhausted, ident_or_string_at, lemma_next_index, map_parsed, matches_ignore_ascii_case,
    nested_entirely, next_index, parse_identifier_or_quoted_string, prepend_parsed, skip_blank, until_before, with_stop,
    ParseErrorKind, Parser, State, Token,
};
use crate::area::AreaSource;
use crate::error::MapCssErrorKind;
use crate::object::{AreaKey, Object, ObjectKey, RelationKey, WayKey};
use crate::storage::{containing_relations_of, consistent, object_present, Storage, StorageView};

verus! {

/// `regex::Regex`, held as it is.
#[verifier::external_type_specification]
#[verifier::external_body]
pub struct ExRegex(regex::Regex);

/// `Clone` of `regex::Regex`, which copies the compiled expression; nothing
/// is claimed of the copy.
pub assume_specification[ <regex::Regex as Clone>::clone ](r: &regex::Regex) -> regex::Regex;

/// The kind of map object that a selector picks.
#[derive(Clone, Copy, Debug, PartialEq, Eq, Structural)]
pub enum ObjectType {
    Node,
    Way,
    Relation,
    Area,
    Line,
    Canvas,
    Any,
}

/// The key of a tag that a test looks at.
#[derive(Clone, Debug, PartialEq)]
pub struct TagKey(pub String);

/// A number that a tag is compared with; a float keeps its bit pattern.
#[derive(Clone, Copy, Debug, PartialEq, Eq, Structural)]
pub enum TagNumericValue {
    Integer(i32),
    Float(u32),
}

/// A string that a tag is compared with.
#[derive(Clone, Debug, PartialEq)]
pub struct TagStringValue(pub String);

/// A value that a tag is compared with.
#[derive(Clone, Debug, PartialEq)]
pub enum TagValue {
    Numeric(TagNumericValue),
    String(TagStringValue),
}

/// What a tag value stands for.
pub enum TagValueView {
    Numeric(TagNumericValue),
    String(Seq<char>),
}

/// A compiled regular expression, with the pattern it was compiled from.
#[derive(Clone, Debug)]
pub struct TagRegex {
    pattern: String,
    compiled: regex::Regex,
}

/// A test of a tag of a map object.
#[derive(Clone, Debug, PartialEq)]
pub enum Test {
    IsSet(TagKey),
    NotSet(TagKey),
    Equal(TagKey, TagValue),
    NotEqual(TagKey, TagValue),
    LessThan(TagKey, TagNumericValue),
    LessThanOrEqual(TagKey, TagNumericValue),
    GreaterThan(TagKey, TagNumericValue),
    GreaterThanOrEqual(TagKey, TagNumericValue),
    Matches(TagKey, TagRegex),
}

/// What a test stands for: keys, strings and patterns by their characters.
pub enum TestView {
    IsSet(Seq<char>),
    NotSet(Seq<char>),
    Equal(Seq<char>, TagValueView),
    NotEqual(Seq<char>, TagValueView),
    LessThan(Seq<char>, TagNumericValue),
    LessThanOrEqual(Seq<char>, TagNumericValue),
    GreaterThan(Seq<char>, TagNumericValue),
    GreaterThanOrEqual(Seq<char>, TagNumericValue),
    Matches(Seq<char>, Seq<char>),
}

impl View for TagKey {
    type V = Seq<char>;

    open spec fn view(&self) -> Seq<char> {
        self.0@
    }
}

impl View for TagStringValue {
    type V = Seq<char>;

    open spec fn view(&self) -> Seq<char> {
        self.0@
    }
}

impl View for TagValue {
    type V = TagValueView;

    open spec fn view(&self) -> TagValueView {
        match self {
            TagValue::Numeric(n) => TagValueView::Numeric(*n),
            TagValue::String(s) => TagValueView::String(s@),
        }
    }
}

impl View for TagRegex {
    type V = Seq<char>;

    closed spec fn view(&self) -> Seq<char> {
        self.pattern@
    }
}

impl View for Test {
    type V = TestView;

    open spec fn view(&self) -> TestView {
        match self {
            Test::IsSet(k) => TestView::IsSet(k@),
            Test::NotSet(k) => TestView::NotSet(k@),
            Test::Equal(k, v) => TestView::Equal(k@, v@),
            Test::NotEqual(k, v) => TestView::NotEqual(k@, v@),
            Test::LessThan(k, v) => TestView::LessThan(k@, *v),
            Test::LessThanOrEqual(k, v) => TestView::LessThanOrEqual(k@, *v),
            Test::GreaterThan(k, v) => TestView::GreaterThan(k@, *v),
            Test::GreaterThanOrEqual(k, v) => TestView::GreaterThanOrEqual(k@, *v),
            Test::Matches(k, r) => TestView::Matches(k@, r@),
        }
    }
}

impl PartialEq for TagRegex {
    fn eq(&self, other: &Self) -> (r: bool) {
        self.pattern == other.pattern
    }
}

impl vstd::std_specs::cmp::PartialEqSpecImpl for TagRegex {
    open spec fn obeys_eq_spec() -> bool {
        true
    }

    open spec fn eq_spec(&self, other: &Self) -> bool {
        self@ == other@
    }
}

/// Whether `regex::Regex::new` accepts the pattern (it is well formed and
/// its compiled form stays within the crate's default size limit).
pub uninterp spec fn regex_compiles(pattern: Seq<char>) -> bool;

/// `regex::Regex::new`: the compiled expression exactly when the crate accepts the pattern.
#[verifier::external_body]
fn compile_regex(pattern: &str) -> (r: Option<regex::Regex>)
    ensures
        r is Some <==> regex_compiles(pattern@),
{
    regex::Regex::new(pattern).ok()
}

impl TagRegex {
    /// Compiles the pattern as it is.
    pub fn from_pattern(pattern: &str) -> (r: Option<TagRegex>)
        ensures
            r is Some <==> regex_compiles(pattern@),
            r matches Some(x) ==> x@ == pattern@,
    {
        match compile_regex(pattern) {
            Some(compiled) => Some(TagRegex { pattern: String::from_str(pattern), compiled }),
            None => None,
        }
    }

    /// The pattern that the expression was compiled from.
    pub fn as_str(&self) -> (r: &str)
        ensures
            r@ == self@,
    {
        self.pattern.as_str()
    }
}

pub open spec fn custom(k: MapCssErrorKind) -> ParseErrorKind {
    ParseErrorKind::Custom(k)
}

/// The object type that a name stands for, in any ASCII case.
pub open spec fn object_type_named(name: Seq<char>) -> Option<ObjectType> {
    if eq_ignore_ascii_case(name, seq!['n', 'o', 'd', 'e']) {
        Some(ObjectType::Node)
    } else if eq_ignore_ascii_case(name, seq!['w', 'a', 'y']) {
        Some(ObjectType::Way)
    } else if eq_ignore_ascii_case(name, seq!['r', 'e', 'l', 'a', 't', 'i', 'o', 'n']) {
        Some(ObjectType::Relation)
    } else if eq_ignore_ascii_case(name, seq!['a', 'r', 'e', 'a']) {
        Some(ObjectType::Area)
    } else if eq_ignore_ascii_case(name, seq!['l', 'i', 'n', 'e']) {
        Some(ObjectType::Line)
    } else if eq_ignore_ascii_case(name, seq!['c', 'a', 'n', 'v', 'a', 's']) {
        Some(ObjectType::Canvas)
    } else {
        None
    }
}

/// An object type given by its name.
pub open spec fn parsed_non_special_object_type(s: State) -> Result<(ObjectType, int), ()> {
    match next_index(s) {
        Some(p) => match s.input[p].token {
            Token::Ident(name) => match object_type_named(name@) {
                Some(t) => Ok((t, p + 1)),
                None => Err(()),
            },
            _ => Err(()),
        },
        None => Err(()),
    }
}

/// The position after the delimiter `c`, if it comes next.
pub open spec fn delim_at(s: State, c: char) -> Option<int> {
    match next_index(s) {
        Some(p) => if s.input[p].token == Token::Delim(c) {
            Some(p + 1)
        } else {
            None
        },
        None => None,
    }
}

/// An object type: a name, or `*` for any.
pub open spec fn parsed_object_type(s: State) -> Result<(ObjectType, int), ParseErrorKind> {
    match parsed_non_special_object_type(s) {
        Ok(r) => Ok(r),
        Err(_) => match delim_at(s, '*') {
            Some(p) => Ok((ObjectType::Any, p)),
            None => Err(custom(MapCssErrorKind::ObjectTypeExpected)),
        },
    }
}

pub open spec fn parsed_tag_key(s: State) -> Result<(Seq<char>, int), ParseErrorKind> {
    match ident_or_string_at(s) {
        Some(r) => Ok(r),
        None => Err(custom(MapCssErrorKind::TagKeyExpected)),
    }
}

/// An integer, or else any number as a float.
pub open spec fn parsed_tag_numeric_value(s: State) -> Result<(TagNumericValue, int), ParseErrorKind> {
    match next_index(s) {
        Some(p) => match s.input[p].token {
            Token::Number { value_bits, int_value, .. } => match int_value {
                Some(i) => Ok((TagNumericValue::Integer(i), p + 1)),
                None => Ok((TagNumericValue::Float(value_bits), p + 1)),
            },
            _ => Err(custom(MapCssErrorKind::TagNumericValueExpected)),
        },
        None => Err(custom(MapCssErrorKind::TagNumericValueExpected)),
    }
}

pub open spec fn parsed_tag_string_value(s: State) -> Result<(Seq<char>, int), ParseErrorKind> {
    match ident_or_string_at(s) {
        Some(r) => Ok(r),
        None => Err(custom(MapCssErrorKind::TagStringValueExpected)),
    }
}

/// A number if one comes next, else a string.
pub open spec fn parsed_tag_value(s: State) -> Result<(TagValueView, int), ParseErrorKind> {
    match parsed_tag_numeric_value(s) {
        Ok((n, p)) => Ok((TagValueView::Numeric(n), p)),
        Err(_) => match parsed_tag_string_value(s) {
            Ok((v, p)) => Ok((TagValueView::String(v), p)),
            Err(_) => Err(custom(MapCssErrorKind::TagValueExpected)),
        },
    }
}

/// The pattern with `^` put before and `$` after it where they are missing.
pub open spec fn anchored(v: Seq<char>) -> Seq<char> {
    let start = if v.len() > 0 && v[0] == '^' {
        Seq::<char>::empty()
    } else {
        seq!['^']
    };
    let end = if v.len() > 0 && v[v.len() - 1] == '$' {
        Seq::<char>::empty()
    } else {
        seq!['$']
    };
    start + v + end
}

/// A regular expression given as a quoted string, anchored at both ends.
pub open spec fn parsed_regex(s: State) -> Result<(Seq<char>, int), ParseErrorKind> {
    match next_index(s) {
        Some(p) => match s.input[p].token {
            Token::QuotedString(v) => if regex_compiles(anchored(v@)) {
                Ok((anchored(v@), p + 1))
            } else {
                Err(custom(MapCssErrorKind::InvalidRegex))
            },
            _ => Err(custom(MapCssErrorKind::RegexExpected)),
        },
        None => Err(custom(MapCssErrorKind::RegexExpected)),
    }
}

/// Reads an object type name.
fn parse_non_special_object_type(input: &mut Parser) -> (r: Result<ObjectType, ()>)
    ensures
        final(input).same_input(old(input)),
        match parsed_non_special_object_type(old(input).st()) {
            Ok((t, p)) => r == Ok::<ObjectType, ()>(t) && final(input).position == p,
            Err(_) => r is Err,
        },
{
    match input.next() {
        Ok(c) => match &c.token {
            Token::Ident(name) => {
                let name = name.as_str();
                proof {
                    reveal_strlit("node");
                    reveal_strlit("way");
                    reveal_strlit("relation");
                    reveal_strlit("area");
                    reveal_strlit("line");
                    reveal_strlit("canvas");
                }
                if matches_ignore_ascii_case(name, "node") {
                    Ok(ObjectType::Node)
                } else if matches_ignore_ascii_case(name, "way") {
                    Ok(ObjectType::Way)
                } else if matches_ignore_ascii_case(name, "relation") {
                    Ok(ObjectType::Relation)
                } else if matches_ignore_ascii_case(name, "area") {
                    Ok(ObjectType::Area)
                } else if matches_ignore_ascii_case(name, "line") {
                    Ok(ObjectType::Line)
                } else if matches_ignore_ascii_case(name, "canvas") {
                    Ok(ObjectType::Canvas)
                } else {
                    Err(())
                }
            },
            _ => Err(()),
        },
        Err(_) => Err(()),
    }
}

/// Reads the delimiter `c`.
fn expect_delim(input: &mut Parser, c: char) -> (r: Result<(), ()>)
    ensures
        final(input).same_input(old(input)),
        match delim_at(old(input).st(), c) {
            Some(p) => r is Ok && final(input).position == p,
            None => r is Err,
        },
{
    match input.next() {
        Ok(comp) => match &comp.token {
            Token::Delim(d) => if *d == c {
                Ok(())
            } else {
                Err(())
            },
            _ => Err(()),
        },
        Err(_) => Err(()),
    }
}

impl ObjectType {
    pub fn parse(input: &mut Parser) -> (r: Result<ObjectType, ParseErrorKind>)
        ensures
            final(input).same_input(old(input)),
            match parsed_object_type(old(input).st()) {
                Ok((t, p)) => r == Ok::<ObjectType, ParseErrorKind>(t) && final(input).position == p,
                Err(e) => r == Err::<ObjectType, ParseErrorKind>(e),
            },
    {
        let start = input.position;
        if let Ok(object_type) = parse_non_special_object_type(input) {
            return Ok(object_type);
        }
        input.position = start;
        if let Ok(()) = expect_delim(input, '*') {
            Ok(ObjectType::Any)
        } else {
            Err(ParseErrorKind::Custom(MapCssErrorKind::ObjectTypeExpected))
        }
    }
}

impl TagKey {
    pub fn parse(input: &mut Parser) -> (r: Result<TagKey, ParseErrorKind>)
        ensures
            final(input).same_input(old(input)),
            match parsed_tag_key(old(input).st()) {
                Ok((v, p)) => r is Ok && r->Ok_0@ == v && final(input).position == p,
                Err(e) => r == Err::<TagKey, ParseErrorKind>(e),
            },
    {
        match parse_identifier_or_quoted_string(input) {
            Ok(s) => Ok(TagKey(s)),
            Err(_) => Err(ParseErrorKind::Custom(MapCssErrorKind::TagKeyExpected)),
        }
    }
}

impl TagNumericValue {
    pub fn parse(input: &mut Parser) -> (r: Result<TagNumericValue, ParseErrorKind>)
        ensures
            final(input).same_input(old(input)),
            match parsed_tag_numeric_value(old(input).st()) {
                Ok((v, p)) => r == Ok::<TagNumericValue, ParseErrorKind>(v) && final(input).position == p,
                Err(e) => r == Err::<TagNumericValue, ParseErrorKind>(e),
            },
    {
        match input.next() {
            Ok(comp) => match &comp.token {
                Token::Number { value_bits, int_value, .. } => match int_value {
                    Some(i) => Ok(TagNumericValue::Integer(*i)),
                    None => Ok(TagNumericValue::Float(*value_bits)),
                },
                _ => Err(ParseErrorKind::Custom(MapCssErrorKind::TagNumericValueExpected)),
            },
            Err(_) => Err(ParseErrorKind::Custom(MapCssErrorKind::TagNumericValueExpected)),
        }
    }
}

impl TagStringValue {
    pub fn parse(input: &mut Parser) -> (r: Result<TagStringValue, ParseErrorKind>)
        ensures
            final(input).same_input(old(input)),
            match parsed_tag_string_value(old(input).st()) {
                Ok((v, p)) => r is Ok && r->Ok_0@ == v && final(input).position == p,
                Err(e) => r == Err::<TagStringValue, ParseErrorKind>(e),
            },
    {
        match parse_identifier_or_quoted_string(input) {
            Ok(s) => Ok(TagStringValue(s)),
            Err(_) => Err(ParseErrorKind::Custom(MapCssErrorKind::TagStringValueExpected)),
        }
    }
}

impl TagValue {
    pub fn parse(input: &mut Parser) -> (r: Result<TagValue, ParseErrorKind>)
        ensures
            final(input).same_input(old(input)),
            match parsed_tag_value(old(input).st()) {
                Ok((v, p)) => r is Ok && r->Ok_0@ == v && final(input).position == p,
                Err(e) => r == Err::<TagValue, ParseErrorKind>(e),
            },
    {
        let start = input.position;
        if let Ok(numeric) = TagNumericValue::parse(input) {
            return Ok(TagValue::Numeric(numeric));
        }
        input.position = start;
        if let Ok(string) = TagStringValue::parse(input) {
            return Ok(TagValue::String(string));
        }
        Err(ParseErrorKind::Custom(MapCssErrorKind::TagValueExpected))
    }
}

/// Compiles the string as a regular expression that must match a whole
/// value: `^` and `$` are added where the string lacks them.
pub fn create_regex_with_anchors(string: &str) -> (r: Result<TagRegex, ()>)
    ensures
        r is Ok <==> regex_compiles(anchored(string@)),
        r matches Ok(x) ==> x@ == anchored(string@),
{
    let n = string.unicode_len();
    let add_start = !(n > 0 && string.get_char(0) == '^');
    let add_end = !(n > 0 && string.get_char(n - 1) == '$');
    let mut full = String::new();
    proof {
        reveal_strlit("^");
        reveal_strlit("$");
    }
    if add_start {
        full.append("^");
    }
    full.append(string);
    if add_end {
        full.append("$");
    }
    proof {
        assert(full@ =~= anchored(string@));
    }
    match TagRegex::from_pattern(full.as_str()) {
        Some(anchored_regex) => Ok(anchored_regex),
        None => Err(()),
    }
}

impl TagRegex {
    /// Only quoted regular expressions are read.
    pub fn parse(input: &mut Parser) -> (r: Result<TagRegex, ParseErrorKind>)
        ensures
            final(input).same_input(old(input)),
            match parsed_regex(old(input).st()) {
                Ok((v, p)) => r is Ok && r->Ok_0@ == v && final(input).position == p,
                Err(e) => r == Err::<TagRegex, ParseErrorKind>(e),
            },
    {
        match input.next() {
            Ok(comp) => match &comp.token {
                Token::QuotedString(v) => match create_regex_with_anchors(v.as_str()) {
                    Ok(anchored_regex) => Ok(anchored_regex),
                    Err(()) => Err(ParseErrorKind::Custom(MapCssErrorKind::InvalidRegex)),
                },
                _ => Err(ParseErrorKind::Custom(MapCssErrorKind::RegexExpected)),
            },
            Err(_) => Err(ParseErrorKind::Custom(MapCssErrorKind::RegexExpected)),
        }
    }
}


/// The position after the delimiters `c1` and `c2`, if they come next
/// (blanks may stand between them).
pub open spec fn delim_pair_at(s: State, c1: char, c2: char) -> Option<int> {
    match delim_at(s, c1) {
        Some(p) => delim_at(s.at(p), c2),
        None => None,
    }
}

/// A test on key `k`, after the key: an operator and its operand, or nothing.
/// Longer operators are tried before their prefixes.
pub open spec fn parsed_test_after_key(k: Seq<char>, s: State) -> Result<(TestView, int), ParseErrorKind> {
    match delim_pair_at(s, '=', '~') {
        Some(p) => map_parsed(parsed_regex(s.at(p)), |v: Seq<char>| TestView::Matches(k, v)),
        None => match delim_pair_at(s, '<', '=') {
            Some(p) => map_parsed(
                parsed_tag_numeric_value(s.at(p)),
                |v: TagNumericValue| TestView::LessThanOrEqual(k, v),
            ),
            None => match delim_pair_at(s, '>', '=') {
                Some(p) => map_parsed(
                    parsed_tag_numeric_value(s.at(p)),
                    |v: TagNumericValue| TestView::GreaterThanOrEqual(k, v),
                ),
                None => match delim_pair_at(s, '!', '=') {
                    Some(p) => map_parsed(parsed_tag_value(s.at(p)), |v: TagValueView| TestView::NotEqual(k, v)),
                    None => match delim_at(s, '<') {
                        Some(p) => map_parsed(
                            parsed_tag_numeric_value(s.at(p)),
                            |v: TagNumericValue| TestView::LessThan(k, v),
                        ),
                        None => match delim_at(s, '>') {
                            Some(p) => map_parsed(
                                parsed_tag_numeric_value(s.at(p)),
                                |v: TagNumericValue| TestView::GreaterThan(k, v),
                            ),
                            None => match delim_at(s, '=') {
                                Some(p) => map_parsed(parsed_tag_value(s.at(p)), |v: TagValueView| TestView::Equal(k, v)),
                                None => if exhausted(s) {
                                    Ok((TestView::IsSet(k), s.pos))
                                } else {
                                    Err(custom(MapCssErrorKind::InvalidTokenInsideTest))
                                },
                            },
                        },
                    },
                },
            },
        },
    }
}

/// The contents of a test block: `!` and a key, or a key and what follows it.
pub open spec fn parsed_test_content(s: State) -> Result<(TestView, int), ParseErrorKind> {
    match delim_at(s, '!') {
        Some(p) => map_parsed(parsed_tag_key(s.at(p)), |k: Seq<char>| TestView::NotSet(k)),
        None => match parsed_tag_key(s) {
            Ok((k, p)) => parsed_test_after_key(k, s.at(p)),
            Err(_) => Err(custom(MapCssErrorKind::TagKeyOrExclamationExpected)),
        },
    }
}

/// A test: a square bracket block whose contents are read entirely.
pub open spec fn parsed_test(s: State) -> Result<(TestView, int), ParseErrorKind> {
    match next_index(s) {
        Some(p) => if s.input[p].token is SquareBracketBlock {
            match nested_entirely(parsed_test_content(State::start(s.input[p].block@)), s.input[p].block@) {
                Ok(t) => Ok((t, p + 1)),
                Err(e) => Err(e),
            }
        } else {
            Err(custom(MapCssErrorKind::TestBlockExpected))
        },
        None => Err(custom(MapCssErrorKind::TestBlockExpected)),
    }
}

/// Tests, one after another, until no test block comes next.
pub open spec fn parsed_tests(s: State) -> Result<(Seq<TestView>, int), ParseErrorKind>
    decreases s.input.len() - s.pos,
{
    match parsed_test(s) {
        Ok((t, p)) => if s.pos < p <= s.input.len() {
            prepend_parsed(seq![t], parsed_tests(s.at(p)))
        } else {
            Err(custom(MapCssErrorKind::TestBlockExpected))
        },
        Err(e) => if e == custom(MapCssErrorKind::TestBlockExpected) {
            Ok((Seq::empty(), s.pos))
        } else {
            Err(e)
        },
    }
}

/// What a basic selector stands for.
pub struct BasicSelectorView {
    pub object_type: ObjectType,
    pub tests: Seq<TestView>,
}

/// An object type and the tests that an object must pass.
pub open spec fn parsed_basic_selector(s: State) -> Result<(BasicSelectorView, int), ParseErrorKind> {
    match parsed_object_type(s) {
        Ok((t, p)) => match parsed_tests(s.at(p)) {
            Ok((ts, q)) => Ok((BasicSelectorView { object_type: t, tests: ts }, q)),
            Err(e) => Err(e),
        },
        Err(e) => Err(e),
    }
}

/// Basic selectors, one after another, until nothing is left.
pub open spec fn parsed_chain_rest(s: State) -> Result<(Seq<BasicSelectorView>, int), ParseErrorKind>
    decreases s.input.len() - s.pos,
{
    if exhausted(s) {
        Ok((Seq::empty(), s.pos))
    } else {
        match parsed_basic_selector(s) {
            Ok((b, p)) => if s.pos < p <= s.input.len() {
                prepend_parsed(seq![b], parsed_chain_rest(s.at(p)))
            } else {
                Err(custom(MapCssErrorKind::ObjectTypeExpected))
            },
            Err(e) => Err(e),
        }
    }
}

/// A chain of at least one basic selector: each one after the first picks
/// objects inside an object that the one before it picks.
pub open spec fn parsed_selector_chain(s: State) -> Result<(Seq<BasicSelectorView>, int), ParseErrorKind> {
    match parsed_basic_selector(s) {
        Ok((b, p)) => prepend_parsed(seq![b], parsed_chain_rest(s.at(p))),
        Err(e) => Err(e),
    }
}

/// Selector chains separated by commas, each read up to its comma.
pub open spec fn parsed_alternatives(s: State) -> Result<(Seq<Seq<BasicSelectorView>>, int), ParseErrorKind>
    decreases s.input.len() - s.pos,
{
    let inner = with_stop(s, true, false);
    match until_before(s, inner, parsed_selector_chain(inner)) {
        Ok((c, p)) => match next_index(s.at(p)) {
            Some(q) => if s.pos < q + 1 <= s.input.len() {
                prepend_parsed(seq![c], parsed_alternatives(s.at(q + 1)))
            } else {
                Ok((seq![c], skip_blank(s.input, p)))
            },
            None => Ok((seq![c], skip_blank(s.input, p))),
        },
        Err(e) => Err(e),
    }
}

pub proof fn lemma_parsed_object_type_advances(s: State)
    requires
        0 <= s.pos,
    ensures
        parsed_object_type(s) matches Ok((t, p)) ==> s.pos < p <= s.input.len(),
{
    lemma_next_index(s);
}

pub proof fn lemma_parsed_test_advances(s: State)
    requires
        0 <= s.pos,
    ensures
        parsed_test(s) matches Ok((t, p)) ==> s.pos < p <= s.input.len(),
{
    lemma_next_index(s);
}

pub proof fn lemma_parsed_tests_bounds(s: State)
    requires
        0 <= s.pos <= s.input.len(),
    ensures
        parsed_tests(s) matches Ok((ts, q)) ==> s.pos <= q <= s.input.len(),
    decreases s.input.len() - s.pos,
{
    lemma_parsed_test_advances(s);
    if let Ok((t, p)) = parsed_test(s) {
        lemma_parsed_tests_bounds(s.at(p));
    }
}

pub proof fn lemma_parsed_basic_selector_advances(s: State)
    requires
        0 <= s.pos,
    ensures
        parsed_basic_selector(s) matches Ok((b, q)) ==> s.pos < q <= s.input.len(),
{
    lemma_parsed_object_type_advances(s);
    if let Ok((t, p)) = parsed_object_type(s) {
        lemma_parsed_tests_bounds(s.at(p));
    }
}

pub proof fn lemma_parsed_chain_rest_bounds(s: State)
    requires
        0 <= s.pos <= s.input.len(),
    ensures
        parsed_chain_rest(s) matches Ok((bs, q)) ==> s.pos <= q <= s.input.len(),
    decreases s.input.len() - s.pos,
{
    lemma_parsed_basic_selector_advances(s);
    if !exhausted(s) {
        if let Ok((b, p)) = parsed_basic_selector(s) {
            lemma_parsed_chain_rest_bounds(s.at(p));
        }
    }
}

pub proof fn lemma_parsed_selector_chain_advances(s: State)
    requires
        0 <= s.pos,
    ensures
        parsed_selector_chain(s) matches Ok((c, q)) ==> s.pos < q <= s.input.len(),
{
    lemma_parsed_basic_selector_advances(s);
    if let Ok((b, p)) = parsed_basic_selector(s) {
        lemma_parsed_chain_rest_bounds(s.at(p));
    }
}

pub proof fn lemma_parsed_alternatives_bounds(s: State)
    requires
        0 <= s.pos <= s.input.len(),
    ensures
        parsed_alternatives(s) matches Ok((cs, q)) ==> s.pos < q <= s.input.len(),
    decreases s.input.len() - s.pos,
{
    let inner = with_stop(s, true, false);
    lemma_parsed_selector_chain_advances(inner);
    if let Ok((c, q0)) = parsed_selector_chain(inner) {
        lemma_next_index(s.at(q0));
        let p = skip_blank(s.input, q0);
        lemma_next_index(s.at(p));
        if let Some(q) = next_index(s.at(p)) {
            if s.pos < q + 1 <= s.input.len() {
                lemma_parsed_alternatives_bounds(s.at(q + 1));
            }
        }
    }
}

fn parse_equal_operator(input: &mut Parser) -> (r: Result<(), ()>)
    ensures
        final(input).same_input(old(input)),
        match delim_at(old(input).st(), '=') {
            Some(p) => r is Ok && final(input).position == p,
            None => r is Err,
        },
{
    expect_delim(input, '=')
}

fn parse_two_delims(input: &mut Parser, c1: char, c2: char) -> (r: Result<(), ()>)
    ensures
        final(input).same_input(old(input)),
        match delim_pair_at(old(input).st(), c1, c2) {
            Some(p) => r is Ok && final(input).position == p,
            None => r is Err,
        },
{
    match expect_delim(input, c1) {
        Ok(()) => expect_delim(input, c2),
        Err(()) => Err(()),
    }
}

fn parse_not_equal_operator(input: &mut Parser) -> (r: Result<(), ()>)
    ensures
        final(input).same_input(old(input)),
        match delim_pair_at(old(input).st(), '!', '=') {
            Some(p) => r is Ok && final(input).position == p,
            None => r is Err,
        },
{
    parse_two_delims(input, '!', '=')
}

fn parse_less_than_operator(input: &mut Parser) -> (r: Result<(), ()>)
    ensures
        final(input).same_input(old(input)),
        match delim_at(old(input).st(), '<') {
            Some(p) => r is Ok && final(input).position == p,
            None => r is Err,
        },
{
    expect_delim(input, '<')
}

fn parse_less_than_or_equal_operator(input: &mut Parser) -> (r: Result<(), ()>)
    ensures
        final(input).same_input(old(input)),
        match delim_pair_at(old(input).st(), '<', '=') {
            Some(p) => r is Ok && final(input).position == p,
            None => r is Err,
        },
{
    parse_two_delims(input, '<', '=')
}

fn parse_greater_than_operator(input: &mut Parser) -> (r: Result<(), ()>)
    ensures
        final(input).same_input(old(input)),
        match delim_at(old(input).st(), '>') {
            Some(p) => r is Ok && final(input).position == p,
            None => r is Err,
        },
{
    expect_delim(input, '>')
}

fn parse_greater_than_or_equal_operator(input: &mut Parser) -> (r: Result<(), ()>)
    ensures
        final(input).same_input(old(input)),
        match delim_pair_at(old(input).st(), '>', '=') {
            Some(p) => r is Ok && final(input).position == p,
            None => r is Err,
        },
{
    parse_two_delims(input, '>', '=')
}

fn parse_matches_operator(input: &mut Parser) -> (r: Result<(), ()>)
    ensures
        final(input).same_input(old(input)),
        match delim_pair_at(old(input).st(), '=', '~') {
            Some(p) => r is Ok && final(input).position == p,
            None => r is Err,
        },
{
    parse_two_delims(input, '=', '~')
}

/// Reads the contents of a test block.
fn parse_test_content(input: &mut Parser) -> (r: Result<Test, ParseErrorKind>)
    ensures
        final(input).same_input(old(input)),
        match parsed_test_content(old(input).st()) {
            Ok((t, p)) => r is Ok && r->Ok_0@ == t && final(input).position == p,
            Err(e) => r == Err::<Test, ParseErrorKind>(e),
        },
{
    let start = input.position;
    if let Ok(()) = expect_delim(input, '!') {
        return match TagKey::parse(input) {
            Ok(k) => Ok(Test::NotSet(k)),
            Err(e) => Err(e),
        };
    }
    input.position = start;
    let tag_key = match TagKey::parse(input) {
        Ok(k) => k,
        Err(_) => return Err(ParseErrorKind::Custom(MapCssErrorKind::TagKeyOrExclamationExpected)),
    };
    // Operators are tried before their prefixes: =~ before =, <= before <, and so on.
    let after_key = input.position;
    if let Ok(()) = parse_matches_operator(input) {
        return match TagRegex::parse(input) {
            Ok(tag_regex) => Ok(Test::Matches(tag_key, tag_regex)),
            Err(e) => Err(e),
        };
    }
    input.position = after_key;
    if let Ok(()) = parse_less_than_or_equal_operator(input) {
        return match TagNumericValue::parse(input) {
            Ok(value) => Ok(Test::LessThanOrEqual(tag_key, value)),
            Err(e) => Err(e),
        };
    }
    input.position = after_key;
    if let Ok(()) = parse_greater_than_or_equal_operator(input) {
        return match TagNumericValue::parse(input) {
            Ok(value) => Ok(Test::GreaterThanOrEqual(tag_key, value)),
            Err(e) => Err(e),
        };
    }
    input.position = after_key;
    if let Ok(()) = parse_not_equal_operator(input) {
        return match TagValue::parse(input) {
            Ok(value) => Ok(Test::NotEqual(tag_key, value)),
            Err(e) => Err(e),
        };
    }
    input.position = after_key;
    if let Ok(()) = parse_less_than_operator(input) {
        return match TagNumericValue::parse(input) {
            Ok(value) => Ok(Test::LessThan(tag_key, value)),
            Err(e) => Err(e),
        };
    }
    input.position = after_key;
    if let Ok(()) = parse_greater_than_operator(input) {
        return match TagNumericValue::parse(input) {
            Ok(value) => Ok(Test::GreaterThan(tag_key, value)),
            Err(e) => Err(e),
        };
    }
    input.position = after_key;
    if let Ok(()) = parse_equal_operator(input) {
        return match TagValue::parse(input) {
            Ok(value) => Ok(Test::Equal(tag_key, value)),
            Err(e) => Err(e),
        };
    }
    input.position = after_key;
    if input.is_exhausted() {
        Ok(Test::IsSet(tag_key))
    } else {
        Err(ParseErrorKind::Custom(MapCssErrorKind::InvalidTokenInsideTest))
    }
}

impl Test {
    pub fn parse(input: &mut Parser) -> (r: Result<Test, ParseErrorKind>)
        ensures
            final(input).same_input(old(input)),
            match parsed_test(old(input).st()) {
                Ok((t, p)) => r is Ok && r->Ok_0@ == t && final(input).position == p,
                Err(e) => r == Err::<Test, ParseErrorKind>(e),
            },
    {
        let comp = match input.next() {
            Ok(c) => c,
            Err(_) => return Err(ParseErrorKind::Custom(MapCssErrorKind::TestBlockExpected)),
        };
        match &comp.token {
            Token::SquareBracketBlock => {},
            _ => return Err(ParseErrorKind::Custom(MapCssErrorKind::TestBlockExpected)),
        }
        let mut nested = Parser::new(comp.block.as_slice());
        let test = match parse_test_content(&mut nested) {
            Ok(t) => t,
            Err(e) => return Err(e),
        };
        match nested.expect_exhausted() {
            Ok(()) => Ok(test),
            Err(e) => Err(e),
        }
    }
}

/// An object type and the tests that an object of that type must pass.
#[derive(Clone, Debug, PartialEq)]
pub struct BasicSelector {
    object_type: ObjectType,
    tests: Vec<Test>,
}

/// What the tests stand for, in order.
pub open spec fn tests_view(tests: Seq<Test>) -> Seq<TestView> {
    tests.map_values(|t: Test| t@)
}

impl View for BasicSelector {
    type V = BasicSelectorView;

    closed spec fn view(&self) -> BasicSelectorView {
        BasicSelectorView { object_type: self.object_type, tests: tests_view(self.tests@) }
    }
}

impl BasicSelector {
    pub fn new(object_type: ObjectType, tests: Vec<Test>) -> (r: Self)
        ensures
            r@ == (BasicSelectorView { object_type, tests: tests_view(tests@) }),
    {
        BasicSelector { object_type, tests }
    }

    pub fn object_type(&self) -> (r: ObjectType)
        ensures
            r == self@.object_type,
    {
        self.object_type
    }

    pub fn tests(&self) -> (r: &[Test])
        ensures
            tests_view(r@) == self@.tests,
    {
        self.tests.as_slice()
    }

    pub fn parse(input: &mut Parser) -> (r: Result<BasicSelector, ParseErrorKind>)
        ensures
            final(input).same_input(old(input)),
            match parsed_basic_selector(old(input).st()) {
                Ok((b, p)) => r is Ok && r->Ok_0@ == b && final(input).position == p,
                Err(e) => r == Err::<BasicSelector, ParseErrorKind>(e),
            },
    {
        let ghost s0 = input.st();
        let object_type = match ObjectType::parse(input) {
            Ok(t) => t,
            Err(e) => return Err(e),
        };
        proof {
            lemma_parsed_object_type_advances(s0);
        }
        let ghost s1 = input.st();
        let mut tests: Vec<Test> = Vec::new();
        loop
            invariant
                s0 == old(input).st(),
                input.input@ == s0.input,
                input.stop_before == s0.stop,
                input.position <= input.input@.len(),
                parsed_object_type(s0) == Ok::<(ObjectType, int), ParseErrorKind>((object_type, s1.pos)),
                s1 == s0.at(s1.pos),
                prepend_parsed(tests_view(tests@), parsed_tests(input.st())) == parsed_tests(s1),
            decreases input.input@.len() - input.position,
        {
            let ghost cur = input.st();
            let start = input.position;
            proof {
                lemma_parsed_test_advances(cur);
            }
            match Test::parse(input) {
                Ok(test) => {
                    let ghost tv = test@;
                    let ghost before = tests@;
                    tests.push(test);
                    proof {
                        assert(tests_view(tests@) =~= tests_view(before).push(tv));
                        let x = parsed_tests(input.st());
                        assert(input.st() == cur.at(input.position as int));
                        assert(parsed_tests(cur) == prepend_parsed(seq![tv], x));
                        match x {
                            Ok((vs, q)) => {
                                assert(tests_view(before) + (seq![tv] + vs) =~= tests_view(tests@) + vs);
                            },
                            Err(_) => {},
                        }
                    }
                },
                Err(e) => {
                    input.position = start;
                    match e {
                        ParseErrorKind::Custom(MapCssErrorKind::TestBlockExpected) => {
                            proof {
                                assert(input.st() == cur);
                                assert(parsed_tests(cur) == Ok::<(Seq<TestView>, int), ParseErrorKind>((Seq::empty(), cur.pos)));
                                assert(tests_view(tests@) + Seq::<TestView>::empty() =~= tests_view(tests@));
                            }
                            return Ok(BasicSelector::new(object_type, tests));
                        },
                        _ => {
                            return Err(e);
                        },
                    }
                },
            }
        }
    }
}


/// Basic selectors, each picking objects inside those that the one before picks.
#[derive(Clone, Debug, PartialEq)]
pub struct SelectorChain {
    chain: Vec<BasicSelector>,
}

/// What the basic selectors stand for, in order.
pub open spec fn chain_view(chain: Seq<BasicSelector>) -> Seq<BasicSelectorView> {
    chain.map_values(|b: BasicSelector| b@)
}

impl View for SelectorChain {
    type V = Seq<BasicSelectorView>;

    closed spec fn view(&self) -> Seq<BasicSelectorView> {
        chain_view(self.chain@)
    }
}

impl SelectorChain {
    pub fn new(chain: Vec<BasicSelector>) -> (r: Self)
        ensures
            r@ == chain_view(chain@),
    {
        SelectorChain { chain }
    }

    pub fn selectors(&self) -> (r: &[BasicSelector])
        ensures
            chain_view(r@) == self@,
    {
        self.chain.as_slice()
    }

    pub fn parse(input: &mut Parser) -> (r: Result<SelectorChain, ParseErrorKind>)
        ensures
            final(input).same_input(old(input)),
            match parsed_selector_chain(old(input).st()) {
                Ok((c, p)) => r is Ok && r->Ok_0@ == c && final(input).position == p,
                Err(e) => r == Err::<SelectorChain, ParseErrorKind>(e),
            },
    {
        let ghost s0 = input.st();
        proof {
            lemma_parsed_basic_selector_advances(s0);
        }
        let first_selector = match BasicSelector::parse(input) {
            Ok(b) => b,
            Err(e) => return Err(e),
        };
        let ghost s1 = input.st();
        let mut chain: Vec<BasicSelector> = Vec::new();
        chain.push(first_selector);
        proof {
            assert(chain_view(chain@) =~= seq![chain@[0]@]);
        }
        while !input.is_exhausted()
            invariant
                s0 == old(input).st(),
                input.input@ == s0.input,
                input.stop_before == s0.stop,
                input.position <= input.input@.len(),
                s1 == s0.at(s1.pos),
                chain@.len() >= 1,
                parsed_basic_selector(s0) == Ok::<(BasicSelectorView, int), ParseErrorKind>((chain@[0]@, s1.pos)),
                prepend_parsed(chain_view(chain@), parsed_chain_rest(input.st())) == prepend_parsed(
                    seq![chain@[0]@],
                    parsed_chain_rest(s1),
                ),
            decreases input.input@.len() - input.position,
        {
            let ghost cur = input.st();
            proof {
                lemma_parsed_basic_selector_advances(cur);
            }
            let selector = match BasicSelector::parse(input) {
                Ok(b) => b,
                Err(e) => {
                    proof {
                        assert(parsed_chain_rest(cur) == Err::<(Seq<BasicSelectorView>, int), ParseErrorKind>(e));
                    }
                    return Err(e);
                },
            };
            let ghost bv = selector@;
            let ghost before = chain@;
            chain.push(selector);
            proof {
                assert(chain@[0] == before[0]);
                assert(chain_view(chain@) =~= chain_view(before).push(bv));
                let x = parsed_chain_rest(input.st());
                assert(input.st() == cur.at(input.position as int));
                assert(parsed_chain_rest(cur) == prepend_parsed(seq![bv], x));
                match x {
                    Ok((vs, q)) => {
                        assert(chain_view(before) + (seq![bv] + vs) =~= chain_view(chain@) + vs);
                    },
                    Err(_) => {},
                }
            }
        }
        proof {
            assert(parsed_chain_rest(input.st()) == Ok::<(Seq<BasicSelectorView>, int), ParseErrorKind>((Seq::empty(), input.position as int)));
            assert(chain_view(chain@) + Seq::<BasicSelectorView>::empty() =~= chain_view(chain@));
        }
        Ok(SelectorChain::new(chain))
    }
}

/// Selector chains of which an object must match at least one.
#[derive(Clone, Debug, PartialEq)]
pub struct SelectorAlternatives {
    alternatives: Vec<SelectorChain>,
}

/// What the chains stand for, in order.
pub open spec fn alternatives_view(alternatives: Seq<SelectorChain>) -> Seq<Seq<BasicSelectorView>> {
    alternatives.map_values(|c: SelectorChain| c@)
}

impl View for SelectorAlternatives {
    type V = Seq<Seq<BasicSelectorView>>;

    closed spec fn view(&self) -> Seq<Seq<BasicSelectorView>> {
        alternatives_view(self.alternatives@)
    }
}

impl SelectorAlternatives {
    pub fn new(alternatives: Vec<SelectorChain>) -> (r: Self)
        ensures
            r@ == alternatives_view(alternatives@),
    {
        SelectorAlternatives { alternatives }
    }

    pub fn chains(&self) -> (r: &[SelectorChain])
        ensures
            alternatives_view(r@) == self@,
    {
        self.alternatives.as_slice()
    }

    /// Selector chains separated by commas.
    pub fn parse(input: &mut Parser) -> (r: Result<SelectorAlternatives, ParseErrorKind>)
        ensures
            final(input).same_input(old(input)),
            match parsed_alternatives(old(input).st()) {
                Ok((a, p)) => r is Ok && r->Ok_0@ == a && final(input).position == p,
                Err(e) => r == Err::<SelectorAlternatives, ParseErrorKind>(e),
            },
    {
        let ghost s0 = input.st();
        let mut values: Vec<SelectorChain> = Vec::new();
        proof {
            assert(alternatives_view(values@) =~= Seq::<Seq<BasicSelectorView>>::empty());
            assert(prepend_parsed(Seq::<Seq<BasicSelectorView>>::empty(), parsed_alternatives(s0)) == parsed_alternatives(s0)) by {
                match parsed_alternatives(s0) {
                    Ok((vs, q)) => {
                        assert(Seq::<Seq<BasicSelectorView>>::empty() + vs =~= vs);
                    },
                    Err(_) => {},
                }
            }
        }
        loop
            invariant
                s0 == old(input).st(),
                input.input@ == s0.input,
                input.stop_before == s0.stop,
                prepend_parsed(alternatives_view(values@), parsed_alternatives(input.st())) == parsed_alternatives(s0),
            decreases input.input@.len() - input.position,
        {
            let ghost cur = input.st();
            let mut inner = input.delimited(true, false);
            let ghost inner0 = inner.st();
            proof {
                lemma_parsed_selector_chain_advances(inner0);
            }
            let chain = match SelectorChain::parse(&mut inner) {
                Ok(c) => c,
                Err(e) => return Err(e),
            };
            proof {
                lemma_parsed_alternatives_bounds(cur);
            }
            match inner.expect_exhausted() {
                Ok(()) => {},
                Err(e) => return Err(e),
            }
            let ghost q0 = inner.position as int;
            input.position = inner.position;
            input.skip_whitespace();
            let ghost p = input.position as int;
            let ghost cv = chain@;
            let ghost before = values@;
            values.push(chain);
            proof {
                assert(alternatives_view(values@) =~= alternatives_view(before).push(cv));
                assert(until_before(cur, inner0, parsed_selector_chain(inner0)) == Ok::<(Seq<BasicSelectorView>, int), ParseErrorKind>((cv, p)));
                crate::css::lemma_next_index(cur.at(p));
            }
            let ghost at_p = input.st();
            match input.next() {
                Ok(_) => {
                    proof {
                        assert(at_p == cur.at(p));
                        let q = next_index(at_p)->Some_0;
                        assert(input.st() == cur.at(q + 1));
                        let x = parsed_alternatives(input.st());
                        assert(parsed_alternatives(cur) == prepend_parsed(seq![cv], x));
                        match x {
                            Ok((vs, r)) => {
                                assert(alternatives_view(before) + (seq![cv] + vs) =~= alternatives_view(values@) + vs);
                            },
                            Err(_) => {},
                        }
                    }
                },
                Err(_) => {
                    proof {
                        assert(at_p == cur.at(p));
                        assert(parsed_alternatives(cur) == Ok::<(Seq<Seq<BasicSelectorView>>, int), ParseErrorKind>((seq![cv], skip_blank(cur.input, p))));
                        assert(alternatives_view(before) + seq![cv] =~= alternatives_view(values@));
                    }
                    return Ok(SelectorAlternatives::new(values));
                },
            }
        }
    }
}

/// Whether an object type takes in the object under `key`: an area counts
/// as a way or a relation when it was made from one.
pub open spec fn object_type_matches(t: ObjectType, key: ObjectKey, v: StorageView) -> bool {
    match t {
        ObjectType::Node => key is Node,
        ObjectType::Way => match key {
            ObjectKey::Way(_) => true,
            ObjectKey::Area(a) => v.areas[a].source == AreaSource::Way,
            _ => false,
        },
        ObjectType::Relation => match key {
            ObjectKey::Relation(_) => true,
            ObjectKey::Area(a) => v.areas[a].source == AreaSource::Relation,
            _ => false,
        },
        ObjectType::Area => key is Area,
        ObjectType::Line => key is Way,
        ObjectType::Canvas => false,
        ObjectType::Any => true,
    }
}

/// Whether matching the object type looks the object up in the storage.
pub open spec fn object_type_reads_storage(t: ObjectType, key: ObjectKey) -> bool {
    (t is Way || t is Relation) && key is Area
}

/// The outcome of matching a basic selector: `None` where matching reaches
/// a test of a tag, which has no meaning yet, or looks up an absent object.
pub open spec fn basic_selector_outcome(b: BasicSelectorView, key: ObjectKey, v: StorageView) -> Option<bool> {
    if object_type_reads_storage(b.object_type, key) && !object_present(v, key) {
        None
    } else if !object_type_matches(b.object_type, key, v) {
        Some(false)
    } else if b.tests.len() > 0 {
        None
    } else {
        Some(true)
    }
}

/// The objects directly containing the object under `key`: its relations,
/// then the ways of a node or the areas that a way forms.
pub open spec fn parent_objects(v: StorageView, key: ObjectKey) -> Seq<ObjectKey> {
    let relations = containing_relations_of(v, key).map_values(|k: RelationKey| ObjectKey::Relation(k));
    match key {
        ObjectKey::Node(n) => relations + v.nodes[n].containing_ways.map_values(|w: WayKey| ObjectKey::Way(w)),
        ObjectKey::Way(w) => relations + v.ways[w].formed_areas.map_values(|a: AreaKey| ObjectKey::Area(a)),
        _ => relations,
    }
}

/// The outcome of matching `selector`, with the selectors `parents` before
/// it in a chain, against the object under `key`: the object must match
/// `selector`, and, where `parents` is not empty, some object directly
/// containing it must match the last of `parents` with the rest before it.
/// Candidates are tried in the order of `parent_objects`; `None` stands for
/// a failure that matching reaches before its answer is known.
pub open spec fn subchain_outcome(
    selector: BasicSelectorView,
    parents: Seq<BasicSelectorView>,
    key: ObjectKey,
    v: StorageView,
) -> Option<bool>
    decreases 2 * parents.len() + 1, 0int,
{
    match basic_selector_outcome(selector, key, v) {
        None => None,
        Some(false) => Some(false),
        Some(true) => if parents.len() == 0 {
            Some(true)
        } else if !object_present(v, key) {
            None
        } else {
            any_parent_outcome(parents.last(), parents.drop_last(), parent_objects(v, key), v)
        },
    }
}

/// The outcome of trying the candidates in order until one matches.
pub open spec fn any_parent_outcome(
    selector: BasicSelectorView,
    parents: Seq<BasicSelectorView>,
    candidates: Seq<ObjectKey>,
    v: StorageView,
) -> Option<bool>
    decreases 2 * parents.len() + 2, candidates.len(),
{
    if candidates.len() == 0 {
        Some(false)
    } else {
        match subchain_outcome(selector, parents, candidates[0], v) {
            None => None,
            Some(true) => Some(true),
            Some(false) => any_parent_outcome(selector, parents, candidates.drop_first(), v),
        }
    }
}

/// The outcome of matching a chain: its last selector against the object,
/// the ones before it against the objects containing it.
pub open spec fn chain_outcome(chain: Seq<BasicSelectorView>, key: ObjectKey, v: StorageView) -> Option<bool> {
    if chain.len() == 0 {
        Some(false)
    } else {
        subchain_outcome(chain.last(), chain.drop_last(), key, v)
    }
}

/// The outcome of trying the chains in order until one matches.
pub open spec fn alternatives_outcome(alternatives: Seq<Seq<BasicSelectorView>>, key: ObjectKey, v: StorageView) -> Option<bool>
    decreases alternatives.len(),
{
    if alternatives.len() == 0 {
        Some(false)
    } else {
        match chain_outcome(alternatives[0], key, v) {
            None => None,
            Some(true) => Some(true),
            Some(false) => alternatives_outcome(alternatives.drop_first(), key, v),
        }
    }
}

impl ObjectType {
    pub fn matches(&self, key: ObjectKey, storage: &Storage) -> (r: bool)
        requires
            storage.wf(),
            object_type_reads_storage(*self, key) ==> object_present(storage@, key),
        ensures
            r == object_type_matches(*self, key, storage@),
    {
        match (*self, key) {
            (ObjectType::Node, ObjectKey::Node(_)) => true,
            (ObjectType::Node, _) => false,
            (ObjectType::Way, ObjectKey::Way(_)) => true,
            (ObjectType::Way, ObjectKey::Area(area_key)) => match storage.area(area_key).source() {
                AreaSource::Way => true,
                _ => false,
            },
            (ObjectType::Way, _) => false,
            (ObjectType::Relation, ObjectKey::Relation(_)) => true,
            (ObjectType::Relation, ObjectKey::Area(area_key)) => match storage.area(area_key).source() {
                AreaSource::Relation => true,
                _ => false,
            },
            (ObjectType::Relation, _) => false,
            (ObjectType::Area, ObjectKey::Area(_)) => true,
            (ObjectType::Area, _) => false,
            (ObjectType::Line, ObjectKey::Way(_)) => true,
            (ObjectType::Line, _) => false,
            (ObjectType::Canvas, _) => false,
            (ObjectType::Any, _) => true,
        }
    }
}

impl BasicSelector {
    /// The object must be of the selector's type and pass all its tests.
    pub fn matches(&self, key: ObjectKey, storage: &Storage) -> (r: bool)
        requires
            storage.wf(),
            basic_selector_outcome(self@, key, storage@) is Some,
        ensures
            basic_selector_outcome(self@, key, storage@) == Some(r),
    {
        self.object_type.matches(key, storage) && self.tests.len() == 0
    }
}

/// The objects directly containing the object under `key`.
fn collect_parent_objects(key: ObjectKey, storage: &Storage) -> (r: Vec<ObjectKey>)
    requires
        storage.wf(),
        object_present(storage@, key),
    ensures
        r@ == parent_objects(storage@, key),
{
    let ghost v = storage@;
    let relations = Object::containing_relations(storage.object(key));
    let mut r: Vec<ObjectKey> = Vec::new();
    let mut i: usize = 0;
    let ghost rel_seq = containing_relations_of(v, key).map_values(|k: RelationKey| ObjectKey::Relation(k));
    while i < relations.len()
        invariant
            i <= relations@.len(),
            relations@ == containing_relations_of(v, key),
            rel_seq == containing_relations_of(v, key).map_values(|k: RelationKey| ObjectKey::Relation(k)),
            r@ == rel_seq.take(i as int),
        decreases relations@.len() - i,
    {
        r.push(ObjectKey::Relation(relations[i]));
        i = i + 1;
        proof {
            assert(r@ =~= rel_seq.take(i as int));
        }
    }
    proof {
        assert(r@ =~= rel_seq);
    }
    match key {
        ObjectKey::Node(node_key) => {
            let ways = storage.node(node_key).containing_ways();
            let ghost before = r@;
            let ghost way_seq = v.nodes[node_key].containing_ways.map_values(|w: WayKey| ObjectKey::Way(w));
            let mut j: usize = 0;
            while j < ways.len()
                invariant
                    j <= ways@.len(),
                    ways@ == v.nodes[node_key].containing_ways,
                    way_seq == v.nodes[node_key].containing_ways.map_values(|w: WayKey| ObjectKey::Way(w)),
                    r@ == before + way_seq.take(j as int),
                decreases ways@.len() - j,
            {
                r.push(ObjectKey::Way(ways[j]));
                j = j + 1;
                proof {
                    assert(r@ =~= before + way_seq.take(j as int));
                }
            }
            proof {
                assert(way_seq.take(j as int) =~= way_seq);
            }
        },
        ObjectKey::Way(way_key) => {
            let areas = storage.way(way_key).formed_areas();
            let ghost before = r@;
            let ghost area_seq = v.ways[way_key].formed_areas.map_values(|a: AreaKey| ObjectKey::Area(a));
            let mut j: usize = 0;
            while j < areas.len()
                invariant
                    j <= areas@.len(),
                    areas@ == v.ways[way_key].formed_areas,
                    area_seq == v.ways[way_key].formed_areas.map_values(|a: AreaKey| ObjectKey::Area(a)),
                    r@ == before + area_seq.take(j as int),
                decreases areas@.len() - j,
            {
                r.push(ObjectKey::Area(areas[j]));
                j = j + 1;
                proof {
                    assert(r@ =~= before + area_seq.take(j as int));
                }
            }
            proof {
                assert(area_seq.take(j as int) =~= area_seq);
            }
        },
        _ => {},
    }
    r
}

/// The objects directly containing a stored object are stored too.
proof fn lemma_parent_objects_present(v: StorageView, key: ObjectKey)
    requires
        consistent(v),
        object_present(v, key),
    ensures
        forall|i: int| 0 <= i < parent_objects(v, key).len() ==> object_present(v, #[trigger] parent_objects(v, key)[i]),
{
    let rels = containing_relations_of(v, key).map_values(|k: RelationKey| ObjectKey::Relation(k));
    assert forall|i: int| 0 <= i < rels.len() implies object_present(v, #[trigger] rels[i]) by {
        assert(containing_relations_of(v, key).contains(containing_relations_of(v, key)[i]));
    }
    match key {
        ObjectKey::Node(n) => {
            let ws = v.nodes[n].containing_ways.map_values(|w: WayKey| ObjectKey::Way(w));
            assert forall|i: int| 0 <= i < parent_objects(v, key).len() implies object_present(
                v,
                #[trigger] parent_objects(v, key)[i],
            ) by {
                if i >= rels.len() {
                    let j = i - rels.len();
                    assert(v.nodes[n].containing_ways.contains(v.nodes[n].containing_ways[j]));
                    assert(parent_objects(v, key)[i] == ws[j]);
                } else {
                    assert(parent_objects(v, key)[i] == rels[i]);
                }
            }
        },
        ObjectKey::Way(w) => {
            let as_ = v.ways[w].formed_areas.map_values(|a: AreaKey| ObjectKey::Area(a));
            assert forall|i: int| 0 <= i < parent_objects(v, key).len() implies object_present(
                v,
                #[trigger] parent_objects(v, key)[i],
            ) by {
                if i >= rels.len() {
                    let j = i - rels.len();
                    assert(v.ways[w].formed_areas.contains(v.ways[w].formed_areas[j]));
                    assert(parent_objects(v, key)[i] == as_[j]);
                } else {
                    assert(parent_objects(v, key)[i] == rels[i]);
                }
            }
        },
        _ => {},
    }
}

impl SelectorChain {
    /// Matches `selector` against the object and, where `parent_subchain`
    /// is not empty, its last selector against the objects directly
    /// containing it, with the rest of it before.
    fn selector_subchain_matches(
        selector: &BasicSelector,
        parent_subchain: &[BasicSelector],
        key: ObjectKey,
        storage: &Storage,
    ) -> (r: bool)
        requires
            storage.wf(),
            subchain_outcome(selector@, chain_view(parent_subchain@), key, storage@) is Some,
        ensures
            subchain_outcome(selector@, chain_view(parent_subchain@), key, storage@) == Some(r),
        decreases parent_subchain@.len(),
    {
        let ghost v = storage@;
        let ghost parents = chain_view(parent_subchain@);
        if !selector.matches(key, storage) {
            return false;
        }
        let n = parent_subchain.len();
        if n == 0 {
            return true;
        }
        let parent_selector = &parent_subchain[n - 1];
        let parent_rest = slice_prefix(parent_subchain, n - 1);
        proof {
            assert(parents.last() == parent_selector@);
            assert(parents.drop_last() =~= chain_view(parent_rest@));
            storage.lemma_wf_consistent();
            lemma_parent_objects_present(v, key);
        }
        let candidates = collect_parent_objects(key, storage);
        proof {
            assert(candidates@.skip(0) =~= candidates@);
            assert(subchain_outcome(selector@, parents, key, v) == any_parent_outcome(
                parent_selector@,
                chain_view(parent_rest@),
                candidates@,
                v,
            ));
        }
        let mut i: usize = 0;
        while i < candidates.len()
            invariant
                storage.wf(),
                storage@ == v,
                i <= candidates@.len(),
                candidates@ == parent_objects(v, key),
                parent_rest@.len() < parent_subchain@.len(),
                any_parent_outcome(parent_selector@, chain_view(parent_rest@), candidates@.skip(i as int), v)
                    == any_parent_outcome(parent_selector@, chain_view(parent_rest@), candidates@, v),
                any_parent_outcome(parent_selector@, chain_view(parent_rest@), candidates@, v) is Some,
                subchain_outcome(selector@, chain_view(parent_subchain@), key, v) == any_parent_outcome(
                    parent_selector@,
                    chain_view(parent_rest@),
                    candidates@,
                    v,
                ),
            decreases candidates@.len() - i,
        {
            let ghost rest_candidates = candidates@.skip(i as int);
            proof {
                assert(rest_candidates[0] == candidates@[i as int]);
                assert(rest_candidates.drop_first() =~= candidates@.skip(i + 1));
            }
            let found = Self::selector_subchain_matches(parent_selector, parent_rest, candidates[i], storage);
            if found {
                proof {
                    assert(rest_candidates.len() > 0);
                    assert(any_parent_outcome(parent_selector@, chain_view(parent_rest@), rest_candidates, v) == Some(true));
                }
                return true;
            }
            i = i + 1;
        }
        proof {
            assert(candidates@.skip(i as int) =~= Seq::<ObjectKey>::empty());
        }
        false
    }

    /// The chain's last selector must match the object, the selectors
    /// before it the objects that contain it, in order outwards.
    pub fn matches(&self, key: ObjectKey, storage: &Storage) -> (r: bool)
        requires
            storage.wf(),
            chain_outcome(self@, key, storage@) is Some,
        ensures
            chain_outcome(self@, key, storage@) == Some(r),
    {
        let n = self.chain.len();
        if n == 0 {
            return false;
        }
        let last_selector = &self.chain[n - 1];
        let parent_subchain = slice_prefix(self.chain.as_slice(), n - 1);
        proof {
            assert(self@.last() == last_selector@);
            assert(self@.drop_last() =~= chain_view(parent_subchain@));
        }
        Self::selector_subchain_matches(last_selector, parent_subchain, key, storage)
    }
}

/// The first `n` items of the slice.
fn slice_prefix<T>(s: &[T], n: usize) -> (r: &[T])
    requires
        n <= s@.len(),
    ensures
        r@ == s@.take(n as int),
{
    vstd::slice::slice_subrange(s, 0, n)
}

impl SelectorAlternatives {
    /// Some chain must match the object; the chains are tried in order.
    pub fn matches(&self, key: ObjectKey, storage: &Storage) -> (r: bool)
        requires
            storage.wf(),
            alternatives_outcome(self@, key, storage@) is Some,
        ensures
            alternatives_outcome(self@, key, storage@) == Some(r),
    {
        proof {
            assert(alternatives_view(self.alternatives@).skip(0) =~= self@);
        }
        let mut i: usize = 0;
        while i < self.alternatives.len()
            invariant
                storage.wf(),
                i <= self.alternatives@.len(),
                alternatives_outcome(alternatives_view(self.alternatives@).skip(i as int), key, storage@)
                    == alternatives_outcome(self@, key, storage@),
                alternatives_outcome(self@, key, storage@) is Some,
            decreases self.alternatives@.len() - i,
        {
            let ghost rest = alternatives_view(self.alternatives@).skip(i as int);
            proof {
                assert(rest[0] == self.alternatives@[i as int]@);
                assert(rest.drop_first() =~= alternatives_view(self.alternatives@).skip(i + 1));
            }
            if self.alternatives[i].matches(key, storage) {
                return true;
            }
            i = i + 1;
        }
        proof {
            assert(alternatives_view(self.alternatives@).skip(i as int) =~= Seq::<Seq<BasicSelectorView>>::empty());
        }
        false
    }
}

/// The anchored pattern starts with `^`, ends with `$` and holds the
/// pattern; a pattern with both anchors already stays as it is.
pub proof fn lemma_anchored(v: Seq<char>)
    ensures
        anchored(v).len() >= 2,
        anchored(v)[0] == '^',
        anchored(v)[anchored(v).len() - 1] == '$',
        v.len() >= 2 && v[0] == '^' && v[v.len() - 1] == '$' ==> anchored(v) == v,
{
    if v.len() >= 2 && v[0] == '^' && v[v.len() - 1] == '$' {
        assert(anchored(v) =~= v);
    }
}

/// A chain of one basic selector matches exactly what that selector matches.
pub proof fn lemma_single_selector_chain(b: BasicSelectorView, key: ObjectKey, v: StorageView)
    ensures
        chain_outcome(seq![b], key, v) == basic_selector_outcome(b, key, v),
{
    assert(seq![b].drop_last() =~= Seq::<BasicSelectorView>::empty());
}

/// Selector alternatives match an object exactly when one of the chains
/// does, where no chain before it fails; an empty list matches nothing.
pub proof fn lemma_alternatives_outcome(a: Seq<Seq<BasicSelectorView>>, key: ObjectKey, v: StorageView)
    ensures
        alternatives_outcome(a, key, v) == Some(true) ==> exists|i: int|
            0 <= i < a.len() && chain_outcome(#[trigger] a[i], key, v) == Some(true),
        (forall|i: int| 0 <= i < a.len() ==> chain_outcome(#[trigger] a[i], key, v) == Some(false))
            ==> alternatives_outcome(a, key, v) == Some(false),
    decreases a.len(),
{
    if a.len() > 0 {
        lemma_alternatives_outcome(a.drop_first(), key, v);
        if alternatives_outcome(a, key, v) == Some(true) && chain_outcome(a[0], key, v) != Some(true) {
            let i = choose|i: int| 0 <= i < a.drop_first().len() && chain_outcome(#[trigger] a.drop_first()[i], key, v) == Some(true);
            assert(a[i + 1] == a.drop_first()[i]);
        }
        if forall|i: int| 0 <= i < a.len() ==> chain_outcome(#[trigger] a[i], key, v) == Some(false) {
            assert forall|i: int| 0 <= i < a.drop_first().len() implies chain_outcome(#[trigger] a.drop_first()[i], key, v) == Some(false) by {
                assert(a.drop_first()[i] == a[i + 1]);
            }
        }
    }
}

/// Any object matches `*`; no object matches `canvas`.
pub proof fn lemma_any_and_canvas(key: ObjectKey, v: StorageView)
    ensures
        object_type_matches(ObjectType::Any, key, v),
        !object_type_matches(ObjectType::Canvas, key, v),
{
}

/// Trying candidates in turn: the first candidate that matches, with only
/// definite answers before it, makes the outcome a match, whichever
/// candidate it is; when no candidate matches, nothing does.
pub proof fn lemma_any_parent_outcome(
    selector: BasicSelectorView,
    parents: Seq<BasicSelectorView>,
    candidates: Seq<ObjectKey>,
    v: StorageView,
    i: int,
)
    ensures
        0 <= i < candidates.len() && subchain_outcome(selector, parents, candidates[i], v) == Some(true) && (forall|j: int|
            0 <= j < i ==> #[trigger] subchain_outcome(selector, parents, candidates[j], v) is Some) ==> any_parent_outcome(
            selector,
            parents,
            candidates,
            v,
        ) == Some(true),
        (forall|j: int| 0 <= j < candidates.len() ==> #[trigger] subchain_outcome(selector, parents, candidates[j], v) == Some(false))
            ==> any_parent_outcome(selector, parents, candidates, v) == Some(false),
    decreases candidates.len(),
{
    if candidates.len() > 0 {
        let rest = candidates.drop_first();
        lemma_any_parent_outcome(selector, parents, rest, v, i - 1);
        if 0 < i < candidates.len() && subchain_outcome(selector, parents, candidates[i], v) == Some(true) && (forall|j: int|
            0 <= j < i ==> #[trigger] subchain_outcome(selector, parents, candidates[j], v) is Some) {
            assert(rest[i - 1] == candidates[i]);
            assert forall|j: int| 0 <= j < i - 1 implies #[trigger] subchain_outcome(selector, parents, rest[j], v) is Some by {
                assert(rest[j] == candidates[j + 1]);
            }
            assert(subchain_outcome(selector, parents, candidates[0], v) is Some);
        }
        if forall|j: int| 0 <= j < candidates.len() ==> #[trigger] subchain_outcome(selector, parents, candidates[j], v) == Some(false) {
            assert forall|j: int| 0 <= j < rest.len() implies #[trigger] subchain_outcome(selector, parents, rest[j], v) == Some(false) by {
                assert(rest[j] == candidates[j + 1]);
            }
            assert(subchain_outcome(selector, parents, candidates[0], v) == Some(false));
        }
    }
}

/// With a selector without tests and stored candidates, trying them gives
/// whether any of them is of the selector's type.
proof fn lemma_any_parent_untested(selector: BasicSelectorView, candidates: Seq<ObjectKey>, v: StorageView)
    requires
        selector.tests.len() == 0,
        forall|i: int| 0 <= i < candidates.len() ==> object_present(v, #[trigger] candidates[i]),
    ensures
        any_parent_outcome(selector, Seq::empty(), candidates, v) == Some(
            exists|i: int| 0 <= i < candidates.len() && object_type_matches(selector.object_type, #[trigger] candidates[i], v),
        ),
    decreases candidates.len(),
{
    if candidates.len() > 0 {
        let rest = candidates.drop_first();
        assert forall|i: int| 0 <= i < rest.len() implies object_present(v, #[trigger] rest[i]) by {
            assert(rest[i] == candidates[i + 1]);
        }
        lemma_any_parent_untested(selector, rest, v);
        assert(object_present(v, candidates[0]));
        assert(basic_selector_outcome(selector, candidates[0], v) == Some(
            object_type_matches(selector.object_type, candidates[0], v),
        ));
        assert(subchain_outcome(selector, Seq::empty(), candidates[0], v) == Some(
            object_type_matches(selector.object_type, candidates[0], v),
        ));
        if object_type_matches(selector.object_type, candidates[0], v) {
            assert(object_type_matches(selector.object_type, candidates[0], v));
        } else {
            if exists|i: int| 0 <= i < candidates.len() && object_type_matches(selector.object_type, #[trigger] candidates[i], v) {
                let i = choose|i: int| 0 <= i < candidates.len() && object_type_matches(selector.object_type, #[trigger] candidates[i], v);
                assert(rest[i - 1] == candidates[i]);
            }
            if exists|i: int| 0 <= i < rest.len() && object_type_matches(selector.object_type, #[trigger] rest[i], v) {
                let i = choose|i: int| 0 <= i < rest.len() && object_type_matches(selector.object_type, #[trigger] rest[i], v);
                assert(rest[i] == candidates[i + 1]);
            }
        }
    }
}

/// A chain `p s` of two selectors without tests matches a stored object
/// exactly when the object is of the type of `s` and some object directly
/// containing it (any of its relations, the ways of a node or the areas a
/// way forms, not only the first of them) is of the type of `p`.
pub proof fn lemma_two_selector_chain(p: BasicSelectorView, s: BasicSelectorView, key: ObjectKey, v: StorageView)
    requires
        consistent(v),
        object_present(v, key),
        p.tests.len() == 0,
        s.tests.len() == 0,
    ensures
        chain_outcome(seq![p, s], key, v) == Some(
            object_type_matches(s.object_type, key, v) && exists|i: int|
                0 <= i < parent_objects(v, key).len() && object_type_matches(
                    p.object_type,
                    #[trigger] parent_objects(v, key)[i],
                    v,
                ),
        ),
{
    assert(seq![p, s].last() == s);
    assert(seq![p, s].drop_last() =~= seq![p]);
    assert(seq![p].last() == p);
    assert(seq![p].drop_last() =~= Seq::<BasicSelectorView>::empty());
    lemma_parent_objects_present(v, key);
    lemma_any_parent_untested(p, parent_objects(v, key), v);
}

/// Alternatives match an object when one of the chains matches it and the
/// chains before it give definite answers, whatever the chains after it give.
pub proof fn lemma_alternatives_first_match(a: Seq<Seq<BasicSelectorView>>, key: ObjectKey, v: StorageView, i: int)
    requires
        0 <= i < a.len(),
        chain_outcome(a[i], key, v) == Some(true),
        forall|j: int| 0 <= j < i ==> #[trigger] chain_outcome(a[j], key, v) is Some,
    ensures
        alternatives_outcome(a, key, v) == Some(true),
    decreases a.len(),
{
    if i > 0 && chain_outcome(a[0], key, v) != Some(true) {
        let rest = a.drop_first();
        assert(rest[i - 1] == a[i]);
        assert forall|j: int| 0 <= j < i - 1 implies #[trigger] chain_outcome(rest[j], key, v) is Some by {
            assert(rest[j] == a[j + 1]);
        }
        assert(chain_outcome(a[0], key, v) is Some);
        lemma_alternatives_first_match(rest, key, v, i - 1);
    }
}

/// An area counts as a way exactly when it was made from a way, and as a
/// relation exactly when it was made from a relation; so no area counts as
/// both, and an area of no stated source counts as neither. It is always
/// an area, and never a node or a line.
pub proof fn lemma_area_object_types(a: AreaKey, v: StorageView)
    ensures
        object_type_matches(ObjectType::Way, ObjectKey::Area(a), v) <==> v.areas[a].source == AreaSource::Way,
        object_type_matches(ObjectType::Relation, ObjectKey::Area(a), v) <==> v.areas[a].source == AreaSource::Relation,
        !(object_type_matches(ObjectType::Way, ObjectKey::Area(a), v) && object_type_matches(
            ObjectType::Relation,
            ObjectKey::Area(a),
            v,
        )),
        v.areas[a].source == AreaSource::Unspecified ==> !object_type_matches(ObjectType::Way, ObjectKey::Area(a), v)
            && !object_type_matches(ObjectType::Relation, ObjectKey::Area(a), v),
        object_type_matches(ObjectType::Area, ObjectKey::Area(a), v),
        !object_type_matches(ObjectType::Node, ObjectKey::Area(a), v),
        !object_type_matches(ObjectType::Line, ObjectKey::Area(a), v),
{
}

/// After a tag key, `=` compares the key with the operand that follows it:
/// a number (its integer where it has one, else the bit pattern of its
/// value), or else an identifier or string. A number is read as a number,
/// never refused and never taken as a string.
pub proof fn lemma_equal_test_operand(s: State, k: Seq<char>, a: int, b: int, c: int)
    requires
        next_index(s) == Some(a),
        s.input[a].token matches Token::Ident(n) && n@ == k,
        next_index(s.at(a + 1)) == Some(b),
        s.input[b].token == Token::Delim('='),
        next_index(s.at(b + 1)) == Some(c),
    ensures
        s.input[c].token matches Token::Number { int_value: Some(i), .. } ==> parsed_test_content(s) == Ok::<
            (TestView, int),
            ParseErrorKind,
        >((TestView::Equal(k, TagValueView::Numeric(TagNumericValue::Integer(i))), c + 1)),
        s.input[c].token matches Token::Number { int_value: None, value_bits, .. } ==> parsed_test_content(s) == Ok::<
            (TestView, int),
            ParseErrorKind,
        >((TestView::Equal(k, TagValueView::Numeric(TagNumericValue::Float(value_bits))), c + 1)),
        s.input[c].token matches Token::Ident(x) ==> parsed_test_content(s) == Ok::<(TestView, int), ParseErrorKind>(
            (TestView::Equal(k, TagValueView::String(x@)), c + 1),
        ),
        s.input[c].token matches Token::QuotedString(x) ==> parsed_test_content(s) == Ok::<(TestView, int), ParseErrorKind>(
            (TestView::Equal(k, TagValueView::String(x@)), c + 1),
        ),
{
    assert(s.at(a + 1).at(b + 1) == s.at(b + 1));
}

/// The number that a number token stands for as a tag value: its integer
/// where it has one, else the bit pattern of its value.
pub open spec fn number_token_value(t: Token) -> Option<TagNumericValue> {
    match t {
        Token::Number { int_value: Some(i), .. } => Some(TagNumericValue::Integer(i)),
        Token::Number { int_value: None, value_bits, .. } => Some(TagNumericValue::Float(value_bits)),
        _ => None,
    }
}

/// After a tag key, `<` or `>` alone compares the key with the number that
/// follows it.
pub proof fn lemma_strict_comparison_test(s: State, k: Seq<char>, a: int, b: int, c: int, op: char)
    requires
        next_index(s) == Some(a),
        s.input[a].token matches Token::Ident(n) && n@ == k,
        next_index(s.at(a + 1)) == Some(b),
        op == '<' || op == '>',
        s.input[b].token == Token::Delim(op),
        next_index(s.at(b + 1)) == Some(c),
        number_token_value(s.input[c].token) is Some,
    ensures
        op == '<' ==> parsed_test_content(s) == Ok::<(TestView, int), ParseErrorKind>(
            (TestView::LessThan(k, number_token_value(s.input[c].token)->Some_0), c + 1),
        ),
        op == '>' ==> parsed_test_content(s) == Ok::<(TestView, int), ParseErrorKind>(
            (TestView::GreaterThan(k, number_token_value(s.input[c].token)->Some_0), c + 1),
        ),
{
    assert(s.at(a + 1).at(b + 1) == s.at(b + 1));
}

/// After a tag key, `<=` or `>=` compares the key with the number that
/// follows it.
pub proof fn lemma_inclusive_comparison_test(s: State, k: Seq<char>, a: int, b: int, c: int, d: int, op: char)
    requires
        next_index(s) == Some(a),
        s.input[a].token matches Token::Ident(n) && n@ == k,
        next_index(s.at(a + 1)) == Some(b),
        op == '<' || op == '>',
        s.input[b].token == Token::Delim(op),
        next_index(s.at(b + 1)) == Some(c),
        s.input[c].token == Token::Delim('='),
        next_index(s.at(c + 1)) == Some(d),
        number_token_value(s.input[d].token) is Some,
    ensures
        op == '<' ==> parsed_test_content(s) == Ok::<(TestView, int), ParseErrorKind>(
            (TestView::LessThanOrEqual(k, number_token_value(s.input[d].token)->Some_0), d + 1),
        ),
        op == '>' ==> parsed_test_content(s) == Ok::<(TestView, int), ParseErrorKind>(
            (TestView::GreaterThanOrEqual(k, number_token_value(s.input[d].token)->Some_0), d + 1),
        ),
{
    assert(s.at(a + 1).at(b + 1) == s.at(b + 1));
    assert(s.at(a + 1).at(b + 1).at(c + 1) == s.at(c + 1));
}

/// After a tag key, `!=` compares the key with the operand that follows it:
/// a number as a number, else an identifier or string.
pub proof fn lemma_not_equal_test(s: State, k: Seq<char>, a: int, b: int, c: int, d: int)
    requires
        next_index(s) == Some(a),
        s.input[a].token matches Token::Ident(n) && n@ == k,
        next_index(s.at(a + 1)) == Some(b),
        s.input[b].token == Token::Delim('!'),
        next_index(s.at(b + 1)) == Some(c),
        s.input[c].token == Token::Delim('='),
        next_index(s.at(c + 1)) == Some(d),
    ensures
        number_token_value(s.input[d].token) matches Some(x) ==> parsed_test_content(s) == Ok::<
            (TestView, int),
            ParseErrorKind,
        >((TestView::NotEqual(k, TagValueView::Numeric(x)), d + 1)),
        s.input[d].token matches Token::Ident(x) ==> parsed_test_content(s) == Ok::<(TestView, int), ParseErrorKind>(
            (TestView::NotEqual(k, TagValueView::String(x@)), d + 1),
        ),
        s.input[d].token matches Token::QuotedString(x) ==> parsed_test_content(s) == Ok::<(TestView, int), ParseErrorKind>(
            (TestView::NotEqual(k, TagValueView::String(x@)), d + 1),
        ),
{
    assert(s.at(a + 1).at(b + 1) == s.at(b + 1));
    assert(s.at(a + 1).at(b + 1).at(c + 1) == s.at(c + 1));
}

/// `!` and a key test that the tag is not set; a key alone, that it is.
pub proof fn lemma_set_tests(s: State, k: Seq<char>, a: int, b: int)
    ensures
        next_index(s) == Some(a) && s.input[a].token == Token::Delim('!') && next_index(s.at(a + 1)) == Some(b)
            && (s.input[b].token matches Token::Ident(n) && n@ == k) ==> parsed_test_content(s) == Ok::<
            (TestView, int),
            ParseErrorKind,
        >((TestView::NotSet(k), b + 1)),
        next_index(s) == Some(a) && (s.input[a].token matches Token::Ident(n) && n@ == k) && exhausted(s.at(a + 1))
            ==> parsed_test_content(s) == Ok::<(TestView, int), ParseErrorKind>((TestView::IsSet(k), a + 1)),
{
}

/// Each object type takes in exactly: nodes (`node`), ways and areas made
/// from ways (`way`), relations and areas made from relations
/// (`relation`), areas (`area`), ways (`line`), everything (`*`) and
/// nothing (`canvas`).
pub proof fn lemma_object_types(key: ObjectKey, v: StorageView)
    ensures
        object_type_matches(ObjectType::Node, key, v) <==> key is Node,
        object_type_matches(ObjectType::Way, key, v) <==> (key is Way || (key matches ObjectKey::Area(a)
            && v.areas[a].source == AreaSource::Way)),
        object_type_matches(ObjectType::Relation, key, v) <==> (key is Relation || (key matches ObjectKey::Area(a)
            && v.areas[a].source == AreaSource::Relation)),
        object_type_matches(ObjectType::Area, key, v) <==> key is Area,
        object_type_matches(ObjectType::Line, key, v) <==> key is Way,
        object_type_matches(ObjectType::Any, key, v),
        !object_type_matches(ObjectType::Canvas, key, v),
{
}

/// Whether an object directly containing the object under `key` is of type `t`.
pub open spec fn some_parent_of_type(t: ObjectType, key: ObjectKey, v: StorageView) -> bool {
    exists|i: int| 0 <= i < parent_objects(v, key).len() && object_type_matches(t, #[trigger] parent_objects(v, key)[i], v)
}

/// With selectors `a b` without tests and stored candidates, trying the
/// candidates against `b` with `a` before it gives whether one of them is of
/// the type of `b` and directly contained in an object of the type of `a`.
proof fn lemma_any_parent_untested_pair(
    a: BasicSelectorView,
    b: BasicSelectorView,
    candidates: Seq<ObjectKey>,
    v: StorageView,
)
    requires
        consistent(v),
        a.tests.len() == 0,
        b.tests.len() == 0,
        forall|i: int| 0 <= i < candidates.len() ==> object_present(v, #[trigger] candidates[i]),
    ensures
        any_parent_outcome(b, seq![a], candidates, v) == Some(
            exists|i: int|
                0 <= i < candidates.len() && object_type_matches(b.object_type, #[trigger] candidates[i], v)
                    && some_parent_of_type(a.object_type, candidates[i], v),
        ),
    decreases candidates.len(),
{
    if candidates.len() > 0 {
        let rest = candidates.drop_first();
        let c0 = candidates[0];
        assert forall|i: int| 0 <= i < rest.len() implies object_present(v, #[trigger] rest[i]) by {
            assert(rest[i] == candidates[i + 1]);
        }
        lemma_any_parent_untested_pair(a, b, rest, v);
        assert(object_present(v, c0));
        lemma_parent_objects_present(v, c0);
        lemma_any_parent_untested(a, parent_objects(v, c0), v);
        assert(seq![a].last() == a);
        assert(seq![a].drop_last() =~= Seq::<BasicSelectorView>::empty());
        let here = object_type_matches(b.object_type, c0, v) && some_parent_of_type(a.object_type, c0, v);
        assert(subchain_outcome(b, seq![a], c0, v) == Some(here));
        if !here {
            if exists|i: int|
                0 <= i < candidates.len() && object_type_matches(b.object_type, #[trigger] candidates[i], v)
                    && some_parent_of_type(a.object_type, candidates[i], v) {
                let i = choose|i: int|
                    0 <= i < candidates.len() && object_type_matches(b.object_type, #[trigger] candidates[i], v)
                        && some_parent_of_type(a.object_type, candidates[i], v);
                assert(rest[i - 1] == candidates[i]);
            }
            if exists|i: int|
                0 <= i < rest.len() && object_type_matches(b.object_type, #[trigger] rest[i], v)
                    && some_parent_of_type(a.object_type, rest[i], v) {
                let i = choose|i: int|
                    0 <= i < rest.len() && object_type_matches(b.object_type, #[trigger] rest[i], v)
                        && some_parent_of_type(a.object_type, rest[i], v);
                assert(rest[i] == candidates[i + 1]);
            }
        }
    }
}

/// A chain `a b c` of three selectors without tests matches a stored object
/// exactly when the object is of the type of `c`, and some object directly
/// containing it is of the type of `b` and is itself directly contained in
/// an object of the type of `a`.
pub proof fn lemma_three_selector_chain(
    a: BasicSelectorView,
    b: BasicSelectorView,
    c: BasicSelectorView,
    key: ObjectKey,
    v: StorageView,
)
    requires
        consistent(v),
        object_present(v, key),
        a.tests.len() == 0,
        b.tests.len() == 0,
        c.tests.len() == 0,
    ensures
        chain_outcome(seq![a, b, c], key, v) == Some(
            object_type_matches(c.object_type, key, v) && exists|i: int|
                0 <= i < parent_objects(v, key).len() && object_type_matches(
                    b.object_type,
                    #[trigger] parent_objects(v, key)[i],
                    v,
                ) && some_parent_of_type(a.object_type, parent_objects(v, key)[i], v),
        ),
{
    assert(seq![a, b, c].last() == c);
    assert(seq![a, b, c].drop_last() =~= seq![a, b]);
    assert(seq![a, b].last() == b);
    assert(seq![a, b].drop_last() =~= seq![a]);
    lemma_parent_objects_present(v, key);
    lemma_any_parent_untested_pair(a, b, parent_objects(v, key), v);
}
} // verus!
