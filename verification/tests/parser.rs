use std::fmt::Debug;

use cssparser::Token as CssToken;

use mapcss::css::{BasicParseErrorKind, Component, ParseErrorKind, Parser, Token};
use mapcss::error::MapCssErrorKind;
use mapcss::selector::{
    BasicSelector, ObjectType, SelectorAlternatives, SelectorChain, TagKey, TagNumericValue, TagRegex,
    TagStringValue, TagValue, Test,
};
use mapcss::stylesheet::{
    parse_color, parse_comma_separated_integer_list, parse_rgb_function_content, parse_rgba_function_content,
    Declaration, PropertyValue, Rule, Stylesheet,
};

fn convert_token(token: &CssToken) -> Token {
    match token {
        CssToken::Ident(s) => Token::Ident(s.to_string()),
        CssToken::AtKeyword(s) => Token::AtKeyword(s.to_string()),
        CssToken::Hash(s) => Token::Hash(s.to_string()),
        CssToken::IDHash(s) => Token::IDHash(s.to_string()),
        CssToken::QuotedString(s) => Token::QuotedString(s.to_string()),
        CssToken::UnquotedUrl(s) => Token::UnquotedUrl(s.to_string()),
        CssToken::Delim(c) => Token::Delim(*c),
        CssToken::Number { has_sign, value, int_value } => Token::Number {
            has_sign: *has_sign,
            value_bits: value.to_bits(),
            int_value: *int_value,
            unit_byte: cssparser::color::clamp_unit_f32(*value),
        },
        CssToken::Percentage { has_sign, unit_value, int_value } => Token::Percentage {
            has_sign: *has_sign,
            unit_value_bits: unit_value.to_bits(),
            int_value: *int_value,
        },
        CssToken::Dimension { has_sign, value, int_value, unit } => Token::Dimension {
            has_sign: *has_sign,
            value_bits: value.to_bits(),
            int_value: *int_value,
            unit: unit.to_string(),
        },
        CssToken::WhiteSpace(s) => Token::WhiteSpace(s.to_string()),
        CssToken::Comment(s) => Token::Comment(s.to_string()),
        CssToken::Colon => Token::Colon,
        CssToken::Semicolon => Token::Semicolon,
        CssToken::Comma => Token::Comma,
        CssToken::IncludeMatch => Token::IncludeMatch,
        CssToken::DashMatch => Token::DashMatch,
        CssToken::PrefixMatch => Token::PrefixMatch,
        CssToken::SuffixMatch => Token::SuffixMatch,
        CssToken::SubstringMatch => Token::SubstringMatch,
        CssToken::CDO => Token::CDO,
        CssToken::CDC => Token::CDC,
        CssToken::Function(s) => Token::Function(s.to_string()),
        CssToken::ParenthesisBlock => Token::ParenthesisBlock,
        CssToken::SquareBracketBlock => Token::SquareBracketBlock,
        CssToken::CurlyBracketBlock => Token::CurlyBracketBlock,
        CssToken::BadUrl(s) => Token::BadUrl(s.to_string()),
        CssToken::BadString(s) => Token::BadString(s.to_string()),
        CssToken::CloseParenthesis => Token::CloseParenthesis,
        CssToken::CloseSquareBracket => Token::CloseSquareBracket,
        CssToken::CloseCurlyBracket => Token::CloseCurlyBracket,
    }
}

fn opens_block(token: &cssparser::Token) -> bool {
    matches!(
        token,
        cssparser::Token::Function(_)
            | cssparser::Token::ParenthesisBlock
            | cssparser::Token::SquareBracketBlock
            | cssparser::Token::CurlyBracketBlock
    )
}

/// The components that the parser yields, with the byte offset of each.
fn collect(parser: &mut cssparser::Parser) -> (Vec<Component>, Vec<usize>) {
    let mut components = Vec::new();
    let mut offsets = Vec::new();
    loop {
        let start = parser.position().byte_index();
        let token = match parser.next_including_whitespace_and_comments() {
            Ok(token) => token.clone(),
            Err(_) => break,
        };
        let block = if opens_block(&token) {
            parser
                .parse_nested_block(|nested| Ok::<_, cssparser::ParseError<()>>(collect(nested).0))
                .unwrap_or_default()
        } else {
            Vec::new()
        };
        components.push(Component { token: convert_token(&token), block });
        offsets.push(start);
    }
    (components, offsets)
}

fn tokenize(input: &str) -> (Vec<Component>, Vec<usize>) {
    let mut parser = cssparser::Parser::new(input);
    let (components, mut offsets) = collect(&mut parser);
    offsets.push(input.len());
    (components, offsets)
}

#[derive(Debug, PartialEq)]
enum ParseAllError {
    ParseError(ParseErrorKind),
    RemainingInput(String),
}

fn parse_all<T, F>(parser_function: F, input: &str) -> Result<T, ParseAllError>
where
    F: FnOnce(&mut Parser) -> Result<T, ParseErrorKind>,
{
    let (components, offsets) = tokenize(input);
    let mut parser = Parser::new(&components);
    let result = parser_function(&mut parser).map_err(ParseAllError::ParseError)?;
    match parser.expect_exhausted() {
        Ok(()) => Ok(result),
        Err(_) => Err(ParseAllError::RemainingInput(input[offsets[parser.position]..].to_string())),
    }
}

fn parse_all_and_expect<T, F>(parser_function: F, input: &str, expected_result: T)
where
    F: FnOnce(&mut Parser) -> Result<T, ParseErrorKind>,
    T: Debug + PartialEq,
{
    assert_eq!(parse_all(parser_function, input), Ok(expected_result));
}

fn parse_all_and_expect_error<T, F>(parser_function: F, input: &str, expected_error_kind: MapCssErrorKind)
where
    F: FnOnce(&mut Parser) -> Result<T, ParseErrorKind>,
    T: Debug + PartialEq,
{
    let result = parse_all(parser_function, input);
    assert!(
        matches!(&result, Err(ParseAllError::ParseError(ParseErrorKind::Custom(k))) if *k == expected_error_kind),
        "{:?} instead of {:?}",
        result,
        expected_error_kind
    );
}

fn parse_all_and_expect_basic_error<T, F>(parser_function: F, input: &str, expected_error_kind: BasicParseErrorKind)
where
    F: FnOnce(&mut Parser) -> Result<T, ParseErrorKind>,
    T: Debug + PartialEq,
{
    assert_eq!(
        parse_all(parser_function, input),
        Err(ParseAllError::ParseError(ParseErrorKind::Basic(expected_error_kind)))
    );
}

fn parse_all_and_expect_remaining<T, F>(parser_function: F, input: &str, expected_remaining_input: &str)
where
    F: FnOnce(&mut Parser) -> Result<T, ParseErrorKind>,
    T: Debug + PartialEq,
{
    assert_eq!(
        parse_all(parser_function, input),
        Err(ParseAllError::RemainingInput(expected_remaining_input.to_string()))
    );
}

fn tag_regex(pattern: &str) -> TagRegex {
    TagRegex::from_pattern(pattern).unwrap()
}

fn float(value: f32) -> u32 {
    value.to_bits()
}

#[test]
fn object_type_parsing() {
    parse_all_and_expect(ObjectType::parse, "node", ObjectType::Node);
    parse_all_and_expect(ObjectType::parse, "Way", ObjectType::Way);
    parse_all_and_expect(ObjectType::parse, "RELATION", ObjectType::Relation);
    parse_all_and_expect(ObjectType::parse, "aReA", ObjectType::Area);
    parse_all_and_expect(ObjectType::parse, "line", ObjectType::Line);
    parse_all_and_expect(ObjectType::parse, "canvas", ObjectType::Canvas);
    parse_all_and_expect(ObjectType::parse, "*", ObjectType::Any);
    parse_all_and_expect_error(ObjectType::parse, "something", MapCssErrorKind::ObjectTypeExpected);
    parse_all_and_expect_error(ObjectType::parse, "", MapCssErrorKind::ObjectTypeExpected);
}

#[test]
fn tag_key_parsing() {
    parse_all_and_expect(TagKey::parse, "\"some key\"", TagKey("some key".into()));
    parse_all_and_expect(TagKey::parse, "\"123 + :#?\"", TagKey("123 + :#?".into()));
    parse_all_and_expect(TagKey::parse, "some_value", TagKey("some_value".into()));
    parse_all_and_expect_remaining(TagKey::parse, "key=value", "=value");
    parse_all_and_expect_error(TagKey::parse, "123", MapCssErrorKind::TagKeyExpected);
}

#[test]
fn tag_value_parsing() {
    parse_all_and_expect(
        TagValue::parse,
        "\"some value\"",
        TagValue::String(TagStringValue("some value".into())),
    );
    parse_all_and_expect(TagValue::parse, "some_value", TagValue::String(TagStringValue("some_value".into())));
    parse_all_and_expect_remaining(TagValue::parse, "some value", " value");
    parse_all_and_expect(TagValue::parse, "12.3", TagValue::Numeric(TagNumericValue::Float(float(12.3))));
    parse_all_and_expect(TagValue::parse, "8765", TagValue::Numeric(TagNumericValue::Integer(8765)));
    parse_all_and_expect_error(TagValue::parse, "123a", MapCssErrorKind::TagValueExpected);
}

#[test]
fn regex_parsing() {
    parse_all_and_expect(
        TagRegex::parse,
        "\"\\\\d{4}-\\\\d{2}-\\\\d{2}\"", // Double escaping: one for Rust, one for MapCSS
        tag_regex("^\\d{4}-\\d{2}-\\d{2}$"),
    );
    parse_all_and_expect_error(TagRegex::parse, "/abc/", MapCssErrorKind::RegexExpected);
    parse_all_and_expect_error(TagRegex::parse, "abc", MapCssErrorKind::RegexExpected);
    parse_all_and_expect_error(TagRegex::parse, "\"(\"", MapCssErrorKind::InvalidRegex);
}

#[test]
fn test_parsing() {
    parse_all_and_expect(
        Test::parse,
        "[key=value]",
        Test::Equal(TagKey("key".into()), TagValue::String(TagStringValue("value".into()))),
    );
    parse_all_and_expect(
        Test::parse,
        "[\"key\"!=\"value\"]",
        Test::NotEqual(TagKey("key".into()), TagValue::String(TagStringValue("value".into()))),
    );
    parse_all_and_expect(
        Test::parse,
        "[ \"key\" < 3 ]",
        Test::LessThan(TagKey("key".into()), TagNumericValue::Integer(3)),
    );
    parse_all_and_expect(
        Test::parse,
        "[\"#key 123?\"<=2.7]",
        Test::LessThanOrEqual(TagKey("#key 123?".into()), TagNumericValue::Float(float(2.7))),
    );
    parse_all_and_expect(
        Test::parse,
        "[_key > -15]",
        Test::GreaterThan(TagKey("_key".into()), TagNumericValue::Integer(-15)),
    );
    parse_all_and_expect(
        Test::parse,
        "[KEY2 >= 4e-9]",
        Test::GreaterThanOrEqual(TagKey("KEY2".into()), TagNumericValue::Float(float(4e-9))),
    );
    parse_all_and_expect(
        Test::parse,
        "[key =~ \"a+bc*\"]",
        Test::Matches(TagKey("key".into()), tag_regex("^a+bc*$")),
    );
    parse_all_and_expect(Test::parse, "[key]", Test::IsSet(TagKey("key".into())));
    parse_all_and_expect(Test::parse, "[\"key\"]", Test::IsSet(TagKey("key".into())));
    parse_all_and_expect(Test::parse, "[!key]", Test::NotSet(TagKey("key".into())));
    parse_all_and_expect_error(Test::parse, "something", MapCssErrorKind::TestBlockExpected);
    parse_all_and_expect_error(Test::parse, "[]", MapCssErrorKind::TagKeyOrExclamationExpected);
    parse_all_and_expect_error(Test::parse, "[key > value]", MapCssErrorKind::TagNumericValueExpected);
    parse_all_and_expect_error(Test::parse, "[key=]", MapCssErrorKind::TagValueExpected);
    parse_all_and_expect_basic_error(
        Test::parse,
        "[!key=value]",
        BasicParseErrorKind::UnexpectedToken(Token::Delim('=')),
    );
    parse_all_and_expect_error(Test::parse, "[!=7]", MapCssErrorKind::TagKeyExpected);
    parse_all_and_expect_error(Test::parse, "[a==3]", MapCssErrorKind::TagValueExpected);
    parse_all_and_expect_error(Test::parse, "[a~=3]", MapCssErrorKind::InvalidTokenInsideTest);
    parse_all_and_expect_basic_error(
        Test::parse,
        "[key=value something]",
        BasicParseErrorKind::UnexpectedToken(Token::Ident("something".into())),
    );
}

#[test]
fn basic_selector_parsing() {
    parse_all_and_expect(BasicSelector::parse, "node", BasicSelector::new(ObjectType::Node, vec![]));
    parse_all_and_expect(
        BasicSelector::parse,
        "node [key=value]",
        BasicSelector::new(
            ObjectType::Node,
            vec![Test::Equal(TagKey("key".into()), TagValue::String(TagStringValue("value".into())))],
        ),
    );
    parse_all_and_expect(
        BasicSelector::parse,
        "*[key=value]",
        BasicSelector::new(
            ObjectType::Any,
            vec![Test::Equal(TagKey("key".into()), TagValue::String(TagStringValue("value".into())))],
        ),
    );
    parse_all_and_expect(
        BasicSelector::parse,
        "node[k1][k2][k3]",
        BasicSelector::new(
            ObjectType::Node,
            vec![
                Test::IsSet(TagKey("k1".into())),
                Test::IsSet(TagKey("k2".into())),
                Test::IsSet(TagKey("k3".into())),
            ],
        ),
    );
    parse_all_and_expect_error(BasicSelector::parse, "[k1]", MapCssErrorKind::ObjectTypeExpected);
    parse_all_and_expect_error(
        BasicSelector::parse,
        "node[something < invalid]",
        MapCssErrorKind::TagNumericValueExpected,
    );
    parse_all_and_expect_remaining(BasicSelector::parse, "way node", " node");
    parse_all_and_expect_remaining(BasicSelector::parse, "relation [tag] way [tag]", " way [tag]");
    parse_all_and_expect_remaining(BasicSelector::parse, "area[k=v] {}", " {}");
}

#[test]
fn selector_chain_parsing() {
    parse_all_and_expect(
        SelectorChain::parse,
        "node",
        SelectorChain::new(vec![BasicSelector::new(ObjectType::Node, vec![])]),
    );
    parse_all_and_expect(
        SelectorChain::parse,
        "way node [tag]",
        SelectorChain::new(vec![
            BasicSelector::new(ObjectType::Way, vec![]),
            BasicSelector::new(ObjectType::Node, vec![Test::IsSet(TagKey("tag".into()))]),
        ]),
    );
    parse_all_and_expect(
        SelectorChain::parse,
        "relation[k1]way[k2][k3]node[k4]",
        SelectorChain::new(vec![
            BasicSelector::new(ObjectType::Relation, vec![Test::IsSet(TagKey("k1".into()))]),
            BasicSelector::new(
                ObjectType::Way,
                vec![Test::IsSet(TagKey("k2".into())), Test::IsSet(TagKey("k3".into()))],
            ),
            BasicSelector::new(ObjectType::Node, vec![Test::IsSet(TagKey("k4".into()))]),
        ]),
    );
    parse_all_and_expect(
        SelectorChain::parse,
        "*[k1]*",
        SelectorChain::new(vec![
            BasicSelector::new(ObjectType::Any, vec![Test::IsSet(TagKey("k1".into()))]),
            BasicSelector::new(ObjectType::Any, vec![]),
        ]),
    );
    parse_all_and_expect_error(SelectorChain::parse, "node something", MapCssErrorKind::ObjectTypeExpected);
}

#[test]
fn selector_alternatives_parsing() {
    parse_all_and_expect(
        SelectorAlternatives::parse,
        "node",
        SelectorAlternatives::new(vec![SelectorChain::new(vec![BasicSelector::new(ObjectType::Node, vec![])])]),
    );
    parse_all_and_expect(
        SelectorAlternatives::parse,
        "node, way",
        SelectorAlternatives::new(vec![
            SelectorChain::new(vec![BasicSelector::new(ObjectType::Node, vec![])]),
            SelectorChain::new(vec![BasicSelector::new(ObjectType::Way, vec![])]),
        ]),
    );
    parse_all_and_expect(
        SelectorAlternatives::parse,
        "way[k1] node, way[k2], node",
        SelectorAlternatives::new(vec![
            SelectorChain::new(vec![
                BasicSelector::new(ObjectType::Way, vec![Test::IsSet(TagKey("k1".into()))]),
                BasicSelector::new(ObjectType::Node, vec![]),
            ]),
            SelectorChain::new(vec![BasicSelector::new(ObjectType::Way, vec![Test::IsSet(TagKey("k2".into()))])]),
            SelectorChain::new(vec![BasicSelector::new(ObjectType::Node, vec![])]),
        ]),
    );
    parse_all_and_expect_error(SelectorAlternatives::parse, "something", MapCssErrorKind::ObjectTypeExpected);
}

#[test]
fn rgb_function_content_parsing() {
    parse_all_and_expect(parse_rgb_function_content, "0.0, 0.5, 1.0", (0, 128, 255));
    parse_all_and_expect(parse_rgb_function_content, "1,1,1", (255, 255, 255));
    parse_all_and_expect_error(
        parse_rgb_function_content,
        "255, 255, 0",
        MapCssErrorKind::ColorUnitFloatOutOfRange,
    );
    parse_all_and_expect_error(parse_rgb_function_content, "1, 1, ", MapCssErrorKind::ColorUnitFloatExpected);
    parse_all_and_expect_error(parse_rgb_function_content, "1, 1", MapCssErrorKind::CommaExpected);
    parse_all_and_expect_error(parse_rgb_function_content, "0.5, b", MapCssErrorKind::ColorUnitFloatExpected);
    parse_all_and_expect_remaining(parse_rgb_function_content, "0, 0, 0, 0", ", 0");
}

#[test]
fn rgba_function_content_parsing() {
    parse_all_and_expect(parse_rgba_function_content, "1.0, 0.5, 0.0, 0.7", (255, 128, 0, float(0.7)));
    parse_all_and_expect(parse_rgba_function_content, "0,0,0,1", (0, 0, 0, float(1.0)));
    parse_all_and_expect_error(
        parse_rgba_function_content,
        "0, 0, 0, 2",
        MapCssErrorKind::ColorAlphaUnitFloatOutOfRange,
    );
    parse_all_and_expect_error(
        parse_rgba_function_content,
        "0, 0, 0,",
        MapCssErrorKind::ColorAlphaUnitFloatExpected,
    );
    parse_all_and_expect_error(parse_rgba_function_content, "0, 0, 0", MapCssErrorKind::CommaExpected);
}

#[test]
fn color_parsing() {
    parse_all_and_expect(parse_color, "rgb(0.5, 0.5, 0.5)", (128, 128, 128, float(1.0)));
    parse_all_and_expect(parse_color, "rgba(0, 0.5, 1, 0.5)", (0, 128, 255, float(0.5)));
    parse_all_and_expect(parse_color, "#abcdef", (0xab, 0xcd, 0xef, float(1.0)));
    parse_all_and_expect(parse_color, "#123", (0x11, 0x22, 0x33, float(1.0)));
    parse_all_and_expect(parse_color, "#A1B2", (0xaa, 0x11, 0xbb, float(2.0 / 15.0)));
    parse_all_and_expect(parse_color, "#87654321", (0x87, 0x65, 0x43, float(0x21 as f32 / 0xff as f32)));
    parse_all_and_expect_error(parse_color, "red", MapCssErrorKind::ColorExpected);
    parse_all_and_expect_basic_error(
        parse_color,
        "rgb(0, 0, 0, 0)",
        BasicParseErrorKind::UnexpectedToken(Token::Comma),
    );
    parse_all_and_expect_basic_error(
        parse_color,
        "rgba(1, 1, 1, 1 something)",
        BasicParseErrorKind::UnexpectedToken(Token::Ident("something".into())),
    );
    parse_all_and_expect_error(parse_color, "#12345", MapCssErrorKind::InvalidHashColor);
    parse_all_and_expect_error(parse_color, "#123456789", MapCssErrorKind::InvalidHashColor);
}

#[test]
fn comma_separated_integer_list_parsing() {
    parse_all_and_expect(parse_comma_separated_integer_list, "1, 2", vec![1, 2]);
    parse_all_and_expect(parse_comma_separated_integer_list, "-4, 15, 0", vec![-4, 15, 0]);
    parse_all_and_expect_error(
        parse_comma_separated_integer_list,
        "1",
        MapCssErrorKind::CommaSeparatedIntegerListTooShort,
    );
    parse_all_and_expect_error(parse_comma_separated_integer_list, "1,", MapCssErrorKind::IntegerExpected);
    parse_all_and_expect_error(parse_comma_separated_integer_list, "1, 2,", MapCssErrorKind::IntegerExpected);
    parse_all_and_expect_error(parse_comma_separated_integer_list, "1, 2, 1.0", MapCssErrorKind::IntegerExpected);
    parse_all_and_expect_error(
        parse_comma_separated_integer_list,
        "something",
        MapCssErrorKind::CommaSeparatedIntegerListExpected,
    );
}

#[test]
fn property_value_parsing() {
    parse_all_and_expect(PropertyValue::parse, "red", PropertyValue::String("red".into()));
    parse_all_and_expect(PropertyValue::parse, "\":-)\"", PropertyValue::String(":-)".into()));
    parse_all_and_expect(PropertyValue::parse, "-5", PropertyValue::Integer(-5));
    parse_all_and_expect(PropertyValue::parse, "7.3", PropertyValue::Float(float(7.3)));
    parse_all_and_expect(PropertyValue::parse, "12%", PropertyValue::Percentage(float(0.12)));
    parse_all_and_expect(PropertyValue::parse, "#ffffff", PropertyValue::Color(255, 255, 255, float(1.0)));
    parse_all_and_expect(PropertyValue::parse, "rgb(0, 0, 0)", PropertyValue::Color(0, 0, 0, float(1.0)));
    parse_all_and_expect(
        PropertyValue::parse,
        "rgba(1, 1, 1, 0.5)",
        PropertyValue::Color(255, 255, 255, float(0.5)),
    );
    parse_all_and_expect(PropertyValue::parse, "url(/icons/icon.svg)", PropertyValue::Url("/icons/icon.svg".into()));
    parse_all_and_expect(
        PropertyValue::parse,
        "url(\"https://example.com/icon\")",
        PropertyValue::Url("https://example.com/icon".into()),
    );
    parse_all_and_expect(PropertyValue::parse, "1, 2, 3", PropertyValue::IntegerList(vec![1, 2, 3]));
    parse_all_and_expect_error(PropertyValue::parse, "rgb()", MapCssErrorKind::ColorUnitFloatExpected);
    parse_all_and_expect_error(PropertyValue::parse, "1, 2,", MapCssErrorKind::IntegerExpected);
    parse_all_and_expect_error(PropertyValue::parse, "uurl(something.svg)", MapCssErrorKind::PropertyValueExpected);
}

#[test]
fn declaration_parsing() {
    parse_all_and_expect(
        Declaration::parse,
        "name: value;",
        Declaration { property_name: "name".into(), property_value: PropertyValue::String("value".into()) },
    );
    parse_all_and_expect(
        Declaration::parse,
        "name-with-dashes: 1, 2, 3;",
        Declaration {
            property_name: "name-with-dashes".into(),
            property_value: PropertyValue::IntegerList(vec![1, 2, 3]),
        },
    );
    parse_all_and_expect(
        Declaration::parse,
        "name: \"a;b\";",
        Declaration { property_name: "name".into(), property_value: PropertyValue::String("a;b".into()) },
    );
    parse_all_and_expect_error(Declaration::parse, "name with spaces: value;", MapCssErrorKind::ColonExpected);
    parse_all_and_expect_error(Declaration::parse, "123name: value;", MapCssErrorKind::PropertyNameExpected);
    parse_all_and_expect_error(Declaration::parse, "name: ;", MapCssErrorKind::PropertyValueExpected);
    parse_all_and_expect_error(Declaration::parse, "name: rgb(-5);", MapCssErrorKind::ColorUnitFloatOutOfRange);
    parse_all_and_expect_error(Declaration::parse, "name: value", MapCssErrorKind::SemicolonExpected);
    parse_all_and_expect_error(Declaration::parse, "name: value1 value2;", MapCssErrorKind::SemicolonExpected);
    parse_all_and_expect_basic_error(
        Declaration::parse,
        "name: rgb(0, 0, 0;",
        BasicParseErrorKind::UnexpectedToken(Token::Semicolon),
    );
    parse_all_and_expect_remaining(Declaration::parse, "name1: value1; name2: value2;", " name2: value2;");
}

fn node_selector() -> SelectorAlternatives {
    SelectorAlternatives::new(vec![SelectorChain::new(vec![BasicSelector::new(ObjectType::Node, vec![])])])
}

#[test]
fn rule_parsing() {
    parse_all_and_expect(
        Rule::parse,
        "node { name1: value1; name2: value2; }",
        Rule {
            selector: node_selector(),
            declarations: vec![
                Declaration { property_name: "name1".into(), property_value: PropertyValue::String("value1".into()) },
                Declaration { property_name: "name2".into(), property_value: PropertyValue::String("value2".into()) },
            ],
        },
    );
    parse_all_and_expect(
        Rule::parse,
        "node, way [key=value] {}",
        Rule {
            selector: SelectorAlternatives::new(vec![
                SelectorChain::new(vec![BasicSelector::new(ObjectType::Node, vec![])]),
                SelectorChain::new(vec![BasicSelector::new(
                    ObjectType::Way,
                    vec![Test::Equal(TagKey("key".into()), TagValue::String(TagStringValue("value".into())))],
                )]),
            ]),
            declarations: vec![],
        },
    );
    parse_all_and_expect_error(Rule::parse, "* { name: value }", MapCssErrorKind::SemicolonExpected);
    parse_all_and_expect_error(Rule::parse, "node [key=] {}", MapCssErrorKind::TagValueExpected);
    parse_all_and_expect_error(Rule::parse, "node", MapCssErrorKind::DeclarationBlockExpected);
    // An unclosed block is read as if it were closed at the end of the input.
    parse_all_and_expect(Rule::parse, "node {", Rule { selector: node_selector(), declarations: vec![] });
    parse_all_and_expect_remaining(Rule::parse, "node {} way {}", " way {}");
}

#[test]
fn stylesheet_parsing() {
    parse_all_and_expect(Stylesheet::parse, "", Stylesheet { rules: vec![] });
    parse_all_and_expect(
        Stylesheet::parse,
        "node { name1: value1; } way { name2: value2; }",
        Stylesheet {
            rules: vec![
                Rule {
                    selector: node_selector(),
                    declarations: vec![Declaration {
                        property_name: "name1".into(),
                        property_value: PropertyValue::String("value1".into()),
                    }],
                },
                Rule {
                    selector: SelectorAlternatives::new(vec![SelectorChain::new(vec![BasicSelector::new(
                        ObjectType::Way,
                        vec![],
                    )])]),
                    declarations: vec![Declaration {
                        property_name: "name2".into(),
                        property_value: PropertyValue::String("value2".into()),
                    }],
                },
            ],
        },
    );
    parse_all_and_expect_error(Stylesheet::parse, "node {} {}", MapCssErrorKind::ObjectTypeExpected);
    parse_all_and_expect_error(Stylesheet::parse, "node {something}", MapCssErrorKind::ColonExpected);
    parse_all_and_expect_error(
        Stylesheet::parse,
        "node { name1: value1; way { name2: value2; }",
        MapCssErrorKind::ColonExpected,
    );
}

#[test]
fn regex_anchors_are_added_only_where_missing() {
    assert_eq!(mapcss::selector::create_regex_with_anchors("a.c").unwrap().as_str(), "^a.c$");
    assert_eq!(mapcss::selector::create_regex_with_anchors("^a.c").unwrap().as_str(), "^a.c$");
    assert_eq!(mapcss::selector::create_regex_with_anchors("a.c$").unwrap().as_str(), "^a.c$");
    assert_eq!(mapcss::selector::create_regex_with_anchors("").unwrap().as_str(), "^$");
    assert!(mapcss::selector::create_regex_with_anchors("a(").is_err());
}

#[test]
fn hash_colors_of_every_length() {
    parse_all_and_expect(parse_color, "#000", (0, 0, 0, float(1.0)));
    parse_all_and_expect(parse_color, "#fFfF", (255, 255, 255, float(1.0)));
    parse_all_and_expect(parse_color, "#0a0B0c", (0x0a, 0x0b, 0x0c, float(1.0)));
    parse_all_and_expect_error(parse_color, "#ggg", MapCssErrorKind::InvalidHashColor);
    parse_all_and_expect(parse_color, "RGB(1, 0, 0)", (255, 0, 0, float(1.0)));
}

#[test]
fn comments_and_whitespace_are_skipped() {
    parse_all_and_expect(
        BasicSelector::parse,
        "node /* a comment */ [ key ]",
        BasicSelector::new(ObjectType::Node, vec![Test::IsSet(TagKey("key".into()))]),
    );
    parse_all_and_expect(parse_comma_separated_integer_list, "1 ,2/**/, 3", vec![1, 2, 3]);
}

#[test]
fn identifiers_and_quoted_strings() {
    use_all(mapcss::css::parse_identifier, "name", Ok("name".to_string()));
    use_all(mapcss::css::parse_identifier, "\"name\"", Err(()));
    use_all(mapcss::css::parse_quoted_string, "\"a b\"", Ok("a b".to_string()));
    use_all(mapcss::css::parse_quoted_string, "name", Err(()));
    use_all(mapcss::css::parse_identifier_or_quoted_string, "  name", Ok("name".to_string()));
    use_all(mapcss::css::parse_identifier_or_quoted_string, "\"a b\"", Ok("a b".to_string()));
    use_all(mapcss::css::parse_identifier_or_quoted_string, "12", Err(()));
}

fn use_all(f: fn(&mut Parser) -> Result<String, ()>, input: &str, expected: Result<String, ()>) {
    let (components, _) = tokenize(input);
    let mut parser = Parser::new(&components);
    assert_eq!(f(&mut parser), expected);
}
