use vstd::prelude::*;

verus! {

/// What went wrong while reading a MapCSS style sheet.
#[derive(Clone, Copy, Debug, PartialEq, Eq, Structural)]
pub enum MapCssErrorKind {
    ObjectTypeExpected,
    TagKeyExpected,
    TagValueExpected,
    TagNumericValueExpected,
    TagStringValueExpected,
    RegexExpected,
    InvalidRegex,
    TestBlockExpected,
    TagKeyOrExclamationExpected,
    InvalidTokenInsideTest,
    InvalidHashColor,
    ColorUnitFloatExpected,
    ColorUnitFloatOutOfRange,
    CommaExpected,
    ColorAlphaUnitFloatExpected,
    ColorAlphaUnitFloatOutOfRange,
    ColorExpected,
    CommaSeparatedIntegerListExpected,
    CommaSeparatedIntegerListTooShort,
    IntegerExpected,
    PropertyValueExpected,
    PropertyNameExpected,
    ColonExpected,
    SemicolonExpected,
    DeclarationBlockExpected,
}

} // verus!
