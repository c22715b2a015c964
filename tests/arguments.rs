use brigadier::arguments::{
    ArgumentKind, ArgumentType, BoolArgumentType, NumericArgumentBounds, NumericArgumentType, ParsedValue,
    StringArgumentType,
};
use brigadier::errors::CommandErrorType;
use brigadier::string_reader::StringReader;

#[test]
fn integer_above_range_fails_and_rewinds() {
    let t = NumericArgumentType::<i32>::new(NumericArgumentBounds::Between(1, 10));
    let mut reader = StringReader::new("15");
    let err = t.parse(&mut reader).unwrap_err();
    assert_eq!(err.error_type, CommandErrorType::IntegerTooBig { found: 15, max: 10 });
    assert_eq!(reader.cursor(), 0);
    assert_eq!(err.context.unwrap().cursor, 0);
}

#[test]
fn integer_below_range_fails() {
    let t = NumericArgumentType::<i32>::new(NumericArgumentBounds::AtLeast(0));
    let mut reader = StringReader::new("-1 x");
    let err = t.parse(&mut reader).unwrap_err();
    assert_eq!(err.error_type, CommandErrorType::IntegerTooSmall { found: -1, min: 0 });
    assert_eq!(reader.cursor(), 0);
}

#[test]
fn integer_in_range_is_read() {
    let t = NumericArgumentType::<i32>::new(NumericArgumentBounds::Between(1, 10));
    let mut reader = StringReader::new("10 x");
    assert_eq!(t.parse(&mut reader), Ok(10));
    assert_eq!(reader.remaining(), " x");
}

#[test]
fn bounds_descriptors() {
    let full = NumericArgumentType::<i64>::new(NumericArgumentBounds::Full);
    assert_eq!((full.min, full.max), (i64::MIN, i64::MAX));
    let upto = NumericArgumentType::<i64>::new(NumericArgumentBounds::AtMost(5));
    assert_eq!((upto.min, upto.max), (i64::MIN, 5));
    let mut reader = StringReader::new("6");
    let err = upto.parse(&mut reader).unwrap_err();
    assert_eq!(err.error_type, CommandErrorType::LongTooBig { found: 6, max: 5 });
    assert_eq!(full.examples(), vec!["0", "123", "-123"]);
}

#[test]
fn bool_argument() {
    let mut reader = StringReader::new("false");
    assert_eq!(BoolArgumentType.parse(&mut reader), Ok(false));
    assert_eq!(BoolArgumentType.examples(), vec!["true", "false"]);
}

#[test]
fn string_arguments() {
    let mut reader = StringReader::new("\"a b\" c");
    assert_eq!(StringArgumentType::QuotablePhrase.parse(&mut reader), Ok(String::from("a b")));
    let mut reader = StringReader::new("\"a b\" c");
    assert_eq!(StringArgumentType::GreedyPhrase.parse(&mut reader), Ok(String::from("a b")));
    let mut reader = StringReader::new("word rest");
    assert_eq!(StringArgumentType::SingleWord.parse(&mut reader), Ok(String::from("word")));
    let mut reader = StringReader::new("word");
    assert!(StringArgumentType::QuotablePhrase.parse(&mut reader).is_err());
    assert_eq!(reader.cursor(), 0);
}

#[test]
fn argument_kinds_parse_into_values() {
    let mut reader = StringReader::new("42");
    let t = ArgumentKind::Long(NumericArgumentType::<i64>::new(NumericArgumentBounds::Full));
    assert_eq!(t.parse(&mut reader), Ok(ParsedValue::Long(42)));
    let mut reader = StringReader::new("x");
    let t = ArgumentKind::Bool(BoolArgumentType);
    assert!(t.parse(&mut reader).is_err());
    assert_eq!(reader.cursor(), 0);
    assert_eq!(t.examples().len(), 2);
}

fn parse_any<T: ArgumentType>(t: &T, input: &str) -> (bool, usize) {
    let mut reader = StringReader::new(input);
    let ok = t.parse(&mut reader).is_ok();
    (ok, reader.cursor())
}

#[test]
fn failed_parses_leave_the_reader_in_place() {
    assert_eq!(parse_any(&BoolArgumentType, "maybe"), (false, 0));
    assert_eq!(parse_any(&BoolArgumentType, "true x"), (true, 4));
    let small = NumericArgumentType::<i32>::new(NumericArgumentBounds::AtMost(3));
    assert_eq!(parse_any(&small, "4"), (false, 0));
    assert_eq!(parse_any(&StringArgumentType::QuotablePhrase, "'open"), (false, 0));
    assert_eq!(parse_any(&ArgumentKind::Text(StringArgumentType::GreedyPhrase), "a b"), (true, 1));
    assert_eq!(ArgumentType::examples(&StringArgumentType::SingleWord).len(), 2);
}

#[test]
fn narrow_numeric_types() {
    let t = NumericArgumentType::<u8>::new(NumericArgumentBounds::Full);
    let mut reader = StringReader::new("255 x");
    assert_eq!(t.parse(&mut reader), Ok(255u8));
    let mut reader = StringReader::new("256");
    let err = t.parse(&mut reader).unwrap_err();
    assert_eq!(err.error_type, CommandErrorType::IntegerTooBig { found: 256, max: 255 });
    assert_eq!(reader.cursor(), 0);
    let t = NumericArgumentType::<i8>::new(NumericArgumentBounds::AtLeast(-5));
    let mut reader = StringReader::new("-6");
    let err = t.parse(&mut reader).unwrap_err();
    assert_eq!(err.error_type, CommandErrorType::IntegerTooSmall { found: -6, min: -5 });
    let t = NumericArgumentType::<i16>::new(NumericArgumentBounds::Between(-300, 300));
    let mut reader = StringReader::new("-300");
    assert_eq!(t.parse(&mut reader), Ok(-300i16));
    let t = NumericArgumentType::<u16>::new(NumericArgumentBounds::Full);
    let mut reader = StringReader::new("-1");
    let err = t.parse(&mut reader).unwrap_err();
    assert_eq!(err.error_type, CommandErrorType::IntegerTooSmall { found: -1, min: 0 });
    let t = NumericArgumentType::<u32>::new(NumericArgumentBounds::Full);
    let mut reader = StringReader::new("4294967295");
    assert_eq!(t.parse(&mut reader), Ok(u32::MAX));
    let mut reader = StringReader::new("4294967296");
    let err = t.parse(&mut reader).unwrap_err();
    assert_eq!(err.error_type, CommandErrorType::LongTooBig { found: 4294967296, max: 4294967295 });
}
