use brigadier::context::{ParsedArgument, StringRange, StringReaderContext};
use brigadier::errors::{CommandErrorType, CommandSyntaxError};

#[test]
fn message_without_context() {
    let e = CommandSyntaxError::new(CommandErrorType::DispatcherUnknownCommand);
    assert_eq!(e.message(), "Unknown command");
}

#[test]
fn message_with_short_context() {
    let ctx = StringReaderContext { input: "\"abc", cursor: 4 };
    let e = CommandSyntaxError::with_context(CommandErrorType::ReaderExpectedEndOfQuote, ctx);
    assert_eq!(e.message(), "Unclosed quoted string at position 4: \"abc<--[HERE]");
}

#[test]
fn message_with_long_context() {
    let ctx = StringReaderContext { input: "0123456789abcdef", cursor: 15 };
    assert_eq!(ctx.text(), "...56789abcde<--[HERE]");
    let ctx = StringReaderContext { input: "0123456789abcdef", cursor: 10 };
    assert_eq!(ctx.text(), "0123456789<--[HERE]");
}

#[test]
fn context_never_splits_a_char() {
    let ctx = StringReaderContext { input: "\u{2705}123456789x", cursor: 11 };
    assert_eq!(ctx.text(), "...12345678<--[HERE]");
}

#[test]
fn kind_messages() {
    assert_eq!(
        CommandErrorType::IntegerTooBig { found: 15, max: 10 }.message(),
        "Integer must not be more than 10, found 15"
    );
    assert_eq!(
        CommandErrorType::LongTooSmall { found: -7, min: 0 }.message(),
        "Long must not be less than 0, found -7"
    );
    assert_eq!(
        CommandErrorType::ReaderInvalidEscape('q').message(),
        "Invalid escape sequence 'q' in quoted string"
    );
    assert_eq!(
        CommandErrorType::ReaderInvalidBool(String::from("yes")).message(),
        "Invalid bool, expected true or false but found 'yes'"
    );
    assert_eq!(CommandErrorType::LiteralIncorrect { expected: String::from("go") }.message(), "Expected literal go");
    assert_eq!(CommandErrorType::ReaderExpectedSymbol(String::from("=")).message(), "Expected '='");
}

#[test]
fn ranges_and_parsed_arguments() {
    let a = StringRange::between(2, 5);
    let b = StringRange::at(7);
    assert_eq!(StringRange::encompassing(a, b), StringRange::between(2, 7));
    let p = ParsedArgument::new(1, 3, 42);
    assert_eq!(p.range(), StringRange::between(1, 3));
    assert_eq!(*p.result(), 42);
}
