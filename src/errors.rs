//! Syntax errors raised while reading and parsing commands.
use vstd::prelude::*;

use crate::context::StringReaderContext;
use crate::suggestion::{i32_text, int_text};
use crate::text::{byte_len, byte_length, byte_slice, is_boundary, str_slice};

verus! {

/// What went wrong; the data needed to describe it travels with the kind.
#[derive(Debug, Clone, PartialEq, Eq)]
pub enum CommandErrorType {
    /// A double below its minimum; the numbers are kept in their decimal form.
    DoubleTooSmall { found: String, min: String },
    DoubleTooBig { found: String, max: String },
    FloatTooSmall { found: String, min: String },
    FloatTooBig { found: String, max: String },
    IntegerTooSmall { found: i32, min: i32 },
    IntegerTooBig { found: i32, max: i32 },
    LongTooSmall { found: i64, min: i64 },
    LongTooBig { found: i64, max: i64 },
    LiteralIncorrect { expected: String },
    ReaderExpectedStartOfQuote,
    ReaderExpectedEndOfQuote,
    ReaderInvalidEscape(char),
    ReaderInvalidBool(String),
    ReaderExpectedBool,
    ReaderInvalidInt(String),
    ReaderInvalidLong(String),
    ReaderInvalidDouble(String),
    ReaderInvalidFloat(String),
    ReaderExpectedInt,
    ReaderExpectedLong,
    ReaderExpectedDouble,
    ReaderExpectedFloat,
    ReaderExpectedSymbol(String),
    DispatcherUnknownCommand,
    DispatcherUnknownArgument,
    DispatcherExpectedArgumentSeparator,
    DispatcherParseException(String),
}

/// An error kind, with the input position it refers to when one is known.
#[derive(Debug, Clone, PartialEq, Eq)]
pub struct CommandSyntaxError<'i> {
    pub error_type: CommandErrorType,
    pub context: Option<StringReaderContext<'i>>,
}

impl<'i> CommandSyntaxError<'i> {
    /// An error without a position.
    pub fn new(error_type: CommandErrorType) -> (r: Self)
        ensures
            r.error_type == error_type,
            r.context is None,
    {
        CommandSyntaxError { error_type, context: None }
    }

    /// An error that points into the input.
    pub fn with_context(error_type: CommandErrorType, context: StringReaderContext<'i>) -> (r: Self)
        ensures
            r.error_type == error_type,
            r.context == Some(context),
    {
        CommandSyntaxError { error_type, context: Some(context) }
    }
}

/// How many bytes before the cursor an error message shows.
pub const CONTEXT_AMOUNT: usize = 10;

/// Relies on `ToString for i64`: the decimal form, `-` first if negative.
#[verifier::external_body]
fn i64_text(v: i64) -> (r: String)
    ensures
        r@ == int_text(v as int),
{
    v.to_string()
}

/// Relies on `ToString for usize`: the decimal form.
#[verifier::external_body]
fn usize_text(v: usize) -> (r: String)
    ensures
        r@ == int_text(v as int),
{
    v.to_string()
}

/// Relies on `ToString for char`: the char alone.
#[verifier::external_body]
fn char_text(c: char) -> (r: String)
    ensures
        r@ == seq![c],
{
    c.to_string()
}

fn concat(a: &str, b: &str, c: &str) -> (r: String)
    ensures
        r@ == a@ + b@ + c@,
{
    let mut r = a.to_owned();
    r.append(b);
    r.append(c);
    r
}

/// The message of an error kind.
pub open spec fn error_text(t: CommandErrorType) -> Seq<char> {
    match t {
        CommandErrorType::DoubleTooSmall { found, min } => "Double must not be less than "@ + min@
            + ", found "@ + found@,
        CommandErrorType::DoubleTooBig { found, max } => "Double must not be more than "@ + max@
            + ", found "@ + found@,
        CommandErrorType::FloatTooSmall { found, min } => "Float must not be less than "@ + min@
            + ", found "@ + found@,
        CommandErrorType::FloatTooBig { found, max } => "Float must not be more than "@ + max@
            + ", found "@ + found@,
        CommandErrorType::IntegerTooSmall { found, min } => "Integer must not be less than "@
            + int_text(min as int) + ", found "@ + int_text(found as int),
        CommandErrorType::IntegerTooBig { found, max } => "Integer must not be more than "@
            + int_text(max as int) + ", found "@ + int_text(found as int),
        CommandErrorType::LongTooSmall { found, min } => "Long must not be less than "@ + int_text(
            min as int,
        ) + ", found "@ + int_text(found as int),
        CommandErrorType::LongTooBig { found, max } => "Long must not be more than "@ + int_text(
            max as int,
        ) + ", found "@ + int_text(found as int),
        CommandErrorType::LiteralIncorrect { expected } => "Expected literal "@ + expected@,
        CommandErrorType::ReaderExpectedStartOfQuote => "Expected quote to start a string"@,
        CommandErrorType::ReaderExpectedEndOfQuote => "Unclosed quoted string"@,
        CommandErrorType::ReaderInvalidEscape(c) => "Invalid escape sequence '"@ + seq![c]
            + "' in quoted string"@,
        CommandErrorType::ReaderInvalidBool(v) => "Invalid bool, expected true or false but found '"@
            + v@ + "'"@,
        CommandErrorType::ReaderExpectedBool => "Expected bool"@,
        CommandErrorType::ReaderInvalidInt(v) => "Invalid integer '"@ + v@ + "'"@,
        CommandErrorType::ReaderInvalidLong(v) => "Invalid long '"@ + v@ + "'"@,
        CommandErrorType::ReaderInvalidDouble(v) => "Invalid double '"@ + v@ + "'"@,
        CommandErrorType::ReaderInvalidFloat(v) => "Invalid float '"@ + v@ + "'"@,
        CommandErrorType::ReaderExpectedInt => "Expected integer"@,
        CommandErrorType::ReaderExpectedLong => "Expected long"@,
        CommandErrorType::ReaderExpectedDouble => "Expected double"@,
        CommandErrorType::ReaderExpectedFloat => "Expected float"@,
        CommandErrorType::ReaderExpectedSymbol(sym) => "Expected '"@ + sym@ + "'"@,
        CommandErrorType::DispatcherUnknownCommand => "Unknown command"@,
        CommandErrorType::DispatcherUnknownArgument => "Incorrect argument for command"@,
        CommandErrorType::DispatcherExpectedArgumentSeparator =>
            "Expected whitespace to end one argument, but found trailing data"@,
        CommandErrorType::DispatcherParseException(msg) => "Could not parse command: "@ + msg@,
    }
}

impl CommandErrorType {
    /// The message of this error kind.
    pub fn message(&self) -> (r: String)
        ensures
            r@ == error_text(*self),
    {
        proof {
            reveal_strlit("");
        }
        match self {
            CommandErrorType::DoubleTooSmall { found, min } => {
                let mut r = concat("Double must not be less than ", min.as_str(), ", found ");
                r.append(found.as_str());
                r
            },
            CommandErrorType::DoubleTooBig { found, max } => {
                let mut r = concat("Double must not be more than ", max.as_str(), ", found ");
                r.append(found.as_str());
                r
            },
            CommandErrorType::FloatTooSmall { found, min } => {
                let mut r = concat("Float must not be less than ", min.as_str(), ", found ");
                r.append(found.as_str());
                r
            },
            CommandErrorType::FloatTooBig { found, max } => {
                let mut r = concat("Float must not be more than ", max.as_str(), ", found ");
                r.append(found.as_str());
                r
            },
            CommandErrorType::IntegerTooSmall { found, min } => {
                let mut r = concat(
                    "Integer must not be less than ",
                    i32_text(*min).as_str(),
                    ", found ",
                );
                r.append(i32_text(*found).as_str());
                r
            },
            CommandErrorType::IntegerTooBig { found, max } => {
                let mut r = concat(
                    "Integer must not be more than ",
                    i32_text(*max).as_str(),
                    ", found ",
                );
                r.append(i32_text(*found).as_str());
                r
            },
            CommandErrorType::LongTooSmall { found, min } => {
                let mut r = concat("Long must not be less than ", i64_text(*min).as_str(), ", found ");
                r.append(i64_text(*found).as_str());
                r
            },
            CommandErrorType::LongTooBig { found, max } => {
                let mut r = concat("Long must not be more than ", i64_text(*max).as_str(), ", found ");
                r.append(i64_text(*found).as_str());
                r
            },
            CommandErrorType::LiteralIncorrect { expected } => concat(
                "Expected literal ",
                expected.as_str(),
                "",
            ),
            CommandErrorType::ReaderExpectedStartOfQuote => "Expected quote to start a string".to_owned(),
            CommandErrorType::ReaderExpectedEndOfQuote => "Unclosed quoted string".to_owned(),
            CommandErrorType::ReaderInvalidEscape(c) => concat(
                "Invalid escape sequence '",
                char_text(*c).as_str(),
                "' in quoted string",
            ),
            CommandErrorType::ReaderInvalidBool(v) => concat(
                "Invalid bool, expected true or false but found '",
                v.as_str(),
                "'",
            ),
            CommandErrorType::ReaderExpectedBool => "Expected bool".to_owned(),
            CommandErrorType::ReaderInvalidInt(v) => concat("Invalid integer '", v.as_str(), "'"),
            CommandErrorType::ReaderInvalidLong(v) => concat("Invalid long '", v.as_str(), "'"),
            CommandErrorType::ReaderInvalidDouble(v) => concat("Invalid double '", v.as_str(), "'"),
            CommandErrorType::ReaderInvalidFloat(v) => concat("Invalid float '", v.as_str(), "'"),
            CommandErrorType::ReaderExpectedInt => "Expected integer".to_owned(),
            CommandErrorType::ReaderExpectedLong => "Expected long".to_owned(),
            CommandErrorType::ReaderExpectedDouble => "Expected double".to_owned(),
            CommandErrorType::ReaderExpectedFloat => "Expected float".to_owned(),
            CommandErrorType::ReaderExpectedSymbol(sym) => concat("Expected '", sym.as_str(), "'"),
            CommandErrorType::DispatcherUnknownCommand => "Unknown command".to_owned(),
            CommandErrorType::DispatcherUnknownArgument => "Incorrect argument for command".to_owned(),
            CommandErrorType::DispatcherExpectedArgumentSeparator =>
                "Expected whitespace to end one argument, but found trailing data".to_owned(),
            CommandErrorType::DispatcherParseException(msg) => concat(
                "Could not parse command: ",
                msg.as_str(),
                "",
            ),
        }
    }
}

/// The first char boundary of `s` at or after byte `i`.
pub open spec fn boundary_from(s: Seq<char>, i: int) -> int
    decreases byte_len(s) - i,
{
    if i >= byte_len(s) || is_boundary(s, i) {
        i
    } else {
        boundary_from(s, i + 1)
    }
}

/// Where the shown part of the input starts: `CONTEXT_AMOUNT` bytes before
/// the cursor, moved forward to a char boundary.
pub open spec fn context_start(s: Seq<char>, cursor: int) -> int {
    boundary_from(s, if cursor > CONTEXT_AMOUNT { cursor - CONTEXT_AMOUNT } else { 0 })
}

/// The input up to the cursor as an error shows it.
pub open spec fn context_text(s: Seq<char>, cursor: int) -> Seq<char> {
    (if cursor > CONTEXT_AMOUNT {
        "..."@
    } else {
        seq![]
    }) + byte_slice(s, context_start(s, cursor), cursor) + "<--[HERE]"@
}

/// The cursor is a char boundary of the input.
pub open spec fn context_valid(ctx: StringReaderContext) -> bool {
    ctx.cursor <= byte_len(ctx.input@) && is_boundary(ctx.input@, ctx.cursor as int)
}

/// The full message of an error.
pub open spec fn render(e: CommandSyntaxError) -> Seq<char> {
    match e.context {
        Some(ctx) => error_text(e.error_type) + " at position "@ + int_text(ctx.cursor as int)
            + ": "@ + context_text(ctx.input@, ctx.cursor as int),
        None => error_text(e.error_type),
    }
}

proof fn lemma_boundary_from(s: Seq<char>, i: int, cursor: int)
    requires
        0 <= i <= cursor <= byte_len(s),
        is_boundary(s, cursor),
    ensures
        i <= boundary_from(s, i) <= cursor,
        is_boundary(s, boundary_from(s, i)),
    decreases byte_len(s) - i,
{
    if !(i >= byte_len(s) || is_boundary(s, i)) {
        lemma_boundary_from(s, i + 1, cursor);
    }
}

impl<'i> StringReaderContext<'i> {
    /// Up to `CONTEXT_AMOUNT` bytes of input before the cursor, `...` first
    /// if there was more, then `<--[HERE]`.
    pub fn text(&self) -> (r: String)
        requires
            context_valid(*self),
        ensures
            r@ == context_text(self.input@, self.cursor as int),
    {
        let mut start: usize = if self.cursor > CONTEXT_AMOUNT {
            self.cursor - CONTEXT_AMOUNT
        } else {
            0
        };
        let ghost first = start as int;
        let n = byte_length(self.input);
        proof {
            lemma_boundary_from(self.input@, first, self.cursor as int);
        }
        while start < n && !self.input.is_char_boundary(start)
            invariant
                first <= start <= self.cursor,
                n == byte_len(self.input@),
                context_valid(*self),
                boundary_from(self.input@, first) == boundary_from(self.input@, start as int),
                boundary_from(self.input@, start as int) <= self.cursor,
                is_boundary(self.input@, boundary_from(self.input@, start as int)),
            decreases self.cursor - start,
        {
            start = start + 1;
        }
        let mut r = if self.cursor > CONTEXT_AMOUNT {
            "...".to_owned()
        } else {
            String::new()
        };
        r.append(str_slice(self.input, start, self.cursor));
        r.append("<--[HERE]");
        proof {
            assert(Seq::<char>::empty() + byte_slice(self.input@, start as int, self.cursor as int)
                =~= byte_slice(self.input@, start as int, self.cursor as int));
        }
        r
    }
}

impl<'i> CommandSyntaxError<'i> {
    /// `<message> at position <cursor>: <context>`, or the message alone
    /// when there is no position.
    pub fn message(&self) -> (r: String)
        requires
            self.context matches Some(ctx) ==> context_valid(ctx),
        ensures
            r@ == render(*self),
    {
        let mut r = self.error_type.message();
        match &self.context {
            Some(ctx) => {
                r.append(" at position ");
                r.append(usize_text(ctx.cursor).as_str());
                r.append(": ");
                r.append(ctx.text().as_str());
            },
            None => {},
        }
        r
    }
}

} // verus!
