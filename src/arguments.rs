//! The bundled argument types: how each reads its value and what it suggests.
use vstd::prelude::*;

use crate::errors::{CommandErrorType, CommandSyntaxError};
use crate::string_reader::{
    bool_read, decimal_in, error_at, number_text, reads_as, scan_quoted, scan_string, span, CharClass,
    Scan, StringReader,
};
use crate::suggestion::{create_view, SuggestionView, Suggestions, SuggestionsBuilder};

verus! {

/// Relies on `str::starts_with` with a `&str` pattern: whether `prefix`
/// begins `s`.
#[verifier::external_body]
pub(crate) fn starts_with(s: &str, prefix: &str) -> (r: bool)
    ensures
        r == prefix@.is_prefix_of(s@),
{
    s.starts_with(prefix)
}

/// A value that an argument parsed.
#[derive(Debug, Clone, PartialEq, Eq)]
pub enum ParsedValue {
    Bool(bool),
    Int(i32),
    Long(i64),
    Byte(i8),
    Short(i16),
    UnsignedByte(u8),
    UnsignedShort(u16),
    UnsignedInt(u32),
    Text(String),
}

/// The boolean argument: `true` or `false`.
#[derive(Debug, Clone, Copy, PartialEq, Eq)]
pub struct BoolArgumentType;

/// A suggestion of `t` for the rest of the builder's input, unless `t` is
/// already that rest.
pub open spec fn offer(b: SuggestionsBuilder, t: Seq<char>) -> Seq<SuggestionView> {
    if t == b.spec_remaining() {
        seq![]
    } else {
        seq![SuggestionView { range: b.spec_range(), text: t, int_value: None, tooltip: None }]
    }
}

/// What a boolean completion offers: `true` and `false`, each where the
/// lowercased text typed so far begins it.
pub open spec fn bool_candidates(b: SuggestionsBuilder) -> Seq<SuggestionView> {
    let typed = b.spec_remaining_lower_case();
    (if typed.is_prefix_of("true"@) {
        offer(b, "true"@)
    } else {
        seq![]
    }) + (if typed.is_prefix_of("false"@) {
        offer(b, "false"@)
    } else {
        seq![]
    })
}

impl BoolArgumentType {
    /// Reads `true` or `false`; see `StringReader::read_boolean`.
    pub fn parse<'i>(&self, reader: &mut StringReader<'i>) -> (r: Result<bool, CommandSyntaxError<'i>>)
        requires
            old(reader).wf(),
        ensures
            bool_read(*old(reader), *final(reader), r),
    {
        reader.read_boolean()
    }

    /// Suggests `true` and `false` where the lowercased text typed so far
    /// begins them.
    pub fn list_suggestions<'i>(&self, builder: SuggestionsBuilder<'i>) -> (r: Suggestions)
        requires
            builder.wf(),
            builder.results_in_input(),
        ensures
            r@ == create_view(builder.spec_input(), builder.spec_result() + bool_candidates(builder)),
    {
        let mut builder = builder;
        let ghost b0 = builder;
        if starts_with("true", builder.remaining_lower_case()) {
            builder.suggest_text("true");
        }
        let ghost b1 = builder;
        if starts_with("false", builder.remaining_lower_case()) {
            builder.suggest_text("false");
        }
        proof {
            let typed = b0.spec_remaining_lower_case();
            let t: Seq<SuggestionView> = if typed.is_prefix_of("true"@) {
                offer(b0, "true"@)
            } else {
                seq![]
            };
            let f: Seq<SuggestionView> = if typed.is_prefix_of("false"@) {
                offer(b0, "false"@)
            } else {
                seq![]
            };
            assert(b1.spec_result() =~= b0.spec_result() + t);
            assert(builder.spec_result() =~= b1.spec_result() + f);
            assert(builder.spec_result() =~= b0.spec_result() + bool_candidates(b0));
        }
        builder.build()
    }

    pub fn examples(&self) -> (r: Vec<&'static str>)
        ensures
            views_of(r@) == seq!["true"@, "false"@],
    {
        proof {
            let v: Seq<&str> = seq!["true", "false"];
            assert(views_of(v) =~= seq!["true"@, "false"@]);
        }
        vec!["true", "false"]
    }
}

/// Which values a numeric argument accepts: all, from a minimum, up to a
/// maximum, or between two bounds, inclusive.
#[derive(Debug, Clone, Copy, PartialEq, Eq)]
pub enum NumericArgumentBounds<T> {
    Full,
    AtLeast(T),
    AtMost(T),
    Between(T, T),
}

impl<T: Copy> NumericArgumentBounds<T> {
    /// The least value accepted, `lowest` when unbounded below.
    pub open spec fn spec_min(self, lowest: T) -> T {
        match self {
            NumericArgumentBounds::AtLeast(lo) => lo,
            NumericArgumentBounds::Between(lo, _) => lo,
            _ => lowest,
        }
    }

    /// The greatest value accepted, `highest` when unbounded above.
    pub open spec fn spec_max(self, highest: T) -> T {
        match self {
            NumericArgumentBounds::AtMost(hi) => hi,
            NumericArgumentBounds::Between(_, hi) => hi,
            _ => highest,
        }
    }
}

/// A numeric argument with the inclusive range `[min, max]`.
#[derive(Debug, Clone, Copy, PartialEq, Eq)]
pub struct NumericArgumentType<T> {
    pub min: T,
    pub max: T,
}

pub type IntegerArgumentType = NumericArgumentType<i32>;

pub type LongArgumentType = NumericArgumentType<i64>;

/// What parsing a bounded `i32` from `old` does: the number is read as by
/// the reader; a value outside `[t.min, t.max]` fails with `IntegerTooSmall` or
/// `IntegerTooBig`; a failure leaves the reader where it was.
pub open spec fn int_read<'i>(
    t: NumericArgumentType<i32>,
    old: StringReader<'i>,
    fin: StringReader<'i>,
    r: Result<i32, CommandSyntaxError<'i>>,
) -> bool {
    &&& fin.wf()
    &&& fin.spec_input() == old.spec_input()
    &&& r is Err ==> fin == old
    &&& ({
        let text = number_text(old.spec_remaining());
        if text.len() == 0 {
            r matches Err(e) && error_at(old, 0, CommandErrorType::ReaderExpectedInt, e)
        } else {
            match decimal_in(text, i32::MIN as int, i32::MAX as int) {
                Some(v) => if v < t.min {
                    r matches Err(e) && error_at(
                        old,
                        0,
                        CommandErrorType::IntegerTooSmall { found: v as i32, min: t.min },
                        e,
                    )
                } else if v > t.max {
                    r matches Err(e) && error_at(
                        old,
                        0,
                        CommandErrorType::IntegerTooBig { found: v as i32, max: t.max },
                        e,
                    )
                } else {
                    &&& r == Ok::<i32, CommandSyntaxError<'i>>(v as i32)
                    &&& fin.spec_remaining() == old.spec_remaining().skip(
                        text.len() as int,
                    )
                },
                None => r matches Err(e) && e.error_type matches CommandErrorType::ReaderInvalidInt(
                    s,
                ) && s@ == text && error_at(old, 0, e.error_type, e),
            }
        }
    })
}

impl NumericArgumentType<i32> {
    /// An argument type for the bounds given.
    pub fn new(bounds: NumericArgumentBounds<i32>) -> (r: Self)
        ensures
            r.min == bounds.spec_min(i32::MIN),
            r.max == bounds.spec_max(i32::MAX),
    {
        match bounds {
            NumericArgumentBounds::Full => NumericArgumentType { min: i32::MIN, max: i32::MAX },
            NumericArgumentBounds::AtLeast(lo) => NumericArgumentType { min: lo, max: i32::MAX },
            NumericArgumentBounds::AtMost(hi) => NumericArgumentType { min: i32::MIN, max: hi },
            NumericArgumentBounds::Between(lo, hi) => NumericArgumentType { min: lo, max: hi },
        }
    }

    /// Reads an `i32` and checks it against the bounds; out of bounds it fails
    /// with `IntegerTooSmall` or `IntegerTooBig`. A failure leaves the reader where it was.
    pub fn parse<'i>(&self, reader: &mut StringReader<'i>) -> (r: Result<i32, CommandSyntaxError<'i>>)
        requires
            old(reader).wf(),
        ensures
            int_read(*self, *old(reader), *final(reader), r),
    {
        let start = *reader;
        let value = match reader.read_int() {
            Ok(v) => v,
            Err(e) => return Err(e),
        };
        if value < self.min {
            *reader = start;
            return Err(reader.error_here(CommandErrorType::IntegerTooSmall { found: value, min: self.min }));
        }
        if value > self.max {
            *reader = start;
            return Err(reader.error_here(CommandErrorType::IntegerTooBig { found: value, max: self.max }));
        }
        Ok(value)
    }

    pub fn examples(&self) -> (r: Vec<&'static str>)
        ensures
            views_of(r@) == numeric_examples(),
    {
        proof {
            let v: Seq<&str> = seq!["0", "123", "-123"];
            assert(views_of(v) =~= numeric_examples());
        }
        vec!["0", "123", "-123"]
    }
}

/// What parsing a bounded `i64` from `old` does: the number is read as by
/// the reader; a value outside `[t.min, t.max]` fails with `LongTooSmall` or
/// `LongTooBig`; a failure leaves the reader where it was.
pub open spec fn long_read<'i>(
    t: NumericArgumentType<i64>,
    old: StringReader<'i>,
    fin: StringReader<'i>,
    r: Result<i64, CommandSyntaxError<'i>>,
) -> bool {
    &&& fin.wf()
    &&& fin.spec_input() == old.spec_input()
    &&& r is Err ==> fin == old
    &&& ({
        let text = number_text(old.spec_remaining());
        if text.len() == 0 {
            r matches Err(e) && error_at(old, 0, CommandErrorType::ReaderExpectedLong, e)
        } else {
            match decimal_in(text, i64::MIN as int, i64::MAX as int) {
                Some(v) => if v < t.min {
                    r matches Err(e) && error_at(
                        old,
                        0,
                        CommandErrorType::LongTooSmall { found: v as i64, min: t.min },
                        e,
                    )
                } else if v > t.max {
                    r matches Err(e) && error_at(
                        old,
                        0,
                        CommandErrorType::LongTooBig { found: v as i64, max: t.max },
                        e,
                    )
                } else {
                    &&& r == Ok::<i64, CommandSyntaxError<'i>>(v as i64)
                    &&& fin.spec_remaining() == old.spec_remaining().skip(
                        text.len() as int,
                    )
                },
                None => r matches Err(e) && e.error_type matches CommandErrorType::ReaderInvalidLong(
                    s,
                ) && s@ == text && error_at(old, 0, e.error_type, e),
            }
        }
    })
}

impl NumericArgumentType<i64> {
    /// An argument type for the bounds given.
    pub fn new(bounds: NumericArgumentBounds<i64>) -> (r: Self)
        ensures
            r.min == bounds.spec_min(i64::MIN),
            r.max == bounds.spec_max(i64::MAX),
    {
        match bounds {
            NumericArgumentBounds::Full => NumericArgumentType { min: i64::MIN, max: i64::MAX },
            NumericArgumentBounds::AtLeast(lo) => NumericArgumentType { min: lo, max: i64::MAX },
            NumericArgumentBounds::AtMost(hi) => NumericArgumentType { min: i64::MIN, max: hi },
            NumericArgumentBounds::Between(lo, hi) => NumericArgumentType { min: lo, max: hi },
        }
    }

    /// Reads an `i64` and checks it against the bounds; out of bounds it fails
    /// with `LongTooSmall` or `LongTooBig`. A failure leaves the reader where it was.
    pub fn parse<'i>(&self, reader: &mut StringReader<'i>) -> (r: Result<i64, CommandSyntaxError<'i>>)
        requires
            old(reader).wf(),
        ensures
            long_read(*self, *old(reader), *final(reader), r),
    {
        let start = *reader;
        let value = match reader.read_long() {
            Ok(v) => v,
            Err(e) => return Err(e),
        };
        if value < self.min {
            *reader = start;
            return Err(reader.error_here(CommandErrorType::LongTooSmall { found: value, min: self.min }));
        }
        if value > self.max {
            *reader = start;
            return Err(reader.error_here(CommandErrorType::LongTooBig { found: value, max: self.max }));
        }
        Ok(value)
    }

    pub fn examples(&self) -> (r: Vec<&'static str>)
        ensures
            views_of(r@) == numeric_examples(),
    {
        proof {
            let v: Seq<&str> = seq!["0", "123", "-123"];
            assert(views_of(v) =~= numeric_examples());
        }
        vec!["0", "123", "-123"]
    }
}

/// What parsing a bounded `i8` from `old` does: the number is read as an
/// `i32` by the reader; a value outside `[t.min, t.max]` fails with `IntegerTooSmall` or
/// `IntegerTooBig`; a failure leaves the reader where it was.
pub open spec fn i8_read<'i>(
    t: NumericArgumentType<i8>,
    old: StringReader<'i>,
    fin: StringReader<'i>,
    r: Result<i8, CommandSyntaxError<'i>>,
) -> bool {
    &&& fin.wf()
    &&& fin.spec_input() == old.spec_input()
    &&& r is Err ==> fin == old
    &&& ({
        let text = number_text(old.spec_remaining());
        if text.len() == 0 {
            r matches Err(e) && error_at(old, 0, CommandErrorType::ReaderExpectedInt, e)
        } else {
            match decimal_in(text, i32::MIN as int, i32::MAX as int) {
                Some(v) => if v < t.min {
                    r matches Err(e) && error_at(
                        old,
                        0,
                        CommandErrorType::IntegerTooSmall { found: v as i32, min: t.min as i32 },
                        e,
                    )
                } else if v > t.max {
                    r matches Err(e) && error_at(
                        old,
                        0,
                        CommandErrorType::IntegerTooBig { found: v as i32, max: t.max as i32 },
                        e,
                    )
                } else {
                    &&& r == Ok::<i8, CommandSyntaxError<'i>>(v as i8)
                    &&& fin.spec_remaining() == old.spec_remaining().skip(
                        text.len() as int,
                    )
                },
                None => r matches Err(e) && e.error_type matches CommandErrorType::ReaderInvalidInt(
                    s,
                ) && s@ == text && error_at(old, 0, e.error_type, e),
            }
        }
    })
}

impl NumericArgumentType<i8> {
    /// An argument type for the bounds given.
    pub fn new(bounds: NumericArgumentBounds<i8>) -> (r: Self)
        ensures
            r.min == bounds.spec_min(i8::MIN),
            r.max == bounds.spec_max(i8::MAX),
    {
        match bounds {
            NumericArgumentBounds::Full => NumericArgumentType { min: i8::MIN, max: i8::MAX },
            NumericArgumentBounds::AtLeast(lo) => NumericArgumentType { min: lo, max: i8::MAX },
            NumericArgumentBounds::AtMost(hi) => NumericArgumentType { min: i8::MIN, max: hi },
            NumericArgumentBounds::Between(lo, hi) => NumericArgumentType { min: lo, max: hi },
        }
    }

    /// Reads a number and checks it against the bounds; out of bounds it fails
    /// with `IntegerTooSmall` or `IntegerTooBig`. A failure leaves the reader where it was.
    pub fn parse<'i>(&self, reader: &mut StringReader<'i>) -> (r: Result<i8, CommandSyntaxError<'i>>)
        requires
            old(reader).wf(),
        ensures
            i8_read(*self, *old(reader), *final(reader), r),
    {
        let start = *reader;
        let value = match reader.read_int() {
            Ok(v) => v,
            Err(e) => return Err(e),
        };
        if value < self.min as i32 {
            *reader = start;
            return Err(
                reader.error_here(CommandErrorType::IntegerTooSmall { found: value, min: self.min as i32 }),
            );
        }
        if value > self.max as i32 {
            *reader = start;
            return Err(
                reader.error_here(CommandErrorType::IntegerTooBig { found: value, max: self.max as i32 }),
            );
        }
        Ok(value as i8)
    }

    pub fn examples(&self) -> (r: Vec<&'static str>)
        ensures
            views_of(r@) == numeric_examples(),
    {
        proof {
            let v: Seq<&str> = seq!["0", "123", "-123"];
            assert(views_of(v) =~= numeric_examples());
        }
        vec!["0", "123", "-123"]
    }
}

impl ArgumentType for NumericArgumentType<i8> {
    type Output = i8;

    fn parse<'i>(&self, reader: &mut StringReader<'i>) -> (r: Result<i8, CommandSyntaxError<'i>>) {
        NumericArgumentType::<i8>::parse(self, reader)
    }

    fn examples(&self) -> Vec<&'static str> {
        NumericArgumentType::<i8>::examples(self)
    }
}

/// What parsing a bounded `i16` from `old` does: the number is read as an
/// `i32` by the reader; a value outside `[t.min, t.max]` fails with `IntegerTooSmall` or
/// `IntegerTooBig`; a failure leaves the reader where it was.
pub open spec fn i16_read<'i>(
    t: NumericArgumentType<i16>,
    old: StringReader<'i>,
    fin: StringReader<'i>,
    r: Result<i16, CommandSyntaxError<'i>>,
) -> bool {
    &&& fin.wf()
    &&& fin.spec_input() == old.spec_input()
    &&& r is Err ==> fin == old
    &&& ({
        let text = number_text(old.spec_remaining());
        if text.len() == 0 {
            r matches Err(e) && error_at(old, 0, CommandErrorType::ReaderExpectedInt, e)
        } else {
            match decimal_in(text, i32::MIN as int, i32::MAX as int) {
                Some(v) => if v < t.min {
                    r matches Err(e) && error_at(
                        old,
                        0,
                        CommandErrorType::IntegerTooSmall { found: v as i32, min: t.min as i32 },
                        e,
                    )
                } else if v > t.max {
                    r matches Err(e) && error_at(
                        old,
                        0,
                        CommandErrorType::IntegerTooBig { found: v as i32, max: t.max as i32 },
                        e,
                    )
                } else {
                    &&& r == Ok::<i16, CommandSyntaxError<'i>>(v as i16)
                    &&& fin.spec_remaining() == old.spec_remaining().skip(
                        text.len() as int,
                    )
                },
                None => r matches Err(e) && e.error_type matches CommandErrorType::ReaderInvalidInt(
                    s,
                ) && s@ == text && error_at(old, 0, e.error_type, e),
            }
        }
    })
}

impl NumericArgumentType<i16> {
    /// An argument type for the bounds given.
    pub fn new(bounds: NumericArgumentBounds<i16>) -> (r: Self)
        ensures
            r.min == bounds.spec_min(i16::MIN),
            r.max == bounds.spec_max(i16::MAX),
    {
        match bounds {
            NumericArgumentBounds::Full => NumericArgumentType { min: i16::MIN, max: i16::MAX },
            NumericArgumentBounds::AtLeast(lo) => NumericArgumentType { min: lo, max: i16::MAX },
            NumericArgumentBounds::AtMost(hi) => NumericArgumentType { min: i16::MIN, max: hi },
            NumericArgumentBounds::Between(lo, hi) => NumericArgumentType { min: lo, max: hi },
        }
    }

    /// Reads a number and checks it against the bounds; out of bounds it fails
    /// with `IntegerTooSmall` or `IntegerTooBig`. A failure leaves the reader where it was.
    pub fn parse<'i>(&self, reader: &mut StringReader<'i>) -> (r: Result<i16, CommandSyntaxError<'i>>)
        requires
            old(reader).wf(),
        ensures
            i16_read(*self, *old(reader), *final(reader), r),
    {
        let start = *reader;
        let value = match reader.read_int() {
            Ok(v) => v,
            Err(e) => return Err(e),
        };
        if value < self.min as i32 {
            *reader = start;
            return Err(
                reader.error_here(CommandErrorType::IntegerTooSmall { found: value, min: self.min as i32 }),
            );
        }
        if value > self.max as i32 {
            *reader = start;
            return Err(
                reader.error_here(CommandErrorType::IntegerTooBig { found: value, max: self.max as i32 }),
            );
        }
        Ok(value as i16)
    }

    pub fn examples(&self) -> (r: Vec<&'static str>)
        ensures
            views_of(r@) == numeric_examples(),
    {
        proof {
            let v: Seq<&str> = seq!["0", "123", "-123"];
            assert(views_of(v) =~= numeric_examples());
        }
        vec!["0", "123", "-123"]
    }
}

impl ArgumentType for NumericArgumentType<i16> {
    type Output = i16;

    fn parse<'i>(&self, reader: &mut StringReader<'i>) -> (r: Result<i16, CommandSyntaxError<'i>>) {
        NumericArgumentType::<i16>::parse(self, reader)
    }

    fn examples(&self) -> Vec<&'static str> {
        NumericArgumentType::<i16>::examples(self)
    }
}

/// What parsing a bounded `u8` from `old` does: the number is read as an
/// `i32` by the reader; a value outside `[t.min, t.max]` fails with `IntegerTooSmall` or
/// `IntegerTooBig`; a failure leaves the reader where it was.
pub open spec fn u8_read<'i>(
    t: NumericArgumentType<u8>,
    old: StringReader<'i>,
    fin: StringReader<'i>,
    r: Result<u8, CommandSyntaxError<'i>>,
) -> bool {
    &&& fin.wf()
    &&& fin.spec_input() == old.spec_input()
    &&& r is Err ==> fin == old
    &&& ({
        let text = number_text(old.spec_remaining());
        if text.len() == 0 {
            r matches Err(e) && error_at(old, 0, CommandErrorType::ReaderExpectedInt, e)
        } else {
            match decimal_in(text, i32::MIN as int, i32::MAX as int) {
                Some(v) => if v < t.min {
                    r matches Err(e) && error_at(
                        old,
                        0,
                        CommandErrorType::IntegerTooSmall { found: v as i32, min: t.min as i32 },
                        e,
                    )
                } else if v > t.max {
                    r matches Err(e) && error_at(
                        old,
                        0,
                        CommandErrorType::IntegerTooBig { found: v as i32, max: t.max as i32 },
                        e,
                    )
                } else {
                    &&& r == Ok::<u8, CommandSyntaxError<'i>>(v as u8)
                    &&& fin.spec_remaining() == old.spec_remaining().skip(
                        text.len() as int,
                    )
                },
                None => r matches Err(e) && e.error_type matches CommandErrorType::ReaderInvalidInt(
                    s,
                ) && s@ == text && error_at(old, 0, e.error_type, e),
            }
        }
    })
}

impl NumericArgumentType<u8> {
    /// An argument type for the bounds given.
    pub fn new(bounds: NumericArgumentBounds<u8>) -> (r: Self)
        ensures
            r.min == bounds.spec_min(u8::MIN),
            r.max == bounds.spec_max(u8::MAX),
    {
        match bounds {
            NumericArgumentBounds::Full => NumericArgumentType { min: u8::MIN, max: u8::MAX },
            NumericArgumentBounds::AtLeast(lo) => NumericArgumentType { min: lo, max: u8::MAX },
            NumericArgumentBounds::AtMost(hi) => NumericArgumentType { min: u8::MIN, max: hi },
            NumericArgumentBounds::Between(lo, hi) => NumericArgumentType { min: lo, max: hi },
        }
    }

    /// Reads a number and checks it against the bounds; out of bounds it fails
    /// with `IntegerTooSmall` or `IntegerTooBig`. A failure leaves the reader where it was.
    pub fn parse<'i>(&self, reader: &mut StringReader<'i>) -> (r: Result<u8, CommandSyntaxError<'i>>)
        requires
            old(reader).wf(),
        ensures
            u8_read(*self, *old(reader), *final(reader), r),
    {
        let start = *reader;
        let value = match reader.read_int() {
            Ok(v) => v,
            Err(e) => return Err(e),
        };
        if value < self.min as i32 {
            *reader = start;
            return Err(
                reader.error_here(CommandErrorType::IntegerTooSmall { found: value, min: self.min as i32 }),
            );
        }
        if value > self.max as i32 {
            *reader = start;
            return Err(
                reader.error_here(CommandErrorType::IntegerTooBig { found: value, max: self.max as i32 }),
            );
        }
        Ok(value as u8)
    }

    pub fn examples(&self) -> (r: Vec<&'static str>)
        ensures
            views_of(r@) == numeric_examples(),
    {
        proof {
            let v: Seq<&str> = seq!["0", "123", "-123"];
            assert(views_of(v) =~= numeric_examples());
        }
        vec!["0", "123", "-123"]
    }
}

impl ArgumentType for NumericArgumentType<u8> {
    type Output = u8;

    fn parse<'i>(&self, reader: &mut StringReader<'i>) -> (r: Result<u8, CommandSyntaxError<'i>>) {
        NumericArgumentType::<u8>::parse(self, reader)
    }

    fn examples(&self) -> Vec<&'static str> {
        NumericArgumentType::<u8>::examples(self)
    }
}

/// What parsing a bounded `u16` from `old` does: the number is read as an
/// `i32` by the reader; a value outside `[t.min, t.max]` fails with `IntegerTooSmall` or
/// `IntegerTooBig`; a failure leaves the reader where it was.
pub open spec fn u16_read<'i>(
    t: NumericArgumentType<u16>,
    old: StringReader<'i>,
    fin: StringReader<'i>,
    r: Result<u16, CommandSyntaxError<'i>>,
) -> bool {
    &&& fin.wf()
    &&& fin.spec_input() == old.spec_input()
    &&& r is Err ==> fin == old
    &&& ({
        let text = number_text(old.spec_remaining());
        if text.len() == 0 {
            r matches Err(e) && error_at(old, 0, CommandErrorType::ReaderExpectedInt, e)
        } else {
            match decimal_in(text, i32::MIN as int, i32::MAX as int) {
                Some(v) => if v < t.min {
                    r matches Err(e) && error_at(
                        old,
                        0,
                        CommandErrorType::IntegerTooSmall { found: v as i32, min: t.min as i32 },
                        e,
                    )
                } else if v > t.max {
                    r matches Err(e) && error_at(
                        old,
                        0,
                        CommandErrorType::IntegerTooBig { found: v as i32, max: t.max as i32 },
                        e,
                    )
                } else {
                    &&& r == Ok::<u16, CommandSyntaxError<'i>>(v as u16)
                    &&& fin.spec_remaining() == old.spec_remaining().skip(
                        text.len() as int,
                    )
                },
                None => r matches Err(e) && e.error_type matches CommandErrorType::ReaderInvalidInt(
                    s,
                ) && s@ == text && error_at(old, 0, e.error_type, e),
            }
        }
    })
}

impl NumericArgumentType<u16> {
    /// An argument type for the bounds given.
    pub fn new(bounds: NumericArgumentBounds<u16>) -> (r: Self)
        ensures
            r.min == bounds.spec_min(u16::MIN),
            r.max == bounds.spec_max(u16::MAX),
    {
        match bounds {
            NumericArgumentBounds::Full => NumericArgumentType { min: u16::MIN, max: u16::MAX },
            NumericArgumentBounds::AtLeast(lo) => NumericArgumentType { min: lo, max: u16::MAX },
            NumericArgumentBounds::AtMost(hi) => NumericArgumentType { min: u16::MIN, max: hi },
            NumericArgumentBounds::Between(lo, hi) => NumericArgumentType { min: lo, max: hi },
        }
    }

    /// Reads a number and checks it against the bounds; out of bounds it fails
    /// with `IntegerTooSmall` or `IntegerTooBig`. A failure leaves the reader where it was.
    pub fn parse<'i>(&self, reader: &mut StringReader<'i>) -> (r: Result<u16, CommandSyntaxError<'i>>)
        requires
            old(reader).wf(),
        ensures
            u16_read(*self, *old(reader), *final(reader), r),
    {
        let start = *reader;
        let value = match reader.read_int() {
            Ok(v) => v,
            Err(e) => return Err(e),
        };
        if value < self.min as i32 {
            *reader = start;
            return Err(
                reader.error_here(CommandErrorType::IntegerTooSmall { found: value, min: self.min as i32 }),
            );
        }
        if value > self.max as i32 {
            *reader = start;
            return Err(
                reader.error_here(CommandErrorType::IntegerTooBig { found: value, max: self.max as i32 }),
            );
        }
        Ok(value as u16)
    }

    pub fn examples(&self) -> (r: Vec<&'static str>)
        ensures
            views_of(r@) == numeric_examples(),
    {
        proof {
            let v: Seq<&str> = seq!["0", "123", "-123"];
            assert(views_of(v) =~= numeric_examples());
        }
        vec!["0", "123", "-123"]
    }
}

impl ArgumentType for NumericArgumentType<u16> {
    type Output = u16;

    fn parse<'i>(&self, reader: &mut StringReader<'i>) -> (r: Result<u16, CommandSyntaxError<'i>>) {
        NumericArgumentType::<u16>::parse(self, reader)
    }

    fn examples(&self) -> Vec<&'static str> {
        NumericArgumentType::<u16>::examples(self)
    }
}

/// What parsing a bounded `u32` from `old` does: the number is read as an
/// `i64` by the reader; a value outside `[t.min, t.max]` fails with `LongTooSmall` or
/// `LongTooBig`; a failure leaves the reader where it was.
pub open spec fn u32_read<'i>(
    t: NumericArgumentType<u32>,
    old: StringReader<'i>,
    fin: StringReader<'i>,
    r: Result<u32, CommandSyntaxError<'i>>,
) -> bool {
    &&& fin.wf()
    &&& fin.spec_input() == old.spec_input()
    &&& r is Err ==> fin == old
    &&& ({
        let text = number_text(old.spec_remaining());
        if text.len() == 0 {
            r matches Err(e) && error_at(old, 0, CommandErrorType::ReaderExpectedLong, e)
        } else {
            match decimal_in(text, i64::MIN as int, i64::MAX as int) {
                Some(v) => if v < t.min {
                    r matches Err(e) && error_at(
                        old,
                        0,
                        CommandErrorType::LongTooSmall { found: v as i64, min: t.min as i64 },
                        e,
                    )
                } else if v > t.max {
                    r matches Err(e) && error_at(
                        old,
                        0,
                        CommandErrorType::LongTooBig { found: v as i64, max: t.max as i64 },
                        e,
                    )
                } else {
                    &&& r == Ok::<u32, CommandSyntaxError<'i>>(v as u32)
                    &&& fin.spec_remaining() == old.spec_remaining().skip(
                        text.len() as int,
                    )
                },
                None => r matches Err(e) && e.error_type matches CommandErrorType::ReaderInvalidLong(
                    s,
                ) && s@ == text && error_at(old, 0, e.error_type, e),
            }
        }
    })
}

impl NumericArgumentType<u32> {
    /// An argument type for the bounds given.
    pub fn new(bounds: NumericArgumentBounds<u32>) -> (r: Self)
        ensures
            r.min == bounds.spec_min(u32::MIN),
            r.max == bounds.spec_max(u32::MAX),
    {
        match bounds {
            NumericArgumentBounds::Full => NumericArgumentType { min: u32::MIN, max: u32::MAX },
            NumericArgumentBounds::AtLeast(lo) => NumericArgumentType { min: lo, max: u32::MAX },
            NumericArgumentBounds::AtMost(hi) => NumericArgumentType { min: u32::MIN, max: hi },
            NumericArgumentBounds::Between(lo, hi) => NumericArgumentType { min: lo, max: hi },
        }
    }

    /// Reads a number and checks it against the bounds; out of bounds it fails
    /// with `LongTooSmall` or `LongTooBig`. A failure leaves the reader where it was.
    pub fn parse<'i>(&self, reader: &mut StringReader<'i>) -> (r: Result<u32, CommandSyntaxError<'i>>)
        requires
            old(reader).wf(),
        ensures
            u32_read(*self, *old(reader), *final(reader), r),
    {
        let start = *reader;
        let value = match reader.read_long() {
            Ok(v) => v,
            Err(e) => return Err(e),
        };
        if value < self.min as i64 {
            *reader = start;
            return Err(
                reader.error_here(CommandErrorType::LongTooSmall { found: value, min: self.min as i64 }),
            );
        }
        if value > self.max as i64 {
            *reader = start;
            return Err(
                reader.error_here(CommandErrorType::LongTooBig { found: value, max: self.max as i64 }),
            );
        }
        Ok(value as u32)
    }

    pub fn examples(&self) -> (r: Vec<&'static str>)
        ensures
            views_of(r@) == numeric_examples(),
    {
        proof {
            let v: Seq<&str> = seq!["0", "123", "-123"];
            assert(views_of(v) =~= numeric_examples());
        }
        vec!["0", "123", "-123"]
    }
}

impl ArgumentType for NumericArgumentType<u32> {
    type Output = u32;

    fn parse<'i>(&self, reader: &mut StringReader<'i>) -> (r: Result<u32, CommandSyntaxError<'i>>) {
        NumericArgumentType::<u32>::parse(self, reader)
    }

    fn examples(&self) -> Vec<&'static str> {
        NumericArgumentType::<u32>::examples(self)
    }
}

/// The string arguments: one word, a word or a quoted phrase, or a string
/// that may be quoted.
#[derive(Debug, Clone, Copy, PartialEq, Eq)]
pub enum StringArgumentType {
    SingleWord,
    QuotablePhrase,
    GreedyPhrase,
}

/// What a string argument of kind `kind` reads from `rem`.
pub open spec fn string_scan(kind: StringArgumentType, rem: Seq<char>) -> Scan {
    match kind {
        StringArgumentType::SingleWord => Scan::Read {
            value: rem.take(span(rem, CharClass::Unquoted) as int),
            used: span(rem, CharClass::Unquoted),
        },
        StringArgumentType::QuotablePhrase => scan_quoted(rem),
        StringArgumentType::GreedyPhrase => scan_string(rem),
    }
}

impl StringArgumentType {
    /// A single word reads an unquoted string, a quotable phrase a quoted
    /// one, a greedy phrase either.
    pub fn parse<'i>(&self, reader: &mut StringReader<'i>) -> (r: Result<String, CommandSyntaxError<'i>>)
        requires
            old(reader).wf(),
        ensures
            reads_as(*old(reader), *final(reader), r, string_scan(*self, old(reader).spec_remaining())),
    {
        match self {
            StringArgumentType::SingleWord => match reader.read_unquoted_string() {
                Ok(w) => Ok(w.to_owned()),
                Err(e) => Err(e),
            },
            StringArgumentType::QuotablePhrase => reader.read_quoted_string(),
            StringArgumentType::GreedyPhrase => reader.read_string(),
        }
    }

    pub fn examples(&self) -> (r: Vec<&'static str>)
        ensures
            views_of(r@) == string_examples(*self),
    {
        proof {
            let w: Seq<&str> = seq!["word", "words_with_underscores"];
            let q: Seq<&str> = seq!["\"quoted phrase\"", "word", "\"\""];
            let g: Seq<&str> = seq!["word", "words with spaces", "\"and symbols\""];
            assert(views_of(w) =~= string_examples(StringArgumentType::SingleWord));
            assert(views_of(q) =~= string_examples(StringArgumentType::QuotablePhrase));
            assert(views_of(g) =~= string_examples(StringArgumentType::GreedyPhrase));
        }
        match self {
            StringArgumentType::SingleWord => vec!["word", "words_with_underscores"],
            StringArgumentType::QuotablePhrase => vec!["\"quoted phrase\"", "word", "\"\""],
            StringArgumentType::GreedyPhrase => vec!["word", "words with spaces", "\"and symbols\""],
        }
    }
}


/// What parsing a value of kind `kind` from `old` does, as the parser of
/// that kind says, with the value wrapped in the matching `ParsedValue`.
pub open spec fn kind_read<'i>(
    kind: ArgumentKind,
    old: StringReader<'i>,
    fin: StringReader<'i>,
    r: Result<ParsedValue, CommandSyntaxError<'i>>,
) -> bool {
    match kind {
        ArgumentKind::Bool(_) => match r {
            Ok(v) => v matches ParsedValue::Bool(b) && bool_read(old, fin, Ok(b)),
            Err(e) => bool_read(old, fin, Err(e)),
        },
        ArgumentKind::Integer(t) => match r {
            Ok(v) => v matches ParsedValue::Int(x) && int_read(t, old, fin, Ok(x)),
            Err(e) => int_read(t, old, fin, Err(e)),
        },
        ArgumentKind::Long(t) => match r {
            Ok(v) => v matches ParsedValue::Long(x) && long_read(t, old, fin, Ok(x)),
            Err(e) => long_read(t, old, fin, Err(e)),
        },
        ArgumentKind::Byte(t) => match r {
            Ok(v) => v matches ParsedValue::Byte(x) && i8_read(t, old, fin, Ok(x)),
            Err(e) => i8_read(t, old, fin, Err(e)),
        },
        ArgumentKind::Short(t) => match r {
            Ok(v) => v matches ParsedValue::Short(x) && i16_read(t, old, fin, Ok(x)),
            Err(e) => i16_read(t, old, fin, Err(e)),
        },
        ArgumentKind::UnsignedByte(t) => match r {
            Ok(v) => v matches ParsedValue::UnsignedByte(x) && u8_read(t, old, fin, Ok(x)),
            Err(e) => u8_read(t, old, fin, Err(e)),
        },
        ArgumentKind::UnsignedShort(t) => match r {
            Ok(v) => v matches ParsedValue::UnsignedShort(x) && u16_read(t, old, fin, Ok(x)),
            Err(e) => u16_read(t, old, fin, Err(e)),
        },
        ArgumentKind::UnsignedInt(t) => match r {
            Ok(v) => v matches ParsedValue::UnsignedInt(x) && u32_read(t, old, fin, Ok(x)),
            Err(e) => u32_read(t, old, fin, Err(e)),
        },
        ArgumentKind::Text(t) => match r {
            Ok(v) => v matches ParsedValue::Text(x) && reads_as(
                old,
                fin,
                Ok(x),
                string_scan(t, old.spec_remaining()),
            ),
            Err(e) => reads_as(old, fin, Err(e), string_scan(t, old.spec_remaining())),
        },
    }
}


/// The texts of a list of strings.
pub open spec fn views_of(v: Seq<&str>) -> Seq<Seq<char>> {
    v.map_values(|s: &str| s@)
}

pub open spec fn numeric_examples() -> Seq<Seq<char>> {
    seq!["0"@, "123"@, "-123"@]
}

pub open spec fn string_examples(k: StringArgumentType) -> Seq<Seq<char>> {
    match k {
        StringArgumentType::SingleWord => seq!["word"@, "words_with_underscores"@],
        StringArgumentType::QuotablePhrase => seq!["\"quoted phrase\""@, "word"@, "\"\""@],
        StringArgumentType::GreedyPhrase => seq!["word"@, "words with spaces"@, "\"and symbols\""@],
    }
}

/// Short texts that an argument of kind `k` accepts.
pub open spec fn kind_examples(k: ArgumentKind) -> Seq<Seq<char>> {
    match k {
        ArgumentKind::Bool(_) => seq!["true"@, "false"@],
        ArgumentKind::Integer(_) => numeric_examples(),
        ArgumentKind::Long(_) => numeric_examples(),
        ArgumentKind::Byte(_) => numeric_examples(),
        ArgumentKind::Short(_) => numeric_examples(),
        ArgumentKind::UnsignedByte(_) => numeric_examples(),
        ArgumentKind::UnsignedShort(_) => numeric_examples(),
        ArgumentKind::UnsignedInt(_) => numeric_examples(),
        ArgumentKind::Text(t) => string_examples(t),
    }
}

/// How many chars of `rem` an argument of kind `k` reads, if it reads.
pub open spec fn kind_consumes(k: ArgumentKind, rem: Seq<char>) -> Option<nat> {
    match k {
        ArgumentKind::Bool(_) => match scan_string(rem) {
            Scan::Read { value, used } => if value == "true"@ || value == "false"@ {
                Some(used)
            } else {
                None
            },
            Scan::Failed { .. } => None,
        },
        ArgumentKind::Integer(t) => match decimal_in(number_text(rem), i32::MIN as int, i32::MAX as int) {
            Some(v) => if number_text(rem).len() > 0 && t.min <= v <= t.max {
                Some(number_text(rem).len())
            } else {
                None
            },
            None => None,
        },
        ArgumentKind::Long(t) => match decimal_in(number_text(rem), i64::MIN as int, i64::MAX as int) {
            Some(v) => if number_text(rem).len() > 0 && t.min <= v <= t.max {
                Some(number_text(rem).len())
            } else {
                None
            },
            None => None,
        },
        ArgumentKind::Byte(t) => match decimal_in(number_text(rem), i32::MIN as int, i32::MAX as int) {
            Some(v) => if number_text(rem).len() > 0 && t.min <= v <= t.max {
                Some(number_text(rem).len())
            } else {
                None
            },
            None => None,
        },
        ArgumentKind::Short(t) => match decimal_in(number_text(rem), i32::MIN as int, i32::MAX as int) {
            Some(v) => if number_text(rem).len() > 0 && t.min <= v <= t.max {
                Some(number_text(rem).len())
            } else {
                None
            },
            None => None,
        },
        ArgumentKind::UnsignedByte(t) => match decimal_in(number_text(rem), i32::MIN as int, i32::MAX as int) {
            Some(v) => if number_text(rem).len() > 0 && t.min <= v <= t.max {
                Some(number_text(rem).len())
            } else {
                None
            },
            None => None,
        },
        ArgumentKind::UnsignedShort(t) => match decimal_in(number_text(rem), i32::MIN as int, i32::MAX as int) {
            Some(v) => if number_text(rem).len() > 0 && t.min <= v <= t.max {
                Some(number_text(rem).len())
            } else {
                None
            },
            None => None,
        },
        ArgumentKind::UnsignedInt(t) => match decimal_in(number_text(rem), i64::MIN as int, i64::MAX as int) {
            Some(v) => if number_text(rem).len() > 0 && t.min <= v <= t.max {
                Some(number_text(rem).len())
            } else {
                None
            },
            None => None,
        },
        ArgumentKind::Text(t) => match string_scan(t, rem) {
            Scan::Read { used, .. } => Some(used),
            Scan::Failed { .. } => None,
        },
    }
}

/// A parse reads exactly when `kind_consumes` says, and moves that far.
pub proof fn lemma_kind_read_consumes<'i>(
    k: ArgumentKind,
    old: StringReader<'i>,
    fin: StringReader<'i>,
    r: Result<ParsedValue, CommandSyntaxError<'i>>,
)
    requires
        kind_read(k, old, fin, r),
    ensures
        r is Ok <==> kind_consumes(k, old.spec_remaining()) is Some,
        kind_consumes(k, old.spec_remaining()) matches Some(n) ==> fin.spec_remaining()
            == old.spec_remaining().skip(n as int),
{
}

/// The argument type of an argument node.
#[derive(Debug, Clone, Copy, PartialEq, Eq)]
pub enum ArgumentKind {
    Bool(BoolArgumentType),
    Integer(IntegerArgumentType),
    Long(LongArgumentType),
    Byte(NumericArgumentType<i8>),
    Short(NumericArgumentType<i16>),
    UnsignedByte(NumericArgumentType<u8>),
    UnsignedShort(NumericArgumentType<u16>),
    UnsignedInt(NumericArgumentType<u32>),
    Text(StringArgumentType),
}

impl ArgumentKind {
    /// Reads a value of this type. On failure the reader is where it was.
    pub fn parse<'i>(&self, reader: &mut StringReader<'i>) -> (r: Result<ParsedValue, CommandSyntaxError<'i>>)
        requires
            old(reader).wf(),
        ensures
            kind_read(*self, *old(reader), *final(reader), r),
            r is Err ==> *final(reader) == *old(reader),
    {
        match self {
            ArgumentKind::Bool(t) => match t.parse(reader) {
                Ok(v) => Ok(ParsedValue::Bool(v)),
                Err(e) => Err(e),
            },
            ArgumentKind::Integer(t) => match t.parse(reader) {
                Ok(v) => Ok(ParsedValue::Int(v)),
                Err(e) => Err(e),
            },
            ArgumentKind::Long(t) => match t.parse(reader) {
                Ok(v) => Ok(ParsedValue::Long(v)),
                Err(e) => Err(e),
            },
            ArgumentKind::Byte(t) => match t.parse(reader) {
                Ok(v) => Ok(ParsedValue::Byte(v)),
                Err(e) => Err(e),
            },
            ArgumentKind::Short(t) => match t.parse(reader) {
                Ok(v) => Ok(ParsedValue::Short(v)),
                Err(e) => Err(e),
            },
            ArgumentKind::UnsignedByte(t) => match t.parse(reader) {
                Ok(v) => Ok(ParsedValue::UnsignedByte(v)),
                Err(e) => Err(e),
            },
            ArgumentKind::UnsignedShort(t) => match t.parse(reader) {
                Ok(v) => Ok(ParsedValue::UnsignedShort(v)),
                Err(e) => Err(e),
            },
            ArgumentKind::UnsignedInt(t) => match t.parse(reader) {
                Ok(v) => Ok(ParsedValue::UnsignedInt(v)),
                Err(e) => Err(e),
            },
            ArgumentKind::Text(t) => match t.parse(reader) {
                Ok(v) => Ok(ParsedValue::Text(v)),
                Err(e) => Err(e),
            },
        }
    }

    /// The suggestions of this type for what the builder holds: those of
    /// the boolean type, none for the others.
    pub fn list_suggestions<'i>(&self, builder: SuggestionsBuilder<'i>) -> (r: Suggestions)
        requires
            builder.wf(),
            builder.results_in_input(),
        ensures
            r@ == (match self {
                ArgumentKind::Bool(_) => create_view(
                    builder.spec_input(),
                    builder.spec_result() + bool_candidates(builder),
                ),
                _ => create_view(seq![], seq![]),
            }),
    {
        match self {
            ArgumentKind::Bool(t) => t.list_suggestions(builder),
            _ => Suggestions::empty(),
        }
    }

    pub fn examples(&self) -> (r: Vec<&'static str>)
        ensures
            views_of(r@) == kind_examples(*self),
    {
        match self {
            ArgumentKind::Bool(t) => t.examples(),
            ArgumentKind::Integer(t) => t.examples(),
            ArgumentKind::Long(t) => t.examples(),
            ArgumentKind::Byte(t) => t.examples(),
            ArgumentKind::Short(t) => t.examples(),
            ArgumentKind::UnsignedByte(t) => t.examples(),
            ArgumentKind::UnsignedShort(t) => t.examples(),
            ArgumentKind::UnsignedInt(t) => t.examples(),
            ArgumentKind::Text(t) => t.examples(),
        }
    }
}

/// A type of argument: how a value is read from the input, and some
/// sample inputs. A parse that fails leaves the reader where it was, so
/// that another reading can be tried from the same place.
pub trait ArgumentType {
    type Output;

    fn parse<'i>(&self, reader: &mut StringReader<'i>) -> (r: Result<Self::Output, CommandSyntaxError<'i>>)
        requires
            old(reader).wf(),
        ensures
            final(reader).wf(),
            final(reader).spec_input() == old(reader).spec_input(),
            r is Err ==> *final(reader) == *old(reader),
    ;

    fn examples(&self) -> Vec<&'static str>;
}

impl ArgumentType for BoolArgumentType {
    type Output = bool;

    fn parse<'i>(&self, reader: &mut StringReader<'i>) -> (r: Result<bool, CommandSyntaxError<'i>>) {
        BoolArgumentType::parse(self, reader)
    }

    fn examples(&self) -> Vec<&'static str> {
        BoolArgumentType::examples(self)
    }
}

impl ArgumentType for NumericArgumentType<i32> {
    type Output = i32;

    fn parse<'i>(&self, reader: &mut StringReader<'i>) -> (r: Result<i32, CommandSyntaxError<'i>>) {
        NumericArgumentType::<i32>::parse(self, reader)
    }

    fn examples(&self) -> Vec<&'static str> {
        NumericArgumentType::<i32>::examples(self)
    }
}

impl ArgumentType for NumericArgumentType<i64> {
    type Output = i64;

    fn parse<'i>(&self, reader: &mut StringReader<'i>) -> (r: Result<i64, CommandSyntaxError<'i>>) {
        NumericArgumentType::<i64>::parse(self, reader)
    }

    fn examples(&self) -> Vec<&'static str> {
        NumericArgumentType::<i64>::examples(self)
    }
}

impl ArgumentType for StringArgumentType {
    type Output = String;

    fn parse<'i>(&self, reader: &mut StringReader<'i>) -> (r: Result<String, CommandSyntaxError<'i>>) {
        StringArgumentType::parse(self, reader)
    }

    fn examples(&self) -> Vec<&'static str> {
        StringArgumentType::examples(self)
    }
}

impl ArgumentType for ArgumentKind {
    type Output = ParsedValue;

    fn parse<'i>(&self, reader: &mut StringReader<'i>) -> (r: Result<ParsedValue, CommandSyntaxError<'i>>) {
        ArgumentKind::parse(self, reader)
    }

    fn examples(&self) -> Vec<&'static str> {
        ArgumentKind::examples(self)
    }
}

} // verus!
