//! A cursor over a command's input, with the primitive reads of the grammar.
use vstd::prelude::*;
use vstd::string::*;
use vstd::utf8::*;

use nom::bytes::complete::take_while;

use crate::context::StringReaderContext;
use crate::errors::{CommandErrorType, CommandSyntaxError};
use crate::text::{
    byte_len, byte_length, byte_slice, is_boundary, lemma_prefix_bytes, lemma_split_chars, str_slice,
};

verus! {

broadcast use {vstd::utf8::group_utf8_lib, vstd::string::group_string_axioms};

/// The escape character inside quoted strings.
pub const SYNTAX_ESCAPE: char = '\\';

/// Sets of chars that the scanner consumes in runs.
#[derive(Debug, Clone, Copy, PartialEq, Eq)]
pub enum CharClass {
    /// Digits, `.` and `-`.
    Number,
    /// The chars of an unquoted string.
    Unquoted,
    /// Whitespace as Java's `Character.isWhitespace` classifies it.
    Whitespace,
    /// Anything but the given terminator and the escape character.
    QuotedText(char),
}

pub open spec fn spec_is_allowed_number(c: char) -> bool {
    ('0' <= c && c <= '9') || c == '.' || c == '-'
}

pub open spec fn spec_is_allowed_in_unquoted_string(c: char) -> bool {
    ('0' <= c && c <= '9') || ('A' <= c && c <= 'Z') || ('a' <= c && c <= 'z') || c == '_' || c
        == '-' || c == '.' || c == '+'
}

pub open spec fn spec_is_quoted_string_start(c: char) -> bool {
    c == '"' || c == '\''
}

pub open spec fn spec_is_java_space(c: char) -> bool {
    let u = c as u32;
    u == 0x09 || (0x0A <= u && u <= 0x0D) || (0x1C <= u && u <= 0x1F) || u == 0x20 || u == 0x2028
        || u == 0x2029 || u == 0x1680 || (0x2000 <= u && u <= 0x2006) || (0x2008 <= u && u
        <= 0x200A) || u == 0x205F || u == 0x3000
}

pub open spec fn in_class(class: CharClass, c: char) -> bool {
    match class {
        CharClass::Number => spec_is_allowed_number(c),
        CharClass::Unquoted => spec_is_allowed_in_unquoted_string(c),
        CharClass::Whitespace => spec_is_java_space(c),
        CharClass::QuotedText(t) => c != t && c != SYNTAX_ESCAPE,
    }
}

/// Length of the longest prefix of `s` whose chars all lie in `class`.
pub open spec fn span(s: Seq<char>, class: CharClass) -> nat
    decreases s.len(),
{
    if s.len() > 0 && in_class(class, s[0]) {
        1 + span(s.drop_first(), class)
    } else {
        0
    }
}

/// `s` ends the text `t`.
pub open spec fn is_suffix(s: Seq<char>, t: Seq<char>) -> bool {
    s.len() <= t.len() && t.skip(t.len() - s.len()) == s
}

pub fn is_allowed_number(c: char) -> (r: bool)
    ensures
        r == spec_is_allowed_number(c),
{
    ('0' <= c && c <= '9') || c == '.' || c == '-'
}

pub fn is_allowed_in_unquoted_string(c: char) -> (r: bool)
    ensures
        r == spec_is_allowed_in_unquoted_string(c),
{
    ('0' <= c && c <= '9') || ('A' <= c && c <= 'Z') || ('a' <= c && c <= 'z') || c == '_' || c
        == '-' || c == '.' || c == '+'
}

pub fn is_quoted_string_start(c: char) -> (r: bool)
    ensures
        r == spec_is_quoted_string_start(c),
{
    c == '"' || c == '\''
}

pub fn is_java_space(c: char) -> (r: bool)
    ensures
        r == spec_is_java_space(c),
{
    let u = c as u32;
    u == 0x09 || (0x0A <= u && u <= 0x0D) || (0x1C <= u && u <= 0x1F) || u == 0x20 || u == 0x2028
        || u == 0x2029 || u == 0x1680 || (0x2000 <= u && u <= 0x2006) || (0x2008 <= u && u
        <= 0x200A) || u == 0x205F || u == 0x3000
}

impl CharClass {
    pub fn contains(self, c: char) -> (r: bool)
        ensures
            r == in_class(self, c),
    {
        match self {
            CharClass::Number => is_allowed_number(c),
            CharClass::Unquoted => is_allowed_in_unquoted_string(c),
            CharClass::Whitespace => is_java_space(c),
            CharClass::QuotedText(t) => c != t && c != SYNTAX_ESCAPE,
        }
    }
}

/// Relies on `nom::bytes::complete::take_while` on `&str`: it splits `s`
/// before the first char outside `class` (at the end if there is none) and
/// never fails on complete input. The result is (taken, rest).
#[verifier::external_body]
fn split_while<'a>(s: &'a str, class: CharClass) -> (r: (&'a str, &'a str))
    ensures
        r.0@ + r.1@ == s@,
        forall|i: int| 0 <= i < r.0@.len() ==> in_class(class, #[trigger] r.0@[i]),
        r.1@.len() > 0 ==> !in_class(class, r.1@[0]),
{
    let (rest, taken) = take_while::<_, &str, ()>(|c: char| class.contains(c))(s).unwrap();
    (taken, rest)
}

/// A split whose first part is a maximal run of `class` is cut at `span`.
proof fn lemma_span_split(taken: Seq<char>, rest: Seq<char>, class: CharClass)
    requires
        forall|i: int| 0 <= i < taken.len() ==> in_class(class, #[trigger] taken[i]),
        rest.len() > 0 ==> !in_class(class, rest[0]),
    ensures
        span(taken + rest, class) == taken.len(),
    decreases taken.len(),
{
    let s = taken + rest;
    if taken.len() == 0 {
        assert(s =~= rest);
    } else {
        assert(s.drop_first() =~= taken.drop_first() + rest);
        assert(in_class(class, taken[0]));
        assert forall|i: int| 0 <= i < taken.drop_first().len() implies in_class(
            class,
            #[trigger] taken.drop_first()[i],
        ) by {
            assert(taken.drop_first()[i] == taken[i + 1]);
        }
        lemma_span_split(taken.drop_first(), rest, class);
    }
}

/// Splits a maximal run of `class` off the front of `s`.
fn take_span<'a>(s: &'a str, class: CharClass) -> (r: (&'a str, &'a str))
    ensures
        r.0@ == s@.take(span(s@, class) as int),
        r.1@ == s@.skip(span(s@, class) as int),
        span(s@, class) <= s@.len(),
        is_suffix(r.1@, s@),
        forall|i: int| 0 <= i < r.0@.len() ==> in_class(class, #[trigger] r.0@[i]),
        r.1@.len() > 0 ==> !in_class(class, r.1@[0]),
        byte_len(r.0@) + byte_len(r.1@) == byte_len(s@),
{
    let (taken, rest) = split_while(s, class);
    proof {
        lemma_span_split(taken@, rest@, class);
        assert(s@.take(taken@.len() as int) =~= taken@);
        assert(s@.skip(taken@.len() as int) =~= rest@);
        assert(s@.skip(s@.len() - rest@.len()) =~= rest@);
        lemma_prefix_bytes(taken@, rest@);
    }
    (taken, rest)
}

/// The byte length of a single char is that of its first boundary.
proof fn lemma_first_char_boundary(s: Seq<char>, j: int)
    requires
        s.len() > 0,
        0 < j <= byte_len(seq![s[0]]),
    ensures
        is_boundary(s, j) <==> j == byte_len(seq![s[0]]),
{
    let bytes = encode_utf8(s);
    encode_utf8_first_scalar(s);
    assert(encode_utf8(seq![s[0]]) =~= encode_scalar(s[0] as u32) + encode_utf8(
        seq![s[0]].drop_first(),
    ));
    assert(encode_utf8(seq![s[0]].drop_first()) =~= Seq::<u8>::empty());
    reveal_with_fuel(is_char_boundary, 2);
}

/// Splits the first char off a non-empty `s`: (its text, the char, the rest).
pub fn split_first_char<'a>(s: &'a str) -> (r: (&'a str, char, &'a str))
    requires
        s@.len() > 0,
    ensures
        r.0@ == seq![s@[0]],
        r.1 == s@[0],
        r.2@ == s@.drop_first(),
        byte_len(r.0@) + byte_len(r.2@) == byte_len(s@),
{
    let c = s.get_char(0);
    let ghost first = seq![s@[0]];
    let ghost rest = s@.drop_first();
    proof {
        assert(s@ =~= first + rest);
        lemma_prefix_bytes(first, rest);
        encode_utf8_first_scalar(s@);
    }
    let n = byte_length(s);
    let mut k: usize = 1;
    while !s.is_char_boundary(k)
        invariant
            1 <= k <= byte_len(first),
            n == byte_len(s@),
            s@.len() > 0,
            first == seq![s@[0]],
            byte_len(first) <= n,
        decreases byte_len(first) - k,
    {
        proof {
            lemma_first_char_boundary(s@, k as int);
        }
        k = k + 1;
    }
    proof {
        lemma_first_char_boundary(s@, k as int);
        is_char_boundary_start_end_of_seq(encode_utf8(s@));
    }
    let head = str_slice(s, 0, k);
    let tail = str_slice(s, k, n);
    (head, c, tail)
}


/// The outcome of a read on the text ahead of the cursor.
pub ghost enum Scan {
    /// The read yields `value` and consumes `used` chars.
    Read { value: Seq<char>, used: nat },
    /// The read fails with `kind`, pointing `at` chars ahead of the cursor.
    Failed { kind: CommandErrorType, at: nat },
}

/// `r` as seen after `k` more chars, the first of which gave `prefix`.
pub open spec fn shift(prefix: Seq<char>, k: nat, r: Scan) -> Scan {
    match r {
        Scan::Read { value, used } => Scan::Read { value: prefix + value, used: used + k },
        Scan::Failed { kind, at } => Scan::Failed { kind, at: at + k },
    }
}

/// Reading the body of a quoted string up to its closing `t`: `\\` and
/// `\t` stand for themselves, any other escape is refused.
pub open spec fn scan_until(s: Seq<char>, t: char) -> Scan
    decreases s.len(),
{
    if s.len() == 0 {
        Scan::Failed { kind: CommandErrorType::ReaderExpectedEndOfQuote, at: 0 }
    } else if s[0] == SYNTAX_ESCAPE {
        if s.len() == 1 {
            Scan::Failed { kind: CommandErrorType::ReaderExpectedEndOfQuote, at: 1 }
        } else if s[1] == t || s[1] == SYNTAX_ESCAPE {
            shift(seq![s[1]], 2, scan_until(s.skip(2), t))
        } else {
            Scan::Failed { kind: CommandErrorType::ReaderInvalidEscape(s[1]), at: 1 }
        }
    } else if s[0] == t {
        Scan::Read { value: seq![], used: 1 }
    } else {
        shift(seq![s[0]], 1, scan_until(s.drop_first(), t))
    }
}

/// Reading a quoted string; nothing ahead reads as the empty string.
pub open spec fn scan_quoted(s: Seq<char>) -> Scan {
    if s.len() == 0 {
        Scan::Read { value: seq![], used: 0 }
    } else if !spec_is_quoted_string_start(s[0]) {
        Scan::Failed { kind: CommandErrorType::ReaderExpectedStartOfQuote, at: 0 }
    } else {
        shift(seq![], 1, scan_until(s.drop_first(), s[0]))
    }
}

/// Reading a string: quoted if it starts with a quote, else unquoted.
pub open spec fn scan_string(s: Seq<char>) -> Scan {
    if s.len() > 0 && spec_is_quoted_string_start(s[0]) {
        scan_quoted(s)
    } else {
        Scan::Read {
            value: s.take(span(s, CharClass::Unquoted) as int),
            used: span(s, CharClass::Unquoted),
        }
    }
}

/// An error of kind `kind` that points `at` chars past the cursor of `rd`.
pub open spec fn error_at<'i>(
    rd: StringReader<'i>,
    at: nat,
    kind: CommandErrorType,
    e: CommandSyntaxError<'i>,
) -> bool {
    &&& e.error_type == kind
    &&& e.context matches Some(ctx) && ctx.input@ == rd.spec_input() && ctx.cursor == byte_len(
        rd.spec_input(),
    ) - byte_len(rd.spec_remaining().skip(at as int))
}

/// A read from `old` that left `fin` and returned `r` did what `scan` says;
/// a failed read leaves the reader where it was.
pub open spec fn reads_as<'i>(
    old: StringReader<'i>,
    fin: StringReader<'i>,
    r: Result<String, CommandSyntaxError<'i>>,
    scan: Scan,
) -> bool {
    match scan {
        Scan::Read { value, used } => {
            &&& r matches Ok(v) && v@ == value
            &&& fin.wf()
            &&& fin.spec_input() == old.spec_input()
            &&& used <= old.spec_remaining().len()
            &&& fin.spec_remaining() == old.spec_remaining().skip(used as int)
        },
        Scan::Failed { kind, at } => {
            &&& r matches Err(e) && error_at(old, at, kind, e)
            &&& fin == old
        },
    }
}

/// A read that fails leaves the cursor where it was.
pub proof fn lemma_failed_read_rewinds<'i>(
    old: StringReader<'i>,
    fin: StringReader<'i>,
    r: Result<String, CommandSyntaxError<'i>>,
    scan: Scan,
)
    requires
        reads_as(old, fin, r, scan),
        r is Err,
    ensures
        fin.spec_cursor() == old.spec_cursor(),
{
}

proof fn lemma_shift_shift(a: Seq<char>, i: nat, b: Seq<char>, j: nat, x: Scan)
    ensures
        shift(a, i, shift(b, j, x)) == shift(a + b, i + j, x),
{
    match x {
        Scan::Read { value, used } => {
            assert(a + (b + value) =~= (a + b) + value);
        },
        Scan::Failed { .. } => {},
    }
}

/// A run of plain chars is copied as it is.
proof fn lemma_scan_plain(seg: Seq<char>, rest: Seq<char>, t: char)
    requires
        forall|i: int| 0 <= i < seg.len() ==> in_class(CharClass::QuotedText(t), #[trigger] seg[i]),
    ensures
        scan_until(seg + rest, t) == shift(seg, seg.len(), scan_until(rest, t)),
    decreases seg.len(),
{
    let s = seg + rest;
    if seg.len() == 0 {
        assert(s =~= rest);
        match scan_until(rest, t) {
            Scan::Read { value, used } => {
                assert(seg + value =~= value);
            },
            Scan::Failed { .. } => {},
        }
    } else {
        let tail = seg.drop_first();
        assert(in_class(CharClass::QuotedText(t), seg[0]));
        assert(s[0] == seg[0]);
        assert(s.drop_first() =~= tail + rest);
        assert forall|i: int| 0 <= i < tail.len() implies in_class(
            CharClass::QuotedText(t),
            #[trigger] tail[i],
        ) by {
            assert(tail[i] == seg[i + 1]);
        }
        lemma_scan_plain(tail, rest, t);
        lemma_shift_shift(seq![seg[0]], 1, tail, tail.len(), scan_until(rest, t));
        assert(seq![seg[0]] + tail =~= seg);
    }
}

/// A read never reaches past the end of the text.
proof fn lemma_scan_until_bounds(s: Seq<char>, t: char)
    ensures
        match scan_until(s, t) {
            Scan::Read { used, .. } => 1 <= used <= s.len(),
            Scan::Failed { at, .. } => at <= s.len(),
        },
    decreases s.len(),
{
    if s.len() == 0 {
    } else if s[0] == SYNTAX_ESCAPE {
        if s.len() > 1 && (s[1] == t || s[1] == SYNTAX_ESCAPE) {
            lemma_scan_until_bounds(s.skip(2), t);
        }
    } else if s[0] != t {
        lemma_scan_until_bounds(s.drop_first(), t);
    }
}

/// An escape pair followed by `rest`.
proof fn lemma_scan_escape(e: char, rest: Seq<char>, t: char)
    requires
        e == t || e == SYNTAX_ESCAPE,
    ensures
        scan_until(seq![SYNTAX_ESCAPE, e] + rest, t) == shift(seq![e], 2, scan_until(rest, t)),
{
    let s = seq![SYNTAX_ESCAPE, e] + rest;
    assert(s.skip(2) =~= rest);
}


pub open spec fn is_digit(c: char) -> bool {
    '0' <= c && c <= '9'
}

/// The value of a run of decimal digits.
pub open spec fn digits_value(s: Seq<char>) -> int
    decreases s.len(),
{
    if s.len() == 0 {
        0
    } else {
        digits_value(s.drop_last()) * 10 + ((s.last() as u32) as int - 48)
    }
}

pub open spec fn all_digits(s: Seq<char>) -> bool {
    s.len() > 0 && forall|i: int| 0 <= i < s.len() ==> is_digit(#[trigger] s[i])
}

/// The integer that `s` writes in decimal, with an optional sign.
pub open spec fn decimal_value(s: Seq<char>) -> Option<int> {
    if s.len() > 0 && (s[0] == '+' || s[0] == '-') {
        if all_digits(s.drop_first()) {
            Some(
                if s[0] == '-' {
                    -digits_value(s.drop_first())
                } else {
                    digits_value(s.drop_first())
                },
            )
        } else {
            None
        }
    } else if all_digits(s) {
        Some(digits_value(s))
    } else {
        None
    }
}

/// The decimal value of `s` when it lies in `[lo, hi]`.
pub open spec fn decimal_in(s: Seq<char>, lo: int, hi: int) -> Option<int> {
    match decimal_value(s) {
        Some(v) => if lo <= v <= hi {
            Some(v)
        } else {
            None
        },
        None => None,
    }
}

/// Relies on `str::parse::<i32>`: an optional `+` or `-` then decimal
/// digits, whose value fits in an `i32`; anything else is an error.
#[verifier::external_body]
fn parse_i32(s: &str) -> (r: Option<i32>)
    ensures
        r matches Some(v) ==> decimal_in(s@, i32::MIN as int, i32::MAX as int) == Some(v as int),
        r is None ==> decimal_in(s@, i32::MIN as int, i32::MAX as int) is None,
{
    s.parse::<i32>().ok()
}

/// Relies on `str::parse::<i64>`: an optional `+` or `-` then decimal
/// digits, whose value fits in an `i64`; anything else is an error.
#[verifier::external_body]
fn parse_i64(s: &str) -> (r: Option<i64>)
    ensures
        r matches Some(v) ==> decimal_in(s@, i64::MIN as int, i64::MAX as int) == Some(v as int),
        r is None ==> decimal_in(s@, i64::MIN as int, i64::MAX as int) is None,
{
    s.parse::<i64>().ok()
}


/// What reading a boolean from `old` does: `true` or `false` as a string
/// yields that value; any other string fails with its text; a failure
/// leaves the reader where it was.
pub open spec fn bool_read<'i>(
    old: StringReader<'i>,
    fin: StringReader<'i>,
    r: Result<bool, CommandSyntaxError<'i>>,
) -> bool {
    &&& fin.wf()
    &&& fin.spec_input() == old.spec_input()
    &&& match scan_string(old.spec_remaining()) {
        Scan::Read { value, used } => {
            if value == "true"@ || value == "false"@ {
                &&& r == Ok::<bool, CommandSyntaxError<'i>>(value == "true"@)
                &&& fin.spec_remaining() == old.spec_remaining().skip(used as int)
            } else {
                &&& r matches Err(e) && e.error_type matches CommandErrorType::ReaderInvalidBool(t)
                    && t@ == value && error_at(old, 0, e.error_type, e)
                &&& fin == old
            }
        },
        Scan::Failed { kind, at } => {
            &&& r matches Err(e) && error_at(old, at, kind, e)
            &&& fin == old
        },
    }
}

/// The run of number chars ahead.
pub open spec fn number_text(rem: Seq<char>) -> Seq<char> {
    rem.take(span(rem, CharClass::Number) as int)
}

/// A reader over `input` whose unread part is `remaining`, a suffix of it.
#[derive(Debug, Clone, Copy, PartialEq, Eq)]
pub struct StringReader<'i> {
    input: &'i str,
    remaining: &'i str,
}

impl<'i> StringReader<'i> {
    /// The whole input.
    pub closed spec fn spec_input(&self) -> Seq<char> {
        self.input@
    }

    /// The part of the input not read yet.
    pub closed spec fn spec_remaining(&self) -> Seq<char> {
        self.remaining@
    }

    pub open spec fn wf(&self) -> bool {
        is_suffix(self.spec_remaining(), self.spec_input())
    }

    /// The byte offset of the first unread char.
    pub open spec fn spec_cursor(&self) -> int {
        byte_len(self.spec_input()) - byte_len(self.spec_remaining())
    }

    /// The chars already read.
    pub open spec fn spec_read(&self) -> Seq<char> {
        self.spec_input().take(self.spec_input().len() - self.spec_remaining().len())
    }

    pub proof fn lemma_cursor(&self)
        requires
            self.wf(),
        ensures
            self.spec_input() == self.spec_read() + self.spec_remaining(),
            self.spec_cursor() == byte_len(self.spec_read()),
            0 <= self.spec_cursor() <= byte_len(self.spec_input()),
            is_boundary(self.spec_input(), self.spec_cursor()),
    {
        let inp = self.spec_input();
        assert(inp =~= self.spec_read() + self.spec_remaining());
        lemma_prefix_bytes(self.spec_read(), self.spec_remaining());
    }

    pub fn new(input: &'i str) -> (r: Self)
        ensures
            r.wf(),
            r.spec_input() == input@,
            r.spec_remaining() == input@,
    {
        let r = StringReader { input, remaining: input };
        assert(r.spec_input().skip(0) =~= r.spec_input());
        r
    }

    #[inline]
    pub fn input(&self) -> (r: &'i str)
        ensures
            r@ == self.spec_input(),
    {
        self.input
    }

    #[inline]
    pub fn remaining(&self) -> (r: &'i str)
        ensures
            r@ == self.spec_remaining(),
    {
        self.remaining
    }

    #[inline]
    pub fn cursor(&self) -> (r: usize)
        requires
            self.wf(),
        ensures
            r == self.spec_cursor(),
    {
        proof {
            self.lemma_cursor();
        }
        byte_length(self.input) - byte_length(self.remaining)
    }

    /// Moves the cursor to a byte offset that starts a char of the input.
    pub fn set_cursor(&mut self, cursor: usize)
        requires
            old(self).wf(),
            cursor <= byte_len(old(self).spec_input()),
            is_boundary(old(self).spec_input(), cursor as int),
        ensures
            final(self).wf(),
            final(self).spec_input() == old(self).spec_input(),
            final(self).spec_cursor() == cursor,
            final(self).spec_remaining() == byte_slice(
                old(self).spec_input(),
                cursor as int,
                byte_len(old(self).spec_input()) as int,
            ),
    {
        let n = byte_length(self.input);
        proof {
            is_char_boundary_start_end_of_seq(encode_utf8(self.input@));
        }
        self.remaining = str_slice(self.input, cursor, n);
        proof {
            let inp = self.input@;
            lemma_split_chars(inp, cursor as int);
            let head = byte_slice(inp, 0, cursor as int);
            assert(inp.skip(head.len() as int) =~= self.remaining@);
        }
    }

    /// A snapshot of the input and the cursor, for error messages.
    pub fn context(&self) -> (r: StringReaderContext<'i>)
        requires
            self.wf(),
        ensures
            r.input@ == self.spec_input(),
            r.cursor == self.spec_cursor(),
    {
        StringReaderContext { input: self.input, cursor: self.cursor() }
    }

    /// Skips the next char.
    #[inline]
    pub fn skip(&mut self)
        requires
            old(self).wf(),
            old(self).spec_remaining().len() > 0,
        ensures
            final(self).wf(),
            final(self).spec_input() == old(self).spec_input(),
            final(self).spec_remaining() == old(self).spec_remaining().drop_first(),
    {
        let (_, _, rest) = split_first_char(self.remaining);
        proof {
            let inp = self.input@;
            assert(inp.skip(inp.len() - rest@.len()) =~= inp.skip(
                inp.len() - self.remaining@.len(),
            ).drop_first());
        }
        self.remaining = rest;
    }

    /// Moves past a suffix of what remains.
    fn advance_to(&mut self, rest: &'i str)
        requires
            old(self).wf(),
            is_suffix(rest@, old(self).spec_remaining()),
        ensures
            final(self).wf(),
            final(self).spec_input() == old(self).spec_input(),
            final(self).spec_remaining() == rest@,
    {
        proof {
            let inp = self.input@;
            let rem = self.remaining@;
            assert(inp.skip(inp.len() - rest@.len()) =~= rem.skip(rem.len() - rest@.len()));
        }
        self.remaining = rest;
    }

    /// Skips whitespace as Java's `Character.isWhitespace` classifies it.
    pub fn skip_whitespace(&mut self)
        requires
            old(self).wf(),
        ensures
            final(self).wf(),
            final(self).spec_input() == old(self).spec_input(),
            final(self).spec_remaining() == old(self).spec_remaining().skip(
                span(old(self).spec_remaining(), CharClass::Whitespace) as int,
            ),
    {
        let (_, rest) = take_span(self.remaining, CharClass::Whitespace);
        self.advance_to(rest);
    }


    /// An error of kind `kind` at the cursor.
    pub fn error_here(&self, kind: CommandErrorType) -> (e: CommandSyntaxError<'i>)
        requires
            self.wf(),
        ensures
            error_at(*self, 0, kind, e),
    {
        proof {
            let rem = self.remaining@;
            assert(rem.skip(0) =~= rem);
            assert(self.input@.skip(self.input@.len() - rem.len()) =~= rem);
        }
        self.error_at(kind, self.remaining)
    }

    /// An error of kind `kind` at the start of `rest`, a suffix of the input.
    fn error_at(&self, kind: CommandErrorType, rest: &'i str) -> (e: CommandSyntaxError<'i>)
        requires
            self.wf(),
            is_suffix(rest@, self.spec_input()),
        ensures
            e.error_type == kind,
            e.context matches Some(ctx) && ctx.input@ == self.spec_input() && ctx.cursor
                == byte_len(self.spec_input()) - byte_len(rest@),
    {
        proof {
            let inp = self.input@;
            assert(inp =~= inp.take(inp.len() - rest@.len()) + rest@);
            lemma_prefix_bytes(inp.take(inp.len() - rest@.len()), rest@);
        }
        let cursor = byte_length(self.input) - byte_length(rest);
        CommandSyntaxError::with_context(kind, StringReaderContext { input: self.input, cursor })
    }

    /// Reads up to an unescaped `terminator` and moves past it; the opening
    /// quote has already been read. Fails, leaving the reader where it was,
    /// on an escape other than `\\` or `\<terminator>`, or without a
    /// terminator.
    pub fn read_string_until(&mut self, terminator: char) -> (r: Result<
        String,
        CommandSyntaxError<'i>,
    >)
        requires
            old(self).wf(),
        ensures
            reads_as(*old(self), *final(self), r, scan_until(old(self).spec_remaining(), terminator)),
    {
        let ghost s0 = self.remaining@;
        let mut value = String::new();
        let mut rest: &'i str = self.remaining;
        proof {
            assert(s0.skip(0) =~= s0);
            match scan_until(s0, terminator) {
                Scan::Read { value: v, used } => {
                    assert(Seq::<char>::empty() + v =~= v);
                },
                Scan::Failed { .. } => {},
            }
        }
        loop
            invariant
                self.wf(),
                *self == *old(self),
                s0 == self.spec_remaining(),
                is_suffix(rest@, s0),
                scan_until(s0, terminator) == shift(
                    value@,
                    (s0.len() - rest@.len()) as nat,
                    scan_until(rest@, terminator),
                ),
            decreases rest@.len(),
        {
            let (seg, after) = take_span(rest, CharClass::QuotedText(terminator));
            proof {
                assert(rest@ =~= seg@ + after@);
                lemma_scan_plain(seg@, after@, terminator);
                lemma_shift_shift(
                    value@,
                    (s0.len() - rest@.len()) as nat,
                    seg@,
                    seg@.len(),
                    scan_until(after@, terminator),
                );
            }
            value.append(seg);
            let ghost k: nat = (s0.len() - after@.len()) as nat;
            proof {
                assert(s0.skip(s0.len() - after@.len()) =~= after@);
                assert(self.input@.skip(self.input@.len() - after@.len()) =~= after@);
            }
            if after.is_empty() {
                return Err(self.error_at(CommandErrorType::ReaderExpectedEndOfQuote, after));
            }
            let (_, c, after1) = split_first_char(after);
            proof {
                assert(s0.skip(s0.len() - after1@.len()) =~= after1@);
                assert(self.input@.skip(self.input@.len() - after1@.len()) =~= after1@);
            }
            if c == SYNTAX_ESCAPE {
                if after1.is_empty() {
                    return Err(self.error_at(CommandErrorType::ReaderExpectedEndOfQuote, after1));
                }
                let (head, e, after2) = split_first_char(after1);
                if e == terminator || e == SYNTAX_ESCAPE {
                    proof {
                        assert(after@ =~= seq![SYNTAX_ESCAPE, e] + after2@);
                        lemma_scan_escape(e, after2@, terminator);
                        lemma_shift_shift(value@, k, seq![e], 2, scan_until(after2@, terminator));
                        assert(s0.skip(s0.len() - after2@.len()) =~= after2@);
                    }
                    value.append(head);
                    rest = after2;
                } else {
                    return Err(
                        self.error_at(CommandErrorType::ReaderInvalidEscape(e), after1),
                    );
                }
            } else {
                proof {
                    assert(s0.skip(s0.len() - after1@.len()) =~= after1@);
                    assert(value@ + Seq::<char>::empty() =~= value@);
                }
                self.advance_to(after1);
                return Ok(value);
            }
        }
    }


    /// Reads a string between single or double quotes, with the escapes
    /// `\\` and `\<quote>`. Nothing ahead reads as the empty string. A
    /// failure leaves the reader where it was.
    pub fn read_quoted_string(&mut self) -> (r: Result<String, CommandSyntaxError<'i>>)
        requires
            old(self).wf(),
        ensures
            reads_as(*old(self), *final(self), r, scan_quoted(old(self).spec_remaining())),
    {
        let ghost rem = self.remaining@;
        if self.remaining.is_empty() {
            proof {
                assert(rem.skip(0) =~= rem);
            }
            return Ok(String::new());
        }
        let (_, quote, after) = split_first_char(self.remaining);
        if !is_quoted_string_start(quote) {
            proof {
                assert(rem.skip(0) =~= rem);
                assert(self.input@.skip(self.input@.len() - rem.len()) =~= rem);
            }
            return Err(self.error_at(CommandErrorType::ReaderExpectedStartOfQuote, self.remaining));
        }
        let start = *self;
        proof {
            assert(rem.skip(rem.len() - after@.len()) =~= after@);
        }
        self.advance_to(after);
        let r = self.read_string_until(quote);
        proof {
            lemma_scan_until_bounds(after@, quote);
            match scan_until(after@, quote) {
                Scan::Read { value, used } => {
                    assert(Seq::<char>::empty() + value =~= value);
                    assert(after@.skip(used as int) =~= rem.skip(used + 1int));
                },
                Scan::Failed { kind, at } => {
                    assert(after@.skip(at as int) =~= rem.skip(at + 1int));
                },
            }
        }
        match r {
            Ok(v) => Ok(v),
            Err(e) => {
                *self = start;
                Err(e)
            },
        }
    }

    /// Reads a quoted string if a quote comes next, else an unquoted one.
    pub fn read_string(&mut self) -> (r: Result<String, CommandSyntaxError<'i>>)
        requires
            old(self).wf(),
        ensures
            reads_as(*old(self), *final(self), r, scan_string(old(self).spec_remaining())),
    {
        if !self.remaining.is_empty() {
            let c = self.remaining.get_char(0);
            if is_quoted_string_start(c) {
                return self.read_quoted_string();
            }
        }
        let word = self.read_unquoted_string();
        match word {
            Ok(w) => Ok(w.to_owned()),
            Err(e) => Err(e),
        }
    }

    /// Reads a string that must be `true` or `false`. Anything else fails
    /// with the text read, and the reader stays where it was.
    pub fn read_boolean(&mut self) -> (r: Result<bool, CommandSyntaxError<'i>>)
        requires
            old(self).wf(),
        ensures
            bool_read(*old(self), *final(self), r),
    {
        let start = *self;
        let value = match self.read_string() {
            Ok(v) => v,
            Err(e) => return Err(e),
        };
        let yes = "true".to_owned();
        let no = "false".to_owned();
        if value == yes {
            return Ok(true);
        }
        if value == no {
            return Ok(false);
        }
        *self = start;
        proof {
            let rem = self.remaining@;
            assert(rem.skip(0) =~= rem);
            assert(self.input@.skip(self.input@.len() - rem.len()) =~= rem);
        }
        Err(self.error_at(CommandErrorType::ReaderInvalidBool(value), self.remaining))
    }


    /// The run of `[0-9.\-]` ahead, without moving.
    pub fn peek_number(&self) -> (r: &'i str)
        requires
            self.wf(),
        ensures
            r@ == number_text(self.spec_remaining()),
    {
        let (number, _) = take_span(self.remaining, CharClass::Number);
        number
    }

    /// Reads a run of `[0-9.\-]` as an `i32`. An empty run fails with
    /// `ReaderExpectedInt`, a run that is no `i32` with `ReaderInvalidInt`;
    /// either way the reader stays where it was.
    pub fn read_int(&mut self) -> (r: Result<i32, CommandSyntaxError<'i>>)
        requires
            old(self).wf(),
        ensures
            final(self).wf(),
            final(self).spec_input() == old(self).spec_input(),
            ({
                let rem = old(self).spec_remaining();
                let text = number_text(rem);
                if text.len() == 0 {
                    &&& r matches Err(e) && error_at(
                        *old(self),
                        0,
                        CommandErrorType::ReaderExpectedInt,
                        e,
                    )
                    &&& *final(self) == *old(self)
                } else {
                    match decimal_in(text, i32::MIN as int, i32::MAX as int) {
                        Some(v) => {
                            &&& r == Ok::<i32, CommandSyntaxError<'i>>(v as i32)
                            &&& final(self).spec_remaining() == rem.skip(text.len() as int)
                        },
                        None => {
                            &&& r matches Err(e) && e.error_type matches CommandErrorType::ReaderInvalidInt(
                                t,
                            ) && t@ == text && error_at(*old(self), 0, e.error_type, e)
                            &&& *final(self) == *old(self)
                        },
                    }
                }
            }),
    {
        let (number, rest) = take_span(self.remaining, CharClass::Number);
        proof {
            let rem = self.remaining@;
            assert(rem.skip(0) =~= rem);
            assert(self.input@.skip(self.input@.len() - rem.len()) =~= rem);
        }
        if number.is_empty() {
            return Err(self.error_at(CommandErrorType::ReaderExpectedInt, self.remaining));
        }
        match parse_i32(number) {
            Some(v) => {
                self.advance_to(rest);
                Ok(v)
            },
            None => Err(
                self.error_at(CommandErrorType::ReaderInvalidInt(number.to_owned()), self.remaining),
            ),
        }
    }

    /// Reads a run of `[0-9.\-]` as an `i64`. An empty run fails with
    /// `ReaderExpectedLong`, a run that is no `i64` with `ReaderInvalidLong`;
    /// either way the reader stays where it was.
    pub fn read_long(&mut self) -> (r: Result<i64, CommandSyntaxError<'i>>)
        requires
            old(self).wf(),
        ensures
            final(self).wf(),
            final(self).spec_input() == old(self).spec_input(),
            ({
                let rem = old(self).spec_remaining();
                let text = number_text(rem);
                if text.len() == 0 {
                    &&& r matches Err(e) && error_at(
                        *old(self),
                        0,
                        CommandErrorType::ReaderExpectedLong,
                        e,
                    )
                    &&& *final(self) == *old(self)
                } else {
                    match decimal_in(text, i64::MIN as int, i64::MAX as int) {
                        Some(v) => {
                            &&& r == Ok::<i64, CommandSyntaxError<'i>>(v as i64)
                            &&& final(self).spec_remaining() == rem.skip(text.len() as int)
                        },
                        None => {
                            &&& r matches Err(e) && e.error_type matches CommandErrorType::ReaderInvalidLong(
                                t,
                            ) && t@ == text && error_at(*old(self), 0, e.error_type, e)
                            &&& *final(self) == *old(self)
                        },
                    }
                }
            }),
    {
        let (number, rest) = take_span(self.remaining, CharClass::Number);
        proof {
            let rem = self.remaining@;
            assert(rem.skip(0) =~= rem);
            assert(self.input@.skip(self.input@.len() - rem.len()) =~= rem);
        }
        if number.is_empty() {
            return Err(self.error_at(CommandErrorType::ReaderExpectedLong, self.remaining));
        }
        match parse_i64(number) {
            Some(v) => {
                self.advance_to(rest);
                Ok(v)
            },
            None => Err(
                self.error_at(CommandErrorType::ReaderInvalidLong(number.to_owned()), self.remaining),
            ),
        }
    }

    /// Reads a run of `[0-9A-Za-z_\-.+]`; never fails.
    pub fn read_unquoted_string(&mut self) -> (r: Result<&'i str, CommandSyntaxError<'i>>)
        requires
            old(self).wf(),
        ensures
            final(self).wf(),
            final(self).spec_input() == old(self).spec_input(),
            ({
                let n = span(old(self).spec_remaining(), CharClass::Unquoted) as int;
                &&& r matches Ok(v) && v@ == old(self).spec_remaining().take(n)
                &&& n <= old(self).spec_remaining().len()
                &&& final(self).spec_remaining() == old(self).spec_remaining().skip(n)
            }),
    {
        let (taken, rest) = take_span(self.remaining, CharClass::Unquoted);
        self.advance_to(rest);
        Ok(taken)
    }
}

} // verus!
