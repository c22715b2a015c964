//! Positions in the input, parsed arguments and the context a command runs in.
use std::rc::Rc;

use vstd::prelude::*;

use crate::arguments::ParsedValue;
use crate::tree::{CommandId, ModifierId};

verus! {

/// A snapshot of a reader: the whole input and a byte position in it.
#[derive(Debug, Clone, Copy, PartialEq, Eq)]
pub struct StringReaderContext<'i> {
    pub input: &'i str,
    pub cursor: usize,
}

/// A half-open byte range `[start, end)` of the command text.
#[derive(Debug, Clone, Copy, PartialEq, Eq, Structural, Hash, Default)]
pub struct StringRange {
    pub start: usize,
    pub end: usize,
}

impl StringRange {
    /// The empty range at `pos`.
    pub fn at(pos: usize) -> (r: Self)
        ensures
            r == (StringRange { start: pos, end: pos }),
    {
        StringRange { start: pos, end: pos }
    }

    pub fn between(start: usize, end: usize) -> (r: Self)
        ensures
            r == (StringRange { start, end }),
    {
        StringRange { start, end }
    }

    /// The smallest range that covers both.
    pub fn encompassing(a: StringRange, b: StringRange) -> (r: Self)
        ensures
            r.start == if a.start <= b.start {
                a.start
            } else {
                b.start
            },
            r.end == if a.end >= b.end {
                a.end
            } else {
                b.end
            },
    {
        let start = if a.start <= b.start {
            a.start
        } else {
            b.start
        };
        let end = if a.end >= b.end {
            a.end
        } else {
            b.end
        };
        StringRange { start, end }
    }
}

/// A value parsed from a byte range of the input.
#[derive(Debug, Clone, PartialEq, Eq, Hash)]
pub struct ParsedArgument<PV> {
    range: StringRange,
    result: PV,
}

impl<PV> ParsedArgument<PV> {
    pub closed spec fn spec_range(&self) -> StringRange {
        self.range
    }

    pub closed spec fn spec_result(&self) -> PV {
        self.result
    }

    pub fn new(start: usize, end: usize, result: PV) -> (r: Self)
        ensures
            r.spec_range() == (StringRange { start, end }),
            r.spec_result() == result,
    {
        ParsedArgument { range: StringRange { start, end }, result }
    }

    pub fn range(&self) -> (r: StringRange)
        ensures
            r == self.spec_range(),
    {
        self.range
    }

    pub fn result(&self) -> (r: &PV)
        ensures
            *r == self.spec_result(),
    {
        &self.result
    }
}

/// Relies on `Rc::clone`: another pointer to the same value.
#[verifier::external_body]
fn share<T>(p: &Rc<T>) -> (r: Rc<T>)
    ensures
        r == *p,
{
    Rc::clone(p)
}

/// The named arguments parsed for a command.
pub type Arguments = Vec<(String, ParsedArgument<ParsedValue>)>;

/// What a command runs with: its source, the input, the parsed arguments,
/// the range it covers, and the context of the redirect it continues into.
pub struct CommandContext<'i, CS> {
    source: CS,
    input: &'i str,
    command: Option<CommandId>,
    arguments: Rc<Arguments>,
    range: StringRange,
    child: Option<Rc<CommandContext<'i, CS>>>,
    modifier: Option<ModifierId>,
    forks: bool,
}

impl<'i, CS> CommandContext<'i, CS> {
    pub closed spec fn spec_source(&self) -> CS {
        self.source
    }

    pub closed spec fn spec_input(&self) -> &'i str {
        self.input
    }

    pub closed spec fn spec_command(&self) -> Option<CommandId> {
        self.command
    }

    pub closed spec fn spec_range(&self) -> StringRange {
        self.range
    }

    pub closed spec fn spec_modifier(&self) -> Option<ModifierId> {
        self.modifier
    }

    pub closed spec fn spec_forks(&self) -> bool {
        self.forks
    }

    pub closed spec fn spec_arguments(&self) -> Arguments {
        *self.arguments
    }

    /// The arguments, shared with the contexts cloned from this one.
    pub closed spec fn spec_shared_arguments(&self) -> Rc<Arguments> {
        self.arguments
    }

    pub closed spec fn spec_child(&self) -> Option<Rc<CommandContext<'i, CS>>> {
        self.child
    }

    pub fn new(
        source: CS,
        input: &'i str,
        arguments: Rc<Arguments>,
        command: Option<CommandId>,
        range: StringRange,
        child: Option<Rc<CommandContext<'i, CS>>>,
        modifier: Option<ModifierId>,
        forks: bool,
    ) -> (r: Self)
        ensures
            r.spec_source() == source,
            r.spec_input() == input,
            r.spec_arguments() == *arguments,
            r.spec_command() == command,
            r.spec_range() == range,
            r.spec_child() == child,
            r.spec_modifier() == modifier,
            r.spec_forks() == forks,
    {
        CommandContext { source, input, command, arguments, range, child, modifier, forks }
    }

    /// This context for another source.
    pub fn clone_for(&self, source: CS) -> (r: Self)
        ensures
            r.spec_source() == source,
            r.spec_input() == self.spec_input(),
            r.spec_command() == self.spec_command(),
            r.spec_arguments() == self.spec_arguments(),
            r.spec_shared_arguments() == self.spec_shared_arguments(),
            r.spec_range() == self.spec_range(),
            r.spec_child() == self.spec_child(),
            r.spec_modifier() == self.spec_modifier(),
            r.spec_forks() == self.spec_forks(),
    {
        let child = match &self.child {
            Some(c) => Some(share(c)),
            None => None,
        };
        CommandContext {
            source,
            input: self.input,
            command: self.command,
            arguments: share(&self.arguments),
            range: self.range,
            child,
            modifier: self.modifier,
            forks: self.forks,
        }
    }

    pub fn source(&self) -> (r: &CS)
        ensures
            *r == self.spec_source(),
    {
        &self.source
    }

    /// The context of the redirect this one continues into.
    pub fn child(&self) -> (r: Option<&CommandContext<'i, CS>>)
        ensures
            r is Some <==> self.spec_child() is Some,
            r matches Some(c) ==> self.spec_child() matches Some(rc) && *c == *rc,
    {
        match &self.child {
            Some(c) => Some(&**c),
            None => None,
        }
    }

    pub fn input(&self) -> (r: &'i str)
        ensures
            r == self.spec_input(),
    {
        self.input
    }

    pub fn range(&self) -> (r: StringRange)
        ensures
            r == self.spec_range(),
    {
        self.range
    }

    pub fn command(&self) -> (r: Option<CommandId>)
        ensures
            r == self.spec_command(),
    {
        self.command
    }

    pub fn forks(&self) -> (r: bool)
        ensures
            r == self.spec_forks(),
    {
        self.forks
    }

    pub fn modifier(&self) -> (r: Option<ModifierId>)
        ensures
            r == self.spec_modifier(),
    {
        self.modifier
    }

    /// The arguments parsed, by name.
    pub fn arguments(&self) -> (r: &Arguments)
        ensures
            *r == self.spec_arguments(),
    {
        &self.arguments
    }
}

} // verus!
