use vstd::prelude::*;

use std::num::ParseIntError;

verus! {

/// A command whose first word names no command.
pub struct UnknownCommand {
    pub cmd: String,
}

impl UnknownCommand {
    pub fn new(cmd: &str) -> (r: Self)
        ensures
            r.cmd@ == cmd@,
    {
        Self { cmd: cmd.to_owned() }
    }
}

/// A command that ended before all of its arguments were given.
pub struct NotEnoughArguments {
    pub cmd: String,
}

impl NotEnoughArguments {
    pub fn new(cmd: &str) -> (r: Self)
        ensures
            r.cmd@ == cmd@,
    {
        Self { cmd: cmd.to_owned() }
    }
}

/// An argument that the command does not accept.
pub struct InvalidArgument {
    pub argument: String,
}

impl InvalidArgument {
    pub fn new(argument: &str) -> (r: Self)
        ensures
            r.argument@ == argument@,
    {
        Self { argument: argument.to_owned() }
    }
}

/// An option given without its value.
pub struct OptionValueMissing;

/// Why a line of the protocol could not be handled.
pub enum UCIError {
    UnknownCommand(UnknownCommand),
    NotEnoughArguments(NotEnoughArguments),
    OptionValueMissing(OptionValueMissing),
    InvalidArgument(InvalidArgument),
    ParseIntError(ParseIntError),
}

/// `e` reports that the command `cmd` lacks arguments.
pub open spec fn is_not_enough(e: UCIError, cmd: Seq<char>) -> bool {
    e matches UCIError::NotEnoughArguments(x) && x.cmd@ == cmd
}

/// `e` reports the invalid argument `arg`.
pub open spec fn is_invalid(e: UCIError, arg: Seq<char>) -> bool {
    e matches UCIError::InvalidArgument(x) && x.argument@ == arg
}

/// `e` reports that the command `cmd` is unknown.
pub open spec fn is_unknown(e: UCIError, cmd: Seq<char>) -> bool {
    e matches UCIError::UnknownCommand(x) && x.cmd@ == cmd
}

} // verus!
