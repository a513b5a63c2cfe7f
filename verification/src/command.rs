//! The closed set of builtin commands and the classifier that maps the
//! first token of a line to one of them.
use vstd::prelude::*;
use crate::strutil::str_eq;

verus! {

/// A builtin operation of the interpreter.
#[derive(PartialEq, Eq, Structural, Clone, Copy, Debug)]
pub enum Command {
    Exit,
    Echo,
    Type,
    Pwd,
    Cd,
}

/// The token names no builtin; the command is external.
#[derive(PartialEq, Eq, Structural, Clone, Copy, Debug)]
pub struct ParseCommandError;

/// Which builtin, if any, a token names.
pub open spec fn spec_command_of(s: Seq<char>) -> Option<Command> {
    if s == "exit"@ {
        Some(Command::Exit)
    } else if s == "echo"@ {
        Some(Command::Echo)
    } else if s == "type"@ {
        Some(Command::Type)
    } else if s == "pwd"@ {
        Some(Command::Pwd)
    } else if s == "cd"@ {
        Some(Command::Cd)
    } else {
        None
    }
}

impl Command {
    /// Classifies a token; `Err` means the token names no builtin and
    /// is to be resolved as an external command.
    pub fn from_token(s: &str) -> (r: Result<Command, ParseCommandError>)
        ensures
            match r {
                Ok(c) => spec_command_of(s@) == Some(c),
                Err(_) => spec_command_of(s@) is None,
            },
    {
        if str_eq(s, "exit") {
            Ok(Command::Exit)
        } else if str_eq(s, "echo") {
            Ok(Command::Echo)
        } else if str_eq(s, "type") {
            Ok(Command::Type)
        } else if str_eq(s, "pwd") {
            Ok(Command::Pwd)
        } else if str_eq(s, "cd") {
            Ok(Command::Cd)
        } else {
            Err(ParseCommandError)
        }
    }

    /// The name under which the builtin is addressed.
    pub fn name(&self) -> (r: String)
        ensures
            match *self {
                Command::Exit => r@ == "exit"@,
                Command::Echo => r@ == "echo"@,
                Command::Type => r@ == "type"@,
                Command::Pwd => r@ == "pwd"@,
                Command::Cd => r@ == "cd"@,
            },
    {
        match self {
            Command::Exit => String::from_str("exit"),
            Command::Echo => String::from_str("echo"),
            Command::Type => String::from_str("type"),
            Command::Pwd => String::from_str("pwd"),
            Command::Cd => String::from_str("cd"),
        }
    }
}

} // verus!
