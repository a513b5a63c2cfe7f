//! The decision half of the execution pipeline.
//!
//! `plan` classifies a tokenized line and fixes everything that does
//! not need the outside world: which builtin runs, what text echo
//! writes and where, how a redirection clause cuts the argument list,
//! and the exact messages the interpreter prints.  The thin driver
//! around the library performs the chosen actions.
use vstd::prelude::*;
use crate::command::{Command, spec_command_of};
use crate::redirect::{Redirect, RedirectPlan, first_redirect, redirection, spec_redirect_of};

verus! {

/// Space-joined views of the tokens `a[from .. to]`.
pub open spec fn spec_join(a: Seq<String>, from: int, to: int) -> Seq<char>
    decreases to - from,
{
    if to <= from {
        Seq::<char>::empty()
    } else if to == from + 1 {
        a[from]@
    } else {
        spec_join(a, from, to - 1) + " "@ + a[to - 1]@
    }
}

/// A leading `~` replaced by the home directory path.
pub open spec fn spec_expand_home(arg: Seq<char>, home: Seq<char>) -> Seq<char> {
    if arg.len() > 0 && arg[0] == '~' {
        home + arg.skip(1)
    } else {
        arg
    }
}

/// What one line of input asks the interpreter to do.
pub enum Plan {
    /// No tokens: skip the iteration.
    Noop,
    /// Terminate the process with status 0.
    Exit,
    /// Write `line` to standard output.
    EchoOut { line: String },
    /// Write `line` to the file `target`, appending or truncating.
    EchoFile { target: String, append: bool, line: String },
    /// An echo whose redirection operator has no target: report the
    /// missing filename and do nothing else.
    EchoMissingTarget,
    /// Print the current working directory.
    Pwd,
    /// `cd` without an argument: do nothing.
    CdNoop,
    /// Change directory to `target` (home-expanded); on failure report
    /// with the raw argument.
    Cd { target: String, raw: String },
    /// Report for each name whether it is a builtin or where it is
    /// found on the search path.
    TypeQuery { names: Vec<String> },
    /// Resolve `name` on the search path and run it with `args`,
    /// routing output per `redirect`.
    External { name: String, args: Vec<String>, redirect: RedirectPlan },
}

/// The plan an echo line gets.
pub open spec fn echo_plan_ok(a: Seq<String>, r: Plan) -> bool {
    match first_redirect(a) {
        None => r matches Plan::EchoOut { line } && line@ == spec_join(a, 1, a.len() as int)
            + "\n"@,
        Some(idx) => if idx == a.len() - 1 {
            r is EchoMissingTarget
        } else {
            r matches Plan::EchoFile { target, append, line } && target@ == a[idx + 1]@ && append
                == (spec_redirect_of(a[idx]@) == Some(Redirect::OutputAppend)
                || spec_redirect_of(a[idx]@) == Some(Redirect::ErrAppend)) && line@ == spec_join(
                a,
                1,
                idx,
            ) + "\n"@
        },
    }
}

/// The plan a cd line gets.
pub open spec fn cd_plan_ok(a: Seq<String>, home: Seq<char>, r: Plan) -> bool {
    if a.len() > 1 {
        r matches Plan::Cd { target, raw } && raw@ == a[1]@ && target@ == spec_expand_home(
            a[1]@,
            home,
        )
    } else {
        r is CdNoop
    }
}

/// The plan a type line gets: the names after the command, in order.
pub open spec fn type_plan_ok(a: Seq<String>, r: Plan) -> bool {
    r matches Plan::TypeQuery { names } && names@.len() == a.len() - 1 && (forall|i: int|
        0 <= i < names@.len() ==> (#[trigger] names@[i])@ == a[i + 1]@)
}

/// The plan an external line gets: the command name, the arguments cut
/// at the redirection clause, and the capture taken from it.
pub open spec fn external_plan_ok(a: Seq<String>, r: Plan) -> bool {
    r matches Plan::External { name, args, redirect } && name@ == a[0]@ && {
        let cut0 = match first_redirect(a) {
            None => a.len() as int,
            Some(idx) => idx,
        };
        let cut = if cut0 < 1 {
            1
        } else {
            cut0
        };
        &&& args@.len() == cut - 1
        &&& (forall|i: int| 0 <= i < args@.len() ==> (#[trigger] args@[i])@ == a[i + 1]@)
        &&& match first_redirect(a) {
            None => redirect is NoRedirect,
            Some(idx) => if idx == a.len() - 1 {
                redirect is MissingTarget
            } else {
                redirect matches RedirectPlan::Capture { redirect: rd, target } && Some(rd)
                    == spec_redirect_of(a[idx]@) && target@ == a[idx + 1]@
            },
        }
    }
}

/// Clones the tokens `v[from .. to]`.
fn slice_clone(v: &Vec<String>, from: usize, to: usize) -> (r: Vec<String>)
    requires
        to <= v@.len(),
    ensures
        r@.len() == if to >= from {
            to - from
        } else {
            0
        },
        forall|i: int| 0 <= i < r@.len() ==> (#[trigger] r@[i])@ == v@[from + i]@,
{
    let mut r: Vec<String> = Vec::new();
    if to <= from {
        return r;
    }
    let mut i = from;
    while i < to
        invariant
            from <= i <= to <= v@.len(),
            r@.len() == i - from,
            forall|k: int| 0 <= k < r@.len() ==> (#[trigger] r@[k])@ == v@[from + k]@,
        decreases to - i,
    {
        r.push(v[i].clone());
        i = i + 1;
    }
    r
}

/// Joins the tokens `v[from .. to]` with single spaces.
fn joined(v: &Vec<String>, from: usize, to: usize) -> (r: String)
    requires
        to <= v@.len(),
    ensures
        r@ == spec_join(v@, from as int, to as int),
{
    let mut out = String::new();
    if to <= from {
        return out;
    }
    let mut i = from;
    while i < to
        invariant
            from <= i <= to <= v@.len(),
            out@ == spec_join(v@, from as int, i as int),
        decreases to - i,
    {
        if i > from {
            out.append(" ");
        }
        out.append(v[i].as_str());
        i = i + 1;
    }
    out
}

/// The text an echo of the tokens `v[from .. to]` writes: the tokens
/// space-joined, with a trailing newline.
pub fn echo_line(v: &Vec<String>, from: usize, to: usize) -> (r: String)
    requires
        to <= v@.len(),
    ensures
        r@ == spec_join(v@, from as int, to as int) + "\n"@,
{
    let mut out = joined(v, from, to);
    out.append("\n");
    out
}

/// A leading `~` replaced by the home directory path.
pub fn expand_home(arg: &str, home: &str) -> (r: String)
    ensures
        r@ == spec_expand_home(arg@, home@),
{
    let n = arg.unicode_len();
    if n > 0 && arg.get_char(0) == '~' {
        let mut out = home.to_owned();
        out.append(arg.substring_char(1, n));
        out
    } else {
        arg.to_owned()
    }
}

/// Classifies a tokenized line and fixes every decision that does not
/// need the file system, the environment, or a child process.
pub fn plan(args: &Vec<String>, home: &str) -> (r: Plan)
    ensures
        args@.len() == 0 ==> r is Noop,
        args@.len() > 0 ==> {
            &&& (spec_command_of(args@[0]@) == Some(Command::Exit) ==> r is Exit)
            &&& (spec_command_of(args@[0]@) == Some(Command::Pwd) ==> r is Pwd)
            &&& (spec_command_of(args@[0]@) == Some(Command::Echo) ==> echo_plan_ok(args@, r))
            &&& (spec_command_of(args@[0]@) == Some(Command::Cd) ==> cd_plan_ok(args@, home@, r))
            &&& (spec_command_of(args@[0]@) == Some(Command::Type) ==> type_plan_ok(args@, r))
            &&& (spec_command_of(args@[0]@) is None ==> external_plan_ok(args@, r))
        },
{
    if args.len() == 0 {
        return Plan::Noop;
    }
    match Command::from_token(args[0].as_str()) {
        Ok(Command::Exit) => Plan::Exit,
        Ok(Command::Pwd) => Plan::Pwd,
        Ok(Command::Echo) => match redirection(args) {
            Ok(None) => Plan::EchoOut { line: echo_line(args, 1, args.len()) },
            Ok(Some((rd, target, idx))) => Plan::EchoFile {
                target,
                append: rd.is_append(),
                line: echo_line(args, 1, idx),
            },
            Err(_) => Plan::EchoMissingTarget,
        },
        Ok(Command::Cd) => {
            if args.len() > 1 {
                let raw = args[1].clone();
                let target = expand_home(args[1].as_str(), home);
                Plan::Cd { target, raw }
            } else {
                Plan::CdNoop
            }
        },
        Ok(Command::Type) => {
            let names = slice_clone(args, 1, args.len());
            Plan::TypeQuery { names }
        },
        Err(_) => {
            let name = args[0].clone();
            match redirection(args) {
                Ok(None) => Plan::External {
                    name,
                    args: slice_clone(args, 1, args.len()),
                    redirect: RedirectPlan::NoRedirect,
                },
                Ok(Some((rd, target, idx))) => Plan::External {
                    name,
                    args: slice_clone(args, 1, idx),
                    redirect: RedirectPlan::Capture { redirect: rd, target },
                },
                Err(_) => {
                    let cut = args.len() - 1;
                    Plan::External {
                        name,
                        args: slice_clone(args, 1, cut),
                        redirect: RedirectPlan::MissingTarget,
                    }
                },
            }
        },
    }
}

/// The message reported when `cd` cannot change to `path`.
pub fn cd_error_message(path: &str) -> (r: String)
    ensures
        r@ == "cd: "@ + path@ + ": No such file or directory"@,
{
    let mut s = String::from_str("cd: ");
    s.append(path);
    s.append(": No such file or directory");
    s
}

/// The message reported when `name` resolves to no executable.
pub fn not_found_message(name: &str) -> (r: String)
    ensures
        r@ == name@ + ": not found"@,
{
    let mut s = name.to_owned();
    s.append(": not found");
    s
}

/// The `type` report for a builtin name.
pub fn type_builtin_message(name: &str) -> (r: String)
    ensures
        r@ == name@ + " is a shell builtin"@,
{
    let mut s = name.to_owned();
    s.append(" is a shell builtin");
    s
}

/// The `type` report for a name found on the search path.
pub fn type_found_message(name: &str, path: &str) -> (r: String)
    ensures
        r@ == name@ + " is "@ + path@,
{
    let mut s = name.to_owned();
    s.append(" is ");
    s.append(path);
    s
}

/// The report for a redirection operator with no target following it.
pub fn missing_filename_message() -> (r: String)
    ensures
        r@ == "missing filename"@,
{
    String::from_str("missing filename")
}

} // verus!
