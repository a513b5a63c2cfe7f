//! The redirection operators and the scan that finds the first one in a
//! token sequence together with its target path.
use vstd::prelude::*;
use crate::strutil::str_eq;

verus! {

/// Output capture: which stream and whether the file is truncated or
/// appended to.
#[derive(PartialEq, Eq, Structural, Clone, Copy, Debug)]
pub enum Redirect {
    OutputRedir,
    ErrRedir,
    OutputAppend,
    ErrAppend,
}

/// A redirection operator stands last, so no target path follows it.
#[derive(PartialEq, Eq, Structural, Clone, Copy, Debug)]
pub struct ParseRedirectError;

/// Which redirection operator, if any, a token is.
pub open spec fn spec_redirect_of(s: Seq<char>) -> Option<Redirect> {
    if s == ">"@ || s == "1>"@ {
        Some(Redirect::OutputRedir)
    } else if s == "2>"@ {
        Some(Redirect::ErrRedir)
    } else if s == ">>"@ || s == "1>>"@ {
        Some(Redirect::OutputAppend)
    } else if s == "2>>"@ {
        Some(Redirect::ErrAppend)
    } else {
        None
    }
}

/// The token is one of the four redirection operators.
pub open spec fn is_redirect_token(s: Seq<char>) -> bool {
    spec_redirect_of(s) is Some
}

/// Index of the first redirection operator at or after position `i`.
pub open spec fn first_redirect_from(args: Seq<String>, i: int) -> Option<int>
    decreases args.len() - i,
{
    if i < 0 || i >= args.len() {
        None
    } else if is_redirect_token(args[i]@) {
        Some(i)
    } else {
        first_redirect_from(args, i + 1)
    }
}

/// Index of the first redirection operator of the token sequence.
pub open spec fn first_redirect(args: Seq<String>) -> Option<int> {
    first_redirect_from(args, 0)
}

impl Redirect {
    /// Parses a single token as a redirection operator.
    pub fn from_token(s: &str) -> (r: Result<Redirect, ParseRedirectError>)
        ensures
            match r {
                Ok(rd) => spec_redirect_of(s@) == Some(rd),
                Err(_) => spec_redirect_of(s@) is None,
            },
    {
        if str_eq(s, ">") || str_eq(s, "1>") {
            Ok(Redirect::OutputRedir)
        } else if str_eq(s, "2>") {
            Ok(Redirect::ErrRedir)
        } else if str_eq(s, ">>") || str_eq(s, "1>>") {
            Ok(Redirect::OutputAppend)
        } else if str_eq(s, "2>>") {
            Ok(Redirect::ErrAppend)
        } else {
            Err(ParseRedirectError)
        }
    }

    /// The stream captured is standard error rather than standard output.
    pub fn is_stderr(&self) -> (r: bool)
        ensures
            r == (*self == Redirect::ErrRedir || *self == Redirect::ErrAppend),
    {
        match self {
            Redirect::ErrRedir | Redirect::ErrAppend => true,
            _ => false,
        }
    }

    /// The file is opened for appending rather than truncated.
    pub fn is_append(&self) -> (r: bool)
        ensures
            r == (*self == Redirect::OutputAppend || *self == Redirect::ErrAppend),
    {
        match self {
            Redirect::OutputAppend | Redirect::ErrAppend => true,
            _ => false,
        }
    }
}

/// How an invocation captures output: not at all, into a file, or a
/// clause whose target filename is missing.
pub enum RedirectPlan {
    NoRedirect,
    Capture { redirect: Redirect, target: String },
    MissingTarget,
}

/// Scans the tokens for the first redirection operator.  `Ok(None)`:
/// no operator anywhere.  `Ok(Some((op, target, index)))`: the first
/// operator, the token following it, and its index.  `Err`: the first
/// operator is the last token, so the target filename is missing.
pub fn redirection(args: &Vec<String>) -> (r: Result<
    Option<(Redirect, String, usize)>,
    ParseRedirectError,
>)
    ensures
        match r {
            Ok(opt) => match opt {
                None => first_redirect(args@) is None,
                Some((rd, path, idx)) => {
                    &&& first_redirect(args@) == Some(idx as int)
                    &&& idx + 1 < args@.len()
                    &&& spec_redirect_of(args@[idx as int]@) == Some(rd)
                    &&& path@ == args@[idx as int + 1]@
                },
            },
            Err(_) => {
                &&& args@.len() > 0
                &&& first_redirect(args@) == Some(args@.len() - 1)
            },
        },
{
    let mut i: usize = 0;
    while i < args.len()
        invariant
            i <= args@.len(),
            first_redirect(args@) == first_redirect_from(args@, i as int),
        decreases args@.len() - i,
    {
        match Redirect::from_token(args[i].as_str()) {
            Ok(rd) => {
                if i + 1 < args.len() {
                    let path = args[i + 1].clone();
                    return Ok(Some((rd, path, i)));
                } else {
                    return Err(ParseRedirectError);
                }
            },
            Err(_) => {
                i = i + 1;
            },
        }
    }
    Ok(None)
}

} // verus!
