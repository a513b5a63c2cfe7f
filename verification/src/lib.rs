//! Core of a small interactive command interpreter: a quote-aware
//! tokenizer, an ordered completion trie with counted terminals, a
//! redirection parser, a builtin classifier, and the pure decision
//! half of the execution pipeline.
use vstd::prelude::*;

pub mod command;
pub mod exec_plan;
pub mod tokenize;
pub mod redirect;
pub mod strutil;
pub mod trie;

verus! {

/// The prompt written before each line is read.
pub fn prompt() -> (r: String)
    ensures
        r@ == "$ "@,
{
    String::from_str("$ ")
}

} // verus!
