//! The decisions of the command-line front end: which files are read as
//! binary, what a new file starts with, and what a line typed at the prompt
//! does.
use vstd::prelude::*;
use crate::command::{has_suffix, outcome, Step};
use crate::data::ListData;
use crate::pattern::ends_with;
use crate::semantics::run_command;
use crate::text::{str_chars, string_of, trim, trimmed};

verus! {

/// Whether a file is read as binary: when asked to, or when its name ends
/// in `.listb` or `.listbin`.
pub fn opens_as_binary(path: &str, force: bool) -> (b: bool)
    ensures
        b == (ends_with(path@, ".listb"@) || ends_with(path@, ".listbin"@) || force),
{
    let cs = str_chars(path);
    has_suffix(cs.as_slice(), ".listb") || has_suffix(cs.as_slice(), ".listbin") || force
}

/// The text a new file starts with: the one given, or else `[binary_mode];`
/// for a binary file and `[empty];` for a text file.
pub fn initial_content(given: Option<String>, binary: bool) -> (r: String)
    ensures
        r@ == match given {
            Some(s) => s@,
            None => if binary {
                "[binary_mode];"@
            } else {
                "[empty];"@
            },
        },
{
    match given {
        Some(s) => s,
        None => if binary {
            String::from_str("[binary_mode];")
        } else {
            String::from_str("[empty];")
        },
    }
}

/// A line typed at the prompt: a blank line does nothing (`None`); any
/// other line is run, trimmed, as a command on the document.
pub fn prompt_line(data: &mut ListData, line: &str) -> (r: Option<Step>)
    ensures
        trim(line@).len() == 0 ==> r is None && final(data)@ == old(data)@,
        trim(line@).len() > 0 ==> (r matches Some(s) && outcome(s, final(data)@) == run_command(
            old(data)@,
            trim(line@),
        )),
{
    let cs = str_chars(line);
    let t = trimmed(cs.as_slice());
    if t.len() == 0 {
        None
    } else {
        let cmd = string_of(t.as_slice());
        Some(data.run_command(cmd.as_str()))
    }
}

} // verus!
