//! What the C interface computes: the handle it gives out, and how it reads
//! the values that C callers pass as text.
use vstd::prelude::*;
use crate::data::ListData;
use crate::pattern::{ends_with, starts_with};
use crate::text::{str_chars, string_of};
use crate::value::{list_literal, list_literal_of, simple_value, simple_value_of, ListValue, Val};

verus! {

/// The document behind a handle of the C interface.
pub struct CListData {
    pub data: ListData,
}

/// Reads a value passed to `append` or `insert`: trimmed, an array of the
/// trimmed comma-separated pieces if it has a comma, else a string.
pub fn parse_simple_value_c(s: &str) -> (r: ListValue)
    ensures
        r@ == simple_value(s@),
{
    let cs = str_chars(s);
    simple_value_of(cs.as_slice())
}

/// The value that `replace` reads from `s`: for `[...]`, the array of the
/// trimmed comma-separated pieces inside (empty if the inside is blank);
/// for anything else, `s` itself as a string.
pub open spec fn replacement_value(s: Seq<char>) -> Val {
    if starts_with(s, "["@) && ends_with(s, "]"@) {
        list_literal(s.subrange(1, s.len() - 1))
    } else {
        Val::Str(s)
    }
}

/// Reads the value passed to `replace`.
pub fn parse_replacement_c(s: &str) -> (r: ListValue)
    ensures
        r@ == replacement_value(s@),
{
    proof {
        reveal_strlit("[");
        reveal_strlit("]");
    }
    let cs = str_chars(s);
    let n = cs.len();
    if n >= 2 && cs[0] == '[' && cs[n - 1] == ']' {
        proof {
            assert(s@.subrange(0, 1) =~= "["@);
            assert(s@.subrange(n - 1, n as int) =~= "]"@);
        }
        list_literal_of(&cs.as_slice()[1..n - 1])
    } else {
        proof {
            if starts_with(s@, "["@) && ends_with(s@, "]"@) {
                assert(s@.subrange(0, 1)[0] == '[');
                assert(s@.subrange(n - 1, n as int)[0] == ']');
                assert(n >= 2);
            }
        }
        ListValue::String(string_of(cs.as_slice()))
    }
}

} // verus!
