use vstd::prelude::*;

use crate::text::{push_chars, push_str, string_of};

verus! {

/// A textual decoder's complaint, carried as a readable message.
#[derive(Debug, Clone, Default)]
pub struct ParseError {
    pub msg: String,
}

impl PartialEq for ParseError {
    fn eq(&self, other: &ParseError) -> (r: bool) {
        self.msg == other.msg
    }
}

impl vstd::std_specs::cmp::PartialEqSpecImpl for ParseError {
    open spec fn obeys_eq_spec() -> bool {
        true
    }

    open spec fn eq_spec(&self, other: &ParseError) -> bool {
        self.msg@ == other.msg@
    }
}

impl Eq for ParseError {

}

impl ParseError {
    /// A copy of this error.
    pub fn clone_error(&self) -> (r: ParseError)
        ensures
            r.msg@ == self.msg@,
    {
        ParseError { msg: self.msg.clone() }
    }

    /// An error whose message is `prefix`, then `v`, then `suffix`.
    pub fn quoted(prefix: &str, v: &[char], suffix: &str) -> (r: ParseError)
        ensures
            r.msg@ == prefix@ + v@ + suffix@,
    {
        let mut out: Vec<char> = Vec::new();
        push_str(&mut out, prefix);
        push_chars(&mut out, v);
        push_str(&mut out, suffix);
        ParseError { msg: string_of(out.as_slice()) }
    }
}

} // verus!
