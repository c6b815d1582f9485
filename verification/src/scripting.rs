//! The values that scripts exchange with the server.
use vstd::prelude::*;
use crate::state::{str_debug, str_debug_text};
use crate::text::{string_from_utf8_lossy, utf8_lossy};
use crate::types::RedisValueRef;

verus! {

/// The text of `s`, decoded as UTF-8 with invalid sequences replaced.
pub fn bytes_to_string(s: &[u8]) -> (r: String)
    ensures
        r@ == utf8_lossy(s@),
{
    string_from_utf8_lossy(s)
}

/// A failure reported to a script.
#[derive(Debug)]
pub struct FFIError {
    reason: String,
}

impl FFIError {
    /// Why it failed.
    pub closed spec fn spec_reason(&self) -> Seq<char> {
        self.reason@
    }

    /// A failure for `reason`, boxed.
    pub fn boxed(reason: String) -> (r: Box<FFIError>)
        ensures
            r.spec_reason() == reason@,
    {
        Box::new(FFIError { reason })
    }

    /// Why it failed.
    pub fn reason(&self) -> (r: &String)
        ensures
            r@ == self.spec_reason(),
    {
        &self.reason
    }

    /// The failure as it is shown: its reason, quoted.
    pub fn display_string(&self) -> (r: String)
        ensures
            r@ == str_debug_text(self.spec_reason()),
    {
        str_debug(self.reason.as_str())
    }
}

/// What a script is asked to run: source text, or a function by name with
/// its arguments.
#[derive(Debug)]
pub enum Program {
    String(String),
    Function(String, Vec<RedisValueRef>),
}

} // verus!
