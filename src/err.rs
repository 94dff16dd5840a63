use vstd::prelude::*;

verus! {

/// A URL that breaks one of the structural rules on paths.
#[derive(Debug, Clone)]
pub struct InvalidUrl {
    pub message: String,
}

impl InvalidUrl {
    pub fn new(message: &str) -> (r: Self)
        ensures
            r.message@ == message@,
    {
        InvalidUrl { message: message.to_owned() }
    }
}

/// Two cookies that cannot both be kept; raised by cookie handling built on
/// this library.
#[derive(Debug, Clone)]
pub struct CookieConflict {
    pub message: String,
}

impl CookieConflict {
    pub fn new(message: &str) -> (r: Self)
        ensures
            r.message@ == message@,
    {
        CookieConflict { message: message.to_owned() }
    }
}

} // verus!
