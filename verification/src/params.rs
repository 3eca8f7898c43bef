//! A typed argument handed to a plugin function.
use vstd::prelude::*;

verus! {

/// The description that marks a string argument.
pub open spec fn string_desc() -> Seq<char> {
    seq!['s', 't', 'r', 'i', 'n', 'g']
}

/// One argument of a plugin call: its description (type) and its text.
pub struct Params {
    pub desc: String,
    pub arg: String,
}

impl Params {
    /// The argument as a string; only for arguments described as `"string"`.
    pub fn get_as_str(&self) -> (r: &str)
        requires
            self.desc@ == string_desc(),
        ensures
            r@ == self.arg@,
    {
        self.arg.as_str()
    }
}

} // verus!
