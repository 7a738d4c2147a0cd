//! A pair of owned strings with the two conversions it is built from.

use vstd::prelude::*;
use vstd::string::{StrSliceExecFns, StringExecFns};

verus! {

/// Two strings side by side.
#[derive(Debug)]
pub struct DoubleString(pub String, pub String);

impl DoubleString {
    /// Build the pair from two string slices.
    pub fn from_strs(str_1: &str, str_2: &str) -> (r: DoubleString)
        ensures
            r.0@ == str_1@,
            r.1@ == str_2@,
    {
        DoubleString(String::from_str(str_1), String::from_str(str_2))
    }

    /// Build the pair from two owned strings, borrowed.
    pub fn from_strings(str_1: &String, str_2: &String) -> (r: DoubleString)
        ensures
            r.0@ == str_1@,
            r.1@ == str_2@,
    {
        DoubleString(str_1.clone(), str_2.clone())
    }

    /// The line the pair shows as: the two strings in parentheses.
    pub fn show(&self) -> (r: String)
        ensures
            r@ == "("@ + self.0@ + ", "@ + self.1@ + ")"@,
    {
        String::from_str("(").concat(self.0.as_str()).concat(", ").concat(self.1.as_str()).concat(
            ")",
        )
    }
}

} // verus!
