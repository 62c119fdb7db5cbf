//! A minimal contract facade whose public calls report typed failures:
//! a structured error carrying a message, and an error enumeration with
//! a unit variant and a variant carrying data. Each error renders itself
//! as text through a method with an exact contract.

use vstd::prelude::*;

verus! {

/// Relies on std's `format!` macro: the result is the two pieces in
/// order, nothing more.
#[verifier::external_body]
fn concat_str(a: &str, b: &str) -> (r: String)
    ensures
        r@ == a@ + b@,
{
    format!("{}{}", a, b)
}

/// A structured failure that carries a message.
pub struct ErrorStruct {
    pub message: String,
}

impl ErrorStruct {
    /// The failure rendered as text.
    pub fn message_text(&self) -> (r: String)
        ensures
            r@ == "error ocurred: "@ + self.message@,
    {
        concat_str("error ocurred: ", self.message.as_str())
    }
}

/// An enumerated failure: either nothing was found, or an account is
/// banned.
pub enum ErrorEnum {
    /// The requested item does not exist.
    NotFound,
    /// The named account may not act.
    Banned { account_id: String },
}

impl ErrorEnum {
    /// The failure rendered as text.
    pub fn message_text(&self) -> (r: String)
        ensures
            match self {
                ErrorEnum::NotFound => r@ == "not found"@,
                ErrorEnum::Banned { account_id } => r@ == "account "@ + account_id@
                    + " is banned"@,
            },
    {
        match self {
            ErrorEnum::NotFound => "not found".to_owned(),
            ErrorEnum::Banned { account_id } => {
                let head = concat_str("account ", account_id.as_str());
                concat_str(head.as_str(), " is banned")
            },
        }
    }
}

/// A contract whose calls always report failure.
pub struct Contract {}

impl Default for Contract {
    fn default() -> (r: Self)
        ensures
            r == (Contract {  }),
    {
        Contract {  }
    }
}

impl Contract {
    /// Rejects every store request, naming the value that could not be
    /// stored.
    pub fn set(&self, value: String) -> (r: Result<String, ErrorStruct>)
        ensures
            r matches Err(e) && e.message@ == "Could not set to "@ + value@,
    {
        Err(ErrorStruct { message: concat_str("Could not set to ", value.as_str()) })
    }

    /// Rejects every fetch request: there is nothing to fetch.
    pub fn get(&self) -> (r: Result<String, ErrorEnum>)
        ensures
            r matches Err(e) && e is NotFound,
    {
        Err(ErrorEnum::NotFound)
    }
}

} // verus!
