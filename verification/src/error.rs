//! What can go wrong before a scan starts.

use vstd::prelude::*;
use vstd::string::*;

verus! {

/// Reasons for which a scan is not started.
#[derive(Clone, Copy, Debug, PartialEq, Eq, Structural)]
pub enum ScanError {
    /// The text given for an address is no dotted-quad IPv4 address.
    InvalidAddress,
}

impl ScanError {
    /// The message shown to the user.
    pub open spec fn message_text(self) -> Seq<char> {
        match self {
            ScanError::InvalidAddress => "IP inválido"@,
        }
    }

    /// The message shown to the user.
    pub fn message(&self) -> (text: String)
        ensures
            text@ == self.message_text(),
    {
        match self {
            ScanError::InvalidAddress => String::from_str("IP inválido"),
        }
    }
}

} // verus!
