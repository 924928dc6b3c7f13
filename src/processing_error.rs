use vstd::prelude::*;

verus! {

/// An error met while interpreting a command; it is reported to the client
/// as an `Error` reply and the connection stays open.
#[derive(Debug, PartialEq, Eq)]
pub enum ProcessingError {
    InvalidUtf8,
    InvalidInteger,
    Other(String),
}

/// A processing error as the contracts state it; `Other` carries its text.
pub enum Fault {
    InvalidUtf8,
    InvalidInteger,
    Other(Seq<char>),
}

/// The text of the `Error` reply that reports a fault.
pub open spec fn fault_text(f: Fault) -> Seq<char> {
    match f {
        Fault::InvalidUtf8 => "Invalid UTF-8 sequence encountered"@,
        Fault::InvalidInteger => "Invalid integer format encountered"@,
        Fault::Other(t) => t,
    }
}

impl ProcessingError {
    pub open spec fn fault(&self) -> Fault {
        match self {
            ProcessingError::InvalidUtf8 => Fault::InvalidUtf8,
            ProcessingError::InvalidInteger => Fault::InvalidInteger,
            ProcessingError::Other(msg) => Fault::Other(msg@),
        }
    }

    /// The text sent back to the client for this error.
    pub fn to_string(&self) -> (r: String)
        ensures
            r@ == self.text(),
    {
        match self {
            ProcessingError::InvalidUtf8 => "Invalid UTF-8 sequence encountered".to_owned(),
            ProcessingError::InvalidInteger => "Invalid integer format encountered".to_owned(),
            ProcessingError::Other(msg) => msg.clone(),
        }
    }

    pub open spec fn text(&self) -> Seq<char> {
        match self {
            ProcessingError::InvalidUtf8 => "Invalid UTF-8 sequence encountered"@,
            ProcessingError::InvalidInteger => "Invalid integer format encountered"@,
            ProcessingError::Other(msg) => msg@,
        }
    }
}

} // verus!
