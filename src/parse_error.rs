use vstd::prelude::*;

verus! {

/// A malformed byte stream; fatal to the message being parsed.
#[derive(Debug, PartialEq, Eq)]
pub enum ParseError {
    /// A byte that cannot start a value.
    InvalidByte(u8),
    /// A line that is not valid UTF-8.
    InvalidUtf8,
    /// A line that does not hold a valid integer.
    InvalidInteger,
    Other(String),
}

impl ParseError {
    /// The description of this error, as a log line shows it.
    pub fn to_string(&self) -> (r: String)
        ensures
            match self {
                ParseError::Other(msg) => r@ == msg@,
                ParseError::InvalidUtf8 => r@ == "Invalid UTF-8 sequence encountered"@,
                ParseError::InvalidInteger => r@ == "Invalid integer format encountered"@,
                ParseError::InvalidByte(b) => r@ == "Invalid byte encountered: 0x"@ + hex_digit_text(
                    *b / 16,
                ) + hex_digit_text(*b % 16),
            },
    {
        match self {
            ParseError::InvalidByte(byte) => {
                let mut text = String::from_str("Invalid byte encountered: 0x");
                text.append(hex_digit(*byte / 16));
                text.append(hex_digit(*byte % 16));
                text
            },
            ParseError::InvalidUtf8 => "Invalid UTF-8 sequence encountered".to_owned(),
            ParseError::InvalidInteger => "Invalid integer format encountered".to_owned(),
            ParseError::Other(msg) => msg.clone(),
        }
    }
}

pub open spec fn hex_digit_text(d: u8) -> Seq<char> {
    if d == 0 {
        "0"@
    } else if d == 1 {
        "1"@
    } else if d == 2 {
        "2"@
    } else if d == 3 {
        "3"@
    } else if d == 4 {
        "4"@
    } else if d == 5 {
        "5"@
    } else if d == 6 {
        "6"@
    } else if d == 7 {
        "7"@
    } else if d == 8 {
        "8"@
    } else if d == 9 {
        "9"@
    } else if d == 10 {
        "a"@
    } else if d == 11 {
        "b"@
    } else if d == 12 {
        "c"@
    } else if d == 13 {
        "d"@
    } else if d == 14 {
        "e"@
    } else {
        "f"@
    }
}

/// The lowercase hex digit for `d`, which is below sixteen.
fn hex_digit(d: u8) -> (r: &'static str)
    ensures
        r@ == hex_digit_text(d),
{
    if d == 0 {
        "0"
    } else if d == 1 {
        "1"
    } else if d == 2 {
        "2"
    } else if d == 3 {
        "3"
    } else if d == 4 {
        "4"
    } else if d == 5 {
        "5"
    } else if d == 6 {
        "6"
    } else if d == 7 {
        "7"
    } else if d == 8 {
        "8"
    } else if d == 9 {
        "9"
    } else if d == 10 {
        "a"
    } else if d == 11 {
        "b"
    } else if d == 12 {
        "c"
    } else if d == 13 {
        "d"
    } else if d == 14 {
        "e"
    } else {
        "f"
    }
}

} // verus!
