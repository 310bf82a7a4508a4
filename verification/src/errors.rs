//! Central error enum for the vector database, with verified message
//! rendering (the library's types carry no `Display` impl; callers use
//! [`DBError::message`]).

use vstd::prelude::*;
use vstd::string::StringExecFns;

verus! {

/// Central error enum for the vector database.
///
/// `IOError`, `SerializationError` and `WALCorrupt` are reserved for
/// persistence concerns that sit outside this crate; they are never produced
/// here and carry their cause as plain text.
#[derive(Debug, Clone)]
pub enum DBError {
    NotFound(u64),
    VectorLengthMismatch { expected: usize, actual: usize },
    IOError(String),
    SerializationError(String),
    WALCorrupt(String),
    InvalidPayload(String),
    SearchError(String),
}

/// The decimal digit character for `d < 10`.
pub open spec fn spec_digit(d: nat) -> char {
    if d == 0 {
        '0'
    } else if d == 1 {
        '1'
    } else if d == 2 {
        '2'
    } else if d == 3 {
        '3'
    } else if d == 4 {
        '4'
    } else if d == 5 {
        '5'
    } else if d == 6 {
        '6'
    } else if d == 7 {
        '7'
    } else if d == 8 {
        '8'
    } else {
        '9'
    }
}

/// The decimal digit string of `n`, most significant digit first.
pub open spec fn spec_decimal(n: nat) -> Seq<char>
    decreases n,
{
    if n < 10 {
        seq![spec_digit(n)]
    } else {
        spec_decimal(n / 10).push(spec_digit(n % 10))
    }
}

fn digit_str(d: u64) -> (r: &'static str)
    requires
        d < 10,
    ensures
        r@ == seq![spec_digit(d as nat)],
{
    proof {
        reveal_strlit("0");
        reveal_strlit("1");
        reveal_strlit("2");
        reveal_strlit("3");
        reveal_strlit("4");
        reveal_strlit("5");
        reveal_strlit("6");
        reveal_strlit("7");
        reveal_strlit("8");
        reveal_strlit("9");
    }
    match d {
        0 => "0",
        1 => "1",
        2 => "2",
        3 => "3",
        4 => "4",
        5 => "5",
        6 => "6",
        7 => "7",
        8 => "8",
        _ => "9",
    }
}

/// Render `n` in decimal.
pub fn u64_to_string(n: u64) -> (s: String)
    ensures
        s@ == spec_decimal(n as nat),
    decreases n,
{
    if n < 10 {
        String::from_str(digit_str(n))
    } else {
        let mut s = u64_to_string(n / 10);
        s.append(digit_str(n % 10));
        proof {
            assert(s@ =~= spec_decimal(n as nat));
        }
        s
    }
}

/// The message text of an error, as a character sequence.
pub open spec fn spec_message(e: DBError) -> Seq<char> {
    match e {
        DBError::NotFound(id) => "Point with ID "@ + spec_decimal(id as nat) + " not found"@,
        DBError::VectorLengthMismatch { expected, actual } => "Vector length mismatch: expected "@
            + spec_decimal(expected as nat) + ", got "@ + spec_decimal(actual as nat),
        DBError::IOError(m) => "I/O error: "@ + m@,
        DBError::SerializationError(m) => "Serialization error: "@ + m@,
        DBError::WALCorrupt(m) => "WAL corruption: "@ + m@,
        DBError::InvalidPayload(m) => "Invalid payload: "@ + m@,
        DBError::SearchError(m) => "Search failed: "@ + m@,
    }
}

impl DBError {
    /// Human-readable message, mirroring the classic display formats.
    pub fn message(&self) -> (s: String)
        ensures
            s@ == spec_message(*self),
    {
        match self {
            DBError::NotFound(id) => {
                let mut s = String::from_str("Point with ID ");
                s.append(u64_to_string(*id).as_str());
                s.append(" not found");
                proof {
                    assert(s@ =~= spec_message(*self));
                }
                s
            },
            DBError::VectorLengthMismatch { expected, actual } => {
                let mut s = String::from_str("Vector length mismatch: expected ");
                s.append(u64_to_string(*expected as u64).as_str());
                s.append(", got ");
                s.append(u64_to_string(*actual as u64).as_str());
                proof {
                    assert(s@ =~= spec_message(*self));
                }
                s
            },
            DBError::IOError(m) => {
                let mut s = String::from_str("I/O error: ");
                s.append(m.as_str());
                proof {
                    assert(s@ =~= spec_message(*self));
                }
                s
            },
            DBError::SerializationError(m) => {
                let mut s = String::from_str("Serialization error: ");
                s.append(m.as_str());
                proof {
                    assert(s@ =~= spec_message(*self));
                }
                s
            },
            DBError::WALCorrupt(m) => {
                let mut s = String::from_str("WAL corruption: ");
                s.append(m.as_str());
                proof {
                    assert(s@ =~= spec_message(*self));
                }
                s
            },
            DBError::InvalidPayload(m) => {
                let mut s = String::from_str("Invalid payload: ");
                s.append(m.as_str());
                proof {
                    assert(s@ =~= spec_message(*self));
                }
                s
            },
            DBError::SearchError(m) => {
                let mut s = String::from_str("Search failed: ");
                s.append(m.as_str());
                proof {
                    assert(s@ =~= spec_message(*self));
                }
                s
            },
        }
    }
}

} // verus!
