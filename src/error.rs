use vstd::prelude::*;

verus! {

/// The failures that the store and the protocol distinguish.
#[derive(Clone, Debug, PartialEq, Eq)]
pub enum KvsError {
    /// A filesystem or socket failure, with its description.
    Io(String),
    /// The addressed key is absent.
    KeyNotFound,
    /// A malformed wire frame or on-disk record.
    DecodeError,
    /// A domain message.
    StringError(String),
    /// An on-disk record does not match what the index expects: a corrupted log.
    UnexpectedCommandType,
    /// A request that the protocol rejects.
    InvalidCommand,
}

/// The text reserved for an absent key.
pub open spec fn key_not_found_text() -> Seq<char> {
    seq!['K', 'e', 'y', ' ', 'n', 'o', 't', ' ', 'f', 'o', 'u', 'n', 'd']
}

impl KvsError {
    /// The human-readable message that the server sends after `Error`.
    pub open spec fn message_spec(&self) -> Seq<char> {
        match self {
            KvsError::Io(m) => m@,
            KvsError::KeyNotFound => key_not_found_text(),
            KvsError::DecodeError => "decode command error"@,
            KvsError::StringError(m) => m@,
            KvsError::UnexpectedCommandType => "Unexpected command type"@,
            KvsError::InvalidCommand => "Invalid command"@,
        }
    }

    pub fn message(&self) -> (r: String)
        ensures
            r@ == self.message_spec(),
    {
        match self {
            KvsError::Io(m) => m.clone(),
            KvsError::KeyNotFound => {
                proof {
                    reveal_strlit("Key not found");
                }
                "Key not found".to_owned()
            },
            KvsError::DecodeError => "decode command error".to_owned(),
            KvsError::StringError(m) => m.clone(),
            KvsError::UnexpectedCommandType => "Unexpected command type".to_owned(),
            KvsError::InvalidCommand => "Invalid command".to_owned(),
        }
    }
}

} // verus!
