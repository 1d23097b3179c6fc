//! The failures that a reconciliation can end in.

use vstd::prelude::*;
use vstd::string::*;
use crate::text::{decimal_digits, from_chars, render_u64};

verus! {

/// Why a reconciliation stopped.
#[derive(Debug)]
pub enum DeclarativeAlpineError {
    /// The package world file does not exist.
    ApkWorldFileError,
    /// The upgrade command failed; holds what it wrote to its error stream.
    ApkUpgradeError(String),
    /// A backing file or its backup could not be read or written.
    IoError(String),
    /// The desired-state document is malformed.
    TomlDeserializeError(String),
    /// A document could not be written out.
    TomlSerializeError(String),
    EmptySlotsVectorIsEmpty,
    ConnectionNotSet(usize),
    Unknown,
}

impl DeclarativeAlpineError {
    /// The text that tells an operator of the failure.
    pub open spec fn message_spec(&self) -> Seq<char> {
        match self {
            DeclarativeAlpineError::ApkWorldFileError => "APK world not found"@,
            DeclarativeAlpineError::ApkUpgradeError(output) => "Failed to run 'apk upgrade': "@
                + output@,
            DeclarativeAlpineError::IoError(_) => "io Error"@,
            DeclarativeAlpineError::TomlDeserializeError(_) => "toml deserialize Error"@,
            DeclarativeAlpineError::TomlSerializeError(_) => "toml serialize Error"@,
            DeclarativeAlpineError::EmptySlotsVectorIsEmpty => "database: Empty_slots vector is empty"@,
            DeclarativeAlpineError::ConnectionNotSet(n) => "database: Connection "@ + decimal_digits(
                *n as nat,
            ) + " is not set. No data here."@,
            DeclarativeAlpineError::Unknown => "unknown database error"@,
        }
    }

    /// Writes the failure out for an operator.
    pub fn message(&self) -> (text: String)
        ensures
            text@ == self.message_spec(),
    {
        match self {
            DeclarativeAlpineError::ApkWorldFileError => String::from_str("APK world not found"),
            DeclarativeAlpineError::ApkUpgradeError(output) => {
                let mut text = String::from_str("Failed to run 'apk upgrade': ");
                text.append(output.as_str());
                text
            },
            DeclarativeAlpineError::IoError(_) => String::from_str("io Error"),
            DeclarativeAlpineError::TomlDeserializeError(_) => String::from_str(
                "toml deserialize Error",
            ),
            DeclarativeAlpineError::TomlSerializeError(_) => String::from_str(
                "toml serialize Error",
            ),
            DeclarativeAlpineError::EmptySlotsVectorIsEmpty => String::from_str(
                "database: Empty_slots vector is empty",
            ),
            DeclarativeAlpineError::ConnectionNotSet(n) => {
                let mut text = String::from_str("database: Connection ");
                let number = from_chars(&render_u64(*n as u64));
                text.append(number.as_str());
                text.append(" is not set. No data here.");
                text
            },
            DeclarativeAlpineError::Unknown => String::from_str("unknown database error"),
        }
    }
}

} // verus!
