//! Failures of reading and writing documents.
use crate::text::{append_decimal, decimal_text};
use vstd::prelude::*;

verus! {

/// Durable document read/write failures. Loading never mutates the current document.
#[derive(Debug)]
pub enum DocumentIoError {
    /// The file system refused.
    Io(String),
    /// The container is not what it claims to be.
    Archive(String),
    /// Text or image encoding failed.
    Encode(String),
    /// The payload contradicts itself.
    InvalidDocument(String),
    /// The payload comes from a later version.
    UnsupportedSchema {
        /// Schema version of the payload.
        found: u32,
        /// Latest schema version understood here.
        supported: u32,
    },
    /// A contact is still drawing.
    ActiveContacts,
    /// The background worker did not finish.
    BackgroundWorkerPanicked,
}

/// Mathematical value of a [`DocumentIoError`].
#[verifier::ext_equal]
pub enum ErrorModel {
    Io(Seq<char>),
    Archive(Seq<char>),
    Encode(Seq<char>),
    InvalidDocument(Seq<char>),
    UnsupportedSchema { found: u32, supported: u32 },
    ActiveContacts,
    BackgroundWorkerPanicked,
}

impl View for DocumentIoError {
    type V = ErrorModel;

    open spec fn view(&self) -> ErrorModel {
        match self {
            DocumentIoError::Io(text) => ErrorModel::Io(text@),
            DocumentIoError::Archive(text) => ErrorModel::Archive(text@),
            DocumentIoError::Encode(text) => ErrorModel::Encode(text@),
            DocumentIoError::InvalidDocument(text) => ErrorModel::InvalidDocument(text@),
            DocumentIoError::UnsupportedSchema { found, supported } => {
                ErrorModel::UnsupportedSchema { found: *found, supported: *supported }
            },
            DocumentIoError::ActiveContacts => ErrorModel::ActiveContacts,
            DocumentIoError::BackgroundWorkerPanicked => ErrorModel::BackgroundWorkerPanicked,
        }
    }
}

impl ErrorModel {
    /// Message shown to people.
    pub open spec fn message(self) -> Seq<char> {
        match self {
            ErrorModel::Io(text) => "document I/O failed: "@ + text,
            ErrorModel::Archive(text) => "invalid .kra archive: "@ + text,
            ErrorModel::Encode(text) => "document encoding failed: "@ + text,
            ErrorModel::InvalidDocument(text) => "invalid document: "@ + text,
            ErrorModel::UnsupportedSchema { found, supported } => "document schema "@
                + decimal_text(found as nat) + " is newer than supported schema "@ + decimal_text(
                supported as nat,
            ),
            ErrorModel::ActiveContacts => "cannot checkpoint while a drawing contact is active"@,
            ErrorModel::BackgroundWorkerPanicked => "background checkpoint worker panicked"@,
        }
    }
}

impl DocumentIoError {
    /// Message shown to people.
    pub fn message(&self) -> (message: String)
        ensures
            message@ == self@.message(),
    {
        match self {
            DocumentIoError::Io(text) => joined("document I/O failed: ", text),
            DocumentIoError::Archive(text) => joined("invalid .kra archive: ", text),
            DocumentIoError::Encode(text) => joined("document encoding failed: ", text),
            DocumentIoError::InvalidDocument(text) => joined("invalid document: ", text),
            DocumentIoError::UnsupportedSchema { found, supported } => {
                let mut message: String = "document schema ".to_owned();
                append_decimal(&mut message, *found as u64);
                message.append(" is newer than supported schema ");
                append_decimal(&mut message, *supported as u64);
                message
            },
            DocumentIoError::ActiveContacts => {
                "cannot checkpoint while a drawing contact is active".to_owned()
            },
            DocumentIoError::BackgroundWorkerPanicked => {
                "background checkpoint worker panicked".to_owned()
            },
        }
    }
}

fn joined(prefix: &str, text: &String) -> (message: String)
    ensures
        message@ == prefix@ + text@,
{
    let mut message: String = prefix.to_owned();
    message.append(text.as_str());
    message
}

} // verus!
