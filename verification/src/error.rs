//! Errors shared across crate module boundaries.

use vstd::prelude::*;

use crate::text::{decimal, push_str, push_u64};

verus! {

/// Errors produced by the Raft consensus module.
#[derive(Debug, PartialEq, Eq)]
pub enum RaftError {
    Internal(String),
}

/// Errors produced by the key-value state machine.
#[derive(Debug, PartialEq, Eq)]
pub enum KvError {
    Internal(String),
}

impl View for KvError {
    type V = Seq<char>;

    open spec fn view(&self) -> Seq<char> {
        match self {
            KvError::Internal(text) => text@,
        }
    }
}

/// Errors produced by Raft transports.
#[derive(Debug, PartialEq, Eq)]
pub enum TransportError {
    Internal(String),
}

/// Errors produced by durable storage.
#[derive(Debug, PartialEq, Eq)]
pub enum StorageError {
    /// The operating system refused an operation.
    Io(String),
    /// A complete record is damaged: the byte offset, and the segment where it
    /// is known.
    Corruption { segment: Option<u64>, offset: u64 },
    Internal(String),
}

/// What a [`StorageError`] holds.
pub enum StorageErrorView {
    Io(Seq<char>),
    Corruption { segment: Option<u64>, offset: u64 },
    Internal(Seq<char>),
}

impl View for StorageError {
    type V = StorageErrorView;

    open spec fn view(&self) -> StorageErrorView {
        match self {
            StorageError::Io(text) => StorageErrorView::Io(text@),
            StorageError::Corruption { segment, offset } => StorageErrorView::Corruption {
                segment: *segment,
                offset: *offset,
            },
            StorageError::Internal(text) => StorageErrorView::Internal(text@),
        }
    }
}

/// Crate-level error, flattening errors from each module.
#[derive(Debug, PartialEq, Eq)]
pub enum Error {
    Raft(RaftError),
    Kv(KvError),
    Transport(TransportError),
    Storage(StorageError),
}

/// What an [`Error`] holds.
pub enum ErrorView {
    Raft(Seq<char>),
    Kv(Seq<char>),
    Transport(Seq<char>),
    Storage(StorageErrorView),
}

impl View for Error {
    type V = ErrorView;

    open spec fn view(&self) -> ErrorView {
        match self {
            Error::Raft(RaftError::Internal(text)) => ErrorView::Raft(text@),
            Error::Kv(KvError::Internal(text)) => ErrorView::Kv(text@),
            Error::Transport(TransportError::Internal(text)) => ErrorView::Transport(text@),
            Error::Storage(e) => ErrorView::Storage(e@),
        }
    }
}

impl StorageErrorView {
    /// How the error is reported.
    pub open spec fn text(self) -> Seq<char> {
        match self {
            StorageErrorView::Io(text) => "storage i/o error: "@ + text,
            StorageErrorView::Corruption { segment, offset } => "storage corruption at offset "@
                + decimal(offset as nat) + (match segment {
                Some(seq) => " of segment "@ + decimal(seq as nat),
                None => Seq::empty(),
            }),
            StorageErrorView::Internal(text) => "storage error: "@ + text,
        }
    }
}

impl ErrorView {
    /// How the error is reported.
    pub open spec fn text(self) -> Seq<char> {
        match self {
            ErrorView::Raft(text) => "raft error: "@ + text,
            ErrorView::Kv(text) => "key-value error: "@ + text,
            ErrorView::Transport(text) => "transport error: "@ + text,
            ErrorView::Storage(e) => e.text(),
        }
    }
}

impl Error {
    /// Renders the error for a person.
    pub fn message(&self) -> (r: String)
        ensures
            r@ == self@.text(),
    {
        let mut out: String = String::new();
        match self {
            Error::Raft(RaftError::Internal(text)) => {
                push_str(&mut out, "raft error: ");
                push_str(&mut out, text.as_str());
            },
            Error::Kv(KvError::Internal(text)) => {
                push_str(&mut out, "key-value error: ");
                push_str(&mut out, text.as_str());
            },
            Error::Transport(TransportError::Internal(text)) => {
                push_str(&mut out, "transport error: ");
                push_str(&mut out, text.as_str());
            },
            Error::Storage(StorageError::Io(text)) => {
                push_str(&mut out, "storage i/o error: ");
                push_str(&mut out, text.as_str());
            },
            Error::Storage(StorageError::Corruption { segment, offset }) => {
                push_str(&mut out, "storage corruption at offset ");
                push_u64(&mut out, *offset);
                match segment {
                    Some(seq) => {
                        push_str(&mut out, " of segment ");
                        push_u64(&mut out, *seq);
                    },
                    None => {},
                }
            },
            Error::Storage(StorageError::Internal(text)) => {
                push_str(&mut out, "storage error: ");
                push_str(&mut out, text.as_str());
            },
        }
        assert(out@ =~= self@.text());
        out
    }
}

} // verus!
