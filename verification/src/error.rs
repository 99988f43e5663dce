//! Errors of the core types.
use crate::text;
use crate::text::{concat2, push_decimal};
use vstd::prelude::*;

verus! {

/// What can go wrong in the core types and across their interfaces.
#[derive(Debug)]
pub enum CoreError {
    InvalidPeerId(String),
    InvalidEndpoint(String),
    InvalidMessage(String),
    Io(String),
    HandshakeFrame(String),
    Encoding(String),
    VersionMismatch { local: u8, remote: u8 },
}

impl CoreError {
    /// The text of the error.
    pub open spec fn message(&self) -> Seq<char> {
        match self {
            CoreError::InvalidPeerId(s) => "invalid peer ID: "@ + s@,
            CoreError::InvalidEndpoint(s) => "invalid endpoint: "@ + s@,
            CoreError::InvalidMessage(s) => "invalid message: "@ + s@,
            CoreError::Io(s) => "io error: "@ + s@,
            CoreError::HandshakeFrame(s) => "handshake frame error: "@ + s@,
            CoreError::Encoding(s) => "encoding error: "@ + s@,
            CoreError::VersionMismatch { local, remote } => "protocol version mismatch: local="@
                + text::decimal(*local as nat) + ", remote="@ + text::decimal(*remote as nat),
        }
    }

    /// The text of the error.
    pub fn text(&self) -> (s: String)
        ensures
            s@ == self.message(),
    {
        match self {
            CoreError::InvalidPeerId(s) => concat2("invalid peer ID: ", s.as_str()),
            CoreError::InvalidEndpoint(s) => concat2("invalid endpoint: ", s.as_str()),
            CoreError::InvalidMessage(s) => concat2("invalid message: ", s.as_str()),
            CoreError::Io(s) => concat2("io error: ", s.as_str()),
            CoreError::HandshakeFrame(s) => concat2("handshake frame error: ", s.as_str()),
            CoreError::Encoding(s) => concat2("encoding error: ", s.as_str()),
            CoreError::VersionMismatch { local, remote } => {
                let mut s: String = "protocol version mismatch: local=".to_string();
                push_decimal(&mut s, *local as u64);
                s.push_str(", remote=");
                push_decimal(&mut s, *remote as u64);
                s
            },
        }
    }
}

impl Clone for CoreError {
    fn clone(&self) -> (r: Self)
        ensures
            r.message() == self.message(),
    {
        match self {
            CoreError::InvalidPeerId(s) => CoreError::InvalidPeerId(s.clone()),
            CoreError::InvalidEndpoint(s) => CoreError::InvalidEndpoint(s.clone()),
            CoreError::InvalidMessage(s) => CoreError::InvalidMessage(s.clone()),
            CoreError::Io(s) => CoreError::Io(s.clone()),
            CoreError::HandshakeFrame(s) => CoreError::HandshakeFrame(s.clone()),
            CoreError::Encoding(s) => CoreError::Encoding(s.clone()),
            CoreError::VersionMismatch { local, remote } => CoreError::VersionMismatch {
                local: *local,
                remote: *remote,
            },
        }
    }
}

} // verus!
