//! What can go wrong, as plain values.
use vstd::prelude::*;

verus! {

/// The broad class of a failure.
#[derive(Clone, Copy, Debug, PartialEq, Eq, Structural)]
pub enum ErrorKind {
    BrokenPipe,
    InvalidData,
    InvalidInput,
    NotConnected,
    UnexpectedEof,
}

/// A failure of the protocol or of a multiplexed socket.
#[derive(Clone, Copy, Debug, PartialEq, Eq, Structural)]
pub enum MtcpError {
    /// The login header does not answer the connection id that was handed out.
    InvalidLogin,
    /// A connect was asked for without a single upstream host.
    NoUpstreamHost,
    /// Every attempt to open a sub-connection failed.
    NoSubConnection,
    /// A write after the write side was shut down.
    WriteClosed,
    /// A write while no sub-connection is alive.
    NoActiveConnection,
    /// The last sub-connection ended after some sub-connection broke off inside a frame.
    TruncatedFrame,
}

impl MtcpError {
    pub open spec fn kind_spec(self) -> ErrorKind {
        match self {
            MtcpError::InvalidLogin => ErrorKind::InvalidData,
            MtcpError::NoUpstreamHost => ErrorKind::InvalidInput,
            MtcpError::NoSubConnection => ErrorKind::NotConnected,
            MtcpError::WriteClosed => ErrorKind::BrokenPipe,
            MtcpError::NoActiveConnection => ErrorKind::NotConnected,
            MtcpError::TruncatedFrame => ErrorKind::UnexpectedEof,
        }
    }

    pub open spec fn message_spec(self) -> Seq<char> {
        match self {
            MtcpError::InvalidLogin => "invalid mtcp login header"@,
            MtcpError::NoUpstreamHost => "at least one upstream host is required"@,
            MtcpError::NoSubConnection => "failed to establish any mtcp sub-connections"@,
            MtcpError::WriteClosed => "msocket write side is closed"@,
            MtcpError::NoActiveConnection => "msocket has no active sub-connections"@,
            MtcpError::TruncatedFrame => "mtcp sub-connection ended inside a frame"@,
        }
    }

    pub fn kind(&self) -> (kind: ErrorKind)
        ensures
            kind == self.kind_spec(),
    {
        match self {
            MtcpError::InvalidLogin => ErrorKind::InvalidData,
            MtcpError::NoUpstreamHost => ErrorKind::InvalidInput,
            MtcpError::NoSubConnection => ErrorKind::NotConnected,
            MtcpError::WriteClosed => ErrorKind::BrokenPipe,
            MtcpError::NoActiveConnection => ErrorKind::NotConnected,
            MtcpError::TruncatedFrame => ErrorKind::UnexpectedEof,
        }
    }

    /// The text shown to people.
    pub fn message(&self) -> (message: &'static str)
        ensures
            message@ == self.message_spec(),
    {
        match self {
            MtcpError::InvalidLogin => "invalid mtcp login header",
            MtcpError::NoUpstreamHost => "at least one upstream host is required",
            MtcpError::NoSubConnection => "failed to establish any mtcp sub-connections",
            MtcpError::WriteClosed => "msocket write side is closed",
            MtcpError::NoActiveConnection => "msocket has no active sub-connections",
            MtcpError::TruncatedFrame => "mtcp sub-connection ended inside a frame",
        }
    }
}

} // verus!
