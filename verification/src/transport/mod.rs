//! The wire protocol: frames, messages and the course of a connection.

pub mod codec;
pub mod connection;

use vstd::prelude::*;

pub use codec::{BincodeCodec, ClientMsg, FrameError, ServerMsg};
pub use connection::{Connection, ConnectionAction};

verus! {

/// Why a connection failed.
#[derive(Debug)]
pub enum TransportError {
    /// The connection broke, for the reason that the text gives.
    Io(String),
    /// A frame could not be read or written.
    Codec(String),
    /// The connection is closed.
    Closed,
}

impl TransportError {
    /// The text of the error.
    pub open spec fn text(self) -> Seq<char> {
        match self {
            TransportError::Io(reason) => "IO 错误: "@ + reason@,
            TransportError::Codec(reason) => "编解码错误: "@ + reason@,
            TransportError::Closed => "连接已关闭"@,
        }
    }

    /// The text of the error.
    pub fn message(&self) -> (r: String)
        ensures
            r@ == self.text(),
    {
        let mut out = String::new();
        match self {
            TransportError::Io(reason) => {
                out.append("IO 错误: ");
                out.append(reason.as_str());
            },
            TransportError::Codec(reason) => {
                out.append("编解码错误: ");
                out.append(reason.as_str());
            },
            TransportError::Closed => {
                out.append("连接已关闭");
            },
        }
        assert(out@ =~= self.text());
        out
    }
}

} // verus!
