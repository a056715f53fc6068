//! The protocol's error kinds and their JSON-RPC rendering.

use vstd::prelude::*;
use crate::json::push_bytes;
use vstd::string::StrSliceExecFns;
use vstd::string::StringSliceAdditionalSpecFns;

verus! {

/// What can go wrong while serving a request.  Each kind carries the
/// detail text as raw bytes.
#[derive(Debug, PartialEq)]
pub enum MCPError {
    /// The incoming bytes are not a well-formed message, or a tool's
    /// params do not match its declared shape.
    Parse(Vec<u8>),
    /// Structurally valid message missing a required envelope field.
    InvalidRequest(Vec<u8>),
    /// Unrecognized top-level method or unrecognized tool name.
    MethodNotFound(Vec<u8>),
    /// The backing search operation failed.
    GitHub(Vec<u8>),
    /// The underlying stream ended permanently.
    Transport(Vec<u8>),
}

impl MCPError {
    /// The distinct JSON-RPC code of each kind.
    pub open spec fn spec_code(&self) -> i32 {
        match self {
            MCPError::Parse(_) => -32700i32,
            MCPError::InvalidRequest(_) => -32600i32,
            MCPError::MethodNotFound(_) => -32601i32,
            MCPError::GitHub(_) => -32000i32,
            MCPError::Transport(_) => -32002i32,
        }
    }

    pub fn code(&self) -> (c: i32)
        ensures
            c == self.spec_code(),
    {
        match self {
            MCPError::Parse(_) => -32700,
            MCPError::InvalidRequest(_) => -32600,
            MCPError::MethodNotFound(_) => -32601,
            MCPError::GitHub(_) => -32000,
            MCPError::Transport(_) => -32002,
        }
    }

    /// The rendered message: a fixed kind prefix, then the detail.
    pub open spec fn spec_message(&self) -> Seq<u8> {
        match self {
            MCPError::Parse(d) => ("Parse error: ").spec_bytes() + d@,
            MCPError::InvalidRequest(d) => ("Invalid request: ").spec_bytes() + d@,
            MCPError::MethodNotFound(d) => ("Method not found: ").spec_bytes() + d@,
            MCPError::GitHub(d) => ("GitHub API error: ").spec_bytes() + d@,
            MCPError::Transport(d) => ("Transport error: ").spec_bytes() + d@,
        }
    }

    pub fn message(&self) -> (m: Vec<u8>)
        ensures
            m@ == self.spec_message(),
    {
        match self {
            MCPError::Parse(d) => {
                let mut m = ("Parse error: ").as_bytes_vec();
                push_bytes(&mut m, d);
                m
            },
            MCPError::InvalidRequest(d) => {
                let mut m = ("Invalid request: ").as_bytes_vec();
                push_bytes(&mut m, d);
                m
            },
            MCPError::MethodNotFound(d) => {
                let mut m = ("Method not found: ").as_bytes_vec();
                push_bytes(&mut m, d);
                m
            },
            MCPError::GitHub(d) => {
                let mut m = ("GitHub API error: ").as_bytes_vec();
                push_bytes(&mut m, d);
                m
            },
            MCPError::Transport(d) => {
                let mut m = ("Transport error: ").as_bytes_vec();
                push_bytes(&mut m, d);
                m
            },
        }
    }
}

} // verus!
