//! The framed line transport: framing helpers, the transport contract,
//! and an in-memory instance for driving the server without a stream.

use vstd::prelude::*;
use vstd::string::StrSliceExecFns;
use crate::error::MCPError;
use crate::json::clone_bytes;

verus! {

/// A line with its terminator taken off: one trailing newline removed,
/// then one trailing carriage return before it.
pub open spec fn stripped(s: Seq<u8>) -> Seq<u8> {
    let t = if s.len() > 0 && s[s.len() - 1] == 0x0a {
        s.subrange(0, s.len() - 1)
    } else {
        s
    };
    if t.len() > 0 && t[t.len() - 1] == 0x0d {
        t.subrange(0, t.len() - 1)
    } else {
        t
    }
}

/// Strip one line terminator from a raw line read off a stream.
pub fn strip_line_terminator(line: Vec<u8>) -> (out: Vec<u8>)
    ensures
        out@ == stripped(line@),
{
    let mut v = line;
    let ghost s = v@;
    if v.len() > 0 {
        if v[v.len() - 1] == 0x0a {
            v.pop();
            proof {
                assert(v@ =~= s.subrange(0, s.len() - 1));
            }
        }
    }
    let ghost t = v@;
    if v.len() > 0 {
        if v[v.len() - 1] == 0x0d {
            v.pop();
            proof {
                assert(v@ =~= t.subrange(0, t.len() - 1));
            }
        }
    }
    v
}

/// Frame one outgoing message: the message's bytes then exactly one
/// newline, as one unbroken unit for a single write.
pub fn frame_line(message: Vec<u8>) -> (out: Vec<u8>)
    ensures
        out@ == message@ + seq![0x0au8],
{
    let mut v = message;
    let ghost m0 = v@;
    v.push(0x0a);
    proof {
        assert(v@ =~= m0 + seq![0x0au8]);
    }
    v
}

/// A bidirectional framed-message stream.  `read_message` yields the
/// next complete message without its terminator and fails only on
/// permanent closure; `write_message` writes one message as one framed
/// line.  Callers serialize access per direction.
pub trait Transport {
    fn read_message(&mut self) -> Result<Vec<u8>, MCPError>;

    fn write_message(&mut self, message: &Vec<u8>) -> Result<(), MCPError>;
}

/// An in-memory transport: a scripted sequence of incoming messages and
/// a log of the messages written back, each kept whole.
#[derive(Debug, PartialEq)]
pub struct MemTransport {
    pub incoming: Vec<Vec<u8>>,
    pub cursor: usize,
    pub outgoing: Vec<Vec<u8>>,
}

impl MemTransport {
    pub fn new(incoming: Vec<Vec<u8>>) -> (t: MemTransport)
        ensures
            t.incoming == incoming,
            t.cursor == 0,
            t.outgoing@.len() == 0,
    {
        MemTransport { incoming, cursor: 0, outgoing: Vec::new() }
    }
}

impl Transport for MemTransport {
    /// Yields the next scripted message, advancing the cursor; fails
    /// exactly when the script is exhausted, changing nothing.
    fn read_message(&mut self) -> (r: Result<Vec<u8>, MCPError>)
        ensures
            old(self).cursor < old(self).incoming.len() ==> (match r {
                Ok(m) => {
                    &&& m@ == old(self).incoming@[old(self).cursor as int]@
                    &&& final(self).cursor == old(self).cursor + 1
                    &&& final(self).incoming == old(self).incoming
                    &&& final(self).outgoing == old(self).outgoing
                },
                Err(_) => false,
            }),
            old(self).cursor >= old(self).incoming.len() ==> {
                &&& (r matches Err(MCPError::Transport(_)))
                &&& *final(self) == *old(self)
            },
    {
        if self.cursor < self.incoming.len() {
            let m = clone_bytes(&self.incoming[self.cursor]);
            self.cursor = self.cursor + 1;
            Ok(m)
        } else {
            Err(MCPError::Transport(("end of input").as_bytes_vec()))
        }
    }

    /// Always succeeds, appending the message as one whole entry; the
    /// read side is untouched.
    fn write_message(&mut self, message: &Vec<u8>) -> (r: Result<(), MCPError>)
        ensures
            r is Ok,
            final(self).outgoing@.len() == old(self).outgoing@.len() + 1,
            final(self).outgoing@[old(self).outgoing@.len() as int]@ == message@,
            forall|i: int|
                0 <= i < old(self).outgoing@.len() ==> final(self).outgoing@[i] == old(
                    self,
                ).outgoing@[i],
            final(self).incoming == old(self).incoming,
            final(self).cursor == old(self).cursor,
    {
        let m = clone_bytes(message);
        self.outgoing.push(m);
        Ok(())
    }
}

} // verus!
