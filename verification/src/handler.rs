use vstd::prelude::*;

use crate::codec::{CodecError, Request, spec_decode_header, spec_decode_payload, decode_header,
    decode_payload};
use crate::store::Store;

verus! {

/// The per-connection state machine: a connection walks from `Accepted`
/// to `Closed`, or drops into the terminal `Failed` state on the first
/// codec or I/O error. The table is touched in exactly one transition,
/// the commit, so a failed connection never leaves a partial mutation.
pub enum HandlerState {
    /// The connection was accepted and nothing was read yet.
    Accepted,
    /// The fixed-width header is being read.
    ReadingHeader,
    /// The header was decoded; `length` payload bytes are being read.
    /// The command token is carried along but not interpreted.
    ReadingPayload { command: Vec<u8>, length: usize },
    /// The payload was decoded into a request.
    Decoded { request: Request },
    /// The request was committed to the table.
    Committed,
    /// The fixed acknowledgement was written back to the peer.
    Acknowledged,
    /// Both directions of the connection were shut down.
    Closed,
    /// A codec or I/O error ended the connection early.
    Failed { error: CodecError },
}

/// The fixed acknowledgement written back to the peer after a commit:
/// the bytes of `key`.
pub open spec fn spec_ack() -> Seq<u8> {
    seq![107u8, 101u8, 121u8]
}

/// The acknowledgement as a buffer ready to be written.
pub fn acknowledgement() -> (r: Vec<u8>)
    ensures
        r@ == spec_ack(),
{
    let mut v: Vec<u8> = Vec::new();
    v.push(107);
    v.push(101);
    v.push(121);
    proof {
        assert(v@ =~= spec_ack());
    }
    v
}

impl HandlerState {
    /// A handler for a freshly accepted connection.
    pub fn new() -> (h: HandlerState)
        ensures
            h is Accepted,
    {
        HandlerState::Accepted
    }

    /// Begins the decode: the handler turns to reading the header.
    pub fn begin(&mut self)
        requires
            *old(self) is Accepted,
        ensures
            *final(self) is ReadingHeader,
    {
        *self = HandlerState::ReadingHeader;
    }

    /// Consumes the bytes a header read returned: on a well-formed
    /// header the handler turns to reading the payload, else it fails
    /// with the error that classifies the malformation.
    pub fn header_received(&mut self, buf: &Vec<u8>)
        requires
            *old(self) is ReadingHeader,
        ensures
            match spec_decode_header(buf@) {
                Ok(v) => *final(self) matches HandlerState::ReadingPayload { command, length }
                    && command@ == v.0 && length == v.1,
                Err(e) => *final(self) matches HandlerState::Failed { error } && error == e,
            },
    {
        match decode_header(buf) {
            Ok(h) => {
                *self = HandlerState::ReadingPayload { command: h.command, length: h.length };
            },
            Err(e) => {
                *self = HandlerState::Failed { error: e };
            },
        }
    }

    /// The payload length the decoded header announced.
    pub fn payload_length(&self) -> (n: usize)
        requires
            self is ReadingPayload,
        ensures
            n == self->ReadingPayload_length,
    {
        match self {
            HandlerState::ReadingPayload { command: _, length } => *length,
            _ => {
                proof {
                    assert(false);
                }
                0
            },
        }
    }

    /// Consumes the bytes a payload read returned: on a well-formed
    /// payload the handler holds the decoded request, else it fails with
    /// the error that classifies the failure.
    pub fn payload_received(&mut self, buf: &Vec<u8>)
        requires
            *old(self) is ReadingPayload,
        ensures
            match spec_decode_payload(buf@, (*old(self))->ReadingPayload_length as nat) {
                Ok(kv) => *final(self) matches HandlerState::Decoded { request }
                    && request.key@ == kv.0 && request.value@ == kv.1,
                Err(e) => *final(self) matches HandlerState::Failed { error } && error == e,
            },
    {
        let length = self.payload_length();
        match decode_payload(buf, length) {
            Ok(request) => {
                *self = HandlerState::Decoded { request };
            },
            Err(e) => {
                *self = HandlerState::Failed { error: e };
            },
        }
    }

    /// Commits the decoded request: the single transition that mutates
    /// the table, and it runs only after a full, successful decode.
    pub fn commit(&mut self, store: &mut Store)
        requires
            *old(self) is Decoded,
            old(store).wf(),
        ensures
            *final(self) is Committed,
            final(store).wf(),
            final(store)@ == old(store)@.insert(
                (*old(self))->Decoded_request.key@,
                (*old(self))->Decoded_request.value@,
            ),
    {
        match self {
            HandlerState::Decoded { request } => {
                store.put(request.key.clone(), request.value.clone());
            },
            _ => {
                proof {
                    assert(false);
                }
            },
        }
        *self = HandlerState::Committed;
    }

    /// Records that the acknowledgement was written back.
    pub fn acknowledged(&mut self)
        requires
            *old(self) is Committed,
        ensures
            *final(self) is Acknowledged,
    {
        *self = HandlerState::Acknowledged;
    }

    /// Records that both directions of the connection were shut down.
    pub fn closed(&mut self)
        requires
            *old(self) is Acknowledged,
        ensures
            *final(self) is Closed,
    {
        *self = HandlerState::Closed;
    }

    /// Drops into the terminal failed state: reachable from any state
    /// that is not yet terminal, on an I/O error the caller hit.
    pub fn fail(&mut self, error: CodecError)
        requires
            !(*old(self) is Closed),
            !(*old(self) is Failed),
        ensures
            *final(self) matches HandlerState::Failed { error: e } && e == error,
    {
        *self = HandlerState::Failed { error };
    }
}

} // verus!
