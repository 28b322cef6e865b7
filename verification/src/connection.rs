//! One client connection as a state machine: bytes come in, and each step says
//! what the caller has to do on the stream.

use crate::command::{after, answer, respond};
use crate::decode::{decode_next, parse, Next, Parsed};
use crate::error::ErrorKind;
use crate::resp::{encode, wire};
use crate::storage::{sweep, Storage};
use vstd::prelude::*;

verus! {

/// What a step asks of the caller, as mathematical data.
pub enum StepView {
    Read,
    Write(Seq<u8>),
    Skip,
    Close,
    Fail(ErrorKind),
}

/// What the caller has to do after a step.
#[derive(Debug, PartialEq, Eq)]
pub enum Step {
    /// Read more bytes from the stream, hand them over, and step again.
    Read,
    /// Write these bytes, the encoded reply, to the stream, and step again.
    Write(Vec<u8>),
    /// A request was passed over; step again.
    Skip,
    /// The stream has ended between two requests: close the connection.
    Close,
    /// The stream cannot be read any further: drop the connection.
    Fail(ErrorKind),
}

impl View for Step {
    type V = StepView;

    open spec fn view(&self) -> StepView {
        match self {
            Step::Read => StepView::Read,
            Step::Write(bytes) => StepView::Write(bytes@),
            Step::Skip => StepView::Skip,
            Step::Close => StepView::Close,
            Step::Fail(kind) => StepView::Fail(*kind),
        }
    }
}

/// What a step does where no whole request has arrived: it waits for more
/// bytes, or ends with the stream.
pub open spec fn without_request(buffered: Seq<u8>, closed: bool) -> StepView {
    if !closed {
        StepView::Read
    } else if buffered.len() == 0 {
        StepView::Close
    } else {
        StepView::Fail(ErrorKind::MalformedInput)
    }
}

/// The bytes of one connection that have arrived and were not yet read as
/// requests. The view is those bytes.
pub struct Connection {
    buffer: Vec<u8>,
}

impl View for Connection {
    type V = Seq<u8>;

    closed spec fn view(&self) -> Seq<u8> {
        self.buffer@
    }
}

impl Connection {
    /// A connection on which nothing has arrived.
    pub fn new() -> (connection: Connection)
        ensures
            connection@ == Seq::<u8>::empty(),
    {
        Connection { buffer: Vec::new() }
    }

    /// Takes the bytes `data` that arrived on the stream.
    pub fn receive(&mut self, data: &[u8])
        ensures
            final(self)@ == old(self)@ + data@,
    {
        self.buffer.extend_from_slice(data);
        assert(self.buffer@ =~= old(self).buffer@ + data@);
    }

    /// One turn of the connection at time `now`: sweeps the store, then reads
    /// one request from the bytes that have arrived, answers it from the store
    /// and hands back the encoded reply. `closed` tells that the stream has
    /// ended and no more bytes will arrive.
    pub fn step(&mut self, storage: &mut Storage, closed: bool, now: u128) -> (step: Step)
        ensures
            match parse(old(self)@) {
                Parsed::Complete(request, used) => {
                    let swept = sweep(old(storage)@, now as nat);
                    &&& final(self)@ == old(self)@.skip(used as int)
                    &&& final(storage)@ == after(request, swept, now as nat)
                    &&& step@ == match answer(request, swept, now as nat) {
                        Some(value) => StepView::Write(wire(value)),
                        None => StepView::Skip,
                    }
                },
                Parsed::Incomplete => {
                    &&& final(self)@ == old(self)@
                    &&& final(storage)@ == sweep(old(storage)@, now as nat)
                    &&& step@ == without_request(old(self)@, closed)
                },
                Parsed::Malformed => {
                    &&& final(self)@ == old(self)@
                    &&& final(storage)@ == sweep(old(storage)@, now as nat)
                    &&& step@ == StepView::Fail(ErrorKind::MalformedInput)
                },
            },
    {
        storage.remove_expired_at(now);
        match decode_next(self.buffer.as_slice(), closed) {
            Ok(Next::Value(request, used)) => {
                proof {
                    crate::decode::lemma_parse_bounds(self.buffer@);
                }
                let rest = self.buffer.split_off(used);
                self.buffer = rest;
                assert(self.buffer@ =~= old(self).buffer@.skip(used as int));
                match respond(request, storage, now) {
                    Some(value) => Step::Write(encode(&value)),
                    None => Step::Skip,
                }
            },
            Ok(Next::More) => Step::Read,
            Ok(Next::End) => Step::Close,
            Err(kind) => Step::Fail(kind),
        }
    }
}

} // verus!
