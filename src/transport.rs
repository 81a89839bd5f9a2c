//! The transport's shared state: its name and the table of outstanding
//! requests, with the decisions of the writer and the reader around it.
use vstd::prelude::*;
use crate::codec::{encode_frame, frame_bytes, DecodeError};
use crate::correlator::{entries_map, keys_unique, PendingTable};
use crate::gate::Payload;
use crate::jsonrpc::{Id, IdView};

verus! {

/// The encoded body of a payload.
pub open spec fn payload_json<C>(p: Payload<C>) -> Seq<u8> {
    match p {
        Payload::Request { value, .. } => value.json@,
        Payload::Notification(n) => n.json@,
        Payload::Response(o) => o.json@,
    }
}

/// The table after a payload is written: a request is registered under its id.
pub open spec fn pending_after_send<C>(m: Map<IdView, C>, p: Payload<C>) -> Map<IdView, C> {
    match p {
        Payload::Request { chan, value } => m.insert(value.id@, chan),
        _ => m,
    }
}

/// What the reader has just read.
pub enum Inbound {
    /// A response to the request with this id.
    Response(Id),
    /// A request or notification of the peer.
    Call,
    /// Reading failed; the stream is done.
    Failed(DecodeError),
}

/// What the reader does next.
pub enum ReaderAction<C> {
    /// Complete the request with the response, through this sender.
    Deliver(C),
    /// The response matches no outstanding request: drop it.
    Discard,
    /// Hand the call to the upstream consumer.
    Forward,
    /// Stop: complete each of these requests with `StreamClosed`, inject the exit
    /// notification upstream, and log the failure if `log` holds.
    Terminate { log: bool, to_close: Vec<(Id, C)> },
}

pub struct Transport<C> {
    name: String,
    pending: PendingTable<C>,
}

impl<C> Transport<C> {
    pub closed spec fn spec_name(&self) -> Seq<char> {
        self.name@
    }

    /// The outstanding requests.
    pub closed spec fn pending(&self) -> Map<IdView, C> {
        self.pending@
    }

    pub closed spec fn wf(&self) -> bool {
        self.pending.wf()
    }

    pub fn new(name: String) -> (r: Transport<C>)
        ensures
            r.wf(),
            r.spec_name() == name@,
            r.pending() == Map::<IdView, C>::empty(),
    {
        Transport { name, pending: PendingTable::new() }
    }

    /// The name used in log lines.
    pub fn name(&self) -> (r: &String)
        ensures
            r@ == self.spec_name(),
    {
        &self.name
    }

    /// The number of outstanding requests.
    pub fn pending_len(&self) -> (r: usize)
        requires
            self.wf(),
        ensures
            r == self.pending().dom().len(),
    {
        self.pending.len()
    }

    /// Prepares a payload for the wire: a request is registered first, then the
    /// frame that carries the payload's body is handed back.
    pub fn send_payload(&mut self, p: Payload<C>) -> (r: Vec<u8>)
        requires
            old(self).wf(),
        ensures
            final(self).wf(),
            final(self).spec_name() == old(self).spec_name(),
            final(self).pending() == pending_after_send(old(self).pending(), p),
            r@ == frame_bytes(payload_json(p)),
    {
        match p {
            Payload::Request { chan, value } => {
                let frame = encode_frame(value.json.as_slice());
                let _ = self.pending.register(value.id, chan);
                frame
            },
            Payload::Notification(n) => encode_frame(n.json.as_slice()),
            Payload::Response(o) => encode_frame(o.json.as_slice()),
        }
    }

    /// Takes the sender of the request that a response with `id` answers.
    pub fn process_response(&mut self, id: &Id) -> (r: Option<C>)
        requires
            old(self).wf(),
        ensures
            final(self).wf(),
            final(self).spec_name() == old(self).spec_name(),
            final(self).pending() == old(self).pending().remove(id@),
            r == (if old(self).pending().contains_key(id@) {
                Some(old(self).pending()[id@])
            } else {
                None::<C>
            }),
    {
        self.pending.resolve(id)
    }

    /// Empties the table; each outstanding request comes out once.
    pub fn close(&mut self) -> (r: Vec<(Id, C)>)
        requires
            old(self).wf(),
        ensures
            final(self).wf(),
            final(self).spec_name() == old(self).spec_name(),
            final(self).pending() == Map::<IdView, C>::empty(),
            keys_unique(r@),
            entries_map(r@) == old(self).pending(),
    {
        self.pending.drain_all()
    }

    /// The reader's decision after one read.
    pub fn on_inbound(&mut self, event: Inbound) -> (r: ReaderAction<C>)
        requires
            old(self).wf(),
        ensures
            final(self).wf(),
            final(self).spec_name() == old(self).spec_name(),
            match event {
                Inbound::Response(id) => {
                    &&& final(self).pending() == old(self).pending().remove(id@)
                    &&& if old(self).pending().contains_key(id@) {
                        r == ReaderAction::Deliver(old(self).pending()[id@])
                    } else {
                        r == ReaderAction::<C>::Discard
                    }
                },
                Inbound::Call => final(self).pending() == old(self).pending() && r == ReaderAction::<C>::Forward,
                Inbound::Failed(e) => {
                    &&& final(self).pending() == Map::<IdView, C>::empty()
                    &&& r matches ReaderAction::Terminate { log, to_close }
                    &&& log == e.is_malformed_spec()
                    &&& keys_unique(to_close@)
                    &&& entries_map(to_close@) == old(self).pending()
                },
            },
    {
        match event {
            Inbound::Response(id) => match self.process_response(&id) {
                Some(chan) => ReaderAction::Deliver(chan),
                None => ReaderAction::Discard,
            },
            Inbound::Call => ReaderAction::Forward,
            Inbound::Failed(e) => {
                let to_close = self.close();
                ReaderAction::Terminate { log: e.is_malformed(), to_close }
            },
        }
    }
}

} // verus!
