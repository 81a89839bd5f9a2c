//! The handshake gate: what the writer does with each outbound payload before
//! and after the initialization handshake has completed.
use vstd::prelude::*;
use crate::jsonrpc::{MethodCall, Notification, Output};

verus! {

/// Something the local side wants written to the wire. `C` completes a request.
pub enum Payload<C> {
    Request { chan: C, value: MethodCall },
    Notification(Notification),
    Response(Output),
}

/// How a payload is admitted while the handshake is pending.
#[derive(PartialEq, Eq, Structural, Debug, Clone, Copy)]
pub enum PayloadClass {
    /// The handshake's own `initialize` request or `initialized` notification.
    Handshake,
    /// A `shutdown` request.
    Shutdown,
    /// Any other request.
    Request,
    /// Any other notification.
    Notification,
    /// A response to the peer.
    Response,
}

pub open spec fn initialize_method() -> Seq<char> {
    seq!['i', 'n', 'i', 't', 'i', 'a', 'l', 'i', 'z', 'e']
}

pub open spec fn initialized_method() -> Seq<char> {
    seq!['i', 'n', 'i', 't', 'i', 'a', 'l', 'i', 'z', 'e', 'd']
}

pub open spec fn shutdown_method() -> Seq<char> {
    seq!['s', 'h', 'u', 't', 'd', 'o', 'w', 'n']
}

pub open spec fn exit_method() -> Seq<char> {
    seq!['e', 'x', 'i', 't']
}

pub open spec fn payload_class<C>(p: Payload<C>) -> PayloadClass {
    match p {
        Payload::Request { value, .. } => if value.method@ == initialize_method() {
            PayloadClass::Handshake
        } else if value.method@ == shutdown_method() {
            PayloadClass::Shutdown
        } else {
            PayloadClass::Request
        },
        Payload::Notification(n) => if n.method@ == initialized_method() {
            PayloadClass::Handshake
        } else {
            PayloadClass::Notification
        },
        Payload::Response(_) => PayloadClass::Response,
    }
}

fn method_is(m: &String, lit: &str) -> (r: bool)
    ensures
        r == (m@ == lit@),
{
    let l = lit.to_owned();
    assert(l@ == lit@);
    *m == l
}

pub fn classify_payload<C>(p: &Payload<C>) -> (r: PayloadClass)
    ensures
        r == payload_class(*p),
{
    proof {
        reveal_strlit("initialize");
        reveal_strlit("initialized");
        reveal_strlit("shutdown");
        assert("initialize"@ =~= initialize_method());
        assert("initialized"@ =~= initialized_method());
        assert("shutdown"@ =~= shutdown_method());
    }
    match p {
        Payload::Request { value, .. } => {
            if method_is(&value.method, "initialize") {
                PayloadClass::Handshake
            } else if method_is(&value.method, "shutdown") {
                PayloadClass::Shutdown
            } else {
                PayloadClass::Request
            }
        },
        Payload::Notification(n) => {
            if method_is(&n.method, "initialized") {
                PayloadClass::Handshake
            } else {
                PayloadClass::Notification
            }
        },
        Payload::Response(_) => PayloadClass::Response,
    }
}

/// The name of a method as a `String`.
fn method_name(lit: &str) -> (r: String)
    ensures
        r@ == lit@,
{
    lit.to_owned()
}

/// The method of the notification injected upstream once the handshake completed.
pub fn initialized_notification_method() -> (r: String)
    ensures
        r@ == initialized_method(),
{
    proof {
        reveal_strlit("initialized");
    }
    method_name("initialized")
}

/// The method of the notification injected upstream once the stream closed.
pub fn exit_notification_method() -> (r: String)
    ensures
        r@ == exit_method(),
{
    proof {
        reveal_strlit("exit");
    }
    method_name("exit")
}

/// What the writer does with one payload.
pub enum Dispatch<C> {
    /// Write it now.
    Write(Payload<C>),
    /// It was queued until the handshake completes.
    Deferred,
    /// It was dropped without being written.
    Dropped,
    /// The transport stops; the payload is not written.
    Terminate,
}

/// The queue after one payload, and what becomes of the payload.
pub open spec fn admission<C>(ready: bool, deferred: Seq<Payload<C>>, p: Payload<C>) -> (Seq<Payload<C>>, Dispatch<C>) {
    if ready {
        (deferred, Dispatch::Write(p))
    } else {
        match payload_class(p) {
            PayloadClass::Handshake => (deferred, Dispatch::Write(p)),
            PayloadClass::Shutdown => (deferred, Dispatch::Terminate),
            PayloadClass::Notification => (deferred, Dispatch::Dropped),
            _ => (deferred.push(p), Dispatch::Deferred),
        }
    }
}

/// The writer's handshake state: pending until the handshake completes, then
/// ready for good. Only the caller's signal makes it ready; should the handshake's
/// own request fail, it stays pending, and what it holds back is never written.
pub struct Dispatcher<C> {
    ready: bool,
    deferred: Vec<Payload<C>>,
}

impl<C> Dispatcher<C> {
    pub closed spec fn is_ready(&self) -> bool {
        self.ready
    }

    /// The payloads held back, oldest first.
    pub closed spec fn deferred(&self) -> Seq<Payload<C>> {
        self.deferred@
    }

    pub open spec fn wf(&self) -> bool {
        self.is_ready() ==> self.deferred().len() == 0
    }

    pub fn new() -> (r: Dispatcher<C>)
        ensures
            r.wf(),
            !r.is_ready(),
            r.deferred() == Seq::<Payload<C>>::empty(),
    {
        Dispatcher { ready: false, deferred: Vec::new() }
    }

    pub fn ready(&self) -> (r: bool)
        ensures
            r == self.is_ready(),
    {
        self.ready
    }

    /// Applies the admission rules to one outbound payload.
    pub fn on_payload(&mut self, p: Payload<C>) -> (r: Dispatch<C>)
        requires
            old(self).wf(),
        ensures
            final(self).wf(),
            final(self).is_ready() == old(self).is_ready(),
            (final(self).deferred(), r) == admission(old(self).is_ready(), old(self).deferred(), p),
    {
        if self.ready {
            return Dispatch::Write(p);
        }
        match classify_payload(&p) {
            PayloadClass::Handshake => Dispatch::Write(p),
            PayloadClass::Shutdown => Dispatch::Terminate,
            PayloadClass::Notification => Dispatch::Dropped,
            _ => {
                self.deferred.push(p);
                Dispatch::Deferred
            },
        }
    }

    /// The handshake completed: from now on every payload is written at once, and the payloads
    /// held back are handed out in the order they came, to be written first.
    pub fn on_initialized(&mut self) -> (r: Vec<Payload<C>>)
        requires
            old(self).wf(),
        ensures
            final(self).wf(),
            final(self).is_ready(),
            final(self).deferred() == Seq::<Payload<C>>::empty(),
            r@ == old(self).deferred(),
    {
        self.ready = true;
        let mut out: Vec<Payload<C>> = Vec::new();
        std::mem::swap(&mut out, &mut self.deferred);
        out
    }
}

/// An event that the writer handles.
pub enum GateEvent<C> {
    Outbound(Payload<C>),
    Initialized,
}

/// The writer's state after a run of events, with what it wrote.
pub struct GateRun<C> {
    pub ready: bool,
    pub deferred: Seq<Payload<C>>,
    pub written: Seq<Payload<C>>,
    pub terminated: bool,
}

pub open spec fn initial_run<C>() -> GateRun<C> {
    GateRun { ready: false, deferred: Seq::empty(), written: Seq::empty(), terminated: false }
}

/// One event, as `on_payload` and `on_initialized` handle it; after termination
/// nothing happens.
pub open spec fn step<C>(st: GateRun<C>, e: GateEvent<C>) -> GateRun<C> {
    if st.terminated {
        st
    } else {
        match e {
            GateEvent::Initialized => GateRun {
                ready: true,
                deferred: Seq::empty(),
                written: st.written + st.deferred,
                terminated: false,
            },
            GateEvent::Outbound(p) => {
                let (d, a) = admission(st.ready, st.deferred, p);
                match a {
                    Dispatch::Write(q) => GateRun { written: st.written.push(q), ..st },
                    Dispatch::Terminate => GateRun { terminated: true, ..st },
                    _ => GateRun { deferred: d, ..st },
                }
            },
        }
    }
}

pub open spec fn run<C>(events: Seq<GateEvent<C>>) -> GateRun<C>
    decreases events.len(),
{
    if events.len() == 0 {
        initial_run()
    } else {
        step(run(events.drop_last()), events.last())
    }
}

pub open spec fn outbound<C>(ps: Seq<Payload<C>>) -> Seq<GateEvent<C>> {
    ps.map_values(|p: Payload<C>| GateEvent::Outbound(p))
}

pub open spec fn is_handshake<C>(p: Payload<C>) -> bool {
    payload_class(p) == PayloadClass::Handshake
}

/// Held back while pending: a request or a response that is not part of the handshake.
pub open spec fn is_deferrable<C>(p: Payload<C>) -> bool {
    payload_class(p) == PayloadClass::Request || payload_class(p) == PayloadClass::Response
}

pub open spec fn handshake_pred<C>() -> spec_fn(Payload<C>) -> bool {
    |p: Payload<C>| is_handshake(p)
}

pub open spec fn deferrable_pred<C>() -> spec_fn(Payload<C>) -> bool {
    |p: Payload<C>| is_deferrable(p)
}

pub open spec fn no_shutdown<C>(ps: Seq<Payload<C>>) -> bool {
    forall|i: int| 0 <= i < ps.len() ==> payload_class(#[trigger] ps[i]) != PayloadClass::Shutdown
}

proof fn lemma_pending_run<C>(pre: Seq<Payload<C>>)
    requires
        no_shutdown(pre),
    ensures
        run(outbound(pre)) == (GateRun {
            ready: false,
            deferred: pre.filter(deferrable_pred()),
            written: pre.filter(handshake_pred()),
            terminated: false,
        }),
    decreases pre.len(),
{
    reveal_with_fuel(Seq::filter, 1);
    if pre.len() > 0 {
        let init = pre.drop_last();
        assert(no_shutdown(init)) by {
            assert forall|i: int| 0 <= i < init.len() implies payload_class(#[trigger] init[i]) != PayloadClass::Shutdown by {
                assert(init[i] == pre[i]);
            }
        }
        lemma_pending_run(init);
        assert(outbound(pre).drop_last() =~= outbound(init));
        let last = pre.last();
        assert(payload_class(pre[pre.len() - 1]) != PayloadClass::Shutdown);
        assert(outbound(pre).last() == GateEvent::Outbound(last));
        let fd = deferrable_pred::<C>();
        let fh = handshake_pred::<C>();
        assert(pre.filter(fd) == (if fd(last) { init.filter(fd).push(last) } else { init.filter(fd) }));
        assert(pre.filter(fh) == (if fh(last) { init.filter(fh).push(last) } else { init.filter(fh) }));
        assert(run(outbound(pre)) == step(run(outbound(init)), GateEvent::Outbound(last)));
    } else {
        assert(outbound(pre) =~= Seq::<GateEvent<C>>::empty());
        assert(pre.filter(deferrable_pred()) =~= Seq::<Payload<C>>::empty());
        assert(pre.filter(handshake_pred()) =~= Seq::<Payload<C>>::empty());
    }
}

proof fn lemma_ready_run<C>(head: Seq<GateEvent<C>>, post: Seq<Payload<C>>)
    requires
        run(head).ready,
        !run(head).terminated,
        run(head).deferred.len() == 0,
    ensures
        run(head + outbound(post)) == (GateRun { written: run(head).written + post, ..run(head) }),
    decreases post.len(),
{
    if post.len() == 0 {
        assert(head + outbound(post) =~= head);
        assert(run(head).written + post =~= run(head).written);
    } else {
        let init = post.drop_last();
        lemma_ready_run(head, init);
        assert((head + outbound(post)).drop_last() =~= head + outbound(init));
        assert(run(head).written + post =~= (run(head).written + init).push(post.last()));
    }
}

/// Requests held back while pending are written in the order they came, after
/// the handshake's own messages and before anything sent once ready; other
/// notifications sent while pending are never written.
pub proof fn law_handshake_ordering<C>(pre: Seq<Payload<C>>, post: Seq<Payload<C>>)
    requires
        no_shutdown(pre),
    ensures
        run(outbound(pre).push(GateEvent::Initialized) + outbound(post)).written
            == pre.filter(handshake_pred()) + pre.filter(deferrable_pred()) + post,
{
    let head = outbound(pre).push(GateEvent::Initialized);
    lemma_pending_run(pre);
    assert(head.drop_last() =~= outbound(pre));
    lemma_ready_run(head, post);
}

proof fn lemma_terminated_stays<C>(head: Seq<GateEvent<C>>, rest: Seq<GateEvent<C>>)
    requires
        run(head).terminated,
    ensures
        run(head + rest) == run(head),
    decreases rest.len(),
{
    if rest.len() == 0 {
        assert(head + rest =~= head);
    } else {
        lemma_terminated_stays(head, rest.drop_last());
        assert((head + rest).drop_last() =~= head + rest.drop_last());
    }
}

/// A shutdown request sent while pending stops the transport without being
/// written, and nothing after it is written either.
pub proof fn law_shutdown_before_ready<C>(pre: Seq<Payload<C>>, shutdown: Payload<C>, rest: Seq<GateEvent<C>>)
    requires
        no_shutdown(pre),
        payload_class(shutdown) == PayloadClass::Shutdown,
    ensures
        run(outbound(pre).push(GateEvent::Outbound(shutdown)) + rest).terminated,
        run(outbound(pre).push(GateEvent::Outbound(shutdown)) + rest).written
            == pre.filter(handshake_pred()),
{
    let head = outbound(pre).push(GateEvent::Outbound(shutdown));
    lemma_pending_run(pre);
    assert(head.drop_last() =~= outbound(pre));
    lemma_terminated_stays(head, rest);
}

} // verus!
