//! The messages that travel over the transport.
use vstd::prelude::*;

verus! {

/// A correlation id: matches a request to its response.
#[derive(Debug)]
pub enum Id {
    Null,
    Num(u64),
    Str(String),
}

/// The mathematical value of an [`Id`].
pub enum IdView {
    Null,
    Num(u64),
    Str(Seq<char>),
}

impl View for Id {
    type V = IdView;

    open spec fn view(&self) -> IdView {
        match self {
            Id::Null => IdView::Null,
            Id::Num(n) => IdView::Num(*n),
            Id::Str(s) => IdView::Str(s@),
        }
    }
}

impl Id {
    /// Whether two ids denote the same request.
    pub fn same(&self, other: &Id) -> (r: bool)
        ensures
            r == (self@ == other@),
    {
        match (self, other) {
            (Id::Null, Id::Null) => true,
            (Id::Num(a), Id::Num(b)) => *a == *b,
            (Id::Str(a), Id::Str(b)) => *a == *b,
            _ => false,
        }
    }
}

/// A request to the peer; `json` is its encoded body.
pub struct MethodCall {
    pub id: Id,
    pub method: String,
    pub json: Vec<u8>,
}

/// A notification to the peer; `json` is its encoded body.
pub struct Notification {
    pub method: String,
    pub json: Vec<u8>,
}

/// A response to a request of the peer; `json` is its encoded body.
pub struct Output {
    pub id: Id,
    pub json: Vec<u8>,
}

/// Which fields the top-level object of a received body has.
#[derive(PartialEq, Eq, Structural, Debug, Clone, Copy)]
pub struct MessageShape {
    pub has_id: bool,
    pub has_method: bool,
    pub has_result: bool,
    pub has_error: bool,
}

/// What a received body is.
#[derive(PartialEq, Eq, Structural, Debug, Clone, Copy)]
pub enum MessageKind {
    /// A response to one of our requests.
    Response,
    /// A request or notification of the peer.
    Call,
    /// Neither: a malformed message.
    Invalid,
}

/// The response shape is tried first (an `id`, one of `result` and `error`, no
/// `method`), then the call shape (a `method`).
pub open spec fn message_kind(s: MessageShape) -> MessageKind {
    if s.has_id && !s.has_method && (s.has_result != s.has_error) {
        MessageKind::Response
    } else if s.has_method {
        MessageKind::Call
    } else {
        MessageKind::Invalid
    }
}

pub fn classify_message(s: MessageShape) -> (r: MessageKind)
    ensures
        r == message_kind(s),
{
    if s.has_id && !s.has_method && (s.has_result != s.has_error) {
        MessageKind::Response
    } else if s.has_method {
        MessageKind::Call
    } else {
        MessageKind::Invalid
    }
}

} // verus!
