use lsp_transport::correlator::PendingTable;
use lsp_transport::gate::{
    classify_payload, exit_notification_method, initialized_notification_method, Dispatch,
    Dispatcher, Payload, PayloadClass,
};
use lsp_transport::jsonrpc::{
    classify_message, Id, MessageKind, MessageShape, MethodCall, Notification, Output,
};
use lsp_transport::transport::{Inbound, ReaderAction, Transport};
use lsp_transport::codec::DecodeError;

fn request(id: u64, method: &str) -> Payload<u64> {
    Payload::Request {
        chan: id * 100,
        value: MethodCall {
            id: Id::Num(id),
            method: method.to_string(),
            json: format!("{{\"id\":{id},\"method\":\"{method}\"}}").into_bytes(),
        },
    }
}

fn notification(method: &str) -> Payload<u64> {
    Payload::Notification(Notification {
        method: method.to_string(),
        json: format!("{{\"method\":\"{method}\"}}").into_bytes(),
    })
}

fn method_of(p: &Payload<u64>) -> String {
    match p {
        Payload::Request { value, .. } => value.method.clone(),
        Payload::Notification(n) => n.method.clone(),
        Payload::Response(_) => "<response>".to_string(),
    }
}

#[test]
fn ids_compare_by_value() {
    assert!(Id::Num(3).same(&Id::Num(3)));
    assert!(!Id::Num(3).same(&Id::Num(4)));
    assert!(Id::Str("a".to_string()).same(&Id::Str("a".to_string())));
    assert!(!Id::Str("1".to_string()).same(&Id::Num(1)));
    assert!(Id::Null.same(&Id::Null));
}

#[test]
fn message_shapes() {
    let shape = |has_id, has_method, has_result, has_error| MessageShape {
        has_id,
        has_method,
        has_result,
        has_error,
    };
    assert_eq!(classify_message(shape(true, false, true, false)), MessageKind::Response);
    assert_eq!(classify_message(shape(true, false, false, true)), MessageKind::Response);
    assert_eq!(classify_message(shape(true, true, false, false)), MessageKind::Call);
    assert_eq!(classify_message(shape(false, true, false, false)), MessageKind::Call);
    assert_eq!(classify_message(shape(true, false, false, false)), MessageKind::Invalid);
    assert_eq!(classify_message(shape(false, false, true, false)), MessageKind::Invalid);
    assert_eq!(classify_message(shape(true, false, true, true)), MessageKind::Invalid);
}

#[test]
fn responses_match_their_own_ids_in_any_order() {
    let mut table = PendingTable::new();
    for i in 1..=5u64 {
        assert_eq!(table.register(Id::Num(i), i * 10), None);
    }
    assert_eq!(table.len(), 5);
    for i in [3u64, 5, 1, 4, 2] {
        assert_eq!(table.resolve(&Id::Num(i)), Some(i * 10));
    }
    assert_eq!(table.len(), 0);
}

#[test]
fn stale_response_is_discarded() {
    let mut table = PendingTable::new();
    table.register(Id::Num(1), "one");
    table.register(Id::Str("two".to_string()), "two");
    assert_eq!(table.resolve(&Id::Num(9)), None);
    assert_eq!(table.resolve(&Id::Num(1)), Some("one"));
    assert_eq!(table.resolve(&Id::Num(1)), None);
    assert_eq!(table.len(), 1);
    assert_eq!(table.resolve(&Id::Str("two".to_string())), Some("two"));
}

#[test]
fn register_same_id_replaces() {
    let mut table = PendingTable::new();
    assert_eq!(table.register(Id::Num(1), 'a'), None);
    assert_eq!(table.register(Id::Num(1), 'b'), Some('a'));
    assert_eq!(table.len(), 1);
    assert_eq!(table.resolve(&Id::Num(1)), Some('b'));
}

#[test]
fn drain_hands_out_each_entry_once() {
    let mut table = PendingTable::new();
    for i in 0..4u64 {
        table.register(Id::Num(i), i);
    }
    let mut drained: Vec<u64> = table.drain_all().into_iter().map(|(_, c)| c).collect();
    drained.sort();
    assert_eq!(drained, vec![0, 1, 2, 3]);
    assert_eq!(table.len(), 0);
    assert!(table.drain_all().is_empty());
}

#[test]
fn payload_classes() {
    assert_eq!(classify_payload(&request(1, "initialize")), PayloadClass::Handshake);
    assert_eq!(classify_payload(&notification("initialized")), PayloadClass::Handshake);
    assert_eq!(classify_payload(&request(1, "shutdown")), PayloadClass::Shutdown);
    assert_eq!(classify_payload(&request(1, "textDocument/hover")), PayloadClass::Request);
    assert_eq!(classify_payload(&notification("initialize")), PayloadClass::Notification);
    assert_eq!(classify_payload(&request(1, "initialized")), PayloadClass::Request);
    let response: Payload<u64> = Payload::Response(Output { id: Id::Num(1), json: b"{}".to_vec() });
    assert_eq!(classify_payload(&response), PayloadClass::Response);
}

#[test]
fn handshake_orders_deferred_requests() {
    let mut gate = Dispatcher::new();
    let mut written: Vec<String> = Vec::new();
    let mut feed = |gate: &mut Dispatcher<u64>, p: Payload<u64>, written: &mut Vec<String>| {
        match gate.on_payload(p) {
            Dispatch::Write(p) => written.push(method_of(&p)),
            Dispatch::Deferred | Dispatch::Dropped => {}
            Dispatch::Terminate => panic!("unexpected termination"),
        }
    };
    feed(&mut gate, request(2, "a"), &mut written);
    feed(&mut gate, notification("n1"), &mut written);
    feed(&mut gate, request(1, "initialize"), &mut written);
    feed(&mut gate, request(3, "b"), &mut written);
    assert!(!gate.ready());
    for p in gate.on_initialized() {
        written.push(method_of(&p));
    }
    assert!(gate.ready());
    feed(&mut gate, notification("initialized"), &mut written);
    feed(&mut gate, request(4, "c"), &mut written);
    feed(&mut gate, notification("n2"), &mut written);
    assert_eq!(written, vec!["initialize", "a", "b", "initialized", "c", "n2"]);
}

#[test]
fn shutdown_before_ready_terminates() {
    let mut gate = Dispatcher::new();
    assert!(matches!(gate.on_payload(request(1, "a")), Dispatch::Deferred));
    assert!(matches!(gate.on_payload(request(2, "shutdown")), Dispatch::Terminate));
    let mut ready = Dispatcher::new();
    ready.on_initialized();
    assert!(matches!(ready.on_payload(request(2, "shutdown")), Dispatch::Write(_)));
}

#[test]
fn injected_methods() {
    assert_eq!(initialized_notification_method(), "initialized");
    assert_eq!(exit_notification_method(), "exit");
}

#[test]
fn send_registers_request_and_frames_body() {
    let mut t: Transport<u64> = Transport::new("rust-analyzer".to_string());
    assert_eq!(t.name(), "rust-analyzer");
    let bytes = t.send_payload(request(7, "x"));
    assert_eq!(bytes, b"Content-Length: 21\r\n\r\n{\"id\":7,\"method\":\"x\"}".to_vec());
    assert_eq!(t.pending_len(), 1);
    let bytes = t.send_payload(notification("y"));
    assert_eq!(bytes, b"Content-Length: 14\r\n\r\n{\"method\":\"y\"}".to_vec());
    assert_eq!(t.pending_len(), 1);
    assert_eq!(t.process_response(&Id::Num(7)), Some(700));
    assert_eq!(t.pending_len(), 0);
}

#[test]
fn reader_decisions() {
    let mut t: Transport<u64> = Transport::new("srv".to_string());
    t.send_payload(request(1, "a"));
    t.send_payload(request(2, "b"));
    t.send_payload(request(3, "c"));
    assert!(matches!(t.on_inbound(Inbound::Response(Id::Num(2))), ReaderAction::Deliver(200)));
    assert!(matches!(t.on_inbound(Inbound::Response(Id::Num(2))), ReaderAction::Discard));
    assert!(matches!(t.on_inbound(Inbound::Call), ReaderAction::Forward));
    match t.on_inbound(Inbound::Failed(DecodeError::StreamClosed)) {
        ReaderAction::Terminate { log, to_close } => {
            assert!(!log);
            let mut chans: Vec<u64> = to_close.into_iter().map(|(_, c)| c).collect();
            chans.sort();
            assert_eq!(chans, vec![100, 300]);
        }
        _ => panic!("expected termination"),
    }
    assert_eq!(t.pending_len(), 0);
    match t.on_inbound(Inbound::Failed(DecodeError::TruncatedBody)) {
        ReaderAction::Terminate { log, to_close } => {
            assert!(log);
            assert!(to_close.is_empty());
        }
        _ => panic!("expected termination"),
    }
}
