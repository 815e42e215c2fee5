use league_connect_rust::websocket::{frame_is_event, stream_action, wamp_event_payload, StreamAction, StreamEvent};
use league_connect_rust::{after_delivery, Delivery, EventType, LcuEvent};

#[test]
fn event_frame_yields_its_payload() {
    let raw = r#"[8,"OnJsonApiEvent",{"uri":"/lol-gameflow/v1/session","eventType":"Update","data":{"phase":"Lobby"}}]"#;
    let payload = wamp_event_payload(raw).unwrap();
    assert_eq!(payload["uri"], "/lol-gameflow/v1/session");
    assert_eq!(payload["eventType"], "Update");
    assert_eq!(payload["data"]["phase"], "Lobby");
}

#[test]
fn non_event_frames_yield_nothing() {
    assert!(wamp_event_payload(r#"[5,"OnJsonApiEvent"]"#).is_none());
    assert!(wamp_event_payload("not json").is_none());
    assert!(wamp_event_payload("[]").is_none());
    assert!(wamp_event_payload(r#"[8,"OnJsonApiEvent"]"#).is_none());
    assert!(wamp_event_payload(r#"[8.0,"OnJsonApiEvent",{}]"#).is_none());
    assert!(wamp_event_payload(r#"[7,"OnJsonApiEvent",{}]"#).is_none());
    assert!(wamp_event_payload(r#"{"a":1}"#).is_none());
}

#[test]
fn payload_is_the_third_element_whatever_it_is() {
    let payload = wamp_event_payload(r#"[8,"x",null,4]"#).unwrap();
    assert!(payload.is_null());
}

#[test]
fn event_frame_rule() {
    assert!(frame_is_event(3, Some(8)));
    assert!(frame_is_event(4, Some(8)));
    assert!(!frame_is_event(2, Some(8)));
    assert!(!frame_is_event(3, Some(5)));
    assert!(!frame_is_event(3, None));
}

#[test]
fn stream_actions() {
    assert!(matches!(stream_action(StreamEvent::Close), StreamAction::Stop));
    assert!(matches!(stream_action(StreamEvent::Error), StreamAction::Stop));
    assert!(matches!(stream_action(StreamEvent::Other), StreamAction::Skip));
    assert!(matches!(stream_action(StreamEvent::Text("[5,\"OnJsonApiEvent\"]".to_string())), StreamAction::Skip));
    match stream_action(StreamEvent::Text(r#"[8,"OnJsonApiEvent",{"uri":"/a"}]"#.to_string())) {
        StreamAction::Payload(p) => assert_eq!(p["uri"], "/a"),
        _ => panic!("expected a payload"),
    }
}

#[test]
fn cloned_event_keeps_its_fields() {
    let payload = wamp_event_payload(r#"[8,"OnJsonApiEvent",{"data":{"phase":"Lobby"}}]"#).unwrap();
    let event = LcuEvent { uri: "/x".to_string(), event_type: EventType::Delete, data: payload["data"].clone() };
    let copy = event.clone();
    assert_eq!(copy.uri, "/x");
    assert_eq!(copy.event_type, EventType::Delete);
    assert_eq!(copy.data["phase"], "Lobby");
    assert_ne!(copy.event_type, EventType::Update);
}

#[test]
fn delete_event_frame_yields_its_payload() {
    let raw = r#"[8,"OnJsonApiEvent",{"uri":"/lol-lobby/v2/lobby","eventType":"Delete","data":null}]"#;
    let payload = wamp_event_payload(raw).unwrap();
    assert_eq!(payload["eventType"], "Delete");
    assert_eq!(payload["uri"], "/lol-lobby/v2/lobby");
    assert!(payload["data"].is_null());
}

#[test]
fn delivery_decides_whether_the_loop_goes_on() {
    use_after(Delivery::Delivered, false);
    use_after(Delivery::ReceiverGone, true);
}

fn use_after(d: Delivery, stops: bool) {
    assert_eq!(matches!(after_delivery(d), StreamAction::Stop), stops);
}
