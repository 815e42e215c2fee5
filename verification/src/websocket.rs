//! WAMP event frames of the LCU WebSocket: which frames carry an event, and
//! what the receiving loop does with each incoming message.
use vstd::prelude::*;
use serde_json::Value;

verus! {

#[verifier::external_type_specification]
#[verifier::external_body]
pub struct ExJsonValue(serde_json::Value);

/// `Clone::clone` of `serde_json::Value`, which derives it. Trusted: the copy
/// is the same JSON value.
pub assume_specification[ <serde_json::Value as Clone>::clone ](v: &serde_json::Value) -> (res: serde_json::Value)
    ensures
        res == *v,
;

/// Event type from the LCU WAMP payload.
#[derive(Debug, Clone, Copy, PartialEq, Eq, Structural)]
pub enum EventType {
    Create,
    Update,
    Delete,
    Unknown,
}

/// A single LCU WebSocket event: the REST endpoint that changed, whether the
/// resource was created, updated or deleted, and its new state as JSON.
#[derive(Debug, Clone)]
pub struct LcuEvent {
    pub uri: String,
    pub event_type: EventType,
    pub data: Value,
}

/// WAMP opcode of an EVENT frame.
pub const WAMP_EVENT: u64 = 8;

/// Names what `serde_json::from_str::<Vec<Value>>` gives for `text`: the
/// elements of the JSON array that `text` holds, or `None` where `text` is not
/// exactly one JSON array.
pub uninterp spec fn json_array(text: Seq<char>) -> Option<Seq<Value>>;

/// Names what `Value::as_u64` gives for `v`: its value where `v` is a
/// non-negative integer that fits in `u64`, else `None`.
pub uninterp spec fn json_u64(v: Value) -> Option<u64>;

/// `serde_json::from_str::<Vec<Value>>(text)`, errors mapped to `None`.
/// Trusted: the result is the named array for exactly `text`. It does not
/// panic.
#[verifier::external_body]
fn json_array_from_str(text: &str) -> (res: Option<Vec<Value>>)
    ensures
        match res {
            Some(items) => json_array(text@) == Some(items@),
            None => json_array(text@) is None,
        },
{
    match serde_json::from_str::<Vec<Value>>(text) {
        Ok(items) => Some(items),
        Err(_) => None,
    }
}

/// `serde_json::Value::as_u64`. Trusted: the result is the named number of
/// exactly `v`.
#[verifier::external_body]
fn json_as_u64(v: &Value) -> (res: Option<u64>)
    ensures
        res == json_u64(*v),
{
    v.as_u64()
}

/// A frame whose array has `len` elements and whose first element reads as
/// `opcode` carries an event: at least three elements, opcode 8.
pub open spec fn is_event_frame(len: nat, opcode: Option<u64>) -> bool {
    len >= 3 && opcode == Some(WAMP_EVENT)
}

/// Whether a frame of `len` elements with first element `opcode` is an
/// event frame.
pub fn frame_is_event(len: usize, opcode: Option<u64>) -> (res: bool)
    ensures
        res == is_event_frame(len as nat, opcode),
{
    len >= 3 && match opcode {
        Some(op) => op == WAMP_EVENT,
        None => false,
    }
}

/// The payload of the event frame `text`: the third element of its array,
/// `[8, "OnJsonApiEvent", { uri, data, eventType }]`; `None` for any other
/// text.
pub open spec fn event_payload(text: Seq<char>) -> Option<Value> {
    match json_array(text) {
        Some(items) => if items.len() >= 3 && is_event_frame(items.len(), json_u64(items[0])) {
            Some(items[2])
        } else {
            None
        },
        None => None,
    }
}

/// Exactly the frames whose JSON array has at least three elements and whose
/// first element reads as 8 carry a payload, and it is the third element,
/// whatever the length of the text.
pub proof fn law_event_frames_carry_their_payload(text: Seq<char>)
    ensures
        json_array(text) matches Some(items) ==> (items.len() >= 3 && json_u64(items[0]) == Some(8u64)
            ==> event_payload(text) == Some(items[2])),
        event_payload(text) is Some ==> (json_array(text) matches Some(items) && items.len() >= 3
            && json_u64(items[0]) == Some(8u64) && event_payload(text) == Some(items[2])),
{
}

/// The payload of a raw WAMP text frame, where the frame is an event
/// (opcode 8); `None` for subscription acknowledgements, other frames, and
/// text that is not a JSON array.
pub fn wamp_event_payload(text: &str) -> (res: Option<Value>)
    ensures
        res == event_payload(text@),
        json_array(text@) matches Some(items) ==> (items.len() >= 3 && json_u64(items[0]) == Some(8u64)
            ==> res == Some(items[2])),
        res is Some ==> (json_array(text@) matches Some(items) && items.len() >= 3
            && json_u64(items[0]) == Some(8u64) && res == Some(items[2])),
{
    proof { law_event_frames_carry_their_payload(text@); }
    let mut items = match json_array_from_str(text) {
        Some(items) => items,
        None => return None,
    };
    if items.len() < 3 {
        return None;
    }
    let opcode = json_as_u64(&items[0]);
    if !frame_is_event(items.len(), opcode) {
        return None;
    }
    Some(items.remove(2))
}

/// One message as the receiving loop gets it from the WebSocket.
pub enum StreamEvent {
    /// A text frame.
    Text(String),
    /// A close frame.
    Close,
    /// The stream reported an error.
    Error,
    /// Any other frame (binary, ping, pong).
    Other,
}

/// What the receiving loop does next.
pub enum StreamAction {
    /// Decode this event payload and deliver the event.
    Payload(Value),
    /// Go on with the next message.
    Skip,
    /// End the loop; the channel closes.
    Stop,
}

/// The receiving loop's decision for one incoming message: a close frame or
/// an error ends it, an event frame yields its payload, and every other
/// message is passed over.
pub fn stream_action(event: StreamEvent) -> (res: StreamAction)
    ensures
        match event {
            StreamEvent::Text(t) => match event_payload(t@) {
                Some(p) => res == StreamAction::Payload(p),
                None => res is Skip,
            },
            StreamEvent::Close => res is Stop,
            StreamEvent::Error => res is Stop,
            StreamEvent::Other => res is Skip,
        },
{
    match event {
        StreamEvent::Text(t) => match wamp_event_payload(t.as_str()) {
            Some(p) => StreamAction::Payload(p),
            None => StreamAction::Skip,
        },
        StreamEvent::Close => StreamAction::Stop,
        StreamEvent::Error => StreamAction::Stop,
        StreamEvent::Other => StreamAction::Skip,
    }
}


/// What became of handing one event to the receiver.
pub enum Delivery {
    /// The receiver took the event.
    Delivered,
    /// The receiver is gone (dropped).
    ReceiverGone,
}

/// The receiving loop's decision after handing an event over: go on while
/// the receiver takes events, end the loop once it is gone.
pub fn after_delivery(delivery: Delivery) -> (res: StreamAction)
    ensures
        match delivery {
            Delivery::Delivered => res is Skip,
            Delivery::ReceiverGone => res is Stop,
        },
{
    match delivery {
        Delivery::Delivered => StreamAction::Skip,
        Delivery::ReceiverGone => StreamAction::Stop,
    }
}

} // verus!
