//! Verified core of a client for the League Client Update (LCU) API:
//! credential extraction from the client's command line, the HTTP and
//! WebSocket endpoints derived from those credentials, version-string
//! conversion and the decoding of WAMP event frames.

pub mod auth;
pub mod encoding;
pub mod http;
pub mod text;
pub mod websocket;

pub use auth::{credentials_from_cmdline, find_lcu_in, poll_step, Credentials, PollStep, ProcessInfo};
pub use http::{lcu_request_parts, parse_marketing_version, LcuRequest};
pub use websocket::{after_delivery, stream_action, Delivery, wamp_event_payload, EventType, LcuEvent, StreamAction, StreamEvent};
