# league-connect-rust

A client for the League of Legends Client Update (LCU) API, with its logic
proved by Verus.

- `src/` is the verified library:
  - `auth.rs`: `Credentials`, the Basic-auth header value and the HTTPS/WSS
    base URLs, and the scan of a process list for the League Client whose
    command line carries `--app-port` and `--remoting-auth-token`.
  - `encoding.rs`: standard padded base64 as specification, with its
    decoding and the round-trip and alphabet laws.
  - `http.rs`: the URL and header values of a REST request, and
    `parse_marketing_version` (`"4.21.614.6789"` gives `"14.21"`).
  - `websocket.rs`: which WAMP text frames carry an event, and the decision
    the receiving loop takes for each incoming message.
  - `text.rs`: decimal rendering and reading of unsigned integers, substring
    search and joining, each against a specification of what it computes.
- `app/` holds the I/O: the process-table snapshot (`sysinfo`), the sleeps
  between polls (the decision is `auth::poll_step`),
  the HTTP client (`reqwest`), the WebSocket connection and event channel
  (`tokio-tungstenite`, `tokio`), and the serde decoding of event payloads.
- `tests/` runs the library on concrete inputs.
