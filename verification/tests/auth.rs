use base64::Engine;
use league_connect_rust::auth::{
    credentials_from_captures, credentials_from_cmdline, find_lcu_in, poll_step, Credentials, PollStep, ProcessInfo,
};

fn creds(port: u16, password: &str) -> Credentials {
    Credentials { port, password: password.to_string(), pid: 1 }
}

fn process(pid: u32, name: &str, cmd: &[&str]) -> ProcessInfo {
    ProcessInfo { pid, name: name.to_string(), cmd: cmd.iter().map(|s| s.to_string()).collect() }
}

#[test]
fn base_url_renders_the_port() {
    assert_eq!(creds(52437, "x").lcu_base_url(), "https://127.0.0.1:52437");
    assert_eq!(creds(0, "x").lcu_base_url(), "https://127.0.0.1:0");
    assert_eq!(creds(65535, "x").lcu_base_url(), "https://127.0.0.1:65535");
}

#[test]
fn ws_url_renders_the_port() {
    assert_eq!(creds(52437, "x").lcu_ws_url(), "wss://127.0.0.1:52437");
    assert_eq!(creds(9, "x").lcu_ws_url(), "wss://127.0.0.1:9");
}

#[test]
fn urls_share_host_and_port() {
    let c = creds(4711, "x");
    assert_eq!(&c.lcu_base_url()[8..], &c.lcu_ws_url()[6..]);
}

#[test]
fn basic_auth_encodes_riot_and_token() {
    assert_eq!(creds(1, "abc").basic_auth(), "Basic cmlvdDphYmM=");
    assert_eq!(creds(1, "").basic_auth(), "Basic cmlvdDo=");
    assert_eq!(creds(1, "token-X_1").basic_auth(), "Basic cmlvdDp0b2tlbi1YXzE=");
}

#[test]
fn cmdline_yields_port_and_token() {
    let line = "C:/Riot/LeagueClientUx.exe --riotclient-app-port=1 --app-port=52437 --remoting-auth-token=Ab-c_9 --other";
    let c = credentials_from_cmdline(42, line).unwrap();
    assert_eq!(c.port, 52437);
    assert_eq!(c.password, "Ab-c_9");
    assert_eq!(c.pid, 42);
}

#[test]
fn cmdline_without_token_or_port_yields_nothing() {
    assert!(credentials_from_cmdline(1, "--app-port=52437").is_none());
    assert!(credentials_from_cmdline(1, "--remoting-auth-token=abc").is_none());
    assert!(credentials_from_cmdline(1, "").is_none());
}

#[test]
fn cmdline_port_must_fit_u16() {
    assert!(credentials_from_cmdline(1, "--app-port=65536 --remoting-auth-token=abc").is_none());
    let c = credentials_from_cmdline(1, "--app-port=65535 --remoting-auth-token=abc").unwrap();
    assert_eq!(c.port, 65535);
}

#[test]
fn captures_are_combined_exactly() {
    let c = credentials_from_captures(3, Some("+80".to_string()), Some("t".to_string())).unwrap();
    assert_eq!((c.port, c.password.as_str(), c.pid), (80, "t", 3));
    assert!(credentials_from_captures(3, Some("8a".to_string()), Some("t".to_string())).is_none());
    assert!(credentials_from_captures(3, None, Some("t".to_string())).is_none());
    assert!(credentials_from_captures(3, Some("80".to_string()), None).is_none());
}

#[test]
fn scan_takes_the_first_client_process() {
    let procs = vec![
        process(10, "explorer.exe", &["--app-port=1", "--remoting-auth-token=no"]),
        process(20, "LeagueClientUx.exe", &["--app-port=2999", "--remoting-auth-token=yes"]),
        process(30, "LeagueClientUx.exe", &["--app-port=3000", "--remoting-auth-token=later"]),
    ];
    let c = find_lcu_in(&procs).unwrap();
    assert_eq!((c.port, c.password.as_str(), c.pid), (2999, "yes", 20));
}

#[test]
fn scan_stops_at_a_client_without_arguments() {
    let procs = vec![
        process(20, "LeagueClientUx", &[]),
        process(30, "LeagueClientUx", &["--app-port=3000", "--remoting-auth-token=later"]),
    ];
    assert!(find_lcu_in(&procs).is_none());
}

#[test]
fn scan_without_client_finds_nothing() {
    let procs = vec![process(1, "LeagueClient", &["--app-port=1", "--remoting-auth-token=a"])];
    assert!(find_lcu_in(&procs).is_none());
    assert!(find_lcu_in(&Vec::new()).is_none());
}

#[test]
fn scan_joins_arguments_with_spaces() {
    let procs = vec![process(5, "LeagueClientUx", &["--app-port=12", "--remoting-auth-token=t-1"])];
    let c = find_lcu_in(&procs).unwrap();
    assert_eq!((c.port, c.password.as_str()), (12, "t-1"));
}

#[test]
fn basic_auth_decodes_to_riot_and_token() {
    use_decoder_check("abc");
    use_decoder_check("");
    use_decoder_check("p\u{e4}ss-w\u{f6}rd_\u{1f600}");
}

fn use_decoder_check(password: &str) {
    let header = Credentials { port: 1, password: password.to_string(), pid: 2 }.basic_auth();
    assert!(header.starts_with("Basic "));
    let body = &header[6..];
    assert!(body.chars().all(|c| c.is_ascii_alphanumeric() || c == '+' || c == '/' || c == '='));
    let decoded = base64::engine::general_purpose::STANDARD.decode(body).unwrap();
    assert_eq!(decoded, format!("riot:{password}").into_bytes());
    let other = Credentials { port: 9, password: password.to_string(), pid: 8 }.basic_auth();
    assert_eq!(header, other);
}

#[test]
fn found_credentials_have_a_port_and_a_token() {
    assert!(credentials_from_cmdline(1, "--app-port=0 --remoting-auth-token=abc").is_none());
    assert!(credentials_from_captures(1, Some("0".to_string()), Some("abc".to_string())).is_none());
    assert!(credentials_from_captures(1, Some("000".to_string()), Some("abc".to_string())).is_none());
    assert!(credentials_from_captures(1, Some("1".to_string()), Some(String::new())).is_none());
    let c = credentials_from_captures(1, Some("1".to_string()), Some("a".to_string())).unwrap();
    assert!(c.port > 0 && !c.password.is_empty());
    let procs = vec![process(4, "LeagueClientUx", &["--app-port=0", "--remoting-auth-token=abc"])];
    assert!(find_lcu_in(&procs).is_none());
}

#[test]
fn polling_returns_what_was_found_or_waits() {
    match poll_step(Some(creds(52437, "t")), 3000) {
        PollStep::Found(c) => assert_eq!((c.port, c.password.as_str()), (52437, "t")),
        PollStep::Wait(_) => panic!("expected the credentials"),
    }
    match poll_step(None, 3000) {
        PollStep::Wait(ms) => assert_eq!(ms, 3000),
        PollStep::Found(_) => panic!("expected a wait"),
    }
}
