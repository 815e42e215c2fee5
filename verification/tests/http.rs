use league_connect_rust::auth::Credentials;
use league_connect_rust::http::{lcu_request_parts, parse_marketing_version};

#[test]
fn test_version_parsing() {
    assert_eq!(parse_marketing_version("4.21.614.6789"), Some("14.21".into()));
    assert_eq!(parse_marketing_version("4.3.614.6789"), Some("14.03".into()));
    assert_eq!(parse_marketing_version("bad"), None);
}

#[test]
fn version_needs_a_dot_and_a_numeric_major() {
    assert_eq!(parse_marketing_version(""), None);
    assert_eq!(parse_marketing_version("14"), None);
    assert_eq!(parse_marketing_version(".21"), None);
    assert_eq!(parse_marketing_version("x.21"), None);
    assert_eq!(parse_marketing_version("-4.21"), None);
    assert_eq!(parse_marketing_version("4294967296.1"), None);
}

#[test]
fn version_minor_field_is_padded_and_kept() {
    assert_eq!(parse_marketing_version("4."), Some("14.00".into()));
    assert_eq!(parse_marketing_version("4.7"), Some("14.07".into()));
    assert_eq!(parse_marketing_version("4.123.1"), Some("14.123".into()));
    assert_eq!(parse_marketing_version("4.ab.1"), Some("14.ab".into()));
    assert_eq!(parse_marketing_version("+4.21"), Some("14.21".into()));
    assert_eq!(parse_marketing_version("004.21"), Some("14.21".into()));
    assert_eq!(parse_marketing_version("0.1"), Some("10.01".into()));
    assert_eq!(parse_marketing_version("4294967285.1"), Some("4294967295.01".into()));
}

#[test]
fn marketing_version_reads_back_with_major_plus_ten() {
    let once = parse_marketing_version("5.2.3").unwrap();
    assert_eq!(once, "15.02");
    assert_eq!(parse_marketing_version(&once), Some("25.02".into()));
}

#[test]
fn request_parts_combine_base_url_endpoint_and_auth() {
    let creds = Credentials { port: 52437, password: "abc".to_string(), pid: 7 };
    let req = lcu_request_parts(&creds, "/lol-summoner/v1/current-summoner");
    assert_eq!(req.url, "https://127.0.0.1:52437/lol-summoner/v1/current-summoner");
    assert_eq!(req.authorization, "Basic cmlvdDphYmM=");
    assert_eq!(req.accept, "application/json");
}

#[test]
fn later_version_fields_change_nothing() {
    for raw in ["4.21", "4.21.614.6789", "4.", "x.1", "4.3"] {
        for extra in ["", "614", "a.b", "."] {
            let longer = format!("{raw}.{extra}");
            assert_eq!(parse_marketing_version(&longer), parse_marketing_version(raw), "{longer}");
        }
    }
}

#[test]
fn undotted_large_numbers_are_no_version() {
    assert_eq!(parse_marketing_version("4294967295"), None);
    assert_eq!(parse_marketing_version("4294967290"), None);
}
