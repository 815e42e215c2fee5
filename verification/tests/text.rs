use league_connect_rust::text::{join_with_spaces, parse_unsigned_text, text_contains};

#[test]
fn unsigned_parsing_matches_str_parse() {
    for s in ["0", "42", "+42", "65535", "65536", "", "+", "-1", "4a", " 4", "0065535", "++1"] {
        assert_eq!(parse_unsigned_text(s, 65535), s.parse::<u16>().ok().map(u64::from), "{s}");
        assert_eq!(parse_unsigned_text(s, u32::MAX as u64), s.parse::<u32>().ok().map(u64::from), "{s}");
    }
}

#[test]
fn contains_matches_str_contains() {
    for (s, p) in [("LeagueClientUx.exe", "LeagueClientUx"), ("LeagueClient", "LeagueClientUx"), ("", ""), ("abc", ""), ("aab", "ab"), ("ab", "abc")] {
        assert_eq!(text_contains(s, p), s.contains(p), "{s} {p}");
    }
}

#[test]
fn join_matches_std_join() {
    let parts: Vec<String> = vec!["a".into(), "".into(), "b c".into()];
    assert_eq!(join_with_spaces(&parts), parts.join(" "));
    assert_eq!(join_with_spaces(&Vec::new()), "");
}
