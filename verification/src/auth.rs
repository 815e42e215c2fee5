//! Credentials of the running League Client, read from its command line,
//! and the authorisation header and base URLs derived from them.
use vstd::prelude::*;
use vstd::utf8::encode_utf8;
use base64::Engine;

use crate::encoding::{base64_decode, base64_encode, is_base64_char, law_base64_round_trip, law_base64_shape};
use crate::text::{
    all_ascii_digits, contains_text, decimal, digits_value, is_ascii_digit, join_with_spaces, join_words,
    lemma_decimal_reads_back, lemma_join_words_occurrence, lemma_join_words_prefix,
    lemma_join_words_step, occurs_at, parse_unsigned, parse_unsigned_text, push_decimal,
    string_views, text_contains, unsigned_digits,
};

verus! {

/// LCU API credentials extracted from the running League Client process.
///
/// The client passes `--app-port` and `--remoting-auth-token` on its command
/// line; this holds those values together with the process id.
#[derive(Clone, Debug)]
pub struct Credentials {
    /// The local port the LCU API listens on.
    pub port: u16,
    /// The token for HTTP Basic authentication (the user name is always `riot`).
    pub password: String,
    /// System process id of `LeagueClientUx`.
    pub pid: u32,
}

/// The credentials as plain values: port, token, process id.
impl View for Credentials {
    type V = (u16, Seq<char>, u32);

    open spec fn view(&self) -> (u16, Seq<char>, u32) {
        (self.port, self.password@, self.pid)
    }
}

/// `Engine::encode` of `base64::engine::general_purpose::STANDARD`
/// (standard alphabet, `=` padding), on the UTF-8 bytes of `raw`. Trusted:
/// the result is the standard padded base64 of exactly those bytes, as
/// `base64_encode` spells it out. The crate panics only where the encoded
/// length, `4 * ceil(len / 3)`, does not fit in `usize`; `requires` leaves
/// that out.
#[verifier::external_body]
fn encode_base64_standard(raw: &str) -> (res: String)
    requires
        4 * ((encode_utf8(raw@).len() + 2) / 3) <= usize::MAX,
    ensures
        res@ == base64_encode(encode_utf8(raw@)),
{
    base64::engine::general_purpose::STANDARD.encode(raw)
}

/// `riot:<password>`, the user-and-password pair of HTTP Basic authentication.
pub open spec fn auth_pair(password: Seq<char>) -> Seq<char> {
    "riot:"@ + password
}

/// The pair for `password` is short enough to be base64-encoded in memory.
pub open spec fn auth_pair_fits(password: Seq<char>) -> bool {
    4 * ((encode_utf8(auth_pair(password)).len() + 2) / 3) <= usize::MAX
}

/// `Basic <base64 of riot:password>`, the `Authorization` header value.
pub open spec fn basic_auth_value(password: Seq<char>) -> Seq<char> {
    "Basic "@ + base64_encode(encode_utf8(auth_pair(password)))
}

/// `https://127.0.0.1:<port>`.
pub open spec fn base_url(port: nat) -> Seq<char> {
    "https://127.0.0.1:"@ + decimal(port)
}

/// `wss://127.0.0.1:<port>`.
pub open spec fn ws_url(port: nat) -> Seq<char> {
    "wss://127.0.0.1:"@ + decimal(port)
}

impl Credentials {
    /// The `Authorization: Basic ...` header value: user `riot`, the auth
    /// token as password.
    pub fn basic_auth(&self) -> (res: String)
        requires
            auth_pair_fits(self.password@),
        ensures
            res@ == basic_auth_value(self.password@),
            res@.take(6) == "Basic "@,
            base64_decode(res@.skip(6)) == encode_utf8("riot:"@ + self.password@),
    {
        proof {
            reveal_strlit("riot:");
            reveal_strlit("Basic ");
            law_basic_auth_decodes_to_pair(self.password@);
        }
        let mut raw = String::new();
        raw.append("riot:");
        raw.append(self.password.as_str());
        assert(raw@ == auth_pair(self.password@));
        let encoded = encode_base64_standard(raw.as_str());
        let mut out = String::new();
        out.append("Basic ");
        out.append(encoded.as_str());
        out
    }

    /// HTTPS base URL, e.g. `https://127.0.0.1:52437`.
    pub fn lcu_base_url(&self) -> (res: String)
        ensures
            res@ == base_url(self.port as nat),
    {
        let mut out = String::new();
        out.append("https://127.0.0.1:");
        push_decimal(&mut out, self.port as u64);
        out
    }

    /// WSS URL of the LCU WebSocket, e.g. `wss://127.0.0.1:52437`.
    pub fn lcu_ws_url(&self) -> (res: String)
        ensures
            res@ == ws_url(self.port as nat),
    {
        let mut out = String::new();
        out.append("wss://127.0.0.1:");
        push_decimal(&mut out, self.port as u64);
        out
    }
}


/// The port part of the HTTPS base URL reads back, as `str::parse` reads a
/// `u16`, to the port it was made from.
pub proof fn law_base_url_port_reads_back(port: u16)
    ensures
        base_url(port as nat).skip(18) == decimal(port as nat),
        parse_unsigned(base_url(port as nat).skip(18), 65535) == Some(port as nat),
{
    reveal_strlit("https://127.0.0.1:");
    assert(base_url(port as nat).skip(18) =~= decimal(port as nat));
    lemma_decimal_reads_back(port as nat, 65535);
}

/// The HTTPS base URL and the WebSocket URL name the same host and port:
/// they differ only in the scheme.
pub proof fn law_urls_share_host_and_port(port: u16)
    ensures
        base_url(port as nat).take(8) == "https://"@,
        ws_url(port as nat).take(6) == "wss://"@,
        base_url(port as nat).skip(8) == ws_url(port as nat).skip(6),
{
    reveal_strlit("https://127.0.0.1:");
    reveal_strlit("wss://127.0.0.1:");
    reveal_strlit("https://");
    reveal_strlit("wss://");
    assert(base_url(port as nat).take(8) =~= "https://"@);
    assert(ws_url(port as nat).take(6) =~= "wss://"@);
    assert(base_url(port as nat).skip(8) =~= ws_url(port as nat).skip(6));
}

/// Both URLs point at the client on the local host, `127.0.0.1`, at `port`:
/// `https://127.0.0.1:<port>` and `wss://127.0.0.1:<port>`.
pub proof fn law_urls_point_at_local_client(port: u16)
    ensures
        base_url(port as nat).take(18) == "https://127.0.0.1:"@,
        ws_url(port as nat).take(16) == "wss://127.0.0.1:"@,
        ws_url(port as nat).skip(16) == decimal(port as nat),
{
    reveal_strlit("https://127.0.0.1:");
    reveal_strlit("wss://127.0.0.1:");
    assert(base_url(port as nat).take(18) =~= "https://127.0.0.1:"@);
    assert(ws_url(port as nat).take(16) =~= "wss://127.0.0.1:"@);
    assert(ws_url(port as nat).skip(16) =~= decimal(port as nat));
}

/// A process is a League Client UI process exactly when its name contains
/// `LeagueClientUx`.
pub proof fn law_client_name(name: Seq<char>)
    ensures
        is_client_name(name) == (exists|i: int| 0 <= i && i + 14 <= name.len()
            && #[trigger] name.subrange(i, i + 14) == "LeagueClientUx"@),
{
    reveal_strlit("LeagueClientUx");
    let lit = "LeagueClientUx"@;
    assert(lit.len() == 14);
    if is_client_name(name) {
        let i = choose|i: int| occurs_at(name, client_process_name(), i);
        assert(name.subrange(i, i + 14) == lit);
    }
    if exists|i: int| 0 <= i && i + 14 <= name.len() && #[trigger] name.subrange(i, i + 14) == lit {
        let i = choose|i: int| 0 <= i && i + 14 <= name.len() && #[trigger] name.subrange(i, i + 14) == lit;
        assert(occurs_at(name, client_process_name(), i));
    }
}

/// The pattern that captures the API port on the client's command line.
pub open spec fn port_pattern() -> Seq<char> {
    "--app-port=(\\d+)"@
}

/// The pattern that captures the auth token on the client's command line.
pub open spec fn token_pattern() -> Seq<char> {
    "--remoting-auth-token=([\\w-]+)"@
}

/// The flag that carries the API port on the command line.
pub open spec fn port_flag() -> Seq<char> {
    "--app-port="@
}

/// The flag that carries the auth token on the command line.
pub open spec fn token_flag() -> Seq<char> {
    "--remoting-auth-token="@
}

/// The ASCII characters of the class `[\w-]`: letters, digits, `_` and `-`.
pub open spec fn is_token_char(c: char) -> bool {
    ('a' <= c && c <= 'z') || ('A' <= c && c <= 'Z') || ('0' <= c && c <= '9') || c == '_' || c == '-'
}

/// `v` is a non-empty run of ASCII digits (`digits`) or of ASCII `[\w-]`
/// characters.
pub open spec fn value_chars(v: Seq<char>, digits: bool) -> bool {
    v.len() > 0 && forall|k: int| 0 <= k < v.len() ==> (if digits {
        is_ascii_digit(#[trigger] v[k])
    } else {
        is_token_char(v[k])
    })
}

/// In `h`, `flag` occurs first at position `i`, directly followed by the
/// value `v`, which a space or the end of `h` ends.
pub open spec fn flag_value_at(h: Seq<char>, flag: Seq<char>, i: int, v: Seq<char>, digits: bool) -> bool {
    &&& occurs_at(h, flag, i)
    &&& forall|j: int| 0 <= j < i ==> !occurs_at(h, flag, j)
    &&& value_chars(v, digits)
    &&& occurs_at(h, v, i + flag.len())
    &&& (i + flag.len() + v.len() == h.len() || h[i + flag.len() + v.len()] == ' ')
}

/// The view of an optional string.
pub open spec fn string_option_view(o: Option<String>) -> Option<Seq<char>> {
    match o {
        Some(s) => Some(s@),
        None => None,
    }
}

/// What the leftmost-first search gives for the two command-line patterns
/// where the flag first occurs followed by a value that a space or the end
/// of `haystack` ends: group 1 is that value.
pub open spec fn flag_capture_facts(pattern: Seq<char>, haystack: Seq<char>, captured: Option<Seq<char>>) -> bool {
    &&& pattern == port_pattern() ==> forall|i: int, v: Seq<char>|
        #[trigger] flag_value_at(haystack, port_flag(), i, v, true) ==> captured == Some(v)
    &&& pattern == token_pattern() ==> forall|i: int, v: Seq<char>|
        #[trigger] flag_value_at(haystack, token_flag(), i, v, false) ==> captured == Some(v)
}

/// The name that marks the League Client's UI process.
pub open spec fn client_process_name() -> Seq<char> {
    "LeagueClientUx"@
}

/// Names what the regex crate gives for `pattern` on `haystack`: the text of
/// capture group 1 of the leftmost-first match, or `None` where the pattern
/// does not compile, nothing matches, or group 1 takes no part in the match.
pub uninterp spec fn regex_group1(pattern: Seq<char>, haystack: Seq<char>) -> Option<Seq<char>>;

/// `regex::Regex::new(pattern)`, then `Regex::captures(haystack)` and the text
/// of group 1. Trusted: the result is the named capture for exactly these two
/// strings. Neither call panics. For the two command-line patterns it also
/// states what the regex crate's leftmost-first search documents: a match
/// of `--app-port=(\d+)` or `--remoting-auth-token=([\w-]+)` starts where
/// the flag occurs, so at its first occurrence when a value follows there;
/// the greedy `+` then takes the whole run of class characters, and a space
/// (in neither `\d` nor `[\w-]`) or the end of the haystack stops it. ASCII
/// digits are in `\d`; ASCII letters, digits and `_` are in `\w`.
#[verifier::external_body]
fn capture_group1(pattern: &str, haystack: &str) -> (res: Option<String>)
    ensures
        match res {
            Some(g) => regex_group1(pattern@, haystack@) == Some(g@),
            None => regex_group1(pattern@, haystack@) is None,
        },
        flag_capture_facts(pattern@, haystack@, string_option_view(res)),
{
    let re = match regex::Regex::new(pattern) {
        Ok(re) => re,
        Err(_) => return None,
    };
    match re.captures(haystack) {
        Some(caps) => match caps.get(1) {
            Some(m) => Some(m.as_str().to_string()),
            None => None,
        },
        None => None,
    }
}

/// Credentials from the two captures of a client command line: both must be
/// present, the port text must read as a `u16` other than 0, and the token
/// must not be empty.
pub open spec fn credentials_of(
    pid: u32,
    port_text: Option<Seq<char>>,
    token: Option<Seq<char>>,
) -> Option<(u16, Seq<char>, u32)> {
    match (port_text, token) {
        (Some(pt), Some(tk)) => match parse_unsigned(pt, 65535) {
            Some(port) => if port > 0 && tk.len() > 0 {
                Some((port as u16, tk, pid))
            } else {
                None
            },
            None => None,
        },
        _ => None,
    }
}

/// The credentials that the command line `cmdline` of process `pid` carries.
pub open spec fn cmdline_credentials(pid: u32, cmdline: Seq<char>) -> Option<(u16, Seq<char>, u32)> {
    credentials_of(pid, regex_group1(port_pattern(), cmdline), regex_group1(token_pattern(), cmdline))
}

/// The view of an optional credentials value.
pub open spec fn credentials_view(c: Option<Credentials>) -> Option<(u16, Seq<char>, u32)> {
    match c {
        Some(c) => Some(c@),
        None => None,
    }
}

/// Builds credentials from the captured port text and token of process `pid`.
pub fn credentials_from_captures(
    pid: u32,
    port_text: Option<String>,
    token: Option<String>,
) -> (res: Option<Credentials>)
    ensures
        credentials_view(res) == credentials_of(
            pid,
            match port_text { Some(t) => Some(t@), None => None },
            match token { Some(t) => Some(t@), None => None },
        ),
{
    match (port_text, token) {
        (Some(pt), Some(tk)) => match parse_unsigned_text(pt.as_str(), 65535) {
            Some(port) => if port > 0 && !tk.as_str().is_empty() {
                Some(Credentials { port: port as u16, password: tk, pid })
            } else {
                None
            },
            None => None,
        },
        _ => None,
    }
}

/// Reads the API port and auth token from the command line of process `pid`.
pub fn credentials_from_cmdline(pid: u32, cmdline: &str) -> (res: Option<Credentials>)
    ensures
        credentials_view(res) == cmdline_credentials(pid, cmdline@),
        forall|ip: int, d: Seq<char>, it: int, t: Seq<char>|
            #![trigger flag_value_at(cmdline@, port_flag(), ip, d, true), flag_value_at(cmdline@, token_flag(), it, t, false)]
            flag_value_at(cmdline@, port_flag(), ip, d, true)
                && flag_value_at(cmdline@, token_flag(), it, t, false)
                && 0 < digits_value(d) <= 65535
                ==> credentials_view(res) == Some((digits_value(d) as u16, t, pid)),
{
    proof {
        reveal_strlit("--app-port=(\\d+)");
        reveal_strlit("--remoting-auth-token=([\\w-]+)");
    }
    let port_text = capture_group1("--app-port=(\\d+)", cmdline);
    let token = capture_group1("--remoting-auth-token=([\\w-]+)", cmdline);
    let res = credentials_from_captures(pid, port_text, token);
    assert forall|ip: int, d: Seq<char>, it: int, t: Seq<char>|
        flag_value_at(cmdline@, port_flag(), ip, d, true)
            && flag_value_at(cmdline@, token_flag(), it, t, false)
            && 0 < digits_value(d) <= 65535
        implies credentials_view(res) == Some((digits_value(d) as u16, t, pid)) by {
        assert(is_ascii_digit(d[0]));
        assert(unsigned_digits(d) == d);
        assert(all_ascii_digits(d));
        assert(parse_unsigned(d, 65535) == Some(digits_value(d)));
    }
    res
}


/// One process as the scan sees it: its id, its name, and the words of its
/// command line.
pub struct ProcessInfo {
    pub pid: u32,
    pub name: String,
    pub cmd: Vec<String>,
}

/// `name` marks a League Client UI process.
pub open spec fn is_client_name(name: Seq<char>) -> bool {
    contains_text(name, client_process_name())
}

/// The position of the first client process in `procs`, or `procs.len()`.
pub open spec fn first_client_index(procs: Seq<ProcessInfo>) -> nat
    decreases procs.len(),
{
    if procs.len() == 0 {
        0
    } else if is_client_name(procs[0].name@) {
        0
    } else {
        1 + first_client_index(procs.drop_first())
    }
}

/// The command line of `p`: its words joined with single spaces.
pub open spec fn cmdline_of(p: ProcessInfo) -> Seq<char> {
    join_words(string_views(p.cmd@))
}

/// What a scan of `procs` finds: the first client process decides alone; its
/// command line yields the credentials, or nothing.
pub open spec fn scan_result(procs: Seq<ProcessInfo>) -> Option<(u16, Seq<char>, u32)> {
    let i = first_client_index(procs);
    if i < procs.len() {
        cmdline_credentials(procs[i as int].pid, cmdline_of(procs[i as int]))
    } else {
        None
    }
}

proof fn lemma_first_client_index(procs: Seq<ProcessInfo>, k: int)
    requires
        0 <= k <= procs.len(),
        forall|j: int| 0 <= j < k ==> !is_client_name(#[trigger] procs[j].name@),
        k < procs.len() ==> is_client_name(procs[k].name@),
    ensures
        first_client_index(procs) == k,
    decreases k,
{
    if k > 0 {
        let t = procs.drop_first();
        assert forall|j: int| 0 <= j < k - 1 implies !is_client_name(#[trigger] t[j].name@) by {
            assert(t[j] == procs[j + 1]);
        }
        if k < procs.len() {
            assert(t[k - 1] == procs[k]);
        }
        lemma_first_client_index(t, k - 1);
        assert(!is_client_name(procs[0].name@));
    } else if procs.len() > 0 {
        assert(is_client_name(procs[0].name@));
    }
}

/// Scans `processes`, in the order given, for the first League Client UI
/// process and reads the credentials from its command line. The first
/// process whose name contains `LeagueClientUx` decides alone: where its
/// command line lacks either value, the scan finds nothing.
pub fn find_lcu_in(processes: &Vec<ProcessInfo>) -> (res: Option<Credentials>)
    ensures
        credentials_view(res) == scan_result(processes@),
        forall|kp: int, d: Seq<char>, kt: int, t: Seq<char>|
            #![trigger sole_flag_word(client_words(processes@), port_flag(), kp, d, true), sole_flag_word(client_words(processes@), token_flag(), kt, t, false)]
            first_client_index(processes@) < processes@.len()
                && sole_flag_word(client_words(processes@), port_flag(), kp, d, true)
                && sole_flag_word(client_words(processes@), token_flag(), kt, t, false)
                && 0 < digits_value(d) <= 65535
                ==> credentials_view(res) == Some(
                    (digits_value(d) as u16, t, processes@[first_client_index(processes@) as int].pid),
                ),
{
    proof { reveal_strlit("LeagueClientUx"); }
    let mut i: usize = 0;
    while i < processes.len()
        invariant
            i <= processes@.len(),
            forall|j: int| 0 <= j < i ==> !is_client_name(#[trigger] processes@[j].name@),
        decreases processes@.len() - i,
    {
        let p = &processes[i];
        if text_contains(p.name.as_str(), "LeagueClientUx") {
            proof { lemma_first_client_index(processes@, i as int); }
            let cmdline = join_with_spaces(&p.cmd);
            let found = credentials_from_cmdline(p.pid, cmdline.as_str());
            proof {
                lemma_flags_without_spaces();
                let ws = client_words(processes@);
                assert(ws == string_views(p.cmd@));
                assert forall|kp: int, d: Seq<char>, kt: int, t: Seq<char>|
                    sole_flag_word(ws, port_flag(), kp, d, true)
                        && sole_flag_word(ws, token_flag(), kt, t, false)
                        && 0 < digits_value(d) <= 65535
                    implies credentials_view(found) == Some((digits_value(d) as u16, t, p.pid)) by {
                    law_flag_word_in_command_line(ws, port_flag(), kp, d, true);
                    law_flag_word_in_command_line(ws, token_flag(), kt, t, false);
                    assert(flag_value_at(cmdline@, port_flag(), word_start(ws, kp), d, true));
                    assert(flag_value_at(cmdline@, token_flag(), word_start(ws, kt), t, false));
                }
            }
            return found;
        }
        i = i + 1;
    }
    proof { lemma_first_client_index(processes@, i as int); }
    None
}


/// The words of the first client process's command line.
pub open spec fn client_words(procs: Seq<ProcessInfo>) -> Seq<Seq<char>> {
    string_views(procs[first_client_index(procs) as int].cmd@)
}

/// In the words `ws`, word `k` is `flag` directly followed by the value `v`
/// (ASCII digits, or ASCII `[\w-]` characters), and no other word holds
/// `flag`.
pub open spec fn sole_flag_word(ws: Seq<Seq<char>>, flag: Seq<char>, k: int, v: Seq<char>, digits: bool) -> bool {
    &&& 0 <= k < ws.len()
    &&& ws[k] == flag + v
    &&& value_chars(v, digits)
    &&& forall|j: int| 0 <= j < ws.len() && j != k ==> !contains_text(#[trigger] ws[j], flag)
}

/// Where word `k` starts once the words are joined with single spaces.
pub open spec fn word_start(ws: Seq<Seq<char>>, k: int) -> int {
    if k == 0 {
        0
    } else {
        join_words(ws.take(k)).len() + 1 as int
    }
}

/// Neither command-line flag holds a space.
pub proof fn lemma_flags_without_spaces()
    ensures
        port_flag().len() > 0,
        token_flag().len() > 0,
        forall|i: int| 0 <= i < port_flag().len() ==> port_flag()[i] != ' ',
        forall|i: int| 0 <= i < token_flag().len() ==> token_flag()[i] != ' ',
{
    reveal_strlit("--app-port=");
    reveal_strlit("--remoting-auth-token=");
}

/// The command line is the words joined with single spaces, so a flag word
/// that no other word repeats becomes the flag's first occurrence, its value
/// ended by the space before the next word (or by the end of the line).
pub proof fn law_flag_word_in_command_line(ws: Seq<Seq<char>>, flag: Seq<char>, k: int, v: Seq<char>, digits: bool)
    requires
        sole_flag_word(ws, flag, k, v, digits),
        flag.len() > 0,
        forall|i: int| 0 <= i < flag.len() ==> flag[i] != ' ',
    ensures
        flag_value_at(join_words(ws), flag, word_start(ws, k), v, digits),
{
    let h = join_words(ws);
    let s = word_start(ws, k);
    let pre = join_words(ws.take(k + 1));
    lemma_join_words_step(ws, k);
    lemma_join_words_prefix(ws, k + 1);
    assert(pre.len() == s + flag.len() + v.len());
    assert(h.take(pre.len() as int) == pre);
    assert(pre.subrange(s, s + flag.len()) =~= flag);
    assert(h.subrange(s, s + flag.len()) =~= pre.subrange(s, s + flag.len()));
    assert(occurs_at(h, flag, s));
    assert(pre.subrange(s + flag.len(), s + flag.len() + v.len()) =~= v);
    assert(h.subrange(s + flag.len(), s + flag.len() + v.len())
        =~= pre.subrange(s + flag.len(), s + flag.len() + v.len()));
    assert(occurs_at(h, v, s + flag.len()));
    if k + 1 == ws.len() {
        assert(ws.take(k + 1) =~= ws);
    }
    assert forall|j: int| 0 <= j < s implies !occurs_at(h, flag, j) by {
        if occurs_at(h, flag, j) {
            let b = join_words(ws.take(k));
            lemma_join_words_prefix(ws, k);
            assert(s == b.len() + 1);
            assert(h[b.len() as int] == ' ');
            if j + flag.len() > b.len() {
                assert(h.subrange(j, j + flag.len())[b.len() - j] == h[b.len() as int]);
                assert(flag[b.len() - j] == ' ');
            } else {
                assert(b.subrange(j, j + flag.len()) =~= h.subrange(j, j + flag.len()));
                assert(occurs_at(b, flag, j));
                lemma_join_words_occurrence(ws.take(k), flag, j);
                let m = choose|m: int| 0 <= m < ws.take(k).len() && contains_text(#[trigger] ws.take(k)[m], flag);
                assert(ws.take(k)[m] == ws[m]);
            }
        }
    }
}

/// Where no process is a client process, the scan finds nothing.
pub proof fn law_scan_without_client_finds_nothing(procs: Seq<ProcessInfo>)
    requires
        forall|j: int| 0 <= j < procs.len() ==> !is_client_name(#[trigger] procs[j].name@),
    ensures
        scan_result(procs) is None,
{
    lemma_first_client_index(procs, procs.len() as int);
}

/// The first client process decides alone: processes listed after it never
/// change what the scan finds.
pub proof fn law_scan_first_client_decides(procs: Seq<ProcessInfo>, more: Seq<ProcessInfo>)
    requires
        exists|j: int| 0 <= j < procs.len() && is_client_name(#[trigger] procs[j].name@),
    ensures
        scan_result(procs + more) == scan_result(procs),
{
    let k = first_client_index(procs) as int;
    lemma_first_client_position(procs);
    let all = procs + more;
    assert forall|j: int| 0 <= j < k implies !is_client_name(#[trigger] all[j].name@) by {
        assert(all[j] == procs[j]);
    }
    assert(all[k] == procs[k]);
    lemma_first_client_index(all, k);
}

/// The first client position is a client process with none before it; where
/// some process is a client, it lies within the list.
proof fn lemma_first_client_position(procs: Seq<ProcessInfo>)
    ensures
        first_client_index(procs) <= procs.len(),
        first_client_index(procs) < procs.len() ==> is_client_name(
            procs[first_client_index(procs) as int].name@,
        ),
        forall|j: int| 0 <= j < first_client_index(procs) ==> !is_client_name(
            #[trigger] procs[j].name@,
        ),
    decreases procs.len(),
{
    if procs.len() > 0 && !is_client_name(procs[0].name@) {
        let t = procs.drop_first();
        lemma_first_client_position(t);
        assert forall|j: int| 0 <= j < first_client_index(procs) implies !is_client_name(
            #[trigger] procs[j].name@,
        ) by {
            if j > 0 {
                assert(procs[j] == t[j - 1]);
            }
        }
        if first_client_index(procs) < procs.len() {
            assert(procs[first_client_index(procs) as int] == t[first_client_index(t) as int]);
        }
    }
}


/// The `Authorization` value is `Basic ` followed by standard base64 whose
/// characters come from the base64 alphabet (with `=` only as final
/// padding), and which decodes to the UTF-8 bytes of `riot:<password>`. It
/// depends on the password alone.
pub proof fn law_basic_auth_decodes_to_pair(password: Seq<char>)
    ensures
        basic_auth_value(password).take(6) == "Basic "@,
        base64_decode(basic_auth_value(password).skip(6)) == encode_utf8("riot:"@ + password),
        forall|i: int| 6 <= i < basic_auth_value(password).len() ==> {
            let c = #[trigger] basic_auth_value(password)[i];
            is_base64_char(c) || (c == '=' && i >= basic_auth_value(password).len() - 2)
        },
{
    reveal_strlit("Basic ");
    assert(auth_pair(password) == "riot:"@ + password);
    let bytes = encode_utf8(auth_pair(password));
    let e = base64_encode(bytes);
    let v = basic_auth_value(password);
    assert(v.take(6) =~= "Basic "@);
    assert(v.skip(6) =~= e);
    law_base64_round_trip(bytes);
    law_base64_shape(bytes);
    assert forall|i: int| 6 <= i < v.len() implies {
        let c = #[trigger] v[i];
        is_base64_char(c) || (c == '=' && i >= v.len() - 2)
    } by {
        assert(v[i] == e[i - 6]);
    }
}


/// Credentials that a scan finds always carry a port above 0 and a
/// non-empty token, and belong to the first client process.
pub proof fn law_found_credentials_are_usable(procs: Seq<ProcessInfo>)
    requires
        scan_result(procs) is Some,
    ensures
        (scan_result(procs)->0).0 > 0,
        (scan_result(procs)->0).1.len() > 0,
        first_client_index(procs) < procs.len(),
        (scan_result(procs)->0).2 == procs[first_client_index(procs) as int].pid,
{
}

/// One step of polling for the League Client: what the last scan found
/// ends the polling; nothing found means waiting before the next scan.
pub enum PollStep {
    /// The client was found with these credentials.
    Found(Credentials),
    /// Nothing found: wait this many milliseconds, then scan again.
    Wait(u64),
}

/// The polling decision after one scan: return the credentials found, or
/// wait `poll_interval_ms` and scan again. Polling never fails; it waits.
pub fn poll_step(found: Option<Credentials>, poll_interval_ms: u64) -> (res: PollStep)
    ensures
        match found {
            Some(c) => res == PollStep::Found(c),
            None => res == PollStep::Wait(poll_interval_ms),
        },
{
    match found {
        Some(c) => PollStep::Found(c),
        None => PollStep::Wait(poll_interval_ms),
    }
}

} // verus!
