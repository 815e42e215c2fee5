//! What a request to the LCU REST API is made of, and the conversion of
//! internal version strings to player-facing patch numbers.
use vstd::prelude::*;
use vstd::string::StrSliceExecFns;

use crate::auth::{auth_pair_fits, base_url, basic_auth_value, Credentials};
use crate::text::{
    all_ascii_digits, digits_value, is_ascii_digit, unsigned_digits,
    chars_of, decimal, find_char, index_of, lemma_decimal_digits, lemma_decimal_reads_back,
    lemma_index_of, lemma_index_of_absent, lemma_index_of_append, lemma_index_of_extend, parse_unsigned,
    parse_unsigned_text, push_decimal,
};

verus! {

/// The parts of one LCU REST request that the library decides: the full URL
/// and the two header values. The method and the body are the caller's.
pub struct LcuRequest {
    /// Base URL followed by the endpoint.
    pub url: String,
    /// Value of the `Authorization` header.
    pub authorization: String,
    /// Value of the `Accept` header.
    pub accept: String,
}

/// The URL, `Authorization` and `Accept` header values of a request to
/// `endpoint` with `credentials`.
pub fn lcu_request_parts(credentials: &Credentials, endpoint: &str) -> (res: LcuRequest)
    requires
        auth_pair_fits(credentials.password@),
    ensures
        res.url@ == base_url(credentials.port as nat) + endpoint@,
        res.authorization@ == basic_auth_value(credentials.password@),
        res.accept@ == "application/json"@,
{
    let mut url = credentials.lcu_base_url();
    url.append(endpoint);
    let authorization = credentials.basic_auth();
    let accept = String::from_str("application/json");
    LcuRequest { url, authorization, accept }
}

/// `s` padded on the left with `0` to at least `width` characters, as the
/// format `{:0>width}` writes it.
pub open spec fn zero_pad(s: Seq<char>, width: nat) -> Seq<char> {
    if s.len() < width {
        Seq::new((width - s.len()) as nat, |k: int| '0') + s
    } else {
        s
    }
}

/// The text before the first `.` of `raw`.
pub open spec fn major_field(raw: Seq<char>) -> Seq<char> {
    raw.take(index_of(raw, '.') as int)
}

/// The text between the first and the second `.` of `raw` (or its end).
pub open spec fn minor_field(raw: Seq<char>) -> Seq<char> {
    let rest = raw.skip(index_of(raw, '.') + 1 as int);
    rest.take(index_of(rest, '.') as int)
}

/// `raw` holds a `.` and its major field reads as a `u32` too large to have
/// 10 added (the only inputs on which the conversion adds, and overflows).
pub open spec fn major_overflows(raw: Seq<char>) -> bool {
    index_of(raw, '.') < raw.len() && match parse_unsigned(major_field(raw), u32::MAX as nat) {
        Some(m) => m + 10 > u32::MAX,
        None => false,
    }
}

/// The player-facing patch number of an internal LCU version string: `raw`
/// must hold a `.`, the text before it must read as a `u32` (the internal
/// major version), and the result is that number plus 10, a `.`, and the
/// next field padded to two characters with `0`.
pub open spec fn marketing_version(raw: Seq<char>) -> Option<Seq<char>> {
    if index_of(raw, '.') < raw.len() {
        match parse_unsigned(major_field(raw), u32::MAX as nat) {
            Some(major) => Some(decimal(major + 10) + "."@ + zero_pad(minor_field(raw), 2)),
            None => None,
        }
    } else {
        None
    }
}

/// Converts an internal LCU version string to the player-facing patch number:
/// `"4.21.614.6789"` gives `"14.21"`, `"4.3.614.6789"` gives `"14.03"`.
///
/// Returns `None` if the input is not in the expected format.
pub fn parse_marketing_version(raw: &str) -> (res: Option<String>)
    requires
        !major_overflows(raw@),
    ensures
        match res {
            Some(s) => marketing_version(raw@) == Some(s@),
            None => marketing_version(raw@) is None,
        },
{
    proof {
        reveal_strlit(".");
        reveal_strlit("0");
    }
    let cs = chars_of(raw);
    let i = find_char(&cs, 0, '.');
    assert(raw@.skip(0) =~= raw@);
    proof { lemma_index_of(raw@, '.'); }
    if i >= cs.len() {
        return None;
    }
    let j = find_char(&cs, i + 1, '.');
    let ghost rest = raw@.skip(i + 1 as int);
    proof { lemma_index_of(rest, '.'); }
    let major_text = raw.substring_char(0, i);
    assert(major_text@ == major_field(raw@));
    let major = match parse_unsigned_text(major_text, 4294967295u64) {
        Some(m) => m,
        None => return None,
    };
    let minor = raw.substring_char(i + 1, j);
    assert(minor@ =~= minor_field(raw@));
    let mut out = String::new();
    push_decimal(&mut out, major + 10);
    out.append(".");
    let ghost head = decimal((major + 10) as nat) + "."@;
    let minor_len = j - (i + 1);
    let mut k: usize = minor_len;
    while k < 2
        invariant
            minor_len <= k,
            minor_len == minor@.len(),
            minor_len < 2 ==> k <= 2,
            minor_len >= 2 ==> k == minor_len,
            out@ == head + Seq::new((k - minor_len) as nat, |n: int| '0'),
        decreases 2 - k,
    {
        proof { reveal_strlit("0"); }
        out.append("0");
        k = k + 1;
        assert(out@ =~= head + Seq::new((k - minor_len) as nat, |n: int| '0'));
    }
    let ghost zeros = Seq::new((k - minor_len) as nat, |n: int| '0');
    assert(zero_pad(minor_field(raw@), 2) =~= zeros + minor@);
    out.append(minor);
    assert(out@ =~= head + zero_pad(minor_field(raw@), 2));
    Some(out)
}


/// A marketing version is itself a version string of the same shape: its
/// major field reads as the internal major plus 10, and its minor field is
/// the input's minor field padded to two characters.
pub proof fn law_marketing_version_fields(raw: Seq<char>)
    requires
        !major_overflows(raw),
        marketing_version(raw) is Some,
    ensures
        ({
            let s = marketing_version(raw)->0;
            &&& parse_unsigned(major_field(s), u32::MAX as nat)
                == Some(parse_unsigned(major_field(raw), u32::MAX as nat)->0 + 10)
            &&& minor_field(s) == zero_pad(minor_field(raw), 2)
        }),
{
    reveal_strlit(".");
    let major = parse_unsigned(major_field(raw), u32::MAX as nat)->0;
    let d = decimal(major + 10);
    let z = zero_pad(minor_field(raw), 2);
    let s = marketing_version(raw)->0;
    assert(s == d + "."@ + z);
    lemma_decimal_digits(major + 10);
    assert forall|i: int| 0 <= i < d.len() implies d[i] != '.' by {
        assert(is_ascii_digit(d[i]));
    }
    assert(s =~= d + ("."@ + z));
    lemma_index_of_append(d, "."@ + z, '.');
    assert(("."@ + z)[0] == '.');
    assert(index_of("."@ + z, '.') == 0);
    assert(index_of(s, '.') == d.len());
    assert(major_field(s) =~= d);
    lemma_decimal_reads_back(major + 10, u32::MAX as nat);
    let rest = raw.skip(index_of(raw, '.') + 1 as int);
    lemma_index_of(rest, '.');
    let m = minor_field(raw);
    assert forall|i: int| 0 <= i < m.len() implies m[i] != '.' by {
        assert(m[i] == rest[i]);
    }
    assert forall|i: int| 0 <= i < z.len() implies z[i] != '.' by {
        if m.len() < 2 {
            if i >= 2 - m.len() {
                assert(z[i] == m[i - (2 - m.len())]);
            }
        }
    }
    assert(s.skip(d.len() + 1 as int) =~= z);
    lemma_index_of_absent(z, '.');
    assert(minor_field(s) =~= z);
}


/// Appending further dot-separated fields to a version string that already
/// holds a `.` changes neither the result nor whether the major overflows.
pub proof fn law_marketing_version_ignores_later_fields(raw: Seq<char>, extra: Seq<char>)
    requires
        index_of(raw, '.') < raw.len(),
    ensures
        marketing_version(raw + "."@ + extra) == marketing_version(raw),
        major_overflows(raw + "."@ + extra) == major_overflows(raw),
{
    reveal_strlit(".");
    let tail = "."@ + extra;
    let longer = raw + tail;
    assert(raw + "."@ + extra =~= longer);
    assert(tail[0] == '.');
    lemma_index_of_extend(raw, tail, '.');
    let i = index_of(raw, '.');
    assert(index_of(longer, '.') == i);
    assert(major_field(longer) =~= major_field(raw));
    let rest = raw.skip(i + 1 as int);
    assert(longer.skip(i + 1 as int) =~= rest + tail);
    lemma_index_of_extend(rest, tail, '.');
    lemma_index_of(rest, '.');
    assert(minor_field(longer) =~= minor_field(raw));
}


/// For a version `<major>.<minor>` whose major is a run of ASCII digits and
/// whose minor holds no `.`, the result is the major's value plus 10 in
/// decimal, a `.`, and the minor, with `0` put in front up to two characters.
pub proof fn law_marketing_version_of_two_fields(major: Seq<char>, minor: Seq<char>)
    requires
        major.len() > 0,
        all_ascii_digits(major),
        digits_value(major) + 10 <= u32::MAX,
        forall|i: int| 0 <= i < minor.len() ==> minor[i] != '.',
    ensures
        marketing_version(major + "."@ + minor) == Some(
            decimal(digits_value(major) + 10) + "."@ + (if minor.len() < 2 {
                Seq::new((2 - minor.len()) as nat, |k: int| '0') + minor
            } else {
                minor
            }),
        ),
{
    reveal_strlit(".");
    let raw = major + "."@ + minor;
    let tail = "."@ + minor;
    assert(raw =~= major + tail);
    assert forall|i: int| 0 <= i < major.len() implies major[i] != '.' by {
        assert(is_ascii_digit(major[i]));
    }
    lemma_index_of_append(major, tail, '.');
    assert(tail[0] == '.');
    assert(index_of(tail, '.') == 0);
    assert(index_of(raw, '.') == major.len());
    assert(major_field(raw) =~= major);
    assert(raw.skip(major.len() + 1 as int) =~= minor);
    lemma_index_of_absent(minor, '.');
    assert(minor_field(raw) =~= minor);
    assert(is_ascii_digit(major[0]));
    assert(unsigned_digits(major) == major);
}

} // verus!
