//! Standard base64 with `=` padding (RFC 4648, section 4), as specification:
//! the encoding, the decoding it is meant for, and the laws that tie them.
use vstd::prelude::*;

verus! {

/// The character of the 6-bit value `v` in the standard alphabet
/// `A-Z a-z 0-9 + /`.
pub open spec fn sextet_char(v: int) -> char {
    if v < 26 {
        (v + 65) as char
    } else if v < 52 {
        (v + 71) as char
    } else if v < 62 {
        (v - 4) as char
    } else if v == 62 {
        '+'
    } else {
        '/'
    }
}

/// The 6-bit value of a character of the standard alphabet.
pub open spec fn char_sextet(c: char) -> int {
    if 'A' <= c && c <= 'Z' {
        c as int - 65
    } else if 'a' <= c && c <= 'z' {
        c as int - 71
    } else if '0' <= c && c <= '9' {
        c as int + 4
    } else if c == '+' {
        62
    } else {
        63
    }
}

/// `c` belongs to the standard base64 alphabet.
pub open spec fn is_base64_char(c: char) -> bool {
    ('A' <= c && c <= 'Z') || ('a' <= c && c <= 'z') || ('0' <= c && c <= '9') || c == '+' || c == '/'
}

/// The four characters of one group of three bytes.
pub open spec fn encode_group(b0: u8, b1: u8, b2: u8) -> Seq<char> {
    seq![
        sextet_char(b0 as int / 4),
        sextet_char((b0 % 4) * 16 + b1 / 16),
        sextet_char((b1 % 16) * 4 + b2 / 64),
        sextet_char(b2 as int % 64),
    ]
}

/// The four characters of a last group of one or two bytes, padded with `=`.
pub open spec fn encode_tail(b: Seq<u8>) -> Seq<char> {
    if b.len() == 1 {
        seq![sextet_char(b[0] as int / 4), sextet_char((b[0] % 4) * 16), '=', '=']
    } else {
        seq![
            sextet_char(b[0] as int / 4),
            sextet_char((b[0] % 4) * 16 + b[1] / 16),
            sextet_char((b[1] % 16) * 4),
            '=',
        ]
    }
}

/// Standard base64 with padding: each group of three bytes, from the front,
/// becomes four characters; a last group of one or two bytes becomes two or
/// three characters followed by `=` to make four.
pub open spec fn base64_encode(b: Seq<u8>) -> Seq<char>
    decreases b.len(),
{
    if b.len() == 0 {
        Seq::empty()
    } else if b.len() < 3 {
        encode_tail(b)
    } else {
        encode_group(b[0], b[1], b[2]) + base64_encode(b.skip(3))
    }
}

/// The bytes of one group of four characters, where a third or fourth `=`
/// marks a group of one or two bytes.
pub open spec fn decode_group(c0: char, c1: char, c2: char, c3: char) -> Seq<u8> {
    let v0 = char_sextet(c0);
    let v1 = char_sextet(c1);
    let v2 = char_sextet(c2);
    let v3 = char_sextet(c3);
    let b0 = (v0 * 4 + v1 / 16) as u8;
    let b1 = ((v1 % 16) * 16 + v2 / 4) as u8;
    let b2 = ((v2 % 4) * 64 + v3) as u8;
    if c2 == '=' {
        seq![b0]
    } else if c3 == '=' {
        seq![b0, b1]
    } else {
        seq![b0, b1, b2]
    }
}

/// Standard base64 decoding, group of four characters by group.
pub open spec fn base64_decode(s: Seq<char>) -> Seq<u8>
    decreases s.len(),
{
    if s.len() < 4 {
        Seq::empty()
    } else {
        decode_group(s[0], s[1], s[2], s[3]) + base64_decode(s.skip(4))
    }
}

proof fn lemma_sextet_round_trip(v: int)
    requires
        0 <= v < 64,
    ensures
        is_base64_char(sextet_char(v)),
        char_sextet(sextet_char(v)) == v,
        sextet_char(v) != '=',
{
}

proof fn lemma_group_round_trip(b0: u8, b1: u8, b2: u8)
    ensures
        ({
            let g = encode_group(b0, b1, b2);
            decode_group(g[0], g[1], g[2], g[3]) == seq![b0, b1, b2]
        }),
{
    let v0 = b0 / 4;
    let v1 = (b0 % 4) * 16 + b1 / 16;
    let v2 = (b1 % 16) * 4 + b2 / 64;
    let v3 = b2 % 64;
    lemma_sextet_round_trip(v0 as int);
    lemma_sextet_round_trip(v1 as int);
    lemma_sextet_round_trip(v2 as int);
    lemma_sextet_round_trip(v3 as int);
    assert(v0 * 4 + v1 / 16 == b0);
    assert((v1 % 16) * 16 + v2 / 4 == b1);
    assert((v2 % 4) * 64 + v3 == b2);
    let g = encode_group(b0, b1, b2);
    assert(decode_group(g[0], g[1], g[2], g[3]) =~= seq![b0, b1, b2]);
}

proof fn lemma_tail_round_trip(b: Seq<u8>)
    requires
        1 <= b.len() <= 2,
    ensures
        ({
            let g = encode_tail(b);
            decode_group(g[0], g[1], g[2], g[3]) == b
        }),
{
    let g = encode_tail(b);
    let v0 = b[0] / 4;
    lemma_sextet_round_trip(v0 as int);
    if b.len() == 1 {
        let v1 = (b[0] % 4) * 16;
        lemma_sextet_round_trip(v1 as int);
        assert(v0 * 4 + v1 / 16 == b[0]);
        assert(decode_group(g[0], g[1], g[2], g[3]) =~= b);
    } else {
        let v1 = (b[0] % 4) * 16 + b[1] / 16;
        let v2 = (b[1] % 16) * 4;
        lemma_sextet_round_trip(v1 as int);
        lemma_sextet_round_trip(v2 as int);
        assert(v0 * 4 + v1 / 16 == b[0]);
        assert((v1 % 16) * 16 + v2 / 4 == b[1]);
        assert(decode_group(g[0], g[1], g[2], g[3]) =~= b);
    }
}

/// Decoding the base64 encoding of any bytes gives those bytes back.
pub proof fn law_base64_round_trip(b: Seq<u8>)
    ensures
        base64_decode(base64_encode(b)) == b,
    decreases b.len(),
{
    let e = base64_encode(b);
    if b.len() == 0 {
        assert(base64_decode(e) =~= b);
    } else if b.len() < 3 {
        lemma_tail_round_trip(b);
        assert(e.skip(4) =~= Seq::<char>::empty());
        assert(base64_decode(e.skip(4)) =~= Seq::<u8>::empty());
        assert(base64_decode(e) =~= b);
    } else {
        let g = encode_group(b[0], b[1], b[2]);
        let rest = base64_encode(b.skip(3));
        law_base64_round_trip(b.skip(3));
        lemma_group_round_trip(b[0], b[1], b[2]);
        assert(e =~= g + rest);
        assert(e.skip(4) =~= rest);
        assert(e[0] == g[0] && e[1] == g[1] && e[2] == g[2] && e[3] == g[3]);
        assert(base64_decode(e) == seq![b[0], b[1], b[2]] + b.skip(3));
        assert(seq![b[0], b[1], b[2]] + b.skip(3) =~= b);
    }
}

/// The encoding has four characters for each started group of three bytes;
/// each is from the standard alphabet, except for the `=` padding, which
/// only ends it.
pub proof fn law_base64_shape(b: Seq<u8>)
    ensures
        base64_encode(b).len() == 4 * ((b.len() + 2) / 3),
        forall|i: int| 0 <= i < base64_encode(b).len() ==> {
            let c = #[trigger] base64_encode(b)[i];
            is_base64_char(c) || (c == '=' && i >= base64_encode(b).len() - 2)
        },
    decreases b.len(),
{
    let e = base64_encode(b);
    if b.len() == 0 {
    } else if b.len() < 3 {
        lemma_sextet_round_trip((b[0] / 4) as int);
        if b.len() == 1 {
            lemma_sextet_round_trip(((b[0] % 4) * 16) as int);
        } else {
            lemma_sextet_round_trip(((b[0] % 4) * 16 + b[1] / 16) as int);
            lemma_sextet_round_trip(((b[1] % 16) * 4) as int);
        }
    } else {
        let g = encode_group(b[0], b[1], b[2]);
        let rest = base64_encode(b.skip(3));
        law_base64_shape(b.skip(3));
        lemma_sextet_round_trip((b[0] / 4) as int);
        lemma_sextet_round_trip(((b[0] % 4) * 16 + b[1] / 16) as int);
        lemma_sextet_round_trip(((b[1] % 16) * 4 + b[2] / 64) as int);
        lemma_sextet_round_trip((b[2] % 64) as int);
        assert(e =~= g + rest);
        assert forall|i: int| 0 <= i < e.len() implies {
            let c = #[trigger] e[i];
            is_base64_char(c) || (c == '=' && i >= e.len() - 2)
        } by {
            if i >= 4 {
                assert(e[i] == rest[i - 4]);
            }
        }
    }
}

} // verus!
