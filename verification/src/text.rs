//! Character-sequence helpers: decimal rendering and reading of unsigned
//! integers, searching and joining.
use vstd::prelude::*;

verus! {

/// The character of a decimal digit `d` (`d < 10`).
pub open spec fn digit_char(d: nat) -> char {
    if d == 0 { '0' }
    else if d == 1 { '1' }
    else if d == 2 { '2' }
    else if d == 3 { '3' }
    else if d == 4 { '4' }
    else if d == 5 { '5' }
    else if d == 6 { '6' }
    else if d == 7 { '7' }
    else if d == 8 { '8' }
    else { '9' }
}

/// The decimal rendering of `n`, without sign or leading zeros.
pub open spec fn decimal(n: nat) -> Seq<char>
    decreases n,
{
    if n < 10 {
        seq![digit_char(n)]
    } else {
        decimal(n / 10).push(digit_char(n % 10))
    }
}

fn digit_str(d: u64) -> (res: &'static str)
    requires
        d < 10,
    ensures
        res@ == seq![digit_char(d as nat)],
{
    if d == 0 {
        proof { reveal_strlit("0"); }
        "0"
    } else if d == 1 {
        proof { reveal_strlit("1"); }
        "1"
    } else if d == 2 {
        proof { reveal_strlit("2"); }
        "2"
    } else if d == 3 {
        proof { reveal_strlit("3"); }
        "3"
    } else if d == 4 {
        proof { reveal_strlit("4"); }
        "4"
    } else if d == 5 {
        proof { reveal_strlit("5"); }
        "5"
    } else if d == 6 {
        proof { reveal_strlit("6"); }
        "6"
    } else if d == 7 {
        proof { reveal_strlit("7"); }
        "7"
    } else if d == 8 {
        proof { reveal_strlit("8"); }
        "8"
    } else {
        proof { reveal_strlit("9"); }
        "9"
    }
}

/// Appends the decimal rendering of `n` to `out`.
pub fn push_decimal(out: &mut String, n: u64)
    ensures
        final(out)@ == old(out)@ + decimal(n as nat),
    decreases n,
{
    if n >= 10 {
        push_decimal(out, n / 10);
    }
    out.append(digit_str(n % 10));
    proof {
        if n >= 10 {
            assert(decimal(n as nat) == decimal((n / 10) as nat).push(digit_char((n % 10) as nat)));
        }
    }
}


/// The characters of `s`, in order.
pub fn chars_of(s: &str) -> (v: Vec<char>)
    ensures
        v@ == s@,
{
    broadcast use vstd::string::group_string_axioms;
    let mut v: Vec<char> = Vec::new();
    for c in it: s.chars()
        invariant
            it.seq() == s@,
            v@ == s@.take(it.index() as int),
    {
        v.push(c);
    }
    assert(v@ == s@);
    v
}


/// `c` is one of the ASCII digits `0` to `9`.
pub open spec fn is_ascii_digit(c: char) -> bool {
    '0' <= c && c <= '9'
}

/// Every character of `s` is an ASCII digit.
pub open spec fn all_ascii_digits(s: Seq<char>) -> bool {
    forall|i: int| 0 <= i < s.len() ==> is_ascii_digit(#[trigger] s[i])
}

/// The value of the ASCII digit `c`.
pub open spec fn digit_value(c: char) -> nat {
    (c as int - '0' as int) as nat
}

/// The number that the ASCII digit string `s` denotes (0 for the empty string).
pub open spec fn digits_value(s: Seq<char>) -> nat
    decreases s.len(),
{
    if s.len() == 0 {
        0
    } else {
        digits_value(s.drop_last()) * 10 + digit_value(s.last())
    }
}

/// The part of `s` that holds the digits of an unsigned integer literal:
/// `s` without one leading `+`.
pub open spec fn unsigned_digits(s: Seq<char>) -> Seq<char> {
    if s.len() > 0 && s[0] == '+' {
        s.drop_first()
    } else {
        s
    }
}

/// What `str::parse` gives for an unsigned integer type whose largest value
/// is `max`: an optional `+`, then one or more ASCII digits whose value is at
/// most `max`; anything else is refused.
pub open spec fn parse_unsigned(s: Seq<char>, max: nat) -> Option<nat> {
    let d = unsigned_digits(s);
    if d.len() > 0 && all_ascii_digits(d) && digits_value(d) <= max {
        Some(digits_value(d))
    } else {
        None
    }
}

/// Appending digits never lowers the value of a digit string.
proof fn lemma_digits_value_prefix(s: Seq<char>, k: int)
    requires
        0 <= k <= s.len(),
        all_ascii_digits(s),
    ensures
        digits_value(s.take(k)) <= digits_value(s),
    decreases s.len(),
{
    if k < s.len() {
        let t = s.drop_last();
        assert(t.take(k) =~= s.take(k));
        assert(all_ascii_digits(t)) by {
            assert forall|i: int| 0 <= i < t.len() implies is_ascii_digit(#[trigger] t[i]) by {
                assert(t[i] == s[i]);
            }
        }
        lemma_digits_value_prefix(t, k);
    }
    else {
        assert(s.take(k) =~= s);
    }
}

/// Reads `s` as `str::parse` reads an unsigned integer whose largest value is
/// `max`.
pub fn parse_unsigned_text(s: &str, max: u64) -> (res: Option<u64>)
    ensures
        match res {
            Some(v) => parse_unsigned(s@, max as nat) == Some(v as nat),
            None => parse_unsigned(s@, max as nat) is None,
        },
{
    let cs = chars_of(s);
    let mut start: usize = 0;
    if cs.len() > 0 && cs[0] == '+' {
        start = 1;
    }
    let ghost d = unsigned_digits(s@);
    assert(d =~= cs@.skip(start as int));
    if start >= cs.len() {
        return None;
    }
    let mut i: usize = start;
    let mut acc: u64 = 0;
    while i < cs.len()
        invariant
            start < cs.len(),
            start <= i <= cs.len(),
            cs@ == s@,
            d == cs@.skip(start as int),
            d == unsigned_digits(s@),
            acc as nat == digits_value(d.take(i - start)),
            all_ascii_digits(d.take(i - start)),
            acc <= max,
        decreases cs.len() - i,
    {
        let c = cs[i];
        let k: Ghost<int> = Ghost(i - start);
        assert(d[k@] == c);
        if !(c >= '0' && c <= '9') {
            assert(!all_ascii_digits(d));
            return None;
        }
        let dv: u64 = (c as u32 - '0' as u32) as u64;
        assert(d.take(k@ + 1).drop_last() =~= d.take(k@));
        assert(d.take(k@ + 1).last() == c);
        assert(dv as nat == digit_value(c));
        if dv > max || acc > (max - dv) / 10 {
            assert(acc * 10 + dv > max) by (nonlinear_arith)
                requires dv > max || acc > (max - dv) / 10, acc <= max;
            proof {
                if all_ascii_digits(d) {
                    lemma_digits_value_prefix(d, k@ + 1);
                }
            }
            return None;
        }
        assert(acc * 10 + dv <= max) by (nonlinear_arith)
            requires dv <= max, acc <= (max - dv) / 10;
        acc = acc * 10 + dv;
        assert(all_ascii_digits(d.take(k@ + 1))) by {
            assert forall|j: int| 0 <= j < k@ + 1 implies is_ascii_digit(#[trigger] d.take(k@ + 1)[j]) by {
                if j < k@ {
                    assert(d.take(k@ + 1)[j] == d.take(k@)[j]);
                }
            }
        }
        i = i + 1;
    }
    assert(d.take(i - start) =~= d);
    Some(acc)
}


/// The decimal rendering of `n` is a non-empty string of ASCII digits whose
/// value is `n`, so reading it back gives `n` whenever `n` fits.
pub proof fn lemma_decimal_reads_back(n: nat, max: nat)
    requires
        n <= max,
    ensures
        parse_unsigned(decimal(n), max) == Some(n),
{
    lemma_decimal_digits(n);
    assert(unsigned_digits(decimal(n)) == decimal(n));
}

/// The decimal rendering of `n` is a non-empty string of ASCII digits whose
/// value is `n`.
pub proof fn lemma_decimal_digits(n: nat)
    ensures
        decimal(n).len() > 0,
        all_ascii_digits(decimal(n)),
        digits_value(decimal(n)) == n,
        decimal(n)[0] != '+',
    decreases n,
{
    let u = decimal(n);
    if n >= 10 {
        lemma_decimal_digits(n / 10);
        let t = decimal(n / 10);
        let d = n % 10;
        assert(u == t.push(digit_char(d)));
        assert(u.drop_last() =~= t);
        assert(u[0] == t[0]);
        assert(digit_value(digit_char(d)) == d);
        assert((n / 10) * 10 + d == n);
        assert(u.last() == digit_char(d));
        assert(digits_value(u) == digits_value(t) * 10 + digit_value(u.last()));
        assert forall|i: int| 0 <= i < u.len() implies is_ascii_digit(#[trigger] u[i]) by {
            if i < t.len() {
                assert(u[i] == t[i]);
            }
        }
    } else {
        assert(u.drop_last() =~= Seq::<char>::empty());
        assert(digit_value(digit_char(n)) == n);
        assert(digits_value(u) == digits_value(u.drop_last()) * 10 + digit_value(u.last()));
        assert(digits_value(u.drop_last()) == 0);
        assert(u.last() == digit_char(n));
    }
}

/// `p` occurs in `s` starting at position `i`.
pub open spec fn occurs_at(s: Seq<char>, p: Seq<char>, i: int) -> bool {
    0 <= i && i + p.len() <= s.len() && s.subrange(i, i + p.len()) == p
}

/// `p` occurs somewhere in `s`.
pub open spec fn contains_text(s: Seq<char>, p: Seq<char>) -> bool {
    exists|i: int| occurs_at(s, p, i)
}

fn matches_at(s: &Vec<char>, p: &Vec<char>, i: usize) -> (res: bool)
    requires
        i + p@.len() <= s@.len(),
    ensures
        res == occurs_at(s@, p@, i as int),
{
    let mut k: usize = 0;
    let n = s.len();
    while k < p.len()
        invariant
            n == s@.len(),
            i + p@.len() <= s@.len(),
            k <= p@.len(),
            s@.subrange(i as int, i + k) =~= p@.take(k as int),
        decreases p@.len() - k,
    {
        if s[i + k] != p[k] {
            assert(s@.subrange(i as int, i + p@.len())[k as int] != p@[k as int]);
            return false;
        }
        k = k + 1;
        assert(s@.subrange(i as int, i + k) =~= p@.take(k as int));
    }
    assert(p@.take(k as int) =~= p@);
    true
}

/// Whether `p` occurs in `s` (what `str::contains` answers for a string pattern).
pub fn text_contains(s: &str, p: &str) -> (res: bool)
    ensures
        res == contains_text(s@, p@),
{
    let hs = chars_of(s);
    let ps = chars_of(p);
    if ps.len() > hs.len() {
        return false;
    }
    if ps.len() == 0 {
        assert(s@.subrange(0, 0) =~= p@);
        assert(occurs_at(s@, p@, 0));
        return true;
    }
    let hl = hs.len();
    let last = hl - ps.len();
    let mut i: usize = 0;
    while i <= last
        invariant
            last == hs@.len() - ps@.len(),
            last < hl,
            hs@ == s@,
            ps@ == p@,
            forall|j: int| 0 <= j < i ==> !occurs_at(s@, p@, j),
        decreases last + 1 - i,
    {
        if matches_at(&hs, &ps, i) {
            return true;
        }
        i = i + 1;
    }
    assert forall|j: int| !occurs_at(s@, p@, j) by {
        if 0 <= j < i {
        }
    }
    false
}

/// The position of the first `c` in `s`, or `s.len()` where `s` holds none.
pub open spec fn index_of(s: Seq<char>, c: char) -> nat
    decreases s.len(),
{
    if s.len() == 0 {
        0
    } else if s[0] == c {
        0
    } else {
        1 + index_of(s.drop_first(), c)
    }
}

/// `index_of` is where the first `c` stands, or the length when none does.
pub proof fn lemma_index_of(s: Seq<char>, c: char)
    ensures
        index_of(s, c) <= s.len(),
        index_of(s, c) < s.len() ==> s[index_of(s, c) as int] == c,
        forall|j: int| 0 <= j < index_of(s, c) ==> s[j] != c,
    decreases s.len(),
{
    if s.len() > 0 && s[0] != c {
        lemma_index_of(s.drop_first(), c);
        assert forall|j: int| 0 <= j < index_of(s, c) implies s[j] != c by {
            if j > 0 {
                assert(s[j] == s.drop_first()[j - 1]);
            }
        }
    }
}

/// The position of the first `c` in `s` at or after `from`, or `s.len()`.
pub fn find_char(s: &Vec<char>, from: usize, c: char) -> (res: usize)
    requires
        from <= s@.len(),
    ensures
        res == from + index_of(s@.skip(from as int), c),
{
    let ghost t = s@.skip(from as int);
    proof { lemma_index_of(t, c); }
    let mut i: usize = from;
    while i < s.len()
        invariant
            from <= i <= s@.len(),
            t == s@.skip(from as int),
            index_of(t, c) <= t.len(),
            index_of(t, c) < t.len() ==> t[index_of(t, c) as int] == c,
            forall|j: int| 0 <= j < index_of(t, c) ==> t[j] != c,
            i - from <= index_of(t, c),
        decreases s@.len() - i,
    {
        if s[i] == c {
            assert(t[i - from] == c);
            return i;
        }
        assert(t[i - from] != c);
        i = i + 1;
    }
    i
}

/// The words of `parts` joined with single spaces, as `join(" ")` gives them.
pub open spec fn join_words(parts: Seq<Seq<char>>) -> Seq<char>
    decreases parts.len(),
{
    if parts.len() == 0 {
        Seq::empty()
    } else if parts.len() == 1 {
        parts[0]
    } else {
        join_words(parts.drop_last()) + seq![' '] + parts.last()
    }
}

/// The views of the strings in `v`.
pub open spec fn string_views(v: Seq<String>) -> Seq<Seq<char>> {
    v.map_values(|s: String| s@)
}

/// `parts` joined with single spaces.
pub fn join_with_spaces(parts: &Vec<String>) -> (res: String)
    ensures
        res@ == join_words(string_views(parts@)),
{
    let mut out = String::new();
    let ghost views = string_views(parts@);
    let mut i: usize = 0;
    while i < parts.len()
        invariant
            i <= parts@.len(),
            views == string_views(parts@),
            out@ == join_words(views.take(i as int)),
        decreases parts@.len() - i,
    {
        if i > 0 {
            proof { reveal_strlit(" "); }
            out.append(" ");
        }
        out.append(parts[i].as_str());
        assert(views.take(i + 1).drop_last() =~= views.take(i as int));
        i = i + 1;
    }
    assert(views.take(i as int) =~= views);
    out
}


/// Where the first `c` stands in `a + b` when `a` holds no `c`.
pub proof fn lemma_index_of_append(a: Seq<char>, b: Seq<char>, c: char)
    requires
        forall|i: int| 0 <= i < a.len() ==> a[i] != c,
    ensures
        index_of(a + b, c) == a.len() + index_of(b, c),
    decreases a.len(),
{
    if a.len() > 0 {
        let t = a.drop_first();
        assert((a + b).drop_first() =~= t + b);
        assert forall|i: int| 0 <= i < t.len() implies t[i] != c by {
            assert(t[i] == a[i + 1]);
        }
        lemma_index_of_append(t, b, c);
        assert((a + b)[0] == a[0]);
    } else {
        assert(a + b =~= b);
    }
}

/// Where `s` holds no `c`, `index_of` is its length.
pub proof fn lemma_index_of_absent(s: Seq<char>, c: char)
    requires
        forall|i: int| 0 <= i < s.len() ==> s[i] != c,
    ensures
        index_of(s, c) == s.len(),
{
    lemma_index_of(s, c);
}


/// Text appended after a `c` of `s`, or starting with `c`, does not move the
/// first `c`.
pub proof fn lemma_index_of_extend(s: Seq<char>, y: Seq<char>, c: char)
    requires
        index_of(s, c) < s.len() || (y.len() > 0 && y[0] == c),
    ensures
        index_of(s + y, c) == index_of(s, c),
    decreases s.len(),
{
    if s.len() == 0 {
        assert(s + y =~= y);
    } else {
        assert((s + y)[0] == s[0]);
        if s[0] != c {
            assert((s + y).drop_first() =~= s.drop_first() + y);
            lemma_index_of_extend(s.drop_first(), y, c);
        }
    }
}


/// Joining the first `k + 1` words adds word `k` after a space (or alone,
/// for the first word).
pub proof fn lemma_join_words_step(ws: Seq<Seq<char>>, k: int)
    requires
        0 <= k < ws.len(),
    ensures
        k == 0 ==> join_words(ws.take(k + 1)) == ws[k],
        k > 0 ==> join_words(ws.take(k + 1)) == join_words(ws.take(k)) + seq![' '] + ws[k],
{
    let t = ws.take(k + 1);
    assert(t.len() == k + 1);
    assert(t.drop_last() =~= ws.take(k));
    assert(t.last() == ws[k]);
    if k == 0 {
        assert(t[0] == ws[0]);
    }
}

/// The words joined up to `m` are a prefix of all the words joined, and a
/// space follows that prefix when words remain.
pub proof fn lemma_join_words_prefix(ws: Seq<Seq<char>>, m: int)
    requires
        1 <= m <= ws.len(),
    ensures
        join_words(ws.take(m)).len() <= join_words(ws).len(),
        join_words(ws).take(join_words(ws.take(m)).len() as int) == join_words(ws.take(m)),
        m < ws.len() ==> join_words(ws)[join_words(ws.take(m)).len() as int] == ' ',
    decreases ws.len(),
{
    let j = join_words(ws);
    let p = join_words(ws.take(m));
    if m == ws.len() {
        assert(ws.take(m) =~= ws);
        assert(j.take(p.len() as int) =~= p);
    } else {
        let d = ws.drop_last();
        assert(ws.len() >= 2);
        assert(j == join_words(d) + seq![' '] + ws.last());
        assert(d.take(m) =~= ws.take(m));
        if m < d.len() {
            lemma_join_words_prefix(d, m);
            assert(j.take(p.len() as int) =~= join_words(d).take(p.len() as int));
            assert(j[p.len() as int] == join_words(d)[p.len() as int]);
        } else {
            assert(d =~= ws.take(m));
            assert(j.take(p.len() as int) =~= p);
        }
    }
}

/// A space-free text that occurs in words joined with spaces occurs within
/// one of the words.
pub proof fn lemma_join_words_occurrence(ws: Seq<Seq<char>>, pat: Seq<char>, j: int)
    requires
        pat.len() > 0,
        forall|i: int| 0 <= i < pat.len() ==> pat[i] != ' ',
        occurs_at(join_words(ws), pat, j),
    ensures
        exists|m: int| 0 <= m < ws.len() && contains_text(#[trigger] ws[m], pat),
    decreases ws.len(),
{
    let h = join_words(ws);
    if ws.len() == 0 {
    } else if ws.len() == 1 {
        assert(occurs_at(ws[0], pat, j));
        assert(contains_text(ws[0], pat));
    } else {
        let d = ws.drop_last();
        let jd = join_words(d);
        let l = ws.last();
        assert(h == jd + seq![' '] + l);
        if j + pat.len() <= jd.len() {
            assert(jd.subrange(j, j + pat.len()) =~= h.subrange(j, j + pat.len()));
            lemma_join_words_occurrence(d, pat, j);
            let m = choose|m: int| 0 <= m < d.len() && contains_text(#[trigger] d[m], pat);
            assert(d[m] == ws[m]);
        } else if j > jd.len() {
            let j2 = j - jd.len() - 1;
            assert(l.subrange(j2, j2 + pat.len()) =~= h.subrange(j, j + pat.len()));
            assert(occurs_at(l, pat, j2));
            assert(contains_text(ws[ws.len() - 1], pat));
        } else {
            assert(h.subrange(j, j + pat.len())[jd.len() - j] == h[jd.len() as int]);
            assert(pat[jd.len() - j] == ' ');
        }
    }
}

} // verus!
