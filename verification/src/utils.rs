//! Small utilities: the parser of digital line channel names, decimal text,
//! the stream position counter and the counting semaphore's decision rules.
use vstd::prelude::*;
use vstd::string::*;

verus! {

// ---------------------------------------------------------------------------
// Text helpers over character sequences
// ---------------------------------------------------------------------------
/// Number of bytes that the UTF-8 encoding of `c` takes.
pub open spec fn utf8_width(c: char) -> nat {
    if (c as u32) < 0x80 {
        1
    } else if (c as u32) < 0x800 {
        2
    } else if (c as u32) < 0x10000 {
        3
    } else {
        4
    }
}

/// Number of bytes that the UTF-8 encoding of `s` takes.
pub open spec fn utf8_size(s: Seq<char>) -> nat
    decreases s.len(),
{
    if s.len() == 0 {
        0
    } else {
        utf8_size(s.drop_last()) + utf8_width(s.last())
    }
}

pub open spec fn is_ascii_digit(c: char) -> bool {
    '0' <= c && c <= '9'
}

pub open spec fn digit_value(c: char) -> nat {
    ((c as u32) - ('0' as u32)) as nat
}

pub open spec fn all_ascii_digits(s: Seq<char>) -> bool {
    forall|i: int| 0 <= i < s.len() ==> is_ascii_digit(#[trigger] s[i])
}

/// The number written by a sequence of ASCII decimal digits.
pub open spec fn digits_value(s: Seq<char>) -> nat
    decreases s.len(),
{
    if s.len() == 0 {
        0
    } else {
        digits_value(s.drop_last()) * 10 + digit_value(s.last())
    }
}

/// What `usize::from_str` accepts: an optional `+`, then at least one ASCII
/// digit, for a value that fits in `usize`.
pub open spec fn usize_from_str(s: Seq<char>) -> Option<nat> {
    let digits = if s.len() > 0 && s[0] == '+' {
        s.skip(1)
    } else {
        s
    };
    if digits.len() > 0 && all_ascii_digits(digits) && digits_value(digits) <= usize::MAX {
        Some(digits_value(digits))
    } else {
        None
    }
}

/// Index of the first occurrence of `c` in `s`, or `s.len()` when there is none.
pub open spec fn first_index_of(s: Seq<char>, c: char) -> int
    decreases s.len(),
{
    if s.len() == 0 {
        0
    } else if s[0] == c {
        0
    } else {
        1 + first_index_of(s.skip(1), c)
    }
}

/// The part of `s` that follows its first four UTF-8 bytes, when those bytes end on a
/// character boundary (the `[4..]` byte slice of a string).
pub open spec fn after_four_bytes(s: Seq<char>) -> Option<Seq<char>> {
    if exists|k: int| 0 <= k <= s.len() && utf8_size(#[trigger] s.take(k)) == 4 {
        let k = choose|k: int| 0 <= k <= s.len() && utf8_size(#[trigger] s.take(k)) == 4;
        Some(s.skip(k))
    } else {
        None
    }
}

/// The number that follows the four-byte prefix of `part`, as `extract_port_line_numbers`
/// reads it.
pub open spec fn number_after_prefix(part: Seq<char>) -> Option<nat> {
    match after_four_bytes(part) {
        Some(rest) => usize_from_str(rest),
        None => None,
    }
}

/// The (port, line) pair of a channel name written `port<number>/line<number>`:
/// the text before the first `/` and the text between the first and the second `/`,
/// each read after its first four bytes. `None` when the name has no `/` or a part
/// cannot be read.
pub open spec fn port_line_of(chan: Seq<char>) -> Option<(nat, nat)> {
    let i = first_index_of(chan, '/');
    if i >= chan.len() {
        None
    } else {
        let first = chan.take(i);
        let tail = chan.skip(i + 1);
        let second = tail.take(first_index_of(tail, '/'));
        match (number_after_prefix(first), number_after_prefix(second)) {
            (Some(p), Some(l)) => Some((p, l)),
            _ => None,
        }
    }
}

/// The decimal representation of `n`, most significant digit first.
pub open spec fn decimal_chars(n: nat) -> Seq<char>
    decreases n,
{
    if n < 10 {
        seq![digit_char(n)]
    } else {
        decimal_chars(n / 10).push(digit_char(n % 10))
    }
}

pub open spec fn digit_char(d: nat) -> char {
    (('0' as u32) + d) as char
}

// ---------------------------------------------------------------------------
// Lemmas on the text helpers
// ---------------------------------------------------------------------------
proof fn lemma_utf8_size_push(s: Seq<char>, c: char)
    ensures
        utf8_size(s.push(c)) == utf8_size(s) + utf8_width(c),
{
    assert(s.push(c).drop_last() =~= s);
}

proof fn lemma_utf8_size_monotone(s: Seq<char>, a: int, b: int)
    requires
        0 <= a <= b <= s.len(),
    ensures
        utf8_size(s.take(a)) + (b - a) <= utf8_size(s.take(b)),
    decreases b - a,
{
    if a < b {
        lemma_utf8_size_monotone(s, a, b - 1);
        assert(s.take(b) =~= s.take(b - 1).push(s[b - 1]));
        lemma_utf8_size_push(s.take(b - 1), s[b - 1]);
    }
}

proof fn lemma_first_index_of(s: Seq<char>, c: char)
    ensures
        0 <= first_index_of(s, c) <= s.len(),
        forall|j: int| 0 <= j < first_index_of(s, c) ==> s[j] != c,
        first_index_of(s, c) < s.len() ==> s[first_index_of(s, c)] == c,
    decreases s.len(),
{
    if s.len() > 0 && s[0] != c {
        lemma_first_index_of(s.skip(1), c);
        assert forall|j: int| 0 <= j < first_index_of(s, c) implies s[j] != c by {
            if j > 0 {
                assert(s[j] == s.skip(1)[j - 1]);
            }
        }
    }
}

pub(crate) proof fn lemma_first_index_of_unique(s: Seq<char>, c: char, i: int)
    requires
        0 <= i <= s.len(),
        forall|j: int| 0 <= j < i ==> s[j] != c,
        i < s.len() ==> s[i] == c,
    ensures
        first_index_of(s, c) == i,
{
    lemma_first_index_of(s, c);
    let f = first_index_of(s, c);
    if f < i {
        assert(s[f] == c);
    }
    if i < f {
        assert(s[i] != c);
    }
}

proof fn lemma_digits_value_push(s: Seq<char>, c: char)
    ensures
        digits_value(s.push(c)) == digits_value(s) * 10 + digit_value(c),
{
    assert(s.push(c).drop_last() =~= s);
}

pub(crate) proof fn lemma_decimal_chars_digits(n: nat)
    ensures
        decimal_chars(n).len() > 0,
        all_ascii_digits(decimal_chars(n)),
        digits_value(decimal_chars(n)) == n,
        decimal_chars(n)[0] != '+',
    decreases n,
{
    if n >= 10 {
        lemma_decimal_chars_digits(n / 10);
        let s = decimal_chars(n / 10);
        lemma_digits_value_push(s, digit_char(n % 10));
        assert(digit_value(digit_char(n % 10)) == n % 10);
        assert(decimal_chars(n) =~= s.push(digit_char(n % 10)));
        assert((n / 10) * 10 + n % 10 == n);
        assert forall|i: int| 0 <= i < decimal_chars(n).len() implies is_ascii_digit(
            #[trigger] decimal_chars(n)[i],
        ) by {
            if i < s.len() {
                assert(decimal_chars(n)[i] == s[i]);
            }
        }
    } else {
        assert(decimal_chars(n) =~= seq![digit_char(n)]);
        assert(seq![digit_char(n)].drop_last() =~= Seq::<char>::empty());
        assert(digit_value(digit_char(n)) == n);
        assert(digits_value(Seq::<char>::empty()) == 0);
        assert(digits_value(seq![digit_char(n)]) == digits_value(Seq::<char>::empty()) * 10
            + digit_value(digit_char(n)));
    }
}

/// Reading back the decimal text of a `usize` gives the number itself.
pub proof fn lemma_usize_from_decimal(n: usize)
    ensures
        usize_from_str(decimal_chars(n as nat)) == Some(n as nat),
{
    lemma_decimal_chars_digits(n as nat);
}

proof fn lemma_ascii_prefix_size(s: Seq<char>, k: int)
    requires
        0 <= k <= s.len(),
        forall|j: int| 0 <= j < k ==> (s[j] as u32) < 0x80,
    ensures
        utf8_size(s.take(k)) == k,
    decreases k,
{
    if k > 0 {
        lemma_ascii_prefix_size(s, k - 1);
        assert(s.take(k) =~= s.take(k - 1).push(s[k - 1]));
        lemma_utf8_size_push(s.take(k - 1), s[k - 1]);
    }
}

proof fn lemma_after_four_ascii(prefix: Seq<char>, rest: Seq<char>)
    requires
        prefix.len() == 4,
        forall|j: int| 0 <= j < 4 ==> (prefix[j] as u32) < 0x80,
    ensures
        after_four_bytes(prefix + rest) == Some(rest),
{
    let s = prefix + rest;
    lemma_ascii_prefix_size(s, 4);
    assert(s.skip(4) =~= rest);
    let k = choose|k: int| 0 <= k <= s.len() && utf8_size(#[trigger] s.take(k)) == 4;
    if k < 4 {
        lemma_ascii_prefix_size(s, k);
    } else if k > 4 {
        lemma_utf8_size_monotone(s, 4, k);
    }
}

/// The channel name `port<p>/line<l>` that the library builds reads back as `(p, l)`.
#[verifier::rlimit(30)]
pub proof fn lemma_port_line_round_trip(p: usize, l: usize)
    ensures
        port_line_of(
            "port"@ + decimal_chars(p as nat) + "/line"@ + decimal_chars(l as nat),
        ) == Some((p as nat, l as nat)),
{
    reveal_strlit("port");
    reveal_strlit("/line");
    reveal_strlit("line");
    assert("/line"@.skip(1) =~= "line"@);
    let dp = decimal_chars(p as nat);
    let dl = decimal_chars(l as nat);
    lemma_decimal_chars_digits(p as nat);
    lemma_decimal_chars_digits(l as nat);
    let s = "port"@ + dp + "/line"@ + dl;
    let i: int = 4 + dp.len() as int;
    assert forall|j: int| 0 <= j < i implies s[j] != '/' by {
        if j >= 4 {
            assert(s[j] == dp[j - 4]);
            assert(is_ascii_digit(dp[j - 4]));
        }
    }
    assert(s[i] == '/');
    lemma_first_index_of_unique(s, '/', i);
    let first = s.take(i);
    assert(first =~= "port"@ + dp);
    lemma_after_four_ascii("port"@, dp);
    let tail = s.skip(i + 1);
    assert(tail =~= "line"@ + dl);
    assert forall|j: int| 0 <= j < tail.len() implies tail[j] != '/' by {
        if j >= 4 {
            assert(tail[j] == dl[j - 4]);
            assert(is_ascii_digit(dl[j - 4]));
        }
    }
    lemma_first_index_of_unique(tail, '/', tail.len() as int);
    assert(tail.take(tail.len() as int) =~= tail);
    lemma_after_four_ascii("line"@, dl);
    lemma_usize_from_decimal(p);
    lemma_usize_from_decimal(l);
}

/// The name of the merged channel of port `p`: `port<p>`.
pub open spec fn port_name(p: nat) -> Seq<char> {
    "port"@ + decimal_chars(p)
}

/// A port name never contains `line`, so it is never taken for a line channel.
pub proof fn lemma_port_name_no_line(p: nat)
    ensures
        !contains_seq(port_name(p), "line"@),
{
    reveal_strlit("port");
    reveal_strlit("line");
    let s = port_name(p);
    lemma_decimal_chars_digits(p);
    if contains_seq(s, "line"@) {
        let i = choose|i: int| 0 <= i <= s.len() - 4 && #[trigger] s.subrange(i, i + 4) == "line"@;
        assert(s.subrange(i, i + 4)[0] == 'l');
        assert(s[i] == 'l');
        if i >= 4 {
            assert(s[i] == decimal_chars(p)[i - 4]);
            assert(is_ascii_digit(decimal_chars(p)[i - 4]));
        }
    }
}

/// Distinct port numbers give distinct port names.
pub proof fn lemma_port_name_injective(p: usize, q: usize)
    requires
        p != q,
    ensures
        port_name(p as nat) != port_name(q as nat),
{
    reveal_strlit("port");
    if port_name(p as nat) == port_name(q as nat) {
        assert(port_name(p as nat).skip(4) =~= decimal_chars(p as nat));
        assert(port_name(q as nat).skip(4) =~= decimal_chars(q as nat));
        lemma_usize_from_decimal(p);
        lemma_usize_from_decimal(q);
    }
}

/// Builds the name of the merged channel of port `p`.
pub fn make_port_name(p: usize) -> (r: String)
    ensures
        r@ == port_name(p as nat),
{
    let mut name = String::from_str("port");
    let digits = usize_decimal(p);
    name.append(digits.as_str());
    proof {
        reveal_strlit("port");
    }
    name
}

// ---------------------------------------------------------------------------
// Executable text functions
// ---------------------------------------------------------------------------
/// Reads `usize_from_str` of the characters `s[from..to]`.
fn parse_usize_range(s: &str, from: usize, to: usize) -> (r: Option<usize>)
    requires
        from <= to <= s@.len(),
    ensures
        r matches Some(v) ==> usize_from_str(s@.subrange(from as int, to as int)) == Some(v as nat),
        r is None ==> usize_from_str(s@.subrange(from as int, to as int)) is None,
{
    let ghost sub = s@.subrange(from as int, to as int);
    let mut start = from;
    if from < to && s.get_char(from) == '+' {
        start = from + 1;
    }
    let ghost digits = s@.subrange(start as int, to as int);
    assert(digits =~= (if sub.len() > 0 && sub[0] == '+' {
        sub.skip(1)
    } else {
        sub
    }));
    if start == to {
        return None;
    }
    let mut acc: usize = 0;
    let mut i = start;
    while i < to
        invariant
            start <= i <= to <= s@.len(),
            from <= start,
            sub == s@.subrange(from as int, to as int),
            digits == s@.subrange(start as int, to as int),
            digits == (if sub.len() > 0 && sub[0] == '+' {
                sub.skip(1)
            } else {
                sub
            }),
            all_ascii_digits(s@.subrange(start as int, i as int)),
            acc as nat == digits_value(s@.subrange(start as int, i as int)),
        decreases to - i,
    {
        let c = s.get_char(i);
        assert(s@.subrange(start as int, i + 1) =~= s@.subrange(start as int, i as int).push(c));
        proof {
            lemma_digits_value_push(s@.subrange(start as int, i as int), c);
        }
        if !('0' <= c && c <= '9') {
            assert(digits[i - start] == c);
            assert(!is_ascii_digit(digits[i - start]));
            return None;
        }
        let d = (c as u32 - '0' as u32) as usize;
        if acc > (usize::MAX - d) / 10 {
            assert(acc * 10 + d > usize::MAX) by (nonlinear_arith)
                requires
                    acc > (usize::MAX - d) / 10,
                    d <= 9,
            ;
            proof {
                let rest = s@.subrange(i + 1, to as int);
                assert(all_ascii_digits(s@.subrange(start as int, i + 1)));
                assert(digits =~= s@.subrange(start as int, i + 1) + rest);
                if all_ascii_digits(digits) {
                    lemma_digits_value_lower(s@.subrange(start as int, i + 1), rest);
                }
            }
            return None;
        }
        acc = acc * 10 + d;
        i += 1;
    }
    assert(s@.subrange(start as int, i as int) =~= digits);
    Some(acc)
}

proof fn lemma_digits_value_lower(a: Seq<char>, b: Seq<char>)
    requires
        all_ascii_digits(a + b),
    ensures
        digits_value(a) <= digits_value(a + b),
    decreases b.len(),
{
    if b.len() > 0 {
        assert((a + b).drop_last() =~= a + b.drop_last());
        assert(all_ascii_digits(a + b.drop_last())) by {
            assert forall|i: int| 0 <= i < (a + b.drop_last()).len() implies is_ascii_digit(
                #[trigger] (a + b.drop_last())[i],
            ) by {
                assert((a + b.drop_last())[i] == (a + b)[i]);
            }
        }
        lemma_digits_value_lower(a, b.drop_last());
    }
}

/// Index (in characters) of the first `c` at or after `from`, or `s@.len()`.
fn find_char_from(s: &str, from: usize, c: char) -> (r: usize)
    requires
        from <= s@.len(),
    ensures
        r as int == from + first_index_of(s@.skip(from as int), c),
        from <= r <= s@.len(),
{
    let n = s.unicode_len();
    let mut i = from;
    while i < n
        invariant
            from <= i <= n,
            n == s@.len(),
            forall|j: int| from <= j < i ==> s@[j] != c,
        decreases n - i,
    {
        if s.get_char(i) == c {
            proof {
                lemma_first_index_of_unique(s@.skip(from as int), c, i - from);
            }
            return i;
        }
        i += 1;
    }
    proof {
        lemma_first_index_of_unique(s@.skip(from as int), c, i - from);
    }
    i
}

/// Index just after the first four UTF-8 bytes of `s[from..to]`, when they end on a
/// character boundary.
fn skip_four_bytes(s: &str, from: usize, to: usize) -> (r: Option<usize>)
    requires
        from <= to <= s@.len(),
    ensures
        r matches Some(k) ==> from <= k <= to && after_four_bytes(
            s@.subrange(from as int, to as int),
        ) == Some(s@.subrange(k as int, to as int)),
        r is None ==> after_four_bytes(s@.subrange(from as int, to as int)) is None,
{
    let ghost part = s@.subrange(from as int, to as int);
    let mut i = from;
    let mut size: usize = 0;
    while i < to && size < 4
        invariant
            from <= i <= to <= s@.len(),
            part == s@.subrange(from as int, to as int),
            size as nat == utf8_size(part.take(i - from)),
            size < 4 || i == from || size <= 7,
            forall|k: int| 0 <= k < i - from ==> utf8_size(part.take(k)) < 4,
        decreases to - i,
    {
        let c = s.get_char(i);
        proof {
            assert(part.take(i + 1 - from) =~= part.take(i - from).push(c));
            lemma_utf8_size_push(part.take(i - from), c);
        }
        let w: usize = if (c as u32) < 0x80 {
            1
        } else if (c as u32) < 0x800 {
            2
        } else if (c as u32) < 0x10000 {
            3
        } else {
            4
        };
        size = size + w;
        i += 1;
    }
    if size == 4 {
        assert(exists|k: int| 0 <= k <= part.len() && utf8_size(#[trigger] part.take(k)) == 4) by {
            assert(utf8_size(part.take(i - from)) == 4);
        }
        proof {
            let k = choose|k: int| 0 <= k <= part.len() && utf8_size(#[trigger] part.take(k)) == 4;
            if k > i - from {
                lemma_utf8_size_monotone(part, i - from, k);
            }
            assert(part.skip(i - from) =~= s@.subrange(i as int, to as int));
        }
        Some(i)
    } else {
        proof {
            assert forall|k: int| 0 <= k <= part.len() implies utf8_size(#[trigger] part.take(k))
                != 4 by {
                if k > i - from {
                    if size > 4 {
                        lemma_utf8_size_monotone(part, i - from, k);
                    } else {
                        assert(i == to);
                    }
                }
            }
        }
        None
    }
}

/// Reads the (port, line) pair of a digital line channel name, or `None` where
/// `extract_port_line_numbers` cannot read the name.
pub fn parse_port_line(chan: &str) -> (r: Option<(usize, usize)>)
    ensures
        r matches Some((p, l)) ==> port_line_of(chan@) == Some((p as nat, l as nat)),
        r is None ==> port_line_of(chan@) is None,
{
    let n = chan.unicode_len();
    let slash = find_char_from(chan, 0, '/');
    assert(chan@.skip(0) =~= chan@);
    if slash == n {
        return None;
    }
    let slash2 = find_char_from(chan, slash + 1, '/');
    let ghost first = chan@.take(slash as int);
    let ghost tail = chan@.skip(slash + 1);
    assert(first =~= chan@.subrange(0, slash as int));
    assert(tail.take(first_index_of(tail, '/')) =~= chan@.subrange(slash + 1, slash2 as int));
    let port = match skip_four_bytes(chan, 0, slash) {
        Some(k) => parse_usize_range(chan, k, slash),
        None => None,
    };
    let line = match skip_four_bytes(chan, slash + 1, slash2) {
        Some(k) => parse_usize_range(chan, k, slash2),
        None => None,
    };
    match (port, line) {
        (Some(p), Some(l)) => Some((p, l)),
        _ => None,
    }
}

/// Extracts the port and line numbers from a channel name `port<number>/line<number>`
/// (e.g. `port0/line32` gives `(0, 32)`). The name must be readable.
pub fn extract_port_line_numbers(chan: &str) -> (r: (usize, usize))
    requires
        port_line_of(chan@) is Some,
    ensures
        port_line_of(chan@) == Some((r.0 as nat, r.1 as nat)),
{
    match parse_port_line(chan) {
        Some(pl) => pl,
        None => (0, 0),
    }
}

/// Whether the character sequence `pat` occurs in `s`.
pub open spec fn contains_seq(s: Seq<char>, pat: Seq<char>) -> bool {
    exists|i: int| 0 <= i <= s.len() - pat.len() && #[trigger] s.subrange(i, i + pat.len()) == pat
}

/// Text that contains `/line` contains `line`.
pub proof fn lemma_contains_slash_line(s: Seq<char>)
    requires
        contains_seq(s, "/line"@),
    ensures
        contains_seq(s, "line"@),
{
    reveal_strlit("/line");
    reveal_strlit("line");
    let i = choose|i: int| 0 <= i <= s.len() - "/line"@.len() && #[trigger] s.subrange(i, i + "/line"@.len()) == "/line"@;
    let k = i + 1;
    assert(s.subrange(k, k + "line"@.len()) =~= "line"@) by {
        assert forall|j: int| 0 <= j < 4 implies s.subrange(k, k + 4)[j] == "line"@[j] by {
            assert(s.subrange(i, i + 5)[j + 1] == "/line"@[j + 1]);
        }
    }
    assert(0 <= k <= s.len() - "line"@.len());
}

/// Whether `pat` occurs in `s` (`str::contains`).
pub fn str_contains(s: &str, pat: &str) -> (r: bool)
    ensures
        r == contains_seq(s@, pat@),
{
    let n = s.unicode_len();
    let m = pat.unicode_len();
    if m > n {
        return false;
    }
    if m == 0 {
        assert(s@.subrange(0, 0 + pat@.len() as int) =~= pat@);
        return true;
    }
    let mut i: usize = 0;
    while i <= n - m
        invariant
            n == s@.len(),
            m == pat@.len(),
            1 <= m <= n,
            i <= n - m + 1,
            forall|k: int| 0 <= k < i ==> #[trigger] s@.subrange(k, k + m) != pat@,
        decreases n - m + 1 - i,
    {
        let mut j: usize = 0;
        let mut same = true;
        while j < m
            invariant
                n == s@.len(),
                m == pat@.len(),
                i + m <= n,
                j <= m,
                same ==> forall|k: int| 0 <= k < j ==> s@[i + k] == pat@[k],
                !same ==> s@.subrange(i as int, i + m) != pat@,
            decreases m - j,
        {
            if same && s.get_char(i + j) != pat.get_char(j) {
                same = false;
                assert(s@.subrange(i as int, i + m)[j as int] != pat@[j as int]);
            }
            j += 1;
        }
        if same {
            assert(s@.subrange(i as int, i + m) =~= pat@);
            return true;
        }
        i += 1;
    }
    false
}

/// The text of the decimal digit `d`.
fn digit_str(d: usize) -> (r: &'static str)
    requires
        d < 10,
    ensures
        r@ == seq![digit_char(d as nat)],
{
    proof {
        reveal_strlit("0");
        reveal_strlit("1");
        reveal_strlit("2");
        reveal_strlit("3");
        reveal_strlit("4");
        reveal_strlit("5");
        reveal_strlit("6");
        reveal_strlit("7");
        reveal_strlit("8");
        reveal_strlit("9");
    }
    let r = match d {
        0 => "0",
        1 => "1",
        2 => "2",
        3 => "3",
        4 => "4",
        5 => "5",
        6 => "6",
        7 => "7",
        8 => "8",
        _ => "9",
    };
    assert(r@ =~= seq![digit_char(d as nat)]);
    r
}

/// The decimal text of `n`, as `usize::to_string` writes it.
pub(crate) fn usize_decimal(n: usize) -> (r: String)
    ensures
        r@ == decimal_chars(n as nat),
    decreases n,
{
    if n < 10 {
        String::from_str(digit_str(n))
    } else {
        let mut s = usize_decimal(n / 10);
        s.append(digit_str(n % 10));
        proof {
            assert(n as nat / 10 == (n / 10) as nat);
            assert(s@ =~= decimal_chars(n as nat));
        }
        s
    }
}

// ---------------------------------------------------------------------------
// StreamCounter
// ---------------------------------------------------------------------------
/// Keeps track of a position within `[0, end_pos)` that advances in steps of `interval` and
/// wraps around to the beginning once it has reached the end. Used to cut a compiled
/// sequence into buffer-sized chunks while streaming, repetition after repetition.
pub struct StreamCounter {
    pos: usize,
    end_pos: usize,
    interval: usize,
    /// Chunks handed out since the counter was made or last reset.
    ticks: Ghost<nat>,
}

impl StreamCounter {
    pub closed spec fn cur(&self) -> nat {
        self.pos as nat
    }

    pub closed spec fn end(&self) -> nat {
        self.end_pos as nat
    }

    pub closed spec fn step(&self) -> nat {
        self.interval as nat
    }

    /// The number of chunks handed out since the counter was made or last reset.
    pub closed spec fn calls(&self) -> nat {
        self.ticks@
    }

    /// The position is where that many chunks from 0 lead, so it never passes the end.
    pub closed spec fn wf(&self) -> bool {
        &&& self.pos <= self.end_pos
        &&& self.pos as nat == stream_pos_after(self.end_pos as nat, self.interval as nat, self.ticks@)
    }

    /// The position one step after `pos`, stopping at `end`.
    pub open spec fn next_of(pos: nat, interval: nat, end: nat) -> nat {
        if pos + interval < end {
            pos + interval
        } else {
            end
        }
    }

    /// Where the next chunk starts when the position is `pos`: back at 0 once the end has
    /// been reached.
    pub open spec fn start_of(pos: nat, end: nat) -> nat {
        if pos == end {
            0
        } else {
            pos
        }
    }

    /// Creates a counter at position 0 for the range `[0, end_pos)` and step `interval`.
    pub fn new(end_pos: usize, interval: usize) -> (c: Self)
        ensures
            c.wf(),
            c.cur() == 0,
            c.calls() == 0,
            c.end() == end_pos,
            c.step() == interval,
    {
        Self { pos: 0, end_pos, interval, ticks: Ghost(0) }
    }

    /// Moves the position back to 0.
    pub fn reset(&mut self)
        ensures
            final(self).wf(),
            final(self).cur() == 0,
            final(self).calls() == 0,
            final(self).end() == old(self).end(),
            final(self).step() == old(self).step(),
    {
        self.pos = 0;
        self.ticks = Ghost(0);
    }

    /// The current position.
    pub fn pos(&self) -> (r: usize)
        ensures
            r == self.cur(),
    {
        self.pos
    }

    /// The position one step ahead, or `end_pos` when the step would reach or pass it.
    pub fn next_pos(&mut self) -> (r: usize)
        requires
            old(self).wf(),
        ensures
            r == Self::next_of(old(self).cur(), old(self).step(), old(self).end()),
            *final(self) == *old(self),
    {
        if self.interval < self.end_pos - self.pos {
            self.pos + self.interval
        } else {
            self.end_pos
        }
    }

    /// Whether the position has reached the end of the range.
    pub fn reached_end(&self) -> (r: bool)
        ensures
            r == (self.cur() == self.end()),
    {
        self.pos == self.end_pos
    }

    /// Returns the next chunk `(pos, next_pos)` and advances to `next_pos`. Once the end has
    /// been reached the position first wraps around to 0, so the chunks repeat pass after
    /// pass. An empty range (`end_pos == 0`) has no chunk: the result is `None`.
    pub fn tick_next(&mut self) -> (r: Option<(usize, usize)>)
        requires
            old(self).wf(),
        ensures
            final(self).wf(),
            final(self).end() == old(self).end(),
            final(self).step() == old(self).step(),
            final(self).cur() == stream_pos_after(final(self).end(), final(self).step(), final(self).calls()),
            old(self).end() == 0 ==> r is None && *final(self) == *old(self),
            old(self).end() > 0 ==> ({
                let start = Self::start_of(old(self).cur(), old(self).end());
                let next = Self::next_of(start, old(self).step(), old(self).end());
                &&& r == Some((start as usize, next as usize))
                &&& final(self).cur() == next
                &&& final(self).calls() == old(self).calls() + 1
            }),
    {
        if self.end_pos == 0 {
            return None;
        }
        if self.reached_end() {
            self.pos = 0;
        }
        let cur = self.pos;
        let next = if self.interval < self.end_pos - cur {
            cur + self.interval
        } else {
            self.end_pos
        };
        self.pos = next;
        self.ticks = Ghost(self.ticks@ + 1);
        Some((cur, next))
    }
}

/// The position after `k` calls of `tick_next` from position 0: each call starts where the
/// last one ended (at 0 again once the end was reached) and moves one step on.
pub open spec fn stream_pos_after(end: nat, interval: nat, k: nat) -> nat
    decreases k,
{
    if k == 0 {
        0
    } else {
        let p = stream_pos_after(end, interval, (k - 1) as nat);
        StreamCounter::next_of(StreamCounter::start_of(p, end), interval, end)
    }
}

/// Within the first pass over `[0, end)` with a nonzero step, the counter stands at
/// `min(k * interval, end)` after `k` chunks: the chunks handed out after a reset are
/// `(0, interval)`, `(interval, 2 * interval)`, ... up to `end`, in order and without gaps.
pub proof fn lemma_stream_chunks(end: nat, interval: nat, k: nat)
    requires
        interval > 0,
        k == 0 || (k - 1) * interval < end,
    ensures
        stream_pos_after(end, interval, k) == if k * interval < end {
            k * interval
        } else {
            end
        },
    decreases k,
{
    if k > 0 {
        let j = (k - 1) as nat;
        assert(j * interval + interval == k * interval) by (nonlinear_arith)
            requires
                j + 1 == k,
        ;
        if j > 0 {
            assert((j - 1) * interval < j * interval) by (nonlinear_arith)
                requires
                    j > 0,
                    interval > 0,
            ;
        } else {
            assert(j * interval == 0) by (nonlinear_arith)
                requires
                    j == 0,
            ;
        }
        lemma_stream_chunks(end, interval, j);
        let p = stream_pos_after(end, interval, j);
        assert(p == j * interval);
        assert(stream_pos_after(end, interval, k) == StreamCounter::next_of(p, interval, end));
    } else {
        assert(k * interval == 0) by (nonlinear_arith)
            requires
                k == 0,
        ;
    }
}

/// One pass over a nonempty range takes `ceil(end / interval)` chunks: before each of them
/// the counter stands strictly inside the range (so no chunk wraps), each chunk moves it one
/// step on, and after the last one it stands at the end. With `tick_next`'s contract this says
/// that the first `ceil(end / interval)` calls after a reset hand out `(0, interval)`,
/// `(interval, 2 * interval)`, ... and a last chunk ending at `end`: they cover `[0, end)`
/// contiguously and without overlap.
pub proof fn lemma_stream_pass(end: nat, interval: nat)
    requires
        interval > 0,
        end > 0,
    ensures
        ({
            let m = ((end + interval - 1) / interval as int) as nat;
            &&& m > 0
            &&& stream_pos_after(end, interval, m) == end
            &&& forall|i: nat|
                i < m ==> #[trigger] stream_pos_after(end, interval, i) == i * interval
                    && stream_pos_after(end, interval, i) < end && stream_pos_after(end, interval, i + 1)
                    == StreamCounter::next_of(stream_pos_after(end, interval, i), interval, end)
        }),
{
    let m = ((end + interval - 1) / interval as int) as nat;
    assert(m * interval >= end && (m - 1) * interval < end && m > 0) by (nonlinear_arith)
        requires
            interval > 0,
            end > 0,
            m == (end + interval - 1) / interval as int,
    ;
    lemma_stream_chunks(end, interval, m);
    assert forall|i: nat| i < m implies #[trigger] stream_pos_after(end, interval, i) == i * interval
        && stream_pos_after(end, interval, i) < end && stream_pos_after(end, interval, i + 1)
        == StreamCounter::next_of(stream_pos_after(end, interval, i), interval, end) by {
        assert(i * interval < end && (i == 0 || (i - 1) * interval < end)) by (nonlinear_arith)
            requires
                i < m,
                (m - 1) * interval < end,
                interval > 0,
        ;
        lemma_stream_chunks(end, interval, i);
    }
}

/// A counter that has handed out `calls()` chunks since it was made or reset, all within
/// the first pass, stands at `min(calls() * step(), end())`.
pub proof fn lemma_counter_pos(c: StreamCounter)
    requires
        c.wf(),
        c.step() > 0,
        c.calls() == 0 || (c.calls() - 1) * c.step() < c.end(),
    ensures
        c.cur() == if c.calls() * c.step() < c.end() {
            c.calls() * c.step()
        } else {
            c.end()
        },
{
    lemma_stream_chunks(c.end(), c.step(), c.calls());
}

/// Once a pass has reached the end of a nonempty range, the next chunk starts over from 0:
/// the counter then stands where it stood after the first chunk.
pub proof fn lemma_stream_wraps(end: nat, interval: nat, k: nat)
    requires
        end > 0,
        stream_pos_after(end, interval, k) == end,
    ensures
        stream_pos_after(end, interval, k + 1) == stream_pos_after(end, interval, 1),
{
    assert(stream_pos_after(end, interval, 0) == 0);
}

// ---------------------------------------------------------------------------
// Semaphore
// ---------------------------------------------------------------------------
/// What a thread that tries to acquire the semaphore does next.
pub enum AcquireStep {
    /// The count is below 1: wait to be notified and try again.
    Wait,
    /// The count was at least 1 and has been decremented.
    Acquired,
}

/// The count of a counting semaphore and the rules of its two operations.
/// `acquire` succeeds only while the count is at least 1 and then decrements it;
/// `release` increments it. A blocking semaphore keeps this state under a lock and
/// waits on a condition variable whenever `acquire` answers `Wait`.
pub struct Semaphore {
    count: i32,
}

impl Semaphore {
    pub closed spec fn count_spec(&self) -> int {
        self.count as int
    }

    pub fn new(init_count: i32) -> (s: Self)
        ensures
            s.count_spec() == init_count,
    {
        Semaphore { count: init_count }
    }

    pub fn count(&self) -> (r: i32)
        ensures
            r == self.count_spec(),
    {
        self.count
    }

    /// Takes one unit when the count is at least 1; otherwise leaves the count unchanged and
    /// answers `Wait`.
    pub fn acquire(&mut self) -> (r: AcquireStep)
        ensures
            old(self).count_spec() < 1 ==> r is Wait && final(self).count_spec() == old(
                self,
            ).count_spec(),
            old(self).count_spec() >= 1 ==> r is Acquired && final(self).count_spec() == old(
                self,
            ).count_spec() - 1,
    {
        if self.count < 1 {
            AcquireStep::Wait
        } else {
            self.count = self.count - 1;
            AcquireStep::Acquired
        }
    }

    /// Gives one unit back.
    pub fn release(&mut self)
        requires
            old(self).count_spec() < i32::MAX,
        ensures
            final(self).count_spec() == old(self).count_spec() + 1,
    {
        self.count = self.count + 1;
    }
}

} // verus!
