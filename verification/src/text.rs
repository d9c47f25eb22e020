//! Small pieces of text handling on `str` and `String`, stated over the sequence of characters.

use vstd::prelude::*;
use vstd::string::*;

verus! {

/// The character that writes the decimal digit `d`.
pub open spec fn digit_char(d: int) -> char {
    (48 + d) as char
}

/// The decimal writing of `n`, without leading zeros.
pub open spec fn decimal(n: nat) -> Seq<char>
    decreases n,
{
    if n < 10 {
        seq![digit_char(n as int)]
    } else {
        decimal(n / 10).push(digit_char((n % 10) as int))
    }
}

/// The decimal writing of a signed number.
pub open spec fn decimal_int(n: int) -> Seq<char> {
    if n < 0 {
        seq!['-'] + decimal((-n) as nat)
    } else {
        decimal(n as nat)
    }
}

fn digit_text(d: u64) -> (text: &'static str)
    requires
        d < 10,
    ensures
        text@ == seq![digit_char(d as int)],
{
    proof {
        reveal_strlit("0");
        reveal_strlit("1");
        reveal_strlit("2");
        reveal_strlit("3");
        reveal_strlit("4");
        reveal_strlit("5");
        reveal_strlit("6");
        reveal_strlit("7");
        reveal_strlit("8");
        reveal_strlit("9");
    }
    if d == 0 {
        "0"
    } else if d == 1 {
        "1"
    } else if d == 2 {
        "2"
    } else if d == 3 {
        "3"
    } else if d == 4 {
        "4"
    } else if d == 5 {
        "5"
    } else if d == 6 {
        "6"
    } else if d == 7 {
        "7"
    } else if d == 8 {
        "8"
    } else {
        "9"
    }
}

/// Writes `n` in decimal.
pub fn decimal_text(n: u64) -> (text: String)
    ensures
        text@ == decimal(n as nat),
    decreases n,
{
    if n < 10 {
        digit_text(n).to_owned()
    } else {
        let mut text = decimal_text(n / 10);
        text.append(digit_text(n % 10));
        text
    }
}

/// Writes a signed number in decimal.
pub fn decimal_int_text(n: i32) -> (text: String)
    ensures
        text@ == decimal_int(n as int),
{
    if n < 0 {
        proof {
            reveal_strlit("-");
        }
        let mut text = "-".to_owned();
        text.append(decimal_text((-(n as i64)) as u64).as_str());
        text
    } else {
        decimal_text(n as u64)
    }
}

/// Compares two texts.
pub fn same_text(a: &str, b: &str) -> (same: bool)
    ensures
        same == (a@ == b@),
{
    a.to_owned() == b.to_owned()
}

/// The characters of `s`, one by one.
pub fn chars_of(s: &str) -> (chars: Vec<char>)
    ensures
        chars@ == s@,
{
    let mut chars: Vec<char> = Vec::new();
    for c in it: s.chars()
        invariant
            it.seq() == s@,
            chars@ == s@.take(it.index()),
    {
        chars.push(c);
    }
    chars
}

/// Where `c` occurs first in `s`.
pub open spec fn first_of(s: Seq<char>, c: char) -> Option<int>
    decreases s.len(),
{
    if s.len() == 0 {
        None
    } else if s[0] == c {
        Some(0)
    } else {
        match first_of(s.drop_first(), c) {
            Some(i) => Some(i + 1),
            None => None,
        }
    }
}

/// Where `pat` occurs last in `s`.
pub open spec fn last_of(s: Seq<char>, pat: Seq<char>) -> Option<int>
    decreases s.len(),
{
    if s.len() < pat.len() || s.len() == 0 {
        None
    } else if s.skip(s.len() - pat.len()) == pat {
        Some(s.len() - pat.len())
    } else {
        last_of(s.drop_last(), pat)
    }
}

/// What `first_of` means.
pub proof fn lemma_first_of(s: Seq<char>, c: char)
    ensures
        match first_of(s, c) {
            Some(i) => 0 <= i < s.len() && s[i] == c && forall|j: int| 0 <= j < i ==> s[j] != c,
            None => !s.contains(c),
        },
    decreases s.len(),
{
    if s.len() > 0 && s[0] != c {
        let rest = s.drop_first();
        lemma_first_of(rest, c);
        match first_of(rest, c) {
            Some(i) => {
                assert forall|j: int| 0 <= j < i + 1 implies s[j] != c by {
                    if j > 0 {
                        assert(rest[j - 1] == s[j]);
                    }
                }
            },
            None => {
                if s.contains(c) {
                    let k = s.index_of(c);
                    assert(rest[k - 1] == c);
                }
            },
        }
    }
}

/// `first_of` finds the first place.
pub proof fn lemma_first_of_at(s: Seq<char>, c: char, i: int)
    requires
        0 <= i < s.len(),
        s[i] == c,
        forall|j: int| 0 <= j < i ==> s[j] != c,
    ensures
        first_of(s, c) == Some(i),
{
    lemma_first_of(s, c);
    assert(s.contains(c));
}

/// Finds the first `c`.
pub fn find_first(chars: &Vec<char>, c: char) -> (found: Option<usize>)
    ensures
        match found {
            Some(i) => i < chars@.len() && first_of(chars@, c) == Some(i as int),
            None => first_of(chars@, c) is None,
        },
{
    let n: usize = chars.len();
    let mut i: usize = 0;
    while i < n
        invariant
            i <= n,
            n == chars@.len(),
            forall|j: int| 0 <= j < i ==> chars@[j] != c,
        decreases n - i,
    {
        if chars[i] == c {
            proof {
                lemma_first_of_at(chars@, c, i as int);
            }
            return Some(i);
        }
        i = i + 1;
    }
    proof {
        lemma_first_of(chars@, c);
    }
    None
}

/// Finds the last `c`.
pub fn find_last(chars: &Vec<char>, c: char) -> (found: Option<usize>)
    ensures
        match found {
            Some(i) => i < chars@.len() && last_of(chars@, seq![c]) == Some(i as int),
            None => last_of(chars@, seq![c]) is None,
        },
{
    let mut n: usize = chars.len();
    assert(chars@.take(n as int) =~= chars@);
    while n > 0
        invariant
            n <= chars@.len(),
            last_of(chars@, seq![c]) == last_of(chars@.take(n as int), seq![c]),
        decreases n,
    {
        let ghost s = chars@.take(n as int);
        assert(s.skip(s.len() - 1)[0] == chars@[n - 1]);
        assert(seq![c][0] == c);
        if chars[n - 1] == c {
            assert(s.skip(s.len() - 1) =~= seq![c]);
            return Some(n - 1);
        }
        assert(s.drop_last() =~= chars@.take(n - 1));
        n = n - 1;
    }
    None
}

/// Finds the last place where `a` and `b` follow each other.
pub fn find_last_pair(chars: &Vec<char>, a: char, b: char) -> (found: Option<usize>)
    ensures
        match found {
            Some(i) => i + 1 < chars@.len() && last_of(chars@, seq![a, b]) == Some(i as int),
            None => last_of(chars@, seq![a, b]) is None,
        },
{
    let mut n: usize = chars.len();
    assert(chars@.take(n as int) =~= chars@);
    while n > 1
        invariant
            n <= chars@.len(),
            last_of(chars@, seq![a, b]) == last_of(chars@.take(n as int), seq![a, b]),
        decreases n,
    {
        let ghost s = chars@.take(n as int);
        assert(s.skip(s.len() - 2)[0] == chars@[n - 2]);
        assert(s.skip(s.len() - 2)[1] == chars@[n - 1]);
        assert(seq![a, b][0] == a);
        assert(seq![a, b][1] == b);
        if chars[n - 2] == a && chars[n - 1] == b {
            assert(s.skip(s.len() - 2) =~= seq![a, b]);
            return Some(n - 2);
        }
        assert(s.drop_last() =~= chars@.take(n - 1));
        n = n - 1;
    }
    None
}

/// The characters with the Unicode property `White_Space`.
pub open spec fn white_space(c: char) -> bool {
    let n = c as int;
    ||| 0x9 <= n <= 0xd
    ||| n == 0x20
    ||| n == 0x85
    ||| n == 0xa0
    ||| n == 0x1680
    ||| 0x2000 <= n <= 0x200a
    ||| n == 0x2028
    ||| n == 0x2029
    ||| n == 0x202f
    ||| n == 0x205f
    ||| n == 0x3000
}

fn is_white_space(c: char) -> (yes: bool)
    ensures
        yes == white_space(c),
{
    let n: u32 = c as u32;
    (0x9 <= n && n <= 0xd) || n == 0x20 || n == 0x85 || n == 0xa0 || n == 0x1680 || (0x2000 <= n
        && n <= 0x200a) || n == 0x2028 || n == 0x2029 || n == 0x202f || n == 0x205f || n == 0x3000
}

/// `s` without white space at the start.
pub open spec fn trimmed_start(s: Seq<char>) -> Seq<char>
    decreases s.len(),
{
    if s.len() > 0 && white_space(s[0]) {
        trimmed_start(s.drop_first())
    } else {
        s
    }
}

/// `s` without white space at the end.
pub open spec fn trimmed_end(s: Seq<char>) -> Seq<char>
    decreases s.len(),
{
    if s.len() > 0 && white_space(s.last()) {
        trimmed_end(s.drop_last())
    } else {
        s
    }
}

/// `s` without white space at either end.
pub open spec fn trimmed(s: Seq<char>) -> Seq<char> {
    trimmed_end(trimmed_start(s))
}

/// Cuts white space off both ends.
pub fn trim(s: &str) -> (cut: &str)
    ensures
        cut@ == trimmed(s@),
{
    let chars = chars_of(s);
    let n: usize = chars.len();
    let mut from: usize = 0;
    assert(s@.skip(0) =~= s@);
    while from < n && is_white_space(chars[from])
        invariant
            from <= n,
            n == chars@.len(),
            chars@ == s@,
            trimmed_start(s@) == trimmed_start(s@.skip(from as int)),
        decreases n - from,
    {
        assert(s@.skip(from as int).drop_first() =~= s@.skip(from + 1));
        from = from + 1;
    }
    assert(trimmed_start(s@) == s@.skip(from as int));
    let mut to: usize = n;
    assert(s@.subrange(from as int, n as int) =~= s@.skip(from as int));
    while to > from && is_white_space(chars[to - 1])
        invariant
            from <= to <= n,
            n == chars@.len(),
            chars@ == s@,
            trimmed(s@) == trimmed_end(s@.subrange(from as int, to as int)),
        decreases to,
    {
        assert(s@.subrange(from as int, to as int).drop_last() =~= s@.subrange(
            from as int,
            to - 1,
        ));
        to = to - 1;
    }
    assert(trimmed(s@) == s@.subrange(from as int, to as int));
    s.substring_char(from, to)
}

/// The number that a run of decimal digits writes.
pub open spec fn digits_value(s: Seq<char>) -> Option<nat>
    decreases s.len(),
{
    if s.len() == 0 {
        Some(0)
    } else {
        match digits_value(s.drop_last()) {
            Some(v) => if '0' <= s.last() <= '9' {
                Some((10 * v + (s.last() as int - 48)) as nat)
            } else {
                None
            },
            None => None,
        }
    }
}

/// The port that a text writes: an optional `+` and then digits only, at least one of them, for
/// a number that fits in sixteen bits.
pub open spec fn port_value(s: Seq<char>) -> Option<u16> {
    let digits = if s.len() > 0 && s[0] == '+' {
        s.drop_first()
    } else {
        s
    };
    if digits.len() == 0 {
        None
    } else {
        match digits_value(digits) {
            Some(v) => if v <= 0xffff {
                Some(v as u16)
            } else {
                None
            },
            None => None,
        }
    }
}

/// What the error of `str::parse::<u16>` says of `s`.
pub uninterp spec fn port_error(s: Seq<char>) -> Seq<char>;

/// Calls `str::parse::<u16>` and writes out its error.
///
/// Claimed: it takes an optional `+` followed by digits only, for a number that a `u16` can
/// hold, and nothing else; what the error says depends on the text alone.
#[verifier::external_body]
pub(crate) fn parse_port(s: &str) -> (port: Result<u16, String>)
    ensures
        match port {
            Ok(n) => port_value(s@) == Some(n),
            Err(e) => port_value(s@) is None && e@ == port_error(s@),
        },
{
    s.parse::<u16>().map_err(|e| e.to_string())
}

/// `last_of` finds the last place.
pub proof fn lemma_last_of_at(s: Seq<char>, pat: Seq<char>, k: int)
    requires
        0 < pat.len(),
        0 <= k,
        k + pat.len() <= s.len(),
        s.subrange(k, k + pat.len()) == pat,
        forall|j: int|
            k < j && j + pat.len() <= s.len() ==> #[trigger] s.subrange(j, j + pat.len()) != pat,
    ensures
        last_of(s, pat) == Some(k),
    decreases s.len(),
{
    let end = s.len() - pat.len();
    assert(s.skip(end) =~= s.subrange(end, end + pat.len()));
    if k < end {
        let shorter = s.drop_last();
        assert(shorter.subrange(k, k + pat.len()) =~= s.subrange(k, k + pat.len()));
        assert forall|j: int| k < j && j + pat.len() <= shorter.len() implies #[trigger] shorter.subrange(
            j,
            j + pat.len(),
        ) != pat by {
            assert(shorter.subrange(j, j + pat.len()) =~= s.subrange(j, j + pat.len()));
        }
        lemma_last_of_at(shorter, pat, k);
    }
}

/// What `last_of` means.
pub proof fn lemma_last_of(s: Seq<char>, pat: Seq<char>)
    requires
        0 < pat.len(),
    ensures
        match last_of(s, pat) {
            Some(k) => {
                &&& 0 <= k
                &&& k + pat.len() <= s.len()
                &&& s.subrange(k, k + pat.len()) == pat
                &&& forall|j: int|
                    k < j && j + pat.len() <= s.len() ==> #[trigger] s.subrange(j, j + pat.len())
                        != pat
            },
            None => forall|j: int|
                0 <= j && j + pat.len() <= s.len() ==> #[trigger] s.subrange(j, j + pat.len())
                    != pat,
        },
    decreases s.len(),
{
    if s.len() >= pat.len() {
        let end = s.len() - pat.len();
        assert(s.skip(end) =~= s.subrange(end, end + pat.len()));
        if s.skip(end) != pat {
            let shorter = s.drop_last();
            lemma_last_of(shorter, pat);
            if let Some(k) = last_of(shorter, pat) {
                assert(shorter.subrange(k, k + pat.len()) =~= s.subrange(k, k + pat.len()));
            }
            assert forall|j: int| 0 <= j && j + pat.len() <= s.len() && j < end implies #[trigger] s.subrange(
                j,
                j + pat.len(),
            ) == shorter.subrange(j, j + pat.len()) by {
                assert(shorter.subrange(j, j + pat.len()) =~= s.subrange(j, j + pat.len()));
            }
        }
    }
}

/// A number is written with digits only, and with at least one of them.
pub proof fn lemma_decimal_digits(n: nat)
    ensures
        decimal(n).len() > 0,
        forall|i: int| 0 <= i < decimal(n).len() ==> '0' <= #[trigger] decimal(n)[i] <= '9',
    decreases n,
{
    if n >= 10 {
        lemma_decimal_digits(n / 10);
    }
}

proof fn lemma_digits_of_decimal(n: nat)
    ensures
        digits_value(decimal(n)) == Some(n),
    decreases n,
{
    if n < 10 {
        let s = decimal(n);
        assert(s.drop_last() =~= Seq::<char>::empty());
        assert(digits_value(s.drop_last()) == Some(0nat));
    } else {
        lemma_digits_of_decimal(n / 10);
        assert(decimal(n).drop_last() =~= decimal(n / 10));
    }
}

/// A port that is written out reads back as the same port.
pub proof fn law_port_reads_back(n: u16)
    ensures
        port_value(decimal(n as nat)) == Some(n),
{
    lemma_decimal_digits(n as nat);
    lemma_digits_of_decimal(n as nat);
    assert('0' <= decimal(n as nat)[0]);
}

proof fn lemma_trimmed_start(s: Seq<char>)
    ensures
        trimmed_start(s).len() > 0 ==> !white_space(trimmed_start(s)[0]),
        trimmed_start(trimmed_start(s)) == trimmed_start(s),
    decreases s.len(),
{
    if s.len() > 0 && white_space(s[0]) {
        lemma_trimmed_start(s.drop_first());
    }
}

proof fn lemma_trimmed_end(s: Seq<char>)
    ensures
        trimmed_end(s).len() > 0 ==> !white_space(trimmed_end(s).last()),
        trimmed_end(s).len() > 0 ==> trimmed_end(s)[0] == s[0],
        trimmed_end(trimmed_end(s)) == trimmed_end(s),
    decreases s.len(),
{
    if s.len() > 0 && white_space(s.last()) {
        lemma_trimmed_end(s.drop_last());
    }
}

/// A trimmed text has no white space at either end, and trimming it again changes nothing.
pub proof fn law_trim_settles(s: Seq<char>)
    ensures
        trimmed(trimmed(s)) == trimmed(s),
        trimmed(s).len() > 0 ==> !white_space(trimmed(s)[0]) && !white_space(trimmed(s).last()),
{
    lemma_trimmed_start(s);
    lemma_trimmed_end(trimmed_start(s));
}

/// A text without white space at either end is already trimmed.
pub proof fn lemma_trimmed_already(s: Seq<char>)
    requires
        s.len() > 0,
        !white_space(s[0]),
        !white_space(s.last()),
    ensures
        trimmed(s) == s,
{
}

/// A number that is written out reads back, its last character is its last digit, and it has no
/// leading zero.
pub proof fn law_number_reads_back(n: nat)
    ensures
        digits_value(decimal(n)) == Some(n),
        decimal(n).last() as int == 48 + n % 10,
        n > 0 ==> decimal(n)[0] != '0',
        n < 10 <==> decimal(n).len() == 1,
    decreases n,
{
    lemma_decimal_digits(n);
    lemma_digits_of_decimal(n);
    if n >= 10 {
        law_number_reads_back(n / 10);
    }
}

/// A digit behind a number makes it ten times as large and adds the digit.
pub proof fn law_digits_count_by_tens(s: Seq<char>, d: char)
    ensures
        digits_value(Seq::<char>::empty()) == Some(0nat),
        digits_value(s.push(d)) is Some <==> digits_value(s) is Some && '0' <= d <= '9',
        digits_value(s.push(d)) is Some ==> digits_value(s.push(d))->0 == 10 * digits_value(s)->0 + (
        d as int - 48),
{
    assert(s.push(d).drop_last() =~= s);
}

/// A number below zero is written as its opposite behind a minus sign.
pub proof fn law_minus_sign(n: nat)
    ensures
        decimal_int(n as int) == decimal(n),
        n > 0 ==> decimal_int(-n) == seq!['-'] + decimal_int(n as int),
{
}

proof fn lemma_start_cut(s: Seq<char>) -> (from: int)
    ensures
        0 <= from <= s.len(),
        trimmed_start(s) == s.skip(from),
        forall|k: int| 0 <= k < from ==> white_space(#[trigger] s[k]),
    decreases s.len(),
{
    if s.len() > 0 && white_space(s[0]) {
        let rest = s.drop_first();
        let from = lemma_start_cut(rest);
        assert(rest.skip(from) =~= s.skip(from + 1));
        assert forall|k: int| 0 <= k < from + 1 implies white_space(#[trigger] s[k]) by {
            if k > 0 {
                assert(rest[k - 1] == s[k]);
            }
        }
        from + 1
    } else {
        assert(s.skip(0) =~= s);
        0
    }
}

proof fn lemma_end_cut(s: Seq<char>) -> (to: int)
    ensures
        0 <= to <= s.len(),
        trimmed_end(s) == s.take(to),
        forall|k: int| to <= k < s.len() ==> white_space(#[trigger] s[k]),
    decreases s.len(),
{
    if s.len() > 0 && white_space(s.last()) {
        let rest = s.drop_last();
        let to = lemma_end_cut(rest);
        assert(rest.take(to) =~= s.take(to));
        assert forall|k: int| to <= k < s.len() implies white_space(#[trigger] s[k]) by {
            if k < rest.len() {
                assert(rest[k] == s[k]);
            }
        }
        to
    } else {
        assert(s.take(s.len() as int) =~= s);
        s.len() as int
    }
}

/// Trimming cuts off nothing but white space at the two ends: what is left stands in the text in
/// one piece, and every character outside it is white space.
pub proof fn law_trim_cuts_only_white_space(s: Seq<char>)
    ensures
        exists|from: int, to: int|
            #![trigger s.subrange(from, to)]
            0 <= from <= to <= s.len() && trimmed(s) == s.subrange(from, to) && forall|k: int|
                0 <= k < s.len() && !(from <= k < to) ==> white_space(#[trigger] s[k]),
{
    let from = lemma_start_cut(s);
    let rest = s.skip(from);
    let to = lemma_end_cut(rest);
    assert(rest.take(to) =~= s.subrange(from, from + to));
    assert forall|k: int| 0 <= k < s.len() && !(from <= k < from + to) implies white_space(
        #[trigger] s[k],
    ) by {
        if k >= from {
            assert(rest[k - from] == s[k]);
        }
    }
}

/// Blanks, tabs and line breaks are white space; what an address is written with is not. Beyond
/// ASCII there are nineteen characters more.
pub proof fn law_addresses_have_no_white_space(c: char)
    ensures
        c == ' ' || c == '\t' || c == '\n' || c == '\r' ==> white_space(c),
        '!' <= c <= '~' ==> !white_space(c),
        c <= '~' ==> (white_space(c) <==> c == ' ' || '\t' <= c <= '\r'),
        c > '~' ==> (white_space(c) <==> c == '\u{85}' || c == '\u{a0}' || c == '\u{1680}'
            || '\u{2000}' <= c <= '\u{200a}' || c == '\u{2028}' || c == '\u{2029}' || c
            == '\u{202f}' || c == '\u{205f}' || c == '\u{3000}'),
{
}

/// A port is a number below 65,536, with or without a plus sign.
pub proof fn law_port_is_a_number(s: Seq<char>)
    ensures
        port_value(s) matches Some(n) ==> digits_value(s) == Some(n as nat) || digits_value(
            s.drop_first(),
        ) == Some(n as nat) && s[0] == '+',
        s.len() > 0 && digits_value(s) is Some && s[0] != '+' ==> (port_value(s) is Some
            <==> digits_value(s)->0 <= 65_535),
        s.len() > 0 && s[0] != '+' ==> port_value(seq!['+'] + s) == port_value(s),
        port_value(Seq::<char>::empty()) is None,
{
    assert((seq!['+'] + s).drop_first() =~= s);
}

} // verus!
