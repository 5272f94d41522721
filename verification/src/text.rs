use vstd::prelude::*;

use vstd::string::StrSliceExecFns;

use crate::layout::{char_is_whitespace, is_whitespace};

verus! {

/// Appends a character to a string: std's `String::push` adds `c` at the end.
#[verifier::external_body]
pub(crate) fn push_char(s: &mut String, c: char)
    ensures
        final(s)@ == old(s)@.push(c),
{
    s.push(c);
}

/// The characters of a string, in order.
pub fn chars_of(s: &str) -> (chars: Vec<char>)
    ensures
        chars@ == s@,
{
    let n = s.unicode_len();
    let mut chars: Vec<char> = Vec::new();
    for i in 0..n
        invariant
            n == s@.len(),
            chars@ == s@.take(i as int),
    {
        chars.push(s.get_char(i));
        assert(chars@ =~= s@.take(i + 1));
    }
    assert(s@.take(n as int) =~= s@);
    chars
}

/// The string of the characters `from..to` of `chars`.
pub fn string_of(chars: &Vec<char>, from: usize, to: usize) -> (s: String)
    requires
        from <= to <= chars@.len(),
    ensures
        s@ == chars@.subrange(from as int, to as int),
{
    let mut s = String::new();
    for i in from..to
        invariant
            from <= to <= chars@.len(),
            s@ == chars@.subrange(from as int, i as int),
    {
        push_char(&mut s, chars[i]);
        assert(s@ =~= chars@.subrange(from as int, i + 1));
    }
    s
}

/// `s` without its leading whitespace.
pub open spec fn trim_start(s: Seq<char>) -> Seq<char>
    decreases s.len(),
{
    if s.len() > 0 && is_whitespace(s[0]) {
        trim_start(s.skip(1))
    } else {
        s
    }
}

/// `s` without its trailing whitespace.
pub open spec fn trim_end(s: Seq<char>) -> Seq<char>
    decreases s.len(),
{
    if s.len() > 0 && is_whitespace(s.last()) {
        trim_end(s.drop_last())
    } else {
        s
    }
}

/// `s` without leading and trailing whitespace.
pub open spec fn trim(s: Seq<char>) -> Seq<char> {
    trim_end(trim_start(s))
}

/// `s` without the copies of `c` it starts with.
pub open spec fn strip_start(s: Seq<char>, c: char) -> Seq<char>
    decreases s.len(),
{
    if s.len() > 0 && s[0] == c {
        strip_start(s.skip(1), c)
    } else {
        s
    }
}

/// `s` without the copies of `c` it ends with.
pub open spec fn strip_end(s: Seq<char>, c: char) -> Seq<char>
    decreases s.len(),
{
    if s.len() > 0 && s.last() == c {
        strip_end(s.drop_last(), c)
    } else {
        s
    }
}

/// The range of `chars[from..to]` left once its leading and trailing
/// whitespace is dropped.
pub fn trim_range(chars: &Vec<char>, from: usize, to: usize) -> (range: (usize, usize))
    requires
        from <= to <= chars@.len(),
    ensures
        from <= range.0 <= range.1 <= to,
        chars@.subrange(range.0 as int, range.1 as int) == trim(chars@.subrange(from as int, to as int)),
{
    let mut lo = from;
    while lo < to && char_is_whitespace(chars[lo])
        invariant
            from <= lo <= to <= chars@.len(),
            trim_start(chars@.subrange(from as int, to as int)) == trim_start(chars@.subrange(lo as int, to as int)),
        decreases to - lo,
    {
        assert(chars@.subrange(lo as int, to as int).skip(1) =~= chars@.subrange(lo + 1, to as int));
        lo = lo + 1;
    }
    let ghost started = chars@.subrange(lo as int, to as int);
    assert(trim_start(started) == started);
    let mut hi = to;
    while hi > lo && char_is_whitespace(chars[hi - 1])
        invariant
            from <= lo <= hi <= to <= chars@.len(),
            trim_end(started) == trim_end(chars@.subrange(lo as int, hi as int)),
        decreases hi - lo,
    {
        assert(chars@.subrange(lo as int, hi as int).drop_last() =~= chars@.subrange(lo as int, hi - 1));
        hi = hi - 1;
    }
    (lo, hi)
}

/// The range of `chars[from..to]` left once the copies of `c` it starts
/// with and those it ends with are dropped.
pub fn strip_range(chars: &Vec<char>, from: usize, to: usize, first: char, last: char) -> (range: (usize, usize))
    requires
        from <= to <= chars@.len(),
    ensures
        from <= range.0 <= range.1 <= to,
        chars@.subrange(range.0 as int, range.1 as int) == strip_end(strip_start(chars@.subrange(from as int, to as int), first), last),
{
    let mut lo = from;
    while lo < to && chars[lo] == first
        invariant
            from <= lo <= to <= chars@.len(),
            strip_start(chars@.subrange(from as int, to as int), first) == strip_start(chars@.subrange(lo as int, to as int), first),
        decreases to - lo,
    {
        assert(chars@.subrange(lo as int, to as int).skip(1) =~= chars@.subrange(lo + 1, to as int));
        lo = lo + 1;
    }
    let ghost started = chars@.subrange(lo as int, to as int);
    assert(strip_start(started, first) == started);
    let mut hi = to;
    while hi > lo && chars[hi - 1] == last
        invariant
            from <= lo <= hi <= to <= chars@.len(),
            strip_end(started, last) == strip_end(chars@.subrange(lo as int, hi as int), last),
        decreases hi - lo,
    {
        assert(chars@.subrange(lo as int, hi as int).drop_last() =~= chars@.subrange(lo as int, hi - 1));
        hi = hi - 1;
    }
    (lo, hi)
}

/// How many times `c` occurs in `s`.
pub open spec fn count_char(s: Seq<char>, c: char) -> nat
    decreases s.len(),
{
    if s.len() == 0 {
        0
    } else {
        count_char(s.drop_last(), c) + if s.last() == c {
            1nat
        } else {
            0nat
        }
    }
}

/// The index of the first `c` in `s`, or -1.
pub open spec fn index_of_char(s: Seq<char>, c: char) -> int
    decreases s.len(),
{
    if s.len() == 0 {
        -1
    } else if index_of_char(s.drop_last(), c) >= 0 {
        index_of_char(s.drop_last(), c)
    } else if s.last() == c {
        s.len() - 1
    } else {
        -1
    }
}

/// `c` occurs in `s` exactly when it has a first index, which lies in `s`
/// and holds `c`.
pub proof fn lemma_index_of_char(s: Seq<char>, c: char)
    ensures
        count_char(s, c) > 0 <==> index_of_char(s, c) >= 0,
        index_of_char(s, c) < s.len(),
        index_of_char(s, c) >= 0 ==> s[index_of_char(s, c)] == c,
    decreases s.len(),
{
    if s.len() > 0 {
        lemma_index_of_char(s.drop_last(), c);
    }
}

/// Counts the `c` in `chars[from..to]` and finds the first one, as an index
/// into `chars`.
pub fn find_char(chars: &Vec<char>, from: usize, to: usize, c: char) -> (found: (usize, Option<usize>))
    requires
        from <= to <= chars@.len(),
    ensures
        found.0 == count_char(chars@.subrange(from as int, to as int), c),
        index_of_char(chars@.subrange(from as int, to as int), c) < 0 <==> found.1 is None,
        found.1 matches Some(i) ==> from <= i < to && i - from == index_of_char(
            chars@.subrange(from as int, to as int),
            c,
        ),
{
    let mut count: usize = 0;
    let mut first: Option<usize> = None;
    for i in from..to
        invariant
            from <= to <= chars@.len(),
            count <= i - from,
            count == count_char(chars@.subrange(from as int, i as int), c),
            index_of_char(chars@.subrange(from as int, i as int), c) < 0 <==> first is None,
            first matches Some(j) ==> from <= j < i && j - from == index_of_char(
                chars@.subrange(from as int, i as int),
                c,
            ),
    {
        assert(chars@.subrange(from as int, i + 1).drop_last() =~= chars@.subrange(from as int, i as int));
        if chars[i] == c {
            count = count + 1;
            if first.is_none() {
                first = Some(i);
            }
        }
    }
    (count, first)
}

/// A decimal digit.
pub open spec fn is_digit(c: char) -> bool {
    '0' <= c <= '9'
}

/// The number that a string of decimal digits writes.
pub open spec fn digits_value(s: Seq<char>) -> nat
    decreases s.len(),
{
    if s.len() == 0 {
        0
    } else {
        digits_value(s.drop_last()) * 10 + (s.last() as nat - '0' as nat) as nat
    }
}

/// The number that `s` writes as an unsigned decimal: digits, after an
/// optional `+`, at least one of them.
pub open spec fn unsigned_value(s: Seq<char>) -> Option<nat> {
    let body = without_plus(s);
    if body.len() > 0 && all_digits(body) {
        Some(digits_value(body))
    } else {
        None
    }
}

/// `s` without one leading `+`, if it has one.
pub open spec fn without_plus(s: Seq<char>) -> Seq<char> {
    if s.len() > 0 && s[0] == '+' {
        s.skip(1)
    } else {
        s
    }
}

/// Every character of `s` is a decimal digit.
pub open spec fn all_digits(s: Seq<char>) -> bool {
    forall|i: int| 0 <= i < s.len() ==> is_digit(#[trigger] s[i])
}

/// What parsing `s` as an unsigned integer no larger than `max` gives.
pub open spec fn parse_unsigned(s: Seq<char>, max: nat) -> Option<nat> {
    match unsigned_value(s) {
        Some(v) => if v <= max {
            Some(v)
        } else {
            None
        },
        None => None,
    }
}

/// A longer string of digits writes a number at least as large.
proof fn lemma_digits_value_grows(s: Seq<char>, k: int)
    requires
        0 <= k <= s.len(),
        forall|i: int| 0 <= i < s.len() ==> is_digit(#[trigger] s[i]),
    ensures
        digits_value(s.take(k)) <= digits_value(s),
    decreases s.len() - k,
{
    if k < s.len() {
        assert(s.take(k + 1).drop_last() =~= s.take(k));
        assert(is_digit(s[k]));
        lemma_digits_value_grows(s, k + 1);
    } else {
        assert(s.take(k) =~= s);
    }
}

/// Parses `chars[from..to]` as an unsigned decimal no larger than `max`.
pub fn parse_unsigned_range(chars: &Vec<char>, from: usize, to: usize, max: usize) -> (res: Option<usize>)
    requires
        from <= to <= chars@.len(),
    ensures
        res is Some <==> parse_unsigned(chars@.subrange(from as int, to as int), max as nat) is Some,
        res matches Some(v) ==> parse_unsigned(chars@.subrange(from as int, to as int), max as nat) == Some(
            v as nat,
        ),
{
    let ghost s = chars@.subrange(from as int, to as int);
    let start = if from < to && chars[from] == '+' {
        from + 1
    } else {
        from
    };
    let ghost body = chars@.subrange(start as int, to as int);
    assert(body =~= without_plus(s));
    if start == to {
        return None;
    }
    let mut i = start;
    while i < to
        invariant
            from <= start <= i <= to <= chars@.len(),
            s == chars@.subrange(from as int, to as int),
            body == chars@.subrange(start as int, to as int),
            body == without_plus(s),
            forall|j: int| start <= j < i ==> is_digit(#[trigger] chars@[j]),
        decreases to - i,
    {
        if !('0' <= chars[i] && chars[i] <= '9') {
            assert(body[i - start] == chars@[i as int]);
            assert(!is_digit(body[i - start]));
            return None;
        }
        i = i + 1;
    }
    assert forall|j: int| 0 <= j < body.len() implies is_digit(#[trigger] body[j]) by {
        assert(body[j] == chars@[start + j]);
    }
    let mut value: usize = 0;
    let mut i = start;
    while i < to
        invariant
            from <= start <= i <= to <= chars@.len(),
            s == chars@.subrange(from as int, to as int),
            body == chars@.subrange(start as int, to as int),
            body == without_plus(s),
            body.len() > 0,
            forall|j: int| 0 <= j < body.len() ==> is_digit(#[trigger] body[j]),
            value == digits_value(body.take(i - start)),
            value <= max,
        decreases to - i,
    {
        assert(body.take(i + 1 - start).drop_last() =~= body.take(i - start));
        assert(body[i - start] == chars@[i as int]);
        assert(is_digit(body[i - start]));
        let digit = ((chars[i] as u32) - ('0' as u32)) as usize;
        let next = match value.checked_mul(10) {
            Some(tens) => tens.checked_add(digit),
            None => None,
        };
        match next {
            Some(v) => {
                if v > max {
                    proof {
                        lemma_digits_value_grows(body, i + 1 - start);
                    }
                    return None;
                }
                value = v;
            },
            None => {
                proof {
                    lemma_digits_value_grows(body, i + 1 - start);
                }
                return None;
            },
        }
        i = i + 1;
    }
    assert(body.take(to - start) =~= body);
    Some(value)
}

/// The character of a decimal digit.
pub open spec fn digit_char(d: nat) -> char {
    if d == 0 {
        '0'
    } else if d == 1 {
        '1'
    } else if d == 2 {
        '2'
    } else if d == 3 {
        '3'
    } else if d == 4 {
        '4'
    } else if d == 5 {
        '5'
    } else if d == 6 {
        '6'
    } else if d == 7 {
        '7'
    } else if d == 8 {
        '8'
    } else {
        '9'
    }
}

/// `n` written in decimal, as `{}` formats an unsigned integer: its digits,
/// most significant first, with no leading zero (`0` is written `0`).
pub open spec fn decimal(n: nat) -> Seq<char>
    decreases n,
{
    if n < 10 {
        seq![digit_char(n)]
    } else {
        decimal(n / 10).push(digit_char(n % 10))
    }
}

/// A decimal numeral is a non-empty string of digits that writes `n`.
pub proof fn lemma_decimal(n: nat)
    ensures
        decimal(n).len() >= 1,
        all_digits(decimal(n)),
        digits_value(decimal(n)) == n,
    decreases n,
{
    if n < 10 {
        let s = decimal(n);
        assert(s.drop_last() =~= Seq::<char>::empty());
        assert(s.last() == digit_char(n));
        assert(digit_char(n) as nat - '0' as nat == n);
        assert(is_digit(s[0]));
        assert(digits_value(s.drop_last()) == 0);
        assert(digits_value(s) == n);
    } else {
        lemma_decimal(n / 10);
        let s = decimal(n);
        assert(s.drop_last() =~= decimal(n / 10));
        assert(s.last() == digit_char((n % 10) as nat));
        assert(digit_char((n % 10) as nat) as nat - '0' as nat == n % 10);
        assert(n == (n / 10) * 10 + n % 10) by (nonlinear_arith);
        assert(digits_value(s) == digits_value(decimal(n / 10)) * 10 + (s.last() as nat - '0' as nat) as nat);
        assert(digits_value(s) == n);
    }
}

/// Parsing a decimal numeral gives back its number, as long as it is no
/// larger than the largest allowed.
pub proof fn lemma_decimal_parses_back(n: nat, max: nat)
    requires
        n <= max,
    ensures
        parse_unsigned(decimal(n), max) == Some(n),
{
    lemma_decimal(n);
    assert(without_plus(decimal(n)) == decimal(n)) by {
        assert(is_digit(decimal(n)[0]));
    }
}

/// A string that starts and ends with characters other than whitespace is
/// its own trim.
pub proof fn lemma_trim_solid(s: Seq<char>)
    requires
        s.len() > 0,
        !is_whitespace(s[0]),
        !is_whitespace(s.last()),
    ensures
        trim(s) == s,
{
}

/// A string without `c` has no `c` to count or find.
pub proof fn lemma_no_char(s: Seq<char>, c: char)
    requires
        forall|i: int| 0 <= i < s.len() ==> #[trigger] s[i] != c,
    ensures
        count_char(s, c) == 0,
        index_of_char(s, c) == -1,
    decreases s.len(),
{
    if s.len() > 0 {
        lemma_no_char(s.drop_last(), c);
    }
}

/// A string with `c` only at `k` counts one `c` and finds it at `k`.
pub proof fn lemma_one_char(s: Seq<char>, c: char, k: int)
    requires
        0 <= k < s.len(),
        s[k] == c,
        forall|i: int| 0 <= i < s.len() && i != k ==> #[trigger] s[i] != c,
    ensures
        count_char(s, c) == 1,
        index_of_char(s, c) == k,
    decreases s.len(),
{
    if k == s.len() - 1 {
        lemma_no_char(s.drop_last(), c);
    } else {
        lemma_one_char(s.drop_last(), c, k);
    }
}

} // verus!
