//! Decimal text of `u32` values and character-sequence helpers.

use vstd::prelude::*;

verus! {

/// The value of a decimal digit character.
pub open spec fn digit_value(c: char) -> nat {
    (c as nat - '0' as nat) as nat
}

/// Whether `c` is one of `'0'..='9'`.
pub open spec fn is_digit(c: char) -> bool {
    '0' <= c && c <= '9'
}

/// Whether every character of `d` is a decimal digit.
pub open spec fn all_digits(d: Seq<char>) -> bool {
    forall|i: int| 0 <= i < d.len() ==> is_digit(#[trigger] d[i])
}

/// The number that the digit string `d` denotes (most significant digit first).
pub open spec fn digits_value(d: Seq<char>) -> nat
    decreases d.len(),
{
    if d.len() == 0 {
        0
    } else {
        digits_value(d.drop_last()) * 10 + digit_value(d.last())
    }
}

/// What `<u32 as core::str::FromStr>::from_str` returns on `s`: an optional
/// `+` sign followed by one or more ASCII digits whose value fits in `u32`.
pub open spec fn spec_parse_u32(s: Seq<char>) -> Option<u32> {
    let d = if s.len() > 0 && s[0] == '+' { s.drop_first() } else { s };
    if d.len() > 0 && all_digits(d) && digits_value(d) <= u32::MAX {
        Some(digits_value(d) as u32)
    } else {
        None
    }
}

/// Whether `p` is a prefix of `s`.
pub open spec fn has_prefix(s: Seq<char>, p: Seq<char>) -> bool {
    p.len() <= s.len() && s.subrange(0, p.len() as int) == p
}

/// Tells whether the characters of `s` from position `start` on begin with `p`.
pub fn starts_with_at(s: &str, start: usize, p: &str) -> (r: bool)
    requires
        start <= s@.len(),
    ensures
        r == has_prefix(s@.skip(start as int), p@),
{
    let n = s.unicode_len();
    let m = p.unicode_len();
    if m > n - start {
        return false;
    }
    let mut i: usize = 0;
    while i < m
        invariant
            n == s@.len(),
            m == p@.len(),
            start <= n,
            m <= n - start,
            i <= m,
            forall|j: int| 0 <= j < i ==> s@[start + j] == p@[j],
        decreases m - i,
    {
        if s.get_char(start + i) != p.get_char(i) {
            assert(s@.skip(start as int).subrange(0, m as int)[i as int] != p@[i as int]);
            return false;
        }
        i = i + 1;
    }
    assert(s@.skip(start as int).subrange(0, m as int) =~= p@);
    true
}

/// The decimal text of `n`: its digits, most significant first, with no
/// sign and no leading zero.
pub open spec fn spec_decimal(n: nat) -> Seq<char>
    decreases n,
{
    if n < 10 {
        seq![digit_char(n)]
    } else {
        spec_decimal(n / 10).push(digit_char(n % 10))
    }
}

/// The character of the decimal digit `d` (for `d < 10`).
pub open spec fn digit_char(d: nat) -> char {
    (d + '0' as nat) as char
}

/// The character of a digit is a digit and denotes it.
proof fn lemma_digit_char(d: nat)
    requires
        d < 10,
    ensures
        is_digit(digit_char(d)),
        digit_value(digit_char(d)) == d,
{
    assert(digit_char(d) as nat == d + 48);
}

/// Reading a digit string one more character to the right.
proof fn lemma_digits_value_take(d: Seq<char>, i: int)
    requires
        0 <= i < d.len(),
    ensures
        digits_value(d.take(i + 1)) == digits_value(d.take(i)) * 10 + digit_value(d[i]),
{
    assert(d.take(i + 1).drop_last() =~= d.take(i));
}

/// A digit string denotes at least what any of its prefixes denotes.
proof fn lemma_digits_value_prefix(d: Seq<char>, i: int)
    requires
        0 <= i <= d.len(),
    ensures
        digits_value(d.take(i)) <= digits_value(d),
    decreases d.len(),
{
    if i == d.len() {
        assert(d.take(i) =~= d);
    } else {
        lemma_digits_value_prefix(d.drop_last(), i);
        assert(d.drop_last().take(i) =~= d.take(i));
    }
}

/// The decimal text of a number is a non-empty digit string that denotes it.
pub proof fn lemma_decimal_digits(n: nat)
    ensures
        spec_decimal(n).len() >= 1,
        all_digits(spec_decimal(n)),
        digits_value(spec_decimal(n)) == n,
    decreases n,
{
    lemma_digit_char(n % 10);
    let d = spec_decimal(n);
    if n < 10 {
        assert(d.drop_last() =~= Seq::<char>::empty());
        assert(d.last() == digit_char(n));
        assert(n % 10 == n);
        assert(digits_value(d) == digits_value(d.drop_last()) * 10 + digit_value(d.last()));
    } else {
        lemma_decimal_digits(n / 10);
        assert(d.drop_last() =~= spec_decimal(n / 10));
        assert(d.last() == digit_char(n % 10));
        assert(n == (n / 10) * 10 + n % 10);
        assert(digits_value(d) == digits_value(d.drop_last()) * 10 + digit_value(d.last()));
        assert forall|i: int| 0 <= i < d.len() implies is_digit(#[trigger] d[i]) by {
            if i < d.len() - 1 {
                assert(d[i] == spec_decimal(n / 10)[i]);
            }
        }
    }
}

/// Parsing the decimal text of a `u32` gives the value back.
pub proof fn lemma_parse_decimal(n: u32)
    ensures
        spec_parse_u32(spec_decimal(n as nat)) == Some(n),
{
    lemma_decimal_digits(n as nat);
    let d = spec_decimal(n as nat);
    assert(is_digit(d[0]));
}

/// `k` zero digits.
pub open spec fn zeros(k: nat) -> Seq<char> {
    Seq::new(k, |i: int| '0')
}

/// Leading zeros do not change what a digit string denotes.
proof fn lemma_leading_zeros(k: nat, x: Seq<char>)
    ensures
        digits_value(zeros(k) + x) == digits_value(x),
    decreases x.len(),
{
    if x.len() == 0 {
        assert(zeros(k) + x =~= zeros(k));
        lemma_zeros_value(k);
    } else {
        lemma_leading_zeros(k, x.drop_last());
        assert((zeros(k) + x).drop_last() =~= zeros(k) + x.drop_last());
        assert((zeros(k) + x).last() == x.last());
    }
}

/// A string of zeros denotes zero.
proof fn lemma_zeros_value(k: nat)
    ensures
        digits_value(zeros(k)) == 0,
    decreases k,
{
    if k > 0 {
        lemma_zeros_value((k - 1) as nat);
        assert(zeros(k).drop_last() =~= zeros((k - 1) as nat));
        assert(digit_value('0') == 0);
    }
}

/// Reading a `u32` accepts its decimal text with any number of leading
/// zeros, with or without a leading `+`, and gives the number.
pub proof fn lemma_parse_u32_accepts(plus: bool, k: nat, n: u32)
    ensures
        spec_parse_u32((if plus { seq!['+'] } else { Seq::empty() }) + zeros(k) + spec_decimal(n as nat)) == Some(n),
{
    let d = zeros(k) + spec_decimal(n as nat);
    let s = (if plus { seq!['+'] } else { Seq::empty() }) + d;
    lemma_decimal_digits(n as nat);
    lemma_leading_zeros(k, spec_decimal(n as nat));
    assert(all_digits(d)) by {
        assert forall|i: int| 0 <= i < d.len() implies is_digit(#[trigger] d[i]) by {
            if i >= k {
                assert(d[i] == spec_decimal(n as nat)[i - k]);
            }
        }
    }
    assert(s =~= (if plus { seq!['+'] } else { Seq::empty() }) + zeros(k) + spec_decimal(n as nat));
    if plus {
        assert(s[0] == '+');
        assert(s.drop_first() =~= d);
    } else {
        assert(s =~= d);
        assert(is_digit(d[0]));
    }
}

/// Reading a `u32` accepts nothing but an optional leading `+` followed by
/// one or more digits.
pub proof fn lemma_parse_u32_only_digits(s: Seq<char>)
    ensures
        spec_parse_u32(s) is Some ==> {
            &&& s.len() >= 1
            &&& s[0] == '+' ==> s.len() >= 2
            &&& forall|i: int| 0 <= i < s.len() ==> (i == 0 && s[i] == '+') || is_digit(#[trigger] s[i])
        },
{
    if spec_parse_u32(s) is Some && s.len() > 0 && s[0] == '+' {
        let d = s.drop_first();
        assert forall|i: int| 0 < i < s.len() implies is_digit(#[trigger] s[i]) by {
            assert(s[i] == d[i - 1]);
        }
    }
}

/// The text of the digit `d` as a one-character string.
fn digit_str(d: u32) -> (r: &'static str)
    requires
        d < 10,
    ensures
        r@ == seq![digit_char(d as nat)],
{
    proof {
        reveal_strlit("0");
        reveal_strlit("1");
        reveal_strlit("2");
        reveal_strlit("3");
        reveal_strlit("4");
        reveal_strlit("5");
        reveal_strlit("6");
        reveal_strlit("7");
        reveal_strlit("8");
        reveal_strlit("9");
    }
    match d {
        0 => "0",
        1 => "1",
        2 => "2",
        3 => "3",
        4 => "4",
        5 => "5",
        6 => "6",
        7 => "7",
        8 => "8",
        _ => "9",
    }
}

/// Appends the decimal text of `n` to `out`.
pub fn append_decimal(out: &mut String, n: u32)
    ensures
        final(out)@ == old(out)@ + spec_decimal(n as nat),
    decreases n,
{
    if n >= 10 {
        append_decimal(out, n / 10);
    }
    out.append(digit_str(n % 10));
    proof {
        if n >= 10 {
            assert(spec_decimal(n as nat) == spec_decimal((n / 10) as nat).push(digit_char((n % 10) as nat)));
        }
    }
}

/// Parses the characters of `s` from position `start` on as a `u32`, the way
/// `str::parse::<u32>` does: an optional `+`, then one or more ASCII digits,
/// and no overflow.
pub fn parse_u32_at(s: &str, start: usize) -> (r: Option<u32>)
    requires
        start <= s@.len(),
    ensures
        r == spec_parse_u32(s@.skip(start as int)),
{
    let n = s.unicode_len();
    let ghost t = s@.skip(start as int);
    let mut begin = start;
    if start < n && s.get_char(start) == '+' {
        begin = start + 1;
    }
    let ghost d = s@.skip(begin as int);
    assert(d =~= (if t.len() > 0 && t[0] == '+' { t.drop_first() } else { t }));
    if begin == n {
        return None;
    }
    let mut acc: u32 = 0;
    let mut i: usize = begin;
    while i < n
        invariant
            n == s@.len(),
            begin <= i <= n,
            begin < n,
            t == s@.skip(start as int),
            d == s@.skip(begin as int),
            d == (if t.len() > 0 && t[0] == '+' { t.drop_first() } else { t }),
            all_digits(d.take(i - begin)),
            acc as nat == digits_value(d.take(i - begin)),
        decreases n - i,
    {
        let c = s.get_char(i);
        let k: Ghost<int> = Ghost(i - begin);
        assert(d[k@] == c);
        if c < '0' || c > '9' {
            assert(!is_digit(d[k@]));
            return None;
        }
        proof {
            lemma_digits_value_take(d, k@);
        }
        let dv: u32 = (c as u32) - ('0' as u32);
        if acc > 429496729 || (acc == 429496729 && dv > 5) {
            proof {
                lemma_digits_value_prefix(d, k@ + 1);
                assert(digit_value(c) == dv);
                assert(digits_value(d.take(k@ + 1)) > u32::MAX);
            }
            return None;
        }
        acc = acc * 10 + dv;
        i = i + 1;
        assert(all_digits(d.take(i - begin))) by {
            assert forall|j: int| 0 <= j < i - begin implies is_digit(#[trigger] d.take(i - begin)[j]) by {
                if j < k@ {
                    assert(d.take(k@)[j] == d[j]);
                }
            }
        }
    }
    assert(d.take(n - begin) =~= d);
    Some(acc)
}

} // verus!
