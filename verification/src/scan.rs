//! Reading words and numbers out of tool output.

use vstd::prelude::*;
use vstd::slice::slice_subrange;
use vstd::string::*;

verus! {

/// White space as Unicode defines it.
pub open spec fn is_space(c: char) -> bool {
    ||| '\u{9}' <= c <= '\u{d}'
    ||| c == '\u{20}'
    ||| c == '\u{85}'
    ||| c == '\u{a0}'
    ||| c == '\u{1680}'
    ||| '\u{2000}' <= c <= '\u{200a}'
    ||| c == '\u{2028}'
    ||| c == '\u{2029}'
    ||| c == '\u{202f}'
    ||| c == '\u{205f}'
    ||| c == '\u{3000}'
}

/// The first position from `from` on that holds `c`, or the end.
pub open spec fn next_at(s: Seq<char>, c: char, from: int) -> int
    decreases s.len() - from,
{
    if from >= s.len() {
        s.len() as int
    } else if s[from] == c {
        from
    } else {
        next_at(s, c, from + 1)
    }
}

/// The text before the first line break.
pub open spec fn first_line(s: Seq<char>) -> Seq<char> {
    let end = next_at(s, '\n', 0);
    if 0 < end < s.len() && s[end - 1] == '\r' {
        s.subrange(0, end - 1)
    } else {
        s.subrange(0, end)
    }
}

/// The text behind the first line break.
pub open spec fn after_line(s: Seq<char>) -> Seq<char> {
    let end = next_at(s, '\n', 0);
    if end < s.len() {
        s.subrange(end + 1, s.len() as int)
    } else {
        Seq::empty()
    }
}

/// `s` without white space at its ends.
pub open spec fn trimmed(s: Seq<char>) -> Seq<char>
    decreases s.len(),
{
    if s.len() == 0 {
        s
    } else if is_space(s[0]) {
        trimmed(s.subrange(1, s.len() as int))
    } else if is_space(s[s.len() - 1]) {
        trimmed(s.subrange(0, s.len() - 1))
    } else {
        s
    }
}

pub open spec fn begins_with(s: Seq<char>, part: Seq<char>) -> bool {
    part.len() <= s.len() && s.subrange(0, part.len() as int) == part
}

/// `part` stands somewhere in `s`.
pub open spec fn mentions(s: Seq<char>, part: Seq<char>) -> bool {
    exists|i: int| 0 <= i <= s.len() - part.len() && #[trigger] s.subrange(i, i + part.len()) == part
}

/// `s` from its first character on that is no white space.
pub open spec fn skip_space(s: Seq<char>) -> Seq<char>
    decreases s.len(),
{
    if s.len() > 0 && is_space(s[0]) {
        skip_space(s.subrange(1, s.len() as int))
    } else {
        s
    }
}

/// How many characters stand before the first white space.
pub open spec fn word_len(s: Seq<char>, from: int) -> int
    decreases s.len() - from,
{
    if from >= s.len() || is_space(s[from]) {
        from
    } else {
        word_len(s, from + 1)
    }
}

/// The first word; empty where there is none.
pub open spec fn first_word(s: Seq<char>) -> Seq<char> {
    let t = skip_space(s);
    t.subrange(0, word_len(t, 0))
}

/// The text behind the first word.
pub open spec fn after_word(s: Seq<char>) -> Seq<char> {
    let t = skip_space(s);
    t.subrange(word_len(t, 0), t.len() as int)
}

pub open spec fn is_digit(c: char) -> bool {
    '0' <= c <= '9'
}

/// The number that a run of digits stands for.
pub open spec fn digits_value(s: Seq<char>) -> nat
    decreases s.len(),
{
    if s.len() == 0 {
        0
    } else {
        digits_value(s.subrange(0, s.len() - 1)) * 10 + (s[s.len() - 1] as nat - '0' as nat) as nat
    }
}

/// `s` without a leading plus sign.
pub open spec fn unsigned(s: Seq<char>) -> Seq<char> {
    if s.len() > 0 && s[0] == '+' {
        s.subrange(1, s.len() as int)
    } else {
        s
    }
}

pub open spec fn all_digits(s: Seq<char>) -> bool {
    forall|i: int| 0 <= i < s.len() ==> is_digit(#[trigger] s[i])
}

/// What a numeral behind an optional plus sign stands for, where it is at most `max`.
pub open spec fn numeral(s: Seq<char>, max: nat) -> Option<nat> {
    if unsigned(s).len() > 0 && all_digits(unsigned(s)) && digits_value(unsigned(s)) <= max {
        Some(digits_value(unsigned(s)))
    } else {
        None
    }
}

/// Longer runs of digits stand for no smaller numbers.
proof fn lemma_digits_monotone(s: Seq<char>, n: int)
    requires
        0 <= n <= s.len(),
    ensures
        digits_value(s.subrange(0, n)) <= digits_value(s),
    decreases s.len(),
{
    if n < s.len() {
        let shorter = s.subrange(0, s.len() - 1);
        lemma_digits_monotone(shorter, n);
        assert(shorter.subrange(0, n) =~= s.subrange(0, n));
    } else {
        assert(s.subrange(0, n) =~= s);
    }
}

pub fn is_space_char(c: char) -> (r: bool)
    ensures
        r == is_space(c),
{
    ('\u{9}' <= c && c <= '\u{d}') || c == '\u{20}' || c == '\u{85}' || c == '\u{a0}' || c
        == '\u{1680}' || ('\u{2000}' <= c && c <= '\u{200a}') || c == '\u{2028}' || c == '\u{2029}'
        || c == '\u{202f}' || c == '\u{205f}' || c == '\u{3000}'
}

/// The characters of a text.
pub fn characters(text: &str) -> (r: Vec<char>)
    ensures
        r@ == text@,
{
    let n: usize = text.unicode_len();
    let mut r: Vec<char> = Vec::new();
    let mut i: usize = 0;
    while i < n
        invariant
            i <= n,
            n == text@.len(),
            r@ == text@.subrange(0, i as int),
        decreases n - i,
    {
        r.push(text.get_char(i));
        assert(r@ =~= text@.subrange(0, i + 1));
        i = i + 1;
    }
    assert(text@.subrange(0, n as int) =~= text@);
    r
}

pub fn find_char(s: &[char], c: char, from: usize) -> (r: usize)
    requires
        from <= s@.len(),
    ensures
        r == next_at(s@, c, from as int),
        from <= r <= s@.len(),
{
    let mut i: usize = from;
    while i < s.len() && s[i] != c
        invariant
            from <= i <= s@.len(),
            next_at(s@, c, from as int) == next_at(s@, c, i as int),
        decreases s@.len() - i,
    {
        i = i + 1;
    }
    i
}

/// Where the trimmed text begins and ends.
pub fn trim_range(s: &[char]) -> (r: (usize, usize))
    ensures
        r.0 <= r.1 <= s@.len(),
        s@.subrange(r.0 as int, r.1 as int) == trimmed(s@),
{
    let mut a: usize = 0;
    let mut b: usize = s.len();
    assert(s@.subrange(0, b as int) =~= s@);
    while a < b && is_space_char(s[a])
        invariant
            a <= b <= s@.len(),
            b == s@.len(),
            trimmed(s@.subrange(a as int, b as int)) == trimmed(s@),
        decreases b - a,
    {
        proof {
            let here = s@.subrange(a as int, b as int);
            assert(here[0] == s@[a as int]);
            assert(here.subrange(1, here.len() as int) =~= s@.subrange(a + 1, b as int));
        }
        a = a + 1;
    }
    while a < b && is_space_char(s[b - 1])
        invariant
            a <= b <= s@.len(),
            a < b ==> !is_space(s@[a as int]),
            trimmed(s@.subrange(a as int, b as int)) == trimmed(s@),
        decreases b - a,
    {
        proof {
            let here = s@.subrange(a as int, b as int);
            assert(here[0] == s@[a as int]);
            assert(here[here.len() - 1] == s@[b - 1]);
            assert(here.subrange(0, here.len() - 1) =~= s@.subrange(a as int, b - 1));
        }
        b = b - 1;
    }
    proof {
        let here = s@.subrange(a as int, b as int);
        if a < b {
            assert(here[0] == s@[a as int]);
            assert(here[here.len() - 1] == s@[b - 1]);
        }
    }
    (a, b)
}

/// Whether `part` stands at position `at`.
fn stands_at(s: &[char], part: &[char], at: usize) -> (r: bool)
    requires
        at + part@.len() <= s@.len(),
    ensures
        r == (s@.subrange(at as int, at + part@.len()) == part@),
{
    let ghost here = s@.subrange(at as int, at + part@.len());
    let n: usize = s.len();
    let mut i: usize = 0;
    while i < part.len()
        invariant
            i <= part@.len(),
            at + part@.len() <= n,
            n == s@.len(),
            here == s@.subrange(at as int, at + part@.len()),
            forall|j: int| 0 <= j < i ==> #[trigger] here[j] == part@[j],
        decreases part@.len() - i,
    {
        if s[at + i] != part[i] {
            assert(here[i as int] != part@[i as int]);
            return false;
        }
        i = i + 1;
    }
    assert(here =~= part@);
    true
}

pub fn starts_with_text(s: &[char], part: &[char]) -> (r: bool)
    ensures
        r == begins_with(s@, part@),
{
    if part.len() > s.len() {
        return false;
    }
    stands_at(s, part, 0)
}

pub fn contains_text(s: &[char], part: &[char]) -> (r: bool)
    ensures
        r == mentions(s@, part@),
{
    if part.len() > s.len() {
        return false;
    }
    let last: usize = s.len() - part.len();
    let mut at: usize = 0;
    loop
        invariant
            at <= last,
            last == s@.len() - part@.len(),
            forall|i: int| 0 <= i < at ==> #[trigger] s@.subrange(i, i + part@.len()) != part@,
        decreases last - at,
    {
        if stands_at(s, part, at) {
            return true;
        }
        if at == last {
            return false;
        }
        at = at + 1;
    }
}

/// The first word and the text behind it.
pub fn split_word(s: &[char]) -> (r: (&[char], &[char]))
    ensures
        r.0@ == first_word(s@),
        r.1@ == after_word(s@),
{
    let mut a: usize = 0;
    assert(s@.subrange(0, s@.len() as int) =~= s@);
    while a < s.len() && is_space_char(s[a])
        invariant
            a <= s@.len(),
            skip_space(s@.subrange(a as int, s@.len() as int)) == skip_space(s@),
        decreases s@.len() - a,
    {
        proof {
            let here = s@.subrange(a as int, s@.len() as int);
            assert(here[0] == s@[a as int]);
            assert(here.subrange(1, here.len() as int) =~= s@.subrange(a + 1, s@.len() as int));
        }
        a = a + 1;
    }
    let t = slice_subrange(s, a, s.len());
    proof {
        if a < s@.len() {
            assert(t@[0] == s@[a as int]);
        }
        assert(t@ == skip_space(s@));
    }
    let mut b: usize = 0;
    while b < t.len() && !is_space_char(t[b])
        invariant
            b <= t@.len(),
            word_len(t@, 0) == word_len(t@, b as int),
        decreases t@.len() - b,
    {
        b = b + 1;
    }
    (slice_subrange(t, 0, b), slice_subrange(t, b, t.len()))
}

/// Reads a numeral that is at most `max`.
pub fn parse_number(s: &[char], max: u64) -> (r: Option<u64>)
    ensures
        match r {
            Some(n) => numeral(s@, max as nat) == Some(n as nat),
            None => numeral(s@, max as nat) is None,
        },
{
    let digits = if s.len() > 0 && s[0] == '+' {
        slice_subrange(s, 1, s.len())
    } else {
        s
    };
    if digits.len() == 0 {
        return None;
    }
    let mut n: u64 = 0;
    let mut i: usize = 0;
    while i < digits.len()
        invariant
            i <= digits@.len(),
            digits@ == unsigned(s@),
            n == digits_value(digits@.subrange(0, i as int)),
            n <= max,
            forall|j: int| 0 <= j < i ==> is_digit(#[trigger] digits@[j]),
        decreases digits@.len() - i,
    {
        let c: char = digits[i];
        if c < '0' || c > '9' {
            assert(!is_digit(digits@[i as int]));
            return None;
        }
        let d: u64 = c as u64 - 48;
        proof {
            let more = digits@.subrange(0, i + 1);
            assert(more.subrange(0, i as int) =~= digits@.subrange(0, i as int));
            assert(more[more.len() - 1] == c);
            assert(digits_value(more) == n * 10 + d);
            lemma_digits_monotone(digits@, i + 1);
        }
        if d > max || n > (max - d) / 10 {
            return None;
        }
        n = n * 10 + d;
        i = i + 1;
    }
    assert(digits@.subrange(0, digits@.len() as int) =~= digits@);
    Some(n)
}

} // verus!
