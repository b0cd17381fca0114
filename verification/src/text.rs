//! Character-level helpers: string comparison, prefixes, and decimal numbers.

use vstd::prelude::*;

verus! {

/// The characters of an optional string.
pub open spec fn string_view(s: Option<String>) -> Option<Seq<char>> {
    match s {
        Some(s) => Some(s@),
        None => None,
    }
}

/// Whether `c` is one of the ASCII digits `0` to `9`.
pub open spec fn is_digit(c: char) -> bool {
    '0' <= c && c <= '9'
}

/// The number that the digit `c` stands for.
pub open spec fn digit_value(c: char) -> nat {
    (c as u32 - '0' as u32) as nat
}

/// Whether every character of `s` is an ASCII digit.
pub open spec fn all_digits(s: Seq<char>) -> bool {
    forall|i: int| 0 <= i < s.len() ==> is_digit(#[trigger] s[i])
}

/// The number written by the decimal digits `s`, most significant first.
/// The empty sequence stands for zero.
pub open spec fn digits_value(s: Seq<char>) -> nat
    decreases s.len(),
{
    if s.len() == 0 {
        0
    } else {
        10 * digits_value(s.drop_last()) + digit_value(s.last())
    }
}

/// Ten to the power `n`.
pub open spec fn pow10(n: nat) -> nat
    decreases n,
{
    if n == 0 {
        1
    } else {
        10 * pow10((n - 1) as nat)
    }
}

/// The digits of an unsigned number: `s` without one leading `+`, if it has one.
pub open spec fn without_plus(s: Seq<char>) -> Seq<char> {
    if s.len() > 0 && s[0] == '+' {
        s.drop_first()
    } else {
        s
    }
}

/// The unsigned number that `s` writes, if it writes one that is at most `max`:
/// an optional `+`, then one or more ASCII digits and nothing else.
pub open spec fn unsigned_value(s: Seq<char>, max: nat) -> Option<nat> {
    let digits = without_plus(s);
    if digits.len() > 0 && all_digits(digits) && digits_value(digits) <= max {
        Some(digits_value(digits))
    } else {
        None
    }
}

/// The position of the first `c` in `s`, or the length of `s` if it holds none.
pub open spec fn first_index(s: Seq<char>, c: char) -> int
    decreases s.len(),
{
    if s.len() == 0 {
        0
    } else if s[0] == c {
        0
    } else {
        1 + first_index(s.drop_first(), c)
    }
}

/// `first_index` is the least position that holds `c`.
pub proof fn lemma_first_index(s: Seq<char>, c: char)
    ensures
        0 <= first_index(s, c) <= s.len(),
        first_index(s, c) < s.len() ==> s[first_index(s, c)] == c,
        forall|j: int| 0 <= j < first_index(s, c) ==> s[j] != c,
    decreases s.len(),
{
    if s.len() > 0 && s[0] != c {
        let rest = s.drop_first();
        lemma_first_index(rest, c);
        assert forall|j: int| 0 <= j < first_index(s, c) implies s[j] != c by {
            if j > 0 {
                assert(s[j] == rest[j - 1]);
            }
        }
    }
}

/// A position that holds `c` and has no `c` before it is `first_index`.
pub proof fn lemma_first_index_is(s: Seq<char>, c: char, k: int)
    requires
        0 <= k <= s.len(),
        k < s.len() ==> s[k] == c,
        forall|j: int| 0 <= j < k ==> s[j] != c,
    ensures
        first_index(s, c) == k,
{
    lemma_first_index(s, c);
    let f = first_index(s, c);
    if f < k {
        assert(s[f] != c);
    }
}

/// A number written with digits only grows when more digits follow.
pub proof fn lemma_digits_value_prefix(s: Seq<char>, k: int)
    requires
        0 <= k <= s.len(),
    ensures
        digits_value(s.take(k)) <= digits_value(s),
    decreases s.len() - k,
{
    if k < s.len() {
        lemma_digits_value_prefix(s, k + 1);
        assert(s.take(k + 1).drop_last() =~= s.take(k));
    } else {
        assert(s.take(k) =~= s);
    }
}

/// The characters of `s`, in order.
pub fn chars_of(s: &str) -> (v: Vec<char>)
    ensures
        v@ == s@,
{
    broadcast use vstd::string::group_string_axioms;

    let mut v: Vec<char> = Vec::new();
    for c in it: s.chars()
        invariant
            it.seq() == s@,
            v@ == it.seq().take(it.index()),
    {
        v.push(c);
    }
    v
}

/// Whether `a` and `b` hold the same characters.
pub fn same_chars(a: &Vec<char>, b: &Vec<char>) -> (r: bool)
    ensures
        r == (a@ == b@),
{
    if a.len() != b.len() {
        return false;
    }
    let mut i: usize = 0;
    while i < a.len()
        invariant
            a.len() == b.len(),
            i <= a.len(),
            forall|j: int| 0 <= j < i ==> a@[j] == b@[j],
        decreases a.len() - i,
    {
        if a[i] != b[i] {
            return false;
        }
        i += 1;
    }
    assert(a@ =~= b@);
    true
}

/// Whether `s` begins with `prefix`.
pub fn starts_with(s: &str, prefix: &str) -> (r: bool)
    ensures
        r == prefix@.is_prefix_of(s@),
{
    let x = chars_of(s);
    let p = chars_of(prefix);
    if p.len() > x.len() {
        return false;
    }
    let mut i: usize = 0;
    while i < p.len()
        invariant
            p@ == prefix@,
            x@ == s@,
            p.len() <= x.len(),
            i <= p.len(),
            forall|j: int| 0 <= j < i ==> p@[j] == x@[j],
        decreases p.len() - i,
    {
        if p[i] != x[i] {
            assert(x@.subrange(0, p@.len() as int)[i as int] != p@[i as int]);
            return false;
        }
        i += 1;
    }
    assert(p@ =~= x@.subrange(0, p@.len() as int));
    true
}

/// Whether the characters of `s` from `start` up to `end` are all digits.
pub(crate) fn digits_only(s: &Vec<char>, start: usize, end: usize) -> (r: bool)
    requires
        start <= end <= s.len(),
    ensures
        r == all_digits(s@.subrange(start as int, end as int)),
{
    let ghost part = s@.subrange(start as int, end as int);
    let mut i: usize = start;
    while i < end
        invariant
            start <= i <= end <= s.len(),
            part == s@.subrange(start as int, end as int),
            forall|j: int| 0 <= j < i - start ==> is_digit(#[trigger] part[j]),
        decreases end - i,
    {
        let c = s[i];
        if !(c >= '0' && c <= '9') {
            assert(part[i - start] == c);
            return false;
        }
        i += 1;
    }
    true
}

/// The number written by the digits of `s` from `start` up to `end`,
/// or `None` if it does not fit in a `u64`.
pub(crate) fn digits_to_u64(s: &Vec<char>, start: usize, end: usize) -> (r: Option<u64>)
    requires
        start <= end <= s.len(),
        all_digits(s@.subrange(start as int, end as int)),
    ensures
        r == if digits_value(s@.subrange(start as int, end as int)) <= u64::MAX {
            Some(digits_value(s@.subrange(start as int, end as int)) as u64)
        } else {
            None
        },
{
    let ghost part = s@.subrange(start as int, end as int);
    let mut value: u64 = 0;
    let mut i: usize = start;
    assert(part.take(0) =~= Seq::<char>::empty());
    while i < end
        invariant
            start <= i <= end <= s.len(),
            part == s@.subrange(start as int, end as int),
            all_digits(part),
            value == digits_value(part.take(i - start)),
        decreases end - i,
    {
        let c = s[i];
        assert(part[i - start] == c);
        assert(is_digit(c));
        let d: u64 = (c as u32 - '0' as u32) as u64;
        proof {
            let next = part.take(i - start + 1);
            assert(next.drop_last() =~= part.take(i - start));
            assert(next.last() == c);
            assert(digits_value(next) == 10 * value + d);
            lemma_digits_value_prefix(part, i - start + 1);
        }
        if value > (u64::MAX - d) / 10 {
            return None;
        }
        value = value * 10 + d;
        i += 1;
    }
    assert(part.take(end - start) =~= part);
    Some(value)
}

/// Reads an unsigned decimal number of at most 64 bits: an optional `+`,
/// then one or more ASCII digits and nothing else.
pub fn parse_u64(s: &str) -> (r: Option<u64>)
    ensures
        r == match unsigned_value(s@, u64::MAX as nat) {
            Some(v) => Some(v as u64),
            None => None,
        },
{
    let chars = chars_of(s);
    let start: usize = if chars.len() > 0 && chars[0] == '+' {
        1
    } else {
        0
    };
    assert(chars@.subrange(start as int, chars@.len() as int) =~= without_plus(s@));
    if start == chars.len() {
        return None;
    }
    if !digits_only(&chars, start, chars.len()) {
        return None;
    }
    digits_to_u64(&chars, start, chars.len())
}

/// Reads an unsigned decimal number of at most 32 bits: an optional `+`,
/// then one or more ASCII digits and nothing else.
pub fn parse_u32(s: &str) -> (r: Option<u32>)
    ensures
        r == match unsigned_value(s@, u32::MAX as nat) {
            Some(v) => Some(v as u32),
            None => None,
        },
{
    match parse_u64(s) {
        Some(v) => if v <= u32::MAX as u64 {
            Some(v as u32)
        } else {
            None
        },
        None => None,
    }
}

} // verus!
