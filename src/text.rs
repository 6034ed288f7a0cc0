//! Character-level helpers on strings: equality, containment, prefixes and
//! decimal numbers.

use vstd::prelude::*;
use vstd::string::*;

verus! {

/// `t` occurs in `s` as a contiguous run of characters.
pub open spec fn contains_at(s: Seq<char>, t: Seq<char>, i: int) -> bool {
    0 <= i && i + t.len() <= s.len() && s.subrange(i, i + t.len()) == t
}

pub open spec fn seq_contains(s: Seq<char>, t: Seq<char>) -> bool {
    exists|i: int| contains_at(s, t, i)
}

pub open spec fn has_prefix(s: Seq<char>, p: Seq<char>) -> bool {
    p.len() <= s.len() && s.subrange(0, p.len() as int) == p
}

/// The characters of a string, one per element.
pub fn chars_of(s: &str) -> (r: Vec<char>)
    ensures
        r@ == s@,
{
    let n = s.unicode_len();
    let mut r: Vec<char> = Vec::new();
    let mut i: usize = 0;
    while i < n
        invariant
            n == s@.len(),
            i <= n,
            r@ == s@.subrange(0, i as int),
        decreases n - i,
    {
        r.push(s.get_char(i));
        i = i + 1;
    }
    assert(r@ == s@);
    r
}

/// Whether `t` occurs at position `i` of `s`.
fn occurs_at(s: &Vec<char>, t: &Vec<char>, i: usize) -> (r: bool)
    requires
        i + t@.len() <= s@.len(),
    ensures
        r == contains_at(s@, t@, i as int),
{
    let n = s.len();
    let mut j: usize = 0;
    while j < t.len()
        invariant
            i + t@.len() <= s@.len(),
            s@.len() == n,
            j <= t@.len(),
            forall|k: int| 0 <= k < j ==> s@[i + k] == t@[k],
        decreases t@.len() - j,
    {
        if s[i + j] != t[j] {
            assert(s@.subrange(i as int, i + t@.len())[j as int] != t@[j as int]);
            return false;
        }
        j = j + 1;
    }
    assert(s@.subrange(i as int, i + t@.len()) =~= t@);
    true
}

/// Whether `t` occurs anywhere in `s`.
pub fn vec_contains(s: &Vec<char>, t: &Vec<char>) -> (r: bool)
    ensures
        r == seq_contains(s@, t@),
{
    if t.len() > s.len() {
        return false;
    }
    let last = s.len() - t.len();
    let mut i: usize = 0;
    loop
        invariant
            last == s@.len() - t@.len(),
            i <= last,
            forall|k: int| 0 <= k < i ==> !contains_at(s@, t@, k),
        decreases last - i,
    {
        if occurs_at(s, t, i) {
            return true;
        }
        if i == last {
            return false;
        }
        i = i + 1;
    }
}

/// Whether `t` occurs anywhere in `s`.
pub fn str_contains(s: &str, t: &str) -> (r: bool)
    ensures
        r == seq_contains(s@, t@),
{
    vec_contains(&chars_of(s), &chars_of(t))
}

/// Whether two strings hold the same characters.
pub fn str_eq(a: &str, b: &str) -> (r: bool)
    ensures
        r == (a@ == b@),
{
    let x = chars_of(a);
    let y = chars_of(b);
    if x.len() != y.len() {
        return false;
    }
    let mut i: usize = 0;
    while i < x.len()
        invariant
            x@ == a@,
            y@ == b@,
            x@.len() == y@.len(),
            i <= x@.len(),
            forall|k: int| 0 <= k < i ==> x@[k] == y@[k],
        decreases x@.len() - i,
    {
        if x[i] != y[i] {
            assert(x@[i as int] != y@[i as int]);
            assert(x@ != y@);
            return false;
        }
        i = i + 1;
    }
    assert(x@ =~= y@);
    true
}

/// `s` without the prefix `p`, if it begins with it.
pub fn strip_prefix(s: &str, p: &str) -> (r: Option<String>)
    ensures
        has_prefix(s@, p@) <==> r is Some,
        r matches Some(rest) ==> rest@ == s@.subrange(p@.len() as int, s@.len() as int),
{
    let x = chars_of(s);
    let y = chars_of(p);
    if y.len() > x.len() {
        return None;
    }
    let mut i: usize = 0;
    while i < y.len()
        invariant
            x@ == s@,
            y@ == p@,
            y@.len() <= x@.len(),
            i <= y@.len(),
            forall|k: int| 0 <= k < i ==> x@[k] == y@[k],
        decreases y@.len() - i,
    {
        if x[i] != y[i] {
            assert(x@.subrange(0, y@.len() as int)[i as int] != y@[i as int]);
            assert(x@.subrange(0, y@.len() as int) != y@);
            return None;
        }
        i = i + 1;
    }
    assert(x@.subrange(0, y@.len() as int) =~= y@);
    Some(s.substring_char(y.len(), x.len()).to_owned())
}

pub open spec fn is_digit(c: char) -> bool {
    '0' <= c && c <= '9'
}

pub open spec fn digit_of(c: char) -> int {
    (c as u32) as int - ('0' as u32) as int
}

pub open spec fn digit_char(d: int) -> char {
    seq!['0', '1', '2', '3', '4', '5', '6', '7', '8', '9'][d]
}

pub open spec fn all_digits(s: Seq<char>) -> bool {
    forall|i: int| 0 <= i < s.len() ==> is_digit(#[trigger] s[i])
}

/// The number that a run of decimal digits denotes.
pub open spec fn digits_value(s: Seq<char>) -> nat
    decreases s.len(),
{
    if s.len() == 0 {
        0
    } else {
        (digits_value(s.drop_last()) * 10 + digit_of(s.last())) as nat
    }
}

/// The shortest decimal text of `n`.
pub open spec fn decimal(n: nat) -> Seq<char>
    decreases n,
{
    if n < 10 {
        seq![digit_char(n as int)]
    } else {
        decimal(n / 10).push(digit_char((n % 10) as int))
    }
}

/// `decimal(n)`, padded with leading zeros to at least two characters.
pub open spec fn decimal2(n: nat) -> Seq<char> {
    if n < 10 {
        seq!['0'] + decimal(n)
    } else {
        decimal(n)
    }
}

/// What `str::parse::<u32>` accepts: an optional `+`, then at least one digit,
/// of a value that fits.
pub open spec fn parse_u32_spec(s: Seq<char>) -> Option<u32> {
    let d = if s.len() > 0 && s[0] == '+' { s.drop_first() } else { s };
    if d.len() > 0 && all_digits(d) && digits_value(d) <= u32::MAX {
        Some(digits_value(d) as u32)
    } else {
        None
    }
}

/// What `str::parse::<i32>` accepts: an optional `+` or `-`, then at least one
/// digit, of a value that fits.
pub open spec fn parse_i32_spec(s: Seq<char>) -> Option<i32> {
    let neg = s.len() > 0 && s[0] == '-';
    let d = if s.len() > 0 && (s[0] == '+' || s[0] == '-') { s.drop_first() } else { s };
    if d.len() > 0 && all_digits(d) {
        if neg && digits_value(d) <= 0x8000_0000 {
            Some((-digits_value(d)) as i32)
        } else if !neg && digits_value(d) <= 0x7fff_ffff {
            Some(digits_value(d) as i32)
        } else {
            None
        }
    } else {
        None
    }
}

pub proof fn lemma_digit_char(d: int)
    requires
        0 <= d < 10,
    ensures
        is_digit(digit_char(d)),
        digit_of(digit_char(d)) == d,
{
}

/// The decimal text of a number reads back as that number.
pub proof fn lemma_decimal(n: nat)
    ensures
        decimal(n).len() > 0,
        all_digits(decimal(n)),
        digits_value(decimal(n)) == n,
        decimal(n)[0] != '+' && decimal(n)[0] != '-',
        forall|i: int| 0 <= i < decimal(n).len() ==> decimal(n)[i] != ',',
    decreases n,
{
    if n < 10 {
        lemma_digit_char(n as int);
        assert(decimal(n).drop_last() =~= Seq::<char>::empty());
        assert(digits_value(Seq::<char>::empty()) == 0);
        assert(decimal(n).last() == digit_char(n as int));
        assert(digits_value(decimal(n)) == digits_value(decimal(n).drop_last()) * 10 + digit_of(decimal(n).last()));
    } else {
        lemma_decimal(n / 10);
        lemma_digit_char((n % 10) as int);
        let d = decimal(n / 10);
        assert(decimal(n).drop_last() =~= d);
        assert(decimal(n).last() == digit_char((n % 10) as int));
        assert(digits_value(decimal(n)) == digits_value(d) * 10 + digit_of(digit_char((n % 10) as int)));
        assert((n / 10) * 10 + n % 10 == n);
        assert forall|i: int| 0 <= i < decimal(n).len() implies is_digit(#[trigger] decimal(n)[i]) by {
            if i < d.len() {
                assert(decimal(n)[i] == d[i]);
            }
        }
    }
}

/// The character of a digit `0..=9`.
fn digit_str(d: u64) -> (r: &'static str)
    requires
        d < 10,
    ensures
        r@ == seq![digit_char(d as int)],
{
    proof {
        reveal_strlit("0");
        reveal_strlit("1");
        reveal_strlit("2");
        reveal_strlit("3");
        reveal_strlit("4");
        reveal_strlit("5");
        reveal_strlit("6");
        reveal_strlit("7");
        reveal_strlit("8");
        reveal_strlit("9");
    }
    let r = if d == 0 {
        "0"
    } else if d == 1 {
        "1"
    } else if d == 2 {
        "2"
    } else if d == 3 {
        "3"
    } else if d == 4 {
        "4"
    } else if d == 5 {
        "5"
    } else if d == 6 {
        "6"
    } else if d == 7 {
        "7"
    } else if d == 8 {
        "8"
    } else {
        "9"
    };
    assert(r@ =~= seq![digit_char(d as int)]);
    r
}

/// Appends the decimal text of `n` to `out`.
pub fn push_decimal(out: &mut String, n: u64)
    ensures
        final(out)@ == old(out)@ + decimal(n as nat),
    decreases n,
{
    if n >= 10 {
        push_decimal(out, n / 10);
    }
    out.append(digit_str(n % 10));
    assert(decimal(n as nat) == (if n < 10 { Seq::<char>::empty() } else { decimal((n / 10) as nat) })
        + seq![digit_char((n % 10) as int)]) by {
        if n < 10 {
            assert(decimal(n as nat) =~= Seq::<char>::empty() + seq![digit_char((n % 10) as int)]);
        }
    }
    assert(final(out)@ =~= old(out)@ + decimal(n as nat));
}

/// Appends `decimal2(n)` to `out`.
pub fn push_decimal2(out: &mut String, n: u64)
    ensures
        final(out)@ == old(out)@ + decimal2(n as nat),
{
    if n < 10 {
        out.append(digit_str(0));
    }
    push_decimal(out, n);
    assert(final(out)@ =~= old(out)@ + decimal2(n as nat));
}

/// The value of a nonempty run of digits, or `None` where it exceeds `bound`.
fn digits_up_to(d: &Vec<char>, start: usize, bound: u64) -> (r: Option<u64>)
    requires
        start <= d@.len(),
        bound <= u32::MAX as u64 + 1,
    ensures
        r is Some <==> (start < d@.len() && all_digits(d@.subrange(start as int, d@.len() as int))
            && digits_value(d@.subrange(start as int, d@.len() as int)) <= bound),
        r matches Some(v) ==> v == digits_value(d@.subrange(start as int, d@.len() as int)),
{
    if start == d.len() {
        return None;
    }
    let mut acc: u64 = 0;
    let mut i: usize = start;
    while i < d.len()
        invariant
            start <= i <= d@.len(),
            bound <= u32::MAX as u64 + 1,
            all_digits(d@.subrange(start as int, i as int)),
            acc == digits_value(d@.subrange(start as int, i as int)),
            acc <= bound,
        decreases d@.len() - i,
    {
        let c = d[i];
        let sub = Ghost(d@.subrange(start as int, i as int + 1));
        assert(sub@.drop_last() =~= d@.subrange(start as int, i as int));
        if !('0' <= c && c <= '9') {
            assert(!is_digit(d@.subrange(start as int, d@.len() as int)[i - start]));
            return None;
        }
        let v = (c as u32 - '0' as u32) as u64;
        acc = acc * 10 + v;
        if acc > bound {
            proof {
                if all_digits(d@.subrange(start as int, d@.len() as int)) {
                    lemma_digits_grow(d@.subrange(start as int, d@.len() as int), (i - start + 1) as int);
                }
                assert(d@.subrange(start as int, d@.len() as int).subrange(0, (i - start + 1) as int)
                    =~= sub@);
            }
            return None;
        }
        proof {
            assert forall|k: int| 0 <= k < sub@.len() implies is_digit(#[trigger] sub@[k]) by {
                if k < sub@.len() - 1 {
                    assert(sub@[k] == d@.subrange(start as int, i as int)[k]);
                }
            }
        }
        i = i + 1;
    }
    assert(d@.subrange(start as int, i as int) =~= d@.subrange(start as int, d@.len() as int));
    Some(acc)
}

/// A run of digits is worth at least as much as any of its prefixes.
pub proof fn lemma_digits_grow(s: Seq<char>, k: int)
    requires
        0 <= k <= s.len(),
        all_digits(s),
    ensures
        digits_value(s.subrange(0, k)) <= digits_value(s),
    decreases s.len(),
{
    if k < s.len() {
        let t = s.drop_last();
        assert(all_digits(t)) by {
            assert forall|i: int| 0 <= i < t.len() implies is_digit(#[trigger] t[i]) by {
                assert(t[i] == s[i]);
            }
        }
        lemma_digits_grow(t, k);
        assert(t.subrange(0, k) =~= s.subrange(0, k));
        assert(is_digit(s[s.len() - 1]));
    }
    else {
        assert(s.subrange(0, k) =~= s);
    }
}

/// `str::parse::<u32>` on the characters of `s`.
pub fn parse_u32(s: &str) -> (r: Option<u32>)
    ensures
        r == parse_u32_spec(s@),
{
    let d = chars_of(s);
    let start: usize = if d.len() > 0 && d[0] == '+' { 1 } else { 0 };
    assert(d@.subrange(start as int, d@.len() as int) =~= (if d@.len() > 0 && d@[0] == '+' {
        d@.drop_first()
    } else {
        d@
    }));
    match digits_up_to(&d, start, u32::MAX as u64) {
        Some(v) => Some(v as u32),
        None => None,
    }
}

/// `str::parse::<i32>` on the characters of `s`.
pub fn parse_i32(s: &str) -> (r: Option<i32>)
    ensures
        r == parse_i32_spec(s@),
{
    let d = chars_of(s);
    let neg = d.len() > 0 && d[0] == '-';
    let start: usize = if d.len() > 0 && (d[0] == '+' || d[0] == '-') { 1 } else { 0 };
    assert(d@.subrange(start as int, d@.len() as int) =~= (if d@.len() > 0 && (d@[0] == '+' || d@[0] == '-') {
        d@.drop_first()
    } else {
        d@
    }));
    let bound: u64 = if neg { 0x8000_0000 } else { 0x7fff_ffff };
    match digits_up_to(&d, start, bound) {
        Some(v) => {
            if neg {
                Some((0 - v as i64) as i32)
            } else {
                Some(v as i32)
            }
        },
        None => None,
    }
}

} // verus!
