//! Character sequences: searching, trimming, splitting, numbers.

use vstd::prelude::*;

verus! {

/// The number of elements before the first `x`; the whole length if there is none.
pub open spec fn find<T>(s: Seq<T>, x: T) -> int
    decreases s.len(),
{
    if s.len() == 0 || s[0] == x {
        0
    } else {
        1 + find(s.skip(1), x)
    }
}

/// What stands before the first `x`; all of `s` if there is none.
pub open spec fn before<T>(s: Seq<T>, x: T) -> Seq<T> {
    s.take(find(s, x))
}

/// What stands behind the first `x`, where there is one.
pub open spec fn behind<T>(s: Seq<T>, x: T) -> Seq<T> {
    s.skip(find(s, x) + 1)
}

/// `find` is where the first `x` stands.
pub proof fn lemma_find<T>(s: Seq<T>, x: T)
    ensures
        0 <= find(s, x) <= s.len(),
        forall|j: int| 0 <= j < find(s, x) ==> s[j] != x,
        find(s, x) < s.len() ==> s[find(s, x)] == x,
        s.contains(x) <==> find(s, x) < s.len(),
    decreases s.len(),
{
    if s.len() == 0 || s[0] == x {
    } else {
        lemma_find(s.skip(1), x);
        let n = find(s.skip(1), x);
        assert forall|j: int| 0 <= j < find(s, x) implies s[j] != x by {
            if j > 0 {
                assert(s.skip(1)[j - 1] == s[j]);
            }
        }
        if n < s.skip(1).len() {
            assert(s.skip(1)[n] == s[n + 1]);
        }
    }
}

/// There is one first place only.
pub proof fn lemma_find_is<T>(s: Seq<T>, x: T, n: int)
    requires
        0 <= n <= s.len(),
        forall|j: int| 0 <= j < n ==> s[j] != x,
        n < s.len() ==> s[n] == x,
    ensures
        find(s, x) == n,
{
    lemma_find(s, x);
}

/// Adding to a sequence behind its first `x` leaves that `x` the first one.
pub proof fn lemma_find_prefix<T>(s: Seq<T>, t: Seq<T>, x: T)
    requires
        find(s, x) < s.len(),
    ensures
        find(s + t, x) == find(s, x),
{
    lemma_find(s, x);
    lemma_find_is(s + t, x, find(s, x));
}

/// What stands on both sides of the first `x`.
pub proof fn lemma_around<T>(a: Seq<T>, x: T, b: Seq<T>)
    requires
        !a.contains(x),
    ensures
        find(a.push(x) + b, x) == a.len(),
        (a.push(x) + b).contains(x),
        before(a.push(x) + b, x) == a,
        behind(a.push(x) + b, x) == b,
{
    let s = a.push(x) + b;
    assert forall|j: int| 0 <= j < a.len() implies s[j] != x by {
        assert(a.contains(a[j]));
    }
    assert(s[a.len() as int] == x);
    lemma_find_is(s, x, a.len() as int);
    assert(before(s, x) =~= a);
    assert(behind(s, x) =~= b);
}

/// What stands before the first `x` does not hold `x`, nor anything that `s` does not hold.
pub proof fn lemma_before<T>(s: Seq<T>, x: T)
    ensures
        !before(s, x).contains(x),
        forall|y: T| before(s, x).contains(y) ==> s.contains(y),
        !s.contains(x) ==> before(s, x) == s,
{
    lemma_find(s, x);
    assert forall|y: T| before(s, x).contains(y) implies s.contains(y) by {
        let i = choose|i: int| 0 <= i < before(s, x).len() && before(s, x)[i] == y;
        assert(s[i] == y);
    }
    assert(find(s, x) == s.len() ==> before(s, x) =~= s);
}

/// The place of the first `c` in `s`, or the length of `s`.
pub fn find_char(s: &[char], c: char) -> (n: usize)
    ensures
        n == find(s@, c),
        n <= s@.len(),
{
    let mut n: usize = 0;
    while n < s.len() && s[n] != c
        invariant
            n <= s@.len(),
            forall|j: int| 0 <= j < n ==> s@[j] != c,
        decreases s@.len() - n,
    {
        n = n + 1;
    }
    proof {
        lemma_find_is(s@, c, n as int);
    }
    n
}

/// The place of the first `b` in `s`, or the length of `s`.
pub fn find_byte(s: &[u8], b: u8) -> (n: usize)
    ensures
        n == find(s@, b),
        n <= s@.len(),
{
    let mut n: usize = 0;
    while n < s.len() && s[n] != b
        invariant
            n <= s@.len(),
            forall|j: int| 0 <= j < n ==> s@[j] != b,
        decreases s@.len() - n,
    {
        n = n + 1;
    }
    proof {
        lemma_find_is(s@, b, n as int);
    }
    n
}

/// The parts of `s` between the separators `sep`.
pub open spec fn split<T>(s: Seq<T>, sep: T) -> Seq<Seq<T>>
    decreases s.len(),
{
    let n = find(s, sep);
    if 0 <= n < s.len() {
        seq![s.take(n)] + split(s.skip(n + 1), sep)
    } else {
        seq![s]
    }
}

/// No part holds the separator.
pub proof fn lemma_split_parts<T>(s: Seq<T>, sep: T, i: int)
    requires
        0 <= i < split(s, sep).len(),
    ensures
        !split(s, sep)[i].contains(sep),
    decreases s.len(),
{
    lemma_find(s, sep);
    let n = find(s, sep);
    if n < s.len() {
        if i > 0 {
            lemma_split_parts(s.skip(n + 1), sep, i - 1);
        }
    }
}

/// A separator between two sequences separates their parts.
pub proof fn lemma_split_join<T>(a: Seq<T>, sep: T, b: Seq<T>)
    ensures
        split(a.push(sep) + b, sep) == split(a, sep) + split(b, sep),
    decreases a.len(),
{
    let whole = a.push(sep) + b;
    let n = find(a, sep);
    lemma_find(a, sep);
    lemma_find_is(whole, sep, n);
    assert(whole.take(n) =~= a.take(n));
    if n < a.len() {
        lemma_split_join(a.skip(n + 1), sep, b);
        assert(whole.skip(n + 1) =~= a.skip(n + 1).push(sep) + b);
        assert(split(whole, sep) =~= split(a, sep) + split(b, sep));
    } else {
        assert(a.take(n) =~= a);
        assert(whole.skip(n + 1) =~= b);
        assert(split(whole, sep) =~= split(a, sep) + split(b, sep));
    }
}

/// The place of the last `x` in `s`; -1 if there is none.
pub open spec fn find_last<T>(s: Seq<T>, x: T) -> int
    decreases s.len(),
{
    if s.len() == 0 {
        -1
    } else if s.last() == x {
        s.len() - 1
    } else {
        find_last(s.drop_last(), x)
    }
}

/// `find_last` is where the last `x` stands.
pub proof fn lemma_find_last<T>(s: Seq<T>, x: T)
    ensures
        -1 <= find_last(s, x) < s.len(),
        forall|j: int| find_last(s, x) < j < s.len() ==> s[j] != x,
        find_last(s, x) >= 0 ==> s[find_last(s, x)] == x,
    decreases s.len(),
{
    if s.len() > 0 && s.last() != x {
        lemma_find_last(s.drop_last(), x);
        assert forall|j: int| find_last(s, x) < j < s.len() implies s[j] != x by {
            if j < s.len() - 1 {
                assert(s.drop_last()[j] == s[j]);
            }
        }
    }
}

/// There is one last place only.
pub proof fn lemma_find_last_is<T>(s: Seq<T>, x: T, n: int)
    requires
        -1 <= n < s.len(),
        forall|j: int| n < j < s.len() ==> s[j] != x,
        n >= 0 ==> s[n] == x,
    ensures
        find_last(s, x) == n,
    decreases s.len(),
{
    if s.len() > 0 && s.last() != x {
        lemma_find_last_is(s.drop_last(), x, n);
    }
}

/// `s` without the elements at its front that satisfy `p`.
pub open spec fn trim_start_by<T>(s: Seq<T>, p: spec_fn(T) -> bool) -> Seq<T>
    decreases s.len(),
{
    if s.len() > 0 && p(s[0]) {
        trim_start_by(s.skip(1), p)
    } else {
        s
    }
}

/// `s` without the elements at its end that satisfy `p`.
pub open spec fn trim_end_by<T>(s: Seq<T>, p: spec_fn(T) -> bool) -> Seq<T>
    decreases s.len(),
{
    if s.len() > 0 && p(s.last()) {
        trim_end_by(s.drop_last(), p)
    } else {
        s
    }
}

/// What is left of the front: everything from the first element that does not satisfy `p`.
pub proof fn lemma_trim_start_is<T>(s: Seq<T>, p: spec_fn(T) -> bool, n: int)
    requires
        0 <= n <= s.len(),
        forall|j: int| 0 <= j < n ==> p(s[j]),
        n < s.len() ==> !p(s[n]),
    ensures
        trim_start_by(s, p) == s.skip(n),
    decreases n,
{
    if n > 0 {
        assert(s.skip(1).skip(n - 1) =~= s.skip(n));
        lemma_trim_start_is(s.skip(1), p, n - 1);
    } else {
        assert(s.skip(0) =~= s);
    }
}

/// What is left of the end: everything up to the last element that does not satisfy `p`.
pub proof fn lemma_trim_end_is<T>(s: Seq<T>, p: spec_fn(T) -> bool, n: int)
    requires
        0 <= n <= s.len(),
        forall|j: int| n <= j < s.len() ==> p(s[j]),
        n > 0 ==> !p(s[n - 1]),
    ensures
        trim_end_by(s, p) == s.take(n),
    decreases s.len() - n,
{
    if n < s.len() {
        assert(s.drop_last().take(n) =~= s.take(n));
        lemma_trim_end_is(s.drop_last(), p, n);
    } else {
        assert(s.take(n) =~= s);
    }
}

/// The characters with the Unicode property `White_Space`.
pub open spec fn is_white_space(c: char) -> bool {
    ||| '\u{9}' <= c <= '\u{d}'
    ||| c == '\u{20}'
    ||| c == '\u{85}'
    ||| c == '\u{a0}'
    ||| c == '\u{1680}'
    ||| '\u{2000}' <= c <= '\u{200a}'
    ||| c == '\u{2028}'
    ||| c == '\u{2029}'
    ||| c == '\u{202f}'
    ||| c == '\u{205f}'
    ||| c == '\u{3000}'
}

/// Whether `c` is white space.
pub fn white_space(c: char) -> (r: bool)
    ensures
        r == is_white_space(c),
{
    ('\u{9}' <= c && c <= '\u{d}') || c == '\u{20}' || c == '\u{85}' || c == '\u{a0}' || c
        == '\u{1680}' || ('\u{2000}' <= c && c <= '\u{200a}') || c == '\u{2028}' || c == '\u{2029}'
        || c == '\u{202f}' || c == '\u{205f}' || c == '\u{3000}'
}

/// `s` without white space at either end.
pub open spec fn trim(s: Seq<char>) -> Seq<char> {
    trim_end_by(trim_start_by(s, |c: char| is_white_space(c)), |c: char| is_white_space(c))
}

/// `s` without the carriage returns and line feeds at its end.
pub open spec fn trim_newlines(s: Seq<char>) -> Seq<char> {
    trim_end_by(s, |c: char| c == '\r' || c == '\n')
}

/// Where the carriage returns and line feeds at the end of `s` begin.
pub proof fn lemma_trim_newlines_end(s: Seq<char>) -> (m: int)
    ensures
        0 <= m <= s.len(),
        trim_newlines(s) == s.take(m),
        forall|j: int| m <= j < s.len() ==> s[j] == '\r' || s[j] == '\n',
        m > 0 ==> s[m - 1] != '\r' && s[m - 1] != '\n',
    decreases s.len(),
{
    if s.len() > 0 && (s.last() == '\r' || s.last() == '\n') {
        let m = lemma_trim_newlines_end(s.drop_last());
        assert forall|j: int| m <= j < s.len() implies s[j] == '\r' || s[j] == '\n' by {
            if j < s.len() - 1 {
                assert(s.drop_last()[j] == s[j]);
            }
        }
        lemma_trim_end_is(s, |c: char| c == '\r' || c == '\n', m);
        m
    } else {
        lemma_trim_end_is(s, |c: char| c == '\r' || c == '\n', s.len() as int);
        s.len() as int
    }
}

/// `s` without the slashes at its front.
pub open spec fn trim_slashes(s: Seq<char>) -> Seq<char> {
    trim_start_by(s, |c: char| c == '/')
}

/// Upper case ASCII letters become lower case ones.
pub open spec fn ascii_lower(c: char) -> char {
    if 'A' <= c <= 'Z' {
        (c as u32 + 32) as char
    } else {
        c
    }
}

/// `s` with its ASCII letters in lower case.
pub open spec fn lower(s: Seq<char>) -> Seq<char> {
    s.map_values(|c: char| ascii_lower(c))
}

/// The characters of `s`.
pub fn chars_of(s: &str) -> (v: Vec<char>)
    ensures
        v@ == s@,
{
    let mut v: Vec<char> = Vec::new();
    for c in it: s.chars()
        invariant
            v@ == it.seq().take(it.index() as int),
            it.seq() == s@,
    {
        v.push(c);
    }
    proof {
        assert(s@.take(s@.len() as int) =~= s@);
    }
    v
}

/// `String::push` appends the character to the string.
pub assume_specification[ String::push ](s: &mut String, c: char)
    ensures
        final(s)@ == old(s)@.push(c),
;

/// The string of the characters of `s` from `from` up to `to`.
pub fn string_of(s: &[char], from: usize, to: usize) -> (r: String)
    requires
        from <= to <= s@.len(),
    ensures
        r@ == s@.subrange(from as int, to as int),
{
    let mut r: String = String::new();
    let mut i: usize = from;
    while i < to
        invariant
            from <= i <= to <= s@.len(),
            r@ == s@.subrange(from as int, i as int),
        decreases to - i,
    {
        r.push(s[i]);
        i = i + 1;
        proof {
            assert(s@.subrange(from as int, i as int) =~= s@.subrange(
                from as int,
                i - 1,
            ).push(s@[i - 1]));
        }
    }
    r
}

/// Where `s` ends without the carriage returns and line feeds at its end.
pub fn end_without_newlines(s: &[char]) -> (n: usize)
    ensures
        n <= s@.len(),
        trim_newlines(s@) == s@.take(n as int),
{
    let mut n: usize = s.len();
    while n > 0 && (s[n - 1] == '\r' || s[n - 1] == '\n')
        invariant
            n <= s@.len(),
            forall|j: int| n <= j < s@.len() ==> s@[j] == '\r' || s@[j] == '\n',
        decreases n,
    {
        n = n - 1;
    }
    proof {
        lemma_trim_end_is(s@, |c: char| c == '\r' || c == '\n', n as int);
    }
    n
}

/// The number of slashes at the front of `s`.
pub fn leading_slashes(s: &[char]) -> (n: usize)
    ensures
        n <= s@.len(),
        trim_slashes(s@) == s@.skip(n as int),
{
    let mut n: usize = 0;
    while n < s.len() && s[n] == '/'
        invariant
            n <= s@.len(),
            forall|j: int| 0 <= j < n ==> s@[j] == '/',
        decreases s@.len() - n,
    {
        n = n + 1;
    }
    proof {
        lemma_trim_start_is(s@, |c: char| c == '/', n as int);
    }
    n
}

/// The part of `s` between `from` and `to` that trimming its white space leaves.
pub fn trim_between(s: &[char], from: usize, to: usize) -> (r: (usize, usize))
    requires
        from <= to <= s@.len(),
    ensures
        from <= r.0 <= r.1 <= to,
        trim(s@.subrange(from as int, to as int)) == s@.subrange(r.0 as int, r.1 as int),
{
    let ghost whole = s@.subrange(from as int, to as int);
    let ghost p = |c: char| is_white_space(c);
    let mut a: usize = from;
    while a < to && white_space(s[a])
        invariant
            from <= a <= to <= s@.len(),
            forall|j: int| from <= j < a ==> is_white_space(s@[j]),
        decreases to - a,
    {
        a = a + 1;
    }
    proof {
        lemma_trim_start_is(whole, p, a - from);
        assert(whole.skip(a - from) =~= s@.subrange(a as int, to as int));
    }
    let mut b: usize = to;
    while b > a && white_space(s[b - 1])
        invariant
            a <= b <= to <= s@.len(),
            forall|j: int| b <= j < to ==> is_white_space(s@[j]),
        decreases b,
    {
        b = b - 1;
    }
    proof {
        lemma_trim_end_is(s@.subrange(a as int, to as int), p, b - a);
        assert(s@.subrange(a as int, to as int).take(b - a) =~= s@.subrange(a as int, b as int));
    }
    (a, b)
}

/// The string of the characters of `s` from `from` up to `to`, in ASCII lower case.
pub fn lower_between(s: &[char], from: usize, to: usize) -> (r: String)
    requires
        from <= to <= s@.len(),
    ensures
        r@ == lower(s@.subrange(from as int, to as int)),
{
    let mut r: String = String::new();
    let mut i: usize = from;
    while i < to
        invariant
            from <= i <= to <= s@.len(),
            r@ == lower(s@.subrange(from as int, i as int)),
        decreases to - i,
    {
        let c = s[i];
        if 'A' <= c && c <= 'Z' {
            r.push((c as u8 + 32) as char);
        } else {
            r.push(c);
        }
        i = i + 1;
        proof {
            assert(s@.subrange(from as int, i as int) =~= s@.subrange(
                from as int,
                i - 1,
            ).push(s@[i - 1]));
            assert(lower(s@.subrange(from as int, i as int)) =~= lower(
                s@.subrange(from as int, i - 1),
            ).push(ascii_lower(c)));
        }
    }
    r
}

/// Whether two byte sequences are the same.
pub fn same_bytes(a: &[u8], b: &[u8]) -> (r: bool)
    ensures
        r == (a@ == b@),
{
    if a.len() != b.len() {
        return false;
    }
    let mut i: usize = 0;
    while i < a.len()
        invariant
            i <= a@.len() == b@.len(),
            forall|j: int| 0 <= j < i ==> a@[j] == b@[j],
        decreases a@.len() - i,
    {
        if a[i] != b[i] {
            return false;
        }
        i = i + 1;
    }
    proof {
        assert(a@ =~= b@);
    }
    true
}

/// The bytes of a text determine the text.
pub proof fn lemma_encode_injective(a: Seq<char>, b: Seq<char>)
    ensures
        vstd::utf8::encode_utf8(a) == vstd::utf8::encode_utf8(b) <==> a == b,
{
    vstd::utf8::encode_utf8_decode_utf8(a);
    vstd::utf8::encode_utf8_decode_utf8(b);
}

/// Whether two texts are the same.
pub fn same_text(a: &str, b: &str) -> (r: bool)
    ensures
        r == (a@ == b@),
{
    proof {
        lemma_encode_injective(a@, b@);
    }
    same_bytes(a.as_bytes(), b.as_bytes())
}

/// The value of a decimal digit.
pub open spec fn digit_value(c: char) -> nat {
    (c as u32 - '0' as u32) as nat
}

/// Whether `c` is a decimal digit.
pub open spec fn is_digit(c: char) -> bool {
    '0' <= c <= '9'
}

/// The digit with the value `d`.
pub open spec fn digit(d: nat) -> char {
    ('0' as u32 + d) as char
}

/// `n` written in decimal.
pub open spec fn decimal(n: nat) -> Seq<char>
    decreases n,
{
    if n < 10 {
        seq![digit(n)]
    } else {
        decimal(n / 10).push(digit(n % 10))
    }
}

/// The number that a sequence of digits stands for.
pub open spec fn digits_value(s: Seq<char>) -> nat
    decreases s.len(),
{
    if s.len() == 0 {
        0
    } else {
        digits_value(s.drop_last()) * 10 + digit_value(s.last())
    }
}

/// `s` without one plus sign at its front, if it has one.
pub open spec fn unsigned_part(s: Seq<char>) -> Seq<char> {
    if s.len() > 0 && s[0] == '+' {
        s.skip(1)
    } else {
        s
    }
}

/// The number that `s` stands for, if it stands for one that is at most `max`:
/// one or more decimal digits, behind at most one plus sign.
pub open spec fn parse_number(s: Seq<char>, max: nat) -> Option<nat> {
    let digits = unsigned_part(s);
    if digits.len() > 0 && (forall|i: int| 0 <= i < digits.len() ==> is_digit(#[trigger] digits[i]))
        && digits_value(digits) <= max {
        Some(digits_value(digits))
    } else {
        None
    }
}

/// More digits never make a smaller number.
pub proof fn lemma_digits_grow(s: Seq<char>, n: int)
    requires
        0 <= n <= s.len(),
    ensures
        digits_value(s.take(n)) <= digits_value(s),
    decreases s.len() - n,
{
    if n == s.len() {
        assert(s.take(n) =~= s);
    } else {
        assert(s.drop_last().take(n) =~= s.take(n));
        lemma_digits_grow(s.drop_last(), n);
    }
}

/// Reads the number that `s` stands for, if that is at most `max`.
pub fn read_number(s: &str, max: u64) -> (r: Option<u64>)
    ensures
        r is Some <==> parse_number(s@, max as nat) is Some,
        r is Some ==> parse_number(s@, max as nat) == Some(r->0 as nat),
{
    let v = chars_of(s);
    let start: usize = if v.len() > 0 && v[0] == '+' {
        1
    } else {
        0
    };
    let ghost digits = unsigned_part(s@);
    proof {
        assert(digits =~= v@.skip(start as int));
    }
    if start == v.len() {
        return None;
    }
    let mut value: u64 = 0;
    let mut i: usize = start;
    while i < v.len()
        invariant
            start <= i <= v@.len(),
            digits == v@.skip(start as int),
            forall|j: int| 0 <= j < i - start ==> is_digit(#[trigger] digits[j]),
            value == digits_value(digits.take(i - start)),
            value <= max,
            digits == unsigned_part(s@),
            digits.len() > 0,
        decreases v@.len() - i,
    {
        let c = v[i];
        proof {
            assert(digits[i - start] == c);
            assert(digits.take(i - start + 1).drop_last() =~= digits.take(i - start));
            lemma_digits_grow(digits, i - start + 1);
        }
        if c < '0' || c > '9' {
            return None;
        }
        let d: u64 = (c as u32 - '0' as u32) as u64;
        if d > max || value > (max - d) / 10 {
            return None;
        }
        value = value * 10 + d;
        i = i + 1;
    }
    proof {
        assert(digits.take(digits.len() as int) =~= digits);
    }
    Some(value)
}

/// Writes `n` in decimal.
pub fn write_number(n: u64) -> (r: String)
    ensures
        r@ == decimal(n as nat),
    decreases n,
{
    let mut r: String = if n < 10 {
        String::new()
    } else {
        write_number(n / 10)
    };
    let d: u8 = (n % 10) as u8;
    r.push((48 + d) as char);
    proof {
        assert(r@ =~= decimal(n as nat));
    }
    r
}

/// Reading a written number gives it back.
pub proof fn law_number_round_trip(n: nat, max: nat)
    requires
        n <= max,
    ensures
        parse_number(decimal(n), max) == Some(n),
{
    lemma_decimal(n);
}

pub proof fn lemma_decimal(n: nat)
    ensures
        decimal(n).len() > 0,
        forall|i: int| 0 <= i < decimal(n).len() ==> is_digit(#[trigger] decimal(n)[i]),
        digits_value(decimal(n)) == n,
    decreases n,
{
    if n < 10 {
        reveal_with_fuel(digits_value, 2);
        assert(decimal(n).drop_last() =~= Seq::<char>::empty());
    } else {
        lemma_decimal(n / 10);
        assert(decimal(n).drop_last() =~= decimal(n / 10));
    }
}

/// The bytes of two texts, one behind the other.
pub proof fn lemma_encode_concat(a: Seq<char>, b: Seq<char>)
    ensures
        vstd::utf8::encode_utf8(a + b) == vstd::utf8::encode_utf8(a) + vstd::utf8::encode_utf8(b),
    decreases a.len(),
{
    if a.len() == 0 {
        assert(a + b =~= b);
    } else {
        lemma_encode_concat(a.drop_first(), b);
        assert((a + b).drop_first() =~= a.drop_first() + b);
        assert(vstd::utf8::encode_utf8(a + b) =~= vstd::utf8::encode_utf8(a)
            + vstd::utf8::encode_utf8(b));
    }
}

/// An ASCII byte stands in the bytes of a character only if it is the character.
proof fn lemma_encode_scalar_ascii(c: char, b: u8, i: int)
    requires
        b < 128,
        0 <= i < vstd::utf8::encode_scalar(c as u32).len(),
        vstd::utf8::encode_scalar(c as u32)[i] == b,
    ensures
        c as int == b,
{
    let v = c as u32;
    assert(v <= 0x7f ==> (v & 0x7f) as u8 as u32 == v) by (bit_vector);
    let x1 = ((v >> 6) & 0x1f) as u8;
    let x2 = ((v >> 12) & 0x0f) as u8;
    let x3 = ((v >> 18) & 0x7) as u8;
    let y1 = (v & 0x3f) as u8;
    let y2 = ((v >> 6) & 0x3f) as u8;
    let y3 = ((v >> 12) & 0x3f) as u8;
    assert((0xC0u8 | x1) >= 128 && (0xE0u8 | x2) >= 128 && (0xF0u8 | x3) >= 128 && (0x80u8 | y1)
        >= 128 && (0x80u8 | y2) >= 128 && (0x80u8 | y3) >= 128) by (bit_vector);
}

/// A text holds an ASCII character if and only if its bytes hold the character's byte.
pub proof fn lemma_encode_ascii(s: Seq<char>, c: char)
    requires
        c <= '\u{7f}',
    ensures
        vstd::utf8::encode_utf8(s).contains(c as u8) <==> s.contains(c),
    decreases s.len(),
{
    let bytes = vstd::utf8::encode_utf8(s);
    let b = c as u8;
    if s.len() > 0 {
        let first = vstd::utf8::encode_scalar(s[0] as u32);
        let rest = vstd::utf8::encode_utf8(s.drop_first());
        lemma_encode_ascii(s.drop_first(), c);
        assert(bytes == first + rest);
        if s.contains(c) {
            if s[0] == c {
                let v = c as u32;
                assert(v <= 0x7f ==> (v & 0x7f) as u8 as u32 == v) by (bit_vector);
                assert(bytes[0] == b);
            } else {
                let i = choose|i: int| 0 <= i < s.len() && s[i] == c;
                assert(s.drop_first()[i - 1] == c);
                let j = choose|j: int| 0 <= j < rest.len() && rest[j] == b;
                assert(bytes[first.len() + j] == b);
            }
        }
        if bytes.contains(b) {
            let i = choose|i: int| 0 <= i < bytes.len() && bytes[i] == b;
            if i < first.len() {
                lemma_encode_scalar_ascii(s[0], b, i);
                assert(s[0] == c);
                assert(s.contains(c));
            } else {
                assert(rest[i - first.len()] == b);
                let j = choose|j: int| 0 <= j < s.drop_first().len() && s.drop_first()[j] == c;
                assert(s[j + 1] == c);
            }
        }
    }
}

/// Trimming leaves what stands between the white space at both ends.
pub proof fn lemma_trim_is(s: Seq<char>, a: int, b: int)
    requires
        0 <= a <= b <= s.len(),
        forall|j: int| 0 <= j < a ==> is_white_space(s[j]),
        forall|j: int| b <= j < s.len() ==> is_white_space(s[j]),
        a < b ==> !is_white_space(s[a]) && !is_white_space(s[b - 1]),
    ensures
        trim(s) == s.subrange(a, b),
{
    let p = |c: char| is_white_space(c);
    let n = if a < b { a } else { s.len() as int };
    lemma_trim_start_is(s, p, n);
    let t = s.skip(n);
    if a < b {
        lemma_trim_end_is(t, p, b - a);
        assert(t.take(b - a) =~= s.subrange(a, b));
    } else {
        lemma_trim_end_is(t, p, 0);
        assert(t.take(0) =~= s.subrange(a, b));
    }
}

/// The places where the trimmed part of `s` begins and ends.
pub proof fn lemma_trim_bounds(s: Seq<char>) -> (r: (int, int))
    ensures
        0 <= r.0 <= r.1 <= s.len(),
        forall|j: int| 0 <= j < r.0 ==> is_white_space(s[j]),
        forall|j: int| r.1 <= j < s.len() ==> is_white_space(s[j]),
        r.0 < r.1 ==> !is_white_space(s[r.0]) && !is_white_space(s[r.1 - 1]),
        trim(s) == s.subrange(r.0, r.1),
    decreases s.len(),
{
    if s.len() == 0 {
        lemma_trim_is(s, 0, 0);
        (0, 0)
    } else if is_white_space(s.last()) {
        let (a, b) = lemma_trim_bounds(s.drop_last());
        assert forall|j: int| 0 <= j < a implies is_white_space(s[j]) by {
            assert(s.drop_last()[j] == s[j]);
        }
        assert forall|j: int| b <= j < s.len() implies is_white_space(s[j]) by {
            if j < s.len() - 1 {
                assert(s.drop_last()[j] == s[j]);
            }
        }
        lemma_trim_is(s, a, b);
        (a, b)
    } else if is_white_space(s[0]) {
        let (a, b) = lemma_trim_bounds(s.skip(1));
        assert forall|j: int| 0 <= j < a + 1 implies is_white_space(s[j]) by {
            if j > 0 {
                assert(s.skip(1)[j - 1] == s[j]);
            }
        }
        assert forall|j: int| b + 1 <= j < s.len() implies is_white_space(s[j]) by {
            assert(s.skip(1)[j - 1] == s[j]);
        }
        lemma_trim_is(s, a + 1, b + 1);
        (a + 1, b + 1)
    } else {
        lemma_trim_is(s, 0, s.len() as int);
        (0, s.len() as int)
    }
}

/// Trimming twice is trimming once.
pub proof fn lemma_trim_twice(s: Seq<char>)
    ensures
        trim(trim(s)) == trim(s),
{
    let (a, b) = lemma_trim_bounds(s);
    let t = s.subrange(a, b);
    lemma_trim_is(t, 0, b - a);
    assert(t.subrange(0, b - a) =~= t);
}

/// Lower case stays as it is.
pub proof fn lemma_lower_twice(s: Seq<char>)
    ensures
        lower(lower(s)) == lower(s),
{
    assert(lower(lower(s)) =~= lower(s));
}

/// Trimming comes to the same before and after a change to lower case.
pub proof fn lemma_trim_lower(s: Seq<char>)
    ensures
        lower(trim(s)) == trim(lower(s)),
{
    let (a, b) = lemma_trim_bounds(s);
    let t = lower(s);
    assert forall|j: int| 0 <= j < s.len() implies is_white_space(#[trigger] t[j])
        == is_white_space(s[j]) by {}
    lemma_trim_is(t, a, b);
    assert(t.subrange(a, b) =~= lower(s.subrange(a, b)));
}

/// The text that UTF-8 bytes stand for, if they are valid.
///
/// `std::str::from_utf8` succeeds exactly on valid UTF-8, and the text it returns
/// holds the characters that the bytes encode.
#[verifier::external_body]
pub(crate) fn from_utf8(bytes: &[u8]) -> (r: Option<&str>)
    ensures
        r is Some <==> vstd::utf8::valid_utf8(bytes@),
        r matches Some(s) ==> s@ == vstd::utf8::decode_utf8(bytes@),
{
    std::str::from_utf8(bytes).ok()
}

/// The last of several sequences comes last when they are strung together.
pub proof fn lemma_flatten_last<T>(s: Seq<Seq<T>>)
    requires
        s.len() > 0,
    ensures
        s.flatten() == s.drop_last().flatten() + s.last(),
{
    s.lemma_flatten_and_flatten_alt_are_equivalent();
    s.drop_last().lemma_flatten_and_flatten_alt_are_equivalent();
}

/// Without a separator there is one part, all of the sequence.
pub proof fn law_one_part<T>(s: Seq<T>, sep: T)
    requires
        !s.contains(sep),
    ensures
        split(s, sep) == seq![s],
{
    lemma_find(s, sep);
}

/// The slashes at the front are left out, all of them, and nothing else.
pub proof fn law_slashes_are_trimmed(s: Seq<char>, n: int)
    requires
        0 <= n <= s.len(),
        forall|j: int| 0 <= j < n ==> s[j] == '/',
        n < s.len() ==> s[n] != '/',
    ensures
        trim_slashes(s) == s.skip(n),
{
    lemma_trim_start_is(s, |c: char| c == '/', n);
}

/// The line ends at the end are left out, all of them, and nothing else.
pub proof fn law_newlines_are_trimmed(s: Seq<char>, ends: Seq<char>)
    requires
        s.len() > 0 ==> s.last() != '\r' && s.last() != '\n',
        forall|j: int| 0 <= j < ends.len() ==> ends[j] == '\r' || ends[j] == '\n',
    ensures
        trim_newlines(s + ends) == s,
{
    let all = s + ends;
    assert forall|j: int| s.len() <= j < all.len() implies all[j] == '\r' || all[j] == '\n' by {
        assert(all[j] == ends[j - s.len()]);
    }
    lemma_trim_end_is(all, |c: char| c == '\r' || c == '\n', s.len() as int);
    assert(all.take(s.len() as int) =~= s);
}

/// White space around a text that neither begins nor ends with white space is left out.
pub proof fn law_white_space_is_trimmed(front: Seq<char>, s: Seq<char>, back: Seq<char>)
    requires
        forall|j: int| 0 <= j < front.len() ==> is_white_space(front[j]),
        forall|j: int| 0 <= j < back.len() ==> is_white_space(back[j]),
        s.len() > 0 ==> !is_white_space(s[0]) && !is_white_space(s.last()),
    ensures
        trim(front + s + back) == s,
{
    let all = front + s + back;
    let (a, b) = (front.len() as int, front.len() + s.len());
    assert forall|j: int| b <= j < all.len() implies is_white_space(all[j]) by {
        assert(all[j] == back[j - b]);
    }
    lemma_trim_is(all, a, b as int);
    assert(all.subrange(a, b as int) =~= s);
}

/// Lower case changes the letters from A to Z, each to the letter from a to z, and no other
/// character.
pub proof fn law_lower(s: Seq<char>, i: int)
    requires
        0 <= i < s.len(),
    ensures
        lower(s).len() == s.len(),
        'A' <= s[i] <= 'Z' ==> 'a' <= lower(s)[i] <= 'z' && lower(s)[i] as u32 - 'a' as u32
            == s[i] as u32 - 'A' as u32,
        !('A' <= s[i] <= 'Z') ==> lower(s)[i] == s[i],
{
}

/// A number below ten is written as its digit.
pub proof fn law_digits_are_written(d: nat)
    requires
        d < 10,
    ensures
        decimal(d).len() == 1,
        decimal(d)[0] as u32 == 48 + d,
{
}

/// A number with one more digit is written with that digit behind.
pub proof fn law_numbers_are_written(n: nat, d: nat)
    requires
        n > 0,
        d < 10,
    ensures
        decimal(n * 10 + d) == decimal(n) + decimal(d),
{
    assert((n * 10 + d) / 10 == n && (n * 10 + d) % 10 == d);
    assert(decimal(n * 10 + d) =~= decimal(n) + decimal(d));
}

/// A single character is a number if and only if it is a digit that is not too large.
pub proof fn law_digits_are_read(c: char, max: nat)
    ensures
        parse_number(seq![c], max) == if '0' <= c <= '9' && c as u32 - 48 <= max {
            Some((c as u32 - 48) as nat)
        } else {
            None
        },
{
    let s = seq![c];
    reveal_with_fuel(digits_value, 2);
    if c == '+' {
        assert(unsigned_part(s).len() == 0);
    } else {
        assert(unsigned_part(s) == s);
        assert(s.drop_last() =~= Seq::empty());
        assert(digits_value(s) == digit_value(c));
        if '0' <= c <= '9' {
            assert forall|i: int| 0 <= i < s.len() implies is_digit(#[trigger] s[i]) by {}
        } else {
            assert(!is_digit(s[0]));
        }
    }
}

/// A character behind a number makes it a number if and only if it is a digit, and the
/// larger number is not too large. Behind anything else it makes no number.
pub proof fn law_numbers_are_read(s: Seq<char>, c: char, max: nat)
    requires
        s.len() > 0,
        s != seq!['+'],
    ensures
        parse_number(s.push(c), max) == match parse_number(s, max) {
            Some(n) if '0' <= c <= '9' && n * 10 + (c as u32 - 48) <= max => Some(
                (n * 10 + (c as u32 - 48)) as nat,
            ),
            _ => None,
        },
{
    let t = s.push(c);
    let digits = unsigned_part(s);
    assert(unsigned_part(t) =~= digits.push(c));
    assert(digits.len() > 0) by {
        if digits.len() == 0 {
            assert(s =~= seq!['+']);
        }
    }
    let more = digits.push(c);
    assert(more.drop_last() =~= digits);
    assert(digits_value(more) == digits_value(digits) * 10 + digit_value(c));
    let all = forall|i: int| 0 <= i < digits.len() ==> is_digit(#[trigger] digits[i]);
    if all && is_digit(c) {
        assert forall|i: int| 0 <= i < more.len() implies is_digit(#[trigger] more[i]) by {
            if i < digits.len() {
                assert(more[i] == digits[i]);
            }
        }
    } else if !all {
        let i = choose|i: int| 0 <= i < digits.len() && !is_digit(#[trigger] digits[i]);
        assert(!is_digit(more[i]));
    } else {
        assert(!is_digit(more[digits.len() as int]));
    }
}

/// One plus sign before a number makes no difference, and two make no number. No character
/// at all is no number.
pub proof fn law_plus_signs(s: Seq<char>, max: nat)
    ensures
        parse_number(Seq::empty(), max) is None,
        s.len() == 0 || s[0] != '+' ==> parse_number(seq!['+'] + s, max) == parse_number(s, max),
        s.len() > 0 && s[0] == '+' ==> parse_number(seq!['+'] + s, max) is None,
{
    let t = seq!['+'] + s;
    assert(unsigned_part(t) =~= s);
    if s.len() > 0 && s[0] == '+' {
        assert(!is_digit(s[0]));
    }
}

/// The first of several equal elements is found, and where there is none, the end.
pub proof fn law_find<T>(front: Seq<T>, x: T, back: Seq<T>)
    requires
        !front.contains(x),
    ensures
        find(front + seq![x] + back, x) == front.len(),
        find(front, x) == front.len(),
{
    lemma_around(front, x, back);
    assert(front + seq![x] + back =~= front.push(x) + back);
    lemma_find(front, x);
}

/// White space is 25 characters: six of ASCII, two of Latin-1, and seventeen beyond, most of
/// them spaces of some width from U+2000 on.
pub proof fn law_white_space(c: char)
    ensures
        (c as u32) < 128 ==> (is_white_space(c) <==> c == ' ' || c == '\t' || c == '\n' || c == '\r'
            || c as u32 == 11 || c as u32 == 12),
        128 <= (c as u32) < 256 ==> (is_white_space(c) <==> c as u32 == 0x85 || c as u32 == 0xa0),
        256 <= (c as u32) ==> (is_white_space(c) <==> 0x2000 <= (c as u32) <= 0x200a || c as u32
            == 0x1680 || c as u32 == 0x2028 || c as u32 == 0x2029 || c as u32 == 0x202f || c as u32
            == 0x205f || c as u32 == 0x3000),
{
}

} // verus!
