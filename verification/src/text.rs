//! Text as a sequence of characters: what the protocol's lines are cut into
//! and put together from.

use vstd::prelude::*;
use vstd::string::StringExecFns;

verus! {

/// `String::push` appends one character.
pub assume_specification[ String::push ](s: &mut String, c: char)
    ensures
        final(s)@ == old(s)@.push(c),
;

// ---------------------------------------------------------------------------
// Strings and characters

/// The characters of `s`.
pub fn chars_of(s: &str) -> (v: Vec<char>)
    ensures
        v@ == s@,
{
    let mut v: Vec<char> = Vec::new();
    for c in it: s.chars()
        invariant
            v@ == s@.take(it.index() as int),
            it.seq() == s@,
    {
        v.push(c);
        assert(v@ =~= s@.take(it.index() as int + 1));
    }
    assert(v@ =~= s@);
    v
}

/// Append characters to a string.
pub fn push_chars(out: &mut String, chars: &[char])
    ensures
        final(out)@ == old(out)@ + chars@,
{
    let mut i: usize = 0;
    while i < chars.len()
        invariant
            i <= chars@.len(),
            out@ == old(out)@ + chars@.take(i as int),
        decreases chars@.len() - i,
    {
        out.push(chars[i]);
        assert(chars@.take(i + 1) =~= chars@.take(i as int).push(chars@[i as int]));
        assert(out@ =~= old(out)@ + chars@.take(i + 1));
        i = i + 1;
    }
    assert(chars@.take(i as int) =~= chars@);
}

/// The string that consists of `chars`.
pub fn string_of(chars: &[char]) -> (s: String)
    ensures
        s@ == chars@,
{
    let mut s: String = String::new();
    push_chars(&mut s, chars);
    assert(s@ =~= chars@);
    s
}

/// Whether two texts are the same.
pub fn same_chars(a: &[char], b: &[char]) -> (r: bool)
    ensures
        r == (a@ == b@),
{
    if a.len() != b.len() {
        return false;
    }
    let mut i: usize = 0;
    while i < a.len()
        invariant
            i <= a@.len(),
            a@.len() == b@.len(),
            forall|j: int| 0 <= j < i ==> a@[j] == b@[j],
        decreases a@.len() - i,
    {
        if a[i] != b[i] {
            return false;
        }
        i = i + 1;
    }
    assert(a@ =~= b@);
    true
}

/// Whether two strings are the same.
pub fn same(a: &str, b: &str) -> (r: bool)
    ensures
        r == (a@ == b@),
{
    same_chars(chars_of(a).as_slice(), chars_of(b).as_slice())
}

// ---------------------------------------------------------------------------
// Numbers

/// The character of a digit below ten.
pub open spec fn digit_char(d: int) -> char {
    ('0' as int + d) as char
}

/// `x` in decimal, without leading zeros.
pub open spec fn decimal(x: nat) -> Seq<char>
    decreases x,
{
    if x < 10 {
        seq![digit_char(x as int)]
    } else {
        decimal(x / 10).push(digit_char((x % 10) as int))
    }
}

/// Append `x` in decimal.
pub fn push_decimal(out: &mut String, x: u64)
    ensures
        final(out)@ == old(out)@ + decimal(x as nat),
    decreases x,
{
    if x >= 10 {
        push_decimal(out, x / 10);
    }
    let d: u8 = (x % 10) as u8;
    let c: char = (48u8 + d) as char;
    assert(c == digit_char((x % 10) as int));
    out.push(c);
    proof {
        if x >= 10 {
            assert(out@ =~= old(out)@ + decimal(x as nat / 10).push(c));
        } else {
            assert(out@ =~= old(out)@ + seq![c]);
        }
    }
}

/// The upper-case character of a hexadecimal digit.
pub open spec fn hex_char(d: int) -> char {
    if d < 10 {
        digit_char(d)
    } else {
        ('A' as int + d - 10) as char
    }
}

/// `x` in `n` upper-case hexadecimal digits.
pub open spec fn hex_digits(x: nat, n: nat) -> Seq<char>
    decreases n,
{
    if n == 0 {
        Seq::<char>::empty()
    } else {
        hex_digits(x / 16, (n - 1) as nat).push(hex_char((x % 16) as int))
    }
}

/// Append `x` in `n` upper-case hexadecimal digits.
pub fn push_hex(out: &mut String, x: u64, n: u8)
    ensures
        final(out)@ == old(out)@ + hex_digits(x as nat, n as nat),
    decreases n,
{
    if n == 0 {
        assert(out@ =~= old(out)@ + Seq::<char>::empty());
        return;
    }
    push_hex(out, x / 16, n - 1);
    let d: u8 = (x % 16) as u8;
    let c: char = if d < 10 {
        (48u8 + d) as char
    } else {
        (65u8 + (d - 10)) as char
    };
    assert(c == hex_char((x % 16) as int));
    out.push(c);
    assert(out@ =~= old(out)@ + hex_digits(x as nat / 16, (n - 1) as nat).push(c));
}

/// Whether `c` is an ASCII decimal digit.
pub open spec fn is_digit(c: char) -> bool {
    '0' <= c <= '9'
}

/// Whether `s` consists of decimal digits only.
pub open spec fn all_digits(s: Seq<char>) -> bool {
    forall|i: int| 0 <= i < s.len() ==> is_digit(#[trigger] s[i])
}

/// The number that a string of digits spells.
pub open spec fn digits_value(s: Seq<char>) -> nat
    decreases s.len(),
{
    if s.len() == 0 {
        0
    } else {
        digits_value(s.drop_last()) * 10 + (s.last() as int - '0' as int) as nat
    }
}

/// The digits of a number: a plus sign in front of them is allowed.
pub open spec fn unsigned_digits(s: Seq<char>) -> Seq<char> {
    if s.len() > 0 && s[0] == '+' {
        s.skip(1)
    } else {
        s
    }
}

/// The number in `s`: at least one digit, nothing else but one plus sign in
/// front, and no more than `max`.
pub open spec fn unsigned(s: Seq<char>, max: nat) -> Option<nat> {
    let digits = unsigned_digits(s);
    if digits.len() > 0 && all_digits(digits) && digits_value(digits) <= max {
        Some(digits_value(digits))
    } else {
        None
    }
}

/// A longer string of digits never spells a smaller number.
proof fn lemma_digits_value_grows(s: Seq<char>, i: int)
    requires
        0 <= i <= s.len(),
        all_digits(s),
    ensures
        digits_value(s.take(i)) <= digits_value(s),
    decreases s.len() - i,
{
    if i < s.len() {
        lemma_digits_value_grows(s, i + 1);
        assert(s.take(i + 1).drop_last() =~= s.take(i));
        assert(is_digit(s[i]));
    } else {
        assert(s.take(i) =~= s);
    }
}

/// Read the number in `s`, of at most `max`.
pub fn parse_unsigned(s: &[char], max: u64) -> (r: Option<u64>)
    ensures
        r is Some <==> unsigned(s@, max as nat) is Some,
        r matches Some(x) ==> unsigned(s@, max as nat) == Some(x as nat),
{
    let start: usize = if s.len() > 0 && s[0] == '+' {
        1
    } else {
        0
    };
    let ghost digits = unsigned_digits(s@);
    assert(digits =~= s@.skip(start as int));
    if s.len() == start {
        return None;
    }
    let mut value: u64 = 0;
    let mut i: usize = start;
    assert(digits.take(0) =~= Seq::<char>::empty());
    while i < s.len()
        invariant
            start <= i <= s@.len(),
            digits == unsigned_digits(s@),
            digits == s@.skip(start as int),
            digits.len() > 0,
            all_digits(digits.take(i - start)),
            value == digits_value(digits.take(i - start)),
            value <= max,
        decreases s@.len() - i,
    {
        let c: char = s[i];
        let ghost k = i - start;
        assert(digits[k] == c);
        if c < '0' || c > '9' {
            assert(!is_digit(digits[k]));
            return None;
        }
        let d: u64 = (c as u32 - '0' as u32) as u64;
        assert(digits.take(k + 1).drop_last() =~= digits.take(k));
        assert(digits.take(k + 1).last() == c);
        proof {
            assert(all_digits(digits.take(k + 1))) by {
                assert forall|j: int| 0 <= j < k + 1 implies is_digit(#[trigger] digits.take(k + 1)[j]) by {
                    if j < k {
                        assert(is_digit(digits.take(k)[j]));
                    }
                }
            }
            if all_digits(digits) {
                lemma_digits_value_grows(digits, k + 1);
            }
        }
        if d > max || value > (max - d) / 10 {
            return None;
        }
        value = value * 10 + d;
        i = i + 1;
    }
    assert(digits.take(i - start) =~= digits);
    Some(value)
}

/// A number is written in digits, and reading them gives the number back.
pub proof fn lemma_decimal_round_trip(x: nat)
    ensures
        decimal(x).len() > 0,
        all_digits(decimal(x)),
        digits_value(decimal(x)) == x,
        forall|max: nat| x <= max ==> #[trigger] unsigned(decimal(x), max) == Some(x),
    decreases x,
{
    reveal_with_fuel(digits_value, 2);
    if x >= 10 {
        lemma_decimal_round_trip(x / 10);
        assert(decimal(x).drop_last() =~= decimal(x / 10));
        let tens = decimal(x / 10);
        assert forall|i: int| 0 <= i < decimal(x).len() implies is_digit(#[trigger] decimal(x)[i]) by {
            if i < tens.len() {
                assert(decimal(x)[i] == tens[i]);
                assert(is_digit(tens[i]));
            }
        }
    } else {
        assert(decimal(x).drop_last() =~= Seq::<char>::empty());
    }
    assert(is_digit(decimal(x)[0]));
    assert(unsigned_digits(decimal(x)) == decimal(x));
}

// ---------------------------------------------------------------------------
// White space

/// Whether `c` is white space, in the sense of Unicode's White_Space property.
pub open spec fn is_white(c: char) -> bool {
    ||| '\u{9}' <= c <= '\u{d}'
    ||| c == ' '
    ||| c == '\u{85}'
    ||| c == '\u{a0}'
    ||| c == '\u{1680}'
    ||| '\u{2000}' <= c <= '\u{200a}'
    ||| c == '\u{2028}'
    ||| c == '\u{2029}'
    ||| c == '\u{202f}'
    ||| c == '\u{205f}'
    ||| c == '\u{3000}'
}

/// Whether `c` is white space.
pub fn white(c: char) -> (r: bool)
    ensures
        r == is_white(c),
{
    let n: u32 = c as u32;
    (0x9 <= n && n <= 0xd) || n == 0x20 || n == 0x85 || n == 0xa0 || n == 0x1680 || (0x2000 <= n && n <= 0x200a)
        || n == 0x2028 || n == 0x2029 || n == 0x202f || n == 0x205f || n == 0x3000
}

/// `s` without the white space at its start.
pub open spec fn trim_start(s: Seq<char>) -> Seq<char>
    decreases s.len(),
{
    if s.len() > 0 && is_white(s[0]) {
        trim_start(s.skip(1))
    } else {
        s
    }
}

/// `s` without the white space at its end.
pub open spec fn trim_end(s: Seq<char>) -> Seq<char>
    decreases s.len(),
{
    if s.len() > 0 && is_white(s.last()) {
        trim_end(s.drop_last())
    } else {
        s
    }
}

/// `s` without the white space around it.
pub open spec fn trim(s: Seq<char>) -> Seq<char> {
    trim_end(trim_start(s))
}

/// Remove the white space at the start of `s`.
pub fn trimmed_start(s: &[char]) -> (t: &[char])
    ensures
        t@ == trim_start(s@),
{
    let mut i: usize = 0;
    assert(s@.skip(0) =~= s@);
    while i < s.len() && white(s[i])
        invariant
            i <= s@.len(),
            trim_start(s@.skip(i as int)) == trim_start(s@),
        decreases s@.len() - i,
    {
        assert(s@.skip(i as int).skip(1) =~= s@.skip(i + 1));
        i = i + 1;
    }
    assert(s@.skip(i as int) =~= s@.subrange(i as int, s@.len() as int));
    &s[i..s.len()]
}

/// Remove the white space at the end of `s`.
pub fn trimmed_end(s: &[char]) -> (t: &[char])
    ensures
        t@ == trim_end(s@),
{
    let mut n: usize = s.len();
    assert(s@.take(n as int) =~= s@);
    while n > 0 && white(s[n - 1])
        invariant
            n <= s@.len(),
            trim_end(s@.take(n as int)) == trim_end(s@),
        decreases n,
    {
        assert(s@.take(n as int).drop_last() =~= s@.take(n - 1));
        n = n - 1;
    }
    assert(s@.take(n as int) =~= s@.subrange(0, n as int));
    &s[0..n]
}

/// Remove the white space around `s`.
pub fn trimmed(s: &[char]) -> (t: &[char])
    ensures
        t@ == trim(s@),
{
    trimmed_end(trimmed_start(s))
}

/// How many characters in front of the first white space.
pub open spec fn word_len(s: Seq<char>) -> nat
    decreases s.len(),
{
    if s.len() == 0 || is_white(s[0]) {
        0
    } else {
        1 + word_len(s.skip(1))
    }
}

/// The first word of `s`, and what follows it.
pub open spec fn first_word(s: Seq<char>) -> (Seq<char>, Seq<char>) {
    let t = trim_start(s);
    (t.take(word_len(t) as int), t.skip(word_len(t) as int))
}

/// The first word of `s` (empty, where there is none), and what follows it.
pub fn split_word(s: &[char]) -> (r: (&[char], &[char]))
    ensures
        r.0@ == first_word(s@).0,
        r.1@ == first_word(s@).1,
{
    let t: &[char] = trimmed_start(s);
    let mut n: usize = 0;
    assert(t@.skip(0) =~= t@);
    while n < t.len() && !white(t[n])
        invariant
            n <= t@.len(),
            word_len(t@) == n + word_len(t@.skip(n as int)),
        decreases t@.len() - n,
    {
        assert(t@.skip(n as int).skip(1) =~= t@.skip(n + 1));
        n = n + 1;
    }
    assert(word_len(t@.skip(n as int)) == 0);
    assert(t@.take(n as int) =~= t@.subrange(0, n as int));
    assert(t@.skip(n as int) =~= t@.subrange(n as int, t@.len() as int));
    (&t[0..n], &t[n..t.len()])
}

// ---------------------------------------------------------------------------
// Separators

/// Where `c` first stands in `s`; the length of `s`, where it does not.
pub open spec fn find_char(s: Seq<char>, c: char) -> int
    decreases s.len(),
{
    if s.len() == 0 || s[0] == c {
        0
    } else {
        1 + find_char(s.skip(1), c)
    }
}

/// The defining property of `find_char`.
pub proof fn lemma_find_char(s: Seq<char>, c: char)
    ensures
        0 <= find_char(s, c) <= s.len(),
        find_char(s, c) < s.len() ==> s[find_char(s, c)] == c,
        forall|j: int| 0 <= j < find_char(s, c) ==> s[j] != c,
    decreases s.len(),
{
    if s.len() > 0 && s[0] != c {
        lemma_find_char(s.skip(1), c);
        assert forall|j: int| 0 <= j < find_char(s, c) implies s[j] != c by {
            if j > 0 {
                assert(s[j] == s.skip(1)[j - 1]);
            }
        }
    }
}

/// Find the first `c` in `s`.
pub fn index_of(s: &[char], c: char) -> (i: usize)
    ensures
        i == find_char(s@, c),
        i <= s@.len(),
{
    let mut i: usize = 0;
    assert(s@.skip(0) =~= s@);
    while i < s.len() && s[i] != c
        invariant
            i <= s@.len(),
            find_char(s@, c) == i + find_char(s@.skip(i as int), c),
        decreases s@.len() - i,
    {
        assert(s@.skip(i as int).skip(1) =~= s@.skip(i + 1));
        i = i + 1;
    }
    i
}

/// The parts of `s` between the separators `c`. There is always at least one.
pub open spec fn split(s: Seq<char>, c: char) -> Seq<Seq<char>>
    decreases s.len(),
{
    let i = find_char(s, c);
    if 0 <= i < s.len() {
        seq![s.take(i)] + split(s.skip(i + 1), c)
    } else {
        seq![s]
    }
}

/// The parts put together again, with `c` between them.
pub open spec fn join(parts: Seq<Seq<char>>, c: char) -> Seq<char>
    decreases parts.len(),
{
    if parts.len() == 0 {
        Seq::<char>::empty()
    } else if parts.len() == 1 {
        parts[0]
    } else {
        join(parts.drop_last(), c).push(c) + parts.last()
    }
}

/// A list of texts as values.
pub open spec fn texts(v: Seq<Vec<char>>) -> Seq<Seq<char>> {
    v.map_values(|t: Vec<char>| t@)
}

/// A list of strings as values.
pub open spec fn strings(v: Seq<String>) -> Seq<Seq<char>> {
    v.map_values(|t: String| t@)
}

/// Cut `s` at every `c`.
pub fn split_at_char(s: &[char], c: char) -> (parts: Vec<Vec<char>>)
    ensures
        texts(parts@) == split(s@, c),
{
    let mut parts: Vec<Vec<char>> = Vec::new();
    let mut from: usize = 0;
    assert(s@.skip(0) =~= s@);
    assert(texts(parts@) + split(s@, c) =~= split(s@, c));
    loop
        invariant
            from <= s@.len(),
            texts(parts@) + split(s@.skip(from as int), c) == split(s@, c),
        decreases s@.len() - from,
    {
        let rest: &[char] = &s[from..s.len()];
        assert(rest@ =~= s@.skip(from as int));
        let i: usize = index_of(rest, c);
        let mut part: Vec<char> = Vec::new();
        part.extend_from_slice(&rest[0..i]);
        assert(part@ =~= rest@.take(i as int));
        let ghost before = texts(parts@);
        parts.push(part);
        assert(texts(parts@) =~= before.push(part@));
        if i < rest.len() {
            assert(rest@.skip(i + 1) =~= s@.skip(from + i + 1));
            assert(texts(parts@) + split(rest@.skip(i + 1), c) =~= before + (seq![part@] + split(
                rest@.skip(i + 1),
                c,
            )));
            from = from + i + 1;
        } else {
            assert(rest@.take(i as int) =~= rest@);
            assert(texts(parts@) =~= before + seq![part@]);
            return parts;
        }
    }
}

/// Put strings together with `c` between them.
pub fn join_strings(parts: &[String], c: char) -> (s: String)
    ensures
        s@ == join(strings(parts@), c),
{
    let mut s: String = String::new();
    let ghost all = strings(parts@);
    let mut i: usize = 0;
    while i < parts.len()
        invariant
            i <= parts@.len(),
            all == strings(parts@),
            s@ == join(all.take(i as int), c),
        decreases parts@.len() - i,
    {
        if i > 0 {
            s.push(c);
        }
        s.append(parts[i].as_str());
        proof {
            let next = all.take(i + 1);
            assert(next.drop_last() =~= all.take(i as int));
            assert(next.last() == parts@[i as int]@);
            if i == 0 {
                assert(s@ =~= next[0]);
            }
        }
        i = i + 1;
    }
    assert(all.take(i as int) =~= all);
    s
}

/// Joining from the front instead of the back.
proof fn lemma_join_front(head: Seq<char>, rest: Seq<Seq<char>>, c: char)
    requires
        rest.len() > 0,
    ensures
        join(seq![head] + rest, c) == head.push(c) + join(rest, c),
    decreases rest.len(),
{
    let all = seq![head] + rest;
    assert(all.drop_last() =~= seq![head] + rest.drop_last());
    assert(all.last() == rest.last());
    if rest.len() == 1 {
        assert(all.drop_last() =~= seq![head]);
        assert(join(seq![head], c) == head);
        assert(join(rest, c) == rest[0]);
    } else {
        lemma_join_front(head, rest.drop_last(), c);
        assert(join(all, c) =~= head.push(c) + join(rest, c));
    }
}

/// Cutting at a separator loses nothing: the parts joined by it are the text.
pub proof fn lemma_join_of_split(s: Seq<char>, c: char)
    ensures
        split(s, c).len() > 0,
        join(split(s, c), c) == s,
    decreases s.len(),
{
    lemma_find_char(s, c);
    let i = find_char(s, c);
    if i < s.len() {
        lemma_join_of_split(s.skip(i + 1), c);
        lemma_join_front(s.take(i), split(s.skip(i + 1), c), c);
        assert(s.take(i).push(c) + s.skip(i + 1) =~= s);
    }
}

/// Parts that do not hold the separator are found again after joining.
pub proof fn lemma_split_of_join(parts: Seq<Seq<char>>, c: char)
    requires
        parts.len() > 0,
        forall|k: int| 0 <= k < parts.len() ==> !(#[trigger] parts[k]).contains(c),
    ensures
        split(join(parts, c), c) == parts,
    decreases parts.len(),
{
    let head = parts[0];
    let s = join(parts, c);
    assert(!head.contains(c));
    lemma_find_char(s, c);
    let i = find_char(s, c);
    if parts.len() == 1 {
        if i < s.len() {
            assert(head.contains(head[i]));
        }
        assert(split(s, c) =~= parts);
    } else {
        let rest = parts.skip(1);
        assert(parts =~= seq![head] + rest);
        lemma_join_front(head, rest, c);
        assert forall|k: int| 0 <= k < rest.len() implies !(#[trigger] rest[k]).contains(c) by {
            assert(rest[k] == parts[k + 1]);
        }
        lemma_split_of_join(rest, c);
        assert(s[head.len() as int] == c);
        if i < head.len() {
            assert(head[i] == s[i]);
            assert(head.contains(head[i]));
        }
        assert(i == head.len());
        assert(s.take(i) =~= head);
        assert(s.skip(i + 1) =~= join(rest, c));
    }
}

/// Whether `s` starts with `prefix`.
pub open spec fn has_prefix(s: Seq<char>, prefix: Seq<char>) -> bool {
    s.len() >= prefix.len() && s.take(prefix.len() as int) == prefix
}

/// What follows `prefix` in `s`, if that starts with it.
pub fn strip_prefix<'a>(s: &'a [char], prefix: &[char]) -> (r: Option<&'a [char]>)
    ensures
        r is Some <==> has_prefix(s@, prefix@),
        r matches Some(t) ==> t@ == s@.skip(prefix@.len() as int),
{
    let n: usize = prefix.len();
    if s.len() < n {
        return None;
    }
    assert(s@.take(n as int) =~= s@.subrange(0, n as int));
    if same_chars(&s[0..n], prefix) {
        assert(s@.skip(n as int) =~= s@.subrange(n as int, s@.len() as int));
        Some(&s[n..s.len()])
    } else {
        None
    }
}

/// What follows the last `c` in `s`; all of `s`, where there is none.
pub open spec fn after_last(s: Seq<char>, c: char) -> Seq<char>
    decreases s.len(),
{
    if s.len() == 0 {
        s
    } else if s.last() == c {
        Seq::<char>::empty()
    } else {
        after_last(s.drop_last(), c).push(s.last())
    }
}

/// What follows the last `c` in `s`.
pub fn suffix_after(s: &[char], c: char) -> (t: &[char])
    ensures
        t@ == after_last(s@, c),
{
    let mut i: usize = s.len();
    proof {
        assert(s@.skip(i as int) =~= Seq::<char>::empty());
        assert(s@.take(i as int) =~= s@);
        assert(after_last(s@, c) =~= after_last(s@.take(i as int), c) + s@.skip(i as int));
    }
    while i > 0 && s[i - 1] != c
        invariant
            i <= s@.len(),
            after_last(s@, c) == after_last(s@.take(i as int), c) + s@.skip(i as int),
        decreases i,
    {
        proof {
            let t = s@.take(i as int);
            assert(t.drop_last() =~= s@.take(i - 1));
            assert(after_last(t, c) + s@.skip(i as int) =~= after_last(s@.take(i - 1), c) + s@.skip(i - 1));
        }
        i = i - 1;
    }
    assert(after_last(s@.take(i as int), c) =~= Seq::<char>::empty());
    assert(after_last(s@, c) =~= s@.subrange(i as int, s@.len() as int));
    &s[i..s.len()]
}

/// What follows the first `c` in `s`; all of `s`, where there is none.
pub open spec fn after_first(s: Seq<char>, c: char) -> Seq<char> {
    let i = find_char(s, c);
    if 0 <= i < s.len() {
        s.skip(i + 1)
    } else {
        s
    }
}

/// What follows the first `c` in `s`.
pub fn rest_after(s: &[char], c: char) -> (t: &[char])
    ensures
        t@ == after_first(s@, c),
{
    let i: usize = index_of(s, c);
    if i < s.len() {
        assert(s@.skip(i + 1) =~= s@.subrange(i + 1, s@.len() as int));
        &s[i + 1..s.len()]
    } else {
        s
    }
}

/// What follows the first `c` is what was put behind it, and a text without
/// `c` is whole.
pub proof fn lemma_after_first(prefix: Seq<char>, s: Seq<char>, c: char)
    requires
        !prefix.contains(c),
    ensures
        after_first(prefix.push(c) + s, c) == s,
        after_first(prefix, c) == prefix,
{
    let all = prefix.push(c) + s;
    lemma_find_char(prefix, c);
    lemma_find_char(all, c);
    assert(all[prefix.len() as int] == c);
    let i = find_char(all, c);
    if i < prefix.len() {
        assert(prefix[i] == c);
        assert(prefix.contains(c));
    }
    assert(all.skip(i + 1) =~= s);
    if find_char(prefix, c) < prefix.len() {
        assert(prefix.contains(c));
    }
}

/// A text without `c` is all that follows the last `c`.
pub proof fn lemma_after_last_none(s: Seq<char>, c: char)
    requires
        !s.contains(c),
    ensures
        after_last(s, c) == s,
    decreases s.len(),
{
    if s.len() > 0 {
        assert(s.contains(s.last()));
        assert forall|x: char| #[trigger] s.drop_last().contains(x) implies s.contains(x) by {
            let i = choose|i: int| 0 <= i < s.drop_last().len() && s.drop_last()[i] == x;
            assert(s[i] == x);
        }
        lemma_after_last_none(s.drop_last(), c);
        assert(s.drop_last().push(s.last()) =~= s);
    }
}

/// What stands in front of a `c` does not matter for what follows the last one.
pub proof fn lemma_after_last_ignores_prefix(prefix: Seq<char>, s: Seq<char>, c: char)
    ensures
        after_last(prefix.push(c) + s, c) == after_last(s, c),
    decreases s.len(),
{
    let all = prefix.push(c) + s;
    if s.len() == 0 {
        assert(all.last() == c);
        assert(after_last(s, c) =~= Seq::<char>::empty());
    } else {
        assert(all.last() == s.last());
        assert(all.drop_last() =~= prefix.push(c) + s.drop_last());
        lemma_after_last_ignores_prefix(prefix, s.drop_last(), c);
    }
}

// ---------------------------------------------------------------------------
// Case

/// `c` with an ASCII capital made small.
pub open spec fn lower_char(c: char) -> char {
    if 'A' <= c <= 'Z' {
        (c as int + 32) as char
    } else {
        c
    }
}

/// `s` with the ASCII capitals made small.
pub open spec fn lower(s: Seq<char>) -> Seq<char> {
    s.map_values(|c: char| lower_char(c))
}

fn lowered_char(c: char) -> (l: char)
    ensures
        l == lower_char(c),
{
    if 'A' <= c && c <= 'Z' {
        (c as u8 + 32) as char
    } else {
        c
    }
}

/// Make the ASCII capitals of `s` small.
pub fn lowered(s: &[char]) -> (t: Vec<char>)
    ensures
        t@ == lower(s@),
{
    let mut t: Vec<char> = Vec::new();
    let mut i: usize = 0;
    while i < s.len()
        invariant
            i <= s@.len(),
            t@ == lower(s@).take(i as int),
        decreases s@.len() - i,
    {
        t.push(lowered_char(s[i]));
        assert(t@ =~= lower(s@).take(i + 1));
        i = i + 1;
    }
    assert(t@ =~= lower(s@));
    t
}

// ---------------------------------------------------------------------------
// What texts mean

/// Decimal, digit by digit: a number below ten is its digit, and each further
/// digit stands behind those of the tenth part.
pub proof fn lemma_decimal_digits(x: nat, d: nat)
    requires
        d < 10,
    ensures
        decimal(d) == seq![(48 + d) as char],
        x > 0 ==> decimal(10 * x + d) == decimal(x).push((48 + d) as char),
{
    assert((10 * x + d) / 10 == x && (10 * x + d) % 10 == d);
}

/// Hexadecimal, digit by digit: 0 to 9 and A to F, of a fixed number, the
/// highest first.
pub proof fn lemma_hex_digits(x: nat, n: nat, d: nat)
    requires
        d < 16,
    ensures
        hex_digits(x, n).len() == n,
        hex_digits(16 * x + d, n + 1) == hex_digits(x, n).push(
            (if d < 10 {
                48 + d
            } else {
                55 + d
            }) as char,
        ),
    decreases n,
{
    assert((16 * x + d) / 16 == x && (16 * x + d) % 16 == d);
    if n > 0 {
        lemma_hex_digits(x / 16, (n - 1) as nat, 0);
    }
}

/// What a string of digits means as a number: the empty one means none, a
/// single digit its value, and each further digit ten times what stands in
/// front of it and itself, up to `max`.
pub proof fn lemma_number_is_read(s: Seq<char>, c: char, v: nat, bound: nat, max: nat)
    ensures
        unsigned(Seq::<char>::empty(), max) is None,
        '0' <= c <= '9' && c as int - 48 <= max ==> unsigned(seq![c], max) == Some((c as int - 48) as nat),
        '0' <= c <= '9' && unsigned(s, bound) == Some(v) ==> unsigned(s.push(c), max) == (if 10 * v + (c as int
            - 48) <= max {
            Some((10 * v + (c as int - 48)) as nat)
        } else {
            None
        }),
        !('0' <= c <= '9') && (s.len() > 0 || c != '+') ==> unsigned(s.push(c), max) is None,
        c == '+' ==> unsigned(seq![c], max) is None,
{
    reveal_with_fuel(digits_value, 2);
    if '0' <= c <= '9' {
        assert(unsigned_digits(seq![c]) == seq![c]);
        assert(all_digits(seq![c]));
        assert(seq![c].drop_last() =~= Seq::<char>::empty());
    }
    if c == '+' {
        assert(unsigned_digits(seq![c]) =~= Seq::<char>::empty());
    }
    let all = unsigned_digits(s.push(c));
    if s.len() > 0 {
        assert(all =~= unsigned_digits(s).push(c));
        assert(all.last() == c);
        assert(all.drop_last() =~= unsigned_digits(s));
        if '0' <= c <= '9' && unsigned(s, bound) == Some(v) {
            assert(all_digits(all)) by {
                assert forall|i: int| 0 <= i < all.len() implies is_digit(#[trigger] all[i]) by {
                    if i < all.len() - 1 {
                        assert(is_digit(unsigned_digits(s)[i]));
                    }
                }
            }
        }
    } else {
        assert(s.push(c) =~= seq![c]);
    }
    if !('0' <= c <= '9') && (s.len() > 0 || c != '+') {
        assert(all.len() > 0 && all.last() == c);
        assert(!is_digit(all[all.len() - 1]));
    }
}

/// A number is read to the end: whatever character is no digit, other than a
/// plus sign in front, makes it none. A plus sign in front of digits does not
/// count.
pub proof fn lemma_numbers_are_digits(s: Seq<char>, max: nat, i: int)
    ensures
        unsigned(s, max) is Some && 0 <= i < s.len() ==> '0' <= s[i] <= '9' || (i == 0 && s[0] == '+' && s.len() > 1),
        unsigned(s, max) matches Some(v) ==> v <= max,
        s.len() > 0 && s[0] != '+' ==> unsigned(seq!['+'] + s, max) == unsigned(s, max),
{
    let digits = unsigned_digits(s);
    if unsigned(s, max) is Some && 0 <= i < s.len() {
        if s[0] == '+' {
            if i > 0 {
                assert(digits[i - 1] == s[i]);
                assert(is_digit(digits[i - 1]));
            }
        } else {
            assert(is_digit(digits[i]));
        }
    }
    if s.len() > 0 && s[0] != '+' {
        assert((seq!['+'] + s).skip(1) =~= s);
    }
}

/// Trimming takes off white space and nothing else: what is left is what was
/// there, it neither starts nor ends with white space, and all that went was
/// white space.
pub proof fn lemma_trim_start(s: Seq<char>)
    ensures
        trim_start(s).len() <= s.len(),
        trim_start(s) == s.skip(s.len() - trim_start(s).len()),
        forall|i: int| 0 <= i < s.len() - trim_start(s).len() ==> is_white(#[trigger] s[i]),
        trim_start(s).len() > 0 ==> !is_white(trim_start(s)[0]),
    decreases s.len(),
{
    if s.len() > 0 && is_white(s[0]) {
        lemma_trim_start(s.skip(1));
        let t = trim_start(s);
        assert(s.skip(1).skip(s.len() - 1 - t.len()) =~= s.skip(s.len() - t.len()));
        assert forall|i: int| 0 <= i < s.len() - t.len() implies is_white(#[trigger] s[i]) by {
            if i > 0 {
                assert(is_white(s.skip(1)[i - 1]));
            }
        }
    } else {
        assert(s.skip(0) =~= s);
    }
}

/// The same at the end.
pub proof fn lemma_trim_end(s: Seq<char>)
    ensures
        trim_end(s).len() <= s.len(),
        trim_end(s) == s.take(trim_end(s).len() as int),
        forall|i: int| trim_end(s).len() <= i < s.len() ==> is_white(#[trigger] s[i]),
        trim_end(s).len() > 0 ==> !is_white(trim_end(s).last()),
    decreases s.len(),
{
    if s.len() > 0 && is_white(s.last()) {
        lemma_trim_end(s.drop_last());
        let t = trim_end(s);
        assert(s.drop_last().take(t.len() as int) =~= s.take(t.len() as int));
        assert forall|i: int| t.len() <= i < s.len() implies is_white(#[trigger] s[i]) by {
            if i < s.len() - 1 {
                assert(is_white(s.drop_last()[i]));
            }
        }
    } else {
        assert(s.take(s.len() as int) =~= s);
    }
}

/// Trimming leaves a text between white space as it is.
pub proof fn lemma_trim_between(before: Seq<char>, s: Seq<char>, after: Seq<char>)
    requires
        forall|i: int| 0 <= i < before.len() ==> is_white(#[trigger] before[i]),
        forall|i: int| 0 <= i < after.len() ==> is_white(#[trigger] after[i]),
        s.len() > 0,
        !is_white(s[0]),
        !is_white(s.last()),
    ensures
        trim(before + s + after) == s,
{
    let all = before + s + after;
    lemma_trim_start(all);
    let t = trim_start(all);
    let k = all.len() - t.len();
    if k < before.len() {
        assert(is_white(before[k]));
        assert(t[0] == all[k] && all[k] == before[k]);
    }
    if k > before.len() {
        assert(all[before.len() as int] == s[0]);
        assert(is_white(all[before.len() as int]));
    }
    assert(t =~= s + after);
    lemma_trim_end(t);
    let u = trim_end(t);
    if u.len() > s.len() {
        assert(u.last() == t[u.len() - 1] && t[u.len() - 1] == after[u.len() - 1 - s.len()]);
        assert(is_white(after[u.len() - 1 - s.len()]));
    }
    if u.len() < s.len() {
        assert(t[s.len() - 1] == s.last());
        assert(is_white(t[s.len() - 1]));
    }
    assert(u =~= s);
}

proof fn lemma_word_len(s: Seq<char>)
    ensures
        word_len(s) <= s.len(),
        forall|i: int| 0 <= i < word_len(s) ==> !is_white(#[trigger] s[i]),
        word_len(s) < s.len() ==> is_white(s[word_len(s) as int]),
    decreases s.len(),
{
    if s.len() > 0 && !is_white(s[0]) {
        lemma_word_len(s.skip(1));
        assert forall|i: int| 0 <= i < word_len(s) implies !is_white(#[trigger] s[i]) by {
            if i > 0 {
                assert(s[i] == s.skip(1)[i - 1]);
            }
        }
        if word_len(s) < s.len() {
            assert(s[word_len(s) as int] == s.skip(1)[word_len(s) - 1]);
        }
    }
}

/// The first word is what stands between white space: it is found behind any
/// white space in front of it, it ends at the next one, and the rest follows
/// it.
pub proof fn lemma_first_word(before: Seq<char>, word: Seq<char>, rest: Seq<char>)
    requires
        forall|i: int| 0 <= i < before.len() ==> is_white(#[trigger] before[i]),
        forall|i: int| 0 <= i < word.len() ==> !is_white(#[trigger] word[i]),
        word.len() > 0,
        rest.len() > 0 ==> is_white(rest[0]),
    ensures
        first_word(before + word + rest) == (word, rest),
{
    let all = before + word + rest;
    lemma_trim_start(all);
    let t = trim_start(all);
    let k = all.len() - t.len();
    assert(!is_white(word[0]));
    if k < before.len() {
        assert(is_white(before[k]));
        assert(t[0] == all[k] && all[k] == before[k]);
    }
    if k > before.len() {
        assert(all[before.len() as int] == word[0]);
        assert(is_white(all[before.len() as int]));
    }
    assert(t =~= word + rest);
    lemma_word_len(t);
    let n = word_len(t);
    if n < word.len() {
        assert(t[n as int] == word[n as int]);
        assert(!is_white(word[n as int]));
    }
    if n > word.len() {
        assert(t[word.len() as int] == rest[0]);
        assert(!is_white(t[word.len() as int]));
    }
    assert(t.take(n as int) =~= word);
    assert(t.skip(n as int) =~= rest);
}

/// A text of white space has no word.
pub proof fn lemma_no_word(s: Seq<char>)
    requires
        forall|i: int| 0 <= i < s.len() ==> is_white(#[trigger] s[i]),
    ensures
        first_word(s).0 == Seq::<char>::empty(),
{
    lemma_trim_start(s);
    let t = trim_start(s);
    if t.len() > 0 {
        assert(is_white(s[s.len() - t.len()]));
        assert(t[0] == s[s.len() - t.len()]);
    }
    assert(t.take(0) =~= Seq::<char>::empty());
}

/// Parts are joined with exactly one separator between them, and no part of a
/// text that was cut holds the separator.
pub proof fn lemma_join_adds_separators(parts: Seq<Seq<char>>, last: Seq<char>, c: char)
    ensures
        join(seq![last], c) == last,
        parts.len() > 0 ==> join(parts.push(last), c) == join(parts, c) + seq![c] + last,
{
    assert(parts.push(last).drop_last() =~= parts);
    if parts.len() > 0 {
        assert(join(parts.push(last), c) =~= join(parts, c) + seq![c] + last);
    }
}

/// No part of a text that was cut holds the separator.
pub proof fn lemma_parts_hold_no_separator(s: Seq<char>, c: char, k: int)
    requires
        0 <= k < split(s, c).len(),
    ensures
        !split(s, c)[k].contains(c),
    decreases s.len(),
{
    lemma_find_char(s, c);
    let i = find_char(s, c);
    if i < s.len() {
        if k == 0 {
            assert(split(s, c)[0] == s.take(i));
        } else {
            lemma_parts_hold_no_separator(s.skip(i + 1), c, k - 1);
        }
    } else {
        assert(split(s, c)[k] == s);
    }
}

/// A text starts with a prefix exactly where it is that prefix and more.
pub proof fn lemma_prefix(s: Seq<char>, prefix: Seq<char>, rest: Seq<char>)
    ensures
        has_prefix(prefix + rest, prefix),
        (prefix + rest).skip(prefix.len() as int) == rest,
        has_prefix(s, prefix) ==> s == prefix + s.skip(prefix.len() as int),
{
    assert((prefix + rest).take(prefix.len() as int) =~= prefix);
    assert((prefix + rest).skip(prefix.len() as int) =~= rest);
    if has_prefix(s, prefix) {
        assert(s =~= prefix + s.skip(prefix.len() as int));
    }
}

/// Only the 26 ASCII capitals change, each into its small letter, and every
/// character keeps its place.
pub proof fn lemma_lower(s: Seq<char>, i: int)
    requires
        0 <= i < s.len(),
    ensures
        lower(s).len() == s.len(),
        lower(s)[i] == (if 65 <= s[i] as int <= 90 {
            (s[i] as int + 32) as char
        } else {
            s[i]
        }),
{
}

/// Strings and lists of characters stand for their characters.
pub proof fn lemma_lists(v: Seq<String>, t: Seq<Vec<char>>)
    ensures
        strings(v).len() == v.len(),
        texts(t).len() == t.len(),
        forall|i: int| 0 <= i < v.len() ==> #[trigger] strings(v)[i] == v[i]@,
        forall|i: int| 0 <= i < t.len() ==> #[trigger] texts(t)[i] == t[i]@,
{
}

} // verus!
