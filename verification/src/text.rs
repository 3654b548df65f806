//! Text as a sequence of characters.
//!
//! The library reasons about strings through their view, a `Seq<char>`. The
//! functions here are the handful of string operations the rest of the crate
//! needs, each next to the specification it is proved against.

use vstd::prelude::*;

verus! {

broadcast use vstd::string::group_string_axioms;

/// `String::push` appends one character at the end.
pub assume_specification[ String::push ](s: &mut String, c: char)
    ensures
        final(s)@ == old(s)@.push(c),
;

/// The characters of `text`, in order.
pub fn chars_of(text: &str) -> (out: Vec<char>)
    ensures
        out@ == text@,
{
    let mut out: Vec<char> = Vec::new();
    for c in it: text.chars()
        invariant
            out@ == it.seq().take(it.index()),
            it.seq() == text@,
    {
        out.push(c);
    }
    out
}

/// The string made of `chars[start..end]`.
pub fn string_of_range(chars: &Vec<char>, start: usize, end: usize) -> (out: String)
    requires
        start <= end <= chars@.len(),
    ensures
        out@ == chars@.subrange(start as int, end as int),
{
    let mut out = String::new();
    let mut i: usize = start;
    while i < end
        invariant
            start <= i <= end <= chars@.len(),
            out@ == chars@.subrange(start as int, i as int),
        decreases end - i,
    {
        out.push(chars[i]);
        i += 1;
        assert(out@ =~= chars@.subrange(start as int, i as int));
    }
    out
}

/// The characters `chars` as a string.
pub fn string_of(chars: &Vec<char>) -> (out: String)
    ensures
        out@ == chars@,
{
    let out = string_of_range(chars, 0, chars.len());
    assert(chars@.subrange(0, chars@.len() as int) =~= chars@);
    out
}

/// The bytes of a text in UTF-8.
pub fn bytes_of(text: &str) -> (out: Vec<u8>)
    ensures
        out@ == vstd::utf8::encode_utf8(text@),
{
    let bytes = text.as_bytes();
    let mut out: Vec<u8> = Vec::new();
    let mut i: usize = 0;
    while i < bytes.len()
        invariant
            i <= bytes@.len(),
            out@ =~= bytes@.take(i as int),
        decreases bytes@.len() - i,
    {
        out.push(bytes[i]);
        i += 1;
    }
    assert(bytes@.take(i as int) =~= bytes@);
    out
}

/// Whether two texts hold the same characters.
pub(crate) fn same_text(a: &str, b: &str) -> (r: bool)
    ensures
        r == (a@ == b@),
{
    let left = a.as_bytes();
    let right = b.as_bytes();
    proof {
        // A text can be told from its bytes.
        vstd::utf8::encode_utf8_decode_utf8(a@);
        vstd::utf8::encode_utf8_decode_utf8(b@);
    }
    if left.len() != right.len() {
        return false;
    }
    let mut i: usize = 0;
    while i < left.len()
        invariant
            i <= left@.len(),
            left@.len() == right@.len(),
            left@ == vstd::utf8::encode_utf8(a@),
            right@ == vstd::utf8::encode_utf8(b@),
            forall|k: int| 0 <= k < i ==> left@[k] == right@[k],
        decreases left@.len() - i,
    {
        if left[i] != right[i] {
            return false;
        }
        i += 1;
    }
    assert(left@ =~= right@);
    true
}

/// The texts one after the other.
pub fn joined(a: &str, b: &str) -> (r: String)
    ensures
        r@ == a@ + b@,
{
    let mut out = a.to_owned();
    out.append(b);
    out
}

// ---------------------------------------------------------------------------
// White space
// ---------------------------------------------------------------------------

/// The characters with the Unicode `White_Space` property.
pub open spec fn is_space(c: char) -> bool {
    let n = c as u32;
    ||| 0x9 <= n <= 0xd
    ||| n == 0x20
    ||| n == 0x85
    ||| n == 0xa0
    ||| n == 0x1680
    ||| 0x2000 <= n <= 0x200a
    ||| n == 0x2028
    ||| n == 0x2029
    ||| n == 0x202f
    ||| n == 0x205f
    ||| n == 0x3000
}

/// Whether `c` is white space.
pub fn space(c: char) -> (r: bool)
    ensures
        r == is_space(c),
{
    let n: u32 = c as u32;
    (0x9 <= n && n <= 0xd) || n == 0x20 || n == 0x85 || n == 0xa0 || n == 0x1680 || (0x2000 <= n
        && n <= 0x200a) || n == 0x2028 || n == 0x2029 || n == 0x202f || n == 0x205f || n == 0x3000
}

/// `s` without its leading white space.
pub open spec fn trim_start(s: Seq<char>) -> Seq<char>
    decreases s.len(),
{
    if s.len() > 0 && is_space(s[0]) {
        trim_start(s.skip(1))
    } else {
        s
    }
}

/// `s` without its trailing white space.
pub open spec fn trim_end(s: Seq<char>) -> Seq<char>
    decreases s.len(),
{
    if s.len() > 0 && is_space(s.last()) {
        trim_end(s.drop_last())
    } else {
        s
    }
}

/// `s` without the white space at its two ends.
pub open spec fn trim(s: Seq<char>) -> Seq<char> {
    trim_end(trim_start(s))
}

/// Where `chars[start..end]` begins once its leading white space is dropped.
pub fn skip_spaces(chars: &Vec<char>, start: usize, end: usize) -> (at: usize)
    requires
        start <= end <= chars@.len(),
    ensures
        start <= at <= end,
        chars@.subrange(at as int, end as int) == trim_start(
            chars@.subrange(start as int, end as int),
        ),
{
    let mut at: usize = start;
    while at < end && space(chars[at])
        invariant
            start <= at <= end <= chars@.len(),
            trim_start(chars@.subrange(start as int, end as int)) == trim_start(
                chars@.subrange(at as int, end as int),
            ),
        decreases end - at,
    {
        assert(chars@.subrange(at as int, end as int).skip(1) =~= chars@.subrange(
            at + 1,
            end as int,
        ));
        at += 1;
    }
    at
}

/// Where `chars[start..end]` ends once its trailing white space is dropped.
pub fn skip_spaces_back(chars: &Vec<char>, start: usize, end: usize) -> (at: usize)
    requires
        start <= end <= chars@.len(),
    ensures
        start <= at <= end,
        chars@.subrange(start as int, at as int) == trim_end(
            chars@.subrange(start as int, end as int),
        ),
{
    let mut at: usize = end;
    while at > start && space(chars[at - 1])
        invariant
            start <= at <= end <= chars@.len(),
            trim_end(chars@.subrange(start as int, end as int)) == trim_end(
                chars@.subrange(start as int, at as int),
            ),
        decreases at,
    {
        assert(chars@.subrange(start as int, at as int).drop_last() =~= chars@.subrange(
            start as int,
            at - 1,
        ));
        at -= 1;
    }
    at
}

/// `text` without the white space at its two ends.
pub fn trimmed(text: &str) -> (out: String)
    ensures
        out@ == trim(text@),
{
    let chars = chars_of(text);
    let start: usize = skip_spaces(&chars, 0, chars.len());
    assert(chars@.subrange(0, chars@.len() as int) =~= chars@);
    let end: usize = skip_spaces_back(&chars, start, chars.len());
    string_of_range(&chars, start, end)
}

/// The words of `s` with one space between each two.
pub open spec fn squeezed(s: Seq<char>) -> Seq<char>
    decreases s.len(),
{
    if s.len() == 0 {
        Seq::empty()
    } else {
        let before = squeezed(s.drop_last());
        let c = s.last();
        if is_space(c) {
            before
        } else if before.len() > 0 && is_space(s[s.len() - 2]) {
            before.push(' ').push(c)
        } else {
            before.push(c)
        }
    }
}

/// The words of `text` with one space between each two.
pub fn squeeze(text: &str) -> (out: Vec<char>)
    ensures
        out@ == squeezed(text@),
{
    let chars = chars_of(text);
    let mut out: Vec<char> = Vec::new();
    let mut i: usize = 0;
    proof {
        assert(chars@.take(0) =~= Seq::empty());
    }
    while i < chars.len()
        invariant
            i <= chars@.len(),
            out@ == squeezed(chars@.take(i as int)),
        decreases chars@.len() - i,
    {
        let c = chars[i];
        proof {
            let t = chars@.take(i + 1);
            assert(t.drop_last() =~= chars@.take(i as int));
            assert(t.last() == c);
            assert(i > 0 ==> t[t.len() - 2] == chars@[i - 1]);
            assert(i == 0 ==> out@.len() == 0);
        }
        if !space(c) {
            if out.len() > 0 && space(chars[i - 1]) {
                out.push(' ');
            }
            out.push(c);
        }
        i += 1;
    }
    proof {
        assert(chars@.take(chars@.len() as int) =~= chars@);
    }
    out
}

// ---------------------------------------------------------------------------
// Searching
// ---------------------------------------------------------------------------

/// Whether `needle` stands in `s` at position `at`.
pub open spec fn matches_at(s: Seq<char>, needle: Seq<char>, at: int) -> bool {
    0 <= at && at + needle.len() <= s.len() && s.subrange(at, at + needle.len()) == needle
}

/// Whether `needle` stands somewhere in `s`.
pub open spec fn contains(s: Seq<char>, needle: Seq<char>) -> bool {
    exists|at: int| matches_at(s, needle, at)
}

/// The first position from `from` on at which `needle` stands in `s`.
pub open spec fn find_from(s: Seq<char>, needle: Seq<char>, from: int) -> Option<int>
    decreases s.len() - from + 1,
{
    if from < 0 || from + needle.len() > s.len() {
        None
    } else if matches_at(s, needle, from) {
        Some(from)
    } else {
        find_from(s, needle, from + 1)
    }
}

/// The first position at which `needle` stands in `s`.
pub open spec fn find(s: Seq<char>, needle: Seq<char>) -> Option<int> {
    find_from(s, needle, 0)
}

/// The last position up to `to` at which `needle` stands in `s`.
pub open spec fn rfind_to(s: Seq<char>, needle: Seq<char>, to: int) -> Option<int>
    decreases to + 1,
{
    if to < 0 {
        None
    } else if matches_at(s, needle, to) {
        Some(to)
    } else {
        rfind_to(s, needle, to - 1)
    }
}

/// The last position at which `needle` stands in `s`.
pub open spec fn rfind(s: Seq<char>, needle: Seq<char>) -> Option<int> {
    rfind_to(s, needle, s.len() - needle.len())
}

/// What follows `prefix` in `s`, where `s` begins with it.
pub open spec fn strip_prefix(s: Seq<char>, prefix: Seq<char>) -> Option<Seq<char>> {
    if matches_at(s, prefix, 0) {
        Some(s.skip(prefix.len() as int))
    } else {
        None
    }
}

/// What precedes `suffix` in `s`, where `s` ends with it.
pub open spec fn strip_suffix(s: Seq<char>, suffix: Seq<char>) -> Option<Seq<char>> {
    if matches_at(s, suffix, s.len() - suffix.len()) {
        Some(s.take(s.len() - suffix.len()))
    } else {
        None
    }
}

/// `find_from` gives the first match and nothing where there is none.
pub proof fn lemma_find_from(s: Seq<char>, needle: Seq<char>, from: int)
    requires
        from >= 0,
    ensures
        match find_from(s, needle, from) {
            Some(at) => from <= at && matches_at(s, needle, at) && forall|k: int|
                from <= k < at ==> !matches_at(s, needle, k),
            None => forall|k: int| from <= k ==> !matches_at(s, needle, k),
        },
    decreases s.len() - from + 1,
{
    if from + needle.len() > s.len() {
    } else if matches_at(s, needle, from) {
    } else {
        lemma_find_from(s, needle, from + 1);
    }
}

/// `find_from` is the position that matches with no match before it.
pub proof fn lemma_find_from_is(s: Seq<char>, needle: Seq<char>, from: int, at: int)
    requires
        0 <= from <= at,
        matches_at(s, needle, at),
        forall|k: int| from <= k < at ==> !matches_at(s, needle, k),
    ensures
        find_from(s, needle, from) == Some(at),
{
    lemma_find_from(s, needle, from);
}

/// `rfind_to` gives the last match and nothing where there is none.
pub proof fn lemma_rfind_to(s: Seq<char>, needle: Seq<char>, to: int)
    ensures
        match rfind_to(s, needle, to) {
            Some(at) => at <= to && matches_at(s, needle, at) && forall|k: int|
                at < k <= to ==> !matches_at(s, needle, k),
            None => forall|k: int| k <= to ==> !matches_at(s, needle, k),
        },
    decreases to + 1,
{
    if to < 0 {
    } else if matches_at(s, needle, to) {
    } else {
        lemma_rfind_to(s, needle, to - 1);
    }
}

/// Whether `needle` stands in `chars` at `at`.
pub fn stands_at(chars: &Vec<char>, needle: &Vec<char>, at: usize) -> (r: bool)
    requires
        at <= chars@.len(),
    ensures
        r == matches_at(chars@, needle@, at as int),
{
    if needle.len() > chars.len() - at {
        return false;
    }
    let mut i: usize = 0;
    while i < needle.len()
        invariant
            i <= needle@.len(),
            at + needle@.len() <= chars.len(),
            forall|k: int| 0 <= k < i ==> chars@[at + k] == needle@[k],
        decreases needle@.len() - i,
    {
        if chars[at + i] != needle[i] {
            assert(chars@.subrange(at as int, at + needle@.len())[i as int] != needle@[i as int]);
            return false;
        }
        i += 1;
    }
    assert(chars@.subrange(at as int, at + needle@.len()) =~= needle@);
    true
}

/// The first position from `from` on at which `needle` stands in `chars`.
pub fn find_at(chars: &Vec<char>, needle: &Vec<char>, from: usize) -> (at: Option<usize>)
    requires
        from <= chars@.len(),
    ensures
        match at {
            Some(at) => find_from(chars@, needle@, from as int) == Some(at as int),
            None => find_from(chars@, needle@, from as int) is None,
        },
        at is Some ==> from <= at->Some_0 && at->Some_0 + needle@.len() <= chars.len(),
{
    let mut i: usize = from;
    loop
        invariant
            from <= i <= chars@.len(),
            find_from(chars@, needle@, from as int) == find_from(chars@, needle@, i as int),
        decreases chars@.len() - i,
    {
        if needle.len() > chars.len() - i {
            return None;
        }
        if stands_at(chars, needle, i) {
            return Some(i);
        }
        if i == chars.len() {
            assert(chars@.subrange(i as int, i as int) =~= needle@);
            return None;
        }
        i += 1;
    }
}

/// The last position at which `needle` stands in `chars`.
pub fn rfind_at(chars: &Vec<char>, needle: &Vec<char>) -> (at: Option<usize>)
    ensures
        match at {
            Some(at) => rfind(chars@, needle@) == Some(at as int),
            None => rfind(chars@, needle@) is None,
        },
        at is Some ==> at->Some_0 + needle@.len() <= chars.len(),
{
    if needle.len() > chars.len() {
        return None;
    }
    let mut i: usize = chars.len() - needle.len();
    loop
        invariant
            i + needle@.len() <= chars@.len(),
            rfind(chars@, needle@) == rfind_to(chars@, needle@, i as int),
        decreases i,
    {
        if stands_at(chars, needle, i) {
            return Some(i);
        }
        if i == 0 {
            assert(rfind_to(chars@, needle@, -1) is None);
            return None;
        }
        i -= 1;
    }
}

/// Whether `needle` stands somewhere in `chars`.
pub fn holds(chars: &Vec<char>, needle: &str) -> (r: bool)
    ensures
        r == contains(chars@, needle@),
{
    let wanted = chars_of(needle);
    proof {
        lemma_find_from(chars@, needle@, 0);
    }
    find_at(chars, &wanted, 0).is_some()
}

/// Whether `text` begins with `prefix`.
pub fn starts_with(text: &str, prefix: &str) -> (r: bool)
    ensures
        r == matches_at(text@, prefix@, 0),
{
    stands_at(&chars_of(text), &chars_of(prefix), 0)
}

// ---------------------------------------------------------------------------
// ASCII
// ---------------------------------------------------------------------------

pub open spec fn is_upper(c: char) -> bool {
    'A' <= c <= 'Z'
}

pub open spec fn is_lower(c: char) -> bool {
    'a' <= c <= 'z'
}

pub open spec fn is_digit(c: char) -> bool {
    '0' <= c <= '9'
}

/// An ASCII letter or digit.
pub open spec fn is_alnum(c: char) -> bool {
    is_upper(c) || is_lower(c) || is_digit(c)
}

/// `c` in lower case, where it is an ASCII letter.
pub open spec fn lower_char(c: char) -> char {
    if is_upper(c) {
        ((c as u8) + 32) as u8 as char
    } else {
        c
    }
}

/// `s` with its ASCII letters in lower case.
pub open spec fn lower(s: Seq<char>) -> Seq<char> {
    s.map_values(|c: char| lower_char(c))
}

/// `c` in lower case, where it is an ASCII letter.
pub fn to_lower(c: char) -> (r: char)
    ensures
        r == lower_char(c),
{
    if 'A' <= c && c <= 'Z' {
        let n: u8 = c as u8;
        (n + 32) as char
    } else {
        c
    }
}

/// The characters of `text` with the ASCII letters in lower case.
pub fn lowered(text: &str) -> (out: Vec<char>)
    ensures
        out@ == lower(text@),
{
    let chars = chars_of(text);
    let mut out: Vec<char> = Vec::new();
    let mut i: usize = 0;
    while i < chars.len()
        invariant
            i <= chars@.len(),
            out@ == lower(chars@.take(i as int)),
        decreases chars@.len() - i,
    {
        out.push(to_lower(chars[i]));
        i += 1;
        assert(out@ =~= lower(chars@.take(i as int)));
    }
    assert(chars@.take(chars@.len() as int) =~= chars@);
    out
}

// ---------------------------------------------------------------------------
// Decimal numbers
// ---------------------------------------------------------------------------

/// The digit `d` stands for, `d` below ten.
pub open spec fn digit_char(d: int) -> char {
    (48 + d) as u8 as char
}

/// `n` in decimal.
pub open spec fn decimal(n: nat) -> Seq<char>
    decreases n,
{
    if n < 10 {
        seq![digit_char(n as int)]
    } else {
        decimal(n / 10).push(digit_char((n % 10) as int))
    }
}

/// Appends `n` in decimal.
pub fn push_decimal(out: &mut String, n: u64)
    ensures
        final(out)@ == old(out)@ + decimal(n as nat),
    decreases n,
{
    if n >= 10 {
        push_decimal(out, n / 10);
    }
    let d: u8 = (n % 10) as u8;
    out.push((48 + d) as char);
    assert(out@ =~= old(out)@ + decimal(n as nat));
}

/// A number in decimal, with a sign where it is negative.
pub open spec fn signed_decimal(n: i64) -> Seq<char> {
    if n < 0 {
        "-"@ + decimal((-n) as nat)
    } else {
        decimal(n as nat)
    }
}

/// Writes a number in decimal.
pub fn push_signed(out: &mut String, n: i64)
    ensures
        final(out)@ == old(out)@ + signed_decimal(n),
{
    if n < 0 {
        out.append("-");
        let size: u64 = if n == i64::MIN {
            0x8000_0000_0000_0000
        } else {
            (-n) as u64
        };
        push_decimal(out, size);
        assert(out@ =~= old(out)@ + signed_decimal(n));
    } else {
        push_decimal(out, n as u64);
    }
}

/// Whether `s` is made of digits.
pub open spec fn all_digits(s: Seq<char>) -> bool {
    forall|i: int| 0 <= i < s.len() ==> is_digit(#[trigger] s[i])
}

/// The number a text of digits stands for.
pub open spec fn digits_value(s: Seq<char>) -> nat
    decreases s.len(),
{
    if s.len() == 0 {
        0
    } else {
        10 * digits_value(s.drop_last()) + (s.last() as nat - 48) as nat
    }
}

/// The number `s` stands for: digits, with or without a `+` before them, that
/// fit in 32 bits.
pub open spec fn parse_u32(s: Seq<char>) -> Option<u32> {
    let digits = if s.len() > 1 && s[0] == '+' {
        s.skip(1)
    } else {
        s
    };
    if digits.len() > 0 && all_digits(digits) && digits_value(digits) <= u32::MAX {
        Some(digits_value(digits) as u32)
    } else {
        None
    }
}

proof fn lemma_digits_value_grows(s: Seq<char>, n: int)
    requires
        0 <= n <= s.len(),
        all_digits(s),
    ensures
        digits_value(s.take(n)) <= digits_value(s),
    decreases s.len(),
{
    if n < s.len() {
        lemma_digits_value_grows(s.drop_last(), n);
        assert(s.drop_last().take(n) =~= s.take(n));
    } else {
        assert(s.take(n) =~= s);
    }
}

/// The number that `chars[start..end]` stands for.
pub fn read_u32(chars: &Vec<char>, start: usize, end: usize) -> (n: Option<u32>)
    requires
        start <= end <= chars@.len(),
    ensures
        n == parse_u32(chars@.subrange(start as int, end as int)),
{
    let ghost s = chars@.subrange(start as int, end as int);
    let first: usize = if end - start > 1 && chars[start] == '+' {
        start + 1
    } else {
        start
    };
    let ghost d = chars@.subrange(first as int, end as int);
    proof {
        assert(first == start ==> d == s);
        assert(first == start + 1 ==> d =~= s.skip(1));
        assert(s.len() > 0 ==> s[0] == chars@[start as int]);
    }
    if first == end {
        return None;
    }
    let mut value: u64 = 0;
    let mut i: usize = first;
    proof {
        assert(d.take(0) =~= Seq::empty());
    }
    while i < end
        invariant
            start <= first <= i <= end <= chars@.len(),
            s == chars@.subrange(start as int, end as int),
            d == chars@.subrange(first as int, end as int),
            parse_u32(s) == (if all_digits(d) && digits_value(d) <= u32::MAX {
                Some(digits_value(d) as u32)
            } else {
                None::<u32>
            }),
            all_digits(d.take(i - first)),
            value == digits_value(d.take(i - first)),
            value <= u32::MAX,
        decreases end - i,
    {
        let c = chars[i];
        let ghost k = i - first;
        assert(d[k] == c);
        if !('0' <= c && c <= '9') {
            return None;
        }
        let digit: u64 = (c as u32 - 48) as u64;
        value = 10 * value + digit;
        proof {
            assert(d.take(k + 1).drop_last() =~= d.take(k));
            assert(d.take(k + 1).last() == c);
            assert(all_digits(d.take(k + 1))) by {
                assert forall|j: int| 0 <= j < k + 1 implies is_digit(
                    #[trigger] d.take(k + 1)[j],
                ) by {
                    if j < k {
                        assert(is_digit(d.take(k)[j]));
                    }
                }
            }
        }
        if value > u32::MAX as u64 {
            proof {
                if all_digits(d) {
                    lemma_digits_value_grows(d, k + 1);
                }
            }
            return None;
        }
        i += 1;
    }
    assert(d.take(end - first) =~= d);
    Some(value as u32)
}

/// `decimal` gives digits, and they stand for the number.
pub proof fn lemma_decimal(n: nat)
    ensures
        decimal(n).len() > 0,
        all_digits(decimal(n)),
        digits_value(decimal(n)) == n,
    decreases n,
{
    reveal_with_fuel(digits_value, 2);
    if n >= 10 {
        lemma_decimal(n / 10);
        assert(decimal(n).drop_last() =~= decimal(n / 10));
    } else {
        assert(decimal(n).drop_last() =~= Seq::<char>::empty());
    }
}

/// Reading a number from its decimal form gives the number back.
pub proof fn lemma_parse_decimal(n: u32)
    ensures
        parse_u32(decimal(n as nat)) == Some(n),
{
    lemma_decimal(n as nat);
    assert(is_digit(decimal(n as nat)[0]));
}

// ---------------------------------------------------------------------------
// Parts of a text
// ---------------------------------------------------------------------------

/// An optional list of characters as an optional text.
pub open spec fn opt_chars(s: Option<Vec<char>>) -> Option<Seq<char>> {
    match s {
        Some(s) => Some(s@),
        None => None,
    }
}

/// An optional index as an optional position.
pub open spec fn opt_at(at: Option<usize>) -> Option<int> {
    match at {
        Some(at) => Some(at as int),
        None => None,
    }
}

/// `chars[start..end]`.
pub fn part(chars: &Vec<char>, start: usize, end: usize) -> (out: Vec<char>)
    requires
        start <= end <= chars@.len(),
    ensures
        out@ == chars@.subrange(start as int, end as int),
{
    let mut out: Vec<char> = Vec::new();
    let mut i: usize = start;
    while i < end
        invariant
            start <= i <= end <= chars@.len(),
            out@ =~= chars@.subrange(start as int, i as int),
        decreases end - i,
    {
        out.push(chars[i]);
        i += 1;
    }
    out
}

/// The first `n` characters.
pub fn head(chars: &Vec<char>, n: usize) -> (out: Vec<char>)
    requires
        n <= chars@.len(),
    ensures
        out@ == chars@.take(n as int),
{
    part(chars, 0, n)
}

/// The characters after the first `n`.
pub fn tail(chars: &Vec<char>, n: usize) -> (out: Vec<char>)
    requires
        n <= chars@.len(),
    ensures
        out@ == chars@.skip(n as int),
{
    part(chars, n, chars.len())
}

/// The text without its leading white space.
pub fn without_leading_space(chars: &Vec<char>) -> (out: Vec<char>)
    ensures
        out@ == trim_start(chars@),
{
    let at: usize = skip_spaces(chars, 0, chars.len());
    assert(chars@.subrange(0, chars@.len() as int) =~= chars@);
    part(chars, at, chars.len())
}

/// The text without its trailing white space.
pub fn without_trailing_space(chars: &Vec<char>) -> (out: Vec<char>)
    ensures
        out@ == trim_end(chars@),
{
    let at: usize = skip_spaces_back(chars, 0, chars.len());
    assert(chars@.subrange(0, chars@.len() as int) =~= chars@);
    part(chars, 0, at)
}

/// What follows `prefix`, where the text begins with it.
pub fn strip_start(chars: &Vec<char>, prefix: &str) -> (out: Option<Vec<char>>)
    ensures
        opt_chars(out) == strip_prefix(chars@, prefix@),
{
    let wanted = chars_of(prefix);
    if stands_at(chars, &wanted, 0) {
        Some(tail(chars, wanted.len()))
    } else {
        None
    }
}

/// What precedes `suffix`, where the text ends with it.
pub fn strip_end(chars: &Vec<char>, suffix: &str) -> (out: Option<Vec<char>>)
    ensures
        opt_chars(out) == strip_suffix(chars@, suffix@),
{
    let wanted = chars_of(suffix);
    if wanted.len() <= chars.len() && stands_at(chars, &wanted, chars.len() - wanted.len()) {
        Some(head(chars, chars.len() - wanted.len()))
    } else {
        None
    }
}

/// The first position at which `needle` stands.
pub fn find_str(chars: &Vec<char>, needle: &str) -> (at: Option<usize>)
    ensures
        opt_at(at) == find(chars@, needle@),
        at is Some ==> at->Some_0 + needle@.len() <= chars.len(),
{
    find_at(chars, &chars_of(needle), 0)
}

/// The last position at which `needle` stands.
pub fn rfind_str(chars: &Vec<char>, needle: &str) -> (at: Option<usize>)
    ensures
        opt_at(at) == rfind(chars@, needle@),
        at is Some ==> at->Some_0 + needle@.len() <= chars.len(),
{
    rfind_at(chars, &chars_of(needle))
}

/// `s` with `with` in place of each `pattern`, from left to right.
pub open spec fn replaced(s: Seq<char>, pattern: Seq<char>, with: Seq<char>) -> Seq<char>
    decreases s.len(),
{
    if pattern.len() == 0 {
        s
    } else {
        match find(s, pattern) {
            Some(at) => if 0 <= at && at + pattern.len() <= s.len() {
                s.take(at) + with + replaced(s.skip(at + pattern.len()), pattern, with)
            } else {
                s
            },
            None => s,
        }
    }
}

/// `chars` with `with` in place of each `pattern`, from left to right.
pub fn replace_all(chars: &Vec<char>, pattern: &str, with: &str) -> (out: String)
    requires
        pattern@.len() > 0,
    ensures
        out@ == replaced(chars@, pattern@, with@),
    decreases chars@.len(),
{
    match find_str(chars, pattern) {
        Some(at) => {
            let n: usize = at + pattern.unicode_len();
            let mut out = string_of_range(chars, 0, at);
            out.append(with);
            let rest = replace_all(&tail(chars, n), pattern, with);
            out.append(rest.as_str());
            out
        },
        None => string_of(chars),
    }
}

// ---------------------------------------------------------------------------
// Order
// ---------------------------------------------------------------------------

/// Whether `a` comes before `b`, character by character.
pub open spec fn precedes(a: Seq<char>, b: Seq<char>) -> bool
    decreases a.len(),
{
    if b.len() == 0 {
        false
    } else if a.len() == 0 {
        true
    } else if a[0] != b[0] {
        a[0] < b[0]
    } else {
        precedes(a.skip(1), b.skip(1))
    }
}

/// Whether `a` comes before `b`, character by character.
pub fn comes_before(a: &str, b: &str) -> (r: bool)
    ensures
        r == precedes(a@, b@),
{
    let x = chars_of(a);
    let y = chars_of(b);
    let mut i: usize = 0;
    proof {
        assert(x@.skip(0) =~= x@);
        assert(y@.skip(0) =~= y@);
    }
    loop
        invariant
            x@ == a@,
            y@ == b@,
            i <= x@.len(),
            i <= y@.len(),
            precedes(x@, y@) == precedes(x@.skip(i as int), y@.skip(i as int)),
        decreases x@.len() - i,
    {
        if i == y.len() {
            return false;
        }
        if i == x.len() {
            return true;
        }
        if x[i] != y[i] {
            return x[i] < y[i];
        }
        proof {
            assert(x@.skip(i as int).skip(1) =~= x@.skip(i + 1));
            assert(y@.skip(i as int).skip(1) =~= y@.skip(i + 1));
        }
        i += 1;
    }
}

/// No text comes before itself, and of two that differ one comes first.
pub proof fn lemma_precedes_total(a: Seq<char>, b: Seq<char>)
    ensures
        precedes(a, b) ==> !precedes(b, a),
        precedes(a, b) || precedes(b, a) || a == b,
        !precedes(a, a),
    decreases a.len(),
{
    if a.len() == 0 || b.len() == 0 {
        if a.len() == 0 && b.len() == 0 {
            assert(a =~= b);
        }
    } else if a[0] == b[0] {
        lemma_precedes_total(a.skip(1), b.skip(1));
        if a.skip(1) == b.skip(1) {
            assert(a =~= seq![a[0]] + a.skip(1));
            assert(b =~= seq![b[0]] + b.skip(1));
        }
    }
    if a.len() > 0 {
        lemma_precedes_total(a.skip(1), a.skip(1));
    }
}

/// What comes before something that comes before `c` comes before `c`.
pub proof fn lemma_precedes_transitive(a: Seq<char>, b: Seq<char>, c: Seq<char>)
    requires
        precedes(a, b),
        precedes(b, c),
    ensures
        precedes(a, c),
    decreases a.len(),
{
    if a.len() > 0 && b.len() > 0 && c.len() > 0 && a[0] == b[0] && b[0] == c[0] {
        lemma_precedes_transitive(a.skip(1), b.skip(1), c.skip(1));
    }
}

// ---------------------------------------------------------------------------
// Lines
// ---------------------------------------------------------------------------

/// A line without the carriage return that ends it.
pub open spec fn without_return(line: Seq<char>) -> Seq<char> {
    if line.len() > 0 && line.last() == '\r' {
        line.drop_last()
    } else {
        line
    }
}

/// The lines of `s`, each without what ends it.
pub open spec fn lines(s: Seq<char>) -> Seq<Seq<char>>
    decreases s.len(),
{
    match find(s, "\n"@) {
        Some(at) => if 0 <= at < s.len() {
            seq![without_return(s.take(at))] + lines(s.skip(at + 1))
        } else {
            Seq::empty()
        },
        None => if s.len() == 0 {
            Seq::empty()
        } else {
            seq![s]
        },
    }
}

/// The lines of a text, each without what ends it.
pub fn lines_of(chars: &Vec<char>) -> (out: Vec<Vec<char>>)
    ensures
        out@.map_values(|line: Vec<char>| line@) == lines(chars@),
    decreases chars@.len(),
{
    proof {
        reveal_strlit("\n");
    }
    let mut out: Vec<Vec<char>> = Vec::new();
    match find_str(chars, "\n") {
        Some(at) => {
            let end: usize = if at > 0 && chars[at - 1] == '\r' {
                at - 1
            } else {
                at
            };
            let line = head(chars, end);
            proof {
                let whole = chars@.take(at as int);
                assert(at > 0 ==> whole.last() == chars@[at - 1]);
                assert(line@ =~= without_return(whole));
            }
            out.push(line);
            let mut rest = lines_of(&tail(chars, at + 1));
            let ghost first = out@;
            let ghost others = rest@;
            out.append(&mut rest);
            assert(out@.map_values(|line: Vec<char>| line@) =~= seq![line@] + others.map_values(
                |line: Vec<char>| line@,
            ));
        },
        None => {
            if chars.len() > 0 {
                let line = head(chars, chars.len());
                assert(line@ =~= chars@);
                out.push(line);
                assert(out@.map_values(|line: Vec<char>| line@) =~= seq![chars@]);
            } else {
                assert(out@.map_values(|line: Vec<char>| line@) =~= Seq::<Seq<char>>::empty());
            }
        },
    }
    out
}

/// Texts one after the other, with `sep` between them.
pub open spec fn joined_by(parts: Seq<Seq<char>>, sep: Seq<char>) -> Seq<char>
    decreases parts.len(),
{
    if parts.len() == 0 {
        Seq::empty()
    } else if parts.len() == 1 {
        parts[0]
    } else {
        joined_by(parts.drop_last(), sep) + sep + parts.last()
    }
}

/// What texts hold.
pub open spec fn views(texts: Seq<String>) -> Seq<Seq<char>> {
    texts.map_values(|text: String| text@)
}

/// The first `count` texts one after the other, with `sep` between them.
pub fn join(texts: &Vec<String>, count: usize, sep: &str) -> (out: String)
    requires
        count <= texts@.len(),
    ensures
        out@ == joined_by(views(texts@).take(count as int), sep@),
{
    let ghost all = views(texts@);
    let mut out = String::new();
    let mut i: usize = 0;
    proof {
        assert(out@ =~= Seq::empty());
    }
    while i < count
        invariant
            i <= count <= texts@.len(),
            all == views(texts@),
            out@ == joined_by(all.take(i as int), sep@),
        decreases count - i,
    {
        proof {
            assert(all.take(i + 1).drop_last() =~= all.take(i as int));
            assert(all.take(i + 1).last() == texts@[i as int]@);
        }
        if i > 0 {
            out.append(sep);
        }
        out.append(texts[i].as_str());
        proof {
            if i == 0 {
                assert(out@ =~= all.take(1)[0]);
            }
        }
        i += 1;
    }
    out
}

/// Whether a text is in a list.
pub open spec fn listed(ids: Seq<String>, id: Seq<char>) -> bool {
    exists|i: int| 0 <= i < ids.len() && (#[trigger] ids[i])@ == id
}

/// Whether a text is in a list.
pub fn is_listed(ids: &Vec<String>, id: &str) -> (r: bool)
    ensures
        r == listed(ids@, id@),
{
    let mut i: usize = 0;
    while i < ids.len()
        invariant
            i <= ids@.len(),
            forall|k: int| 0 <= k < i ==> (#[trigger] ids@[k])@ != id@,
        decreases ids@.len() - i,
    {
        if same_text(ids[i].as_str(), id) {
            return true;
        }
        i += 1;
    }
    false
}

// ---------------------------------------------------------------------------
// Laws
// ---------------------------------------------------------------------------

/// A text is blank exactly where every character of it is white space.
pub proof fn blank_is_all_space(s: Seq<char>)
    ensures
        trim(s).len() == 0 <==> forall|i: int| 0 <= i < s.len() ==> is_space(#[trigger] s[i]),
{
    let rest = trim_start(s);
    lemma_trim_start(s);
    lemma_trim_end(rest);
    if trim(s).len() == 0 && rest.len() > 0 {
        assert(is_space(rest[0]));
    }
    if forall|i: int| 0 <= i < s.len() ==> is_space(#[trigger] s[i]) {
        if rest.len() > 0 {
            assert(rest[0] == s[s.len() - rest.len()]);
        }
    }
}

/// What is left after leading white space begins with something else.
proof fn lemma_trim_start(s: Seq<char>)
    ensures
        ({
            let rest = trim_start(s);
            &&& rest.len() <= s.len()
            &&& rest == s.skip(s.len() - rest.len())
            &&& rest.len() > 0 ==> !is_space(rest[0])
            &&& forall|i: int| 0 <= i < s.len() - rest.len() ==> is_space(#[trigger] s[i])
        }),
    decreases s.len(),
{
    if s.len() > 0 && is_space(s[0]) {
        lemma_trim_start(s.skip(1));
        let rest = trim_start(s);
        assert(rest =~= s.skip(s.len() - rest.len()));
        assert forall|i: int| 0 <= i < s.len() - rest.len() implies is_space(#[trigger] s[i]) by {
            if i > 0 {
                assert(s.skip(1)[i - 1] == s[i]);
            }
        }
    } else {
        assert(s.skip(0) =~= s);
    }
}

/// What is left before trailing white space ends with something else.
proof fn lemma_trim_end(s: Seq<char>)
    ensures
        ({
            let rest = trim_end(s);
            &&& rest.len() <= s.len()
            &&& rest == s.take(rest.len() as int)
            &&& rest.len() > 0 ==> !is_space(rest.last())
            &&& forall|i: int| rest.len() <= i < s.len() ==> is_space(#[trigger] s[i])
        }),
    decreases s.len(),
{
    if s.len() > 0 && is_space(s.last()) {
        lemma_trim_end(s.drop_last());
        let rest = trim_end(s);
        assert(rest =~= s.take(rest.len() as int));
        assert forall|i: int| rest.len() <= i < s.len() implies is_space(#[trigger] s[i]) by {
            if i < s.len() - 1 {
                assert(s.drop_last()[i] == s[i]);
            }
        }
    } else {
        assert(s.take(s.len() as int) =~= s);
    }
}

/// Whether `left` stands at `from` in a text, does not begin or end with white
/// space, and only white space stands around it.
pub open spec fn is_core(s: Seq<char>, from: int, left: Seq<char>) -> bool {
    &&& 0 <= from <= from + left.len() <= s.len()
    &&& left == s.subrange(from, from + left.len())
    &&& left.len() > 0 ==> !is_space(left[0]) && !is_space(left.last())
    &&& forall|i: int| 0 <= i < from ==> is_space(#[trigger] s[i])
    &&& forall|i: int| from + left.len() <= i < s.len() ==> is_space(#[trigger] s[i])
}

/// Trimming takes white space off both ends and nothing else: what is left
/// stands in the text, does not begin or end with white space, and only white
/// space stands around it.
pub proof fn trimming_takes_only_space(s: Seq<char>)
    ensures
        exists|from: int| is_core(s, from, trim(s)),
{
    let rest = trim_start(s);
    let left = trim(s);
    lemma_trim_start(s);
    lemma_trim_end(rest);
    let from = s.len() - rest.len();
    assert(left =~= s.subrange(from, from + left.len()));
    if left.len() > 0 {
        assert(left[0] == rest[0]);
    }
    assert forall|i: int| from + left.len() <= i < s.len() implies is_space(#[trigger] s[i]) by {
        assert(rest[i - from] == s[i]);
    }
    assert(is_core(s, from, left));
}

/// Blanks, tabs and line breaks are white space, and letters, digits and the
/// marks of ASCII are none.
pub proof fn words_are_no_space(c: char)
    ensures
        c == ' ' || c == '\t' || c == '\n' || c == '\r' ==> is_space(c),
        0x21 <= c as u32 <= 0x7e ==> !is_space(c),
{
}

/// Lower case changes the capitals of ASCII into their small letters and
/// nothing else.
pub proof fn only_capitals_are_lowered(text: &str, out: Vec<char>, i: int)
    requires
        call_ensures(lowered, (text,), out),
        0 <= i < text@.len(),
    ensures
        out@.len() == text@.len(),
        'A' <= text@[i] <= 'Z' ==> out@[i] as u32 == text@[i] as u32 + 32,
        !('A' <= text@[i] <= 'Z') ==> out@[i] == text@[i],
{
    let c = text@[i];
    if is_upper(c) {
        assert(out@[i] == lower_char(c));
        assert(65 <= c as u32 <= 90);
    }
}

proof fn lemma_squeezed(s: Seq<char>)
    ensures
        squeezed(s).filter(|c: char| !is_space(c)) == s.filter(|c: char| !is_space(c)),
        squeezed(s).len() > 0 ==> !is_space(squeezed(s)[0]) && !is_space(squeezed(s).last()),
        forall|i: int|
            0 < i < squeezed(s).len() && is_space(#[trigger] squeezed(s)[i]) ==> squeezed(s)[i]
                == ' ' && !is_space(squeezed(s)[i - 1]),
    decreases s.len(),
{
    reveal(Seq::filter);
    let keep = |c: char| !is_space(c);
    if s.len() > 0 {
        let less = s.drop_last();
        lemma_squeezed(less);
        let before = squeezed(less);
        let c = s.last();
        let after = squeezed(s);
        if !is_space(c) {
            assert(before.push(' ').drop_last() =~= before);
            assert(is_space(' '));
            assert(before.push(' ').filter(keep) =~= before.filter(keep));
            assert(before.push(' ').push(c).drop_last() =~= before.push(' '));
            assert(before.push(c).drop_last() =~= before);
            assert forall|i: int| 0 < i < after.len() && is_space(#[trigger] after[i]) implies
                after[i] == ' ' && !is_space(after[i - 1]) by {
                if i < before.len() {
                    assert(after[i] == before[i]);
                    assert(is_space(before[i]));
                }
            }
        }
    }
}

/// Squeezing keeps every character that is no white space, in its order, and
/// leaves single blanks between some of them and nowhere else.
pub proof fn squeezing_keeps_every_word(text: &str, out: Vec<char>, i: int)
    requires
        call_ensures(squeeze, (text,), out),
    ensures
        out@.filter(|c: char| !is_space(c)) == text@.filter(|c: char| !is_space(c)),
        out@.len() > 0 ==> !is_space(out@[0]) && !is_space(out@.last()),
        0 < i < out@.len() && is_space(out@[i]) ==> out@[i] == ' ' && !is_space(out@[i - 1]),
{
    lemma_squeezed(text@);
    if 0 < i < out@.len() {
        let c = squeezed(text@)[i];
    }
}

/// Two words that stand together stay together, and two with white space
/// between get one blank.
pub proof fn words_are_squeezed_together(s: Seq<char>, space: char, c: char)
    requires
        s.len() > 0,
        !is_space(s.last()),
        is_space(space),
        !is_space(c),
    ensures
        squeezed(s.push(c)) == squeezed(s).push(c),
        squeezed(s.push(space)) == squeezed(s),
        squeezed(s.push(space).push(c)) == squeezed(s).push(' ').push(c),
{
    let t = s.push(space);
    let u = t.push(c);
    assert(s.push(c).drop_last() =~= s);
    assert(t.drop_last() =~= s);
    assert(u.drop_last() =~= t);
    assert(squeezed(s).len() > 0);
    assert(s.push(c)[s.push(c).len() - 2] == s.last());
    assert(t.last() == space);
    assert(squeezed(t) == squeezed(s));
    assert(u.last() == c && u[u.len() - 2] == space);
    assert(squeezed(u) == squeezed(t).push(' ').push(c));
}

/// A number in decimal does not begin with a zero unless it is none, and a
/// negative one has its sign before it.
pub proof fn numbers_have_no_leading_zero(n: nat, m: i64)
    ensures
        n > 0 ==> decimal(n)[0] != '0',
        m >= 0 ==> signed_decimal(m) == decimal(m as nat),
        m < 0 ==> signed_decimal(m).len() == decimal((-m) as nat).len() + 1 && signed_decimal(m)[0]
            == '-' && signed_decimal(m).skip(1) == decimal((-m) as nat),
    decreases n,
{
    reveal_strlit("-");
    if n >= 10 {
        numbers_have_no_leading_zero(n / 10, m);
        lemma_decimal(n / 10);
    }
    if m < 0 {
        assert(signed_decimal(m).skip(1) =~= decimal((-m) as nat));
    }
}

/// Whether two texts hold the same up to `k`, and the first ends there or has
/// the lesser character.
pub open spec fn is_less_at(a: Seq<char>, b: Seq<char>, k: int) -> bool {
    &&& 0 <= k <= a.len() && k < b.len()
    &&& forall|i: int| 0 <= i < k ==> #[trigger] a[i] == b[i]
    &&& k == a.len() || a[k] < b[k]
}

proof fn lemma_less(a: Seq<char>, b: Seq<char>)
    ensures
        precedes(a, b) <==> exists|k: int| is_less_at(a, b, k),
    decreases a.len(),
{
    if b.len() > 0 && a.len() > 0 && a[0] == b[0] {
        let x = a.skip(1);
        let y = b.skip(1);
        lemma_less(x, y);
        if precedes(a, b) {
            let k = choose|k: int| is_less_at(x, y, k);
            assert forall|i: int| 0 <= i < k + 1 implies #[trigger] a[i] == b[i] by {
                if i > 0 {
                    assert(x[i - 1] == y[i - 1]);
                }
            }
            assert(is_less_at(a, b, k + 1));
        }
        if exists|k: int| is_less_at(a, b, k) {
            let k = choose|k: int| is_less_at(a, b, k);
            assert(k > 0);
            assert forall|i: int| 0 <= i < k - 1 implies #[trigger] x[i] == y[i] by {
                assert(a[i + 1] == b[i + 1]);
            }
            assert(is_less_at(x, y, k - 1));
        }
    } else if b.len() > 0 {
        if precedes(a, b) {
            assert(is_less_at(a, b, 0));
        }
        if exists|k: int| is_less_at(a, b, k) {
            let k = choose|k: int| is_less_at(a, b, k);
            if k > 0 {
                assert(a[0] == b[0]);
            }
        }
    }
}

/// A text comes before another exactly where the first character in which they
/// differ is the lesser one, or it ends where the other goes on.
pub proof fn texts_are_ordered_by_their_first_difference(a: &str, b: &str, r: bool)
    requires
        call_ensures(comes_before, (a, b), r),
    ensures
        r <==> exists|k: int| is_less_at(a@, b@, k),
{
    lemma_less(a@, b@);
}

/// The lines of a text are parted at its line feeds: the first is what stands
/// before the first of them, without the carriage return that ends it.
pub proof fn lines_end_at_line_feeds(line: Seq<char>, rest: Seq<char>)
    requires
        forall|i: int| 0 <= i < line.len() ==> #[trigger] line[i] != '\n',
    ensures
        lines(line.push('\n') + rest) == seq![
            if line.len() > 0 && line.last() == '\r' {
                line.drop_last()
            } else {
                line
            },
        ] + lines(rest),
        line.len() > 0 ==> lines(line) == seq![line],
        lines(Seq::empty()).len() == 0,
{
    reveal_strlit("\n");
    let s = line.push('\n') + rest;
    let n = line.len() as int;
    assert(s.subrange(n, n + 1) =~= "\n"@);
    assert forall|k: int| 0 <= k < n implies !matches_at(s, "\n"@, k) by {
        if matches_at(s, "\n"@, k) {
            assert(s.subrange(k, k + 1)[0] == '\n');
            assert(line[k] == '\n');
        }
    }
    lemma_find_from_is(s, "\n"@, 0, n);
    assert(s.take(n) =~= line);
    assert(s.skip(n + 1) =~= rest);
    lemma_find_from(line, "\n"@, 0);
    if let Some(at) = find(line, "\n"@) {
        assert(line.subrange(at, at + 1)[0] == line[at]);
        assert("\n"@[0] == '\n');
    }
    lemma_find_from(Seq::empty(), "\n"@, 0);
}

/// Texts that are joined stand one behind the other, with what parts them
/// between each two.
pub proof fn joined_texts_stand_in_order(
    texts: &Vec<String>,
    count: usize,
    more: usize,
    sep: &str,
    out: String,
    longer: String,
)
    requires
        more == count + 1,
        more <= texts@.len(),
        call_ensures(join, (texts, count, sep), out),
        call_ensures(join, (texts, more, sep), longer),
    ensures
        count == 0 ==> out@.len() == 0 && longer@ == texts@[0]@,
        count > 0 ==> longer@ == out@ + sep@ + texts@[count as int]@,
{
    let all = views(texts@).take(more as int);
    assert(all.drop_last() =~= views(texts@).take(count as int));
    assert(all.last() == texts@[count as int]@);
}

/// What is looked for is found where it first stands, from a place on.
pub proof fn the_first_place_is_found(
    chars: &Vec<char>,
    needle: &Vec<char>,
    from: usize,
    at: Option<usize>,
    k: int,
)
    requires
        from <= chars@.len(),
        call_ensures(find_at, (chars, needle, from), at),
        from <= k,
        k + needle@.len() <= chars@.len(),
    ensures
        at is None ==> chars@.subrange(k, k + needle@.len()) != needle@,
        at matches Some(i) ==> from <= i && i + needle@.len() <= chars@.len() && chars@.subrange(
            i as int,
            i + needle@.len(),
        ) == needle@,
        at matches Some(i) ==> (k < i ==> chars@.subrange(k, k + needle@.len()) != needle@),
{
    lemma_find_from(chars@, needle@, from as int);
    if chars@.subrange(k, k + needle@.len()) == needle@ {
        assert(matches_at(chars@, needle@, k));
    }
}

/// A text begins with another where it is that and a rest, which is what is
/// left; and ends with another likewise.
pub proof fn what_is_stripped_leaves_the_rest(
    chars: &Vec<char>,
    mark: &str,
    tail: Option<Vec<char>>,
    start: Option<Vec<char>>,
    rest: Seq<char>,
)
    requires
        call_ensures(strip_start, (chars, mark), tail),
        call_ensures(strip_end, (chars, mark), start),
    ensures
        chars@ == mark@ + rest <==> (tail matches Some(tail) && tail@ == rest),
        chars@ == rest + mark@ <==> (start matches Some(start) && start@ == rest),
{
    let n = mark@.len() as int;
    let m = chars@.len() - n;
    if chars@ == mark@ + rest {
        assert(chars@.subrange(0, n) =~= mark@);
        assert(chars@.skip(n) =~= rest);
    }
    if tail is Some {
        assert(chars@ =~= chars@.subrange(0, n) + chars@.skip(n));
    }
    if chars@ == rest + mark@ {
        assert(chars@.subrange(m, m + n) =~= mark@);
        assert(chars@.take(m) =~= rest);
    }
    if start is Some {
        assert(chars@ =~= chars@.take(m) + chars@.subrange(m, m + n));
    }
}

/// Replacing goes on behind the first place where the pattern stands, and
/// leaves a text in which it does not stand.
pub proof fn each_pattern_is_replaced(
    chars: &Vec<char>,
    rest: &Vec<char>,
    pattern: &str,
    with: &str,
    out: String,
    tail: String,
    at: Option<usize>,
    needle: &Vec<char>,
)
    requires
        pattern@.len() > 0,
        needle@ == pattern@,
        call_ensures(replace_all, (chars, pattern, with), out),
        call_ensures(replace_all, (rest, pattern, with), tail),
        call_ensures(find_at, (chars, needle, 0usize), at),
        at matches Some(i) ==> rest@ == chars@.skip(i + pattern@.len()),
    ensures
        at is None ==> out@ == chars@,
        at matches Some(i) ==> out@ == chars@.take(i as int) + with@ + tail@,
{
    lemma_find_from(chars@, pattern@, 0);
}

/// A capital is lowered by itself.
pub proof fn a_capital_is_lowered(c: char, r: char)
    requires
        call_ensures(to_lower, (c,), r),
    ensures
        'A' <= c <= 'Z' ==> r as u32 == c as u32 + 32,
        !('A' <= c <= 'Z') ==> r == c,
{
}

} // verus!
