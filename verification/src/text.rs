//! Text helpers: exact models of the string operations that the library relies on.
//!
//! Text is modelled as the sequence of its characters (`s@`).  Every helper is
//! a small verified function whose contract says what it returns over that
//! model.

use vstd::prelude::*;
use vstd::string::*;
use vstd::utf8::*;

verus! {

broadcast use vstd::string::group_string_axioms;

/// `String::push` appends one character.
pub assume_specification[ String::push ](text: &mut String, c: char)
    ensures
        final(text)@ == old(text)@.push(c),
;

/// Whether `c` has the Unicode property `White_Space`.
pub open spec fn is_whitespace(c: char) -> bool {
    ||| '\u{9}' <= c <= '\u{d}'
    ||| c == '\u{20}'
    ||| c == '\u{85}'
    ||| c == '\u{a0}'
    ||| c == '\u{1680}'
    ||| '\u{2000}' <= c <= '\u{200a}'
    ||| c == '\u{2028}'
    ||| c == '\u{2029}'
    ||| c == '\u{202f}'
    ||| c == '\u{205f}'
    ||| c == '\u{3000}'
}

/// Whether `c` is white space.
pub fn whitespace(c: char) -> (result: bool)
    ensures
        result == is_whitespace(c),
{
    ('\u{9}' <= c && c <= '\u{d}') || c == '\u{20}' || c == '\u{85}' || c == '\u{a0}' || c
        == '\u{1680}' || ('\u{2000}' <= c && c <= '\u{200a}') || c == '\u{2028}' || c == '\u{2029}'
        || c == '\u{202f}' || c == '\u{205f}' || c == '\u{3000}'
}

/// Whether `c` is one of `0` to `9`.
pub open spec fn is_digit(c: char) -> bool {
    '0' <= c <= '9'
}

/// Whether `c` is a decimal digit.
pub fn digit(c: char) -> (result: bool)
    ensures
        result == is_digit(c),
{
    '0' <= c && c <= '9'
}

/// The characters of `s`.
pub fn chars_of(s: &str) -> (result: Vec<char>)
    ensures
        result@ == s@,
{
    let mut out: Vec<char> = Vec::new();
    for c in it: s.chars()
        invariant
            out@ == it.seq().take(it.index() as int),
            it.seq() == s@,
    {
        out.push(c);
    }
    proof {
        assert(out@ =~= s@);
    }
    out
}

/// The characters of `s` from `from` up to, and without, `to`.
pub fn slice<'a>(s: &'a str, from: usize, to: usize) -> (result: &'a str)
    requires
        from <= to <= s@.len(),
    ensures
        result@ == s@.subrange(from as int, to as int),
{
    s.substring_char(from, to)
}

/// Whether `a` and `b` hold the same characters.
pub fn same_text(a: &str, b: &str) -> (result: bool)
    ensures
        result == (a@ == b@),
{
    let left = chars_of(a);
    let right = chars_of(b);
    if left.len() != right.len() {
        return false;
    }
    let mut i: usize = 0;
    while i < left.len()
        invariant
            i <= left.len(),
            left.len() == right.len(),
            left@ == a@,
            right@ == b@,
            forall|j: int| 0 <= j < i ==> left[j] == right[j],
        decreases left.len() - i,
    {
        if left[i] != right[i] {
            return false;
        }
        i = i + 1;
    }
    proof {
        assert(left@ =~= right@);
    }
    true
}

/// Appends `more` to `text`.
pub fn push_text(text: &mut String, more: &str)
    ensures
        final(text)@ == old(text)@ + more@,
{
    text.append(more);
}

/// An owned copy of `s`.
pub fn owned(s: &str) -> (result: String)
    ensures
        result@ == s@,
{
    s.to_owned()
}

// ── Trimming ──────────────────────────────────────────────────────────────────

/// `s` without its leading white space.
pub open spec fn trim_start_of(s: Seq<char>) -> Seq<char>
    decreases s.len(),
{
    if s.len() > 0 && is_whitespace(s[0]) {
        trim_start_of(s.drop_first())
    } else {
        s
    }
}

/// `s` without its trailing white space.
pub open spec fn trim_end_of(s: Seq<char>) -> Seq<char>
    decreases s.len(),
{
    if s.len() > 0 && is_whitespace(s.last()) {
        trim_end_of(s.drop_last())
    } else {
        s
    }
}

/// `s` without white space at either end.
pub open spec fn trim_of(s: Seq<char>) -> Seq<char> {
    trim_end_of(trim_start_of(s))
}

pub proof fn lemma_trim_start_skips(s: Seq<char>, k: int)
    requires
        0 <= k <= s.len(),
        forall|j: int| 0 <= j < k ==> is_whitespace(#[trigger] s[j]),
        k < s.len() ==> !is_whitespace(s[k]),
    ensures
        trim_start_of(s) == s.subrange(k, s.len() as int),
    decreases k,
{
    if k == 0 {
        assert(s.subrange(0, s.len() as int) =~= s);
    } else {
        assert(is_whitespace(s[0]));
        lemma_trim_start_skips(s.drop_first(), k - 1);
        assert(s.drop_first().subrange(k - 1, s.len() - 1) =~= s.subrange(k, s.len() as int));
    }
}

pub proof fn lemma_trim_end_skips(s: Seq<char>, k: int)
    requires
        0 <= k <= s.len(),
        forall|j: int| k <= j < s.len() ==> is_whitespace(#[trigger] s[j]),
        k > 0 ==> !is_whitespace(s[k - 1]),
    ensures
        trim_end_of(s) == s.subrange(0, k),
    decreases s.len() - k,
{
    if k == s.len() {
        assert(s.subrange(0, k) =~= s);
    } else {
        assert(is_whitespace(s[s.len() - 1]));
        lemma_trim_end_skips(s.drop_last(), k);
        assert(s.drop_last().subrange(0, k) =~= s.subrange(0, k));
    }
}

/// `s` without its leading white space.
pub fn trim_start<'a>(s: &'a str) -> (result: &'a str)
    ensures
        result@ == trim_start_of(s@),
{
    let chars = chars_of(s);
    let mut k: usize = 0;
    while k < chars.len() && whitespace(chars[k])
        invariant
            k <= chars.len(),
            chars@ == s@,
            forall|j: int| 0 <= j < k ==> is_whitespace(#[trigger] chars@[j]),
        decreases chars.len() - k,
    {
        k = k + 1;
    }
    proof {
        lemma_trim_start_skips(s@, k as int);
    }
    slice(s, k, chars.len())
}

/// `s` without its trailing white space.
pub fn trim_end<'a>(s: &'a str) -> (result: &'a str)
    ensures
        result@ == trim_end_of(s@),
{
    let chars = chars_of(s);
    let mut k: usize = chars.len();
    while k > 0 && whitespace(chars[k - 1])
        invariant
            k <= chars.len(),
            chars@ == s@,
            forall|j: int| k <= j < chars.len() ==> is_whitespace(#[trigger] chars@[j]),
        decreases k,
    {
        k = k - 1;
    }
    proof {
        lemma_trim_end_skips(s@, k as int);
    }
    slice(s, 0, k)
}

/// `s` without white space at either end.
pub fn trim<'a>(s: &'a str) -> (result: &'a str)
    ensures
        result@ == trim_of(s@),
{
    trim_end(trim_start(s))
}

// ── Searching ─────────────────────────────────────────────────────────────────

/// Whether `pattern` stands in `s` at position `at`.
pub open spec fn occurs_at(s: Seq<char>, pattern: Seq<char>, at: int) -> bool {
    0 <= at && at + pattern.len() <= s.len() && s.subrange(at, at + pattern.len()) == pattern
}

/// Whether `pattern` stands somewhere in `s`.
pub open spec fn has_text(s: Seq<char>, pattern: Seq<char>) -> bool {
    exists|at: int| occurs_at(s, pattern, at)
}

/// Whether `s` begins with `pattern`.
pub open spec fn has_prefix(s: Seq<char>, pattern: Seq<char>) -> bool {
    occurs_at(s, pattern, 0)
}

/// The first position from `from` on at which `pattern` stands in `s`.
pub open spec fn first_from(s: Seq<char>, pattern: Seq<char>, from: int) -> Option<int>
    decreases s.len() + 1 - from,
{
    if from > s.len() {
        None
    } else if occurs_at(s, pattern, from) {
        Some(from)
    } else {
        first_from(s, pattern, from + 1)
    }
}

proof fn lemma_first_from_none(s: Seq<char>, pattern: Seq<char>, from: int)
    requires
        0 <= from,
    ensures
        first_from(s, pattern, from) is None ==> forall|at: int|
            from <= at ==> !occurs_at(s, pattern, at),
        first_from(s, pattern, from) matches Some(at) ==> occurs_at(s, pattern, at),
    decreases s.len() + 1 - from,
{
    if from <= s.len() && !occurs_at(s, pattern, from) {
        lemma_first_from_none(s, pattern, from + 1);
    }
}

/// Whether `pattern` stands in `s` at position `at`.
pub fn stands_at(s: &Vec<char>, pattern: &Vec<char>, at: usize) -> (result: bool)
    ensures
        result == occurs_at(s@, pattern@, at as int),
{
    if pattern.len() > s.len() || at > s.len() - pattern.len() {
        return false;
    }
    let mut i: usize = 0;
    while i < pattern.len()
        invariant
            i <= pattern.len(),
            at + pattern.len() <= s.len(),
            forall|j: int| 0 <= j < i ==> s[at + j] == pattern[j],
        decreases pattern.len() - i,
    {
        if s[at + i] != pattern[i] {
            proof {
                assert(s@.subrange(at as int, at + pattern.len())[i as int] == s[at + i]);
            }
            return false;
        }
        i = i + 1;
    }
    proof {
        assert(s@.subrange(at as int, at + pattern.len()) =~= pattern@);
    }
    true
}

/// The first position at which `pattern` stands in `s`.
pub fn find(s: &Vec<char>, pattern: &Vec<char>) -> (result: Option<usize>)
    ensures
        match result {
            Some(at) => first_from(s@, pattern@, 0) == Some(at as int),
            None => first_from(s@, pattern@, 0) is None,
        },
{
    let mut at: usize = 0;
    while at < s.len()
        invariant
            at <= s.len(),
            first_from(s@, pattern@, 0) == first_from(s@, pattern@, at as int),
        decreases s.len() - at,
    {
        if stands_at(s, pattern, at) {
            return Some(at);
        }
        at = at + 1;
    }
    if stands_at(s, pattern, at) {
        return Some(at);
    }
    proof {
        reveal_with_fuel(first_from, 2);
    }
    None
}

/// Whether `pattern` stands somewhere in the characters.
pub fn holds_text(chars: &Vec<char>, pattern: &str) -> (result: bool)
    ensures
        result == has_text(chars@, pattern@),
{
    let found = find(chars, &chars_of(pattern));
    proof {
        lemma_has_text(chars@, pattern@);
    }
    found.is_some()
}

/// Whether `pattern` stands somewhere in `s`.
pub fn contains(s: &str, pattern: &str) -> (result: bool)
    ensures
        result == has_text(s@, pattern@),
{
    holds_text(&chars_of(s), pattern)
}

proof fn lemma_has_text(s: Seq<char>, pattern: Seq<char>)
    ensures
        has_text(s, pattern) == (first_from(s, pattern, 0) is Some),
{
    lemma_first_from_none(s, pattern, 0);
}

/// Whether `s` begins with `pattern`.
pub fn starts_with(s: &str, pattern: &str) -> (result: bool)
    ensures
        result == has_prefix(s@, pattern@),
{
    stands_at(&chars_of(s), &chars_of(pattern), 0)
}

/// What follows `pattern` in `s`, where `s` begins with it.
pub fn strip_prefix<'a>(s: &'a str, pattern: &str) -> (result: Option<&'a str>)
    ensures
        match result {
            Some(rest) => has_prefix(s@, pattern@) && rest@ == s@.skip(pattern@.len() as int),
            None => !has_prefix(s@, pattern@),
        },
{
    let chars = chars_of(s);
    let prefix = chars_of(pattern);
    if stands_at(&chars, &prefix, 0) {
        Some(slice(s, prefix.len(), chars.len()))
    } else {
        None
    }
}

/// The position of the first `c` in `s`, or the length of `s` where there is none.
pub open spec fn index_of_char(s: Seq<char>, c: char) -> int
    decreases s.len(),
{
    if s.len() == 0 || s[0] == c {
        0
    } else {
        1 + index_of_char(s.drop_first(), c)
    }
}

pub proof fn lemma_index_of_char(s: Seq<char>, c: char, k: int)
    requires
        0 <= k <= s.len(),
        forall|j: int| 0 <= j < k ==> #[trigger] s[j] != c,
        k < s.len() ==> s[k] == c,
    ensures
        index_of_char(s, c) == k,
    decreases k,
{
    if k > 0 {
        assert(s[0] != c);
        lemma_index_of_char(s.drop_first(), c, k - 1);
    }
}

pub proof fn lemma_index_of_char_range(s: Seq<char>, c: char)
    ensures
        0 <= index_of_char(s, c) <= s.len(),
        forall|j: int| 0 <= j < index_of_char(s, c) ==> #[trigger] s[j] != c,
        index_of_char(s, c) < s.len() ==> s[index_of_char(s, c)] == c,
        index_of_char(s, c) < s.len() <==> s.contains(c),
    decreases s.len(),
{
    if s.len() > 0 && s[0] != c {
        lemma_index_of_char_range(s.drop_first(), c);
        assert forall|j: int| 0 <= j < index_of_char(s, c) implies #[trigger] s[j] != c by {
            if j > 0 {
                assert(s[j] == s.drop_first()[j - 1]);
            }
        }
    }
    if s.contains(c) {
        let w = choose|i: int| 0 <= i < s.len() && s[i] == c;
        assert(s[w] == c);
    }
}

/// The position of the first `c` in `s`, or the length of `s` where there is none.
pub fn find_char(s: &Vec<char>, c: char) -> (result: usize)
    ensures
        result == index_of_char(s@, c),
        result <= s.len(),
{
    let mut k: usize = 0;
    while k < s.len() && s[k] != c
        invariant
            k <= s.len(),
            forall|j: int| 0 <= j < k ==> #[trigger] s@[j] != c,
        decreases s.len() - k,
    {
        k = k + 1;
    }
    proof {
        lemma_index_of_char(s@, c, k as int);
    }
    k
}

// ── Case ──────────────────────────────────────────────────────────────────────

/// An ASCII capital as a small letter; any other character as it is.
pub open spec fn lower_char(c: char) -> char {
    if 'A' <= c <= 'Z' {
        (c as u8 + 32) as char
    } else {
        c
    }
}

/// The text with its ASCII capitals as small letters.
pub open spec fn lower_of(s: Seq<char>) -> Seq<char> {
    s.map_values(|c: char| lower_char(c))
}

/// The characters of `s` with its ASCII capitals as small letters.
pub fn lower_ascii(s: &str) -> (result: Vec<char>)
    ensures
        result@ == lower_of(s@),
{
    let chars = chars_of(s);
    let mut out: Vec<char> = Vec::new();
    let mut i: usize = 0;
    while i < chars.len()
        invariant
            i <= chars.len(),
            chars@ == s@,
            out.len() == i,
            forall|j: int| 0 <= j < i ==> (#[trigger] out[j]) == lower_char(chars[j]),
        decreases chars.len() - i,
    {
        let c = chars[i];
        if 'A' <= c && c <= 'Z' {
            out.push((c as u8 + 32) as char);
        } else {
            out.push(c);
        }
        i = i + 1;
    }
    proof {
        assert(out@ =~= lower_of(s@));
    }
    out
}

// ── Lines ─────────────────────────────────────────────────────────────────────

/// The encoding of a text is that of its parts, one after the other.
pub proof fn lemma_encode_concat(a: Seq<char>, b: Seq<char>)
    ensures
        encode_utf8(a + b) == encode_utf8(a) + encode_utf8(b),
    decreases a.len(),
{
    if a.len() == 0 {
        assert(a + b =~= b);
        assert(encode_utf8(a) + encode_utf8(b) =~= encode_utf8(b));
    } else {
        assert((a + b).drop_first() =~= a.drop_first() + b);
        lemma_encode_concat(a.drop_first(), b);
        assert(encode_utf8(a + b) =~= encode_utf8(a) + encode_utf8(b));
    }
}

/// Two texts with the same encoding are the same text.
pub proof fn lemma_encode_injective(a: Seq<char>, b: Seq<char>)
    requires
        encode_utf8(a) == encode_utf8(b),
    ensures
        a == b,
{
    encode_utf8_decode_utf8(a);
    encode_utf8_decode_utf8(b);
}

proof fn lemma_scalar_newline(scalar: u32)
    requires
        is_scalar(scalar),
    ensures
        scalar == 10 ==> encode_scalar(scalar) == seq![10u8],
        scalar != 10 ==> !encode_scalar(scalar).contains(10u8),
        encode_scalar(scalar).len() >= 1,
{
    assert(scalar <= 0x7F ==> (scalar & 0x7F) as u8 == scalar) by (bit_vector);
    assert((0xC0 | ((scalar >> 6) & 0x1F) as u8) != 10u8) by (bit_vector);
    assert((0xE0 | ((scalar >> 12) & 0x0F) as u8) != 10u8) by (bit_vector);
    assert((0xF0 | ((scalar >> 18) & 0x7) as u8) != 10u8) by (bit_vector);
    assert((0x80 | (scalar & 0x3F) as u8) != 10u8) by (bit_vector);
    assert((0x80 | ((scalar >> 6) & 0x3F) as u8) != 10u8) by (bit_vector);
    assert((0x80 | ((scalar >> 12) & 0x3F) as u8) != 10u8) by (bit_vector);
    if scalar == 10 {
        assert(encode_scalar(scalar) =~= seq![10u8]);
    }
}

proof fn lemma_encode_without_newline(s: Seq<char>)
    requires
        forall|j: int| 0 <= j < s.len() ==> #[trigger] s[j] != '\n',
    ensures
        !encode_utf8(s).contains(10u8),
        encode_utf8(s).len() >= s.len(),
    decreases s.len(),
{
    if s.len() > 0 {
        let c = s[0];
        char_is_scalar(c);
        lemma_scalar_newline(c as u32);
        assert(s[0] != '\n');
        char_u32_cast(c, c as u32);
        assert((10u32 as char) == '\n');
        assert((c as u32) != 10);
        let rest = s.drop_first();
        lemma_encode_without_newline(rest);
        let head = encode_scalar(c as u32);
        let tail = encode_utf8(rest);
        assert forall|i: int| 0 <= i < (head + tail).len() implies (head + tail)[i] != 10u8 by {
            if i < head.len() {
                assert(head.contains(head[i]));
            } else {
                assert(tail.contains(tail[i - head.len()]));
            }
        }
    }
}

/// The length of the line that `s` begins with: up to the first line feed.
pub open spec fn line_len(s: Seq<char>) -> int {
    index_of_char(s, '\n')
}

/// The line that `s` begins with, without its line feed, and what follows the line feed.
pub fn split_line<'a>(s: &'a str) -> (result: (&'a str, Option<&'a str>))
    ensures
        0 <= line_len(s@) <= s@.len(),
        result.0@ == s@.take(line_len(s@)),
        match result.1 {
            Some(rest) => line_len(s@) < s@.len() && rest@ == s@.skip(line_len(s@) + 1),
            None => line_len(s@) == s@.len(),
        },
{
    let bytes = s.as_bytes();
    let mut b: usize = 0;
    while b < bytes.len() && bytes[b] != 10
        invariant
            b <= bytes.len(),
            forall|j: int| 0 <= j < b ==> bytes@[j] != 10,
        decreases bytes.len() - b,
    {
        b = b + 1;
    }
    let ghost k = line_len(s@);
    let ghost line = s@.take(k);
    proof {
        lemma_index_of_char_range(s@, '\n');
        assert forall|j: int| 0 <= j < line.len() implies #[trigger] line[j] != '\n' by {
            assert(s@[j] != '\n');
        }
        lemma_encode_without_newline(line);
        lemma_encode_concat(line, s@.skip(k));
        assert(s@ =~= line + s@.skip(k));
        if k < s@.len() {
            let rest = s@.skip(k + 1);
            assert(s@.skip(k) =~= seq!['\n'] + rest);
            lemma_encode_concat(seq!['\n'], rest);
            lemma_scalar_newline(10u32);
            assert(seq!['\n'].drop_first() =~= Seq::<char>::empty());
            assert(encode_utf8(seq!['\n']) =~= seq![10u8]) by {
                reveal_with_fuel(encode_utf8, 2);
            }
            let e = encode_utf8(line).len() as int;
            assert(bytes@ == encode_utf8(line) + (seq![10u8] + encode_utf8(rest)));
            assert(bytes@[e] == 10u8);
            assert forall|j: int| 0 <= j < e implies bytes@[j] != 10 by {
                assert(encode_utf8(line).contains(encode_utf8(line)[j]));
            }
            assert(b == e);
        } else {
            assert(s@.skip(k) =~= Seq::<char>::empty());
            assert(bytes@ =~= encode_utf8(line));
            if b < bytes.len() {
                assert(encode_utf8(line).contains(bytes@[b as int]));
            }
            assert(line =~= s@);
        }
        encode_utf8_valid_utf8(s@);
    }
    if b == bytes.len() {
        return (s, None);
    }
    proof {
        is_char_boundary_iff_not_is_continuation_byte(bytes@, b as int);
    }
    let (first, rest) = s.split_at(b);
    proof {
        assert(first.spec_bytes() =~= encode_utf8(line));
        lemma_encode_injective(first@, line);
        assert(rest.spec_bytes() =~= encode_utf8(s@.skip(k)));
        lemma_encode_injective(rest@, s@.skip(k));
        let after = s@.skip(k + 1);
        assert(rest.spec_bytes() =~= seq![10u8] + encode_utf8(after));
        encode_utf8_valid_utf8(rest@);
        if after.len() > 0 {
            encode_utf8_first_scalar(after);
            encode_utf8_valid_utf8(after);
        }
    }
    proof {
        lemma_boundary_after_newline(rest.spec_bytes(), after_newline(s@));
    }
    let (_, tail) = rest.split_at(1);
    proof {
        let after = s@.skip(k + 1);
        assert(tail.spec_bytes() =~= encode_utf8(after));
        lemma_encode_injective(tail@, after);
    }
    (first, Some(tail))
}

spec fn after_newline(s: Seq<char>) -> Seq<char> {
    s.skip(line_len(s) + 1)
}

proof fn lemma_boundary_after_newline(bytes: Seq<u8>, after: Seq<char>)
    requires
        valid_utf8(bytes),
        bytes == seq![10u8] + encode_utf8(after),
    ensures
        is_char_boundary(bytes, 1),
{
    assert(bytes[0] == 10u8);
    assert(length_of_first_scalar(bytes) == 1);
    reveal_with_fuel(is_char_boundary, 3);
}

// ── Decimal numerals ──────────────────────────────────────────────────────────

/// The digit that stands for `d`.
pub open spec fn digit_char(d: nat) -> char {
    if d == 0 {
        '0'
    } else if d == 1 {
        '1'
    } else if d == 2 {
        '2'
    } else if d == 3 {
        '3'
    } else if d == 4 {
        '4'
    } else if d == 5 {
        '5'
    } else if d == 6 {
        '6'
    } else if d == 7 {
        '7'
    } else if d == 8 {
        '8'
    } else {
        '9'
    }
}

/// The decimal numeral of `n`, without leading zeros.
pub open spec fn decimal(n: nat) -> Seq<char>
    decreases n,
{
    if n < 10 {
        seq![digit_char(n)]
    } else {
        decimal(n / 10).push(digit_char(n % 10))
    }
}

fn digit_of(d: u64) -> (result: char)
    requires
        d < 10,
    ensures
        result == digit_char(d as nat),
{
    match d {
        0 => '0',
        1 => '1',
        2 => '2',
        3 => '3',
        4 => '4',
        5 => '5',
        6 => '6',
        7 => '7',
        8 => '8',
        _ => '9',
    }
}

/// Appends the decimal numeral of `n` to `text`.
pub fn push_decimal(text: &mut String, n: u64)
    ensures
        final(text)@ == old(text)@ + decimal(n as nat),
    decreases n,
{
    if n >= 10 {
        push_decimal(text, n / 10);
    }
    text.push(digit_of(n % 10));
    proof {
        assert(text@ =~= old(text)@ + decimal(n as nat));
    }
}

} // verus!
