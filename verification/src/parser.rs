//! Line-oriented G-code parser.
//!
//! Every text field of a parsed command borrows from the input.  Lines are
//! split at line feeds, and a carriage return before the line feed is dropped,
//! so that the byte offset of every line is exact.

use std::borrow::Cow;

use vstd::prelude::*;
use vstd::utf8::encode_utf8;

use crate::models::{Command, Fault, GCodeCommand, ParseError, Spanned};
use crate::scalar::Scalar;
use crate::text::{
    chars_of, digit, is_digit, is_whitespace, lemma_encode_concat,
    lemma_index_of_char_range, line_len, owned, slice, split_line, trim, trim_end, trim_end_of,
    trim_of, trim_start, trim_start_of, whitespace,
};

verus! {

broadcast use vstd::string::group_string_axioms;

// ── Parameters ────────────────────────────────────────────────────────────────

/// What a parameter letter stands for.
#[derive(Clone, Copy, PartialEq, Eq, Structural)]
pub enum Axis {
    X,
    Y,
    Z,
    E,
    F,
    I,
    J,
    S,
}

/// The parameter that a letter, in either case, stands for.
pub open spec fn axis_of(c: char) -> Option<Axis> {
    match c {
        'X' | 'x' => Some(Axis::X),
        'Y' | 'y' => Some(Axis::Y),
        'Z' | 'z' => Some(Axis::Z),
        'E' | 'e' => Some(Axis::E),
        'F' | 'f' => Some(Axis::F),
        'I' | 'i' => Some(Axis::I),
        'J' | 'j' => Some(Axis::J),
        'S' | 's' => Some(Axis::S),
        _ => None,
    }
}

/// Whether `c` is an ASCII letter.
pub open spec fn is_letter(c: char) -> bool {
    'A' <= c <= 'Z' || 'a' <= c <= 'z'
}

fn letter(c: char) -> (result: bool)
    ensures
        result == is_letter(c),
{
    ('A' <= c && c <= 'Z') || ('a' <= c && c <= 'z')
}

/// How many digits and points `s` begins with.
pub open spec fn numeral_len(s: Seq<char>) -> int
    decreases s.len(),
{
    if s.len() > 0 && (is_digit(s[0]) || s[0] == '.') {
        1 + numeral_len(s.drop_first())
    } else {
        0
    }
}

/// Whether `s` begins with a sign.
pub open spec fn is_signed(s: Seq<char>) -> bool {
    s.len() > 0 && (s[0] == '+' || s[0] == '-')
}

/// The length of the value that `s` begins with: a sign, then digits and points.
pub open spec fn value_len(s: Seq<char>) -> int {
    if is_signed(s) {
        1 + numeral_len(s.drop_first())
    } else {
        numeral_len(s)
    }
}

pub proof fn lemma_value_len_range(s: Seq<char>)
    ensures
        0 <= value_len(s) <= s.len(),
{
    lemma_numeral_len_range(s);
    if is_signed(s) {
        lemma_numeral_len_range(s.drop_first());
    }
}

proof fn lemma_numeral_len_range(s: Seq<char>)
    ensures
        0 <= numeral_len(s) <= s.len(),
    decreases s.len(),
{
    if s.len() > 0 {
        lemma_numeral_len_range(s.drop_first());
    }
}

proof fn lemma_numeral_len(s: Seq<char>, k: int)
    requires
        0 <= k <= s.len(),
        forall|j: int| 0 <= j < k ==> is_digit(#[trigger] s[j]) || s[j] == '.',
        k < s.len() ==> !(is_digit(s[k]) || s[k] == '.'),
    ensures
        numeral_len(s) == k,
    decreases k,
{
    if k > 0 {
        assert(is_digit(s[0]) || s[0] == '.');
        lemma_numeral_len(s.drop_first(), k - 1);
    }
}

/// A letter of a parameter string and the value that follows it.
#[verifier::ext_equal]
pub struct Word {
    /// What the letter stands for; `None` where it means nothing here.
    pub axis: Option<Axis>,
    /// The text of the value.
    pub value: Seq<char>,
}

impl Word {
    /// Whether the letter has no value.
    pub open spec fn is_bare(self) -> bool {
        self.value.len() == 0 || self.value == seq!['+'] || self.value == seq!['-']
    }
}

/// The words of a parameter string.  Words need no space between them, and
/// characters that begin no word are passed over.
pub open spec fn words(s: Seq<char>) -> Seq<Word>
    decreases s.len(),
{
    if s.len() == 0 {
        Seq::empty()
    } else if !is_letter(s[0]) {
        words(s.drop_first())
    } else {
        let n = value_len(s.drop_first());
        proof {
            lemma_value_len_range(s.drop_first());
        }
        seq![Word { axis: axis_of(s[0]), value: s.subrange(1, 1 + n) }] + words(s.skip(1 + n))
    }
}

/// The number that the last word for `axis` gives, bare words aside.
pub open spec fn given<N: Scalar>(list: Seq<Word>, axis: Axis) -> Option<N>
    decreases list.len(),
{
    if list.len() == 0 {
        None
    } else if list.last().axis == Some(axis) && !list.last().is_bare() {
        N::parse_spec(list.last().value)
    } else {
        given(list.drop_last(), axis)
    }
}

/// The first value, bare words aside, that is no number.
pub open spec fn bad_value<N: Scalar>(list: Seq<Word>) -> Option<Seq<char>>
    decreases list.len(),
{
    if list.len() == 0 {
        None
    } else {
        match bad_value::<N>(list.drop_last()) {
            Some(value) => Some(value),
            None => if !list.last().is_bare() && N::parse_spec(list.last().value) is None {
                Some(list.last().value)
            } else {
                None
            },
        }
    }
}

/// The numbers of a parameter string.
struct MoveParams<N> {
    x_pos: Option<N>,
    y_pos: Option<N>,
    z_pos: Option<N>,
    extrude: Option<N>,
    feed: Option<N>,
    i_offset: Option<N>,
    j_offset: Option<N>,
    setting: Option<N>,
}

impl<N: Scalar> MoveParams<N> {
    spec fn from_words(list: Seq<Word>) -> Self {
        MoveParams {
            x_pos: given(list, Axis::X),
            y_pos: given(list, Axis::Y),
            z_pos: given(list, Axis::Z),
            extrude: given(list, Axis::E),
            feed: given(list, Axis::F),
            i_offset: given(list, Axis::I),
            j_offset: given(list, Axis::J),
            setting: given(list, Axis::S),
        }
    }
}

/// The end of the value that begins at `start`.
fn value_end(chars: &Vec<char>, start: usize) -> (result: usize)
    requires
        start <= chars.len(),
    ensures
        start <= result <= chars.len(),
        result == start + value_len(chars@.skip(start as int)),
{
    let ghost tail = chars@.skip(start as int);
    let mut end: usize = start;
    if end < chars.len() && (chars[end] == '+' || chars[end] == '-') {
        end = end + 1;
    }
    let ghost body = chars@.skip(end as int);
    let digits_start: usize = end;
    proof {
        if is_signed(tail) {
            assert(tail[0] == chars@[start as int]);
            assert(tail.drop_first() =~= body);
        } else {
            if start < chars.len() {
                assert(tail[0] == chars@[start as int]);
            }
            assert(tail =~= body);
        }
    }
    while end < chars.len() && (digit(chars[end]) || chars[end] == '.')
        invariant
            digits_start <= end <= chars.len(),
            body == chars@.skip(digits_start as int),
            forall|j: int|
                0 <= j < end - digits_start ==> is_digit(#[trigger] body[j]) || body[j] == '.',
        decreases chars.len() - end,
    {
        proof {
            assert(body[end - digits_start] == chars@[end as int]);
        }
        end = end + 1;
    }
    proof {
        if end < chars.len() {
            assert(body[end - digits_start] == chars@[end as int]);
        }
        lemma_numeral_len(body, end - digits_start);
    }
    end
}

/// Reads a parameter string.
fn parse_params<N: Scalar>(params: &str, line_number: u32) -> (result: Result<
    MoveParams<N>,
    ParseError,
>)
    ensures
        match result {
            Ok(p) => bad_value::<N>(words(params@)) is None && p == MoveParams::<N>::from_words(
                words(params@),
            ),
            Err(e) => bad_value::<N>(words(params@)) matches Some(value) && e@
                == (Fault::InvalidNumber { line: line_number, value }),
        },
{
    let chars = chars_of(params);
    let mut p: MoveParams<N> = MoveParams {
        x_pos: None,
        y_pos: None,
        z_pos: None,
        extrude: None,
        feed: None,
        i_offset: None,
        j_offset: None,
        setting: None,
    };
    let mut cursor: usize = 0;
    let ghost mut done: Seq<Word> = Seq::empty();
    proof {
        assert(params@.skip(0) =~= params@);
        assert(done + words(params@) =~= words(params@));
    }
    while cursor < chars.len()
        invariant
            cursor <= chars.len(),
            chars@ == params@,
            words(params@) == done + words(params@.skip(cursor as int)),
            bad_value::<N>(done) is None,
            p == MoveParams::<N>::from_words(done),
        decreases chars.len() - cursor,
    {
        let ghost rest = params@.skip(cursor as int);
        let c = chars[cursor];
        proof {
            assert(rest[0] == c);
            assert(rest.drop_first() =~= params@.skip(cursor + 1));
        }
        cursor = cursor + 1;
        if !letter(c) {
            continue ;
        }
        let start: usize = cursor;
        let end: usize = value_end(&chars, start);
        let value = slice(params, start, end);
        cursor = end;
        let ghost word = Word { axis: axis_of(c), value: value@ };
        let ghost before = done;
        proof {
            let n = value_len(rest.drop_first());
            assert(rest.subrange(1, 1 + n) =~= params@.subrange(start as int, end as int));
            assert(rest.skip(1 + n) =~= params@.skip(end as int));
            done = before.push(word);
            assert(words(rest) =~= seq![word] + words(params@.skip(end as int)));
            assert(before + (seq![word] + words(params@.skip(end as int))) =~= done + words(
                params@.skip(end as int),
            ));
            assert(done.drop_last() =~= before);
            assert(done.last() == word);
            lemma_bad_value_stays::<N>(done, words(params@.skip(end as int)));
        }
        if end == start || (end == start + 1 && (chars[start] == '+' || chars[start] == '-')) {
            proof {
                if end == start + 1 {
                    assert(value@ =~= seq![chars@[start as int]]);
                }
                assert(word.is_bare());
            }
            continue ;
        }
        proof {
            if value@ == seq!['+'] || value@ == seq!['-'] {
                assert(value@[0] == chars@[start as int]);
            }
            assert(!word.is_bare());
        }
        let number = match N::parse(value) {
            Some(number) => number,
            None => {
                return Err(ParseError::InvalidNumber { line: line_number, value: owned(value) });
            },
        };
        match c {
            'X' | 'x' => p.x_pos = Some(number),
            'Y' | 'y' => p.y_pos = Some(number),
            'Z' | 'z' => p.z_pos = Some(number),
            'E' | 'e' => p.extrude = Some(number),
            'F' | 'f' => p.feed = Some(number),
            'I' | 'i' => p.i_offset = Some(number),
            'J' | 'j' => p.j_offset = Some(number),
            'S' | 's' => p.setting = Some(number),
            _ => {},
        }
    }
    proof {
        assert(params@.skip(cursor as int) =~= Seq::<char>::empty());
        assert(done + Seq::<Word>::empty() =~= done);
    }
    Ok(p)
}

/// The number of the `S` parameter, where all the numbers can be read.
pub open spec fn setting_in<N: Scalar>(params: Seq<char>) -> Option<N> {
    if bad_value::<N>(words(params)) is None {
        given(words(params), Axis::S)
    } else {
        None
    }
}

/// The number of the `S` parameter, where all the numbers can be read.
pub fn parse_setting<N: Scalar>(params: &str) -> (result: Option<N>)
    ensures
        result == setting_in::<N>(params@),
{
    match parse_params::<N>(params, 0) {
        Ok(p) => p.setting,
        Err(_) => None,
    }
}

proof fn lemma_bad_value_stays<N: Scalar>(first: Seq<Word>, rest: Seq<Word>)
    ensures
        bad_value::<N>(first) is Some ==> bad_value::<N>(first + rest) == bad_value::<N>(first),
    decreases rest.len(),
{
    if rest.len() == 0 {
        assert(first + rest =~= first);
    } else {
        lemma_bad_value_stays::<N>(first, rest.drop_last());
        assert((first + rest).drop_last() =~= first + rest.drop_last());
    }
}

// ── The command token ─────────────────────────────────────────────────────────

/// How many digits `s` begins with.
pub open spec fn digits_len(s: Seq<char>) -> int
    decreases s.len(),
{
    if s.len() > 0 && is_digit(s[0]) {
        1 + digits_len(s.drop_first())
    } else {
        0
    }
}

/// The number that a sequence of decimal digits spells.
pub open spec fn number_of(digits: Seq<char>) -> nat
    decreases digits.len(),
{
    if digits.len() == 0 {
        0
    } else {
        number_of(digits.drop_last()) * 10 + (digits.last() as nat - '0' as nat) as nat
    }
}

/// The letter and the number that a line begins with, and the rest of the line.
#[verifier::ext_equal]
pub struct LeadingCode {
    /// Whether the letter is `G`; it is `M` otherwise.
    pub is_g: bool,
    /// The number behind the letter.
    pub code: nat,
    /// What follows the number.
    pub rest: Seq<char>,
}

/// The code that `s` begins with: `G` or `M` in either case, and all digits that
/// follow, where their number fits in 32 bits.
pub open spec fn leading_code(s: Seq<char>) -> Option<LeadingCode> {
    if s.len() == 0 || !(s[0] == 'G' || s[0] == 'g' || s[0] == 'M' || s[0] == 'm') {
        None
    } else {
        let n = digits_len(s.drop_first());
        let code = number_of(s.subrange(1, 1 + n));
        if n == 0 || code > u32::MAX {
            None
        } else {
            Some(LeadingCode { is_g: s[0] == 'G' || s[0] == 'g', code, rest: s.skip(1 + n) })
        }
    }
}

/// Whether `c` can stand directly behind the letter of a parameter.
pub open spec fn begins_value(c: char) -> bool {
    is_digit(c) || c == '+' || c == '-' || c == '.' || is_whitespace(c)
}

/// Whether what follows a code is apart from it: nothing, white space, or a
/// parameter whose letter stands directly behind the code.  The rest of a longer
/// name (`G2CORE`) or of another code (`G38.2`) is not.
pub open spec fn stands_apart(rest: Seq<char>) -> bool {
    ||| rest.len() == 0
    ||| is_whitespace(rest[0])
    ||| is_letter(rest[0]) && (rest.len() == 1 || begins_value(rest[1]))
}

/// The command that a line begins with, and its parameters.
#[verifier::ext_equal]
pub struct CommandToken {
    /// Whether the letter is `G`; it is `M` otherwise.
    pub is_g: bool,
    /// The number behind the letter.
    pub code: nat,
    /// What follows the number, without leading white space.
    pub params: Seq<char>,
}

/// The command token of `s`: a code that fits in 16 bits, and parameters apart from it.
pub open spec fn command_token(s: Seq<char>) -> Option<CommandToken> {
    match leading_code(s) {
        Some(LeadingCode { is_g, code, rest }) => if code <= u16::MAX && stands_apart(rest) {
            Some(CommandToken { is_g, code, params: trim_start_of(rest) })
        } else {
            None
        },
        None => None,
    }
}

proof fn lemma_digits_len(s: Seq<char>, k: int)
    requires
        0 <= k <= s.len(),
        forall|j: int| 0 <= j < k ==> is_digit(#[trigger] s[j]),
        k < s.len() ==> !is_digit(s[k]),
    ensures
        digits_len(s) == k,
    decreases k,
{
    if k > 0 {
        assert(is_digit(s[0]));
        lemma_digits_len(s.drop_first(), k - 1);
    }
}

fn parse_command_token<'a>(s: &'a str) -> (result: Option<(bool, u32, &'a str)>)
    ensures
        match result {
            Some((is_g, code, rest)) => leading_code(s@) == Some(
                LeadingCode { is_g, code: code as nat, rest: rest@ },
            ),
            None => leading_code(s@) is None,
        },
{
    let chars = chars_of(s);
    if chars.len() == 0 {
        return None;
    }
    let is_g = chars[0] == 'G' || chars[0] == 'g';
    if !is_g && chars[0] != 'M' && chars[0] != 'm' {
        return None;
    }
    let mut end: usize = 1;
    // Exact while it fits in 32 bits; some larger number once it does not.
    let mut code: u64 = 0;
    proof {
        assert(s@.subrange(1, 1) =~= Seq::<char>::empty());
    }
    while end < chars.len() && digit(chars[end])
        invariant
            1 <= end <= chars.len(),
            chars@ == s@,
            forall|j: int| 0 <= j < end - 1 ==> is_digit(#[trigger] s@.drop_first()[j]),
            code <= u32::MAX ==> code == number_of(s@.subrange(1, end as int)),
            code > u32::MAX ==> number_of(s@.subrange(1, end as int)) > u32::MAX,
            code <= 42_949_672_959,
        decreases chars.len() - end,
    {
        let d: u64 = (chars[end] as u32 - '0' as u32) as u64;
        if code <= u32::MAX as u64 {
            code = code * 10 + d;
        }
        end = end + 1;
        proof {
            let digits = s@.subrange(1, end as int);
            assert(digits.drop_last() =~= s@.subrange(1, end - 1));
            assert(digits.last() == s@[end - 1]);
            assert(s@.drop_first()[end - 2] == s@[end - 1]);
        }
    }
    proof {
        if end < chars.len() {
            assert(s@.drop_first()[end - 1] == s@[end as int]);
        }
        lemma_digits_len(s@.drop_first(), end - 1);
    }
    if end == 1 {
        return None;
    }
    if code > u32::MAX as u64 {
        return None;
    }
    let rest = slice(s, end, chars.len());
    proof {
        assert(rest@ =~= s@.skip(end as int));
    }
    Some((is_g, code as u32, rest))
}

fn is_apart(rest: &str) -> (result: bool)
    ensures
        result == stands_apart(rest@),
{
    let chars = chars_of(rest);
    if chars.len() == 0 || whitespace(chars[0]) {
        return true;
    }
    if !letter(chars[0]) {
        return false;
    }
    if chars.len() == 1 {
        return true;
    }
    let c = chars[1];
    digit(c) || c == '+' || c == '-' || c == '.' || whitespace(c)
}

// ── Lines ─────────────────────────────────────────────────────────────────────

/// The command that a token stands for, or the value of it that is no number.
pub open spec fn command_of<N: Scalar>(token: CommandToken) -> Result<Command<N>, Seq<char>> {
    let list = words(token.params);
    let is_move = token.is_g && (token.code <= 3 || token.code == 92);
    if is_move && bad_value::<N>(list) is Some {
        Err(bad_value::<N>(list)->0)
    } else if !token.is_g {
        Ok(Command::MetaCommand { code: token.code as u16, params: token.params })
    } else if token.code == 0 {
        Ok(
            Command::RapidMove {
                x: given(list, Axis::X),
                y: given(list, Axis::Y),
                z: given(list, Axis::Z),
                f: given(list, Axis::F),
            },
        )
    } else if token.code == 1 {
        Ok(
            Command::LinearMove {
                x: given(list, Axis::X),
                y: given(list, Axis::Y),
                z: given(list, Axis::Z),
                e: given(list, Axis::E),
                f: given(list, Axis::F),
            },
        )
    } else if token.code == 2 {
        Ok(
            Command::ArcMoveCW {
                x: given(list, Axis::X),
                y: given(list, Axis::Y),
                z: given(list, Axis::Z),
                e: given(list, Axis::E),
                f: given(list, Axis::F),
                i: given(list, Axis::I),
                j: given(list, Axis::J),
            },
        )
    } else if token.code == 3 {
        Ok(
            Command::ArcMoveCCW {
                x: given(list, Axis::X),
                y: given(list, Axis::Y),
                z: given(list, Axis::Z),
                e: given(list, Axis::E),
                f: given(list, Axis::F),
                i: given(list, Axis::I),
                j: given(list, Axis::J),
            },
        )
    } else if token.code == 90 {
        Ok(Command::SetAbsolute)
    } else if token.code == 91 {
        Ok(Command::SetRelative)
    } else if token.code == 92 {
        Ok(
            Command::SetPosition {
                x: given(list, Axis::X),
                y: given(list, Axis::Y),
                z: given(list, Axis::Z),
                e: given(list, Axis::E),
            },
        )
    } else {
        Ok(Command::GCommand { code: token.code as u16, params: token.params })
    }
}

/// The text of a comment in parentheses: what they enclose, without white space
/// at the ends; the whole of `s` where the line does not end with `)`.
pub open spec fn enclosed_text(s: Seq<char>) -> Seq<char> {
    if s.len() >= 2 && s.last() == ')' {
        trim_of(s.subrange(1, s.len() - 1))
    } else {
        s
    }
}

/// Whether place `k` of `s` is quoted: an odd number of double quotes stands before it.
pub open spec fn is_quoted(s: Seq<char>, k: int) -> bool
    decreases k,
{
    k > 0 && (is_quoted(s, k - 1) != (s[k - 1] == '"'))
}

/// Whether a comment begins at place `k` of `s`: with a `;` that is not quoted.
pub open spec fn begins_comment(s: Seq<char>, k: int) -> bool {
    s[k] == ';' && !is_quoted(s, k)
}

/// The first place from `k` on at which a comment begins, or the length of `s`.
pub open spec fn comment_from(s: Seq<char>, k: int) -> int
    decreases s.len() - k,
{
    if k >= s.len() {
        s.len() as int
    } else if begins_comment(s, k) {
        k
    } else {
        comment_from(s, k + 1)
    }
}

/// Where the comment at the end of `s` begins, or the length of `s`.
pub open spec fn comment_start(s: Seq<char>) -> int {
    comment_from(s, 0)
}

pub proof fn lemma_comment_from(s: Seq<char>, k: int, at: int)
    requires
        0 <= k <= at <= s.len(),
        forall|j: int| k <= j < at ==> !#[trigger] begins_comment(s, j),
        at < s.len() ==> begins_comment(s, at),
    ensures
        comment_from(s, k) == at,
    decreases at - k,
{
    if k < at {
        assert(!begins_comment(s, k));
        lemma_comment_from(s, k + 1, at);
    }
}

pub proof fn lemma_comment_range(s: Seq<char>, k: int)
    requires
        0 <= k <= s.len(),
    ensures
        k <= comment_from(s, k) <= s.len(),
        forall|j: int| k <= j < comment_from(s, k) ==> !#[trigger] begins_comment(s, j),
        comment_from(s, k) < s.len() ==> begins_comment(s, comment_from(s, k)),
    decreases s.len() - k,
{
    if k < s.len() && !begins_comment(s, k) {
        lemma_comment_range(s, k + 1);
    }
}

/// Splits a line at the first `;` that is not quoted; the `;` is in neither part.
fn split_inline_comment<'a>(s: &'a str) -> (result: (&'a str, &'a str))
    ensures
        result.0@ == s@.take(comment_start(s@)),
        result.1@ == if comment_start(s@) < s@.len() {
            s@.skip(comment_start(s@) + 1)
        } else {
            Seq::empty()
        },
{
    let chars = chars_of(s);
    let mut quoted = false;
    let mut at: usize = 0;
    while at < chars.len() && (quoted || chars[at] != ';')
        invariant
            at <= chars.len(),
            chars@ == s@,
            quoted == is_quoted(s@, at as int),
            forall|j: int| 0 <= j < at ==> !#[trigger] begins_comment(s@, j),
        decreases chars.len() - at,
    {
        if chars[at] == '"' {
            quoted = !quoted;
        }
        at = at + 1;
    }
    proof {
        lemma_comment_from(s@, 0, at as int);
    }
    let before = slice(s, 0, at);
    let next: usize = if at < chars.len() {
        at + 1
    } else {
        at
    };
    let after = slice(s, next, chars.len());
    proof {
        assert(before@ =~= s@.take(at as int));
        if at < s@.len() {
            assert(after@ =~= s@.skip(at + 1));
        } else {
            assert(after@ =~= Seq::<char>::empty());
        }
    }
    (before, after)
}

/// The command part of a line: what stands before its comment.
pub open spec fn command_part(s: Seq<char>) -> Seq<char> {
    trim_end_of(s.take(comment_start(s)))
}

/// The command of a line, or the value in it that is no number.
pub open spec fn command_on<N: Scalar>(line: Seq<char>) -> Result<Command<N>, Seq<char>> {
    let s = trim_start_of(line);
    if s.len() == 0 {
        Ok(Command::Unknown { raw: Seq::empty() })
    } else if s[0] == '(' {
        Ok(Command::Comment { text: enclosed_text(s) })
    } else if s[0] == ';' {
        Ok(Command::Comment { text: s.drop_first() })
    } else {
        match command_token(command_part(s)) {
            Some(token) => command_of(token),
            None => Ok(Command::Unknown { raw: line }),
        }
    }
}

/// What reading a line gives: the command with its place, or the fault.
pub open spec fn read_line<N: Scalar>(line: Seq<char>, number: u32, offset: u64) -> Result<
    Spanned<Command<N>>,
    Fault,
> {
    match command_on(line) {
        Ok(command) => Ok(Spanned { inner: command, line: number, byte_offset: offset }),
        Err(value) => Err(Fault::InvalidNumber { line: number, value }),
    }
}

/// What the result of reading a line says.
pub open spec fn outcome<'a, N>(
    result: Result<Spanned<GCodeCommand<'a, N>>, ParseError>,
) -> Result<Spanned<Command<N>>, Fault> {
    match result {
        Ok(command) => Ok(command@),
        Err(error) => Err(error@),
    }
}

fn parse_line_inner<'a, N: Scalar>(line: &'a str, line_number: u32) -> (result: Result<
    GCodeCommand<'a, N>,
    ParseError,
>)
    ensures
        match result {
            Ok(command) => command_on::<N>(line@) == Ok::<Command<N>, Seq<char>>(command@),
            Err(error) => command_on::<N>(line@) matches Err(value) && error@
                == (Fault::InvalidNumber { line: line_number, value }),
        },
{
    let trimmed = trim_start(line);
    let chars = chars_of(trimmed);
    if chars.len() == 0 {
        proof {
            reveal_strlit("");
            assert(""@ =~= Seq::<char>::empty());
        }
        return Ok(GCodeCommand::Unknown { raw: Cow::Borrowed("") });
    }
    if chars[0] == '(' {
        let text = if chars.len() >= 2 && chars[chars.len() - 1] == ')' {
            trim(slice(trimmed, 1, chars.len() - 1))
        } else {
            trimmed
        };
        return Ok(GCodeCommand::Comment { text: Cow::Borrowed(text) });
    }
    if chars[0] == ';' {
        let text = slice(trimmed, 1, chars.len());
        proof {
            assert(text@ =~= trimmed@.drop_first());
        }
        return Ok(GCodeCommand::Comment { text: Cow::Borrowed(text) });
    }
    let (before_comment, _) = split_inline_comment(trimmed);
    let cmd_part = trim_end(before_comment);
    let (is_g, code, after_code) = match parse_command_token(cmd_part) {
        Some(token) => token,
        None => {
            return Ok(GCodeCommand::Unknown { raw: Cow::Borrowed(line) });
        },
    };
    if code > u16::MAX as u32 || !is_apart(after_code) {
        return Ok(GCodeCommand::Unknown { raw: Cow::Borrowed(line) });
    }
    let params_raw = trim_start(after_code);
    if !is_g {
        return Ok(
            GCodeCommand::MetaCommand {
                code: code as u16,
                params: Cow::Borrowed(params_raw),
            },
        );
    }
    match code {
        0 => match parse_params::<N>(params_raw, line_number) {
            Ok(p) => Ok(
                GCodeCommand::RapidMove { x: p.x_pos, y: p.y_pos, z: p.z_pos, f: p.feed },
            ),
            Err(e) => Err(e),
        },
        1 => match parse_params::<N>(params_raw, line_number) {
            Ok(p) => Ok(
                GCodeCommand::LinearMove {
                    x: p.x_pos,
                    y: p.y_pos,
                    z: p.z_pos,
                    e: p.extrude,
                    f: p.feed,
                },
            ),
            Err(e) => Err(e),
        },
        2 => match parse_params::<N>(params_raw, line_number) {
            Ok(p) => Ok(
                GCodeCommand::ArcMoveCW {
                    x: p.x_pos,
                    y: p.y_pos,
                    z: p.z_pos,
                    e: p.extrude,
                    f: p.feed,
                    i: p.i_offset,
                    j: p.j_offset,
                },
            ),
            Err(e) => Err(e),
        },
        3 => match parse_params::<N>(params_raw, line_number) {
            Ok(p) => Ok(
                GCodeCommand::ArcMoveCCW {
                    x: p.x_pos,
                    y: p.y_pos,
                    z: p.z_pos,
                    e: p.extrude,
                    f: p.feed,
                    i: p.i_offset,
                    j: p.j_offset,
                },
            ),
            Err(e) => Err(e),
        },
        90 => Ok(GCodeCommand::SetAbsolute),
        91 => Ok(GCodeCommand::SetRelative),
        92 => match parse_params::<N>(params_raw, line_number) {
            Ok(p) => Ok(
                GCodeCommand::SetPosition { x: p.x_pos, y: p.y_pos, z: p.z_pos, e: p.extrude },
            ),
            Err(e) => Err(e),
        },
        _ => Ok(
            GCodeCommand::GCommand { code: code as u16, params: Cow::Borrowed(params_raw) },
        ),
    }
}

/// Reads a single line, and gives it the line number and byte offset that the caller supplies.
///
/// A line that is not recognised is no error: it is returned as
/// [`GCodeCommand::Unknown`].
pub fn parse_line<'a, N: Scalar>(input: &'a str, line_number: u32, byte_offset: u64) -> (result:
    Result<Spanned<GCodeCommand<'a, N>>, ParseError>)
    ensures
        outcome(result) == read_line::<N>(input@, line_number, byte_offset),
{
    match parse_line_inner::<N>(input, line_number) {
        Ok(inner) => Ok(Spanned { inner, line: line_number, byte_offset }),
        Err(error) => Err(error),
    }
}

// ── Whole inputs ──────────────────────────────────────────────────────────────

/// A line of the input, without its line feed, and its offset in bytes.
#[verifier::ext_equal]
pub struct SourceLine {
    pub text: Seq<char>,
    pub offset: nat,
}

/// The lines of `s`, where `s` begins at byte `offset` of the input.
///
/// Line feeds end lines; what follows the last line feed is a line unless it is
/// empty.
pub open spec fn source_lines(s: Seq<char>, offset: nat) -> Seq<SourceLine>
    decreases s.len(),
{
    if s.len() == 0 {
        Seq::empty()
    } else {
        let k = line_len(s);
        proof {
            lemma_index_of_char_range(s, '\n');
        }
        let first = seq![SourceLine { text: s.take(k), offset }];
        if k < s.len() {
            first + source_lines(s.skip(k + 1), offset + encode_utf8(s.take(k + 1)).len())
        } else {
            first
        }
    }
}

/// `line` without a carriage return at its end.
pub open spec fn without_cr(line: Seq<char>) -> Seq<char> {
    if line.len() > 0 && line.last() == '\r' {
        line.drop_last()
    } else {
        line
    }
}

/// What reading every line of `input` gives, in order.
pub open spec fn read_lines<N: Scalar>(input: Seq<char>) -> Seq<
    Result<Spanned<Command<N>>, Fault>,
> {
    let lines = source_lines(input, 0);
    Seq::new(
        lines.len(),
        |i: int| read_line::<N>(without_cr(lines[i].text), (i + 1) as u32, lines[i].offset as u64),
    )
}

fn strip_cr<'a>(line: &'a str) -> (result: &'a str)
    ensures
        result@ == without_cr(line@),
{
    let chars = chars_of(line);
    if chars.len() > 0 && chars[chars.len() - 1] == '\r' {
        let stripped = slice(line, 0, chars.len() - 1);
        proof {
            assert(stripped@ =~= line@.drop_last());
        }
        stripped
    } else {
        line
    }
}

proof fn lemma_encode_newline()
    ensures
        encode_utf8(seq!['\n']).len() == 1,
{
    reveal_with_fuel(encode_utf8, 2);
    assert(seq!['\n'].drop_first() =~= Seq::<char>::empty());
}

/// The number of lines of `input`.
pub fn line_count(input: &str) -> (result: usize)
    ensures
        result == source_lines(input@, 0).len(),
{
    let ghost lines = source_lines(input@, 0);
    let total: usize = chars_of(input).len();
    let mut rest: &str = input;
    let mut count: usize = 0;
    let ghost mut offset: nat = 0;
    proof {
        assert(lines.skip(0) =~= lines);
    }
    while !rest.is_empty()
        invariant
            lines == source_lines(input@, 0),
            count <= lines.len(),
            lines.skip(count as int) == source_lines(rest@, offset),
            count + rest@.len() <= total,
        decreases rest@.len(),
    {
        let ghost whole = rest@;
        let ghost k = line_len(whole);
        proof {
            lemma_index_of_char_range(whole, '\n');
            assert(source_lines(whole, offset).len() > 0);
            assert(lines.skip(count as int + 1) =~= lines.skip(count as int).skip(1));
        }
        let (_, after) = split_line(rest);
        count = count + 1;
        match after {
            Some(next) => {
                proof {
                    offset = offset + encode_utf8(whole.take(k + 1)).len();
                    assert(lines.skip(count as int) =~= source_lines(next@, offset));
                }
                rest = next;
            },
            None => {
                rest = "";
                proof {
                    reveal_strlit("");
                    assert(rest@ =~= Seq::<char>::empty());
                    assert(lines.skip(count as int) =~= Seq::<SourceLine>::empty());
                }
            },
        }
    }
    proof {
        assert(lines.skip(count as int).len() == 0);
    }
    count
}

/// Reads every line of `input`.
///
/// There is one result per line; a line with an error does not keep the lines
/// behind it from being read.
pub fn parse_streaming<'a, N: Scalar>(input: &'a str) -> (result: Vec<
    Result<Spanned<GCodeCommand<'a, N>>, ParseError>,
>)
    requires
        source_lines(input@, 0).len() < u32::MAX,
    ensures
        result@.map_values(
            |r: Result<Spanned<GCodeCommand<'a, N>>, ParseError>| outcome(r),
        ) == read_lines::<N>(input@),
{
    let ghost lines = source_lines(input@, 0);
    let total: usize = input.as_bytes().len();
    let mut results: Vec<Result<Spanned<GCodeCommand<'a, N>>, ParseError>> = Vec::new();
    let mut rest: &'a str = input;
    let mut offset: usize = 0;
    let mut line_number: u32 = 1;
    proof {
        assert(lines.skip(0) =~= lines);
    }
    while !rest.is_empty()
        invariant
            lines == source_lines(input@, 0),
            lines.len() < u32::MAX,
            results.len() <= lines.len(),
            lines.skip(results.len() as int) == source_lines(rest@, offset as nat),
            line_number == results.len() + 1,
            offset + encode_utf8(rest@).len() == total,
            forall|i: int|
                0 <= i < results.len() ==> outcome(#[trigger] results@[i]) == read_lines::<N>(
                    input@,
                )[i],
        decreases rest@.len(),
    {
        let ghost k = line_len(rest@);
        let ghost whole = rest@;
        let ghost done = results.len() as int;
        proof {
            lemma_index_of_char_range(rest@, '\n');
            assert(source_lines(rest@, offset as nat).len() > 0);
            assert(done < lines.len());
            assert(lines.skip(done)[0] == lines[done]);
            assert(lines[done] == (SourceLine { text: whole.take(k), offset: offset as nat }));
        }
        let (raw_line, after) = split_line(rest);
        let line = strip_cr(raw_line);
        results.push(parse_line::<N>(line, line_number, offset as u64));
        line_number = line_number + 1;
        match after {
            Some(next) => {
                let advance: usize = raw_line.as_bytes().len();
                proof {
                    lemma_encode_newline();
                    assert(whole.take(k + 1) =~= whole.take(k) + seq!['\n']);
                    lemma_encode_concat(whole.take(k), seq!['\n']);
                    assert(whole =~= whole.take(k + 1) + whole.skip(k + 1));
                    lemma_encode_concat(whole.take(k + 1), whole.skip(k + 1));
                    assert(lines.skip(done + 1) =~= lines.skip(done).skip(1));
                    assert(lines.skip(done).skip(1) =~= source_lines(
                        next@,
                        offset as nat + encode_utf8(whole.take(k + 1)).len(),
                    ));
                }
                offset = offset + advance + 1;
                rest = next;
            },
            None => {
                offset = total;
                rest = "";
                proof {
                    reveal_strlit("");
                    assert(rest@ =~= Seq::<char>::empty());
                    assert(lines.skip(done + 1) =~= Seq::<SourceLine>::empty());
                    assert(encode_utf8(rest@).len() == 0);
                }
            },
        }
    }
    proof {
        assert(lines.skip(results.len() as int).len() == 0);
        assert(results@.map_values(
            |r: Result<Spanned<GCodeCommand<'a, N>>, ParseError>| outcome(r),
        ) =~= read_lines::<N>(input@));
    }
    results
}

/// The first fault among the results, if there is one.
pub open spec fn first_fault<N>(results: Seq<Result<Spanned<Command<N>>, Fault>>) -> Option<Fault>
    decreases results.len(),
{
    if results.len() == 0 {
        None
    } else {
        match results[0] {
            Ok(_) => first_fault(results.drop_first()),
            Err(fault) => Some(fault),
        }
    }
}

/// The program that a text without faults holds.
pub open spec fn parsed<N: Scalar>(input: Seq<char>) -> Seq<Spanned<Command<N>>> {
    let lines = read_lines::<N>(input);
    Seq::new(lines.len(), |i: int| lines[i]->Ok_0)
}

/// Reads the whole of `input`, and returns the first error where there is one.
pub fn parse_all<'a, N: Scalar>(input: &'a str) -> (result: Result<
    Vec<Spanned<GCodeCommand<'a, N>>>,
    ParseError,
>)
    requires
        source_lines(input@, 0).len() < u32::MAX,
    ensures
        match result {
            Ok(commands) => {
                &&& commands.len() == read_lines::<N>(input@).len()
                &&& forall|i: int|
                    0 <= i < commands.len() ==> read_lines::<N>(input@)[i] == Ok::<
                        Spanned<Command<N>>,
                        Fault,
                    >((#[trigger] commands@[i])@)
            },
            Err(error) => first_fault(read_lines::<N>(input@)) == Some(error@),
        },
        result is Ok <==> first_fault(read_lines::<N>(input@)) is None,
{
    let ghost expected = read_lines::<N>(input@);
    let results = parse_streaming::<N>(input);
    let ghost all = results@;
    let mut commands: Vec<Spanned<GCodeCommand<'a, N>>> = Vec::new();
    proof {
        assert(expected.skip(0) =~= expected);
    }
    for r in it: results
        invariant
            it.seq() == all,
            expected == read_lines::<N>(input@),
            expected == all.map_values(
                |r: Result<Spanned<GCodeCommand<'a, N>>, ParseError>| outcome(r),
            ),
            commands.len() == it.index(),
            first_fault(expected) == first_fault(expected.skip(it.index() as int)),
            forall|i: int|
                0 <= i < commands.len() ==> expected[i] == Ok::<Spanned<Command<N>>, Fault>(
                    (#[trigger] commands@[i])@,
                ),
    {
        let ghost i = commands.len() as int;
        proof {
            assert(expected[i] == outcome(all[i]));
            assert(expected.skip(i)[0] == expected[i]);
            assert(expected.skip(i).drop_first() =~= expected.skip(i + 1));
        }
        match r {
            Ok(command) => commands.push(command),
            Err(error) => {
                return Err(error);
            },
        }
    }
    Ok(commands)
}

// ── Laws ──────────────────────────────────────────────────────────────────────

/// The byte offset of every line is exact: the encoding of the line stands in
/// the encoding of the input at that offset.  Lines follow each other with one
/// byte, the line feed, between them.
pub proof fn lemma_offsets_are_exact(input: Seq<char>, before: Seq<u8>, i: int)
    requires
        0 <= i < source_lines(input, before.len()).len(),
    ensures
        ({
            let lines = source_lines(input, before.len());
            let bytes = before + encode_utf8(input);
            let start = lines[i].offset as int;
            let len = encode_utf8(lines[i].text).len();
            &&& before.len() <= start
            &&& start + len <= bytes.len()
            &&& bytes.subrange(start, start + len) == encode_utf8(lines[i].text)
            &&& i == 0 ==> start == before.len()
            &&& i + 1 < lines.len() ==> lines[i + 1].offset == start + len + 1
            &&& forall|j: int|
                0 <= j < lines[i].text.len() ==> #[trigger] lines[i].text[j] != '\n'
        }),
    decreases input.len(),
{
    let lines = source_lines(input, before.len());
    let bytes = before + encode_utf8(input);
    let k = line_len(input);
    lemma_index_of_char_range(input, '\n');
    let text = input.take(k);
    assert(input =~= text + input.skip(k));
    lemma_encode_concat(text, input.skip(k));
    assert forall|j: int| 0 <= j < text.len() implies #[trigger] text[j] != '\n' by {
        assert(input[j] != '\n');
    }
    if k < input.len() {
        let head = input.take(k + 1);
        let rest = input.skip(k + 1);
        assert(head =~= text + seq!['\n']);
        lemma_encode_concat(text, seq!['\n']);
        lemma_encode_newline();
        assert(input =~= head + rest);
        lemma_encode_concat(head, rest);
        let next = before + encode_utf8(head);
        assert(bytes =~= next + encode_utf8(rest));
        let tail = source_lines(rest, next.len());
        assert(lines =~= seq![lines[0]] + tail);
        if i > 0 {
            lemma_offsets_are_exact(rest, next, i - 1);
            assert(lines[i] == tail[i - 1]);
            if i + 1 < lines.len() {
                assert(lines[i + 1] == tail[i]);
            }
        } else if lines.len() > 1 {
            lemma_offsets_are_exact(rest, next, 0);
            assert(lines[1] == tail[0]);
        }
    }
    if i == 0 {
        let start = before.len() as int;
        assert(bytes.subrange(start, start + encode_utf8(text).len()) =~= encode_utf8(text));
    }
}

/// Every command and every fault of an input is numbered with its line, from 1
/// on without gaps, and every command bears the offset of its line.
pub proof fn lemma_lines_are_numbered<N: Scalar>(input: Seq<char>, i: int)
    requires
        0 <= i < read_lines::<N>(input).len() < u32::MAX,
    ensures
        read_lines::<N>(input).len() == source_lines(input, 0).len(),
        match read_lines::<N>(input)[i] {
            Ok(command) => command.line == i + 1 && command.byte_offset == source_lines(
                input,
                0,
            )[i].offset as u64,
            Err(Fault::InvalidNumber { line, .. }) => line == i + 1,
            Err(_) => false,
        },
{
}

/// An input is read without error exactly where every line is; otherwise the
/// error is that of the first line that has one.
pub proof fn lemma_first_fault<N>(results: Seq<Result<Spanned<Command<N>>, Fault>>)
    ensures
        first_fault(results) is None <==> forall|i: int|
            0 <= i < results.len() ==> (#[trigger] results[i]) is Ok,
        first_fault(results) matches Some(fault) ==> exists|i: int|
            0 <= i < results.len() && #[trigger] results[i] == Err::<Spanned<Command<N>>, Fault>(
                fault,
            ) && forall|j: int| 0 <= j < i ==> (#[trigger] results[j]) is Ok,
    decreases results.len(),
{
    if results.len() > 0 {
        let rest = results.drop_first();
        lemma_first_fault(rest);
        match results[0] {
            Ok(_) => {
                match first_fault(rest) {
                    Some(fault) => {
                        let i = choose|i: int|
                            0 <= i < rest.len() && #[trigger] rest[i] == Err::<
                                Spanned<Command<N>>,
                                Fault,
                            >(fault) && forall|j: int| 0 <= j < i ==> (#[trigger] rest[j]) is Ok;
                        assert(results[i + 1] == rest[i]);
                        assert forall|j: int| 0 <= j < i + 1 implies (#[trigger] results[j])
                            is Ok by {
                            if j > 0 {
                                assert(results[j] == rest[j - 1]);
                            }
                        }
                    },
                    None => {
                        assert forall|i: int| 0 <= i < results.len() implies (#[trigger] results[i])
                            is Ok by {
                            if i > 0 {
                                assert(results[i] == rest[i - 1]);
                            }
                        }
                    },
                }
            },
            Err(fault) => {
                assert(results[0] == Err::<Spanned<Command<N>>, Fault>(fault));
            },
        }
    }
}

/// An error is only ever a parameter of a move that is no number.
pub proof fn lemma_only_moves_fail<N: Scalar>(line: Seq<char>)
    requires
        command_on::<N>(line) is Err,
    ensures
        command_token(command_part(trim_start_of(line))) matches Some(token) && token.is_g && (
        token.code <= 3 || token.code == 92) && bad_value::<N>(words(token.params)) is Some,
{
}

} // verus!
