//! What reading gives back of what was written.
//!
//! The parser and the emitter are counterparts: a command that was read from a
//! line, written, and read again is the same command.

pub mod letters;

use vstd::prelude::*;
use vstd::utf8::encode_utf8;

use crate::emitter::{command_text, coord_text, move_text, program_text, raw_text};
use crate::fixed::{
    all_digits, fixed_digits, held, magnitude, pow10, rounded, six_places, unsigned_value, value_of,
    zeros, Fixed,
};
use crate::models::{Command, Spanned};
use crate::parser::{
    axis_of, bad_value, begins_comment, command_of, command_on, command_part, command_token,
    comment_start, digits_len, enclosed_text, first_fault, given, is_letter, is_quoted, is_signed,
    lemma_comment_from, lemma_comment_range, lemma_first_fault, number_of, numeral_len, parsed,
    read_line, read_lines, source_lines, value_len, without_cr, words, Axis, CommandToken,
    SourceLine, Word,
};
use crate::scalar::Scalar;
use crate::text::{
    decimal, digit_char, is_digit, is_whitespace, lemma_index_of_char,
    lemma_index_of_char_range, line_len, trim_end_of, trim_of, trim_start_of,
};

verus! {

broadcast use vstd::string::group_string_axioms;

// ── Text ──────────────────────────────────────────────────────────────────────

/// Whether `s` has no white space at either end.
pub open spec fn is_trimmed(s: Seq<char>) -> bool {
    s.len() > 0 ==> !is_whitespace(s[0]) && !is_whitespace(s.last())
}

proof fn lemma_trim_start_result(s: Seq<char>)
    ensures
        trim_start_of(s).len() <= s.len(),
        trim_start_of(s) == s.skip(s.len() - trim_start_of(s).len()),
        trim_start_of(s).len() > 0 ==> !is_whitespace(trim_start_of(s)[0]),
    decreases s.len(),
{
    if s.len() > 0 && is_whitespace(s[0]) {
        lemma_trim_start_result(s.drop_first());
        let t = trim_start_of(s);
        assert(s.skip(s.len() - t.len()) =~= s.drop_first().skip(s.len() - 1 - t.len()));
    } else {
        assert(s.skip(0) =~= s);
    }
}

proof fn lemma_trim_end_result(s: Seq<char>)
    ensures
        trim_end_of(s).len() <= s.len(),
        trim_end_of(s) == s.take(trim_end_of(s).len() as int),
        trim_end_of(s).len() > 0 ==> !is_whitespace(trim_end_of(s).last()),
    decreases s.len(),
{
    if s.len() > 0 && is_whitespace(s.last()) {
        lemma_trim_end_result(s.drop_last());
        let t = trim_end_of(s);
        assert(s.take(t.len() as int) =~= s.drop_last().take(t.len() as int));
    } else {
        assert(s.take(s.len() as int) =~= s);
    }
}

/// What is quoted in `t` is what is quoted in `s`, where `t` stands in `s` and no
/// quote stands before it.
proof fn lemma_quoted_inside(s: Seq<char>, t: Seq<char>, from: int, k: int)
    requires
        0 <= from,
        0 <= k <= t.len(),
        from + t.len() <= s.len(),
        forall|j: int| 0 <= j < from ==> #[trigger] s[j] != '"',
        forall|j: int| 0 <= j < k ==> s[from + j] == #[trigger] t[j],
    ensures
        is_quoted(s, from + k) == is_quoted(t, k),
    decreases from + k,
{
    if k > 0 {
        assert(s[from + (k - 1)] == t[k - 1]);
        lemma_quoted_inside(s, t, from, k - 1);
    } else if from > 0 {
        assert(s[from - 1] != '"');
        lemma_quoted_inside(s, t, from - 1, 0);
    }
}

/// A line that begins with a letter, has no comment, and ends without white
/// space is its own command part.
proof fn lemma_plain_line(s: Seq<char>)
    requires
        s.len() > 0,
        is_letter(s[0]),
        !is_whitespace(s.last()),
        comment_start(s) == s.len(),
    ensures
        trim_start_of(s) == s,
        command_part(s) == s,
{
    assert(s.take(s.len() as int) =~= s);
}

/// There is no comment without a semicolon.
proof fn lemma_no_semicolon(s: Seq<char>)
    requires
        !s.contains(';'),
    ensures
        comment_start(s) == s.len(),
{
    assert forall|j: int| 0 <= j < s.len() implies !#[trigger] begins_comment(s, j) by {
        assert(s[j] != ';');
    }
    lemma_comment_from(s, 0, s.len() as int);
}

// ── Numerals ──────────────────────────────────────────────────────────────────

proof fn lemma_decimal_is_read_back(n: nat)
    ensures
        decimal(n).len() >= 1,
        forall|i: int| 0 <= i < decimal(n).len() ==> is_digit(#[trigger] decimal(n)[i]),
        number_of(decimal(n)) == n,
    decreases n,
{
    reveal_with_fuel(number_of, 2);
    if n >= 10 {
        lemma_decimal_is_read_back(n / 10);
        assert(decimal(n).drop_last() =~= decimal(n / 10));
        assert(decimal(n).last() == digit_char(n % 10));
    } else {
        assert(decimal(n).drop_last() =~= Seq::<char>::empty());
    }
}

proof fn lemma_digits_len(s: Seq<char>, k: int)
    requires
        0 <= k <= s.len(),
        forall|j: int| 0 <= j < k ==> is_digit(#[trigger] s[j]),
        k < s.len() ==> !is_digit(s[k]),
    ensures
        digits_len(s) == k,
    decreases k,
{
    if k > 0 {
        assert(is_digit(s[0]));
        lemma_digits_len(s.drop_first(), k - 1);
    }
}

/// The token of a line that consists of a letter, a number, and either nothing
/// or a space and parameters.
proof fn lemma_token(letter: char, code: nat, params: Seq<char>, tail: Seq<char>)
    requires
        letter == 'G' || letter == 'M',
        code <= u16::MAX,
        params.len() == 0 ==> tail.len() == 0,
        params.len() > 0 ==> tail == seq![' '] + params && !is_whitespace(params[0]),
    ensures
        command_token(seq![letter] + decimal(code) + tail) == Some(
            CommandToken { is_g: letter == 'G', code, params },
        ),
{
    let digits = decimal(code);
    let s = seq![letter] + digits + tail;
    let n = digits.len() as int;
    lemma_decimal_is_read_back(code);
    assert(s[0] == letter);
    let rest = s.drop_first();
    assert(rest =~= digits + tail);
    assert forall|j: int| 0 <= j < n implies is_digit(#[trigger] rest[j]) by {
        assert(rest[j] == digits[j]);
    }
    if n < rest.len() {
        assert(rest[n] == tail[0]);
        assert(tail[0] == ' ');
        assert(s[1 + n] == ' ');
    }
    lemma_digits_len(rest, n);
    assert(s.subrange(1, 1 + n) =~= digits);
    assert(s.skip(1 + n) =~= tail);
    if params.len() > 0 {
        assert(tail.drop_first() =~= params);
        assert(is_whitespace(tail[0]));
        assert(trim_start_of(tail) == trim_start_of(params));
        assert(trim_start_of(params) == params);
    } else {
        assert(tail =~= params);
        assert(trim_start_of(tail) == tail);
    }
}

// ── Commands whose parameters are kept as text ────────────────────────────────

/// Whether parameters can stand behind a code and be read back: no white space
/// at the ends, and no comment.
pub open spec fn is_clean(params: Seq<char>) -> bool {
    is_trimmed(params) && comment_start(params) == params.len()
}

proof fn lemma_token_params_are_clean(s: Seq<char>)
    requires
        command_token(command_part(s)) is Some,
    ensures
        is_clean(command_token(command_part(s))->0.params),
{
    let at = comment_start(s);
    lemma_comment_range(s, 0);
    let head = s.take(at);
    let part = command_part(s);
    lemma_trim_end_result(head);
    let n = digits_len(part.drop_first());
    lemma_digits_len_range(part.drop_first());
    let behind = part.skip(1 + n);
    let params = trim_start_of(behind);
    lemma_trim_start_result(behind);
    if params.len() > 0 {
        let blanks = behind.len() - params.len();
        let from = 1 + n + blanks;
        assert(params.last() == behind[blanks + params.len() - 1]);
        assert(behind[behind.len() - 1] == part[part.len() - 1]);
        lemma_blanks_before(behind);
        assert forall|j: int| 0 <= j < from implies #[trigger] s[j] != '"' by {
            assert(part[j] == s[j]);
            if 1 <= j <= n {
                lemma_digits_are_digits(part.drop_first(), j - 1);
                assert(part.drop_first()[j - 1] == part[j]);
            } else if j > n {
                assert(part[j] == behind[j - 1 - n]);
            }
        }
        assert forall|j: int| 0 <= j < params.len() implies s[from + j] == #[trigger] params[j] by {
            assert(params[j] == behind[blanks + j]);
            assert(behind[blanks + j] == part[1 + n + blanks + j]);
        }
        assert forall|j: int| 0 <= j < params.len() implies !#[trigger] begins_comment(
            params,
            j,
        ) by {
            lemma_quoted_inside(s, params, from, j);
            assert(!begins_comment(s, from + j));
            assert(s[from + j] == params[j]);
        }
    }
    lemma_comment_from(params, 0, params.len() as int);
}

/// What is trimmed from the front is white space.
proof fn lemma_blanks_before(s: Seq<char>)
    ensures
        trim_start_of(s).len() <= s.len(),
        forall|j: int|
            0 <= j < s.len() - trim_start_of(s).len() ==> is_whitespace(#[trigger] s[j]),
    decreases s.len(),
{
    if s.len() > 0 && is_whitespace(s[0]) {
        let t = s.drop_first();
        lemma_blanks_before(t);
        assert forall|j: int| 0 <= j < s.len() - trim_start_of(s).len() implies is_whitespace(
            #[trigger] s[j],
        ) by {
            if j > 0 {
                assert(s[j] == t[j - 1]);
            }
        }
    }
}

proof fn lemma_digits_are_digits(s: Seq<char>, j: int)
    requires
        0 <= j < digits_len(s),
    ensures
        j < s.len(),
        is_digit(s[j]),
    decreases s.len(),
{
    if j > 0 {
        lemma_digits_are_digits(s.drop_first(), j - 1);
    }
}

proof fn lemma_digits_len_range(s: Seq<char>)
    ensures
        0 <= digits_len(s) <= s.len(),
    decreases s.len(),
{
    if s.len() > 0 {
        lemma_digits_len_range(s.drop_first());
    }
}

proof fn lemma_letter_texts()
    ensures
        "G"@ == seq!['G'],
        "M"@ == seq!['M'],
        " "@ == seq![' '],
        ";"@ == seq![';'],
{
    reveal_strlit("G");
    reveal_strlit("M");
    reveal_strlit(" ");
    reveal_strlit(";");
    assert("G"@ =~= seq!['G']);
    assert("M"@ =~= seq!['M']);
    assert(" "@ =~= seq![' ']);
    assert(";"@ =~= seq![';']);
}

/// A code with clean parameters is read back as it was written.
pub proof fn lemma_raw_text_is_read_back<N: Scalar>(is_g: bool, code: u16, params: Seq<char>)
    requires
        is_clean(params),
    ensures
        ({
            let letter = if is_g {
                "G"@
            } else {
                "M"@
            };
            command_on::<N>(raw_text(letter, code, params)) == command_of::<N>(
                CommandToken { is_g, code: code as nat, params },
            )
        }),
{
    lemma_letter_texts();
    lemma_decimal_is_read_back(code as nat);
    let c = if is_g {
        'G'
    } else {
        'M'
    };
    let letter = seq![c];
    let digits = decimal(code as nat);
    let tail = if params.len() == 0 {
        Seq::<char>::empty()
    } else {
        seq![' '] + params
    };
    let text = raw_text(letter, code, params);
    assert(text =~= letter + digits + tail);
    assert(text[0] == c);
    assert(!is_whitespace(text.last())) by {
        if params.len() == 0 {
            assert(text.last() == digits[digits.len() - 1]);
            assert(is_digit(digits[digits.len() - 1]));
        } else {
            assert(text.last() == params.last());
        }
    }
    let from = text.len() - params.len();
    assert forall|j: int| 0 <= j < from implies #[trigger] text[j] != '"' && text[j] != ';' by {
        if 1 <= j < 1 + digits.len() {
            assert(text[j] == digits[j - 1]);
            assert(is_digit(digits[j - 1]));
        }
    }
    assert forall|j: int| 0 <= j < params.len() implies text[from + j] == #[trigger] params[j] by {
    }
    lemma_comment_range(params, 0);
    assert forall|j: int| 0 <= j < text.len() implies !#[trigger] begins_comment(text, j) by {
        if j >= from {
            lemma_quoted_inside(text, params, from, j - from);
            assert(text[from + (j - from)] == params[j - from]);
            assert(!begins_comment(params, j - from));
        }
    }
    lemma_comment_from(text, 0, text.len() as int);
    lemma_plain_line(text);
    lemma_token(c, code as nat, params, tail);
}

// ── The law for text ──────────────────────────────────────────────────────────

/// Whether the command has numbers of its own.
pub open spec fn has_numbers<N>(command: Command<N>) -> bool {
    match command {
        Command::RapidMove { .. }
        | Command::LinearMove { .. }
        | Command::ArcMoveCW { .. }
        | Command::ArcMoveCCW { .. }
        | Command::SetPosition { .. } => true,
        _ => false,
    }
}

/// Unknown lines pass through unchanged: what is written for such a line is the
/// line itself; only of a blank line nothing is left.
pub proof fn lemma_unknown_lines_are_verbatim<N: Scalar>(line: Seq<char>, places: nat)
    requires
        command_on::<N>(line) matches Ok(command) && command is Unknown,
    ensures
        command_text::<N>(command_on::<N>(line)->Ok_0, places) == if trim_start_of(line).len() == 0 {
            Seq::<char>::empty()
        } else {
            line
        },
{
}

/// What is read, written and read again is the same: comments, unknown lines,
/// mode switches, and all G-codes and M-codes whose parameters are kept as text.
pub proof fn lemma_text_round_trip<N: Scalar>(line: Seq<char>, places: nat)
    requires
        command_on::<N>(line) matches Ok(command) && !has_numbers(command),
    ensures
        command_on::<N>(command_text(command_on::<N>(line)->Ok_0, places)) == command_on::<N>(line),
{
    lemma_letter_texts();
    let command = command_on::<N>(line)->Ok_0;
    let s = trim_start_of(line);
    match command {
        Command::Comment { text } => {
            let written = seq![';'] + text;
            assert(written[0] == ';');
            assert(trim_start_of(written) == written);
            assert(written.drop_first() =~= text);
        },
        Command::Unknown { raw } => {
            if s.len() == 0 {
                assert(trim_start_of(raw) == raw);
            }
        },
        _ => {
            let token = command_token(command_part(s))->0;
            lemma_token_params_are_clean(s);
            match command {
                Command::MetaCommand { code, params } => {
                    lemma_raw_text_is_read_back::<N>(false, code, params);
                },
                Command::GCommand { code, params } => {
                    lemma_raw_text_is_read_back::<N>(true, code, params);
                },
                Command::SetAbsolute => {
                    lemma_mode_texts::<N>();
                },
                Command::SetRelative => {
                    lemma_mode_texts::<N>();
                },
                _ => {},
            }
        },
    }
}

proof fn lemma_mode_texts<N: Scalar>()
    ensures
        command_on::<N>("G90"@) == Ok::<Command<N>, Seq<char>>(Command::SetAbsolute),
        command_on::<N>("G91"@) == Ok::<Command<N>, Seq<char>>(Command::SetRelative),
{
    reveal_strlit("G90");
    reveal_strlit("G91");
    let none = Seq::<char>::empty();
    lemma_letter_texts();
    reveal_with_fuel(decimal, 3);
    assert("G90"@ =~= raw_text("G"@, 90, none));
    assert("G91"@ =~= raw_text("G"@, 91, none));
    lemma_raw_text_is_read_back::<N>(true, 90, none);
    lemma_raw_text_is_read_back::<N>(true, 91, none);
}

// ── Numbers ───────────────────────────────────────────────────────────────────

/// Whether `s` is a sign, or none, followed by digits and points.
pub open spec fn is_numeral(s: Seq<char>) -> bool {
    if is_signed(s) {
        is_unsigned_numeral(s.drop_first())
    } else {
        is_unsigned_numeral(s)
    }
}

/// Whether `s` consists of digits and points, at least one.
pub open spec fn is_unsigned_numeral(s: Seq<char>) -> bool {
    s.len() > 0 && forall|i: int| 0 <= i < s.len() ==> is_digit(#[trigger] s[i]) || s[i] == '.'
}

/// Whether the number, where there is one, is written as a numeral that spells a
/// number.
pub open spec fn reads_back<N: Scalar>(value: Option<N>, places: nat) -> bool {
    value matches Some(v) ==> is_numeral(v.fixed_spec(places)) && N::parse_spec(
        v.fixed_spec(places),
    ) is Some
}

/// The number that is read where `value` was written: `value` up to rounding.
pub open spec fn read_back<N: Scalar>(value: Option<N>, places: nat) -> Option<N> {
    match value {
        Some(v) => N::parse_spec(v.fixed_spec(places)),
        None => None,
    }
}

/// Whether the number, where there is one, is written as a numeral that is read
/// back as the same number.
pub open spec fn prints_exactly<N: Scalar>(value: Option<N>, places: nat) -> bool {
    reads_back(value, places) && read_back(value, places) == value
}

/// Whether the number, where there is one, is read back as a number that is
/// written alike.
pub open spec fn writes_alike<N: Scalar>(value: Option<N>, places: nat) -> bool {
    value matches Some(v) ==> read_back(value, places) is Some && (read_back(
        value,
        places,
    )->0).fixed_spec(places) == v.fixed_spec(places)
}

/// The word that a written parameter is read as.
pub open spec fn word_of<N: Scalar>(c: char, value: Option<N>, places: nat) -> Seq<Word> {
    match value {
        Some(v) => seq![Word { axis: axis_of(c), value: v.fixed_spec(places) }],
        None => Seq::empty(),
    }
}

proof fn lemma_numeral_prefix(s: Seq<char>, k: int)
    requires
        0 <= k <= s.len(),
        forall|j: int| 0 <= j < k ==> is_digit(#[trigger] s[j]) || s[j] == '.',
        k < s.len() ==> !(is_digit(s[k]) || s[k] == '.'),
    ensures
        numeral_len(s) == k,
    decreases k,
{
    if k > 0 {
        assert(is_digit(s[0]) || s[0] == '.');
        lemma_numeral_prefix(s.drop_first(), k - 1);
    }
}

/// A numeral that a space or nothing follows is taken as a value, whole.
proof fn lemma_numeral_is_a_value(numeral: Seq<char>, rest: Seq<char>)
    requires
        is_numeral(numeral),
        rest.len() == 0 || rest[0] == ' ',
    ensures
        value_len(numeral + rest) == numeral.len(),
        !(Word { axis: None, value: numeral }).is_bare(),
        !is_whitespace(numeral.last()),
        !numeral.contains(';'),
        !numeral.contains('\n'),
{
    let s = numeral + rest;
    assert(s[0] == numeral[0]);
    let signed = is_signed(numeral);
    let body = if signed {
        numeral.drop_first()
    } else {
        numeral
    };
    let tail = if signed {
        s.drop_first()
    } else {
        s
    };
    assert(is_unsigned_numeral(body));
    assert(tail =~= body + rest);
    assert forall|j: int| 0 <= j < body.len() implies is_digit(#[trigger] tail[j]) || tail[j]
        == '.' by {
        assert(tail[j] == body[j]);
    }
    if rest.len() > 0 {
        assert(tail[body.len() as int] == ' ');
    }
    lemma_numeral_prefix(tail, body.len() as int);
    assert(is_digit(body[0]) || body[0] == '.');
    if numeral == seq!['+'] || numeral == seq!['-'] {
        assert(body =~= Seq::<char>::empty());
    }
    assert(numeral.last() == body[body.len() - 1]);
    assert forall|j: int| 0 <= j < numeral.len() implies #[trigger] numeral[j] != ';' && numeral[j]
        != '\n' by {
        if signed && j > 0 {
            assert(numeral[j] == body[j - 1]);
        } else if !signed {
            assert(numeral[j] == body[j]);
        }
    }
}

/// Whether `s` is nothing, or parameters with a space before each.
spec fn is_tail(s: Seq<char>) -> bool {
    s.len() > 0 ==> s.len() >= 2 && s[0] == ' ' && is_letter(s[1]) && !is_whitespace(s.last())
        && !s.contains(';') && !s.contains('\n')
}

proof fn lemma_tail_concat(a: Seq<char>, b: Seq<char>)
    requires
        is_tail(a),
        is_tail(b),
    ensures
        is_tail(a + b),
{
    let s = a + b;
    if a.len() == 0 {
        assert(s =~= b);
    } else if b.len() == 0 {
        assert(s =~= a);
    } else {
        assert(s.last() == b.last());
        assert forall|j: int| 0 <= j < s.len() implies #[trigger] s[j] != ';' && s[j] != '\n' by {
            if j < a.len() {
                assert(s[j] == a[j]);
            } else {
                assert(s[j] == b[j - a.len()]);
            }
        }
    }
}

/// A written parameter is read as one word, and what follows as before.
proof fn lemma_coord_is_read_back<N: Scalar>(
    c: char,
    value: Option<N>,
    places: nat,
    rest: Seq<char>,
)
    requires
        is_letter(c),
        reads_back(value, places),
        is_tail(rest),
    ensures
        words(coord_text(seq![c], value, places) + rest) == word_of(c, value, places) + words(rest),
        is_tail(coord_text(seq![c], value, places)),
        is_tail(coord_text(seq![c], value, places) + rest),
{
    lemma_letter_texts();
    let text = coord_text(seq![c], value, places);
    match value {
        Some(v) => {
            let numeral = v.fixed_spec(places);
            lemma_numeral_is_a_value(numeral, rest);
            assert(text =~= seq![' ', c] + numeral);
            let whole = text + rest;
            assert(whole[0] == ' ');
            let inner = whole.drop_first();
            assert(inner =~= seq![c] + (numeral + rest));
            assert(inner[0] == c);
            assert(inner.drop_first() =~= numeral + rest);
            assert(inner.subrange(1, numeral.len() as int + 1) =~= numeral);
            assert(inner.skip(numeral.len() as int + 1) =~= rest);
            assert(words(whole) == words(inner));
            assert(text.last() == numeral.last());
            assert forall|j: int| 0 <= j < text.len() implies #[trigger] text[j] != ';' && text[j]
                != '\n' by {
                if j >= 2 {
                    assert(text[j] == numeral[j - 2]);
                }
            }
        },
        None => {
            assert(text + rest =~= rest);
            assert(word_of(c, value, places) + words(rest) =~= words(rest));
        },
    }
    lemma_tail_concat(text, rest);
}

/// One more word sets its own parameter and no other.
proof fn lemma_word_is_given<N: Scalar>(
    list: Seq<Word>,
    c: char,
    value: Option<N>,
    places: nat,
    axis: Axis,
)
    requires
        reads_back(value, places),
        bad_value::<N>(list) is None,
    ensures
        given::<N>(list + word_of(c, value, places), axis) == if value is Some && axis_of(c)
            == Some(axis) {
            read_back(value, places)
        } else {
            given::<N>(list, axis)
        },
        bad_value::<N>(list + word_of(c, value, places)) is None,
{
    match value {
        Some(v) => {
            let word = Word { axis: axis_of(c), value: v.fixed_spec(places) };
            let longer = list + word_of(c, value, places);
            assert(longer =~= list.push(word));
            assert(longer.drop_last() =~= list);
            lemma_numeral_is_a_value(v.fixed_spec(places), Seq::empty());
            assert(!word.is_bare());
        },
        None => {
            assert(list + word_of(c, value, places) =~= list);
        },
    }
}

/// The parameters of a move.
pub struct Params<N> {
    pub x: Option<N>,
    pub y: Option<N>,
    pub z: Option<N>,
    pub e: Option<N>,
    pub f: Option<N>,
    pub i: Option<N>,
    pub j: Option<N>,
}

impl<N: Scalar> Params<N> {
    spec fn all_read_back(self, places: nat) -> bool {
        reads_back(self.x, places) && reads_back(self.y, places) && reads_back(self.z, places)
            && reads_back(self.e, places) && reads_back(self.f, places) && reads_back(
            self.i,
            places,
        ) && reads_back(self.j, places)
    }

    spec fn text(self, places: nat) -> Seq<char> {
        move_text(self.x, self.y, self.z, self.e, self.f, places) + coord_text(
            "I"@,
            self.i,
            places,
        ) + coord_text("J"@, self.j, places)
    }
}

proof fn lemma_axis_texts()
    ensures
        "X"@ == seq!['X'],
        "Y"@ == seq!['Y'],
        "Z"@ == seq!['Z'],
        "E"@ == seq!['E'],
        "F"@ == seq!['F'],
        "I"@ == seq!['I'],
        "J"@ == seq!['J'],
{
    reveal_strlit("X");
    reveal_strlit("Y");
    reveal_strlit("Z");
    reveal_strlit("E");
    reveal_strlit("F");
    reveal_strlit("I");
    reveal_strlit("J");
    assert("X"@ =~= seq!['X']);
    assert("Y"@ =~= seq!['Y']);
    assert("Z"@ =~= seq!['Z']);
    assert("E"@ =~= seq!['E']);
    assert("F"@ =~= seq!['F']);
    assert("I"@ =~= seq!['I']);
    assert("J"@ =~= seq!['J']);
}

/// The words of written parameters, from the first to the last.
spec fn all_words<N: Scalar>(p: Params<N>, places: nat) -> Seq<Word> {
    Seq::<Word>::empty() + word_of('X', p.x, places) + word_of('Y', p.y, places) + word_of(
        'Z',
        p.z,
        places,
    ) + word_of('E', p.e, places) + word_of('F', p.f, places) + word_of('I', p.i, places)
        + word_of('J', p.j, places)
}

proof fn lemma_seven_parts<A>(
    a: Seq<A>,
    b: Seq<A>,
    c: Seq<A>,
    d: Seq<A>,
    e: Seq<A>,
    f: Seq<A>,
    g: Seq<A>,
)
    ensures
        a + b + c + d + e + f + g == a + (b + (c + (d + (e + (f + (g + Seq::<A>::empty())))))),
        Seq::<A>::empty() + a + b + c + d + e + f + g == a + b + c + d + e + f + g,
{
    let none = Seq::<A>::empty();
    assert(g + none =~= g);
    assert(a + b + c + d + e + f + g =~= a + b + c + d + e + (f + g));
    assert(a + b + c + d + e + (f + g) =~= a + b + c + d + (e + (f + g)));
    assert(a + b + c + d + (e + (f + g)) =~= a + b + c + (d + (e + (f + g))));
    assert(a + b + c + (d + (e + (f + g))) =~= a + b + (c + (d + (e + (f + g)))));
    assert(a + b + (c + (d + (e + (f + g)))) =~= a + (b + (c + (d + (e + (f + g))))));
    assert(none + a =~= a);
}

proof fn lemma_params_are_words<N: Scalar>(p: Params<N>, places: nat)
    requires
        p.all_read_back(places),
    ensures
        is_tail(p.text(places)),
        words(p.text(places)) == all_words(p, places),
{
    lemma_axis_texts();
    let none = Seq::<char>::empty();
    let tj = coord_text(seq!['J'], p.j, places) + none;
    lemma_coord_is_read_back('J', p.j, places, none);
    let ti = coord_text(seq!['I'], p.i, places) + tj;
    lemma_coord_is_read_back('I', p.i, places, tj);
    let tf = coord_text(seq!['F'], p.f, places) + ti;
    lemma_coord_is_read_back('F', p.f, places, ti);
    let te = coord_text(seq!['E'], p.e, places) + tf;
    lemma_coord_is_read_back('E', p.e, places, tf);
    let tz = coord_text(seq!['Z'], p.z, places) + te;
    lemma_coord_is_read_back('Z', p.z, places, te);
    let ty = coord_text(seq!['Y'], p.y, places) + tz;
    lemma_coord_is_read_back('Y', p.y, places, tz);
    let tx = coord_text(seq!['X'], p.x, places) + ty;
    lemma_coord_is_read_back('X', p.x, places, ty);
    lemma_seven_parts(
        coord_text(seq!['X'], p.x, places),
        coord_text(seq!['Y'], p.y, places),
        coord_text(seq!['Z'], p.z, places),
        coord_text(seq!['E'], p.e, places),
        coord_text(seq!['F'], p.f, places),
        coord_text(seq!['I'], p.i, places),
        coord_text(seq!['J'], p.j, places),
    );
    assert(p.text(places) == tx);
    assert(words(none) =~= Seq::<Word>::empty());
    lemma_seven_parts(
        word_of('X', p.x, places),
        word_of('Y', p.y, places),
        word_of('Z', p.z, places),
        word_of('E', p.e, places),
        word_of('F', p.f, places),
        word_of('I', p.i, places),
        word_of('J', p.j, places),
    );
}

proof fn lemma_words_are_given<N: Scalar>(p: Params<N>, places: nat, axis: Axis)
    requires
        p.all_read_back(places),
    ensures
        bad_value::<N>(all_words(p, places)) is None,
        given::<N>(all_words(p, places), axis) == match axis {
            Axis::X => read_back(p.x, places),
            Axis::Y => read_back(p.y, places),
            Axis::Z => read_back(p.z, places),
            Axis::E => read_back(p.e, places),
            Axis::F => read_back(p.f, places),
            Axis::I => read_back(p.i, places),
            Axis::J => read_back(p.j, places),
            Axis::S => None,
        },
{
    let w0 = Seq::<Word>::empty();
    lemma_word_is_given(w0, 'X', p.x, places, axis);
    let w1 = w0 + word_of('X', p.x, places);
    lemma_word_is_given(w1, 'Y', p.y, places, axis);
    let w2 = w1 + word_of('Y', p.y, places);
    lemma_word_is_given(w2, 'Z', p.z, places, axis);
    let w3 = w2 + word_of('Z', p.z, places);
    lemma_word_is_given(w3, 'E', p.e, places, axis);
    let w4 = w3 + word_of('E', p.e, places);
    lemma_word_is_given(w4, 'F', p.f, places, axis);
    let w5 = w4 + word_of('F', p.f, places);
    lemma_word_is_given(w5, 'I', p.i, places, axis);
    let w6 = w5 + word_of('I', p.i, places);
    lemma_word_is_given(w6, 'J', p.j, places, axis);
}

/// A G-code is read back with its parameters.
proof fn lemma_code_is_read_back<N: Scalar>(code: nat, p: Params<N>, places: nat)
    requires
        code <= 3 || code == 92,
        p.all_read_back(places),
    ensures
        ({
            let text = seq!['G'] + decimal(code) + p.text(places);
            exists|params: Seq<char>|
                #![trigger words(params)]
                words(params) == all_words(p, places) && command_on::<N>(text) == command_of::<N>(
                    CommandToken { is_g: true, code, params },
                )
        }),
{
    lemma_params_are_words(p, places);
    lemma_decimal_is_read_back(code);
    let digits = decimal(code);
    let tail = p.text(places);
    let text = seq!['G'] + digits + tail;
    let params = if tail.len() == 0 {
        tail
    } else {
        tail.drop_first()
    };
    assert(text[0] == 'G');
    if tail.len() > 0 {
        assert(tail =~= seq![' '] + params);
        assert(words(tail) == words(params));
        assert(text.last() == tail.last());
        assert(params[0] == tail[1]);
    } else {
        assert(text.last() == digits[digits.len() - 1]);
        assert(is_digit(digits[digits.len() - 1]));
    }
    assert forall|j: int| 0 <= j < text.len() implies #[trigger] text[j] != ';' by {
        if 1 <= j < 1 + digits.len() {
            assert(text[j] == digits[j - 1]);
            assert(is_digit(digits[j - 1]));
        } else if j >= 1 + digits.len() {
            assert(text[j] == tail[j - 1 - digits.len()]);
        }
    }
    lemma_no_semicolon(text);
    lemma_plain_line(text);
    lemma_token('G', code, params, tail);
    assert(words(params) == all_words(p, places));
}

/// The numbers of a move.
pub open spec fn params_of<N>(command: Command<N>) -> Params<N> {
    match command {
        Command::RapidMove { x, y, z, f } => Params { x, y, z, e: None, f, i: None, j: None },
        Command::LinearMove { x, y, z, e, f } => Params { x, y, z, e, f, i: None, j: None },
        Command::ArcMoveCW { x, y, z, e, f, i, j } => Params { x, y, z, e, f, i, j },
        Command::ArcMoveCCW { x, y, z, e, f, i, j } => Params { x, y, z, e, f, i, j },
        Command::SetPosition { x, y, z, e } => Params {
            x,
            y,
            z,
            e,
            f: None,
            i: None,
            j: None,
        },
        _ => Params { x: None, y: None, z: None, e: None, f: None, i: None, j: None },
    }
}

/// The code of a command with numbers.
pub open spec fn move_code<N>(command: Command<N>) -> nat {
    match command {
        Command::RapidMove { .. } => 0,
        Command::LinearMove { .. } => 1,
        Command::ArcMoveCW { .. } => 2,
        Command::ArcMoveCCW { .. } => 3,
        _ => 92,
    }
}

/// Whether every number of the command is written as a numeral that spells a number.
pub open spec fn numbers_read_back<N: Scalar>(command: Command<N>, places: nat) -> bool {
    match command {
        Command::RapidMove { x, y, z, f } => reads_back(x, places) && reads_back(y, places)
            && reads_back(z, places) && reads_back(f, places),
        Command::LinearMove { x, y, z, e, f } => reads_back(x, places) && reads_back(y, places)
            && reads_back(z, places) && reads_back(e, places) && reads_back(f, places),
        Command::ArcMoveCW { x, y, z, e, f, i, j } | Command::ArcMoveCCW {
            x,
            y,
            z,
            e,
            f,
            i,
            j,
        } => reads_back(x, places) && reads_back(y, places) && reads_back(z, places)
            && reads_back(e, places) && reads_back(f, places) && reads_back(i, places)
            && reads_back(j, places),
        Command::SetPosition { x, y, z, e } => reads_back(x, places) && reads_back(y, places)
            && reads_back(z, places) && reads_back(e, places),
        _ => true,
    }
}

/// The command that is read where `command` was written: the same command, with
/// its numbers up to rounding.
pub open spec fn command_read_back<N: Scalar>(command: Command<N>, places: nat) -> Command<N> {
    match command {
        Command::RapidMove { x, y, z, f } => Command::RapidMove {
            x: read_back(x, places),
            y: read_back(y, places),
            z: read_back(z, places),
            f: read_back(f, places),
        },
        Command::LinearMove { x, y, z, e, f } => Command::LinearMove {
            x: read_back(x, places),
            y: read_back(y, places),
            z: read_back(z, places),
            e: read_back(e, places),
            f: read_back(f, places),
        },
        Command::ArcMoveCW { x, y, z, e, f, i, j } => Command::ArcMoveCW {
            x: read_back(x, places),
            y: read_back(y, places),
            z: read_back(z, places),
            e: read_back(e, places),
            f: read_back(f, places),
            i: read_back(i, places),
            j: read_back(j, places),
        },
        Command::ArcMoveCCW { x, y, z, e, f, i, j } => Command::ArcMoveCCW {
            x: read_back(x, places),
            y: read_back(y, places),
            z: read_back(z, places),
            e: read_back(e, places),
            f: read_back(f, places),
            i: read_back(i, places),
            j: read_back(j, places),
        },
        Command::SetPosition { x, y, z, e } => Command::SetPosition {
            x: read_back(x, places),
            y: read_back(y, places),
            z: read_back(z, places),
            e: read_back(e, places),
        },
        _ => command,
    }
}

/// Whether every number of the command is written as a numeral that is read
/// back as the same number.
pub open spec fn numbers_print_exactly<N: Scalar>(command: Command<N>, places: nat) -> bool {
    numbers_read_back(command, places) && command_read_back(command, places) == command
}

proof fn lemma_code_texts()
    ensures
        "G0"@ == seq!['G'] + decimal(0),
        "G1"@ == seq!['G'] + decimal(1),
        "G2"@ == seq!['G'] + decimal(2),
        "G3"@ == seq!['G'] + decimal(3),
        "G92"@ == seq!['G'] + decimal(92),
{
    reveal_strlit("G0");
    reveal_strlit("G1");
    reveal_strlit("G2");
    reveal_strlit("G3");
    reveal_strlit("G92");
    reveal_with_fuel(decimal, 3);
    assert("G0"@ =~= seq!['G'] + decimal(0));
    assert("G1"@ =~= seq!['G'] + decimal(1));
    assert("G2"@ =~= seq!['G'] + decimal(2));
    assert("G3"@ =~= seq!['G'] + decimal(3));
    assert("G92"@ =~= seq!['G'] + decimal(92));
}

/// A move is read back as it was written, with its numbers up to rounding.
pub proof fn lemma_move_round_trip<N: Scalar>(command: Command<N>, places: nat)
    requires
        has_numbers(command),
        numbers_read_back(command, places),
    ensures
        command_on::<N>(command_text(command, places)) == Ok::<Command<N>, Seq<char>>(
            command_read_back(command, places),
        ),
{
    let p = params_of(command);
    let code = move_code(command);
    lemma_code_texts();
    lemma_axis_texts();
    let text = seq!['G'] + decimal(code) + p.text(places);
    assert(command_text(command, places) =~= text);
    lemma_code_is_read_back(code, p, places);
    let params = choose|params: Seq<char>|
        #![trigger words(params)]
        words(params) == all_words(p, places) && command_on::<N>(text) == command_of::<N>(
            CommandToken { is_g: true, code, params },
        );
    lemma_words_are_given(p, places, Axis::X);
    lemma_words_are_given(p, places, Axis::Y);
    lemma_words_are_given(p, places, Axis::Z);
    lemma_words_are_given(p, places, Axis::E);
    lemma_words_are_given(p, places, Axis::F);
    lemma_words_are_given(p, places, Axis::I);
    lemma_words_are_given(p, places, Axis::J);
}

/// What is read, written and read again is the same, with its numbers up to
/// rounding; it is exactly the same where the numbers print exactly.
pub proof fn lemma_round_trip<N: Scalar>(line: Seq<char>, places: nat)
    requires
        command_on::<N>(line) matches Ok(command) && numbers_read_back(command, places),
    ensures
        command_on::<N>(command_text(command_on::<N>(line)->Ok_0, places)) == Ok::<
            Command<N>,
            Seq<char>,
        >(command_read_back(command_on::<N>(line)->Ok_0, places)),
        numbers_print_exactly(command_on::<N>(line)->Ok_0, places) ==> command_on::<N>(
            command_text(command_on::<N>(line)->Ok_0, places),
        ) == command_on::<N>(line),
{
    let command = command_on::<N>(line)->Ok_0;
    if has_numbers(command) {
        lemma_move_round_trip(command, places);
    } else {
        lemma_text_round_trip::<N>(line, places);
    }
}

// ── What fits on a line ───────────────────────────────────────────────────────

/// Whether `s` holds no line feed and ends without white space.
spec fn ends_plainly(s: Seq<char>) -> bool {
    s.len() > 0 && !is_whitespace(s.last()) && !s.contains('\n')
}

proof fn lemma_no_carriage_return(s: Seq<char>)
    requires
        ends_plainly(s),
    ensures
        without_cr(s) == s,
{
    assert(is_whitespace('\r'));
}

/// A code with what follows it, which ends plainly itself.
proof fn lemma_code_ends_plainly(letter: char, code: nat, tail: Seq<char>)
    requires
        letter == 'G' || letter == 'M',
        tail.len() > 0 ==> ends_plainly(tail),
    ensures
        ends_plainly(seq![letter] + decimal(code) + tail),
{
    lemma_decimal_is_read_back(code);
    let digits = decimal(code);
    let text = seq![letter] + digits + tail;
    if tail.len() > 0 {
        assert(text.last() == tail.last());
    } else {
        assert(text.last() == digits[digits.len() - 1]);
        assert(is_digit(digits[digits.len() - 1]));
    }
    assert forall|j: int| 0 <= j < text.len() implies #[trigger] text[j] != '\n' by {
        if 1 <= j < 1 + digits.len() {
            assert(text[j] == digits[j - 1]);
            assert(is_digit(digits[j - 1]));
        } else if j >= 1 + digits.len() {
            assert(text[j] == tail[j - 1 - digits.len()]);
        }
    }
}

proof fn lemma_move_ends_plainly<N: Scalar>(command: Command<N>, places: nat)
    requires
        has_numbers(command),
        numbers_read_back(command, places),
    ensures
        ends_plainly(command_text(command, places)),
{
    let p = params_of(command);
    let code = move_code(command);
    lemma_code_texts();
    lemma_axis_texts();
    lemma_params_are_words(p, places);
    lemma_code_ends_plainly('G', code, p.text(places));
    assert(command_text(command, places) =~= seq!['G'] + decimal(code) + p.text(places));
}

proof fn lemma_raw_ends_plainly(letter: char, code: u16, params: Seq<char>)
    requires
        letter == 'G' || letter == 'M',
        is_clean(params),
        !params.contains('\n'),
    ensures
        ends_plainly(raw_text(seq![letter], code, params)),
{
    lemma_letter_texts();
    let tail = if params.len() == 0 {
        Seq::<char>::empty()
    } else {
        seq![' '] + params
    };
    if params.len() > 0 {
        assert(tail.last() == params.last());
        assert forall|j: int| 0 <= j < tail.len() implies #[trigger] tail[j] != '\n' by {
            if j > 0 {
                assert(tail[j] == params[j - 1]);
            }
        }
    }
    lemma_code_ends_plainly(letter, code as nat, tail);
    assert(raw_text(seq![letter], code, params) =~= seq![letter] + decimal(code as nat) + tail);
}

/// The parameters of a token hold no character that the line does not hold.
proof fn lemma_params_come_from_the_line(s: Seq<char>, c: char)
    requires
        command_token(command_part(s)) is Some,
        !s.contains(c),
    ensures
        !command_token(command_part(s))->0.params.contains(c),
{
    let at = comment_start(s);
    lemma_comment_range(s, 0);
    let part = command_part(s);
    lemma_trim_end_result(s.take(at));
    let n = digits_len(part.drop_first());
    lemma_digits_len_range(part.drop_first());
    let behind = part.skip(1 + n);
    let params = trim_start_of(behind);
    lemma_trim_start_result(behind);
    assert forall|j: int| 0 <= j < params.len() implies #[trigger] params[j] != c by {
        let from = behind.len() - params.len();
        assert(params[j] == behind[from + j]);
        assert(behind[from + j] == part[1 + n + from + j]);
        assert(part[1 + n + from + j] == s[1 + n + from + j]);
    }
}

/// A line that is no command stays none without the carriage return at its end.
proof fn lemma_unknown_without_cr<N: Scalar>(line: Seq<char>)
    requires
        command_on::<N>(line) == Ok::<Command<N>, Seq<char>>(Command::Unknown { raw: line }),
        line.len() > 0,
        line.last() == '\r',
    ensures
        command_on::<N>(line.drop_last()) == Ok::<Command<N>, Seq<char>>(
            Command::Unknown { raw: line.drop_last() },
        ),
{
    assert(is_whitespace('\r'));
    let s = trim_start_of(line);
    let short = line.drop_last();
    lemma_trim_start_result(line);
    assert(s.len() > 0);
    let k = line.len() - s.len();
    assert(s.last() == line.last());
    assert(s.len() >= 2);
    assert(s =~= line.subrange(k, line.len() as int));
    lemma_trim_start_of_shorter(line);
    assert(trim_start_of(short) == s.drop_last());
    let t = s.drop_last();
    assert(t[0] == s[0]);
    let at = comment_start(s);
    lemma_comment_range(s, 0);
    let end = if at < s.len() {
        at
    } else {
        t.len() as int
    };
    assert(end <= t.len());
    assert forall|j: int| 0 <= j < t.len() implies #[trigger] begins_comment(t, j)
        == begins_comment(s, j) by {
        lemma_quoted_inside(s, t, 0, j);
    }
    lemma_comment_from(t, 0, end);
    if at < s.len() {
        assert(t.take(at) =~= s.take(at));
    } else {
        assert(t.take(t.len() as int) =~= t);
        assert(s.take(s.len() as int) =~= s);
        assert(trim_end_of(s) == trim_end_of(t));
    }
    assert(command_part(t) == command_part(s));
}

/// Trimming the front and dropping white space at the end can change places.
proof fn lemma_trim_start_of_shorter(s: Seq<char>)
    requires
        trim_start_of(s).len() >= 2,
    ensures
        trim_start_of(s.drop_last()) == trim_start_of(s).drop_last(),
    decreases s.len(),
{
    if s.len() > 0 && is_whitespace(s[0]) {
        lemma_trim_start_of_shorter(s.drop_first());
        assert(s.drop_first().drop_last() =~= s.drop_last().drop_first());
        assert(s.drop_last()[0] == s[0]);
    } else {
        assert(s.drop_last()[0] == s[0]);
    }
}

/// The command that is read from the line on which `command` was written.  Where
/// lines end in a line feed alone, a carriage return at the end of a comment or an
/// unknown line is taken for a part of the line ending.
pub open spec fn line_read_back<N: Scalar>(command: Command<N>, places: nat, crlf: bool) -> Command<
    N,
> {
    match command {
        Command::Comment { text } => if crlf {
            command
        } else {
            Command::Comment { text: without_cr(text) }
        },
        Command::Unknown { raw } => if crlf {
            command
        } else {
            Command::Unknown { raw: without_cr(raw) }
        },
        _ => command_read_back(command, places),
    }
}

proof fn lemma_line_round_trip<N: Scalar>(line: Seq<char>, places: nat)
    requires
        command_on::<N>(line) matches Ok(command) && numbers_read_back(command, places),
        !line.contains('\n'),
    ensures
        ({
            let command = command_on::<N>(line)->Ok_0;
            let text = command_text(command, places);
            &&& !text.contains('\n')
            &&& command_on::<N>(without_cr(text)) == Ok::<Command<N>, Seq<char>>(
                line_read_back(command, places, false),
            )
            &&& command_on::<N>(text) == Ok::<Command<N>, Seq<char>>(
                line_read_back(command, places, true),
            )
        }),
{
    let command = command_on::<N>(line)->Ok_0;
    let text = command_text(command, places);
    let s = trim_start_of(line);
    lemma_letter_texts();
    lemma_round_trip::<N>(line, places);
    lemma_trim_start_result(line);
    assert forall|j: int| 0 <= j < s.len() implies #[trigger] s[j] != '\n' by {
        assert(s[j] == line[line.len() - s.len() + j]);
    }
    match command {
        Command::Comment { text: inner } => {
            assert(text =~= seq![';'] + inner);
            assert(!inner.contains('\n')) by {
                lemma_comment_comes_from_the_line(s);
            }
            assert forall|j: int| 0 <= j < text.len() implies #[trigger] text[j] != '\n' by {
                if j > 0 {
                    assert(text[j] == inner[j - 1]);
                }
            }
            let short = without_cr(text);
            assert(short =~= seq![';'] + without_cr(inner));
            assert(short[0] == ';');
            assert(trim_start_of(short) == short);
            assert(short.drop_first() =~= without_cr(inner));
        },
        Command::Unknown { raw } => {
            if s.len() == 0 {
                assert(raw =~= Seq::<char>::empty());
            } else if line.last() == '\r' {
                lemma_unknown_without_cr::<N>(line);
            }
        },
        Command::SetAbsolute => {
            reveal_strlit("G90");
            assert(ends_plainly(text));
            lemma_no_carriage_return(text);
        },
        Command::SetRelative => {
            reveal_strlit("G91");
            assert(ends_plainly(text));
            lemma_no_carriage_return(text);
        },
        Command::GCommand { code, params } => {
            lemma_token_params_are_clean(s);
            lemma_params_come_from_the_line(s, '\n');
            lemma_raw_ends_plainly('G', code, params);
            lemma_no_carriage_return(text);
        },
        Command::MetaCommand { code, params } => {
            lemma_token_params_are_clean(s);
            lemma_params_come_from_the_line(s, '\n');
            lemma_raw_ends_plainly('M', code, params);
            lemma_no_carriage_return(text);
        },
        _ => {
            lemma_move_ends_plainly(command, places);
            lemma_no_carriage_return(text);
        },
    }
}

proof fn lemma_comment_comes_from_the_line(s: Seq<char>)
    requires
        s.len() > 0,
        !s.contains('\n'),
    ensures
        !enclosed_text(s).contains('\n'),
        !s.drop_first().contains('\n'),
{
    assert forall|j: int| 0 <= j < s.len() - 1 implies #[trigger] s.drop_first()[j] != '\n' by {
        assert(s.drop_first()[j] == s[j + 1]);
    }
    if s.len() >= 2 && s.last() == ')' {
        let inner = s.subrange(1, s.len() - 1);
        let front = trim_start_of(inner);
        lemma_trim_start_result(inner);
        lemma_trim_end_result(front);
        let text = trim_of(inner);
        assert forall|j: int| 0 <= j < text.len() implies #[trigger] text[j] != '\n' by {
            assert(text[j] == front[j]);
            assert(front[j] == inner[inner.len() - front.len() + j]);
            assert(inner[inner.len() - front.len() + j] == s[1 + inner.len() - front.len() + j]);
        }
    }
}

// ── Whole programs ────────────────────────────────────────────────────────────

proof fn lemma_lines_hold_no_feed(s: Seq<char>, offset: nat, i: int)
    requires
        0 <= i < source_lines(s, offset).len(),
    ensures
        !source_lines(s, offset)[i].text.contains('\n'),
    decreases s.len(),
{
    let k = line_len(s);
    lemma_index_of_char_range(s, '\n');
    let first = s.take(k);
    if i == 0 {
        assert(source_lines(s, offset)[0].text == first);
        assert forall|j: int| 0 <= j < first.len() implies #[trigger] first[j] != '\n' by {
            assert(first[j] == s[j]);
        }
    } else {
        let next = offset + encode_utf8(s.take(k + 1)).len();
        let rest = source_lines(s.skip(k + 1), next);
        assert(source_lines(s, offset)[i] == rest[i - 1]);
        lemma_lines_hold_no_feed(s.skip(k + 1), next, i - 1);
    }
}

/// The lines of a text that ends with a line feed, and of one more line behind it.
proof fn lemma_one_more_line(s: Seq<char>, offset: nat, line: Seq<char>)
    requires
        s.len() > 0 ==> s.last() == '\n',
        !line.contains('\n'),
    ensures
        ({
            let longer = source_lines(s + line + seq!['\n'], offset);
            let lines = source_lines(s, offset);
            &&& longer.len() == lines.len() + 1
            &&& longer.last().text == line
            &&& forall|i: int| 0 <= i < lines.len() ==> longer[i] == #[trigger] lines[i]
        }),
    decreases s.len(),
{
    let whole = s + line + seq!['\n'];
    if s.len() == 0 {
        assert(whole =~= line + seq!['\n']);
        assert forall|j: int| 0 <= j < line.len() implies #[trigger] whole[j] != '\n' by {
            assert(whole[j] == line[j]);
        }
        lemma_index_of_char(whole, '\n', line.len() as int);
        assert(whole.take(line.len() as int) =~= line);
        let rest = whole.skip(line.len() as int + 1);
        assert(rest.len() == 0);
        let next = offset + encode_utf8(whole.take(line.len() as int + 1)).len();
        assert(source_lines(rest, next).len() == 0);
    } else {
        let k = line_len(s);
        lemma_index_of_char_range(s, '\n');
        assert(s[s.len() - 1] == '\n');
        assert(s.contains('\n'));
        assert forall|j: int| 0 <= j < k implies #[trigger] whole[j] != '\n' by {
            assert(whole[j] == s[j]);
        }
        assert(whole[k] == s[k]);
        lemma_index_of_char(whole, '\n', k);
        let rest = s.skip(k + 1);
        if rest.len() > 0 {
            assert(rest.last() == s.last());
        }
        assert(whole.skip(k + 1) =~= rest + line + seq!['\n']);
        assert(whole.take(k) =~= s.take(k));
        assert(whole.take(k + 1) =~= s.take(k + 1));
        let next = offset + encode_utf8(s.take(k + 1)).len();
        lemma_one_more_line(rest, next, line);
        let first = seq![SourceLine { text: s.take(k), offset }];
        let inner = source_lines(rest, next);
        let outer = source_lines(rest + line + seq!['\n'], next);
        assert(source_lines(s, offset) == first + inner);
        assert(source_lines(whole, offset) == first + outer);
        assert forall|i: int| 0 <= i < (first + inner).len() implies (first + outer)[i] == (
        #[trigger] (first + inner)[i]) by {
            if i > 0 {
                assert((first + inner)[i] == inner[i - 1]);
                assert((first + outer)[i] == outer[i - 1]);
            }
        }
        assert((first + outer).last() == outer.last());
    }
}

/// What ends a line: a line feed, perhaps with a carriage return before it.
pub open spec fn line_ending(crlf: bool) -> Seq<char> {
    if crlf {
        seq!['\r', '\n']
    } else {
        seq!['\n']
    }
}

/// What is left of a line ending when the lines are parted at line feeds.
pub open spec fn before_feed(crlf: bool) -> Seq<char> {
    if crlf {
        seq!['\r']
    } else {
        Seq::empty()
    }
}

/// A written program has one line per command: the text of the command.
pub proof fn lemma_written_lines<N: Scalar>(
    p: Seq<Spanned<Command<N>>>,
    places: nat,
    crlf: bool,
    n: int,
)
    requires
        0 <= n <= p.len(),
        forall|i: int|
            0 <= i < n ==> !command_text((#[trigger] p[i]).inner, places).contains('\n'),
    ensures
        ({
            let lines = source_lines(program_text(p, places, line_ending(crlf), n), 0);
            &&& lines.len() == n
            &&& forall|i: int|
                0 <= i < n ==> (#[trigger] lines[i]).text == command_text(p[i].inner, places)
                    + before_feed(crlf)
        }),
        n > 0 ==> program_text(p, places, line_ending(crlf), n).len() > 0 && program_text(
            p,
            places,
            line_ending(crlf),
            n,
        ).last() == '\n',
    decreases n,
{
    if n > 0 {
        lemma_written_lines(p, places, crlf, n - 1);
        let ending = line_ending(crlf);
        let before = program_text(p, places, ending, n - 1);
        let text = command_text(p[n - 1].inner, places);
        let line = text + before_feed(crlf);
        assert(!text.contains('\n'));
        assert forall|j: int| 0 <= j < line.len() implies #[trigger] line[j] != '\n' by {
            if j < text.len() {
                assert(line[j] == text[j]);
            }
        }
        if n == 1 {
            assert(before =~= Seq::<char>::empty());
        }
        lemma_one_more_line(before, 0, line);
        let whole = program_text(p, places, ending, n);
        assert(whole =~= before + line + seq!['\n']);
        let lines = source_lines(before, 0);
        let longer = source_lines(whole, 0);
        assert forall|i: int| 0 <= i < n implies (#[trigger] longer[i]).text == command_text(
            p[i].inner,
            places,
        ) + before_feed(crlf) by {
            if i < n - 1 {
                assert(longer[i] == lines[i]);
            } else {
                assert(longer[i] == longer.last());
            }
        }
    }
}

/// Nothing is lost between reading and writing: a text without faults that is
/// read, written and read again has the same commands at the same lines, with
/// their numbers up to rounding.  The numbers of the text have to be written as
/// numerals, as finite ones are.
pub proof fn lemma_source_round_trip<N: Scalar>(
    source: Seq<char>,
    places: nat,
    crlf: bool,
    i: int,
)
    requires
        source_lines(source, 0).len() < u32::MAX,
        first_fault(read_lines::<N>(source)) is None,
        forall|k: int|
            0 <= k < parsed::<N>(source).len() ==> numbers_read_back(
                (#[trigger] parsed::<N>(source)[k]).inner,
                places,
            ),
        0 <= i < parsed::<N>(source).len(),
    ensures
        ({
            let p = parsed::<N>(source);
            let again = read_lines::<N>(
                program_text(p, places, line_ending(crlf), p.len() as int),
            );
            &&& again.len() == p.len()
            &&& again[i] matches Ok(c) && c.line == p[i].line && c.inner == line_read_back(
                p[i].inner,
                places,
                crlf,
            )
        }),
{
    let p = parsed::<N>(source);
    let results = read_lines::<N>(source);
    let lines = source_lines(source, 0);
    lemma_first_fault(results);
    assert forall|k: int| 0 <= k < p.len() implies command_on::<N>(without_cr(lines[k].text)) == Ok::<
        Command<N>,
        Seq<char>,
    >((#[trigger] p[k]).inner) && !command_text(p[k].inner, places).contains('\n')
        && command_on::<N>(without_cr(command_text(p[k].inner, places) + before_feed(crlf))) == Ok::<
        Command<N>,
        Seq<char>,
    >(line_read_back(p[k].inner, places, crlf)) by {
        let line = without_cr(lines[k].text);
        assert(results[k] is Ok);
        assert(results[k] == read_line::<N>(line, (k + 1) as u32, lines[k].offset as u64));
        lemma_lines_hold_no_feed(source, 0, k);
        assert forall|j: int| 0 <= j < line.len() implies #[trigger] line[j] != '\n' by {
            assert(line[j] == lines[k].text[j]);
        }
        assert(numbers_read_back(p[k].inner, places));
        lemma_line_round_trip::<N>(line, places);
        let text = command_text(p[k].inner, places);
        if crlf {
            assert((text + before_feed(crlf)).drop_last() =~= text);
        } else {
            assert(text + before_feed(crlf) =~= text);
        }
    }
    lemma_written_lines(p, places, crlf, p.len() as int);
    let out = program_text(p, places, line_ending(crlf), p.len() as int);
    assert(source_lines(out, 0)[i].text == command_text(p[i].inner, places) + before_feed(crlf));
    assert(p[i].line == i + 1);
}

// ── Writing what was read back ────────────────────────────────────────────────

/// Whether every number of the command is read back as one that is written alike.
pub open spec fn numbers_write_alike<N: Scalar>(command: Command<N>, places: nat) -> bool {
    let p = params_of(command);
    writes_alike(p.x, places) && writes_alike(p.y, places) && writes_alike(p.z, places)
        && writes_alike(p.e, places) && writes_alike(p.f, places) && writes_alike(p.i, places)
        && writes_alike(p.j, places)
}

proof fn lemma_coord_is_written_alike<N: Scalar>(axis: Seq<char>, value: Option<N>, places: nat)
    requires
        writes_alike(value, places),
    ensures
        coord_text(axis, read_back(value, places), places) == coord_text(axis, value, places),
{
}

proof fn lemma_move_is_written_alike<N: Scalar>(p: Params<N>, places: nat)
    requires
        writes_alike(p.x, places),
        writes_alike(p.y, places),
        writes_alike(p.z, places),
        writes_alike(p.e, places),
        writes_alike(p.f, places),
    ensures
        move_text(
            read_back(p.x, places),
            read_back(p.y, places),
            read_back(p.z, places),
            read_back(p.e, places),
            read_back(p.f, places),
            places,
        ) == move_text(p.x, p.y, p.z, p.e, p.f, places),
{
    lemma_coord_is_written_alike("X"@, p.x, places);
    lemma_coord_is_written_alike("Y"@, p.y, places);
    lemma_coord_is_written_alike("Z"@, p.z, places);
    lemma_coord_is_written_alike("E"@, p.e, places);
    lemma_coord_is_written_alike("F"@, p.f, places);
}

/// What is read back of a command is written as the command was.
proof fn lemma_command_is_written_alike<N: Scalar>(command: Command<N>, places: nat)
    requires
        numbers_write_alike(command, places),
    ensures
        command_text(command_read_back(command, places), places) == command_text(command, places),
{
    let p = params_of(command);
    lemma_move_is_written_alike(p, places);
    lemma_coord_is_written_alike("I"@, p.i, places);
    lemma_coord_is_written_alike("J"@, p.j, places);
    let again = command_read_back(command, places);
    match command {
        Command::RapidMove { x, y, z, f } => {
            assert(read_back(p.e, places) is None);
            assert(command_text(again, places) == command_text(command, places));
        },
        Command::LinearMove { .. } => {
            assert(command_text(again, places) == command_text(command, places));
        },
        Command::ArcMoveCW { .. } => {
            assert(command_text(again, places) == command_text(command, places));
        },
        Command::ArcMoveCCW { .. } => {
            assert(command_text(again, places) == command_text(command, places));
        },
        Command::SetPosition { .. } => {
            assert(read_back(p.f, places) is None);
            assert(command_text(again, places) == command_text(command, places));
        },
        _ => {
            assert(again == command);
        },
    }
}

proof fn lemma_programs_are_written_alike<N: Scalar>(
    a: Seq<Spanned<Command<N>>>,
    b: Seq<Spanned<Command<N>>>,
    places: nat,
    ending: Seq<char>,
    n: int,
)
    requires
        0 <= n <= a.len(),
        n <= b.len(),
        forall|i: int|
            0 <= i < n ==> command_text((#[trigger] a[i]).inner, places) == command_text(
                b[i].inner,
                places,
            ),
    ensures
        program_text(a, places, ending, n) == program_text(b, places, ending, n),
    decreases n,
{
    if n > 0 {
        lemma_programs_are_written_alike(a, b, places, ending, n - 1);
        assert(command_text(a[n - 1].inner, places) == command_text(b[n - 1].inner, places));
    }
}

/// Whether no line of a written program ends in a carriage return that is not part
/// of the line ending.
pub open spec fn no_stray_cr<N: Scalar>(p: Seq<Spanned<Command<N>>>, places: nat) -> bool {
    forall|k: int|
        0 <= k < p.len() ==> without_cr(command_text((#[trigger] p[k]).inner, places))
            == command_text(p[k].inner, places)
}

/// Writing is stable: what was written, read and written again is the same text, as
/// long as numbers are read back as ones that are written alike, and no stray
/// carriage return is taken for a part of a line ending.
pub proof fn lemma_written_text_is_stable<N: Scalar>(
    source: Seq<char>,
    places: nat,
    crlf: bool,
)
    requires
        source_lines(source, 0).len() < u32::MAX,
        first_fault(read_lines::<N>(source)) is None,
        forall|k: int|
            0 <= k < parsed::<N>(source).len() ==> numbers_read_back(
                (#[trigger] parsed::<N>(source)[k]).inner,
                places,
            ) && numbers_write_alike(parsed::<N>(source)[k].inner, places),
        crlf || no_stray_cr(parsed::<N>(source), places),
    ensures
        ({
            let p = parsed::<N>(source);
            let text = program_text(p, places, line_ending(crlf), p.len() as int);
            let again = parsed::<N>(text);
            &&& first_fault(read_lines::<N>(text)) is None
            &&& program_text(again, places, line_ending(crlf), again.len() as int) == text
        }),
{
    let p = parsed::<N>(source);
    let text = program_text(p, places, line_ending(crlf), p.len() as int);
    let results = read_lines::<N>(text);
    let again = parsed::<N>(text);
    assert(p.len() == 0 ==> text =~= Seq::<char>::empty());
    if p.len() > 0 {
        lemma_source_round_trip::<N>(source, places, crlf, 0);
    }
    assert(results.len() == p.len());
    assert forall|i: int| 0 <= i < p.len() implies (#[trigger] results[i]) is Ok && command_text(
        again[i].inner,
        places,
    ) == command_text(p[i].inner, places) by {
        lemma_source_round_trip::<N>(source, places, crlf, i);
        let command = p[i].inner;
        assert(numbers_write_alike(command, places));
        lemma_command_is_written_alike(command, places);
        lemma_letter_texts();
        match command {
            Command::Comment { text: comment } => {
                let written = seq![';'] + comment;
                assert(command_text(command, places) == written);
                if !crlf && comment.len() > 0 && comment.last() == '\r' {
                    assert(written.last() == '\r');
                    assert(without_cr(written).len() < written.len());
                }
            },
            Command::Unknown { raw } => {
                assert(command_text(command, places) == raw);
            },
            _ => {},
        }
    }
    lemma_first_fault(results);
    assert forall|i: int| 0 <= i < p.len() implies command_text((#[trigger] again[i]).inner, places)
        == command_text(p[i].inner, places) by {
        assert(results[i] is Ok);
    }
    lemma_programs_are_written_alike(again, p, places, line_ending(crlf), p.len() as int);
}

// ── Fixed-point numbers ───────────────────────────────────────────────────────

proof fn lemma_fixed_digits(n: nat, width: nat)
    ensures
        fixed_digits(n, width).len() == width,
        all_digits(fixed_digits(n, width)),
        number_of(fixed_digits(n, width)) == n % pow10(width),
        pow10(width) >= 1,
    decreases width,
{
    if width > 0 {
        let shorter = fixed_digits(n / 10, (width - 1) as nat);
        lemma_fixed_digits(n / 10, (width - 1) as nat);
        let s = fixed_digits(n, width);
        assert(s.drop_last() =~= shorter);
        assert(s.last() == digit_char(n % 10));
        assert forall|i: int| 0 <= i < s.len() implies is_digit(#[trigger] s[i]) by {
            if i < shorter.len() {
                assert(s[i] == shorter[i]);
            }
        }
        let m = pow10((width - 1) as nat);
        assert((n / 10) % m * 10 + n % 10 == n % (10 * m)) by (nonlinear_arith)
            requires
                m >= 1,
        {
            let q = (n / 10) / m;
            let r = (n / 10) % m;
            assert(n / 10 == q * m + r);
            assert(0 <= r < m);
            assert(n == (n / 10) * 10 + n % 10);
            assert(n == q * (10 * m) + (r * 10 + n % 10));
            assert(0 <= r * 10 + n % 10 < 10 * m);
            vstd::arithmetic::div_mod::lemma_fundamental_div_mod_converse(
                n as int,
                (10 * m) as int,
                q as int,
                (r * 10 + n % 10) as int,
            );
        }
    }
}

proof fn lemma_powers()
    ensures
        pow10(0) == 1,
        pow10(1) == 10,
        pow10(2) == 100,
        pow10(3) == 1_000,
        pow10(4) == 10_000,
        pow10(5) == 100_000,
        pow10(6) == 1_000_000,
{
    reveal_with_fuel(pow10, 8);
}

/// Zeros behind digits multiply the number that they spell by powers of ten.
proof fn lemma_zeros_behind(digits: Seq<char>, more: nat)
    ensures
        number_of(digits + zeros(more)) == number_of(digits) * pow10(more),
    decreases more,
{
    let longer = digits + zeros(more);
    if more == 0 {
        assert(longer =~= digits);
        assert(pow10(0) == 1);
        assert(number_of(digits) * 1 == number_of(digits));
    } else {
        let fewer = (more - 1) as nat;
        lemma_zeros_behind(digits, fewer);
        assert(longer.drop_last() =~= digits + zeros(fewer));
        assert(longer.last() == '0');
        assert(number_of(digits) * pow10(fewer) * 10 == number_of(digits) * (10 * pow10(fewer)))
            by (nonlinear_arith);
    }
}

/// Digits, a point and digits spell the number of millionths that they were
/// written for; places behind the sixth are zeros.
proof fn lemma_unsigned_is_read_back(w: nat, k: nat, places: nat, more: nat)
    requires
        1 <= places <= 6,
        k < pow10(places),
        places == 6 || more == 0,
    ensures
        ({
            let body = decimal(w) + seq!['.'] + (fixed_digits(k, places) + zeros(more));
            &&& unsigned_value(body) == Some(w * 1_000_000 + k * pow10((6 - places) as nat))
            &&& is_unsigned_numeral(body)
            &&& is_digit(body[0])
        }),
{
    let whole = decimal(w);
    let head = fixed_digits(k, places);
    let digits = head + zeros(more);
    let body = whole + seq!['.'] + digits;
    lemma_decimal_is_read_back(w);
    lemma_fixed_digits(k, places);
    assert(number_of(head) == k) by {
        vstd::arithmetic::div_mod::lemma_small_mod(k, pow10(places));
    }
    let at = whole.len() as int;
    assert(all_digits(whole));
    assert forall|j: int| 0 <= j < digits.len() implies is_digit(#[trigger] digits[j]) by {
        if j < places {
            assert(digits[j] == head[j]);
        } else {
            assert(digits[j] == zeros(more)[j - places]);
        }
    }
    assert forall|j: int| 0 <= j < body.len() implies is_digit(#[trigger] body[j]) || body[j]
        == '.' by {
        if j < at {
            assert(body[j] == whole[j]);
        } else if j > at {
            assert(body[j] == digits[j - at - 1]);
        }
    }
    assert forall|j: int| 0 <= j < at implies #[trigger] body[j] != '.' by {
        assert(body[j] == whole[j]);
        assert(is_digit(whole[j]));
    }
    assert(body[at] == '.');
    lemma_index_of_char(body, '.', at);
    assert(body.take(at) =~= whole);
    assert(body.skip(at + 1) =~= digits);
    assert(six_places(digits) =~= head + zeros((6 - places) as nat));
    lemma_zeros_behind(head, (6 - places) as nat);
    assert(body[0] == whole[0]);
    assert(is_digit(whole[0]));
}

/// Digits without a point spell a whole number.
proof fn lemma_whole_is_read_back(w: nat)
    ensures
        unsigned_value(decimal(w)) == Some(w * 1_000_000),
        is_unsigned_numeral(decimal(w)),
        is_digit(decimal(w)[0]),
{
    let body = decimal(w);
    lemma_decimal_is_read_back(w);
    assert(is_digit(body[0]));
    assert forall|j: int| 0 <= j < body.len() implies #[trigger] body[j] != '.' by {
        assert(is_digit(body[j]));
    }
    lemma_index_of_char(body, '.', body.len() as int);
    assert(body.take(body.len() as int) =~= body);
    let none = Seq::<char>::empty();
    assert(six_places(none) =~= none + zeros(6));
    lemma_zeros_behind(none, 6);
    lemma_powers();
    assert(number_of(none) == 0);
}

/// The unit of the last of the given places, in millionths.
pub open spec fn last_unit(places: nat) -> nat {
    if places < 6 {
        pow10((6 - places) as nat)
    } else {
        1
    }
}

/// Whether two numbers are at most half a unit of the last place apart.
pub open spec fn is_near(a: Fixed, b: Fixed, places: nat) -> bool {
    2 * magnitude(a.millionths - b.millionths) <= last_unit(places)
}

/// Whether two numbers are both absent, or at most half a unit of the last place apart.
pub open spec fn given_near(a: Option<Fixed>, b: Option<Fixed>, places: nat) -> bool {
    match (a, b) {
        (Some(x), Some(y)) => is_near(x, y, places),
        (None, None) => true,
        _ => false,
    }
}

/// Whether two commands are the same but for numbers that are at most half a unit of
/// the last place apart.
pub open spec fn commands_are_near(
    a: Command<Fixed>,
    b: Command<Fixed>,
    places: nat,
) -> bool {
    if has_numbers(b) {
        let p = params_of(a);
        let q = params_of(b);
        &&& has_numbers(a)
        &&& move_code(a) == move_code(b)
        &&& given_near(p.x, q.x, places)
        &&& given_near(p.y, q.y, places)
        &&& given_near(p.z, q.z, places)
        &&& given_near(p.e, q.e, places)
        &&& given_near(p.f, q.f, places)
        &&& given_near(p.i, q.i, places)
        &&& given_near(p.j, q.j, places)
    } else {
        a == b
    }
}

/// The magnitude that is written for `size` is the nearest one with the given places.
proof fn lemma_rounding_is_near(size: nat, places: nat)
    requires
        places <= 6,
    ensures
        ({
            let unit = pow10((6 - places) as nat);
            let whole = pow10(places);
            let scaled = rounded(size, places);
            &&& scaled % whole < whole
            &&& (scaled / whole) * 1_000_000 + (scaled % whole) * unit == scaled * unit
            &&& 2 * magnitude(scaled * unit - size) <= unit
            &&& unit == last_unit(places)
        }),
{
    lemma_powers();
    let unit = pow10((6 - places) as nat);
    let whole = pow10(places);
    let scaled = rounded(size, places);
    if places == 0 {
        assert(unit == 1_000_000 && whole == 1 && scaled == (size + 500_000) / 1_000_000);
    } else if places == 1 {
        assert(unit == 100_000 && whole == 10 && scaled == (size + 50_000) / 100_000);
    } else if places == 2 {
        assert(unit == 10_000 && whole == 100 && scaled == (size + 5_000) / 10_000);
    } else if places == 3 {
        assert(unit == 1_000 && whole == 1_000 && scaled == (size + 500) / 1_000);
    } else if places == 4 {
        assert(unit == 100 && whole == 10_000 && scaled == (size + 50) / 100);
    } else if places == 5 {
        assert(unit == 10 && whole == 100_000 && scaled == (size + 5) / 10);
    } else {
        assert(unit == 1 && whole == 1_000_000);
    }
    lemma_nearest(size, unit);
    lemma_split_units(scaled, whole, unit);
}

proof fn lemma_nearest(size: nat, unit: nat)
    requires
        unit == 1 || unit > 0 && unit % 2 == 0,
    ensures
        2 * magnitude(((size + unit / 2) / unit) * unit - size) <= unit,
{
    let scaled = (size + unit / 2) / unit;
    vstd::arithmetic::div_mod::lemma_fundamental_div_mod((size + unit / 2) as int, unit as int);
    vstd::arithmetic::div_mod::lemma_mod_bound((size + unit / 2) as int, unit as int);
    vstd::arithmetic::mul::lemma_mul_is_commutative(scaled as int, unit as int);
    assert(size + unit / 2 == scaled * unit + (size + unit / 2) % unit);
}

proof fn lemma_split_units(scaled: nat, whole: nat, unit: nat)
    requires
        whole > 0,
        whole * unit == 1_000_000,
    ensures
        (scaled / whole) * 1_000_000 + (scaled % whole) * unit == scaled * unit,
{
    let q = scaled / whole;
    let r = scaled % whole;
    vstd::arithmetic::div_mod::lemma_fundamental_div_mod(scaled as int, whole as int);
    assert(scaled == whole * q + r);
    assert(q * 1_000_000 + r * unit == scaled * unit) by (nonlinear_arith)
        requires
            scaled == whole * q + r,
            whole * unit == 1_000_000,
    ;
}

/// A number is written as a numeral that is read back as a number at most half a
/// unit of the last place away; with six places and more, as the same number.
/// What is read back is written as before.
pub proof fn lemma_fixed_reads_back(v: Fixed, places: nat)
    requires
        v.millionths != i64::MIN,
    ensures
        reads_back(Some(v), places),
        is_near(read_back(Some(v), places)->0, v, places),
        places >= 6 ==> prints_exactly(Some(v), places),
        writes_alike(Some(v), places),
{
    let n = v.millionths as int;
    let size = magnitude(n);
    let shown = if places <= 6 {
        places
    } else {
        6
    };
    let more = (places - shown) as nat;
    let unit = pow10((6 - shown) as nat);
    let scaled = rounded(size, shown);
    let w = scaled / pow10(shown);
    let k = scaled % pow10(shown);
    lemma_powers();
    lemma_rounding_is_near(size, shown);
    reveal_strlit("-");
    reveal_strlit(".");
    assert("-"@ =~= seq!['-']);
    assert("."@ =~= seq!['.']);
    let body = if shown == 0 {
        decimal(w)
    } else {
        decimal(w) + seq!['.'] + (fixed_digits(k, shown) + zeros(more))
    };
    if shown == 0 {
        lemma_whole_is_read_back(w);
        assert(k == 0);
    } else {
        lemma_unsigned_is_read_back(w, k, shown, more);
    }
    assert(unsigned_value(body) == Some(scaled * unit));
    let text = v.fixed_spec(places);
    let negative = n < 0 && scaled > 0;
    if negative {
        assert(text =~= seq!['-'] + body);
        assert(text.drop_first() =~= body);
        assert(text[0] == '-');
    } else {
        assert(text =~= body);
    }
    assert(value_of(text) == Some(held(negative, scaled * unit)));
    assert(scaled * unit > 0 <==> scaled > 0) by (nonlinear_arith)
        requires
            unit > 0,
            scaled >= 0,
    ;
    lemma_rounding_is_final(size, unit);
    let again = held(negative, scaled * unit);
    assert(rounded(magnitude(again.millionths as int), shown) == scaled);
    assert(again.fixed_spec(places) == text);
}

/// What was rounded is not rounded any further, nor is the end of the range where
/// it is beyond.
proof fn lemma_rounding_is_final(size: nat, unit: nat)
    requires
        unit > 0,
        size <= i64::MAX,
    ensures
        ({
            let scaled = (size + unit / 2) / unit;
            let again = if scaled * unit > i64::MAX {
                i64::MAX as nat
            } else {
                scaled * unit
            };
            (again + unit / 2) / unit == scaled
        }),
{
    let half = unit / 2;
    let scaled = (size + half) / unit;
    let again = if scaled * unit > i64::MAX {
        i64::MAX as nat
    } else {
        scaled * unit
    };
    vstd::arithmetic::div_mod::lemma_fundamental_div_mod((size + half) as int, unit as int);
    vstd::arithmetic::div_mod::lemma_mod_bound((size + half) as int, unit as int);
    vstd::arithmetic::mul::lemma_mul_is_commutative(scaled as int, unit as int);
    assert(again + half == scaled * unit + (again + half - scaled * unit));
    vstd::arithmetic::div_mod::lemma_fundamental_div_mod_converse(
        (again + half) as int,
        unit as int,
        scaled as int,
        again + half - scaled * unit,
    );
}

proof fn lemma_given_is_held(list: Seq<Word>, axis: Axis)
    ensures
        given::<Fixed>(list, axis) matches Some(v) ==> v.millionths != i64::MIN,
    decreases list.len(),
{
    if list.len() > 0 {
        lemma_given_is_held(list.drop_last(), axis);
    }
}

proof fn lemma_option_reads_back(value: Option<Fixed>, places: nat)
    requires
        value matches Some(v) ==> v.millionths != i64::MIN,
    ensures
        reads_back(value, places),
        writes_alike(value, places),
        given_near(read_back(value, places), value, places),
{
    if let Some(v) = value {
        lemma_fixed_reads_back(v, places);
    }
}

/// Whether the numbers, where they are given, can be read.
pub open spec fn can_be_read(p: Params<Fixed>) -> bool {
    &&& p.x matches Some(v) ==> v.millionths != i64::MIN
    &&& p.y matches Some(v) ==> v.millionths != i64::MIN
    &&& p.z matches Some(v) ==> v.millionths != i64::MIN
    &&& p.e matches Some(v) ==> v.millionths != i64::MIN
    &&& p.f matches Some(v) ==> v.millionths != i64::MIN
    &&& p.i matches Some(v) ==> v.millionths != i64::MIN
    &&& p.j matches Some(v) ==> v.millionths != i64::MIN
}

proof fn lemma_fixed_line_is_held(line: Seq<char>)
    requires
        command_on::<Fixed>(line) is Ok,
    ensures
        can_be_read(params_of(command_on::<Fixed>(line)->Ok_0)),
{
    let s = trim_start_of(line);
    if s.len() > 0 && s[0] != '(' && s[0] != ';' {
        if let Some(token) = command_token(command_part(s)) {
            let list = words(token.params);
            lemma_given_is_held(list, Axis::X);
            lemma_given_is_held(list, Axis::Y);
            lemma_given_is_held(list, Axis::Z);
            lemma_given_is_held(list, Axis::E);
            lemma_given_is_held(list, Axis::F);
            lemma_given_is_held(list, Axis::I);
            lemma_given_is_held(list, Axis::J);
        }
    }
}

/// The parameters as they are read where they were written.
pub open spec fn params_read_back<N: Scalar>(p: Params<N>, places: nat) -> Params<N> {
    Params {
        x: read_back(p.x, places),
        y: read_back(p.y, places),
        z: read_back(p.z, places),
        e: read_back(p.e, places),
        f: read_back(p.f, places),
        i: read_back(p.i, places),
        j: read_back(p.j, places),
    }
}

proof fn lemma_params_of_read_back<N: Scalar>(command: Command<N>, places: nat)
    ensures
        params_of(command_read_back(command, places)) == params_read_back(
            params_of(command),
            places,
        ),
        has_numbers(command_read_back(command, places)) == has_numbers(command),
        move_code(command_read_back(command, places)) == move_code(command),
        !has_numbers(command) ==> command_read_back(command, places) == command,
        params_of(command).all_read_back(places) ==> numbers_read_back(command, places),
{
}

/// Numbers that can be read can be written and read again.
proof fn lemma_fixed_command_reads_back(command: Command<Fixed>, places: nat)
    requires
        can_be_read(params_of(command)),
    ensures
        numbers_read_back(command, places),
        numbers_write_alike(command, places),
        commands_are_near(command_read_back(command, places), command, places),
{
    let p = params_of(command);
    lemma_params_of_read_back(command, places);
    lemma_option_reads_back(p.x, places);
    lemma_option_reads_back(p.y, places);
    lemma_option_reads_back(p.z, places);
    lemma_option_reads_back(p.e, places);
    lemma_option_reads_back(p.f, places);
    lemma_option_reads_back(p.i, places);
    lemma_option_reads_back(p.j, places);
}

proof fn lemma_fixed_program_reads_back(source: Seq<char>, places: nat)
    requires
        source_lines(source, 0).len() < u32::MAX,
        first_fault(read_lines::<Fixed>(source)) is None,
    ensures
        forall|k: int|
            0 <= k < parsed::<Fixed>(source).len() ==> {
                let command = (#[trigger] parsed::<Fixed>(source)[k]).inner;
                &&& numbers_read_back(command, places)
                &&& numbers_write_alike(command, places)
                &&& commands_are_near(command_read_back(command, places), command, places)
            },
{
    let p = parsed::<Fixed>(source);
    let results = read_lines::<Fixed>(source);
    let lines = source_lines(source, 0);
    lemma_first_fault(results);
    assert forall|k: int| 0 <= k < p.len() implies {
        let command = (#[trigger] p[k]).inner;
        &&& numbers_read_back(command, places)
        &&& numbers_write_alike(command, places)
        &&& commands_are_near(command_read_back(command, places), command, places)
    } by {
        let line = without_cr(lines[k].text);
        assert(results[k] is Ok);
        assert(results[k] == read_line::<Fixed>(line, (k + 1) as u32, lines[k].offset as u64));
        lemma_fixed_line_is_held(line);
        lemma_fixed_command_reads_back(p[k].inner, places);
    }
}

/// With decimal numbers every text without faults survives: read, written and
/// read again, it has the same commands at the same lines, with their numbers at
/// most half a unit of the last place away.
pub proof fn lemma_fixed_source_round_trip(source: Seq<char>, places: nat, crlf: bool, i: int)
    requires
        source_lines(source, 0).len() < u32::MAX,
        first_fault(read_lines::<Fixed>(source)) is None,
        0 <= i < parsed::<Fixed>(source).len(),
    ensures
        ({
            let p = parsed::<Fixed>(source);
            let again = read_lines::<Fixed>(
                program_text(p, places, line_ending(crlf), p.len() as int),
            );
            &&& again.len() == p.len()
            &&& again[i] matches Ok(c) && c.line == p[i].line && c.inner == line_read_back(
                p[i].inner,
                places,
                crlf,
            ) && (p[i].inner is Comment || p[i].inner is Unknown || commands_are_near(
                c.inner,
                p[i].inner,
                places,
            ))
        }),
{
    lemma_fixed_program_reads_back(source, places);
    lemma_source_round_trip::<Fixed>(source, places, crlf, i);
}

/// With decimal numbers writing is stable: what was written, read and written again
/// is the same text, as long as no stray carriage return is taken for a part of a
/// line ending.
pub proof fn lemma_fixed_text_is_stable(source: Seq<char>, places: nat, crlf: bool)
    requires
        source_lines(source, 0).len() < u32::MAX,
        first_fault(read_lines::<Fixed>(source)) is None,
        crlf || no_stray_cr(parsed::<Fixed>(source), places),
    ensures
        ({
            let p = parsed::<Fixed>(source);
            let text = program_text(p, places, line_ending(crlf), p.len() as int);
            let again = parsed::<Fixed>(text);
            &&& first_fault(read_lines::<Fixed>(text)) is None
            &&& program_text(again, places, line_ending(crlf), again.len() as int) == text
        }),
{
    lemma_fixed_program_reads_back(source, places);
    lemma_written_text_is_stable::<Fixed>(source, places, crlf);
}

} // verus!
