//! What the letters of a line stand for.

use vstd::prelude::*;

use crate::emitter::raw_text;
use crate::models::Command;
use crate::parser::{
    axis_of, bad_value, command_of, command_on, given, is_letter, value_len, words, Axis,
    CommandToken, Word,
};
use crate::roundtrip::{
    is_clean, is_numeral, lemma_code_texts, lemma_decimal_is_read_back, lemma_letter_texts,
    lemma_no_semicolon, lemma_numeral_is_a_value, lemma_plain_line, lemma_raw_text_is_read_back,
    lemma_token,
};
use crate::scalar::Scalar;
use crate::text::{decimal, is_digit, is_whitespace, trim_of, trim_start_of};

verus! {

broadcast use vstd::string::group_string_axioms;

/// The number, if the letter is one of the two.
pub open spec fn if_letter<N>(letter: char, upper: char, lower: char, v: N) -> Option<N> {
    if letter == upper || letter == lower {
        Some(v)
    } else {
        None
    }
}

/// The words of one letter and a numeral, and what they give.
pub proof fn lemma_one_word<N: Scalar>(letter: char, numeral: Seq<char>)
    requires
        is_letter(letter),
        is_numeral(numeral),
        N::parse_spec(numeral) is Some,
    ensures
        ({
            let list = words(seq![letter] + numeral);
            &&& bad_value::<N>(list) is None
            &&& forall|axis: Axis| #[trigger]
                given::<N>(list, axis) == if axis_of(letter) == Some(axis) {
                    N::parse_spec(numeral)
                } else {
                    None
                }
        }),
{
    let s = seq![letter] + numeral;
    let none = Seq::<char>::empty();
    lemma_numeral_is_a_value(numeral, none);
    assert(numeral + none =~= numeral);
    assert(s.drop_first() =~= numeral);
    let n = numeral.len() as int;
    assert(value_len(s.drop_first()) == n);
    assert(s.subrange(1, 1 + n) =~= numeral);
    assert(s.skip(1 + n) =~= none);
    let word = Word { axis: axis_of(letter), value: numeral };
    assert(words(none) =~= Seq::<Word>::empty());
    assert(words(s) =~= seq![word]);
    let list = words(s);
    assert(list.drop_last() =~= Seq::<Word>::empty());
    assert(list.last() == word);
    assert(!word.is_bare()) by {
        assert(!(Word { axis: None, value: numeral }).is_bare());
    }
    reveal_with_fuel(bad_value, 2);
    assert forall|axis: Axis| #[trigger] given::<N>(list, axis) == if axis_of(letter)
        == Some(axis) {
        N::parse_spec(numeral)
    } else {
        None
    } by {
        reveal_with_fuel(given, 2);
    }
}

/// A G-code with one word is read with that word.
proof fn lemma_code_with_one_word<N: Scalar>(code: nat, letter: char, numeral: Seq<char>)
    requires
        code <= u16::MAX,
        is_letter(letter),
        is_numeral(numeral),
    ensures
        command_on::<N>(seq!['G'] + decimal(code) + (seq![' '] + (seq![letter] + numeral)))
            == command_of::<N>(
            CommandToken { is_g: true, code, params: seq![letter] + numeral },
        ),
{
    let params = seq![letter] + numeral;
    let tail = seq![' '] + params;
    let digits = decimal(code);
    let text = seq!['G'] + digits + tail;
    let none = Seq::<char>::empty();
    lemma_numeral_is_a_value(numeral, none);
    lemma_decimal_is_read_back(code);
    assert(text[0] == 'G');
    assert(text.last() == numeral.last());
    assert forall|k: int| 0 <= k < text.len() implies #[trigger] text[k] != ';' by {
        if 1 <= k < 1 + digits.len() {
            assert(text[k] == digits[k - 1]);
            assert(is_digit(digits[k - 1]));
        } else if k >= 3 + digits.len() {
            assert(text[k] == numeral[k - 3 - digits.len()]);
        }
    }
    lemma_no_semicolon(text);
    lemma_plain_line(text);
    assert(params[0] == letter);
    lemma_token('G', code, params, tail);
}

/// G0 followed by a letter and a number is a rapid move with that number for the axis or
/// the feedrate of that letter, in either case.
pub proof fn lemma_g0_words<N: Scalar>(letter: char, numeral: Seq<char>, v: N)
    requires
        is_letter(letter),
        is_numeral(numeral),
        N::parse_spec(numeral) == Some(v),
    ensures
        command_on::<N>("G0"@ + (seq![' '] + (seq![letter] + numeral))) == Ok::<
            Command<N>,
            Seq<char>,
        >(
            Command::RapidMove {
                x: if_letter(letter, 'X', 'x', v),
                y: if_letter(letter, 'Y', 'y', v),
                z: if_letter(letter, 'Z', 'z', v),
                f: if_letter(letter, 'F', 'f', v),
            },
        ),
{
    lemma_code_texts();
    lemma_one_word::<N>(letter, numeral);
    lemma_code_with_one_word::<N>(0, letter, numeral);
}

/// G1 followed by a letter and a number is a linear move with that number for the axis,
/// the extruder or the feedrate of that letter.
pub proof fn lemma_g1_words<N: Scalar>(letter: char, numeral: Seq<char>, v: N)
    requires
        is_letter(letter),
        is_numeral(numeral),
        N::parse_spec(numeral) == Some(v),
    ensures
        command_on::<N>("G1"@ + (seq![' '] + (seq![letter] + numeral))) == Ok::<
            Command<N>,
            Seq<char>,
        >(
            Command::LinearMove {
                x: if_letter(letter, 'X', 'x', v),
                y: if_letter(letter, 'Y', 'y', v),
                z: if_letter(letter, 'Z', 'z', v),
                e: if_letter(letter, 'E', 'e', v),
                f: if_letter(letter, 'F', 'f', v),
            },
        ),
{
    lemma_code_texts();
    lemma_one_word::<N>(letter, numeral);
    lemma_code_with_one_word::<N>(1, letter, numeral);
}

/// G2 is the clockwise arc, and G3 the counter-clockwise one; I and J are the offsets of
/// their centres.
pub proof fn lemma_arc_words<N: Scalar>(letter: char, numeral: Seq<char>, v: N)
    requires
        is_letter(letter),
        is_numeral(numeral),
        N::parse_spec(numeral) == Some(v),
    ensures
        command_on::<N>("G2"@ + (seq![' '] + (seq![letter] + numeral))) == Ok::<
            Command<N>,
            Seq<char>,
        >(
            Command::ArcMoveCW {
                x: if_letter(letter, 'X', 'x', v),
                y: if_letter(letter, 'Y', 'y', v),
                z: if_letter(letter, 'Z', 'z', v),
                e: if_letter(letter, 'E', 'e', v),
                f: if_letter(letter, 'F', 'f', v),
                i: if_letter(letter, 'I', 'i', v),
                j: if_letter(letter, 'J', 'j', v),
            },
        ),
        command_on::<N>("G3"@ + (seq![' '] + (seq![letter] + numeral))) == Ok::<
            Command<N>,
            Seq<char>,
        >(
            Command::ArcMoveCCW {
                x: if_letter(letter, 'X', 'x', v),
                y: if_letter(letter, 'Y', 'y', v),
                z: if_letter(letter, 'Z', 'z', v),
                e: if_letter(letter, 'E', 'e', v),
                f: if_letter(letter, 'F', 'f', v),
                i: if_letter(letter, 'I', 'i', v),
                j: if_letter(letter, 'J', 'j', v),
            },
        ),
{
    lemma_code_texts();
    lemma_one_word::<N>(letter, numeral);
    lemma_code_with_one_word::<N>(2, letter, numeral);
    lemma_code_with_one_word::<N>(3, letter, numeral);
}

/// G92 sets the position of the axis, or of the extruder, of the letter.
pub proof fn lemma_g92_words<N: Scalar>(letter: char, numeral: Seq<char>, v: N)
    requires
        is_letter(letter),
        is_numeral(numeral),
        N::parse_spec(numeral) == Some(v),
    ensures
        command_on::<N>("G92"@ + (seq![' '] + (seq![letter] + numeral))) == Ok::<
            Command<N>,
            Seq<char>,
        >(
            Command::SetPosition {
                x: if_letter(letter, 'X', 'x', v),
                y: if_letter(letter, 'Y', 'y', v),
                z: if_letter(letter, 'Z', 'z', v),
                e: if_letter(letter, 'E', 'e', v),
            },
        ),
{
    lemma_code_texts();
    lemma_one_word::<N>(letter, numeral);
    lemma_code_with_one_word::<N>(92, letter, numeral);
}

/// A semicolon begins a comment of what follows it; parentheses enclose one.
pub proof fn lemma_comments_are_read<N: Scalar>(text: Seq<char>)
    ensures
        command_on::<N>(seq![';'] + text) == Ok::<Command<N>, Seq<char>>(Command::Comment { text }),
        (text.len() > 0 ==> !is_whitespace(text[0]) && !is_whitespace(text.last()))
            ==> command_on::<N>(seq!['('] + text + seq![')']) == Ok::<Command<N>, Seq<char>>(
            Command::Comment { text },
        ),
{
    let line = seq![';'] + text;
    assert(line[0] == ';');
    assert(trim_start_of(line) == line);
    assert(line.drop_first() =~= text);
    let other = seq!['('] + text + seq![')'];
    assert(other[0] == '(');
    assert(trim_start_of(other) == other);
    assert(other.last() == ')');
    assert(other.subrange(1, other.len() - 1) =~= text);
    if text.len() > 0 ==> !is_whitespace(text[0]) && !is_whitespace(text.last()) {
        assert(trim_start_of(text) == text);
        assert(trim_of(text) == text);
    }
}

/// An M-code is read with its number and its parameters, as they stand.
pub proof fn lemma_m_codes_are_read<N: Scalar>(code: u16, params: Seq<char>)
    requires
        is_clean(params),
        params.len() > 0,
    ensures
        command_on::<N>(seq!['M'] + decimal(code as nat) + seq![' '] + params) == Ok::<
            Command<N>,
            Seq<char>,
        >(Command::MetaCommand { code, params }),
{
    lemma_letter_texts();
    lemma_raw_text_is_read_back::<N>(false, code, params);
    assert(raw_text("M"@, code, params) =~= seq!['M'] + decimal(code as nat)
        + seq![' '] + params);
}

} // verus!
