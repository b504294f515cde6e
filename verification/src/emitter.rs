//! Conversion of commands back to G-code text: the counterpart of the parser.

use vstd::prelude::*;

use crate::models::{cow_text, program, Command, GCodeCommand, Spanned};
use crate::scalar::Scalar;
use crate::text::{decimal, push_decimal, push_text};

verus! {

/// How commands are written.
#[derive(Debug, Clone, Copy)]
pub struct EmitConfig {
    /// Number of decimal places of coordinates.
    pub decimal_places: usize,
    /// What ends a line: `"\n"` or `"\r\n"`.
    pub line_ending: &'static str,
}

impl Default for EmitConfig {
    fn default() -> (result: Self)
        ensures
            result.decimal_places == 4,
            result.line_ending@ == "\n"@,
    {
        EmitConfig { decimal_places: 4, line_ending: "\n" }
    }
}

/// A parameter as text: a space, the letter and the number; nothing where it is absent.
pub open spec fn coord_text<N: Scalar>(axis: Seq<char>, value: Option<N>, places: nat) -> Seq<
    char,
> {
    match value {
        Some(v) => " "@ + axis + v.fixed_spec(places),
        None => Seq::empty(),
    }
}

/// A code with parameters that are kept as text.
pub open spec fn raw_text(letter: Seq<char>, code: u16, params: Seq<char>) -> Seq<char> {
    if params.len() == 0 {
        letter + decimal(code as nat)
    } else {
        letter + decimal(code as nat) + " "@ + params
    }
}

/// The parameters of a move as text.
pub open spec fn move_text<N: Scalar>(
    x: Option<N>,
    y: Option<N>,
    z: Option<N>,
    e: Option<N>,
    f: Option<N>,
    places: nat,
) -> Seq<char> {
    coord_text("X"@, x, places) + coord_text("Y"@, y, places) + coord_text("Z"@, z, places)
        + coord_text("E"@, e, places) + coord_text("F"@, f, places)
}

/// A command as text, without a line ending.
pub open spec fn command_text<N: Scalar>(command: Command<N>, places: nat) -> Seq<char> {
    match command {
        Command::RapidMove { x, y, z, f } => "G0"@ + move_text(x, y, z, None, f, places),
        Command::LinearMove { x, y, z, e, f } => "G1"@ + move_text(x, y, z, e, f, places),
        Command::ArcMoveCW { x, y, z, e, f, i, j } => "G2"@ + move_text(x, y, z, e, f, places)
            + coord_text("I"@, i, places) + coord_text("J"@, j, places),
        Command::ArcMoveCCW { x, y, z, e, f, i, j } => "G3"@ + move_text(x, y, z, e, f, places)
            + coord_text("I"@, i, places) + coord_text("J"@, j, places),
        Command::SetAbsolute => "G90"@,
        Command::SetRelative => "G91"@,
        Command::SetPosition { x, y, z, e } => "G92"@ + move_text(x, y, z, e, None, places),
        Command::GCommand { code, params } => raw_text("G"@, code, params),
        Command::MetaCommand { code, params } => raw_text("M"@, code, params),
        Command::Comment { text } => ";"@ + text,
        Command::Unknown { raw } => raw,
    }
}

/// The first `n` commands as text, each on a line of its own.
pub open spec fn program_text<N: Scalar>(
    p: Seq<Spanned<Command<N>>>,
    places: nat,
    ending: Seq<char>,
    n: int,
) -> Seq<char>
    decreases n,
{
    if n <= 0 {
        Seq::empty()
    } else {
        program_text(p, places, ending, n - 1) + command_text(p[n - 1].inner, places) + ending
    }
}

fn emit_opt_coord<N: Scalar>(writer: &mut String, axis: &str, value: Option<N>, places: usize)
    ensures
        final(writer)@ == old(writer)@ + coord_text(axis@, value, places as nat),
{
    if let Some(v) = value {
        push_text(writer, " ");
        push_text(writer, axis);
        push_text(writer, v.fixed(places).as_str());
    }
    proof {
        assert(writer@ =~= old(writer)@ + coord_text(axis@, value, places as nat));
    }
}

fn emit_move<N: Scalar>(
    writer: &mut String,
    x: Option<N>,
    y: Option<N>,
    z: Option<N>,
    e: Option<N>,
    f: Option<N>,
    places: usize,
)
    ensures
        final(writer)@ == old(writer)@ + move_text(x, y, z, e, f, places as nat),
{
    emit_opt_coord(writer, "X", x, places);
    emit_opt_coord(writer, "Y", y, places);
    emit_opt_coord(writer, "Z", z, places);
    emit_opt_coord(writer, "E", e, places);
    emit_opt_coord(writer, "F", f, places);
    proof {
        assert(writer@ =~= old(writer)@ + move_text(x, y, z, e, f, places as nat));
    }
}

fn emit_raw(writer: &mut String, letter: &str, code: u16, params: &str)
    ensures
        final(writer)@ == old(writer)@ + raw_text(letter@, code, params@),
{
    push_text(writer, letter);
    push_decimal(writer, code as u64);
    if !params.is_empty() {
        push_text(writer, " ");
        push_text(writer, params);
    }
    proof {
        assert(writer@ =~= old(writer)@ + raw_text(letter@, code, params@));
    }
}

/// Appends the centre of an arc.
fn emit_centre<N: Scalar>(writer: &mut String, i: Option<N>, j: Option<N>, places: usize)
    ensures
        final(writer)@ == old(writer)@ + (coord_text("I"@, i, places as nat) + coord_text(
            "J"@,
            j,
            places as nat,
        )),
{
    emit_opt_coord(writer, "I", i, places);
    emit_opt_coord(writer, "J", j, places);
    proof {
        assert(writer@ =~= old(writer)@ + (coord_text("I"@, i, places as nat) + coord_text(
            "J"@,
            j,
            places as nat,
        )));
    }
}

/// Appends a command as text to `writer`, without a line ending.
#[verifier::rlimit(20)]
pub fn emit_command<N: Scalar>(
    command: &GCodeCommand<'_, N>,
    writer: &mut String,
    config: &EmitConfig,
)
    ensures
        final(writer)@ == old(writer)@ + command_text(command@, config.decimal_places as nat),
{
    let places: usize = config.decimal_places;
    let ghost before = writer@;
    let ghost text = command_text(command@, places as nat);
    match command {
        GCodeCommand::RapidMove { x, y, z, f } => {
            push_text(writer, "G0");
            emit_move(writer, *x, *y, *z, None, *f, places);
            assert(writer@ =~= before + text);
        },
        GCodeCommand::LinearMove { x, y, z, e, f } => {
            push_text(writer, "G1");
            emit_move(writer, *x, *y, *z, *e, *f, places);
            assert(writer@ =~= before + text);
        },
        GCodeCommand::ArcMoveCW { x, y, z, e, f, i, j } => {
            push_text(writer, "G2");
            emit_move(writer, *x, *y, *z, *e, *f, places);
            emit_centre(writer, *i, *j, places);
            assert(writer@ =~= before + text);
        },
        GCodeCommand::ArcMoveCCW { x, y, z, e, f, i, j } => {
            push_text(writer, "G3");
            emit_move(writer, *x, *y, *z, *e, *f, places);
            emit_centre(writer, *i, *j, places);
            assert(writer@ =~= before + text);
        },
        GCodeCommand::SetAbsolute => push_text(writer, "G90"),
        GCodeCommand::SetRelative => push_text(writer, "G91"),
        GCodeCommand::SetPosition { x, y, z, e } => {
            push_text(writer, "G92");
            emit_move(writer, *x, *y, *z, *e, None, places);
            assert(writer@ =~= before + text);
        },
        GCodeCommand::GCommand { code, params } => emit_raw(writer, "G", *code, cow_text(params)),
        GCodeCommand::MetaCommand { code, params } => {
            emit_raw(writer, "M", *code, cow_text(params));
        },
        GCodeCommand::Comment { text: inner } => {
            push_text(writer, ";");
            push_text(writer, cow_text(inner));
            assert(writer@ =~= before + text);
        },
        GCodeCommand::Unknown { raw } => push_text(writer, cow_text(raw)),
    }
}

/// Appends commands as text to `writer`, each followed by a line ending.
pub fn emit<N: Scalar>(
    commands: &[Spanned<GCodeCommand<'_, N>>],
    writer: &mut String,
    config: &EmitConfig,
)
    ensures
        final(writer)@ == old(writer)@ + program_text(
            program(commands@),
            config.decimal_places as nat,
            config.line_ending@,
            commands.len() as int,
        ),
{
    let ghost p = program(commands@);
    let ghost places = config.decimal_places as nat;
    let ghost ending = config.line_ending@;
    let mut i: usize = 0;
    proof {
        assert(writer@ =~= old(writer)@ + program_text(p, places, ending, 0));
    }
    while i < commands.len()
        invariant
            i <= commands.len(),
            p == program(commands@),
            places == config.decimal_places as nat,
            ending == config.line_ending@,
            writer@ == old(writer)@ + program_text(p, places, ending, i as int),
        decreases commands.len() - i,
    {
        proof {
            assert(p[i as int] == commands@[i as int]@);
        }
        emit_command(&commands[i].inner, writer, config);
        push_text(writer, config.line_ending);
        i = i + 1;
        proof {
            assert(writer@ =~= old(writer)@ + program_text(p, places, ending, i as int));
        }
    }
}

} // verus!
