//! Core data types: commands, source locations, points, limits and parse errors.
//!
//! A [`GCodeCommand`] borrows its text fields from the source buffer where it
//! was parsed, and owns them where it was made by the optimizer.  Contracts
//! speak of its view, a [`Command`], in which text is a sequence of characters.

use std::borrow::Cow;

use vstd::prelude::*;

use crate::scalar::{zero, zero_spec, Scalar};
use crate::text::{decimal, push_decimal, push_text};

verus! {

/// A single parsed G-code command.
#[derive(Debug, PartialEq)]
pub enum GCodeCommand<'a, N> {
    /// `G0`: rapid move without extrusion.  Absent axes stay where they are.
    RapidMove {
        /// Target X coordinate in millimetres.
        x: Option<N>,
        /// Target Y coordinate in millimetres.
        y: Option<N>,
        /// Target Z coordinate in millimetres.
        z: Option<N>,
        /// Feedrate in mm/min.
        f: Option<N>,
    },
    /// `G1`: linear move, with extrusion where `e` is present.
    LinearMove {
        /// Target X coordinate in millimetres.
        x: Option<N>,
        /// Target Y coordinate in millimetres.
        y: Option<N>,
        /// Target Z coordinate in millimetres.
        z: Option<N>,
        /// Extruder position or delta in millimetres.
        e: Option<N>,
        /// Feedrate in mm/min.
        f: Option<N>,
    },
    /// `G2`: clockwise arc move about the centre at offset (`i`, `j`) from its start.
    ArcMoveCW {
        /// Target X coordinate in millimetres.
        x: Option<N>,
        /// Target Y coordinate in millimetres.
        y: Option<N>,
        /// Target Z coordinate in millimetres.
        z: Option<N>,
        /// Extruder position or delta in millimetres.
        e: Option<N>,
        /// Feedrate in mm/min.
        f: Option<N>,
        /// X offset from the start to the arc centre.
        i: Option<N>,
        /// Y offset from the start to the arc centre.
        j: Option<N>,
    },
    /// `G3`: counter-clockwise arc move about the centre at offset (`i`, `j`) from its start.
    ArcMoveCCW {
        /// Target X coordinate in millimetres.
        x: Option<N>,
        /// Target Y coordinate in millimetres.
        y: Option<N>,
        /// Target Z coordinate in millimetres.
        z: Option<N>,
        /// Extruder position or delta in millimetres.
        e: Option<N>,
        /// Feedrate in mm/min.
        f: Option<N>,
        /// X offset from the start to the arc centre.
        i: Option<N>,
        /// Y offset from the start to the arc centre.
        j: Option<N>,
    },
    /// `G90`: absolute positioning.
    SetAbsolute,
    /// `G91`: relative positioning.
    SetRelative,
    /// `G92`: set the logical position without moving the head.
    SetPosition {
        /// New logical X position.
        x: Option<N>,
        /// New logical Y position.
        y: Option<N>,
        /// New logical Z position.
        z: Option<N>,
        /// New logical extruder position.
        e: Option<N>,
    },
    /// An M-code with its parameters as they were written.
    MetaCommand {
        /// The number of the M-code.
        code: u16,
        /// The parameters, without leading white space.  May be empty.
        params: Cow<'a, str>,
    },
    /// A comment, introduced by `;` or enclosed in parentheses.
    Comment {
        /// The comment without its delimiters.
        text: Cow<'a, str>,
    },
    /// Any other G-code with its parameters as they were written.
    GCommand {
        /// The number of the G-code.
        code: u16,
        /// The parameters, without leading white space.  May be empty.
        params: Cow<'a, str>,
    },
    /// A line that is no G-code or M-code, kept for lossless round-tripping.
    Unknown {
        /// The line as it appeared in the source; empty for a blank line.
        raw: Cow<'a, str>,
    },
}

/// What a [`GCodeCommand`] says: the same command with its text as characters.
#[verifier::ext_equal]
pub enum Command<N> {
    RapidMove { x: Option<N>, y: Option<N>, z: Option<N>, f: Option<N> },
    LinearMove { x: Option<N>, y: Option<N>, z: Option<N>, e: Option<N>, f: Option<N> },
    ArcMoveCW {
        x: Option<N>,
        y: Option<N>,
        z: Option<N>,
        e: Option<N>,
        f: Option<N>,
        i: Option<N>,
        j: Option<N>,
    },
    ArcMoveCCW {
        x: Option<N>,
        y: Option<N>,
        z: Option<N>,
        e: Option<N>,
        f: Option<N>,
        i: Option<N>,
        j: Option<N>,
    },
    SetAbsolute,
    SetRelative,
    SetPosition { x: Option<N>, y: Option<N>, z: Option<N>, e: Option<N> },
    MetaCommand { code: u16, params: Seq<char> },
    Comment { text: Seq<char> },
    GCommand { code: u16, params: Seq<char> },
    Unknown { raw: Seq<char> },
}

impl<'a, N> View for GCodeCommand<'a, N> {
    type V = Command<N>;

    open spec fn view(&self) -> Command<N> {
        match *self {
            GCodeCommand::RapidMove { x, y, z, f } => Command::RapidMove { x, y, z, f },
            GCodeCommand::LinearMove { x, y, z, e, f } => Command::LinearMove { x, y, z, e, f },
            GCodeCommand::ArcMoveCW { x, y, z, e, f, i, j } => Command::ArcMoveCW {
                x,
                y,
                z,
                e,
                f,
                i,
                j,
            },
            GCodeCommand::ArcMoveCCW { x, y, z, e, f, i, j } => Command::ArcMoveCCW {
                x,
                y,
                z,
                e,
                f,
                i,
                j,
            },
            GCodeCommand::SetAbsolute => Command::SetAbsolute,
            GCodeCommand::SetRelative => Command::SetRelative,
            GCodeCommand::SetPosition { x, y, z, e } => Command::SetPosition { x, y, z, e },
            GCodeCommand::MetaCommand { code, params } => Command::MetaCommand {
                code,
                params: params@,
            },
            GCodeCommand::Comment { text } => Command::Comment { text: text@ },
            GCodeCommand::GCommand { code, params } => Command::GCommand { code, params: params@ },
            GCodeCommand::Unknown { raw } => Command::Unknown { raw: raw@ },
        }
    }
}

/// A value with the place in the source that it was read from.
#[derive(Debug, PartialEq)]
#[verifier::ext_equal]
pub struct Spanned<T> {
    /// The value itself.
    pub inner: T,
    /// 1-based line number in the source file; 0 where there is no source line.
    pub line: u32,
    /// Offset in bytes from the start of the source to the start of the line.
    pub byte_offset: u64,
}

impl<'a, N> View for Spanned<GCodeCommand<'a, N>> {
    type V = Spanned<Command<N>>;

    open spec fn view(&self) -> Spanned<Command<N>> {
        Spanned { inner: self.inner@, line: self.line, byte_offset: self.byte_offset }
    }
}

impl<'a, N: Copy> Clone for GCodeCommand<'a, N> {
    fn clone(&self) -> (result: Self)
        ensures
            result@ == self@,
    {
        match self {
            GCodeCommand::RapidMove { x, y, z, f } => GCodeCommand::RapidMove {
                x: *x,
                y: *y,
                z: *z,
                f: *f,
            },
            GCodeCommand::LinearMove { x, y, z, e, f } => GCodeCommand::LinearMove {
                x: *x,
                y: *y,
                z: *z,
                e: *e,
                f: *f,
            },
            GCodeCommand::ArcMoveCW { x, y, z, e, f, i, j } => GCodeCommand::ArcMoveCW {
                x: *x,
                y: *y,
                z: *z,
                e: *e,
                f: *f,
                i: *i,
                j: *j,
            },
            GCodeCommand::ArcMoveCCW { x, y, z, e, f, i, j } => GCodeCommand::ArcMoveCCW {
                x: *x,
                y: *y,
                z: *z,
                e: *e,
                f: *f,
                i: *i,
                j: *j,
            },
            GCodeCommand::SetAbsolute => GCodeCommand::SetAbsolute,
            GCodeCommand::SetRelative => GCodeCommand::SetRelative,
            GCodeCommand::SetPosition { x, y, z, e } => GCodeCommand::SetPosition {
                x: *x,
                y: *y,
                z: *z,
                e: *e,
            },
            GCodeCommand::MetaCommand { code, params } => GCodeCommand::MetaCommand {
                code: *code,
                params: clone_cow(params),
            },
            GCodeCommand::Comment { text } => GCodeCommand::Comment { text: clone_cow(text) },
            GCodeCommand::GCommand { code, params } => GCodeCommand::GCommand {
                code: *code,
                params: clone_cow(params),
            },
            GCodeCommand::Unknown { raw } => GCodeCommand::Unknown { raw: clone_cow(raw) },
        }
    }
}

impl<'a, N: Copy> Clone for Spanned<GCodeCommand<'a, N>> {
    fn clone(&self) -> (result: Self)
        ensures
            result@ == self@,
    {
        Spanned {
            inner: self.inner.clone(),
            line: self.line,
            byte_offset: self.byte_offset,
        }
    }
}

/// A copy of a borrowed or owned string.
fn clone_cow<'a>(text: &Cow<'a, str>) -> (result: Cow<'a, str>)
    ensures
        result@ == text@,
{
    match text {
        Cow::Borrowed(s) => Cow::Borrowed(*s),
        Cow::Owned(s) => Cow::Owned(s.clone()),
    }
}

impl<T> std::ops::Deref for Spanned<T> {
    type Target = T;

    /// The wrapped value.
    fn deref(&self) -> (result: &T)
        ensures
            *result == self.inner,
    {
        &self.inner
    }
}

/// The commands of a program as contracts speak of them.
pub open spec fn program<'a, N>(commands: Seq<Spanned<GCodeCommand<'a, N>>>) -> Seq<
    Spanned<Command<N>>,
> {
    commands.map_values(|c: Spanned<GCodeCommand<'a, N>>| c@)
}

/// The text of a borrowed or owned string.
pub fn cow_text<'b>(text: &'b Cow<'_, str>) -> (result: &'b str)
    ensures
        result@ == text@,
{
    match text {
        Cow::Borrowed(s) => s,
        Cow::Owned(s) => s.as_str(),
    }
}

/// A point in space, in millimetres.
#[derive(Debug, PartialEq)]
pub struct Point3D<N> {
    /// X coordinate.
    pub x: N,
    /// Y coordinate.
    pub y: N,
    /// Z coordinate.
    pub z: N,
}

impl<N: Copy> Copy for Point3D<N> {

}

impl<N: Copy> Clone for Point3D<N> {
    fn clone(&self) -> (result: Self)
        ensures
            result == *self,
    {
        *self
    }
}

impl<N: Scalar> Point3D<N> {
    /// The origin.
    pub open spec fn origin() -> Self {
        Point3D { x: zero_spec::<N>(), y: zero_spec::<N>(), z: zero_spec::<N>() }
    }

    /// The point as text: `(x, y, z)`.
    pub open spec fn text_spec(self) -> Seq<char> {
        "("@ + self.x.display_spec() + ", "@ + self.y.display_spec() + ", "@
            + self.z.display_spec() + ")"@
    }

    /// The point as text: `(x, y, z)`.
    pub fn to_text(&self) -> (result: String)
        ensures
            result@ == self.text_spec(),
    {
        let mut text = String::new();
        push_text(&mut text, "(");
        push_text(&mut text, self.x.display().as_str());
        push_text(&mut text, ", ");
        push_text(&mut text, self.y.display().as_str());
        push_text(&mut text, ", ");
        push_text(&mut text, self.z.display().as_str());
        push_text(&mut text, ")");
        text
    }
}

impl<N: Scalar> Default for Point3D<N> {
    fn default() -> (result: Self)
        ensures
            result == Self::origin(),
    {
        Point3D { x: zero(), y: zero(), z: zero() }
    }
}

/// Travel limits of a printer, in millimetres.
#[derive(Debug, PartialEq)]
pub struct MachineLimits<N> {
    /// Largest X coordinate.
    pub max_x: N,
    /// Largest Y coordinate.
    pub max_y: N,
    /// Largest Z coordinate.
    pub max_z: N,
}

impl<N: Copy> Copy for MachineLimits<N> {

}

impl<N: Copy> Clone for MachineLimits<N> {
    fn clone(&self) -> (result: Self)
        ensures
            result == *self,
    {
        *self
    }
}

impl<N: Scalar> MachineLimits<N> {
    /// The limits of a common 300 x 300 x 400 mm printer.
    pub open spec fn common() -> Self {
        MachineLimits { max_x: N::of_spec(300), max_y: N::of_spec(300), max_z: N::of_spec(400) }
    }
}

impl<N: Scalar> Default for MachineLimits<N> {
    fn default() -> (result: Self)
        ensures
            result == Self::common(),
    {
        MachineLimits { max_x: N::of(300), max_y: N::of(300), max_z: N::of(400) }
    }
}

/// What can be wrong with a line of G-code.
#[derive(Debug, PartialEq, Eq)]
pub enum ParseError {
    /// The line cannot be read at all.
    InvalidLine {
        /// 1-based line number.
        line: u32,
        /// What is wrong with the line.
        message: String,
    },
    /// A parameter that has to be a number is none.
    InvalidNumber {
        /// 1-based line number.
        line: u32,
        /// The text that is no number.
        value: String,
    },
    /// The input ended where more was required.
    UnexpectedEof {
        /// 1-based line number.
        line: u32,
    },
}

/// What a [`ParseError`] says.
#[verifier::ext_equal]
pub enum Fault {
    InvalidLine { line: u32, message: Seq<char> },
    InvalidNumber { line: u32, value: Seq<char> },
    UnexpectedEof { line: u32 },
}

impl View for ParseError {
    type V = Fault;

    open spec fn view(&self) -> Fault {
        match *self {
            ParseError::InvalidLine { line, message } => Fault::InvalidLine {
                line,
                message: message@,
            },
            ParseError::InvalidNumber { line, value } => Fault::InvalidNumber {
                line,
                value: value@,
            },
            ParseError::UnexpectedEof { line } => Fault::UnexpectedEof { line },
        }
    }
}

impl Clone for ParseError {
    fn clone(&self) -> (result: Self)
        ensures
            result@ == self@,
    {
        match self {
            ParseError::InvalidLine { line, message } => ParseError::InvalidLine {
                line: *line,
                message: message.clone(),
            },
            ParseError::InvalidNumber { line, value } => ParseError::InvalidNumber {
                line: *line,
                value: value.clone(),
            },
            ParseError::UnexpectedEof { line } => ParseError::UnexpectedEof { line: *line },
        }
    }
}

impl Fault {
    /// The message that describes the fault to a user.
    pub open spec fn text_spec(self) -> Seq<char> {
        match self {
            Fault::InvalidLine { line, message } => "invalid G-Code on line "@ + decimal(
                line as nat,
            ) + ": "@ + message,
            Fault::InvalidNumber { line, value } => "invalid number '"@ + value + "' on line "@
                + decimal(line as nat) + ": invalid float literal"@,
            Fault::UnexpectedEof { line } => "unexpected end of input on line "@ + decimal(
                line as nat,
            ),
        }
    }
}

impl ParseError {
    /// The message that describes the error to a user.
    pub fn to_text(&self) -> (result: String)
        ensures
            result@ == self@.text_spec(),
    {
        let mut text = String::new();
        match self {
            ParseError::InvalidLine { line, message } => {
                push_text(&mut text, "invalid G-Code on line ");
                push_decimal(&mut text, *line as u64);
                push_text(&mut text, ": ");
                push_text(&mut text, message.as_str());
            },
            ParseError::InvalidNumber { line, value } => {
                push_text(&mut text, "invalid number '");
                push_text(&mut text, value.as_str());
                push_text(&mut text, "' on line ");
                push_decimal(&mut text, *line as u64);
                push_text(&mut text, ": invalid float literal");
            },
            ParseError::UnexpectedEof { line } => {
                push_text(&mut text, "unexpected end of input on line ");
                push_decimal(&mut text, *line as u64);
            },
        }
        text
    }
}

} // verus!
