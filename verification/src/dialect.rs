//! Detection of the slicer that made a program, and what its comments say.

use vstd::prelude::*;

use crate::diagnostics::{findings, Diagnostic, Finding, Severity};
use crate::models::{cow_text, program, Command, GCodeCommand, Spanned};
use crate::scalar::{zero, zero_spec, Scalar};
use crate::text::{
    chars_of, contains, find, find_char, first_from, has_prefix, has_text, index_of_char, is_digit,
    digit, is_whitespace, lower_of, owned, push_text, same_text, slice, starts_with, strip_prefix,
    trim, trim_of, trim_start, trim_start_of, whitespace,
};

pub mod laws;
pub mod words;

verus! {

/// How sure the detection is.
#[derive(Debug, Clone, Copy, PartialEq, Eq, PartialOrd, Ord, Structural)]
pub enum Confidence {
    /// No dialect was identified.
    Absent,
    /// One weak sign.
    Low,
    /// Several weak signs.
    Medium,
    /// A definite signature.
    High,
}

impl Default for Confidence {
    fn default() -> (result: Self)
        ensures
            result == Confidence::Absent,
    {
        Confidence::Absent
    }
}

impl Confidence {
    /// The name of the level.
    pub open spec fn text_spec(self) -> Seq<char> {
        match self {
            Confidence::Absent => "None"@,
            Confidence::Low => "Low"@,
            Confidence::Medium => "Medium"@,
            Confidence::High => "High"@,
        }
    }

    /// The name of the level.
    pub fn to_text(self) -> (result: &'static str)
        ensures
            result@ == self.text_spec(),
    {
        match self {
            Confidence::Absent => "None",
            Confidence::Low => "Low",
            Confidence::Medium => "Medium",
            Confidence::High => "High",
        }
    }
}

/// A slicer whose comments are known.
#[derive(Debug, Clone, Copy, PartialEq, Eq, Structural)]
pub enum SlicerDialect {
    /// `OrcaSlicer`.
    OrcaSlicer,
    /// `PrusaSlicer`.
    PrusaSlicer,
    /// Ultimaker Cura.
    Cura,
    /// None of these, or not determined.
    Unknown,
}

impl SlicerDialect {
    /// The name of the dialect.
    pub open spec fn text_spec(self) -> Seq<char> {
        match self {
            SlicerDialect::OrcaSlicer => "OrcaSlicer"@,
            SlicerDialect::PrusaSlicer => "PrusaSlicer"@,
            SlicerDialect::Cura => "Cura"@,
            SlicerDialect::Unknown => "Unknown"@,
        }
    }

    /// The name of the dialect.
    pub fn to_text(self) -> (result: &'static str)
        ensures
            result@ == self.text_spec(),
    {
        match self {
            SlicerDialect::OrcaSlicer => "OrcaSlicer",
            SlicerDialect::PrusaSlicer => "PrusaSlicer",
            SlicerDialect::Cura => "Cura",
            SlicerDialect::Unknown => "Unknown",
        }
    }

    /// The metadata fields that programs of this dialect carry.
    pub open spec fn fields_spec(self) -> Seq<Seq<char>> {
        match self {
            SlicerDialect::OrcaSlicer | SlicerDialect::PrusaSlicer => seq![
                "nozzle_diameter_mm"@,
                "layer_height_mm"@,
                "filament_type"@,
                "first_layer_bed_temperature"@,
                "hotend_temperature"@,
                "estimated_time_seconds"@,
            ],
            SlicerDialect::Cura => seq![
                "nozzle_diameter_mm"@,
                "layer_height_mm"@,
                "filament_type"@,
                "bed_temperature"@,
                "hotend_temperature"@,
                "print_time"@,
            ],
            SlicerDialect::Unknown => Seq::empty(),
        }
    }

    /// The metadata fields that programs of this dialect carry.
    pub fn expected_fields(self) -> (result: Vec<&'static str>)
        ensures
            result@.map_values(|f: &'static str| f@) == self.fields_spec(),
    {
        let fields: Vec<&'static str> = match self {
            SlicerDialect::OrcaSlicer | SlicerDialect::PrusaSlicer => vec![
                "nozzle_diameter_mm",
                "layer_height_mm",
                "filament_type",
                "first_layer_bed_temperature",
                "hotend_temperature",
                "estimated_time_seconds",
            ],
            SlicerDialect::Cura => vec![
                "nozzle_diameter_mm",
                "layer_height_mm",
                "filament_type",
                "bed_temperature",
                "hotend_temperature",
                "print_time",
            ],
            SlicerDialect::Unknown => Vec::new(),
        };
        proof {
            assert(fields@.map_values(|f: &'static str| f@) =~= self.fields_spec());
        }
        fields
    }
}

/// What the comments of a program say about how it was sliced.
#[derive(Debug, PartialEq)]
pub struct SlicerMetadata<N> {
    /// The dialect of the program.
    pub dialect: SlicerDialect,
    /// How sure the dialect is.
    pub confidence: Confidence,
    /// Version of the slicer.
    pub slicer_version: Option<String>,
    /// Nozzle diameter in millimetres.
    pub nozzle_diameter_mm: Option<N>,
    /// Layer height in millimetres.
    pub layer_height_mm: Option<N>,
    /// Filament type, such as `PLA`.
    pub filament_type: Option<String>,
    /// Bed temperature of the first layer in degrees Celsius.
    pub bed_temperature: Option<N>,
    /// Hotend temperature in degrees Celsius.
    pub hotend_temperature: Option<N>,
    /// Estimated print time in seconds.
    pub estimated_time_seconds: Option<N>,
}

/// What [`SlicerMetadata`] say.
#[verifier::ext_equal]
pub struct SlicerModel<N> {
    pub dialect: SlicerDialect,
    pub confidence: Confidence,
    pub slicer_version: Option<Seq<char>>,
    pub nozzle_diameter_mm: Option<N>,
    pub layer_height_mm: Option<N>,
    pub filament_type: Option<Seq<char>>,
    pub bed_temperature: Option<N>,
    pub hotend_temperature: Option<N>,
    pub estimated_time_seconds: Option<N>,
}

/// The characters of an optional text.
pub open spec fn optional_text(text: Option<String>) -> Option<Seq<char>> {
    match text {
        Some(t) => Some(t@),
        None => None,
    }
}

impl<N> View for SlicerMetadata<N> {
    type V = SlicerModel<N>;

    open spec fn view(&self) -> SlicerModel<N> {
        SlicerModel {
            dialect: self.dialect,
            confidence: self.confidence,
            slicer_version: optional_text(self.slicer_version),
            nozzle_diameter_mm: self.nozzle_diameter_mm,
            layer_height_mm: self.layer_height_mm,
            filament_type: optional_text(self.filament_type),
            bed_temperature: self.bed_temperature,
            hotend_temperature: self.hotend_temperature,
            estimated_time_seconds: self.estimated_time_seconds,
        }
    }
}

impl<N> SlicerModel<N> {
    /// Nothing known.
    pub open spec fn unknown() -> Self {
        SlicerModel {
            dialect: SlicerDialect::Unknown,
            confidence: Confidence::Absent,
            slicer_version: None,
            nozzle_diameter_mm: None,
            layer_height_mm: None,
            filament_type: None,
            bed_temperature: None,
            hotend_temperature: None,
            estimated_time_seconds: None,
        }
    }
}

impl<N> Default for SlicerMetadata<N> {
    fn default() -> (result: Self)
        ensures
            result@ == SlicerModel::<N>::unknown(),
    {
        SlicerMetadata {
            dialect: SlicerDialect::Unknown,
            confidence: Confidence::Absent,
            slicer_version: None,
            nozzle_diameter_mm: None,
            layer_height_mm: None,
            filament_type: None,
            bed_temperature: None,
            hotend_temperature: None,
            estimated_time_seconds: None,
        }
    }
}

/// The result of detection.
#[derive(Debug)]
pub struct DialectResult<N> {
    /// What the comments say.
    pub metadata: SlicerMetadata<N>,
    /// `I004` for a detected dialect, `W005` for each missing field.
    pub diagnostics: Vec<Diagnostic>,
}

// ── Signatures ────────────────────────────────────────────────────────────────

/// The text in small letters, as `str::to_lowercase` gives it.
pub uninterp spec fn lowercase(text: Seq<char>) -> Seq<char>;

/// `str::to_lowercase`: the text in small letters, by the rules of Unicode.
///
/// Of ASCII text it is the text with its capitals as small letters; of other
/// text nothing is said but that the result depends on the text alone.
#[verifier::external_body]
fn to_lowercase(text: &str) -> (result: String)
    ensures
        result@ == lowercase(text@),
        vstd::utf8::is_ascii_chars(text@) ==> result@ == lower_of(text@),
{
    text.to_lowercase()
}

/// How many characters `s` has before its first white space.
pub open spec fn token_len(s: Seq<char>) -> int
    decreases s.len(),
{
    if s.len() > 0 && !is_whitespace(s[0]) {
        1 + token_len(s.drop_first())
    } else {
        0
    }
}

/// The first token behind the keyword, if the text holds the keyword and a token behind it.
pub open spec fn version_after(text: Seq<char>, keyword: Seq<char>) -> Option<Seq<char>> {
    match first_from(text, keyword, 0) {
        Some(at) => {
            let rest = trim_start_of(text.skip(at + keyword.len()));
            if token_len(rest) == 0 {
                None
            } else {
                Some(rest.take(token_len(rest)))
            }
        },
        None => None,
    }
}

/// A dialect and a version that a comment names.
#[verifier::ext_equal]
pub struct SignatureModel {
    pub dialect: SlicerDialect,
    pub version: Option<Seq<char>>,
}

/// The signature in a comment, of which `lower` is the text in small letters.
pub open spec fn signature_in(text: Seq<char>, lower: Seq<char>) -> Option<SignatureModel> {
    if has_text(lower, "generated by orcaslicer"@) {
        Some(
            SignatureModel {
                dialect: SlicerDialect::OrcaSlicer,
                version: version_after(text, "OrcaSlicer"@),
            },
        )
    } else if has_text(lower, "generated by prusaslicer"@) {
        Some(
            SignatureModel {
                dialect: SlicerDialect::PrusaSlicer,
                version: version_after(text, "PrusaSlicer"@),
            },
        )
    } else if has_text(lower, "flavor:"@) || has_text(lower, "generated with cura"@) {
        Some(
            SignatureModel {
                dialect: SlicerDialect::Cura,
                version: if has_text(lower, "generated with cura"@) {
                    version_after(text, "Cura_SteamEngine"@)
                } else {
                    None
                },
            },
        )
    } else {
        None
    }
}

/// A dialect and a version that a comment names.
#[derive(Debug, PartialEq)]
pub struct Signature {
    /// The dialect.
    pub dialect: SlicerDialect,
    /// The version of the slicer.
    pub version: Option<String>,
}

impl View for Signature {
    type V = SignatureModel;

    open spec fn view(&self) -> SignatureModel {
        SignatureModel { dialect: self.dialect, version: optional_text(self.version) }
    }
}

/// The lesser of two numbers.
pub open spec fn at_most(n: int, limit: int) -> int {
    if n <= limit {
        n
    } else {
        limit
    }
}

/// The first signature from command `i` on, among the first 100 commands, with its line.
pub open spec fn signature_from<N>(p: Seq<Spanned<Command<N>>>, i: int) -> Option<
    (SignatureModel, u32),
>
    decreases p.len() - i,
{
    if i >= p.len() || i >= 100 {
        None
    } else {
        match p[i].inner {
            Command::Comment { text } => match signature_in(text, lowercase(text)) {
                Some(signature) => Some((signature, p[i].line)),
                None => signature_from(p, i + 1),
            },
            _ => signature_from(p, i + 1),
        }
    }
}

/// The first signature from command `i` on, among the first 100 commands, with its
/// line, where the comments are in ASCII.
pub open spec fn ascii_signature_from<N>(p: Seq<Spanned<Command<N>>>, i: int) -> Option<
    (SignatureModel, u32),
>
    decreases p.len() - i,
{
    if i >= p.len() || i >= 100 {
        None
    } else {
        match p[i].inner {
            Command::Comment { text } => match signature_in(text, lower_of(text)) {
                Some(signature) => Some((signature, p[i].line)),
                None => ascii_signature_from(p, i + 1),
            },
            _ => ascii_signature_from(p, i + 1),
        }
    }
}

/// Whether the comments from command `i` on, among the first 100 commands, are in
/// ASCII up to the first signature.
pub open spec fn is_ascii_header<N>(p: Seq<Spanned<Command<N>>>, i: int) -> bool
    decreases p.len() - i,
{
    if i >= p.len() || i >= 100 {
        true
    } else {
        match p[i].inner {
            Command::Comment { text } => vstd::utf8::is_ascii_chars(text) && (signature_in(
                text,
                lower_of(text),
            ) is Some || is_ascii_header(p, i + 1)),
            _ => is_ascii_header(p, i + 1),
        }
    }
}

proof fn lemma_token_len(s: Seq<char>, k: int)
    requires
        0 <= k <= s.len(),
        forall|j: int| 0 <= j < k ==> !is_whitespace(#[trigger] s[j]),
        k < s.len() ==> is_whitespace(s[k]),
    ensures
        token_len(s) == k,
    decreases k,
{
    if k > 0 {
        assert(!is_whitespace(s[0]));
        lemma_token_len(s.drop_first(), k - 1);
    }
}

/// The first token behind the keyword, if the text holds the keyword and a token behind it.
pub fn extract_version_after(text: &str, keyword: &str) -> (result: Option<String>)
    ensures
        optional_text(result) == version_after(text@, keyword@),
{
    let chars = chars_of(text);
    let word = chars_of(keyword);
    let at: usize = match find(&chars, &word) {
        Some(at) => at,
        None => {
            return None;
        },
    };
    proof {
        lemma_found_fits(text@, keyword@, 0);
        assert(first_from(text@, keyword@, 0) == Some(at as int));
        assert(at + word.len() <= chars.len());
    }
    let after = slice(text, at + word.len(), chars.len());
    let rest = trim_start(after);
    let tail = chars_of(rest);
    let mut n: usize = 0;
    while n < tail.len() && !whitespace(tail[n])
        invariant
            n <= tail.len(),
            forall|j: int| 0 <= j < n ==> !is_whitespace(#[trigger] tail@[j]),
        decreases tail.len() - n,
    {
        n = n + 1;
    }
    proof {
        lemma_token_len(rest@, n as int);
        assert(rest@.subrange(0, n as int) =~= rest@.take(n as int));
    }
    if n == 0 {
        None
    } else {
        Some(owned(slice(rest, 0, n)))
    }
}

proof fn lemma_found_fits(s: Seq<char>, pattern: Seq<char>, from: int)
    requires
        0 <= from,
    ensures
        first_from(s, pattern, from) matches Some(at) ==> 0 <= at && at + pattern.len() <= s.len(),
    decreases s.len() + 1 - from,
{
    if from <= s.len() {
        lemma_found_fits(s, pattern, from + 1);
    }
}

/// The signature in a comment, of which `lower` is the text in small letters.
pub fn comment_signature(text: &str, lower: &str) -> (result: Option<Signature>)
    ensures
        match result {
            Some(signature) => signature_in(text@, lower@) == Some(signature@),
            None => signature_in(text@, lower@) is None,
        },
{
    if contains(lower, "generated by orcaslicer") {
        Some(
            Signature {
                dialect: SlicerDialect::OrcaSlicer,
                version: extract_version_after(text, "OrcaSlicer"),
            },
        )
    } else if contains(lower, "generated by prusaslicer") {
        Some(
            Signature {
                dialect: SlicerDialect::PrusaSlicer,
                version: extract_version_after(text, "PrusaSlicer"),
            },
        )
    } else {
        let by_cura = contains(lower, "generated with cura");
        if by_cura {
            Some(
                Signature {
                    dialect: SlicerDialect::Cura,
                    version: extract_version_after(text, "Cura_SteamEngine"),
                },
            )
        } else if contains(lower, "flavor:") {
            Some(Signature { dialect: SlicerDialect::Cura, version: None })
        } else {
            None
        }
    }
}

fn find_signature<N>(commands: &[Spanned<GCodeCommand<'_, N>>]) -> (result: Option<
    (Signature, u32),
>)
    ensures
        match result {
            Some((signature, line)) => signature_from(program(commands@), 0) == Some(
                (signature@, line),
            ),
            None => signature_from(program(commands@), 0) is None,
        },
        is_ascii_header(program(commands@), 0) ==> signature_from(program(commands@), 0)
            == ascii_signature_from(program(commands@), 0),
{
    let ghost p = program(commands@);
    let mut i: usize = 0;
    while i < commands.len() && i < 100
        invariant
            i <= commands.len(),
            i <= 100,
            p == program(commands@),
            signature_from(p, 0) == signature_from(p, i as int),
            is_ascii_header(p, 0) ==> is_ascii_header(p, i as int) && ascii_signature_from(p, 0)
                == ascii_signature_from(p, i as int),
        decreases commands.len() - i,
    {
        proof {
            assert(p[i as int] == commands@[i as int]@);
        }
        if let GCodeCommand::Comment { text } = &commands[i].inner {
            let comment = cow_text(text);
            let lower = to_lowercase(comment);
            if let Some(signature) = comment_signature(comment, lower.as_str()) {
                return Some((signature, commands[i].line));
            }
        }
        i = i + 1;
    }
    None
}

// ── Heuristics ────────────────────────────────────────────────────────────────

/// How many commands are typical of which slicer.
#[verifier::ext_equal]
pub struct Signals {
    /// Progress markers with remaining time, and `TYPE:` comments.
    pub orca_prusa: nat,
    /// Linear advance (M900).
    pub prusa: nat,
    /// Progress markers with percentages only.
    pub cura: nat,
}

/// The signals with those of one more command.
pub open spec fn with_signal<N>(s: Signals, command: Command<N>) -> Signals {
    match command {
        Command::MetaCommand { code, params } => if code == 73 {
            if params.contains('R') {
                Signals { orca_prusa: s.orca_prusa + 1, ..s }
            } else if params.contains('P') {
                Signals { cura: s.cura + 1, ..s }
            } else {
                s
            }
        } else if code == 900 {
            Signals { prusa: s.prusa + 1, ..s }
        } else {
            s
        },
        Command::Comment { text } => if has_prefix(text, "TYPE:"@) {
            Signals { orca_prusa: s.orca_prusa + 1, ..s }
        } else {
            s
        },
        _ => s,
    }
}

/// The signals of the first `n` commands.
pub open spec fn signals<N>(p: Seq<Spanned<Command<N>>>, n: int) -> Signals
    decreases n,
{
    if n <= 0 {
        Signals { orca_prusa: 0, prusa: 0, cura: 0 }
    } else {
        with_signal(signals(p, n - 1), p[n - 1].inner)
    }
}

/// One sign gives low confidence, more give medium.
pub open spec fn confidence_of(count: nat) -> Confidence {
    if count >= 2 {
        Confidence::Medium
    } else {
        Confidence::Low
    }
}

/// The dialect that the signals speak for, and how sure it is.
pub open spec fn judged(s: Signals) -> (SlicerDialect, Confidence) {
    let both = s.orca_prusa + s.prusa;
    if both + s.cura == 0 {
        (SlicerDialect::Unknown, Confidence::Absent)
    } else if s.cura > both {
        (SlicerDialect::Cura, confidence_of(s.cura))
    } else if s.prusa > 0 {
        (SlicerDialect::PrusaSlicer, confidence_of(both))
    } else {
        (SlicerDialect::OrcaSlicer, confidence_of(s.orca_prusa))
    }
}

fn has_char(text: &str, c: char) -> (result: bool)
    ensures
        result == text@.contains(c),
{
    let chars = chars_of(text);
    let mut i: usize = 0;
    while i < chars.len()
        invariant
            i <= chars.len(),
            chars@ == text@,
            forall|j: int| 0 <= j < i ==> chars[j] != c,
        decreases chars.len() - i,
    {
        if chars[i] == c {
            proof {
                assert(text@[i as int] == c);
            }
            return true;
        }
        i = i + 1;
    }
    false
}

fn level(count: usize) -> (result: Confidence)
    ensures
        result == confidence_of(count as nat),
{
    if count >= 2 {
        Confidence::Medium
    } else {
        Confidence::Low
    }
}

/// The dialect that typical commands speak for, and how sure it is.
pub fn heuristic_detection<N>(commands: &[Spanned<GCodeCommand<'_, N>>]) -> (result: (
    SlicerDialect,
    Confidence,
))
    ensures
        result == judged(signals(program(commands@), commands.len() as int)),
{
    let ghost p = program(commands@);
    let mut orca_prusa: usize = 0;
    let mut prusa: usize = 0;
    let mut cura: usize = 0;
    let mut i: usize = 0;
    while i < commands.len()
        invariant
            i <= commands.len(),
            p == program(commands@),
            orca_prusa + prusa + cura <= i,
            signals(p, i as int) == (Signals {
                orca_prusa: orca_prusa as nat,
                prusa: prusa as nat,
                cura: cura as nat,
            }),
        decreases commands.len() - i,
    {
        proof {
            assert(p[i as int] == commands@[i as int]@);
        }
        match &commands[i].inner {
            GCodeCommand::MetaCommand { code, params } => {
                let text = cow_text(params);
                if *code == 73 {
                    if has_char(text, 'R') {
                        orca_prusa = orca_prusa + 1;
                    } else if has_char(text, 'P') {
                        cura = cura + 1;
                    }
                } else if *code == 900 {
                    prusa = prusa + 1;
                }
            },
            GCodeCommand::Comment { text } => {
                if starts_with(cow_text(text), "TYPE:") {
                    orca_prusa = orca_prusa + 1;
                }
            },
            _ => {},
        }
        i = i + 1;
    }
    let both: usize = orca_prusa + prusa;
    if both == 0 && cura == 0 {
        (SlicerDialect::Unknown, Confidence::Absent)
    } else if cura > both {
        (SlicerDialect::Cura, level(cura))
    } else if prusa > 0 {
        (SlicerDialect::PrusaSlicer, level(both))
    } else {
        (SlicerDialect::OrcaSlicer, level(orca_prusa))
    }
}

// ── Metadata ──────────────────────────────────────────────────────────────────

/// The seconds added up, and the digits that wait for their unit.
#[verifier::ext_equal]
pub struct TimeScan<N> {
    pub seconds: N,
    pub digits: Seq<char>,
}

/// The scan after one more character; `None` where the digits are no number.
pub open spec fn time_step<N: Scalar>(s: TimeScan<N>, c: char) -> Option<TimeScan<N>> {
    if is_digit(c) {
        Some(TimeScan { digits: s.digits.push(c), ..s })
    } else if s.digits.len() == 0 {
        Some(s)
    } else {
        match N::parse_spec(s.digits) {
            Some(n) => Some(
                TimeScan {
                    seconds: if c == 'h' {
                        s.seconds.plus_spec(n.times_spec(N::of_spec(3_600)))
                    } else if c == 'm' {
                        s.seconds.plus_spec(n.times_spec(N::of_spec(60)))
                    } else if c == 's' {
                        s.seconds.plus_spec(n)
                    } else {
                        s.seconds
                    },
                    digits: Seq::empty(),
                },
            ),
            None => None,
        }
    }
}

/// The scan of the first `n` characters.
pub open spec fn time_scan<N: Scalar>(text: Seq<char>, n: int) -> Option<TimeScan<N>>
    decreases n,
{
    if n <= 0 {
        Some(TimeScan { seconds: zero_spec(), digits: Seq::empty() })
    } else {
        match time_scan(text, n - 1) {
            Some(s) => time_step(s, text[n - 1]),
            None => None,
        }
    }
}

/// The seconds that a text such as `2h 26m 25s` amounts to, if they are more than none.
pub open spec fn seconds_in<N: Scalar>(text: Seq<char>) -> Option<N> {
    match time_scan::<N>(text, text.len() as int) {
        Some(s) => if zero_spec::<N>().less_spec(s.seconds) {
            Some(s.seconds)
        } else {
            None
        },
        None => None,
    }
}

/// The text before the first `=`, and the text behind it.
pub open spec fn key_value(s: Seq<char>) -> Option<(Seq<char>, Seq<char>)> {
    let at = index_of_char(s, '=');
    if at < s.len() {
        Some((trim_of(s.take(at)), trim_of(s.skip(at + 1))))
    } else {
        None
    }
}

/// The metadata with what a comment of `OrcaSlicer` or `PrusaSlicer` says: `key = value`.
pub open spec fn with_orca_field<N: Scalar>(m: SlicerModel<N>, text: Seq<char>) -> SlicerModel<N> {
    let s = trim_of(text);
    match key_value(s) {
        Some((key, value)) => {
            let keyed = if key == "nozzle_diameter"@ {
                SlicerModel { nozzle_diameter_mm: N::parse_spec(value), ..m }
            } else if key == "layer_height"@ {
                SlicerModel { layer_height_mm: N::parse_spec(value), ..m }
            } else if key == "filament_type"@ {
                SlicerModel { filament_type: Some(value), ..m }
            } else if key == "first_layer_bed_temperature"@ {
                SlicerModel { bed_temperature: N::parse_spec(value), ..m }
            } else if key == "nozzle_temperature"@ {
                SlicerModel { hotend_temperature: N::parse_spec(value), ..m }
            } else {
                m
            };
            if has_prefix(s, "estimated printing time"@) {
                SlicerModel { estimated_time_seconds: seconds_in(value), ..keyed }
            } else {
                keyed
            }
        },
        None => m,
    }
}

/// What follows the prefix, without white space at the ends, where `s` begins with it.
pub open spec fn behind(s: Seq<char>, prefix: Seq<char>) -> Seq<char> {
    trim_of(s.skip(prefix.len() as int))
}

/// The metadata with what a comment of Cura says: `Key:value`.
pub open spec fn with_cura_field<N: Scalar>(m: SlicerModel<N>, text: Seq<char>) -> SlicerModel<N> {
    let s = trim_of(text);
    if has_prefix(s, "Nozzle size:"@) {
        SlicerModel { nozzle_diameter_mm: N::parse_spec(behind(s, "Nozzle size:"@)), ..m }
    } else if has_prefix(s, "Layer height:"@) {
        SlicerModel { layer_height_mm: N::parse_spec(behind(s, "Layer height:"@)), ..m }
    } else if has_prefix(s, "PRINT.TIME:"@) {
        SlicerModel { estimated_time_seconds: N::parse_spec(behind(s, "PRINT.TIME:"@)), ..m }
    } else if has_prefix(s, "Filament type:"@) {
        SlicerModel { filament_type: Some(behind(s, "Filament type:"@)), ..m }
    } else if has_prefix(s, "BUILD_PLATE.INITIAL_TEMPERATURE:"@) {
        SlicerModel {
            bed_temperature: N::parse_spec(behind(s, "BUILD_PLATE.INITIAL_TEMPERATURE:"@)),
            ..m
        }
    } else if has_prefix(s, "EXTRUDER.INITIAL_TEMPERATURE:"@) {
        SlicerModel {
            hotend_temperature: N::parse_spec(behind(s, "EXTRUDER.INITIAL_TEMPERATURE:"@)),
            ..m
        }
    } else {
        m
    }
}

/// The metadata with what the comments from `from` up to `to` say.
pub open spec fn with_comments<N: Scalar>(
    m: SlicerModel<N>,
    p: Seq<Spanned<Command<N>>>,
    cura: bool,
    from: int,
    to: int,
) -> SlicerModel<N>
    decreases to - from,
{
    if to <= from {
        m
    } else {
        let before = with_comments(m, p, cura, from, to - 1);
        match p[to - 1].inner {
            Command::Comment { text } => if cura {
                with_cura_field(before, text)
            } else {
                with_orca_field(before, text)
            },
            _ => before,
        }
    }
}

/// Whether the command is a comment that opens a configuration block.
pub open spec fn opens_config<N>(command: Command<N>) -> bool {
    command matches Command::Comment { text } && has_text(text, "CONFIG_BLOCK_START"@)
}

/// The last of the first `n` commands that opens a configuration block.
pub open spec fn last_config<N>(p: Seq<Spanned<Command<N>>>, n: int) -> Option<int>
    decreases n,
{
    if n <= 0 {
        None
    } else if opens_config(p[n - 1].inner) {
        Some(n - 1)
    } else {
        last_config(p, n - 1)
    }
}

/// Where the configuration comments begin: ten commands before the block, or a
/// thousand before the end where there is no block.
pub open spec fn config_start<N>(p: Seq<Spanned<Command<N>>>) -> int {
    let from = match last_config(p, p.len() as int) {
        Some(i) => i - 10,
        None => p.len() - 1_000,
    };
    if from < 0 {
        0
    } else {
        from
    }
}

/// The metadata with what the comments of the dialect say.
pub open spec fn with_metadata<N: Scalar>(
    m: SlicerModel<N>,
    p: Seq<Spanned<Command<N>>>,
    dialect: SlicerDialect,
) -> SlicerModel<N> {
    match dialect {
        SlicerDialect::OrcaSlicer | SlicerDialect::PrusaSlicer => with_comments(
            m,
            p,
            false,
            config_start(p),
            p.len() as int,
        ),
        SlicerDialect::Cura => with_comments(m, p, true, 0, at_most(p.len() as int, 100)),
        SlicerDialect::Unknown => m,
    }
}

fn parse_time_estimate<N: Scalar>(text: &str) -> (result: Option<N>)
    ensures
        result == seconds_in::<N>(text@),
{
    let chars = chars_of(text);
    let mut total: N = zero();
    let mut digits = String::new();
    let mut i: usize = 0;
    while i < chars.len()
        invariant
            i <= chars.len(),
            chars@ == text@,
            time_scan::<N>(text@, i as int) == Some(TimeScan { seconds: total, digits: digits@ }),
        decreases chars.len() - i,
    {
        let c = chars[i];
        proof {
            assert(time_scan::<N>(text@, i + 1) == time_step(
                TimeScan { seconds: total, digits: digits@ },
                c,
            ));
        }
        if digit(c) {
            digits.push(c);
        } else if !digits.as_str().is_empty() {
            match N::parse(digits.as_str()) {
                Some(n) => {
                    if c == 'h' {
                        total = total.plus(n.times(N::of(3_600)));
                    } else if c == 'm' {
                        total = total.plus(n.times(N::of(60)));
                    } else if c == 's' {
                        total = total.plus(n);
                    }
                    digits = String::new();
                },
                None => {
                    proof {
                        lemma_time_fails::<N>(text@, i + 1, text@.len() as int);
                    }
                    return None;
                },
            }
        }
        i = i + 1;
    }
    if zero::<N>().less(total) {
        Some(total)
    } else {
        None
    }
}

proof fn lemma_time_fails<N: Scalar>(text: Seq<char>, n: int, m: int)
    requires
        0 < n <= m,
        time_scan::<N>(text, n) is None,
    ensures
        time_scan::<N>(text, m) is None,
    decreases m,
{
    if n < m {
        lemma_time_fails::<N>(text, n, m - 1);
    }
}

fn split_key_value<'a>(s: &'a str) -> (result: Option<(&'a str, &'a str)>)
    ensures
        match result {
            Some((key, value)) => key_value(s@) == Some((key@, value@)),
            None => key_value(s@) is None,
        },
{
    let chars = chars_of(s);
    let at: usize = find_char(&chars, '=');
    if at == chars.len() {
        return None;
    }
    let key = slice(s, 0, at);
    let value = slice(s, at + 1, chars.len());
    proof {
        assert(key@ =~= s@.take(at as int));
        assert(value@ =~= s@.skip(at + 1));
    }
    Some((trim(key), trim(value)))
}

fn extract_orca_prusa_field<N: Scalar>(text: &str, metadata: &mut SlicerMetadata<N>)
    ensures
        final(metadata)@ == with_orca_field(old(metadata)@, text@),
{
    let s = trim(text);
    if let Some((key, value)) = split_key_value(s) {
        if same_text(key, "nozzle_diameter") {
            metadata.nozzle_diameter_mm = N::parse(value);
        } else if same_text(key, "layer_height") {
            metadata.layer_height_mm = N::parse(value);
        } else if same_text(key, "filament_type") {
            metadata.filament_type = Some(owned(value));
        } else if same_text(key, "first_layer_bed_temperature") {
            metadata.bed_temperature = N::parse(value);
        } else if same_text(key, "nozzle_temperature") {
            metadata.hotend_temperature = N::parse(value);
        }
        if starts_with(s, "estimated printing time") {
            metadata.estimated_time_seconds = parse_time_estimate(value);
        }
    }
}

fn extract_cura_field<N: Scalar>(text: &str, metadata: &mut SlicerMetadata<N>)
    ensures
        final(metadata)@ == with_cura_field(old(metadata)@, text@),
{
    let s = trim(text);
    if let Some(value) = strip_prefix(s, "Nozzle size:") {
        metadata.nozzle_diameter_mm = N::parse(trim(value));
    } else if let Some(value) = strip_prefix(s, "Layer height:") {
        metadata.layer_height_mm = N::parse(trim(value));
    } else if let Some(value) = strip_prefix(s, "PRINT.TIME:") {
        metadata.estimated_time_seconds = N::parse(trim(value));
    } else if let Some(value) = strip_prefix(s, "Filament type:") {
        metadata.filament_type = Some(owned(trim(value)));
    } else if let Some(value) = strip_prefix(s, "BUILD_PLATE.INITIAL_TEMPERATURE:") {
        metadata.bed_temperature = N::parse(trim(value));
    } else if let Some(value) = strip_prefix(s, "EXTRUDER.INITIAL_TEMPERATURE:") {
        metadata.hotend_temperature = N::parse(trim(value));
    }
}

fn extract_from<N: Scalar>(
    commands: &[Spanned<GCodeCommand<'_, N>>],
    cura: bool,
    from: usize,
    to: usize,
    metadata: &mut SlicerMetadata<N>,
)
    requires
        from <= to <= commands.len(),
    ensures
        final(metadata)@ == with_comments(
            old(metadata)@,
            program(commands@),
            cura,
            from as int,
            to as int,
        ),
{
    let ghost p = program(commands@);
    let mut i: usize = from;
    while i < to
        invariant
            from <= i <= to <= commands.len(),
            p == program(commands@),
            metadata@ == with_comments(old(metadata)@, p, cura, from as int, i as int),
        decreases to - i,
    {
        proof {
            assert(p[i as int] == commands@[i as int]@);
        }
        if let GCodeCommand::Comment { text } = &commands[i].inner {
            if cura {
                extract_cura_field(cow_text(text), metadata);
            } else {
                extract_orca_prusa_field(cow_text(text), metadata);
            }
        }
        i = i + 1;
    }
}

fn find_config_start<N>(commands: &[Spanned<GCodeCommand<'_, N>>]) -> (result: usize)
    ensures
        result == config_start(program(commands@)),
        result <= commands.len(),
{
    let ghost p = program(commands@);
    let mut n: usize = commands.len();
    while n > 0
        invariant
            n <= commands.len(),
            p == program(commands@),
            last_config(p, p.len() as int) == last_config(p, n as int),
        decreases n,
    {
        proof {
            assert(p[n - 1] == commands@[n - 1]@);
        }
        if let GCodeCommand::Comment { text } = &commands[n - 1].inner {
            if contains(cow_text(text), "CONFIG_BLOCK_START") {
                return if n - 1 >= 10 {
                    n - 11
                } else {
                    0
                };
            }
        }
        n = n - 1;
    }
    if commands.len() >= 1_000 {
        commands.len() - 1_000
    } else {
        0
    }
}

fn extract_metadata<N: Scalar>(
    commands: &[Spanned<GCodeCommand<'_, N>>],
    dialect: SlicerDialect,
    metadata: &mut SlicerMetadata<N>,
)
    ensures
        final(metadata)@ == with_metadata(old(metadata)@, program(commands@), dialect),
{
    match dialect {
        SlicerDialect::OrcaSlicer | SlicerDialect::PrusaSlicer => {
            let start: usize = find_config_start(commands);
            extract_from(commands, false, start, commands.len(), metadata);
        },
        SlicerDialect::Cura => {
            let end: usize = if commands.len() <= 100 {
                commands.len()
            } else {
                100
            };
            extract_from(commands, true, 0, end, metadata);
        },
        SlicerDialect::Unknown => {},
    }
}

// ── Missing fields ────────────────────────────────────────────────────────────

/// Whether the metadata have the field of the given name.
pub open spec fn has_field<N>(m: SlicerModel<N>, field: Seq<char>) -> bool {
    if field == "nozzle_diameter_mm"@ {
        m.nozzle_diameter_mm is Some
    } else if field == "layer_height_mm"@ {
        m.layer_height_mm is Some
    } else if field == "filament_type"@ {
        m.filament_type is Some
    } else if field == "first_layer_bed_temperature"@ || field == "bed_temperature"@ {
        m.bed_temperature is Some
    } else if field == "hotend_temperature"@ {
        m.hotend_temperature is Some
    } else if field == "estimated_time_seconds"@ || field == "print_time"@ {
        m.estimated_time_seconds is Some
    } else {
        true
    }
}

/// The warning about a missing field.
pub open spec fn missing_warning(field: Seq<char>) -> Finding {
    Finding {
        severity: Severity::Warning,
        line: 0,
        code: "W005"@,
        message: "expected metadata field missing: "@ + field,
    }
}

/// The warnings about those of the first `n` fields that the metadata lack.
pub open spec fn missing_warnings<N>(
    m: SlicerModel<N>,
    fields: Seq<Seq<char>>,
    n: int,
) -> Seq<Finding>
    decreases n,
{
    if n <= 0 {
        Seq::empty()
    } else if has_field(m, fields[n - 1]) {
        missing_warnings(m, fields, n - 1)
    } else {
        missing_warnings(m, fields, n - 1).push(missing_warning(fields[n - 1]))
    }
}

fn is_present<N>(metadata: &SlicerMetadata<N>, field: &str) -> (result: bool)
    ensures
        result == has_field(metadata@, field@),
{
    if same_text(field, "nozzle_diameter_mm") {
        metadata.nozzle_diameter_mm.is_some()
    } else if same_text(field, "layer_height_mm") {
        metadata.layer_height_mm.is_some()
    } else if same_text(field, "filament_type") {
        metadata.filament_type.is_some()
    } else if same_text(field, "first_layer_bed_temperature") || same_text(
        field,
        "bed_temperature",
    ) {
        metadata.bed_temperature.is_some()
    } else if same_text(field, "hotend_temperature") {
        metadata.hotend_temperature.is_some()
    } else if same_text(field, "estimated_time_seconds") || same_text(field, "print_time") {
        metadata.estimated_time_seconds.is_some()
    } else {
        true
    }
}

fn warn_about_missing<N>(
    metadata: &SlicerMetadata<N>,
    dialect: SlicerDialect,
    diagnostics: &mut Vec<Diagnostic>,
)
    ensures
        findings(final(diagnostics)@) == findings(old(diagnostics)@) + missing_warnings(
            metadata@,
            dialect.fields_spec(),
            dialect.fields_spec().len() as int,
        ),
{
    let fields = dialect.expected_fields();
    let ghost names = fields@.map_values(|f: &'static str| f@);
    let ghost before = findings(diagnostics@);
    let mut i: usize = 0;
    proof {
        assert(findings(diagnostics@) =~= before + missing_warnings(metadata@, names, 0));
    }
    while i < fields.len()
        invariant
            i <= fields.len(),
            names == fields@.map_values(|f: &'static str| f@),
            findings(diagnostics@) == before + missing_warnings(metadata@, names, i as int),
        decreases fields.len() - i,
    {
        let ghost held = findings(diagnostics@);
        proof {
            assert(names[i as int] == fields[i as int]@);
        }
        if !is_present(metadata, fields[i]) {
            let mut message = String::new();
            push_text(&mut message, "expected metadata field missing: ");
            push_text(&mut message, fields[i]);
            let warning = Diagnostic {
                severity: Severity::Warning,
                line: 0,
                code: "W005",
                message,
            };
            diagnostics.push(warning);
            proof {
                assert(warning@ == missing_warning(names[i as int]));
                assert(findings(diagnostics@) =~= held.push(warning@));
            }
        }
        i = i + 1;
        proof {
            assert(findings(diagnostics@) =~= before + missing_warnings(
                metadata@,
                names,
                i as int,
            ));
        }
    }
}

// ── Detection ─────────────────────────────────────────────────────────────────

/// The dialect, how sure it is, its version, and the line of its signature.
#[verifier::ext_equal]
pub struct Verdict {
    pub dialect: SlicerDialect,
    pub confidence: Confidence,
    pub version: Option<Seq<char>>,
    pub line: u32,
}

/// The dialect of the program: the given one, or that of the first signature,
/// or what typical commands speak for.
pub open spec fn verdict<N>(
    p: Seq<Spanned<Command<N>>>,
    given: Option<SlicerDialect>,
) -> Verdict {
    verdict_by(p, given, signature_from(p, 0))
}

/// The dialect of the program, where `signature` is its first signature.
pub open spec fn verdict_by<N>(
    p: Seq<Spanned<Command<N>>>,
    given: Option<SlicerDialect>,
    signature: Option<(SignatureModel, u32)>,
) -> Verdict {
    match given {
        Some(dialect) => Verdict {
            dialect,
            confidence: Confidence::High,
            version: None,
            line: 0,
        },
        None => match signature {
            Some((signature, line)) => Verdict {
                dialect: signature.dialect,
                confidence: Confidence::High,
                version: signature.version,
                line,
            },
            None => {
                let (dialect, confidence) = judged(signals(p, p.len() as int));
                Verdict { dialect, confidence, version: None, line: 0 }
            },
        },
    }
}

/// The metadata of the program under a verdict.
pub open spec fn metadata_for<N: Scalar>(
    p: Seq<Spanned<Command<N>>>,
    v: Verdict,
) -> SlicerModel<N> {
    with_metadata(
        SlicerModel {
            dialect: v.dialect,
            confidence: v.confidence,
            slicer_version: v.version,
            ..SlicerModel::unknown()
        },
        p,
        v.dialect,
    )
}

/// The note on a detected dialect.
pub open spec fn dialect_note(v: Verdict) -> Finding {
    Finding {
        severity: Severity::Info,
        line: v.line,
        code: "I004"@,
        message: "slicer dialect detected: "@ + v.dialect.text_spec() + " (confidence: "@
            + v.confidence.text_spec() + ")"@,
    }
}

/// What the detection finds: the dialect and, unless a caller chose it, the missing fields.
pub open spec fn dialect_findings<N: Scalar>(
    p: Seq<Spanned<Command<N>>>,
    v: Verdict,
    given: bool,
) -> Seq<Finding> {
    if v.dialect == SlicerDialect::Unknown {
        Seq::empty()
    } else if given {
        seq![dialect_note(v)]
    } else {
        seq![dialect_note(v)] + missing_warnings(
            metadata_for(p, v),
            v.dialect.fields_spec(),
            v.dialect.fields_spec().len() as int,
        )
    }
}

/// Detects the slicer of a program, and collects what its comments say.
///
/// A dialect that is given is taken as it is, and missing fields are not
/// reported then.  Signatures are found in any case; of comments in ASCII the
/// contract says which these are.
pub fn detect_dialect<N: Scalar>(
    commands: &[Spanned<GCodeCommand<'_, N>>],
    dialect_override: Option<SlicerDialect>,
) -> (result: DialectResult<N>)
    ensures
        result.metadata@ == metadata_for(
            program(commands@),
            verdict(program(commands@), dialect_override),
        ),
        findings(result.diagnostics@) == dialect_findings(
            program(commands@),
            verdict(program(commands@), dialect_override),
            dialect_override is Some,
        ),
        is_ascii_header(program(commands@), 0) ==> {
            let p = program(commands@);
            let v = verdict_by(p, dialect_override, ascii_signature_from(p, 0));
            &&& result.metadata@ == metadata_for(p, v)
            &&& findings(result.diagnostics@) == dialect_findings(p, v, dialect_override is Some)
        },
{
    let ghost p = program(commands@);
    let mut metadata: SlicerMetadata<N> = SlicerMetadata::default();
    let mut line: u32 = 0;
    match dialect_override {
        Some(dialect) => {
            metadata.dialect = dialect;
            metadata.confidence = Confidence::High;
        },
        None => match find_signature(commands) {
            Some((signature, at)) => {
                metadata.dialect = signature.dialect;
                metadata.confidence = Confidence::High;
                metadata.slicer_version = signature.version;
                line = at;
            },
            None => {
                let (dialect, confidence) = heuristic_detection(commands);
                metadata.dialect = dialect;
                metadata.confidence = confidence;
            },
        },
    }
    let ghost v = verdict(p, dialect_override);
    let dialect = metadata.dialect;
    let confidence = metadata.confidence;
    extract_metadata(commands, dialect, &mut metadata);
    let mut diagnostics: Vec<Diagnostic> = Vec::new();
    proof {
        assert(findings(diagnostics@) =~= Seq::<Finding>::empty());
    }
    if dialect != SlicerDialect::Unknown {
        let mut message = String::new();
        push_text(&mut message, "slicer dialect detected: ");
        push_text(&mut message, dialect.to_text());
        push_text(&mut message, " (confidence: ");
        push_text(&mut message, confidence.to_text());
        push_text(&mut message, ")");
        let note = Diagnostic { severity: Severity::Info, line, code: "I004", message };
        diagnostics.push(note);
        proof {
            assert(note@ == dialect_note(v));
            assert(findings(diagnostics@) =~= seq![dialect_note(v)]);
        }
        if dialect_override.is_none() {
            warn_about_missing(&metadata, dialect, &mut diagnostics);
        }
    }
    DialectResult { metadata, diagnostics }
}

// ── Laws ──────────────────────────────────────────────────────────────────────

/// Without a given dialect, the dialect is unknown exactly where there is no
/// confidence in it.
pub proof fn lemma_unknown_without_confidence<N>(p: Seq<Spanned<Command<N>>>)
    ensures
        verdict(p, None).dialect == SlicerDialect::Unknown <==> verdict(p, None).confidence
            == Confidence::Absent,
        verdict(p, None).confidence == Confidence::High <==> signature_from(p, 0) is Some,
{
    lemma_signature_names_a_dialect(p, 0);
}

proof fn lemma_signature_names_a_dialect<N>(p: Seq<Spanned<Command<N>>>, i: int)
    ensures
        signature_from(p, i) matches Some((signature, _)) ==> signature.dialect
            != SlicerDialect::Unknown,
    decreases p.len() - i,
{
    if i < p.len() && i < 100 {
        lemma_signature_names_a_dialect(p, i + 1);
    }
}

/// A given dialect is taken as it is, with high confidence, and no missing field
/// is reported then.
pub proof fn lemma_given_dialect_wins<N: Scalar>(
    p: Seq<Spanned<Command<N>>>,
    dialect: SlicerDialect,
)
    ensures
        verdict(p, Some(dialect)).dialect == dialect,
        verdict(p, Some(dialect)).confidence == Confidence::High,
        dialect_findings(p, verdict(p, Some(dialect)), true) == if dialect
            == SlicerDialect::Unknown {
            Seq::<Finding>::empty()
        } else {
            seq![dialect_note(verdict(p, Some(dialect)))]
        },
{
}

proof fn lemma_comments_keep_the_dialect<N: Scalar>(
    m: SlicerModel<N>,
    p: Seq<Spanned<Command<N>>>,
    cura: bool,
    from: int,
    to: int,
)
    ensures
        with_comments(m, p, cura, from, to).dialect == m.dialect,
        with_comments(m, p, cura, from, to).confidence == m.confidence,
        with_comments(m, p, cura, from, to).slicer_version == m.slicer_version,
    decreases to - from,
{
    if from < to {
        lemma_comments_keep_the_dialect(m, p, cura, from, to - 1);
    }
}

/// The metadata state the dialect, the confidence and the version that were detected.
pub proof fn lemma_metadata_state_the_verdict<N: Scalar>(
    p: Seq<Spanned<Command<N>>>,
    v: Verdict,
)
    ensures
        metadata_for(p, v).dialect == v.dialect,
        metadata_for(p, v).confidence == v.confidence,
        metadata_for(p, v).slicer_version == v.version,
{
    let m = SlicerModel {
        dialect: v.dialect,
        confidence: v.confidence,
        slicer_version: v.version,
        ..SlicerModel::unknown()
    };
    lemma_comments_keep_the_dialect(m, p, false, config_start(p), p.len() as int);
    lemma_comments_keep_the_dialect(m, p, true, 0, at_most(p.len() as int, 100));
}

/// A program without any sign of a slicer is of unknown dialect, nothing is
/// known of how it was sliced, and nothing is reported.
pub proof fn lemma_no_signs_no_dialect<N: Scalar>(p: Seq<Spanned<Command<N>>>)
    requires
        signature_from(p, 0) is None,
        forall|i: int, s: Signals|
            0 <= i < p.len() ==> #[trigger] with_signal(s, p[i].inner) == s,
    ensures
        verdict(p, None).dialect == SlicerDialect::Unknown,
        verdict(p, None).confidence == Confidence::Absent,
        metadata_for(p, verdict(p, None)) == SlicerModel::<N>::unknown(),
        dialect_findings(p, verdict(p, None), false) == Seq::<Finding>::empty(),
{
    lemma_no_signals(p, p.len() as int);
}

proof fn lemma_no_signals<N>(p: Seq<Spanned<Command<N>>>, n: int)
    requires
        n <= p.len(),
        forall|i: int, s: Signals|
            0 <= i < p.len() ==> #[trigger] with_signal(s, p[i].inner) == s,
    ensures
        signals(p, n) == (Signals { orca_prusa: 0, prusa: 0, cura: 0 }),
    decreases n,
{
    if n > 0 {
        lemma_no_signals(p, n - 1);
        assert(with_signal(signals(p, n - 1), p[n - 1].inner) == signals(p, n - 1));
    }
}

} // verus!
