//! Built-in machine profiles.
//!
//! | Name          | Bed (X × Y) | Z   | Notes                   |
//! |---------------|-------------|-----|-------------------------|
//! | `ender3`      | 220 × 220   | 250 | Creality Ender-3 family |
//! | `prusa_mk4`   | 250 × 210   | 220 | Prusa MK4               |
//! | `voron_v2`    | 350 × 350   | 350 | Voron V2.4 (350 mm kit) |
//! | `bambu_x1c`   | 256 × 256   | 256 | Bambu Lab X1 Carbon     |
//! | `generic_300` | 300 × 300   | 400 | Generic 300 mm printer  |
//!
//! The profiles are held as TOML text, which the `toml` crate reads.

pub mod fields;
pub mod plain;

use vstd::prelude::*;

use crate::dialect::optional_text;
use crate::machine_profile::plain::{
    lemma_every_name_has_a_profile, lemma_profiles_are_plain, lemma_profiles_load,
    reads_all_numbers,
};
use crate::models::MachineLimits;
use crate::fixed::all_digits;
use crate::scalar::Scalar;
use crate::text::{is_digit, owned, push_text, same_text};

verus! {

// ── The registry ──────────────────────────────────────────────────────────────

pub const ENDER3: &'static str = "name = \"ender3\"
max_x_mm = 220.0
max_y_mm = 220.0
max_z_mm = 250.0
max_feedrate_mm_per_min = 500.0
nozzle_diameter_mm = 0.4
firmware = \"marlin\"
";

pub const PRUSA_MK4: &'static str = "name = \"prusa_mk4\"
max_x_mm = 250.0
max_y_mm = 210.0
max_z_mm = 220.0
max_feedrate_mm_per_min = 500.0
max_acceleration_mm_per_s2 = 1250.0
nozzle_diameter_mm = 0.4
firmware = \"prusa\"
";

pub const VORON_V2: &'static str = "name = \"voron_v2\"
max_x_mm = 350.0
max_y_mm = 350.0
max_z_mm = 350.0
max_feedrate_mm_per_min = 600.0
max_acceleration_mm_per_s2 = 3000.0
nozzle_diameter_mm = 0.4
firmware = \"klipper\"
";

pub const BAMBU_X1C: &'static str = "name = \"bambu_x1c\"
max_x_mm = 256.0
max_y_mm = 256.0
max_z_mm = 256.0
max_feedrate_mm_per_min = 1200.0
max_acceleration_mm_per_s2 = 20000.0
nozzle_diameter_mm = 0.4
firmware = \"bambu\"
";

pub const GENERIC_300: &'static str = "name = \"generic_300\"
max_x_mm = 300.0
max_y_mm = 300.0
max_z_mm = 400.0
";

/// The names of the built-in profiles, in order.
pub open spec fn profile_names() -> Seq<Seq<char>> {
    seq!["ender3"@, "prusa_mk4"@, "voron_v2"@, "bambu_x1c"@, "generic_300"@]
}

/// The TOML text of the built-in profile of the given name.
pub open spec fn profile_source(name: Seq<char>) -> Option<Seq<char>> {
    if name == "ender3"@ {
        Some(ENDER3@)
    } else if name == "prusa_mk4"@ {
        Some(PRUSA_MK4@)
    } else if name == "voron_v2"@ {
        Some(VORON_V2@)
    } else if name == "bambu_x1c"@ {
        Some(BAMBU_X1C@)
    } else if name == "generic_300"@ {
        Some(GENERIC_300@)
    } else {
        None
    }
}

/// The names of the built-in profiles, in order.
pub fn available_profiles() -> (result: Vec<&'static str>)
    ensures
        result@.map_values(|n: &'static str| n@) == profile_names(),
{
    let names: Vec<&'static str> = vec![
        "ender3",
        "prusa_mk4",
        "voron_v2",
        "bambu_x1c",
        "generic_300",
    ];
    proof {
        assert(names@.map_values(|n: &'static str| n@) =~= profile_names());
    }
    names
}

fn find_source(name: &str) -> (result: Option<(&'static str, &'static str)>)
    ensures
        match result {
            Some((key, source)) => key@ == name@ && profile_source(name@) == Some(source@),
            None => profile_source(name@) is None,
        },
{
    if same_text(name, "ender3") {
        Some(("ender3", ENDER3))
    } else if same_text(name, "prusa_mk4") {
        Some(("prusa_mk4", PRUSA_MK4))
    } else if same_text(name, "voron_v2") {
        Some(("voron_v2", VORON_V2))
    } else if same_text(name, "bambu_x1c") {
        Some(("bambu_x1c", BAMBU_X1C))
    } else if same_text(name, "generic_300") {
        Some(("generic_300", GENERIC_300))
    } else {
        None
    }
}

// ── Reading TOML ──────────────────────────────────────────────────────────────

/// The error of the `toml` crate for text that is no TOML.
#[verifier::external_type_specification]
#[verifier::external_body]
pub struct ExTomlError(toml::de::Error);

/// A value of a TOML table, as far as profiles need it.
#[derive(Debug, PartialEq)]
pub enum TomlValue {
    /// A string.
    Text(String),
    /// An integer or a float, in decimal notation.
    Number(String),
    /// Anything else.
    Other,
}

/// What a [`TomlValue`] says.
#[verifier::ext_equal]
pub enum TomlModel {
    Text(Seq<char>),
    Number(Seq<char>),
    Other,
}

impl View for TomlValue {
    type V = TomlModel;

    open spec fn view(&self) -> TomlModel {
        match *self {
            TomlValue::Text(text) => TomlModel::Text(text@),
            TomlValue::Number(text) => TomlModel::Number(text@),
            TomlValue::Other => TomlModel::Other,
        }
    }
}

/// What the entries of a TOML table say.
pub open spec fn entries_of(entries: Seq<(String, TomlValue)>) -> Seq<(Seq<char>, TomlModel)> {
    entries.map_values(|e: (String, TomlValue)| (e.0@, e.1@))
}

/// The value of the first entry from `i` on with the given key.
pub open spec fn entry_from(
    entries: Seq<(Seq<char>, TomlModel)>,
    key: Seq<char>,
    i: int,
) -> Option<TomlModel>
    decreases entries.len() - i,
{
    if i >= entries.len() {
        None
    } else if entries[i].0 == key {
        Some(entries[i].1)
    } else {
        entry_from(entries, key, i + 1)
    }
}

/// A value of a plain document: a string, or a decimal number.
pub enum PlainValue {
    Text(Seq<char>),
    Decimal { whole: Seq<char>, places: Seq<char> },
}

/// A line of a plain document: a key, a value, and a line feed.
pub open spec fn plain_line(key: Seq<char>, value: PlainValue) -> Seq<char> {
    key + " = "@ + (match value {
        PlainValue::Text(text) => "\""@ + text + "\""@,
        PlainValue::Decimal { whole, places } => whole + "."@ + places,
    }) + "\n"@
}

/// The document that consists of the given lines.
pub open spec fn plain_document(lines: Seq<(Seq<char>, PlainValue)>) -> Seq<char>
    decreases lines.len(),
{
    if lines.len() == 0 {
        Seq::empty()
    } else {
        plain_document(lines.drop_last()) + plain_line(lines.last().0, lines.last().1)
    }
}

/// Whether a key consists of small letters, digits and underscores, at least one.
pub open spec fn is_plain_key(key: Seq<char>) -> bool {
    key.len() > 0 && forall|i: int|
        0 <= i < key.len() ==> 'a' <= #[trigger] key[i] <= 'z' || is_digit(key[i]) || key[i] == '_'
}

/// Whether a string consists of printable ASCII characters, none of them a quote or a
/// backslash; whether a number has no superfluous zeros in front and few digits.
pub open spec fn is_plain_value(value: PlainValue) -> bool {
    match value {
        PlainValue::Text(text) => forall|i: int|
            0 <= i < text.len() ==> ' ' <= #[trigger] text[i] <= '~' && text[i] != '"' && text[i]
                != '\\',
        PlainValue::Decimal { whole, places } => {
            &&& all_digits(whole)
            &&& all_digits(places)
            &&& 1 <= whole.len() <= 9
            &&& 1 <= places.len() <= 6
            &&& whole[0] == '0' ==> whole.len() == 1
        },
    }
}

/// Whether lines make up a document without two lines of one key.
pub open spec fn is_plain(lines: Seq<(Seq<char>, PlainValue)>) -> bool {
    &&& forall|i: int|
        0 <= i < lines.len() ==> is_plain_key((#[trigger] lines[i]).0) && is_plain_value(lines[i].1)
    &&& forall|i: int, j: int|
        0 <= i < j < lines.len() ==> (#[trigger] lines[i]).0 != (#[trigger] lines[j]).0
}

/// Whether entries are what the lines say: for each line an entry with its string, or
/// with some number, and no others.
pub open spec fn says(
    entries: Seq<(Seq<char>, TomlModel)>,
    lines: Seq<(Seq<char>, PlainValue)>,
) -> bool {
    &&& forall|i: int|
        0 <= i < lines.len() ==> match (#[trigger] lines[i]).1 {
            PlainValue::Text(text) => entry_from(entries, lines[i].0, 0) == Some(
                TomlModel::Text(text),
            ),
            PlainValue::Decimal { .. } => entry_from(entries, lines[i].0, 0) matches Some(
                TomlModel::Number(_),
            ),
        }
    &&& forall|key: Seq<char>|
        (forall|i: int| 0 <= i < lines.len() ==> (#[trigger] lines[i]).0 != key)
            ==> #[trigger] entry_from(entries, key, 0) is None
}

/// Whether the entries of a text are those that it spells out, where it is a plain
/// document.
pub open spec fn is_read_plainly(
    text: Seq<char>,
    entries: Option<Seq<(Seq<char>, TomlModel)>>,
) -> bool {
    forall|lines: Seq<(Seq<char>, PlainValue)>|
        is_plain(lines) && text == #[trigger] plain_document(lines) ==> entries is Some && says(
            entries->0,
            lines,
        )
}

/// The entries of the TOML document `text`, by key; `None` where it is no TOML.
pub uninterp spec fn toml_document(text: Seq<char>) -> Option<Seq<(Seq<char>, TomlModel)>>;

/// `toml::from_str` into a `toml::Table`: the entries of the document at its
/// top level, in the order in which the table hands them out, numbers written
/// by `to_string`.
///
/// A plain document, lines of the form `key = "text"` and `key = 1.5`, is read as the
/// entries that it spells out; how `to_string` writes its numbers is not said.  Of
/// other texts nothing is said but that their entries depend on the text alone.
#[verifier::external_body]
fn read_toml(text: &str) -> (result: Result<Vec<(String, TomlValue)>, toml::de::Error>)
    ensures
        match result {
            Ok(entries) => toml_document(text@) == Some(entries_of(entries@)),
            Err(_) => toml_document(text@) is None,
        },
        is_read_plainly(
            text@,
            match result {
                Ok(entries) => Some(entries_of(entries@)),
                Err(_) => None,
            },
        ),
{
    let table: toml::Table = toml::from_str(text)?;
    Ok(table.into_iter().map(|(key, value)| match value {
        toml::Value::String(s) => (key, TomlValue::Text(s)),
        toml::Value::Integer(n) => (key, TomlValue::Number(n.to_string())),
        toml::Value::Float(n) => (key, TomlValue::Number(n.to_string())),
        toml::Value::Boolean(_) => (key, TomlValue::Other),
        toml::Value::Datetime(_) => (key, TomlValue::Other),
        toml::Value::Array(_) => (key, TomlValue::Other),
        toml::Value::Table(_) => (key, TomlValue::Other),
    }).collect())
}

/// What the `toml` crate says of a text that is no TOML.
pub uninterp spec fn toml_complaint(error: toml::de::Error) -> Seq<char>;

/// `Display` of `toml::de::Error`: what is wrong with the text.
///
/// The wording is not said, only that it depends on the error alone.
#[verifier::external_body]
fn toml_error_text(error: &toml::de::Error) -> (result: String)
    ensures
        result@ == toml_complaint(*error),
{
    error.to_string()
}

// ── Profiles ──────────────────────────────────────────────────────────────────

/// The dimensions and the firmware of a printer.
#[derive(Debug, PartialEq)]
pub struct MachineProfile<N> {
    /// Name of the profile.
    pub name: String,
    /// Largest X coordinate in millimetres.
    pub max_x_mm: N,
    /// Largest Y coordinate in millimetres.
    pub max_y_mm: N,
    /// Largest Z coordinate in millimetres.
    pub max_z_mm: N,
    /// Largest feedrate in mm/min, if limited.
    pub max_feedrate_mm_per_min: Option<N>,
    /// Largest acceleration in mm/s², if limited.
    pub max_acceleration_mm_per_s2: Option<N>,
    /// Nozzle diameter in millimetres.
    pub nozzle_diameter_mm: Option<N>,
    /// Firmware, such as `marlin`.
    pub firmware: Option<String>,
}

/// What a [`MachineProfile`] says.
#[verifier::ext_equal]
pub struct ProfileModel<N> {
    pub name: Seq<char>,
    pub max_x_mm: N,
    pub max_y_mm: N,
    pub max_z_mm: N,
    pub max_feedrate_mm_per_min: Option<N>,
    pub max_acceleration_mm_per_s2: Option<N>,
    pub nozzle_diameter_mm: Option<N>,
    pub firmware: Option<Seq<char>>,
}

impl<N> View for MachineProfile<N> {
    type V = ProfileModel<N>;

    open spec fn view(&self) -> ProfileModel<N> {
        ProfileModel {
            name: self.name@,
            max_x_mm: self.max_x_mm,
            max_y_mm: self.max_y_mm,
            max_z_mm: self.max_z_mm,
            max_feedrate_mm_per_min: self.max_feedrate_mm_per_min,
            max_acceleration_mm_per_s2: self.max_acceleration_mm_per_s2,
            nozzle_diameter_mm: self.nozzle_diameter_mm,
            firmware: optional_text(self.firmware),
        }
    }
}

impl<N: Scalar> MachineProfile<N> {
    /// The travel limits of the printer.
    pub fn to_machine_limits(&self) -> (result: MachineLimits<N>)
        ensures
            result == (MachineLimits {
                max_x: self.max_x_mm,
                max_y: self.max_y_mm,
                max_z: self.max_z_mm,
            }),
    {
        MachineLimits { max_x: self.max_x_mm, max_y: self.max_y_mm, max_z: self.max_z_mm }
    }
}

/// Why a profile cannot be loaded.
#[derive(Debug)]
#[allow(inconsistent_fields)]
pub enum ProfileError {
    /// There is no built-in profile of that name.
    UnknownProfile {
        /// The name that was asked for.
        name: String,
        /// The names of all profiles, in order.
        available: Vec<String>,
    },
    /// The text of a built-in profile is no TOML.
    ParseError {
        /// The name of the profile.
        name: &'static str,
        /// What the `toml` crate says.
        source: toml::de::Error,
    },
    /// A field of a built-in profile is missing, or not of its type.
    InvalidField {
        /// The name of the profile.
        name: &'static str,
        /// The name of the field.
        field: &'static str,
    },
}

/// The number of a field: `Ok(None)` where it is absent, `Err` where it is no number.
pub open spec fn number_field<N: Scalar>(
    entries: Seq<(Seq<char>, TomlModel)>,
    key: Seq<char>,
) -> Result<Option<N>, ()> {
    match entry_from(entries, key, 0) {
        Some(TomlModel::Number(text)) => match N::parse_spec(text) {
            Some(n) => Ok(Some(n)),
            None => Err(()),
        },
        Some(_) => Err(()),
        None => Ok(None),
    }
}

/// The text of a field: `Ok(None)` where it is absent, `Err` where it is no string.
pub open spec fn text_field(
    entries: Seq<(Seq<char>, TomlModel)>,
    key: Seq<char>,
) -> Result<Option<Seq<char>>, ()> {
    match entry_from(entries, key, 0) {
        Some(TomlModel::Text(text)) => Ok(Some(text)),
        Some(_) => Err(()),
        None => Ok(None),
    }
}

/// The profile that the entries make up, or the first field that is wrong.
///
/// The name and the three limits are required, the other fields are not.
pub open spec fn profile_of<N: Scalar>(entries: Seq<(Seq<char>, TomlModel)>) -> Result<
    ProfileModel<N>,
    Seq<char>,
> {
    match text_field(entries, "name"@) {
        Ok(Some(name)) => match number_field(entries, "max_x_mm"@) {
            Ok(Some(max_x_mm)) => match number_field(entries, "max_y_mm"@) {
                Ok(Some(max_y_mm)) => match number_field(entries, "max_z_mm"@) {
                    Ok(Some(max_z_mm)) => optional_fields(
                        entries,
                        ProfileModel {
                            name,
                            max_x_mm,
                            max_y_mm,
                            max_z_mm,
                            max_feedrate_mm_per_min: None,
                            max_acceleration_mm_per_s2: None,
                            nozzle_diameter_mm: None,
                            firmware: None,
                        },
                    ),
                    _ => Err("max_z_mm"@),
                },
                _ => Err("max_y_mm"@),
            },
            _ => Err("max_x_mm"@),
        },
        _ => Err("name"@),
    }
}

/// The profile with its optional fields, or the first of them that is wrong.
pub open spec fn optional_fields<N: Scalar>(
    entries: Seq<(Seq<char>, TomlModel)>,
    base: ProfileModel<N>,
) -> Result<ProfileModel<N>, Seq<char>> {
    match number_field(entries, "max_feedrate_mm_per_min"@) {
        Ok(max_feedrate_mm_per_min) => match number_field(entries, "max_acceleration_mm_per_s2"@) {
            Ok(max_acceleration_mm_per_s2) => match number_field(entries, "nozzle_diameter_mm"@) {
                Ok(nozzle_diameter_mm) => match text_field(entries, "firmware"@) {
                    Ok(firmware) => Ok(
                        ProfileModel {
                            max_feedrate_mm_per_min,
                            max_acceleration_mm_per_s2,
                            nozzle_diameter_mm,
                            firmware,
                            ..base
                        },
                    ),
                    Err(_) => Err("firmware"@),
                },
                Err(_) => Err("nozzle_diameter_mm"@),
            },
            Err(_) => Err("max_acceleration_mm_per_s2"@),
        },
        Err(_) => Err("max_feedrate_mm_per_min"@),
    }
}

fn find_entry(entries: &Vec<(String, TomlValue)>, key: &str) -> (result: Option<usize>)
    ensures
        match result {
            Some(i) => i < entries.len() && entry_from(entries_of(entries@), key@, 0) == Some(
                entries[i as int].1@,
            ),
            None => entry_from(entries_of(entries@), key@, 0) is None,
        },
{
    let ghost all = entries_of(entries@);
    let mut i: usize = 0;
    while i < entries.len()
        invariant
            i <= entries.len(),
            all == entries_of(entries@),
            entry_from(all, key@, 0) == entry_from(all, key@, i as int),
        decreases entries.len() - i,
    {
        proof {
            assert(all[i as int] == (entries@[i as int].0@, entries@[i as int].1@));
        }
        if same_text(entries[i].0.as_str(), key) {
            return Some(i);
        }
        i = i + 1;
    }
    None
}

fn read_number<N: Scalar>(entries: &Vec<(String, TomlValue)>, key: &str) -> (result: Result<
    Option<N>,
    (),
>)
    ensures
        result == number_field::<N>(entries_of(entries@), key@),
{
    match find_entry(entries, key) {
        Some(i) => match &entries[i].1 {
            TomlValue::Number(text) => match N::parse(text.as_str()) {
                Some(n) => Ok(Some(n)),
                None => Err(()),
            },
            _ => Err(()),
        },
        None => Ok(None),
    }
}

fn read_text(entries: &Vec<(String, TomlValue)>, key: &str) -> (result: Result<Option<String>, ()>)
    ensures
        match result {
            Ok(text) => text_field(entries_of(entries@), key@) == Ok::<Option<Seq<char>>, ()>(
                optional_text(text),
            ),
            Err(_) => text_field(entries_of(entries@), key@) is Err,
        },
{
    match find_entry(entries, key) {
        Some(i) => match &entries[i].1 {
            TomlValue::Text(text) => Ok(Some(text.clone())),
            _ => Err(()),
        },
        None => Ok(None),
    }
}

/// The profile that the entries of a TOML table make up, or the first field that is wrong.
pub fn profile_from_entries<N: Scalar>(entries: &Vec<(String, TomlValue)>) -> (result: Result<
    MachineProfile<N>,
    &'static str,
>)
    ensures
        match result {
            Ok(profile) => profile_of::<N>(entries_of(entries@)) == Ok::<
                ProfileModel<N>,
                Seq<char>,
            >(profile@),
            Err(field) => profile_of::<N>(entries_of(entries@)) == Err::<
                ProfileModel<N>,
                Seq<char>,
            >(field@),
        },
{
    let name = match read_text(entries, "name") {
        Ok(Some(name)) => name,
        _ => {
            return Err("name");
        },
    };
    let max_x_mm: N = match read_number::<N>(entries, "max_x_mm") {
        Ok(Some(n)) => n,
        _ => {
            return Err("max_x_mm");
        },
    };
    let max_y_mm: N = match read_number::<N>(entries, "max_y_mm") {
        Ok(Some(n)) => n,
        _ => {
            return Err("max_y_mm");
        },
    };
    let max_z_mm: N = match read_number::<N>(entries, "max_z_mm") {
        Ok(Some(n)) => n,
        _ => {
            return Err("max_z_mm");
        },
    };
    let max_feedrate_mm_per_min = match read_number::<N>(entries, "max_feedrate_mm_per_min") {
        Ok(n) => n,
        Err(_) => {
            return Err("max_feedrate_mm_per_min");
        },
    };
    let max_acceleration_mm_per_s2 = match read_number::<N>(
        entries,
        "max_acceleration_mm_per_s2",
    ) {
        Ok(n) => n,
        Err(_) => {
            return Err("max_acceleration_mm_per_s2");
        },
    };
    let nozzle_diameter_mm = match read_number::<N>(entries, "nozzle_diameter_mm") {
        Ok(n) => n,
        Err(_) => {
            return Err("nozzle_diameter_mm");
        },
    };
    let firmware = match read_text(entries, "firmware") {
        Ok(text) => text,
        Err(_) => {
            return Err("firmware");
        },
    };
    Ok(
        MachineProfile {
            name,
            max_x_mm,
            max_y_mm,
            max_z_mm,
            max_feedrate_mm_per_min,
            max_acceleration_mm_per_s2,
            nozzle_diameter_mm,
            firmware,
        },
    )
}

fn owned_names(names: &Vec<&'static str>) -> (result: Vec<String>)
    ensures
        result@.map_values(|n: String| n@) == names@.map_values(|n: &'static str| n@),
{
    let mut out: Vec<String> = Vec::new();
    let mut i: usize = 0;
    while i < names.len()
        invariant
            i <= names.len(),
            out.len() == i,
            forall|j: int| 0 <= j < i ==> (#[trigger] out[j])@ == names[j]@,
        decreases names.len() - i,
    {
        out.push(owned(names[i]));
        i = i + 1;
    }
    proof {
        assert(out@.map_values(|n: String| n@) =~= names@.map_values(|n: &'static str| n@));
    }
    out
}

/// Loads the built-in profile of the given name.  Names are case-sensitive.
///
/// The text of every built-in profile is TOML, and the profile of a name has that name.
/// It is loaded, provided that the number type reads the numerals of the text as the
/// `toml` crate gives them.
pub fn load_profile<N: Scalar>(name: &str) -> (result: Result<MachineProfile<N>, ProfileError>)
    ensures
        match profile_source(name@) {
            Some(source) => match toml_document(source) {
                Some(entries) => match profile_of::<N>(entries) {
                    Ok(model) => result matches Ok(profile) && profile@ == model,
                    Err(wrong) => result matches Err(
                        ProfileError::InvalidField { name: key, field },
                    ) && key@ == name@ && field@ == wrong,
                },
                None => result matches Err(ProfileError::ParseError { name: key, .. }) && key@
                    == name@,
            },
            None => result matches Err(ProfileError::UnknownProfile { name: asked, available })
                && asked@ == name@ && available@.map_values(|n: String| n@) == profile_names(),
        },
        !profile_names().contains(name@) <==> (result matches Err(
            ProfileError::UnknownProfile { .. },
        )),
        !(result matches Err(ProfileError::ParseError { .. })),
        result matches Ok(profile) ==> profile.name@ == name@,
        profile_source(name@) matches Some(source) ==> toml_document(source) is Some && (
        reads_all_numbers::<N>(toml_document(source)->0) ==> result is Ok),
{
    proof {
        lemma_every_name_has_a_profile(name@);
    }
    let (key, source) = match find_source(name) {
        Some(found) => found,
        None => {
            let available = owned_names(&available_profiles());
            return Err(ProfileError::UnknownProfile { name: owned(name), available });
        },
    };
    match read_toml(source) {
        Ok(entries) => {
            proof {
                lemma_profiles_are_plain(name@);
                lemma_profiles_load::<N>(entries_of(entries@), name@);
            }
            match profile_from_entries::<N>(&entries) {
                Ok(profile) => Ok(profile),
                Err(field) => Err(ProfileError::InvalidField { name: key, field }),
            }
        },
        Err(source) => {
            proof {
                lemma_profiles_are_plain(name@);
            }
            Err(ProfileError::ParseError { name: key, source })
        },
    }
}

/// Texts with `, ` between them.
pub open spec fn joined(texts: Seq<String>, n: int) -> Seq<char>
    decreases n,
{
    if n <= 0 {
        Seq::empty()
    } else if n == 1 {
        texts[0]@
    } else {
        joined(texts, n - 1) + ", "@ + texts[n - 1]@
    }
}

impl ProfileError {
    /// The message that describes the error to a user.
    pub fn to_text(&self) -> (result: String)
        ensures
            match *self {
                ProfileError::UnknownProfile { name, available } => result@
                    == "unknown machine profile '"@ + name@ + "'; available profiles: "@ + joined(
                    available@,
                    available.len() as int,
                ),
                ProfileError::ParseError { name, source } => result@
                    == "failed to parse built-in profile '"@ + name@ + "': "@ + toml_complaint(
                    source,
                ),
                ProfileError::InvalidField { name, field } => result@
                    == "failed to parse built-in profile '"@ + name@ + "': invalid field '"@
                    + field@ + "'"@,
            },
    {
        let mut text = String::new();
        match self {
            ProfileError::UnknownProfile { name, available } => {
                push_text(&mut text, "unknown machine profile '");
                push_text(&mut text, name.as_str());
                push_text(&mut text, "'; available profiles: ");
                let ghost head = text@;
                let mut i: usize = 0;
                proof {
                    assert(text@ =~= head + joined(available@, 0));
                }
                while i < available.len()
                    invariant
                        i <= available.len(),
                        text@ == head + joined(available@, i as int),
                    decreases available.len() - i,
                {
                    if i > 0 {
                        push_text(&mut text, ", ");
                    }
                    push_text(&mut text, available[i].as_str());
                    i = i + 1;
                    proof {
                        assert(text@ =~= head + joined(available@, i as int));
                    }
                }
            },
            ProfileError::ParseError { name, source } => {
                push_text(&mut text, "failed to parse built-in profile '");
                push_text(&mut text, name);
                push_text(&mut text, "': ");
                push_text(&mut text, toml_error_text(source).as_str());
            },
            ProfileError::InvalidField { name, field } => {
                push_text(&mut text, "failed to parse built-in profile '");
                push_text(&mut text, name);
                push_text(&mut text, "': invalid field '");
                push_text(&mut text, field);
                push_text(&mut text, "'");
            },
        }
        text
    }
}

} // verus!
