//! Where the fields of a profile come from.

use vstd::prelude::*;

use crate::machine_profile::{
    entry_from, number_field, profile_of, text_field, ProfileModel, TomlModel,
};
use crate::scalar::Scalar;

verus! {

/// Whether the entry at `i` is the first of its key, and has the given value.
pub open spec fn is_first_entry(
    entries: Seq<(Seq<char>, TomlModel)>,
    i: int,
    key: Seq<char>,
    value: TomlModel,
) -> bool {
    &&& 0 <= i < entries.len()
    &&& entries[i] == (key, value)
    &&& forall|j: int| 0 <= j < i ==> (#[trigger] entries[j]).0 != key
}

/// Whether no entry has the key.
pub open spec fn lacks(entries: Seq<(Seq<char>, TomlModel)>, key: Seq<char>) -> bool {
    forall|j: int| 0 <= j < entries.len() ==> (#[trigger] entries[j]).0 != key
}

/// Whether the first entry with the key is a numeral that means `number`.
pub open spec fn states_number<N: Scalar>(
    entries: Seq<(Seq<char>, TomlModel)>,
    key: Seq<char>,
    number: N,
) -> bool {
    exists|i: int, text: Seq<char>| #[trigger]
        is_first_entry(entries, i, key, TomlModel::Number(text)) && N::parse_spec(text) == Some(
            number,
        )
}

/// Whether the first entry with the key is the given string.
pub open spec fn states_text(
    entries: Seq<(Seq<char>, TomlModel)>,
    key: Seq<char>,
    text: Seq<char>,
) -> bool {
    exists|i: int| #[trigger] is_first_entry(entries, i, key, TomlModel::Text(text))
}

proof fn lemma_entry(entries: Seq<(Seq<char>, TomlModel)>, key: Seq<char>, i: int)
    requires
        0 <= i,
        forall|j: int| 0 <= j < i && j < entries.len() ==> (#[trigger] entries[j]).0 != key,
    ensures
        match entry_from(entries, key, i) {
            Some(value) => exists|k: int| #[trigger] is_first_entry(entries, k, key, value),
            None => lacks(entries, key),
        },
    decreases entries.len() - i,
{
    if i < entries.len() {
        if entries[i].0 == key {
            assert(is_first_entry(entries, i, key, entries[i].1));
        } else {
            lemma_entry(entries, key, i + 1);
        }
    }
}

proof fn lemma_number<N: Scalar>(entries: Seq<(Seq<char>, TomlModel)>, key: Seq<char>)
    ensures
        match number_field::<N>(entries, key) {
            Ok(Some(n)) => states_number(entries, key, n),
            Ok(None) => lacks(entries, key),
            Err(_) => !lacks(entries, key) && forall|n: N| !#[trigger]
                states_number(entries, key, n),
        },
{
    lemma_entry(entries, key, 0);
    if let Some(value) = entry_from(entries, key, 0) {
        let k = choose|k: int| #[trigger] is_first_entry(entries, k, key, value);
        assert(entries[k].0 == key);
        assert forall|n: N| number_field::<N>(entries, key) is Err implies !#[trigger]
            states_number(entries, key, n) by {
            if states_number(entries, key, n) {
                let (i, text) = choose|i: int, text: Seq<char>| #[trigger]
                    is_first_entry(entries, i, key, TomlModel::Number(text)) && N::parse_spec(text)
                        == Some(n);
                assert(entries[i].0 == key && entries[k].0 == key);
                assert(i == k);
            }
        }
        if let TomlModel::Number(text) = value {
            assert(is_first_entry(entries, k, key, TomlModel::Number(text)));
        }
    }
}

proof fn lemma_text(entries: Seq<(Seq<char>, TomlModel)>, key: Seq<char>)
    ensures
        match text_field(entries, key) {
            Ok(Some(t)) => states_text(entries, key, t),
            Ok(None) => lacks(entries, key),
            Err(_) => !lacks(entries, key) && forall|t: Seq<char>| !#[trigger]
                states_text(entries, key, t),
        },
{
    lemma_entry(entries, key, 0);
    if let Some(value) = entry_from(entries, key, 0) {
        let k = choose|k: int| #[trigger] is_first_entry(entries, k, key, value);
        assert(entries[k].0 == key);
        assert forall|t: Seq<char>| text_field(entries, key) is Err implies !#[trigger]
            states_text(entries, key, t) by {
            if states_text(entries, key, t) {
                let i = choose|i: int| #[trigger]
                    is_first_entry(entries, i, key, TomlModel::Text(t));
                assert(entries[i].0 == key && entries[k].0 == key);
                assert(i == k);
            }
        }
        if let TomlModel::Text(t) = value {
            assert(is_first_entry(entries, k, key, TomlModel::Text(t)));
        }
    }
}

/// Each field of a profile is what the entry of its own name states; the optional ones
/// are absent exactly where there is no such entry.
pub proof fn lemma_fields_come_from_their_entries<N: Scalar>(
    entries: Seq<(Seq<char>, TomlModel)>,
    model: ProfileModel<N>,
)
    requires
        profile_of::<N>(entries) == Ok::<ProfileModel<N>, Seq<char>>(model),
    ensures
        states_text(entries, "name"@, model.name),
        states_number(entries, "max_x_mm"@, model.max_x_mm),
        states_number(entries, "max_y_mm"@, model.max_y_mm),
        states_number(entries, "max_z_mm"@, model.max_z_mm),
        match model.max_feedrate_mm_per_min {
            Some(n) => states_number(entries, "max_feedrate_mm_per_min"@, n),
            None => lacks(entries, "max_feedrate_mm_per_min"@),
        },
        match model.max_acceleration_mm_per_s2 {
            Some(n) => states_number(entries, "max_acceleration_mm_per_s2"@, n),
            None => lacks(entries, "max_acceleration_mm_per_s2"@),
        },
        match model.nozzle_diameter_mm {
            Some(n) => states_number(entries, "nozzle_diameter_mm"@, n),
            None => lacks(entries, "nozzle_diameter_mm"@),
        },
        match model.firmware {
            Some(t) => states_text(entries, "firmware"@, t),
            None => lacks(entries, "firmware"@),
        },
{
    lemma_text(entries, "name"@);
    lemma_number::<N>(entries, "max_x_mm"@);
    lemma_number::<N>(entries, "max_y_mm"@);
    lemma_number::<N>(entries, "max_z_mm"@);
    lemma_number::<N>(entries, "max_feedrate_mm_per_min"@);
    lemma_number::<N>(entries, "max_acceleration_mm_per_s2"@);
    lemma_number::<N>(entries, "nozzle_diameter_mm"@);
    lemma_text(entries, "firmware"@);
}

/// A profile is refused only for a field that is wrong: a required one that is not
/// stated, or an optional one that is there and is no number, or no string.
pub proof fn lemma_only_wrong_fields_are_refused<N: Scalar>(
    entries: Seq<(Seq<char>, TomlModel)>,
    field: Seq<char>,
)
    requires
        profile_of::<N>(entries) == Err::<ProfileModel<N>, Seq<char>>(field),
    ensures
        field == "name"@ || field == "max_x_mm"@ || field == "max_y_mm"@ || field == "max_z_mm"@
            || ((field == "max_feedrate_mm_per_min"@ || field == "max_acceleration_mm_per_s2"@
            || field == "nozzle_diameter_mm"@ || field == "firmware"@) && !lacks(entries, field)),
        field == "name"@ || field == "firmware"@ || forall|n: N| !#[trigger]
            states_number(entries, field, n),
        field == "name"@ || field == "firmware"@ ==> forall|t: Seq<char>| !#[trigger]
            states_text(entries, field, t),
{
    reveal_strlit("name");
    reveal_strlit("firmware");
    reveal_strlit("max_x_mm");
    reveal_strlit("max_y_mm");
    reveal_strlit("max_z_mm");
    reveal_strlit("max_feedrate_mm_per_min");
    reveal_strlit("max_acceleration_mm_per_s2");
    reveal_strlit("nozzle_diameter_mm");
    assert("name"@.len() == 4 && "firmware"@.len() == 8);
    assert("max_x_mm"@.len() == 8 && "max_y_mm"@.len() == 8 && "max_z_mm"@.len() == 8);
    assert("max_feedrate_mm_per_min"@.len() == 23);
    assert("max_acceleration_mm_per_s2"@.len() == 26);
    assert("nozzle_diameter_mm"@.len() == 18);
    assert("firmware"@[0] == 'f');
    assert("max_x_mm"@[0] == 'm' && "max_y_mm"@[0] == 'm' && "max_z_mm"@[0] == 'm');
    lemma_text(entries, "name"@);
    lemma_number::<N>(entries, "max_x_mm"@);
    lemma_number::<N>(entries, "max_y_mm"@);
    lemma_number::<N>(entries, "max_z_mm"@);
    lemma_number::<N>(entries, "max_feedrate_mm_per_min"@);
    lemma_number::<N>(entries, "max_acceleration_mm_per_s2"@);
    lemma_number::<N>(entries, "nozzle_diameter_mm"@);
    lemma_text(entries, "firmware"@);
    assert forall|n: N| lacks(entries, field) implies !#[trigger] states_number(
        entries,
        field,
        n,
    ) by {
        if states_number(entries, field, n) {
            let (i, text) = choose|i: int, text: Seq<char>| #[trigger]
                is_first_entry(entries, i, field, TomlModel::Number(text)) && N::parse_spec(text)
                    == Some(n);
            assert(entries[i].0 == field);
        }
    }
    assert forall|t: Seq<char>| lacks(entries, field) implies !#[trigger] states_text(
        entries,
        field,
        t,
    ) by {
        if states_text(entries, field, t) {
            let i = choose|i: int| #[trigger] is_first_entry(entries, i, field, TomlModel::Text(t));
            assert(entries[i].0 == field);
        }
    }
    if field == "name"@ {
        assert(!(text_field(entries, "name"@) matches Ok(Some(_))));
    }
    if field == "firmware"@ {
        assert(text_field(entries, "firmware"@) is Err);
    }
}

} // verus!
