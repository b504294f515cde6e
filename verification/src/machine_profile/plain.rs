//! That the built-in profiles are plain TOML documents.

use vstd::prelude::*;

use crate::machine_profile::{
    entry_from, is_plain, is_plain_key, is_plain_value, plain_document, plain_line, profile_names,
    profile_of, profile_source, says, PlainValue, TomlModel, BAMBU_X1C, ENDER3, GENERIC_300,
    PRUSA_MK4, VORON_V2,
};
use crate::scalar::Scalar;

verus! {

/// A string of a plain document.
pub open spec fn text(text: Seq<char>) -> PlainValue {
    PlainValue::Text(text)
}

/// A number of a plain document.
pub open spec fn decimal(whole: Seq<char>, places: Seq<char>) -> PlainValue {
    PlainValue::Decimal { whole, places }
}

/// The lines of the built-in profile of the given name.
pub open spec fn profile_lines(name: Seq<char>) -> Seq<(Seq<char>, PlainValue)> {
    if name == "ender3"@ {
        seq![
            ("name"@, text("ender3"@)),
            ("max_x_mm"@, decimal("220"@, "0"@)),
            ("max_y_mm"@, decimal("220"@, "0"@)),
            ("max_z_mm"@, decimal("250"@, "0"@)),
            ("max_feedrate_mm_per_min"@, decimal("500"@, "0"@)),
            ("nozzle_diameter_mm"@, decimal("0"@, "4"@)),
            ("firmware"@, text("marlin"@)),
        ]
    } else if name == "prusa_mk4"@ {
        seq![
            ("name"@, text("prusa_mk4"@)),
            ("max_x_mm"@, decimal("250"@, "0"@)),
            ("max_y_mm"@, decimal("210"@, "0"@)),
            ("max_z_mm"@, decimal("220"@, "0"@)),
            ("max_feedrate_mm_per_min"@, decimal("500"@, "0"@)),
            ("max_acceleration_mm_per_s2"@, decimal("1250"@, "0"@)),
            ("nozzle_diameter_mm"@, decimal("0"@, "4"@)),
            ("firmware"@, text("prusa"@)),
        ]
    } else if name == "voron_v2"@ {
        seq![
            ("name"@, text("voron_v2"@)),
            ("max_x_mm"@, decimal("350"@, "0"@)),
            ("max_y_mm"@, decimal("350"@, "0"@)),
            ("max_z_mm"@, decimal("350"@, "0"@)),
            ("max_feedrate_mm_per_min"@, decimal("600"@, "0"@)),
            ("max_acceleration_mm_per_s2"@, decimal("3000"@, "0"@)),
            ("nozzle_diameter_mm"@, decimal("0"@, "4"@)),
            ("firmware"@, text("klipper"@)),
        ]
    } else if name == "bambu_x1c"@ {
        seq![
            ("name"@, text("bambu_x1c"@)),
            ("max_x_mm"@, decimal("256"@, "0"@)),
            ("max_y_mm"@, decimal("256"@, "0"@)),
            ("max_z_mm"@, decimal("256"@, "0"@)),
            ("max_feedrate_mm_per_min"@, decimal("1200"@, "0"@)),
            ("max_acceleration_mm_per_s2"@, decimal("20000"@, "0"@)),
            ("nozzle_diameter_mm"@, decimal("0"@, "4"@)),
            ("firmware"@, text("bambu"@)),
        ]
    } else {
        seq![
            ("name"@, text("generic_300"@)),
            ("max_x_mm"@, decimal("300"@, "0"@)),
            ("max_y_mm"@, decimal("300"@, "0"@)),
            ("max_z_mm"@, decimal("400"@, "0"@)),
        ]
    }
}

/// A document with one line more is plain, if the line is and its key is new.
proof fn lemma_one_line_more(
    lines: Seq<(Seq<char>, PlainValue)>,
    key: Seq<char>,
    value: PlainValue,
)
    requires
        is_plain(lines),
        is_plain_key(key),
        is_plain_value(value),
        forall|i: int| 0 <= i < lines.len() ==> (#[trigger] lines[i]).0 != key,
    ensures
        is_plain(lines.push((key, value))),
        plain_document(lines.push((key, value))) == plain_document(lines) + plain_line(key, value),
{
    assert(lines.push((key, value)).drop_last() =~= lines);
}

proof fn lemma_keys()
    ensures
        is_plain_key("name"@),
        is_plain_key("max_x_mm"@),
        is_plain_key("max_y_mm"@),
        is_plain_key("max_z_mm"@),
        is_plain_key("max_feedrate_mm_per_min"@),
        is_plain_key("max_acceleration_mm_per_s2"@),
        is_plain_key("nozzle_diameter_mm"@),
        is_plain_key("firmware"@),
        "name"@ != "max_x_mm"@,
        "name"@ != "max_y_mm"@,
        "name"@ != "max_z_mm"@,
        "name"@ != "max_feedrate_mm_per_min"@,
        "name"@ != "max_acceleration_mm_per_s2"@,
        "name"@ != "nozzle_diameter_mm"@,
        "name"@ != "firmware"@,
        "max_x_mm"@ != "max_y_mm"@,
        "max_x_mm"@ != "max_z_mm"@,
        "max_x_mm"@ != "max_feedrate_mm_per_min"@,
        "max_x_mm"@ != "max_acceleration_mm_per_s2"@,
        "max_x_mm"@ != "nozzle_diameter_mm"@,
        "max_x_mm"@ != "firmware"@,
        "max_y_mm"@ != "max_z_mm"@,
        "max_y_mm"@ != "max_feedrate_mm_per_min"@,
        "max_y_mm"@ != "max_acceleration_mm_per_s2"@,
        "max_y_mm"@ != "nozzle_diameter_mm"@,
        "max_y_mm"@ != "firmware"@,
        "max_z_mm"@ != "max_feedrate_mm_per_min"@,
        "max_z_mm"@ != "max_acceleration_mm_per_s2"@,
        "max_z_mm"@ != "nozzle_diameter_mm"@,
        "max_z_mm"@ != "firmware"@,
        "max_feedrate_mm_per_min"@ != "max_acceleration_mm_per_s2"@,
        "max_feedrate_mm_per_min"@ != "nozzle_diameter_mm"@,
        "max_feedrate_mm_per_min"@ != "firmware"@,
        "max_acceleration_mm_per_s2"@ != "nozzle_diameter_mm"@,
        "max_acceleration_mm_per_s2"@ != "firmware"@,
        "nozzle_diameter_mm"@ != "firmware"@,
{
    reveal_strlit("name");
    reveal_strlit("max_x_mm");
    reveal_strlit("max_y_mm");
    reveal_strlit("max_z_mm");
    reveal_strlit("max_feedrate_mm_per_min");
    reveal_strlit("max_acceleration_mm_per_s2");
    reveal_strlit("nozzle_diameter_mm");
    reveal_strlit("firmware");
    assert("name"@.len() != "max_x_mm"@.len());
    assert("name"@.len() != "max_y_mm"@.len());
    assert("name"@.len() != "max_z_mm"@.len());
    assert("name"@.len() != "max_feedrate_mm_per_min"@.len());
    assert("name"@.len() != "max_acceleration_mm_per_s2"@.len());
    assert("name"@.len() != "nozzle_diameter_mm"@.len());
    assert("name"@.len() != "firmware"@.len());
    assert("max_x_mm"@[4] != "max_y_mm"@[4]);
    assert("max_x_mm"@[4] != "max_z_mm"@[4]);
    assert("max_x_mm"@.len() != "max_feedrate_mm_per_min"@.len());
    assert("max_x_mm"@.len() != "max_acceleration_mm_per_s2"@.len());
    assert("max_x_mm"@.len() != "nozzle_diameter_mm"@.len());
    assert("max_x_mm"@[0] != "firmware"@[0]);
    assert("max_y_mm"@[4] != "max_z_mm"@[4]);
    assert("max_y_mm"@.len() != "max_feedrate_mm_per_min"@.len());
    assert("max_y_mm"@.len() != "max_acceleration_mm_per_s2"@.len());
    assert("max_y_mm"@.len() != "nozzle_diameter_mm"@.len());
    assert("max_y_mm"@[0] != "firmware"@[0]);
    assert("max_z_mm"@.len() != "max_feedrate_mm_per_min"@.len());
    assert("max_z_mm"@.len() != "max_acceleration_mm_per_s2"@.len());
    assert("max_z_mm"@.len() != "nozzle_diameter_mm"@.len());
    assert("max_z_mm"@[0] != "firmware"@[0]);
    assert("max_feedrate_mm_per_min"@.len() != "max_acceleration_mm_per_s2"@.len());
    assert("max_feedrate_mm_per_min"@.len() != "nozzle_diameter_mm"@.len());
    assert("max_feedrate_mm_per_min"@.len() != "firmware"@.len());
    assert("max_acceleration_mm_per_s2"@.len() != "nozzle_diameter_mm"@.len());
    assert("max_acceleration_mm_per_s2"@.len() != "firmware"@.len());
    assert("nozzle_diameter_mm"@.len() != "firmware"@.len());
}

proof fn lemma_values()
    ensures
        is_plain_value(text("ender3"@)),
        is_plain_value(decimal("220"@, "0"@)),
        is_plain_value(decimal("250"@, "0"@)),
        is_plain_value(decimal("500"@, "0"@)),
        is_plain_value(decimal("0"@, "4"@)),
        is_plain_value(text("marlin"@)),
        is_plain_value(text("prusa_mk4"@)),
        is_plain_value(decimal("210"@, "0"@)),
        is_plain_value(decimal("1250"@, "0"@)),
        is_plain_value(text("prusa"@)),
        is_plain_value(text("voron_v2"@)),
        is_plain_value(decimal("350"@, "0"@)),
        is_plain_value(decimal("600"@, "0"@)),
        is_plain_value(decimal("3000"@, "0"@)),
        is_plain_value(text("klipper"@)),
        is_plain_value(text("bambu_x1c"@)),
        is_plain_value(decimal("256"@, "0"@)),
        is_plain_value(decimal("1200"@, "0"@)),
        is_plain_value(decimal("20000"@, "0"@)),
        is_plain_value(text("bambu"@)),
        is_plain_value(text("generic_300"@)),
        is_plain_value(decimal("300"@, "0"@)),
        is_plain_value(decimal("400"@, "0"@)),
{
    reveal_strlit("ender3");
    reveal_strlit("220");
    reveal_strlit("0");
    reveal_strlit("250");
    reveal_strlit("500");
    reveal_strlit("4");
    reveal_strlit("marlin");
    reveal_strlit("prusa_mk4");
    reveal_strlit("210");
    reveal_strlit("1250");
    reveal_strlit("prusa");
    reveal_strlit("voron_v2");
    reveal_strlit("350");
    reveal_strlit("600");
    reveal_strlit("3000");
    reveal_strlit("klipper");
    reveal_strlit("bambu_x1c");
    reveal_strlit("256");
    reveal_strlit("1200");
    reveal_strlit("20000");
    reveal_strlit("bambu");
    reveal_strlit("generic_300");
    reveal_strlit("300");
    reveal_strlit("400");
}

proof fn lemma_ender3_is_plain()
    ensures
        is_plain(profile_lines("ender3"@)),
        plain_document(profile_lines("ender3"@)) == ENDER3@,
{
    lemma_keys();
    lemma_values();
    lemma_names_differ();
    let none = Seq::<(Seq<char>, PlainValue)>::empty();
    assert(plain_document(none) == Seq::<char>::empty());
    lemma_one_line_more(none, "name"@, text("ender3"@));
    let l1 = none.push(("name"@, text("ender3"@)));
    lemma_one_line_more(l1, "max_x_mm"@, decimal("220"@, "0"@));
    let l2 = l1.push(("max_x_mm"@, decimal("220"@, "0"@)));
    lemma_one_line_more(l2, "max_y_mm"@, decimal("220"@, "0"@));
    let l3 = l2.push(("max_y_mm"@, decimal("220"@, "0"@)));
    lemma_one_line_more(l3, "max_z_mm"@, decimal("250"@, "0"@));
    let l4 = l3.push(("max_z_mm"@, decimal("250"@, "0"@)));
    lemma_one_line_more(l4, "max_feedrate_mm_per_min"@, decimal("500"@, "0"@));
    let l5 = l4.push(("max_feedrate_mm_per_min"@, decimal("500"@, "0"@)));
    lemma_one_line_more(l5, "nozzle_diameter_mm"@, decimal("0"@, "4"@));
    let l6 = l5.push(("nozzle_diameter_mm"@, decimal("0"@, "4"@)));
    lemma_one_line_more(l6, "firmware"@, text("marlin"@));
    let l7 = l6.push(("firmware"@, text("marlin"@)));
    assert(profile_lines("ender3"@) =~= l7);
    reveal_strlit("name");
    reveal_strlit("max_x_mm");
    reveal_strlit("max_y_mm");
    reveal_strlit("max_z_mm");
    reveal_strlit("max_feedrate_mm_per_min");
    reveal_strlit("nozzle_diameter_mm");
    reveal_strlit("firmware");
    reveal_strlit("ender3");
    reveal_strlit("220");
    reveal_strlit("0");
    reveal_strlit("250");
    reveal_strlit("500");
    reveal_strlit("4");
    reveal_strlit("marlin");
    reveal_strlit(" = ");
    reveal_strlit(".");
    reveal_strlit("\"");
    reveal_strlit("\n");
    reveal_strlit(
        "name = \"ender3\"
max_x_mm = 220.0
max_y_mm = 220.0
max_z_mm = 250.0
max_feedrate_mm_per_min = 500.0
nozzle_diameter_mm = 0.4
firmware = \"marlin\"
",
    );
    assert(plain_document(l7) =~= ENDER3@);
}

proof fn lemma_prusa_mk4_is_plain()
    ensures
        is_plain(profile_lines("prusa_mk4"@)),
        plain_document(profile_lines("prusa_mk4"@)) == PRUSA_MK4@,
{
    lemma_keys();
    lemma_values();
    lemma_names_differ();
    let none = Seq::<(Seq<char>, PlainValue)>::empty();
    assert(plain_document(none) == Seq::<char>::empty());
    lemma_one_line_more(none, "name"@, text("prusa_mk4"@));
    let l1 = none.push(("name"@, text("prusa_mk4"@)));
    lemma_one_line_more(l1, "max_x_mm"@, decimal("250"@, "0"@));
    let l2 = l1.push(("max_x_mm"@, decimal("250"@, "0"@)));
    lemma_one_line_more(l2, "max_y_mm"@, decimal("210"@, "0"@));
    let l3 = l2.push(("max_y_mm"@, decimal("210"@, "0"@)));
    lemma_one_line_more(l3, "max_z_mm"@, decimal("220"@, "0"@));
    let l4 = l3.push(("max_z_mm"@, decimal("220"@, "0"@)));
    lemma_one_line_more(l4, "max_feedrate_mm_per_min"@, decimal("500"@, "0"@));
    let l5 = l4.push(("max_feedrate_mm_per_min"@, decimal("500"@, "0"@)));
    lemma_one_line_more(l5, "max_acceleration_mm_per_s2"@, decimal("1250"@, "0"@));
    let l6 = l5.push(("max_acceleration_mm_per_s2"@, decimal("1250"@, "0"@)));
    lemma_one_line_more(l6, "nozzle_diameter_mm"@, decimal("0"@, "4"@));
    let l7 = l6.push(("nozzle_diameter_mm"@, decimal("0"@, "4"@)));
    lemma_one_line_more(l7, "firmware"@, text("prusa"@));
    let l8 = l7.push(("firmware"@, text("prusa"@)));
    assert(profile_lines("prusa_mk4"@) =~= l8);
    reveal_strlit("name");
    reveal_strlit("max_x_mm");
    reveal_strlit("max_y_mm");
    reveal_strlit("max_z_mm");
    reveal_strlit("max_feedrate_mm_per_min");
    reveal_strlit("max_acceleration_mm_per_s2");
    reveal_strlit("nozzle_diameter_mm");
    reveal_strlit("firmware");
    reveal_strlit("prusa_mk4");
    reveal_strlit("250");
    reveal_strlit("0");
    reveal_strlit("210");
    reveal_strlit("220");
    reveal_strlit("500");
    reveal_strlit("1250");
    reveal_strlit("4");
    reveal_strlit("prusa");
    reveal_strlit(" = ");
    reveal_strlit(".");
    reveal_strlit("\"");
    reveal_strlit("\n");
    reveal_strlit(
        "name = \"prusa_mk4\"
max_x_mm = 250.0
max_y_mm = 210.0
max_z_mm = 220.0
max_feedrate_mm_per_min = 500.0
max_acceleration_mm_per_s2 = 1250.0
nozzle_diameter_mm = 0.4
firmware = \"prusa\"
",
    );
    assert(plain_document(l8) =~= PRUSA_MK4@);
}

proof fn lemma_voron_v2_is_plain()
    ensures
        is_plain(profile_lines("voron_v2"@)),
        plain_document(profile_lines("voron_v2"@)) == VORON_V2@,
{
    lemma_keys();
    lemma_values();
    lemma_names_differ();
    let none = Seq::<(Seq<char>, PlainValue)>::empty();
    assert(plain_document(none) == Seq::<char>::empty());
    lemma_one_line_more(none, "name"@, text("voron_v2"@));
    let l1 = none.push(("name"@, text("voron_v2"@)));
    lemma_one_line_more(l1, "max_x_mm"@, decimal("350"@, "0"@));
    let l2 = l1.push(("max_x_mm"@, decimal("350"@, "0"@)));
    lemma_one_line_more(l2, "max_y_mm"@, decimal("350"@, "0"@));
    let l3 = l2.push(("max_y_mm"@, decimal("350"@, "0"@)));
    lemma_one_line_more(l3, "max_z_mm"@, decimal("350"@, "0"@));
    let l4 = l3.push(("max_z_mm"@, decimal("350"@, "0"@)));
    lemma_one_line_more(l4, "max_feedrate_mm_per_min"@, decimal("600"@, "0"@));
    let l5 = l4.push(("max_feedrate_mm_per_min"@, decimal("600"@, "0"@)));
    lemma_one_line_more(l5, "max_acceleration_mm_per_s2"@, decimal("3000"@, "0"@));
    let l6 = l5.push(("max_acceleration_mm_per_s2"@, decimal("3000"@, "0"@)));
    lemma_one_line_more(l6, "nozzle_diameter_mm"@, decimal("0"@, "4"@));
    let l7 = l6.push(("nozzle_diameter_mm"@, decimal("0"@, "4"@)));
    lemma_one_line_more(l7, "firmware"@, text("klipper"@));
    let l8 = l7.push(("firmware"@, text("klipper"@)));
    assert(profile_lines("voron_v2"@) =~= l8);
    reveal_strlit("name");
    reveal_strlit("max_x_mm");
    reveal_strlit("max_y_mm");
    reveal_strlit("max_z_mm");
    reveal_strlit("max_feedrate_mm_per_min");
    reveal_strlit("max_acceleration_mm_per_s2");
    reveal_strlit("nozzle_diameter_mm");
    reveal_strlit("firmware");
    reveal_strlit("voron_v2");
    reveal_strlit("350");
    reveal_strlit("0");
    reveal_strlit("600");
    reveal_strlit("3000");
    reveal_strlit("4");
    reveal_strlit("klipper");
    reveal_strlit(" = ");
    reveal_strlit(".");
    reveal_strlit("\"");
    reveal_strlit("\n");
    reveal_strlit(
        "name = \"voron_v2\"
max_x_mm = 350.0
max_y_mm = 350.0
max_z_mm = 350.0
max_feedrate_mm_per_min = 600.0
max_acceleration_mm_per_s2 = 3000.0
nozzle_diameter_mm = 0.4
firmware = \"klipper\"
",
    );
    assert(plain_document(l8) =~= VORON_V2@);
}

proof fn lemma_bambu_x1c_is_plain()
    ensures
        is_plain(profile_lines("bambu_x1c"@)),
        plain_document(profile_lines("bambu_x1c"@)) == BAMBU_X1C@,
{
    lemma_keys();
    lemma_values();
    lemma_names_differ();
    let none = Seq::<(Seq<char>, PlainValue)>::empty();
    assert(plain_document(none) == Seq::<char>::empty());
    lemma_one_line_more(none, "name"@, text("bambu_x1c"@));
    let l1 = none.push(("name"@, text("bambu_x1c"@)));
    lemma_one_line_more(l1, "max_x_mm"@, decimal("256"@, "0"@));
    let l2 = l1.push(("max_x_mm"@, decimal("256"@, "0"@)));
    lemma_one_line_more(l2, "max_y_mm"@, decimal("256"@, "0"@));
    let l3 = l2.push(("max_y_mm"@, decimal("256"@, "0"@)));
    lemma_one_line_more(l3, "max_z_mm"@, decimal("256"@, "0"@));
    let l4 = l3.push(("max_z_mm"@, decimal("256"@, "0"@)));
    lemma_one_line_more(l4, "max_feedrate_mm_per_min"@, decimal("1200"@, "0"@));
    let l5 = l4.push(("max_feedrate_mm_per_min"@, decimal("1200"@, "0"@)));
    lemma_one_line_more(l5, "max_acceleration_mm_per_s2"@, decimal("20000"@, "0"@));
    let l6 = l5.push(("max_acceleration_mm_per_s2"@, decimal("20000"@, "0"@)));
    lemma_one_line_more(l6, "nozzle_diameter_mm"@, decimal("0"@, "4"@));
    let l7 = l6.push(("nozzle_diameter_mm"@, decimal("0"@, "4"@)));
    lemma_one_line_more(l7, "firmware"@, text("bambu"@));
    let l8 = l7.push(("firmware"@, text("bambu"@)));
    assert(profile_lines("bambu_x1c"@) =~= l8);
    reveal_strlit("name");
    reveal_strlit("max_x_mm");
    reveal_strlit("max_y_mm");
    reveal_strlit("max_z_mm");
    reveal_strlit("max_feedrate_mm_per_min");
    reveal_strlit("max_acceleration_mm_per_s2");
    reveal_strlit("nozzle_diameter_mm");
    reveal_strlit("firmware");
    reveal_strlit("bambu_x1c");
    reveal_strlit("256");
    reveal_strlit("0");
    reveal_strlit("1200");
    reveal_strlit("20000");
    reveal_strlit("4");
    reveal_strlit("bambu");
    reveal_strlit(" = ");
    reveal_strlit(".");
    reveal_strlit("\"");
    reveal_strlit("\n");
    reveal_strlit(
        "name = \"bambu_x1c\"
max_x_mm = 256.0
max_y_mm = 256.0
max_z_mm = 256.0
max_feedrate_mm_per_min = 1200.0
max_acceleration_mm_per_s2 = 20000.0
nozzle_diameter_mm = 0.4
firmware = \"bambu\"
",
    );
    assert(plain_document(l8) =~= BAMBU_X1C@);
}

proof fn lemma_generic_300_is_plain()
    ensures
        is_plain(profile_lines("generic_300"@)),
        plain_document(profile_lines("generic_300"@)) == GENERIC_300@,
{
    lemma_keys();
    lemma_values();
    lemma_names_differ();
    let none = Seq::<(Seq<char>, PlainValue)>::empty();
    assert(plain_document(none) == Seq::<char>::empty());
    lemma_one_line_more(none, "name"@, text("generic_300"@));
    let l1 = none.push(("name"@, text("generic_300"@)));
    lemma_one_line_more(l1, "max_x_mm"@, decimal("300"@, "0"@));
    let l2 = l1.push(("max_x_mm"@, decimal("300"@, "0"@)));
    lemma_one_line_more(l2, "max_y_mm"@, decimal("300"@, "0"@));
    let l3 = l2.push(("max_y_mm"@, decimal("300"@, "0"@)));
    lemma_one_line_more(l3, "max_z_mm"@, decimal("400"@, "0"@));
    let l4 = l3.push(("max_z_mm"@, decimal("400"@, "0"@)));
    assert(profile_lines("generic_300"@) =~= l4);
    reveal_strlit("name");
    reveal_strlit("max_x_mm");
    reveal_strlit("max_y_mm");
    reveal_strlit("max_z_mm");
    reveal_strlit("generic_300");
    reveal_strlit("300");
    reveal_strlit("0");
    reveal_strlit("400");
    reveal_strlit(" = ");
    reveal_strlit(".");
    reveal_strlit("\"");
    reveal_strlit("\n");
    reveal_strlit(
        "name = \"generic_300\"
max_x_mm = 300.0
max_y_mm = 300.0
max_z_mm = 400.0
",
    );
    assert(plain_document(l4) =~= GENERIC_300@);
}

proof fn lemma_names_differ()
    ensures
        "ender3"@ != "prusa_mk4"@,
        "ender3"@ != "voron_v2"@,
        "ender3"@ != "bambu_x1c"@,
        "ender3"@ != "generic_300"@,
        "prusa_mk4"@ != "voron_v2"@,
        "prusa_mk4"@ != "bambu_x1c"@,
        "prusa_mk4"@ != "generic_300"@,
        "voron_v2"@ != "bambu_x1c"@,
        "voron_v2"@ != "generic_300"@,
        "bambu_x1c"@ != "generic_300"@,
{
    reveal_strlit("ender3");
    reveal_strlit("prusa_mk4");
    reveal_strlit("voron_v2");
    reveal_strlit("bambu_x1c");
    reveal_strlit("generic_300");
    assert("ender3"@.len() != "prusa_mk4"@.len());
    assert("ender3"@.len() != "voron_v2"@.len());
    assert("ender3"@.len() != "bambu_x1c"@.len());
    assert("ender3"@.len() != "generic_300"@.len());
    assert("prusa_mk4"@.len() != "voron_v2"@.len());
    assert("prusa_mk4"@[0] != "bambu_x1c"@[0]);
    assert("prusa_mk4"@.len() != "generic_300"@.len());
    assert("voron_v2"@.len() != "bambu_x1c"@.len());
    assert("voron_v2"@.len() != "generic_300"@.len());
    assert("bambu_x1c"@.len() != "generic_300"@.len());
}

/// The text of every built-in profile is the plain document of its lines.
pub proof fn lemma_profiles_are_plain(name: Seq<char>)
    requires
        profile_source(name) is Some,
    ensures
        is_plain(profile_lines(name)),
        profile_source(name) == Some(plain_document(profile_lines(name))),
{
    lemma_ender3_is_plain();
    lemma_prusa_mk4_is_plain();
    lemma_voron_v2_is_plain();
    lemma_bambu_x1c_is_plain();
    lemma_generic_300_is_plain();
    lemma_names_differ();
}

// ── What is loaded ────────────────────────────────────────────────────────────

/// There is a profile for each of the names, and for no other.
pub proof fn lemma_every_name_has_a_profile(name: Seq<char>)
    ensures
        profile_source(name) is Some <==> profile_names().contains(name),
{
    let names = profile_names();
    assert(names[0] == "ender3"@ && names[1] == "prusa_mk4"@ && names[2] == "voron_v2"@ && names[3]
        == "bambu_x1c"@ && names[4] == "generic_300"@);
    if names.contains(name) {
        let i = choose|i: int| 0 <= i < names.len() && names[i] == name;
        assert(i == 0 || i == 1 || i == 2 || i == 3 || i == 4);
    }
}

/// Whether the number type reads all numerals of a document.
pub open spec fn reads_all_numbers<N: Scalar>(entries: Seq<(Seq<char>, TomlModel)>) -> bool {
    forall|key: Seq<char>|
        (#[trigger] entry_from(entries, key, 0) matches Some(TomlModel::Number(text))
            ==> N::parse_spec(text) is Some)
}

/// Whether a field, if a document has it, is a number there.
spec fn is_number_field(entries: Seq<(Seq<char>, TomlModel)>, key: Seq<char>) -> bool {
    match entry_from(entries, key, 0) {
        Some(value) => value is Number,
        None => true,
    }
}

proof fn lemma_fields_are_as_spelled(entries: Seq<(Seq<char>, TomlModel)>, name: Seq<char>)
    requires
        profile_source(name) is Some,
        says(entries, profile_lines(name)),
    ensures
        entry_from(entries, "name"@, 0) == Some(TomlModel::Text(name)),
        entry_from(entries, "max_x_mm"@, 0) is Some && is_number_field(entries, "max_x_mm"@),
        entry_from(entries, "max_y_mm"@, 0) is Some && is_number_field(entries, "max_y_mm"@),
        entry_from(entries, "max_z_mm"@, 0) is Some && is_number_field(entries, "max_z_mm"@),
        is_number_field(entries, "max_feedrate_mm_per_min"@),
        is_number_field(entries, "max_acceleration_mm_per_s2"@),
        is_number_field(entries, "nozzle_diameter_mm"@),
        entry_from(entries, "firmware"@, 0) matches Some(value) ==> value is Text,
{
    lemma_keys();
    lemma_names_differ();
    let lines = profile_lines(name);
    assert(lines[0].0 == "name"@ && lines[1].0 == "max_x_mm"@ && lines[2].0 == "max_y_mm"@
        && lines[3].0 == "max_z_mm"@);
    if name != "generic_300"@ {
        assert(lines[4].0 == "max_feedrate_mm_per_min"@);
        if name == "ender3"@ {
            assert(lines[5].0 == "nozzle_diameter_mm"@ && lines[6].0 == "firmware"@);
        } else {
            assert(lines[5].0 == "max_acceleration_mm_per_s2"@ && lines[6].0
                == "nozzle_diameter_mm"@ && lines[7].0 == "firmware"@);
        }
    }
    assert(name == "generic_300"@ ==> lines.len() == 4);
    assert(name == "ender3"@ ==> lines.len() == 7);
}

/// Where the text of a built-in profile is read as it is spelled out, the profile is
/// the one of that name, provided that the number type reads its numerals.
pub proof fn lemma_profiles_load<N: Scalar>(
    entries: Seq<(Seq<char>, TomlModel)>,
    name: Seq<char>,
)
    requires
        profile_source(name) is Some,
        says(entries, profile_lines(name)),
    ensures
        profile_of::<N>(entries) matches Ok(model) ==> model.name == name,
        reads_all_numbers::<N>(entries) ==> profile_of::<N>(entries) is Ok,
{
    lemma_fields_are_as_spelled(entries, name);
}

} // verus!
