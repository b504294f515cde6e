//! What is taken for granted, and which firmware a program is for.

use vstd::prelude::*;

use crate::arc_fitter::{
    default_tolerance_spec, flavour_from, flavour_in, supports_arcs, FirmwareFlavour,
};
use crate::fixed::Fixed;
use crate::models::{Command, MachineLimits, Spanned};
use crate::scalar::Scalar;
use crate::text::{has_text, lower_of};

verus! {

/// Without options a point may be 0.02 mm off its circle, and the printer is one of
/// 300 mm by 300 mm by 400 mm.
pub proof fn lemma_defaults()
    ensures
        default_tolerance_spec::<Fixed>().millionths == 20_000,
        MachineLimits::<Fixed>::common().max_x.millionths == 300_000_000,
        MachineLimits::<Fixed>::common().max_y.millionths == 300_000_000,
        MachineLimits::<Fixed>::common().max_z.millionths == 400_000_000,
{
    assert(Fixed::of_spec(2).millionths == 2_000_000);
    assert(Fixed::of_spec(100).millionths == 100_000_000);
    assert(2_000_000nat * 1_000_000 / 100_000_000 == 20_000);
    assert(Fixed::of_spec(300).millionths == 300_000_000);
    assert(Fixed::of_spec(400).millionths == 400_000_000);
}

/// Whether a command moves the head.
pub open spec fn is_move<N>(command: Command<N>) -> bool {
    command is LinearMove || command is RapidMove || command is ArcMoveCW || command is ArcMoveCCW
}

/// Whether a command is a comment that names a firmware.
pub open spec fn names_firmware<N>(command: Command<N>) -> bool {
    command matches Command::Comment { text } && flavour_in(text) is Some
}

/// The first comment that names a firmware decides, where no move comes before it.
pub proof fn lemma_first_name_decides<N>(p: Seq<Spanned<Command<N>>>, i: int, k: int)
    requires
        0 <= i <= k < p.len(),
        names_firmware(p[k].inner),
        forall|j: int|
            i <= j < k ==> !is_move((#[trigger] p[j]).inner) && !names_firmware(p[j].inner),
    ensures
        Some(flavour_from(p, i)) == flavour_in(p[k].inner->text),
    decreases k - i,
{
    if i < k {
        assert(!is_move(p[i].inner) && !names_firmware(p[i].inner));
        lemma_first_name_decides(p, i + 1, k);
    }
}

/// A firmware that is named behind the first move is not looked at, and one that is not
/// named is unknown and not known to support arcs.
pub proof fn lemma_names_behind_moves_are_ignored<N>(
    p: Seq<Spanned<Command<N>>>,
    i: int,
    k: int,
)
    requires
        0 <= i <= k <= p.len(),
        k < p.len() ==> is_move(p[k].inner),
        forall|j: int| i <= j < k ==> !names_firmware((#[trigger] p[j]).inner),
    ensures
        flavour_from(p, i) == FirmwareFlavour::Unknown,
        !supports_arcs(flavour_from(p, i)),
    decreases k - i,
{
    if i < k {
        assert(!names_firmware(p[i].inner));
        if !is_move(p[i].inner) {
            lemma_names_behind_moves_are_ignored(p, i + 1, k);
        }
    }
}

/// Names are found in any case: texts that differ in capitals alone name the same.
pub proof fn lemma_names_are_found_in_any_case(a: Seq<char>, b: Seq<char>)
    requires
        lower_of(a) == lower_of(b),
    ensures
        flavour_in(a) == flavour_in(b),
{
}

/// Each firmware is known by its name, where no other name is in the text.
pub proof fn lemma_firmware_is_known_by_name(text: Seq<char>)
    ensures
        ({
            let lower = lower_of(text);
            let marlin = has_text(lower, "marlin"@);
            let klipper = has_text(lower, "klipper"@);
            let smoothie = has_text(lower, "smoothie"@);
            let repetier = has_text(lower, "repetier"@);
            &&& flavour_in(text) == Some(FirmwareFlavour::Marlin) <==> marlin
            &&& flavour_in(text) == Some(FirmwareFlavour::Klipper) <==> klipper && !marlin
            &&& flavour_in(text) == Some(FirmwareFlavour::Smoothieware) <==> smoothie && !klipper
                && !marlin
            &&& flavour_in(text) is None ==> !marlin && !klipper && !smoothie && !repetier
                && !has_text(lower, "cura"@) && !has_text(lower, "makerbot"@)
            &&& flavour_in(text) == Some(FirmwareFlavour::Repetier) ==> repetier
        }),
{
}

} // verus!
