//! What progress markers say, and where they stand, told from the layers alone.
//!
//! The laws on numbers are about decimal numbers, and are stated over whole numbers of
//! millionths.

use vstd::prelude::*;

use crate::fixed::Fixed;
use crate::models::{Command, Spanned};
use crate::optimizer::progress::{
    announces_layers, boundaries, height_tolerance, is_boundary, is_layer_comment, is_marker,
    last_height, lemma_markers_so_far, lemma_place_among_markers, minutes_left, percent, share,
    with_markers, z_of, Timing,
};
use crate::scalar::{sum_of, Scalar};
use crate::text::decimal;

verus! {

// ── Numbers ───────────────────────────────────────────────────────────────────

/// The sum of the first `n` times, in millionths of a second.
pub open spec fn seconds_of(times: Seq<Fixed>, n: int) -> int
    decreases n,
{
    if n <= 0 {
        0
    } else {
        seconds_of(times, n - 1) + times[n - 1].millionths
    }
}

/// Whether no time is negative, and all together are within the range of numbers.
pub open spec fn add_up(times: Seq<Fixed>) -> bool {
    &&& forall|i: int| 0 <= i < times.len() ==> 0 <= (#[trigger] times[i]).millionths
    &&& seconds_of(times, times.len() as int) <= 4_000_000_000_000_000_000
}

proof fn lemma_seconds_grow(times: Seq<Fixed>, m: int, n: int)
    requires
        0 <= m <= n <= times.len(),
        forall|i: int| 0 <= i < times.len() ==> 0 <= (#[trigger] times[i]).millionths,
    ensures
        0 <= seconds_of(times, m) <= seconds_of(times, n),
    decreases n,
{
    if m < n {
        lemma_seconds_grow(times, m, n - 1);
    } else if m > 0 {
        lemma_seconds_grow(times, m - 1, n - 1);
    }
}

proof fn lemma_sum_is_exact(times: Seq<Fixed>, n: int)
    requires
        add_up(times),
        0 <= n <= times.len(),
    ensures
        sum_of(times, n).millionths == seconds_of(times, n),
        0 <= seconds_of(times, n) <= seconds_of(times, times.len() as int),
    decreases n,
{
    lemma_seconds_grow(times, n, times.len() as int);
    if n > 0 {
        lemma_sum_is_exact(times, n - 1);
    }
}

/// Whether `q` millionths are the share that `part` is of `whole`, rounded down.
pub open spec fn is_share(q: int, part: int, whole: int) -> bool {
    0 <= q <= 1_000_000 && q * whole <= part * 1_000_000 < q * whole + whole
}

/// How much of the print is done with layer `k`, out of how much: seconds, where the
/// times of the layers are known, and layers, where they are not.
pub open spec fn done_of(timing: Timing<Fixed>, k: nat) -> (int, int) {
    let total = seconds_of(timing.times, timing.times.len() as int);
    if total > 0 {
        (
            seconds_of(
                timing.times,
                if k <= timing.times.len() {
                    k as int
                } else {
                    timing.times.len() as int
                },
            ),
            total,
        )
    } else {
        (k as int, timing.layers as int)
    }
}

proof fn lemma_quotient(a: int, b: int)
    requires
        0 <= a <= b,
        0 < b,
    ensures
        is_share((a * 1_000_000) / b, a, b),
{
    let q = (a * 1_000_000) / b;
    vstd::arithmetic::div_mod::lemma_fundamental_div_mod(a * 1_000_000, b);
    vstd::arithmetic::div_mod::lemma_mod_bound(a * 1_000_000, b);
    assert(q * b == b * q) by (nonlinear_arith);
    assert(0 <= q <= 1_000_000) by (nonlinear_arith)
        requires
            q == (a * 1_000_000) / b,
            0 <= a <= b,
            0 < b,
    ;
}

proof fn lemma_share_is_told(timing: Timing<Fixed>, k: nat)
    requires
        0 < timing.layers <= u32::MAX,
        k <= timing.layers,
        add_up(timing.times),
    ensures
        ({
            let (part, whole) = done_of(timing, k);
            is_share(
                share(k, timing.layers, timing.times).millionths as int,
                part,
                whole,
            )
        }),
{
    let times = timing.times;
    let n = times.len() as int;
    lemma_sum_is_exact(times, n);
    let total = sum_of(times, n);
    if total.millionths > 0 {
        let m = if k <= times.len() {
            k as int
        } else {
            n
        };
        lemma_sum_is_exact(times, m);
        lemma_quotient(seconds_of(times, m), seconds_of(times, n));
        assert(sum_of(times, m).over_spec(total).millionths == (seconds_of(times, m) * 1_000_000)
            / seconds_of(times, n));
    } else {
        let a = k as int;
        let b = timing.layers as int;
        lemma_quotient(a, b);
        let x = Fixed::count_spec(k as u64);
        let y = Fixed::count_spec(timing.layers as u64);
        assert(x.millionths == a * 1_000_000);
        assert(y.millionths == b * 1_000_000);
        assert(((a * 1_000_000) * 1_000_000) / (b * 1_000_000) == (a * 1_000_000) / b)
            by (nonlinear_arith)
            requires
                0 <= a,
                0 < b,
        ;
    }
}

/// The marker of layer `k` tells how far the print is: its P is the share that is done,
/// in percent, to the nearest whole number, and its R the share of the estimated time
/// that is left, in minutes, to the nearest whole number.
pub proof fn lemma_markers_tell_the_share(timing: Timing<Fixed>, k: nat) -> (told: (nat, nat, int))
    requires
        0 < timing.layers <= u32::MAX,
        k <= timing.layers,
        add_up(timing.times),
        0 <= timing.seconds.millionths <= 100_000_000_000_000_000,
    ensures
        timing.marker(k).inner == (Command::<Fixed>::MetaCommand {
            code: 73,
            params: "P"@ + decimal(told.0) + " R"@ + decimal(told.1),
        }),
        is_share(told.2, done_of(timing, k).0, done_of(timing, k).1),
        -500_000 <= told.0 * 1_000_000 - 100 * told.2 <= 500_000,
        -30_000_061 <= told.1 * 60_000_000 - (timing.seconds.millionths * (1_000_000 - told.2))
            / 1_000_000 <= 30_000_061,
{
    let q = share(k, timing.layers, timing.times);
    lemma_share_is_told(timing, k);
    lemma_percent(q);
    lemma_minutes(timing.seconds, q);
    (
        percent(q) as nat,
        minutes_left(timing.seconds, q) as nat,
        q.millionths as int,
    )
}

proof fn lemma_percent(q: Fixed)
    requires
        0 <= q.millionths <= 1_000_000,
    ensures
        -500_000 <= percent(q) * 1_000_000 - 100 * q.millionths <= 500_000,
{
    let n = q.millionths as int;
    assert(Fixed::of_spec(100).millionths == 100_000_000);
    assert((n * 100_000_000) / 1_000_000 == n * 100);
    assert(q.times_spec(Fixed::of_spec(100)).millionths == n * 100);
}

proof fn lemma_minutes(seconds: Fixed, q: Fixed)
    requires
        0 <= q.millionths <= 1_000_000,
        0 <= seconds.millionths <= 100_000_000_000_000_000,
    ensures
        -30_000_061 <= minutes_left(seconds, q) * 60_000_000 - (seconds.millionths * (1_000_000
            - q.millionths)) / 1_000_000 <= 30_000_061,
{
    let s = seconds.millionths as int;
    let rest = 1_000_000 - q.millionths;
    assert(Fixed::of_spec(1).millionths == 1_000_000);
    assert(Fixed::of_spec(60).millionths == 60_000_000);
    assert(Fixed::of_spec(0).millionths == 0);
    let remaining = Fixed::of_spec(1).minus_spec(q.min_spec(Fixed::of_spec(1))).max_spec(
        Fixed::of_spec(0),
    );
    assert(remaining.millionths == rest);
    assert(0 <= s * rest <= s * 1_000_000) by (nonlinear_arith)
        requires
            0 <= s,
            0 <= rest <= 1_000_000,
    ;
    let left = (s * rest) / 1_000_000;
    let t = seconds.times_spec(remaining);
    assert(t.millionths == left);
    let m = t.over_spec(Fixed::of_spec(60));
    assert((left * 1_000_000) / 60_000_000 == left / 60);
    assert(m.millionths == left / 60);
}

// ── Places ────────────────────────────────────────────────────────────────────

/// The Z that a G0 or G1 names.
pub open spec fn named_height<N>(command: Command<N>) -> Option<N> {
    match command {
        Command::RapidMove { z, x: _, y: _, f: _ } => z,
        Command::LinearMove { z, x: _, y: _, e: _, f: _ } => z,
        _ => None,
    }
}

/// Whether command `m` is the last G0 or G1 before `n` that names Z.
pub open spec fn is_last_height<N>(p: Seq<Spanned<Command<N>>>, m: int, n: int) -> bool {
    &&& 0 <= m < n
    &&& named_height(p[m].inner) is Some
    &&& forall|k: int| m < k < n ==> named_height((#[trigger] p[k]).inner) is None
}

proof fn lemma_last_height<N: Scalar>(p: Seq<Spanned<Command<N>>>, n: int)
    requires
        0 <= n <= p.len(),
    ensures
        match last_height(p, n) {
            Some(z) => exists|m: int| #[trigger]
                is_last_height(p, m, n) && named_height(p[m].inner) == Some(z),
            None => forall|k: int| 0 <= k < n ==> named_height((#[trigger] p[k]).inner) is None,
        },
    decreases n,
{
    if n > 0 {
        lemma_last_height(p, n - 1);
        if named_height(p[n - 1].inner) is Some {
            assert(is_last_height(p, n - 1, n));
        } else if let Some(z) = last_height(p, n - 1) {
            let m = choose|m: int| #[trigger]
                is_last_height(p, m, n - 1) && named_height(p[m].inner) == Some(z);
            assert(is_last_height(p, m, n));
        }
    }
}

/// Whether command `n` is the comment `LAYER_CHANGE`.
pub open spec fn is_announcement<N>(p: Seq<Spanned<Command<N>>>, n: int) -> bool {
    p[n].inner == (Command::<N>::Comment { text: "LAYER_CHANGE"@ })
}

/// Whether a G0 or G1 at `n` names a Z above the one that was named last, or the first.
pub open spec fn is_climb(p: Seq<Spanned<Command<Fixed>>>, n: int) -> bool {
    &&& named_height(p[n].inner) is Some
    &&& forall|m: int|
        #[trigger] is_last_height(p, m, n) ==> (named_height(p[m].inner)->0).millionths < (
        named_height(p[n].inner)->0).millionths
}

/// A layer begins with each comment `LAYER_CHANGE`; in a program without such comments,
/// wherever a G0 or G1 names a Z above the one that was named last.
pub proof fn lemma_boundaries_are_climbs_or_comments(
    p: Seq<Spanned<Command<Fixed>>>,
    n: int,
)
    requires
        0 <= n < p.len(),
        forall|k: int|
            0 <= k < p.len() ==> (named_height((#[trigger] p[k]).inner) matches Some(z)
                ==> z.is_finite_spec()),
    ensures
        (exists|k: int| 0 <= k < p.len() && #[trigger] is_announcement(p, k)) ==> is_boundary(p, n)
            == is_announcement(p, n),
        !(exists|k: int| 0 <= k < p.len() && #[trigger] is_announcement(p, k)) ==> is_boundary(
            p,
            n,
        ) == is_climb(p, n),
{
    let any = exists|k: int| 0 <= k < p.len() && #[trigger] is_announcement(p, k);
    assert(any == announces_layers(p)) by {
        if any {
            let k = choose|k: int| 0 <= k < p.len() && #[trigger] is_announcement(p, k);
            assert(is_layer_comment(p[k].inner));
        }
        if announces_layers(p) {
            let k = choose|k: int| 0 <= k < p.len() && is_layer_comment((#[trigger] p[k]).inner);
            assert(is_announcement(p, k));
        }
    }
    lemma_last_height(p, n);
    assert(z_of(p[n].inner) == named_height(p[n].inner));
    assert(height_tolerance::<Fixed>().millionths == 0) by {
        assert(Fixed::of_spec(1).millionths == 1_000_000);
        assert(Fixed::of_spec(1_000_000_000).millionths == 1_000_000_000_000_000);
        assert(1_000_000nat * 1_000_000 / 1_000_000_000_000_000 == 0);
    }
    if named_height(p[n].inner) is Some {
        if let Some(z) = last_height(p, n) {
            let m = choose|m: int| #[trigger]
                is_last_height(p, m, n) && named_height(p[m].inner) == Some(z);
            assert(named_height(p[m].inner) is Some);
            assert forall|k: int| #[trigger] is_last_height(p, k, n) implies k == m by {
                if k < m {
                    assert(named_height(p[m].inner) is None);
                } else if m < k {
                    assert(named_height(p[k].inner) is None);
                }
            }
        }
    }
}

/// Behind the beginning of each layer, up to the number of layers, stands its marker,
/// unless markers are trusted and there is one next to it already; layers count from
/// one.  The marker of layer `k` is that of its number.
pub proof fn lemma_each_layer_has_its_marker<N: Scalar>(
    p: Seq<Spanned<Command<N>>>,
    timing: Timing<N>,
    trust: bool,
    i: int,
) -> (at: int)
    requires
        0 <= i < p.len(),
        is_boundary(p, i),
        boundaries(p, i) < timing.layers,
        !trust || !(0 < i && is_marker(p[i - 1].inner)) && !(i + 1 < p.len() && is_marker(
            p[i + 1].inner,
        )),
    ensures
        0 <= at,
        at + 1 < with_markers(p, timing, trust, p.len() as int).len(),
        with_markers(p, timing, trust, p.len() as int)[at] == p[i],
        with_markers(p, timing, trust, p.len() as int)[at + 1] == timing.marker(
            boundaries(p, i) + 1,
        ),
{
    lemma_place_among_markers(p, timing, trust, i);
    let at = with_markers(p, timing, trust, i).len() as int;
    lemma_markers_so_far(p, timing, trust, i + 1, p.len() as int);
    let after = with_markers(p, timing, trust, i + 1);
    assert(after[at + 1] == timing.marker(boundaries(p, i) + 1));
    at
}

} // verus!
