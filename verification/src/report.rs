use vstd::prelude::*;

use crate::layout::{FingerKind, Key};
use crate::ngrams::{BigramKind, TrigramKind};

verus! {

/// The counters of a report that a bigram kind adds to.
#[derive(Debug, Clone, Copy, PartialEq, Eq, Hash, Structural)]
pub enum BigramCounter {
    SkipsOne,
    SkipsMany,
    LateralStretches,
    Scissors,
    WideScissors,
    Others,
}

/// The counters of a report that a trigram kind adds to.
#[derive(Debug, Clone, Copy, PartialEq, Eq, Hash, Structural)]
pub enum TrigramCounter {
    SameHandSkips,
    AlternationSkips,
    RollIn,
    RollOut,
    RollInBigrams,
    RollOutBigrams,
    RedirectsWeak,
    RedirectsStrong,
    Alternations,
    Others,
}

/// The counter of a bigram kind: skips by one unit and by more, lateral
/// stretches, scissors (wide when the keys' row distance plus column
/// distance exceeds two key units, which `spans_over_two` tells), and the
/// rest.
pub open spec fn bigram_counter_of(kind: BigramKind, spans_over_two: bool) -> BigramCounter {
    match kind {
        BigramKind::SameFingerSkip { units } => if units == 1 {
            BigramCounter::SkipsOne
        } else {
            BigramCounter::SkipsMany
        },
        BigramKind::LateralStretch { .. } => BigramCounter::LateralStretches,
        BigramKind::Scissor { .. } => if spans_over_two {
            BigramCounter::WideScissors
        } else {
            BigramCounter::Scissors
        },
        BigramKind::Other => BigramCounter::Others,
    }
}

/// The counter of a trigram kind, if the report has one: skips split by
/// whether the middle key is typed by the same hand, rolls by their length
/// and direction, redirects by their strength, alternations, and the rest.
/// Lateral stretches and scissors of trigrams are not reported.
pub open spec fn trigram_counter_of(kind: TrigramKind) -> Option<TrigramCounter> {
    match kind {
        TrigramKind::SameFingerSkip { same_hand, .. } => Some(
            if same_hand {
                TrigramCounter::SameHandSkips
            } else {
                TrigramCounter::AlternationSkips
            },
        ),
        TrigramKind::Roll { triple, inward } => Some(
            if triple && inward {
                TrigramCounter::RollIn
            } else if triple {
                TrigramCounter::RollOut
            } else if inward {
                TrigramCounter::RollInBigrams
            } else {
                TrigramCounter::RollOutBigrams
            },
        ),
        TrigramKind::Redirect { weak } => Some(
            if weak {
                TrigramCounter::RedirectsWeak
            } else {
                TrigramCounter::RedirectsStrong
            },
        ),
        TrigramKind::Alternation => Some(TrigramCounter::Alternations),
        TrigramKind::Other => Some(TrigramCounter::Others),
        TrigramKind::LateralStretch { .. } => None,
        TrigramKind::Scissor { .. } => None,
    }
}

/// Each bigram kind is counted in the counters of its own family: skips
/// (of one unit exactly when the skip is one unit long), lateral stretches,
/// scissors (wide exactly when the keys span more than two units), others.
pub proof fn lemma_bigram_counters(kind: BigramKind, spans_over_two: bool)
    ensures
        ({
            let c = bigram_counter_of(kind, spans_over_two);
            &&& (c == BigramCounter::SkipsOne || c == BigramCounter::SkipsMany) <==> kind is SameFingerSkip
            &&& c == BigramCounter::SkipsOne <==> (kind matches BigramKind::SameFingerSkip { units } && units == 1)
            &&& c == BigramCounter::LateralStretches <==> kind is LateralStretch
            &&& (c == BigramCounter::Scissors || c == BigramCounter::WideScissors) <==> kind is Scissor
            &&& c == BigramCounter::WideScissors <==> (kind is Scissor && spans_over_two)
            &&& c == BigramCounter::Others <==> kind is Other
        }),
{
}

/// Each trigram kind is counted in the counters of its own family: a roll
/// in an inward counter exactly when it is inward and in a three-key
/// counter exactly when it spans three keys; a skip by whether the middle
/// key is typed by the same hand; a redirect by its strength; alternations
/// and others in their own. Stretches and scissors of trigrams are not
/// counted.
pub proof fn lemma_trigram_counters(kind: TrigramKind)
    ensures
        ({
            let c = trigram_counter_of(kind);
            &&& c is None <==> (kind is LateralStretch || kind is Scissor)
            &&& kind matches TrigramKind::Roll { triple, inward } ==> (c matches Some(r)
                && (r == TrigramCounter::RollIn || r == TrigramCounter::RollOut || r == TrigramCounter::RollInBigrams
                || r == TrigramCounter::RollOutBigrams)
                && ((r == TrigramCounter::RollIn || r == TrigramCounter::RollInBigrams) <==> inward)
                && ((r == TrigramCounter::RollIn || r == TrigramCounter::RollOut) <==> triple))
            &&& kind matches TrigramKind::SameFingerSkip { same_hand, .. } ==> c == Some(
                if same_hand { TrigramCounter::SameHandSkips } else { TrigramCounter::AlternationSkips },
            )
            &&& kind matches TrigramKind::Redirect { weak } ==> c == Some(
                if weak { TrigramCounter::RedirectsWeak } else { TrigramCounter::RedirectsStrong },
            )
            &&& c == Some(TrigramCounter::Alternations) <==> kind is Alternation
            &&& c == Some(TrigramCounter::Others) <==> kind is Other
        }),
{
}

pub fn bigram_counter(kind: &BigramKind, spans_over_two: bool) -> (counter: BigramCounter)
    ensures
        counter == bigram_counter_of(*kind, spans_over_two),
{
    match kind {
        BigramKind::SameFingerSkip { units } => if *units == 1 {
            BigramCounter::SkipsOne
        } else {
            BigramCounter::SkipsMany
        },
        BigramKind::LateralStretch { .. } => BigramCounter::LateralStretches,
        BigramKind::Scissor { .. } => if spans_over_two {
            BigramCounter::WideScissors
        } else {
            BigramCounter::Scissors
        },
        BigramKind::Other => BigramCounter::Others,
    }
}

pub fn trigram_counter(kind: &TrigramKind) -> (counter: Option<TrigramCounter>)
    ensures
        counter == trigram_counter_of(*kind),
{
    match kind {
        TrigramKind::SameFingerSkip { same_hand, .. } => Some(
            if *same_hand {
                TrigramCounter::SameHandSkips
            } else {
                TrigramCounter::AlternationSkips
            },
        ),
        TrigramKind::Roll { triple, inward } => Some(
            if *triple && *inward {
                TrigramCounter::RollIn
            } else if *triple {
                TrigramCounter::RollOut
            } else if *inward {
                TrigramCounter::RollInBigrams
            } else {
                TrigramCounter::RollOutBigrams
            },
        ),
        TrigramKind::Redirect { weak } => Some(
            if *weak {
                TrigramCounter::RedirectsWeak
            } else {
                TrigramCounter::RedirectsStrong
            },
        ),
        TrigramKind::Alternation => Some(TrigramCounter::Alternations),
        TrigramKind::Other => Some(TrigramCounter::Others),
        TrigramKind::LateralStretch { .. } => None,
        TrigramKind::Scissor { .. } => None,
    }
}

/// A key typed by a pinky away from its home position.
pub fn pinky_off_home(key: &Key) -> (b: bool)
    ensures
        b == (key.finger.kind == FingerKind::Pinky && !key.finger_home),
{
    key.finger.kind == FingerKind::Pinky && !key.finger_home
}

} // verus!
