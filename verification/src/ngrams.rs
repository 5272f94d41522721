use arrayvec::ArrayVec;
use vstd::prelude::*;

use crate::layout::{finger_rank, kind_index, kind_rank, Finger, FingerKind, Key};

verus! {

#[verifier::external_type_specification]
#[verifier::external_body]
#[verifier::reject_recursive_types(T)]
pub struct ExArrayVec<T, const CAP: usize>(ArrayVec<T, CAP>);

/// What a pair of keys typed one after the other asks of the hand.
#[derive(PartialEq, Eq, Debug, Clone, Copy, Structural)]
pub enum BigramKind {
    SameFingerSkip { units: u8 },
    LateralStretch { finger: FingerKind, units: u8 },
    Scissor { units: u8, upper_finger: FingerKind, lower_finger: FingerKind },
    Other,
}

/// What three keys typed one after the other ask of the hands.
#[derive(PartialEq, Eq, Debug, Clone, Copy, Structural)]
pub enum TrigramKind {
    SameFingerSkip { units: u8, same_hand: bool },
    LateralStretch { finger: FingerKind, units: u8, same_hand: bool },
    Scissor { units: u8, upper_finger: FingerKind, lower_finger: FingerKind, same_hand: bool },
    Roll { triple: bool, inward: bool },
    Redirect { weak: bool },
    Alternation,
    Other,
}

pub type BigramKinds = ArrayVec<BigramKind, 4>;

pub type TrigramKinds = ArrayVec<TrigramKind, 4>;

/// The kinds held by a `BigramKinds`, in order.
pub uninterp spec fn bigram_kinds_items(kinds: ArrayVec<BigramKind, 4>) -> Seq<BigramKind>;

/// The kinds held by a `TrigramKinds`, in order.
pub uninterp spec fn trigram_kinds_items(kinds: ArrayVec<TrigramKind, 4>) -> Seq<TrigramKind>;

/// `ArrayVec::new`: an empty vector.
#[verifier::external_body]
fn new_bigram_kinds() -> (kinds: BigramKinds)
    ensures
        bigram_kinds_items(kinds) == Seq::<BigramKind>::empty(),
{
    ArrayVec::new()
}

/// `ArrayVec::push`: appends `kind`; it panics on a full vector, which the
/// precondition rules out.
#[verifier::external_body]
fn push_bigram_kind(kinds: &mut BigramKinds, kind: BigramKind)
    requires
        bigram_kinds_items(*old(kinds)).len() < 4,
    ensures
        bigram_kinds_items(*final(kinds)) == bigram_kinds_items(*old(kinds)).push(kind),
{
    kinds.push(kind)
}

/// `ArrayVec::as_slice`: the elements, in order.
#[verifier::external_body]
fn bigram_kinds_as_slice(kinds: &BigramKinds) -> (items: &[BigramKind])
    ensures
        items@ == bigram_kinds_items(*kinds),
{
    kinds.as_slice()
}

/// `ArrayVec::new`: an empty vector.
#[verifier::external_body]
fn new_trigram_kinds() -> (kinds: TrigramKinds)
    ensures
        trigram_kinds_items(kinds) == Seq::<TrigramKind>::empty(),
{
    ArrayVec::new()
}

/// `ArrayVec::push`: appends `kind`; it panics on a full vector, which the
/// precondition rules out.
#[verifier::external_body]
fn push_trigram_kind(kinds: &mut TrigramKinds, kind: TrigramKind)
    requires
        trigram_kinds_items(*old(kinds)).len() < 4,
    ensures
        trigram_kinds_items(*final(kinds)) == trigram_kinds_items(*old(kinds)).push(kind),
{
    kinds.push(kind)
}

/// `ArrayVec::as_slice`: the elements, in order.
#[verifier::external_body]
fn trigram_kinds_as_slice(kinds: &TrigramKinds) -> (items: &[TrigramKind])
    ensures
        items@ == trigram_kinds_items(*kinds),
{
    kinds.as_slice()
}

/// The distances between two keys that decide a bigram's kinds, measured in
/// key sizes: whether the keys lie apart at all, their distance rounded,
/// their column distance rounded and whether it is at least two, their row
/// distance truncated and whether it is at least one.
#[derive(Debug, Clone, Copy, PartialEq, Eq, Structural)]
pub struct BigramGeometry {
    pub apart: bool,
    pub distance_units: u8,
    pub column_units: u8,
    pub columns_at_least_two: bool,
    pub row_units: u8,
    pub rows_at_least_one: bool,
}

/// Scissors between these fingers (lower finger first) are comfortable.
pub open spec fn preferred_scissor(lower: FingerKind, upper: FingerKind) -> bool {
    ||| lower == FingerKind::Index && upper == FingerKind::Middle
    ||| lower == FingerKind::Index && upper == FingerKind::Pinky
    ||| lower == FingerKind::Index && upper == FingerKind::Ring
    ||| lower == FingerKind::Pinky && upper == FingerKind::Middle
    ||| lower == FingerKind::Pinky && upper == FingerKind::Ring
    ||| lower == FingerKind::Ring && upper == FingerKind::Middle
}

fn is_preferred_scissor(lower: FingerKind, upper: FingerKind) -> (b: bool)
    ensures
        b == preferred_scissor(lower, upper),
{
    match (lower, upper) {
        (FingerKind::Index, FingerKind::Middle) => true,
        (FingerKind::Index, FingerKind::Pinky) => true,
        (FingerKind::Index, FingerKind::Ring) => true,
        (FingerKind::Pinky, FingerKind::Middle) => true,
        (FingerKind::Pinky, FingerKind::Ring) => true,
        (FingerKind::Ring, FingerKind::Middle) => true,
        _ => false,
    }
}

/// Two different fingers of the same hand.
pub open spec fn distinct_same_hand(f1: Finger, f2: Finger) -> bool {
    f1.hand == f2.hand && f1.kind != f2.kind
}

/// Fingers of one hand next to each other.
pub open spec fn adjacent_fingers(f1: Finger, f2: Finger) -> bool {
    distinct_same_hand(f1, f2) && (kind_rank(f1.kind) - kind_rank(f2.kind) == 1 || kind_rank(f2.kind)
        - kind_rank(f1.kind) == 1)
}

/// The larger of two fingers in the order of their fields; the second on a tie.
pub open spec fn max_finger(f1: Finger, f2: Finger) -> Finger {
    if finger_rank(f1) > finger_rank(f2) {
        f1
    } else {
        f2
    }
}

/// The smaller of two fingers in the order of their fields; the first on a tie.
pub open spec fn min_finger(f1: Finger, f2: Finger) -> Finger {
    if finger_rank(f2) < finger_rank(f1) {
        f2
    } else {
        f1
    }
}

pub open spec fn same_finger_skip_part(k1: Key, k2: Key, g: BigramGeometry) -> Seq<BigramKind> {
    if k1.finger == k2.finger && g.apart {
        seq![BigramKind::SameFingerSkip { units: g.distance_units }]
    } else {
        Seq::empty()
    }
}

pub open spec fn outer_stretch_part(k1: Key, k2: Key, g: BigramGeometry) -> Seq<BigramKind> {
    if adjacent_fingers(k1.finger, k2.finger) && g.columns_at_least_two && (kind_rank(k1.finger.kind) > 2
        || kind_rank(k2.finger.kind) > 2) {
        seq![
            BigramKind::LateralStretch {
                finger: max_finger(k1.finger, k2.finger).kind,
                units: g.column_units,
            },
        ]
    } else {
        Seq::empty()
    }
}

pub open spec fn inner_stretch_part(k1: Key, k2: Key, g: BigramGeometry) -> Seq<BigramKind> {
    if adjacent_fingers(k1.finger, k2.finger) && g.columns_at_least_two && (kind_rank(k1.finger.kind) < 2
        || kind_rank(k2.finger.kind) < 2) {
        seq![
            BigramKind::LateralStretch {
                finger: min_finger(k1.finger, k2.finger).kind,
                units: g.column_units,
            },
        ]
    } else {
        Seq::empty()
    }
}

pub open spec fn scissor_part(k1: Key, k2: Key, g: BigramGeometry) -> Seq<BigramKind> {
    let (upper, lower) = if k1.position.r < k2.position.r {
        (k1, k2)
    } else {
        (k2, k1)
    };
    if distinct_same_hand(k1.finger, k2.finger) && g.rows_at_least_one && !preferred_scissor(
        lower.finger.kind,
        upper.finger.kind,
    ) {
        seq![
            BigramKind::Scissor {
                units: g.row_units,
                upper_finger: upper.finger.kind,
                lower_finger: lower.finger.kind,
            },
        ]
    } else {
        Seq::empty()
    }
}

/// The kinds of typing `k1` then `k2`: a same-finger skip when one finger
/// moves; a lateral stretch of the outer and of the inner finger of adjacent
/// fingers two columns apart; a scissor of two fingers of one hand a row
/// apart, unless the pair is a comfortable one; `Other` when none applies.
pub open spec fn bigram_kinds_spec(k1: Key, k2: Key, g: BigramGeometry) -> Seq<BigramKind> {
    let found = same_finger_skip_part(k1, k2, g) + outer_stretch_part(k1, k2, g) + inner_stretch_part(
        k1,
        k2,
        g,
    ) + scissor_part(k1, k2, g);
    if found.len() == 0 {
        seq![BigramKind::Other]
    } else {
        found
    }
}

/// The bigram kinds that carry over to a trigram, each marked with whether
/// the middle key is typed by the same hand; `Other` is dropped.
pub open spec fn lift_bigram_kinds(kinds: Seq<BigramKind>, same_hand: bool) -> Seq<TrigramKind>
    decreases kinds.len(),
{
    if kinds.len() == 0 {
        Seq::empty()
    } else {
        lift_bigram_kinds(kinds.drop_last(), same_hand) + match kinds.last() {
            BigramKind::SameFingerSkip { units } => seq![TrigramKind::SameFingerSkip { units, same_hand }],
            BigramKind::LateralStretch { finger, units } => seq![
                TrigramKind::LateralStretch { finger, units, same_hand },
            ],
            BigramKind::Scissor { units, upper_finger, lower_finger } => seq![
                TrigramKind::Scissor { units, upper_finger, lower_finger, same_hand },
            ],
            BigramKind::Other => Seq::empty(),
        }
    }
}

pub open spec fn skip_part(k1: Key, k2: Key, k3: Key, g13: BigramGeometry) -> Seq<TrigramKind> {
    if k1.finger != k2.finger && k3.finger != k2.finger {
        lift_bigram_kinds(bigram_kinds_spec(k1, k3, g13), k2.finger.hand == k1.finger.hand)
    } else {
        Seq::empty()
    }
}

pub open spec fn one_hand_part(k1: Key, k2: Key, k3: Key) -> Seq<TrigramKind> {
    let (r1, r2, r3) = (finger_rank(k1.finger), finger_rank(k2.finger), finger_rank(k3.finger));
    if k1.finger.hand == k2.finger.hand && k2.finger.hand == k3.finger.hand {
        (if r1 < r2 && r2 < r3 {
            seq![TrigramKind::Roll { triple: true, inward: true }]
        } else {
            Seq::empty()
        }) + (if r1 > r2 && r2 > r3 {
            seq![TrigramKind::Roll { triple: true, inward: false }]
        } else {
            Seq::empty()
        }) + (if (r1 < r2 && r3 < r2 || r1 > r2 && r3 > r2) && k1.finger != k3.finger {
            seq![
                TrigramKind::Redirect {
                    weak: k1.finger.kind == FingerKind::Index || k2.finger.kind == FingerKind::Index
                        || k3.finger.kind == FingerKind::Index,
                },
            ]
        } else {
            Seq::empty()
        })
    } else {
        Seq::empty()
    }
}

pub open spec fn double_roll_part(k1: Key, k2: Key, k3: Key) -> Seq<TrigramKind> {
    let (r1, r2) = (finger_rank(k1.finger), finger_rank(k2.finger));
    if k1.finger.hand == k2.finger.hand && k2.finger.hand != k3.finger.hand {
        (if r1 < r2 {
            seq![TrigramKind::Roll { triple: false, inward: true }]
        } else {
            Seq::empty()
        }) + (if r1 > r2 {
            seq![TrigramKind::Roll { triple: false, inward: false }]
        } else {
            Seq::empty()
        })
    } else {
        Seq::empty()
    }
}

pub open spec fn alternation_part(k1: Key, k2: Key, k3: Key) -> Seq<TrigramKind> {
    if k1.finger.hand == k3.finger.hand && k2.finger.hand != k1.finger.hand && k1.finger != k3.finger {
        seq![TrigramKind::Alternation]
    } else {
        Seq::empty()
    }
}

/// The kinds of typing `k1`, `k2`, `k3`: the skip, stretch and scissor kinds
/// of the first and last key when the middle key uses another finger; rolls
/// over three fingers of one hand, and redirects (weak when an index finger
/// takes part); rolls over two fingers of one hand before a switch of hands;
/// alternation; `Other` when none applies. `g13` is the geometry of the
/// first and last key.
pub open spec fn trigram_kinds_spec(k1: Key, k2: Key, k3: Key, g13: BigramGeometry) -> Seq<TrigramKind> {
    let found = skip_part(k1, k2, k3, g13) + one_hand_part(k1, k2, k3) + double_roll_part(k1, k2, k3)
        + alternation_part(k1, k2, k3);
    if found.len() == 0 {
        seq![TrigramKind::Other]
    } else {
        found
    }
}

fn finger_lt(a: &Finger, b: &Finger) -> (res: bool)
    ensures
        res == (finger_rank(*a) < finger_rank(*b)),
{
    a.rank() < b.rank()
}

/// A pair of keys typed one after the other.
#[derive(PartialEq, Debug)]
pub struct Bigram {
    pub kinds: BigramKinds,
    key1: Key,
    key2: Key,
}

impl Bigram {
    /// The keys, in the order they are typed.
    pub closed spec fn keys(&self) -> (Key, Key) {
        (self.key1, self.key2)
    }

    /// The kinds of the bigram, in order.
    pub closed spec fn kind_items(&self) -> Seq<BigramKind> {
        bigram_kinds_items(self.kinds)
    }

    pub fn new(key1: &Key, key2: &Key, geometry: &BigramGeometry) -> (bigram: Self)
        ensures
            bigram.kind_items() == bigram_kinds_spec(*key1, *key2, *geometry),
            bigram.keys() == (*key1, *key2),
    {
        Bigram { kinds: Self::find_kinds(key1, key2, geometry), key1: *key1, key2: *key2 }
    }

    /// The kinds of typing `key1` then `key2`, with the distances of `geometry`.
    pub fn find_kinds(key1: &Key, key2: &Key, geometry: &BigramGeometry) -> (kinds: BigramKinds)
        ensures
            bigram_kinds_items(kinds) == bigram_kinds_spec(*key1, *key2, *geometry),
    {
        let ghost (k1, k2, g) = (*key1, *key2, *geometry);
        let finger_distance = key1.finger.distance(&key2.finger);
        let mut kinds = new_bigram_kinds();

        if key1.same_finger(key2) && geometry.apart {
            push_bigram_kind(&mut kinds, BigramKind::SameFingerSkip { units: geometry.distance_units });
        }
        assert(bigram_kinds_items(kinds) =~= same_finger_skip_part(k1, k2, g));

        if let Some(d) = finger_distance {
            if d == 1 && geometry.columns_at_least_two {
                let kind1 = kind_index(key1.finger.kind);
                let kind2 = kind_index(key2.finger.kind);
                if kind1 > 2 || kind2 > 2 {
                    let highest = if finger_lt(&key2.finger, &key1.finger) {
                        key1.finger
                    } else {
                        key2.finger
                    };
                    push_bigram_kind(
                        &mut kinds,
                        BigramKind::LateralStretch { finger: highest.kind, units: geometry.column_units },
                    );
                }
                if kind1 < 2 || kind2 < 2 {
                    let lowest = if finger_lt(&key2.finger, &key1.finger) {
                        key2.finger
                    } else {
                        key1.finger
                    };
                    push_bigram_kind(
                        &mut kinds,
                        BigramKind::LateralStretch { finger: lowest.kind, units: geometry.column_units },
                    );
                }
            }
        }
        assert(bigram_kinds_items(kinds) =~= same_finger_skip_part(k1, k2, g) + outer_stretch_part(k1, k2, g)
            + inner_stretch_part(k1, k2, g));

        if let Some(d) = finger_distance {
            if d >= 1 && geometry.rows_at_least_one {
                let (upper, lower) = if key1.position.r < key2.position.r {
                    (key1, key2)
                } else {
                    (key2, key1)
                };
                if !is_preferred_scissor(lower.finger.kind, upper.finger.kind) {
                    push_bigram_kind(
                        &mut kinds,
                        BigramKind::Scissor {
                            units: geometry.row_units,
                            upper_finger: upper.finger.kind,
                            lower_finger: lower.finger.kind,
                        },
                    );
                }
            }
        }
        assert(bigram_kinds_items(kinds) =~= same_finger_skip_part(k1, k2, g) + outer_stretch_part(k1, k2, g)
            + inner_stretch_part(k1, k2, g) + scissor_part(k1, k2, g));

        if bigram_kinds_as_slice(&kinds).len() == 0 {
            push_bigram_kind(&mut kinds, BigramKind::Other);
            assert(bigram_kinds_items(kinds) =~= seq![BigramKind::Other]);
        }
        kinds
    }
}

proof fn lemma_bigram_kinds_len(k1: Key, k2: Key, g: BigramGeometry)
    ensures
        bigram_kinds_spec(k1, k2, g).len() <= 2,
{
    assert(outer_stretch_part(k1, k2, g).len() == 0 || inner_stretch_part(k1, k2, g).len() == 0);
    assert(same_finger_skip_part(k1, k2, g).len() == 0 || scissor_part(k1, k2, g).len() == 0);
    assert(same_finger_skip_part(k1, k2, g).len() == 0 || outer_stretch_part(k1, k2, g).len() == 0);
    assert(same_finger_skip_part(k1, k2, g).len() == 0 || inner_stretch_part(k1, k2, g).len() == 0);
}

/// The kinds of a bigram do not depend on the order of its keys, as long as
/// the keys lie in different rows or are less than a row apart (else which
/// key is the upper one of a scissor is decided by the order).
pub proof fn lemma_bigram_kinds_symmetric(k1: Key, k2: Key, g: BigramGeometry)
    requires
        k1.position.r != k2.position.r || !g.rows_at_least_one,
    ensures
        bigram_kinds_spec(k1, k2, g) == bigram_kinds_spec(k2, k1, g),
{
    assert(same_finger_skip_part(k1, k2, g) == same_finger_skip_part(k2, k1, g));
    assert(outer_stretch_part(k1, k2, g) == outer_stretch_part(k2, k1, g));
    assert(inner_stretch_part(k1, k2, g) == inner_stretch_part(k2, k1, g));
    assert(scissor_part(k1, k2, g) == scissor_part(k2, k1, g));
}

/// A bigram has at least one kind, and `Other` only as its one kind.
pub proof fn lemma_bigram_kinds_other_alone(k1: Key, k2: Key, g: BigramGeometry)
    ensures
        bigram_kinds_spec(k1, k2, g).len() >= 1,
        forall|i: int| 0 <= i < bigram_kinds_spec(k1, k2, g).len() && #[trigger] bigram_kinds_spec(k1, k2, g)[i]
            == BigramKind::Other ==> bigram_kinds_spec(k1, k2, g) == seq![BigramKind::Other],
{
    let found = same_finger_skip_part(k1, k2, g) + outer_stretch_part(k1, k2, g) + inner_stretch_part(k1, k2, g)
        + scissor_part(k1, k2, g);
    assert forall|i: int| 0 <= i < found.len() implies #[trigger] found[i] != BigramKind::Other by {
        let a = same_finger_skip_part(k1, k2, g).len() as int;
        let b = a + outer_stretch_part(k1, k2, g).len();
        let c = b + inner_stretch_part(k1, k2, g).len();
        if i < a {
            assert(found[i] == same_finger_skip_part(k1, k2, g)[i]);
        } else if i < b {
            assert(found[i] == outer_stretch_part(k1, k2, g)[i - a]);
        } else if i < c {
            assert(found[i] == inner_stretch_part(k1, k2, g)[i - b]);
        } else {
            assert(found[i] == scissor_part(k1, k2, g)[i - c]);
        }
    }
}

/// Where an element of four joined sequences comes from.
proof fn lemma_in_four<A>(a: Seq<A>, b: Seq<A>, c: Seq<A>, d: Seq<A>, i: int)
    requires
        0 <= i < (a + b + c + d).len(),
    ensures
        a.contains((a + b + c + d)[i]) || b.contains((a + b + c + d)[i]) || c.contains((a + b + c + d)[i])
            || d.contains((a + b + c + d)[i]),
{
    let x = (a + b + c + d)[i];
    let la = a.len() as int;
    let lb = la + b.len();
    let lc = lb + c.len();
    if i < la {
        assert(a[i] == x);
    } else if i < lb {
        assert(b[i - la] == x);
    } else if i < lc {
        assert(c[i - lb] == x);
    } else {
        assert(d[i - lc] == x);
    }
}

/// Each kind of a bigram is `Other` or comes from one of its four rules.
proof fn lemma_bigram_kind_origin(k1: Key, k2: Key, g: BigramGeometry, i: int)
    requires
        0 <= i < bigram_kinds_spec(k1, k2, g).len(),
    ensures
        ({
            let x = bigram_kinds_spec(k1, k2, g)[i];
            ||| x == BigramKind::Other
            ||| same_finger_skip_part(k1, k2, g).contains(x)
            ||| outer_stretch_part(k1, k2, g).contains(x)
            ||| inner_stretch_part(k1, k2, g).contains(x)
            ||| scissor_part(k1, k2, g).contains(x)
        }),
{
    let found = same_finger_skip_part(k1, k2, g) + outer_stretch_part(k1, k2, g) + inner_stretch_part(k1, k2, g)
        + scissor_part(k1, k2, g);
    if found.len() > 0 {
        lemma_in_four(
            same_finger_skip_part(k1, k2, g),
            outer_stretch_part(k1, k2, g),
            inner_stretch_part(k1, k2, g),
            scissor_part(k1, k2, g),
            i,
        );
    }
}

/// A bigram is a scissor only for two different fingers of one hand whose
/// keys lie a row or more apart, with the finger of the upper key (the key
/// in the smaller row; the second key on a tie) as the upper finger, and
/// never for the comfortable pairs (lower finger first): index and middle,
/// index and pinky, index and ring, pinky and middle, pinky and ring, ring
/// and middle.
pub proof fn lemma_bigram_scissor(k1: Key, k2: Key, g: BigramGeometry, i: int)
    requires
        0 <= i < bigram_kinds_spec(k1, k2, g).len(),
        bigram_kinds_spec(k1, k2, g)[i] is Scissor,
    ensures
        ({
            let x = bigram_kinds_spec(k1, k2, g)[i];
            let (upper, lower) = if k1.position.r < k2.position.r { (k1, k2) } else { (k2, k1) };
            let (lo, up) = (x->lower_finger, x->upper_finger);
            &&& k1.finger.hand == k2.finger.hand
            &&& k1.finger.kind != k2.finger.kind
            &&& g.rows_at_least_one
            &&& x->Scissor_units == g.row_units
            &&& up == upper.finger.kind
            &&& lo == lower.finger.kind
            &&& !(lo == FingerKind::Index && up == FingerKind::Middle)
            &&& !(lo == FingerKind::Index && up == FingerKind::Pinky)
            &&& !(lo == FingerKind::Index && up == FingerKind::Ring)
            &&& !(lo == FingerKind::Pinky && up == FingerKind::Middle)
            &&& !(lo == FingerKind::Pinky && up == FingerKind::Ring)
            &&& !(lo == FingerKind::Ring && up == FingerKind::Middle)
        }),
{
    lemma_bigram_kind_origin(k1, k2, g, i);
}

/// A bigram is a same-finger skip exactly when both keys are typed by the
/// same finger and lie apart, and the skip is as long as their distance.
pub proof fn lemma_bigram_skip(k1: Key, k2: Key, g: BigramGeometry)
    ensures
        (exists|i: int| 0 <= i < bigram_kinds_spec(k1, k2, g).len() && #[trigger] bigram_kinds_spec(k1, k2, g)[i]
            is SameFingerSkip) <==> (k1.finger == k2.finger && g.apart),
        forall|i: int| 0 <= i < bigram_kinds_spec(k1, k2, g).len() && #[trigger] bigram_kinds_spec(k1, k2, g)[i]
            is SameFingerSkip ==> bigram_kinds_spec(k1, k2, g)[i]->SameFingerSkip_units == g.distance_units,
{
    assert forall|i: int| 0 <= i < bigram_kinds_spec(k1, k2, g).len() && #[trigger] bigram_kinds_spec(k1, k2, g)[i]
        is SameFingerSkip implies k1.finger == k2.finger && g.apart && bigram_kinds_spec(k1, k2, g)[i]->SameFingerSkip_units
        == g.distance_units by {
        lemma_bigram_kind_origin(k1, k2, g, i);
    }
    if k1.finger == k2.finger && g.apart {
        assert(bigram_kinds_spec(k1, k2, g)[0] is SameFingerSkip);
    }
}

/// A bigram is a lateral stretch only for neighbouring fingers of one hand
/// whose keys lie two or more columns apart; the stretch is as long as their
/// column distance and is that of the outer finger when it is past the
/// middle finger, or of the inner finger when it is before it.
pub proof fn lemma_bigram_stretch(k1: Key, k2: Key, g: BigramGeometry, i: int)
    requires
        0 <= i < bigram_kinds_spec(k1, k2, g).len(),
        bigram_kinds_spec(k1, k2, g)[i] is LateralStretch,
    ensures
        ({
            let x = bigram_kinds_spec(k1, k2, g)[i];
            let (r1, r2) = (kind_rank(k1.finger.kind), kind_rank(k2.finger.kind));
            let f = x->finger;
            &&& k1.finger.hand == k2.finger.hand
            &&& (r1 - r2 == 1 || r2 - r1 == 1)
            &&& g.columns_at_least_two
            &&& x->LateralStretch_units == g.column_units
            &&& (f == k1.finger.kind || f == k2.finger.kind)
            &&& (kind_rank(f) > 2 && kind_rank(f) >= r1 && kind_rank(f) >= r2)
                || (kind_rank(f) < 2 && kind_rank(f) <= r1 && kind_rank(f) <= r2)
        }),
{
    lemma_bigram_kind_origin(k1, k2, g, i);
}

/// Each lifted kind is a skip, stretch or scissor of the bigram, marked with
/// the given hand flag.
proof fn lemma_lift_origin(kinds: Seq<BigramKind>, same_hand: bool, i: int)
    requires
        0 <= i < lift_bigram_kinds(kinds, same_hand).len(),
    ensures
        ({
            let x = lift_bigram_kinds(kinds, same_hand)[i];
            ||| x matches TrigramKind::SameFingerSkip { same_hand: h, .. } && h == same_hand
            ||| x matches TrigramKind::LateralStretch { same_hand: h, .. } && h == same_hand
            ||| x matches TrigramKind::Scissor { same_hand: h, .. } && h == same_hand
        }),
    decreases kinds.len(),
{
    let init = lift_bigram_kinds(kinds.drop_last(), same_hand);
    if i < init.len() {
        lemma_lift_origin(kinds.drop_last(), same_hand, i);
    }
}

/// Each kind of a trigram is `Other` or comes from one of its four rules.
proof fn lemma_trigram_kind_origin(k1: Key, k2: Key, k3: Key, g: BigramGeometry, i: int)
    requires
        0 <= i < trigram_kinds_spec(k1, k2, k3, g).len(),
    ensures
        ({
            let x = trigram_kinds_spec(k1, k2, k3, g)[i];
            ||| x == TrigramKind::Other
            ||| skip_part(k1, k2, k3, g).contains(x)
            ||| one_hand_part(k1, k2, k3).contains(x)
            ||| double_roll_part(k1, k2, k3).contains(x)
            ||| alternation_part(k1, k2, k3).contains(x)
        }),
{
    let found = skip_part(k1, k2, k3, g) + one_hand_part(k1, k2, k3) + double_roll_part(k1, k2, k3)
        + alternation_part(k1, k2, k3);
    if found.len() > 0 {
        lemma_in_four(skip_part(k1, k2, k3, g), one_hand_part(k1, k2, k3), double_roll_part(k1, k2, k3),
            alternation_part(k1, k2, k3), i);
    }
}

/// Kinds carried over from the first and last key never claim to be rolls,
/// redirects or alternations.
proof fn lemma_skip_part_kinds(k1: Key, k2: Key, k3: Key, g: BigramGeometry, x: TrigramKind)
    requires
        skip_part(k1, k2, k3, g).contains(x),
    ensures
        k1.finger != k2.finger && k3.finger != k2.finger,
        ({
            ||| x matches TrigramKind::SameFingerSkip { same_hand: h, .. } && h == (k2.finger.hand == k1.finger.hand)
            ||| x matches TrigramKind::LateralStretch { same_hand: h, .. } && h == (k2.finger.hand == k1.finger.hand)
            ||| x matches TrigramKind::Scissor { same_hand: h, .. } && h == (k2.finger.hand == k1.finger.hand)
        }),
{
    let i = choose|i: int| 0 <= i < skip_part(k1, k2, k3, g).len() && skip_part(k1, k2, k3, g)[i] == x;
    lemma_lift_origin(bigram_kinds_spec(k1, k3, g), k2.finger.hand == k1.finger.hand, i);
}

/// A trigram is a redirect exactly when one hand types all three keys, the
/// middle key's finger lies beyond both others (both before it or both after
/// it) and the outer keys use different fingers; the redirect is weak exactly
/// when an index finger types one of the three keys.
pub proof fn lemma_trigram_redirect(k1: Key, k2: Key, k3: Key, g: BigramGeometry)
    ensures
        forall|i: int| 0 <= i < trigram_kinds_spec(k1, k2, k3, g).len() && #[trigger] trigram_kinds_spec(k1, k2, k3, g)[i]
            is Redirect ==> trigram_kinds_spec(k1, k2, k3, g)[i]->weak == (k1.finger.kind == FingerKind::Index
            || k2.finger.kind == FingerKind::Index || k3.finger.kind == FingerKind::Index),
        (exists|i: int| 0 <= i < trigram_kinds_spec(k1, k2, k3, g).len() && #[trigger] trigram_kinds_spec(k1, k2, k3, g)[i]
            is Redirect) <==> ({
            let (r1, r2, r3) = (finger_rank(k1.finger), finger_rank(k2.finger), finger_rank(k3.finger));
            &&& k1.finger.hand == k2.finger.hand && k2.finger.hand == k3.finger.hand
            &&& (r1 < r2 && r3 < r2) || (r1 > r2 && r3 > r2)
            &&& k1.finger != k3.finger
        }),
{
    let ks = trigram_kinds_spec(k1, k2, k3, g);
    assert forall|i: int| 0 <= i < ks.len() && #[trigger] ks[i] is Redirect implies ks[i]->weak == (k1.finger.kind
        == FingerKind::Index || k2.finger.kind == FingerKind::Index || k3.finger.kind == FingerKind::Index) && ({
        let (r1, r2, r3) = (finger_rank(k1.finger), finger_rank(k2.finger), finger_rank(k3.finger));
        &&& k1.finger.hand == k2.finger.hand && k2.finger.hand == k3.finger.hand
        &&& (r1 < r2 && r3 < r2) || (r1 > r2 && r3 > r2)
        &&& k1.finger != k3.finger
    }) by {
        lemma_trigram_kind_origin(k1, k2, k3, g, i);
        if skip_part(k1, k2, k3, g).contains(ks[i]) {
            lemma_skip_part_kinds(k1, k2, k3, g, ks[i]);
        }
    }
    let (r1, r2, r3) = (finger_rank(k1.finger), finger_rank(k2.finger), finger_rank(k3.finger));
    if k1.finger.hand == k2.finger.hand && k2.finger.hand == k3.finger.hand && ((r1 < r2 && r3 < r2) || (r1 > r2
        && r3 > r2)) && k1.finger != k3.finger {
        let one = one_hand_part(k1, k2, k3);
        let j = one.len() - 1;
        assert(one[j] is Redirect);
        let skips = skip_part(k1, k2, k3, g);
        let found = skips + one + double_roll_part(k1, k2, k3) + alternation_part(k1, k2, k3);
        assert(found[skips.len() + j] == one[j]);
        assert(ks[skips.len() + j] is Redirect);
    }
}

/// A trigram is a roll over three keys exactly when one hand types them
/// with fingers in strictly increasing order (inward) or strictly decreasing
/// order (outward).
pub proof fn lemma_trigram_triple_roll(k1: Key, k2: Key, k3: Key, g: BigramGeometry, inward: bool)
    ensures
        trigram_kinds_spec(k1, k2, k3, g).contains(TrigramKind::Roll { triple: true, inward }) <==> ({
            let (r1, r2, r3) = (finger_rank(k1.finger), finger_rank(k2.finger), finger_rank(k3.finger));
            &&& k1.finger.hand == k2.finger.hand && k2.finger.hand == k3.finger.hand
            &&& if inward { r1 < r2 && r2 < r3 } else { r1 > r2 && r2 > r3 }
        }),
{
    let ks = trigram_kinds_spec(k1, k2, k3, g);
    let roll = TrigramKind::Roll { triple: true, inward };
    if ks.contains(roll) {
        let i = choose|i: int| 0 <= i < ks.len() && ks[i] == roll;
        lemma_trigram_kind_origin(k1, k2, k3, g, i);
        if skip_part(k1, k2, k3, g).contains(roll) {
            lemma_skip_part_kinds(k1, k2, k3, g, roll);
        }
    }
    let (r1, r2, r3) = (finger_rank(k1.finger), finger_rank(k2.finger), finger_rank(k3.finger));
    if k1.finger.hand == k2.finger.hand && k2.finger.hand == k3.finger.hand && (if inward {
        r1 < r2 && r2 < r3
    } else {
        r1 > r2 && r2 > r3
    }) {
        let one = one_hand_part(k1, k2, k3);
        assert(one[0] == roll);
        let skips = skip_part(k1, k2, k3, g);
        let found = skips + one + double_roll_part(k1, k2, k3) + alternation_part(k1, k2, k3);
        assert(found[skips.len() as int] == one[0]);
        assert(ks[skips.len() as int] == roll);
    }
}

/// A trigram is a roll over two keys exactly when one hand types the first
/// two keys with different fingers and the other hand the third; it is
/// inward when the second finger comes after the first.
pub proof fn lemma_trigram_double_roll(k1: Key, k2: Key, k3: Key, g: BigramGeometry, inward: bool)
    ensures
        trigram_kinds_spec(k1, k2, k3, g).contains(TrigramKind::Roll { triple: false, inward }) <==> ({
            let (r1, r2) = (finger_rank(k1.finger), finger_rank(k2.finger));
            &&& k1.finger.hand == k2.finger.hand && k2.finger.hand != k3.finger.hand
            &&& if inward { r1 < r2 } else { r1 > r2 }
        }),
{
    let ks = trigram_kinds_spec(k1, k2, k3, g);
    let roll = TrigramKind::Roll { triple: false, inward };
    if ks.contains(roll) {
        let i = choose|i: int| 0 <= i < ks.len() && ks[i] == roll;
        lemma_trigram_kind_origin(k1, k2, k3, g, i);
        if skip_part(k1, k2, k3, g).contains(roll) {
            lemma_skip_part_kinds(k1, k2, k3, g, roll);
        }
    }
    let (r1, r2) = (finger_rank(k1.finger), finger_rank(k2.finger));
    if k1.finger.hand == k2.finger.hand && k2.finger.hand != k3.finger.hand && (if inward {
        r1 < r2
    } else {
        r1 > r2
    }) {
        let dbl = double_roll_part(k1, k2, k3);
        assert(dbl[0] == roll);
        let skips = skip_part(k1, k2, k3, g);
        let one = one_hand_part(k1, k2, k3);
        assert(one.len() == 0);
        let found = skips + one + dbl + alternation_part(k1, k2, k3);
        assert(found[skips.len() as int] == dbl[0]);
        assert(ks[skips.len() as int] == roll);
    }
}

/// A trigram is an alternation exactly when the first and last keys are
/// typed by different fingers of one hand and the middle key by the other
/// hand.
pub proof fn lemma_trigram_alternation(k1: Key, k2: Key, k3: Key, g: BigramGeometry)
    ensures
        trigram_kinds_spec(k1, k2, k3, g).contains(TrigramKind::Alternation) <==> (k1.finger.hand
            == k3.finger.hand && k2.finger.hand != k1.finger.hand && k1.finger != k3.finger),
{
    let ks = trigram_kinds_spec(k1, k2, k3, g);
    if ks.contains(TrigramKind::Alternation) {
        let i = choose|i: int| 0 <= i < ks.len() && ks[i] == TrigramKind::Alternation;
        lemma_trigram_kind_origin(k1, k2, k3, g, i);
        if skip_part(k1, k2, k3, g).contains(TrigramKind::Alternation) {
            lemma_skip_part_kinds(k1, k2, k3, g, TrigramKind::Alternation);
        }
    }
    if k1.finger.hand == k3.finger.hand && k2.finger.hand != k1.finger.hand && k1.finger != k3.finger {
        let alt = alternation_part(k1, k2, k3);
        let skips = skip_part(k1, k2, k3, g);
        let one = one_hand_part(k1, k2, k3);
        let dbl = double_roll_part(k1, k2, k3);
        assert(one.len() == 0 && dbl.len() == 0);
        let found = skips + one + dbl + alt;
        assert(found[skips.len() as int] == alt[0]);
        assert(ks[skips.len() as int] == TrigramKind::Alternation);
    }
}

proof fn lemma_lift_len(kinds: Seq<BigramKind>, same_hand: bool)
    ensures
        lift_bigram_kinds(kinds, same_hand).len() <= kinds.len(),
    decreases kinds.len(),
{
    if kinds.len() > 0 {
        lemma_lift_len(kinds.drop_last(), same_hand);
    }
}

/// Three keys typed one after the other.
#[derive(PartialEq, Debug)]
pub struct Trigram {
    pub kinds: TrigramKinds,
    key1: Key,
    key2: Key,
    key3: Key,
}

impl Trigram {
    /// The keys, in the order they are typed.
    pub closed spec fn keys(&self) -> (Key, Key, Key) {
        (self.key1, self.key2, self.key3)
    }

    /// The kinds of the trigram, in order.
    pub closed spec fn kind_items(&self) -> Seq<TrigramKind> {
        trigram_kinds_items(self.kinds)
    }

    /// `geometry13` gives the distances between the first and the last key.
    pub fn new(key1: &Key, key2: &Key, key3: &Key, geometry13: &BigramGeometry) -> (trigram: Self)
        ensures
            trigram.kind_items() == trigram_kinds_spec(*key1, *key2, *key3, *geometry13),
            trigram.keys() == (*key1, *key2, *key3),
    {
        Trigram {
            kinds: Self::find_kinds(key1, key2, key3, geometry13),
            key1: *key1,
            key2: *key2,
            key3: *key3,
        }
    }

    /// The kinds of typing `key1`, `key2`, then `key3`, with the distances
    /// of `geometry13` between the first and the last key.
    pub fn find_kinds(key1: &Key, key2: &Key, key3: &Key, geometry13: &BigramGeometry) -> (kinds: TrigramKinds)
        ensures
            trigram_kinds_items(kinds) == trigram_kinds_spec(*key1, *key2, *key3, *geometry13),
    {
        let ghost (k1, k2, k3, g) = (*key1, *key2, *key3, *geometry13);
        let mut kinds = new_trigram_kinds();

        if !key1.same_finger(key2) && !key3.same_finger(key2) {
            let same_hand = key2.finger.hand == key1.finger.hand;
            let bigram_kinds = Bigram::find_kinds(key1, key3, geometry13);
            let items = bigram_kinds_as_slice(&bigram_kinds);
            let ghost bks = items@;
            proof {
                lemma_bigram_kinds_len(k1, k3, g);
            }
            let mut i: usize = 0;
            while i < items.len()
                invariant
                    bks == items@,
                    bks == bigram_kinds_spec(k1, k3, g),
                    bks.len() <= 2,
                    0 <= i <= bks.len(),
                    trigram_kinds_items(kinds) == lift_bigram_kinds(bks.take(i as int), same_hand),
                decreases bks.len() - i,
            {
                proof {
                    lemma_lift_len(bks.take(i as int), same_hand);
                }
                assert(bks.take(i + 1).drop_last() == bks.take(i as int));
                match items[i] {
                    BigramKind::SameFingerSkip { units } => {
                        push_trigram_kind(&mut kinds, TrigramKind::SameFingerSkip { units, same_hand });
                    },
                    BigramKind::LateralStretch { finger, units } => {
                        push_trigram_kind(
                            &mut kinds,
                            TrigramKind::LateralStretch { finger, units, same_hand },
                        );
                    },
                    BigramKind::Scissor { units, upper_finger, lower_finger } => {
                        push_trigram_kind(
                            &mut kinds,
                            TrigramKind::Scissor { units, upper_finger, lower_finger, same_hand },
                        );
                    },
                    BigramKind::Other => {},
                }
                i = i + 1;
            }
            assert(bks.take(bks.len() as int) == bks);
        }
        let ghost skips = trigram_kinds_items(kinds);
        assert(skips == skip_part(k1, k2, k3, g));
        proof {
            lemma_bigram_kinds_len(k1, k3, g);
            lemma_lift_len(bigram_kinds_spec(k1, k3, g), k2.finger.hand == k1.finger.hand);
        }
        assert(skips.len() <= 2);

        let f1 = key1.finger;
        let f2 = key2.finger;
        let f3 = key3.finger;
        if f1.hand == f2.hand && f2.hand == f3.hand {
            if finger_lt(&f1, &f2) && finger_lt(&f2, &f3) {
                push_trigram_kind(&mut kinds, TrigramKind::Roll { triple: true, inward: true });
            }
            if finger_lt(&f2, &f1) && finger_lt(&f3, &f2) {
                push_trigram_kind(&mut kinds, TrigramKind::Roll { triple: true, inward: false });
            }
            if (finger_lt(&f1, &f2) && finger_lt(&f3, &f2) || finger_lt(&f2, &f1) && finger_lt(&f2, &f3))
                && !key1.same_finger(key3) {
                let weak = f1.kind == FingerKind::Index || f2.kind == FingerKind::Index || f3.kind
                    == FingerKind::Index;
                push_trigram_kind(&mut kinds, TrigramKind::Redirect { weak });
            }
        }
        assert(trigram_kinds_items(kinds) =~= skips + one_hand_part(k1, k2, k3));

        if f1.hand == f2.hand && f2.hand != f3.hand {
            if finger_lt(&f1, &f2) {
                push_trigram_kind(&mut kinds, TrigramKind::Roll { triple: false, inward: true });
            }
            if finger_lt(&f2, &f1) {
                push_trigram_kind(&mut kinds, TrigramKind::Roll { triple: false, inward: false });
            }
        }
        assert(trigram_kinds_items(kinds) =~= skips + one_hand_part(k1, k2, k3) + double_roll_part(k1, k2, k3));

        if f1.hand == f3.hand && f2.hand != f1.hand && !key1.same_finger(key3) {
            push_trigram_kind(&mut kinds, TrigramKind::Alternation);
        }
        assert(trigram_kinds_items(kinds) =~= skips + one_hand_part(k1, k2, k3) + double_roll_part(k1, k2, k3)
            + alternation_part(k1, k2, k3));

        if trigram_kinds_as_slice(&kinds).len() == 0 {
            push_trigram_kind(&mut kinds, TrigramKind::Other);
            assert(trigram_kinds_items(kinds) =~= seq![TrigramKind::Other]);
        }
        kinds
    }
}

/// A single key.
#[derive(PartialEq, Debug)]
pub struct Unigram {
    pub key: Key,
}

impl Unigram {
    pub fn new(key: &Key) -> (unigram: Self)
        ensures
            unigram.key == *key,
    {
        Unigram { key: *key }
    }
}

} // verus!
