use layouts_rs::layout::{Finger, FingerKind, Hand, Key};
use layouts_rs::matrix::Pos;
use layouts_rs::ngrams::{Bigram, BigramGeometry, BigramKind, Trigram, TrigramKind, Unigram};

fn make_key(ch: char, hand: Hand, kind: FingerKind, r: usize, c: usize) -> Key {
    Key::new(ch, Finger::new(hand, kind), Pos::new(r, c), false)
}

fn geometry(apart: bool, distance: u8, columns: u8, rows: u8) -> BigramGeometry {
    BigramGeometry {
        apart,
        distance_units: distance,
        column_units: columns,
        columns_at_least_two: columns >= 2,
        row_units: rows,
        rows_at_least_one: rows >= 1,
    }
}

fn bigram_kinds(k1: &Key, k2: &Key, g: &BigramGeometry) -> Vec<BigramKind> {
    Bigram::new(k1, k2, g).kinds.iter().copied().collect()
}

fn trigram_kinds(k1: &Key, k2: &Key, k3: &Key, g13: &BigramGeometry) -> Vec<TrigramKind> {
    Trigram::new(k1, k2, k3, g13).kinds.iter().copied().collect()
}

#[test]
fn ngrams_same_finger_is_a_skip() {
    let q = make_key('q', Hand::Left, FingerKind::Pinky, 0, 1);
    let z = make_key('z', Hand::Left, FingerKind::Pinky, 2, 1);
    let g = geometry(true, 2, 0, 2);
    assert_eq!(bigram_kinds(&q, &z, &g), vec![BigramKind::SameFingerSkip { units: 2 }]);
    assert_eq!(bigram_kinds(&z, &q, &g), vec![BigramKind::SameFingerSkip { units: 2 }]);
    assert_eq!(bigram_kinds(&q, &q, &geometry(false, 0, 0, 0)), vec![BigramKind::Other]);
}

#[test]
fn ngrams_lateral_stretch_of_adjacent_fingers() {
    let d = make_key('d', Hand::Left, FingerKind::Middle, 1, 3);
    let g_key = make_key('g', Hand::Left, FingerKind::Index, 1, 5);
    let g = geometry(true, 2, 2, 0);
    let expected = vec![BigramKind::LateralStretch { finger: FingerKind::Index, units: 2 }];
    assert_eq!(bigram_kinds(&d, &g_key, &g), expected);
    assert_eq!(bigram_kinds(&g_key, &d, &g), expected);

    let quote = make_key('"', Hand::Left, FingerKind::Pinky, 1, 0);
    let s = make_key('s', Hand::Left, FingerKind::Ring, 1, 2);
    let expected = vec![BigramKind::LateralStretch { finger: FingerKind::Pinky, units: 2 }];
    assert_eq!(bigram_kinds(&quote, &s, &g), expected);
    assert_eq!(bigram_kinds(&s, &quote, &g), expected);
}

#[test]
fn ngrams_scissor_unless_comfortable() {
    let e = make_key('e', Hand::Left, FingerKind::Middle, 0, 3);
    let c = make_key('c', Hand::Left, FingerKind::Middle, 2, 3);
    let x = make_key('x', Hand::Left, FingerKind::Ring, 2, 2);
    let w = make_key('w', Hand::Left, FingerKind::Ring, 0, 2);
    let g = geometry(true, 2, 1, 2);
    // the ring finger low and the middle finger high is a comfortable pair
    assert_eq!(bigram_kinds(&e, &x, &g), vec![BigramKind::Other]);
    assert_eq!(bigram_kinds(&x, &e, &g), vec![BigramKind::Other]);
    let expected = vec![BigramKind::Scissor {
        units: 2,
        upper_finger: FingerKind::Ring,
        lower_finger: FingerKind::Middle,
    }];
    assert_eq!(bigram_kinds(&w, &c, &g), expected);
    assert_eq!(bigram_kinds(&c, &w, &g), expected);
}

#[test]
fn ngrams_other_hands_give_other() {
    let a = make_key('a', Hand::Left, FingerKind::Pinky, 1, 1);
    let l = make_key('l', Hand::Right, FingerKind::Ring, 0, 9);
    let g = geometry(true, 8, 8, 1);
    assert_eq!(bigram_kinds(&a, &l, &g), vec![BigramKind::Other]);
}

#[test]
fn ngrams_trigram_rolls_and_redirects() {
    let a = make_key('a', Hand::Left, FingerKind::Pinky, 1, 1);
    let s = make_key('s', Hand::Left, FingerKind::Ring, 1, 2);
    let d = make_key('d', Hand::Left, FingerKind::Middle, 1, 3);
    let f = make_key('f', Hand::Left, FingerKind::Index, 1, 4);
    let j = make_key('j', Hand::Right, FingerKind::Index, 1, 7);
    let near = geometry(true, 2, 2, 0);

    assert_eq!(
        trigram_kinds(&a, &s, &d, &near),
        vec![TrigramKind::Roll { triple: true, inward: true }]
    );
    assert_eq!(
        trigram_kinds(&d, &s, &a, &near),
        vec![TrigramKind::Roll { triple: true, inward: false }]
    );
    assert_eq!(trigram_kinds(&s, &a, &d, &geometry(true, 1, 1, 0)), vec![TrigramKind::Redirect { weak: false }]);
    assert_eq!(trigram_kinds(&s, &f, &d, &geometry(true, 1, 1, 0)), vec![TrigramKind::Redirect { weak: true }]);
    assert_eq!(
        trigram_kinds(&a, &s, &j, &geometry(true, 6, 6, 0)),
        vec![TrigramKind::Roll { triple: false, inward: true }]
    );
    assert_eq!(trigram_kinds(&a, &j, &d, &near), vec![TrigramKind::Alternation]);
    assert_eq!(trigram_kinds(&a, &a, &a, &geometry(false, 0, 0, 0)), vec![TrigramKind::Other]);
}

#[test]
fn ngrams_trigram_carries_the_outer_bigram() {
    let q = make_key('q', Hand::Left, FingerKind::Pinky, 0, 1);
    let j = make_key('j', Hand::Right, FingerKind::Index, 1, 7);
    let z = make_key('z', Hand::Left, FingerKind::Pinky, 2, 1);
    assert_eq!(
        trigram_kinds(&q, &j, &z, &geometry(true, 2, 0, 2)),
        vec![TrigramKind::SameFingerSkip { units: 2, same_hand: false }]
    );
}

#[test]
fn ngrams_unigram_holds_its_key() {
    let a = make_key('a', Hand::Left, FingerKind::Pinky, 1, 1);
    assert_eq!(Unigram::new(&a).key, a);
}

#[test]
fn ngrams_other_only_alone() {
    let q = make_key('q', Hand::Left, FingerKind::Pinky, 0, 1);
    let w = make_key('w', Hand::Left, FingerKind::Ring, 0, 2);
    let g = geometry(true, 1, 1, 0);
    assert_eq!(bigram_kinds(&q, &w, &g), vec![BigramKind::Other]);
    assert_eq!(bigram_kinds(&w, &q, &g), vec![BigramKind::Other]);
    let z = make_key('z', Hand::Left, FingerKind::Pinky, 2, 1);
    let kinds = bigram_kinds(&q, &z, &geometry(true, 2, 0, 2));
    assert!(!kinds.is_empty() && !kinds.contains(&BigramKind::Other));
}
