use layouts_rs::layout::{Finger, FingerKind, Hand, Key};
use layouts_rs::matrix::Pos;
use layouts_rs::ngrams::{BigramKind, TrigramKind};
use layouts_rs::report::{bigram_counter, pinky_off_home, trigram_counter, BigramCounter, TrigramCounter};

#[test]
fn report_scissors_are_wide_beyond_two_units() {
    let scissor = BigramKind::Scissor { units: 1, upper_finger: FingerKind::Index, lower_finger: FingerKind::Middle };
    assert_eq!(bigram_counter(&scissor, true), BigramCounter::WideScissors);
    assert_eq!(bigram_counter(&scissor, false), BigramCounter::Scissors);
    assert_eq!(bigram_counter(&BigramKind::SameFingerSkip { units: 1 }, true), BigramCounter::SkipsOne);
    assert_eq!(bigram_counter(&BigramKind::SameFingerSkip { units: 2 }, false), BigramCounter::SkipsMany);
    assert_eq!(bigram_counter(&BigramKind::Other, false), BigramCounter::Others);
}

#[test]
fn report_trigram_counters() {
    assert_eq!(trigram_counter(&TrigramKind::Roll { triple: true, inward: false }), Some(TrigramCounter::RollOut));
    assert_eq!(
        trigram_counter(&TrigramKind::SameFingerSkip { units: 1, same_hand: false }),
        Some(TrigramCounter::AlternationSkips)
    );
    assert_eq!(trigram_counter(&TrigramKind::Redirect { weak: true }), Some(TrigramCounter::RedirectsWeak));
    assert_eq!(
        trigram_counter(&TrigramKind::LateralStretch { finger: FingerKind::Index, units: 2, same_hand: true }),
        None
    );
}

#[test]
fn report_pinky_away_from_home() {
    let pinky = Finger::new(Hand::Left, FingerKind::Pinky);
    assert!(pinky_off_home(&Key::new('q', pinky, Pos::new(0, 1), false)));
    assert!(!pinky_off_home(&Key::new('a', pinky, Pos::new(1, 1), true)));
    assert!(!pinky_off_home(&Key::new('w', Finger::new(Hand::Left, FingerKind::Ring), Pos::new(0, 2), false)));
}
