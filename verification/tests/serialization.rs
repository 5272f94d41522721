use layouts_rs::layout::{Finger, FingerKind, Hand};
use layouts_rs::matrix::{MatrixError, Pos};
use layouts_rs::serialization::{finger_assignment, FingerAssignmentError};

#[test]
fn serialization_reads_finger_numbers() {
    let m = finger_assignment(vec![vec![0, 1, 5], vec![6, 10, 0]]).unwrap();
    assert_eq!(m.get(&Pos::new(0, 0)), Some(&None));
    assert_eq!(m.get(&Pos::new(0, 1)), Some(&Some(Finger::new(Hand::Left, FingerKind::Pinky))));
    assert_eq!(m.get(&Pos::new(0, 2)), Some(&Some(Finger::new(Hand::Left, FingerKind::Thumb))));
    assert_eq!(m.get(&Pos::new(1, 0)), Some(&Some(Finger::new(Hand::Right, FingerKind::Thumb))));
    assert_eq!(m.get(&Pos::new(1, 1)), Some(&Some(Finger::new(Hand::Right, FingerKind::Pinky))));
    assert_eq!(m.get(&Pos::new(1, 2)), Some(&None));
}

#[test]
fn serialization_refuses_the_first_bad_number() {
    assert_eq!(
        finger_assignment(vec![vec![1, 2], vec![11, 12]]).err(),
        Some(FingerAssignmentError::InvalidFinger(11))
    );
    assert_eq!(
        finger_assignment(vec![vec![1, 200, 13]]).err(),
        Some(FingerAssignmentError::InvalidFinger(200))
    );
}

#[test]
fn serialization_refuses_what_is_no_matrix() {
    assert_eq!(finger_assignment(vec![]).err(), Some(FingerAssignmentError::Shape(MatrixError::Empty)));
    assert_eq!(
        finger_assignment(vec![vec![1, 2], vec![1]]).err(),
        Some(FingerAssignmentError::Shape(MatrixError::InconsistentRowLengths))
    );
    // a bad number is reported before a bad shape
    assert_eq!(
        finger_assignment(vec![vec![1, 2], vec![42]]).err(),
        Some(FingerAssignmentError::InvalidFinger(42))
    );
}

use layouts_rs::serialization::{
    FingerKindSource, FingerParseError, HandednessSource, PosParseError, RedirectStrengthSource,
    RollDirectionSource,
};

#[test]
fn serialization_reads_positions() {
    assert_eq!(Pos::parse("[1, 2]"), Ok(Pos::new(1, 2)));
    assert_eq!(" [ 3 ,4 ] ".parse::<Pos>(), Ok(Pos::new(3, 4)));
    assert_eq!(Pos::parse("5,6"), Ok(Pos::new(5, 6)));
    assert_eq!(Pos::parse("[[+7, 08]]"), Ok(Pos::new(7, 8)));
    assert_eq!(Pos::parse("[1, 2, 3]"), Err(PosParseError::Format));
    assert_eq!(Pos::parse("[12]"), Err(PosParseError::Format));
    assert_eq!(Pos::parse("[x, 2]"), Err(PosParseError::InvalidRow("x".to_string())));
    assert_eq!(Pos::parse("[-1, 2]"), Err(PosParseError::InvalidRow("-1".to_string())));
    assert_eq!(Pos::parse("[1, ]"), Err(PosParseError::InvalidColumn(String::new())));
    assert_eq!(
        Pos::parse("[1, 99999999999999999999999]"),
        Err(PosParseError::InvalidColumn("99999999999999999999999".to_string()))
    );
}

#[test]
fn serialization_reads_fingers() {
    assert_eq!(Finger::parse("1"), Ok(Finger::new(Hand::Left, FingerKind::Pinky)));
    assert_eq!(" 7 ".parse::<Finger>(), Ok(Finger::new(Hand::Right, FingerKind::Index)));
    assert_eq!(Finger::parse("left_index"), Ok(Finger::new(Hand::Left, FingerKind::Index)));
    assert_eq!(Finger::parse(" right _ thumb "), Ok(Finger::new(Hand::Right, FingerKind::Thumb)));
    assert_eq!(Finger::parse("0"), Err(FingerParseError::InvalidNumber(0)));
    assert_eq!(Finger::parse("11"), Err(FingerParseError::InvalidNumber(11)));
    assert_eq!(Finger::parse("300"), Err(FingerParseError::Format));
    assert_eq!(Finger::parse("index"), Err(FingerParseError::Format));
    assert_eq!(Finger::parse("up_index"), Err(FingerParseError::UnknownHand("up".to_string())));
    assert_eq!(Finger::parse("left_toe"), Err(FingerParseError::UnknownKind("toe".to_string())));
    assert_eq!(Finger::parse("left_ring_x"), Err(FingerParseError::UnknownKind("ring_x".to_string())));
}

#[test]
fn serialization_sources_name_the_values() {
    assert_eq!(FingerKind::from(FingerKindSource::Pinky), FingerKind::Pinky);
    assert_eq!(FingerKind::from(FingerKindSource::Ring), FingerKind::Ring);
    assert_eq!(FingerKind::from(FingerKindSource::Middle), FingerKind::Middle);
    assert_eq!(FingerKind::from(FingerKindSource::Index), FingerKind::Index);
    assert_eq!(FingerKind::from(FingerKindSource::Thumb), FingerKind::Thumb);
    assert!(HandednessSource::Same.same_hand());
    assert!(!HandednessSource::Alternate.same_hand());
    assert!(RedirectStrengthSource::Weak.weak());
    assert!(!RedirectStrengthSource::Strong.weak());
    assert!(RollDirectionSource::In.inward());
    assert!(!RollDirectionSource::Out.inward());
}

#[test]
fn serialization_positions_read_back() {
    for (r, c) in [(0, 0), (1, 2), (10, 305), (usize::MAX, 7)] {
        assert_eq!(format!("[{}, {}]", r, c).parse::<Pos>(), Ok(Pos::new(r, c)));
        assert_eq!(format!("{},{}", r, c).parse::<Pos>(), Ok(Pos::new(r, c)));
    }
    assert_eq!("[1]".parse::<Pos>(), Err(PosParseError::Format));
    assert_eq!("[a, 2]".parse::<Pos>(), Err(PosParseError::InvalidRow("a".to_string())));
}
