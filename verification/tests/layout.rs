use layouts_rs::layout::{Config, Finger, FingerKind, Hand, Key, Layout, LayoutError};
use layouts_rs::matrix::{MatrixError, Pos};
use layouts_rs::serialization::finger_assignment;

fn finger(n: u8) -> Finger {
    Finger::try_from(n).unwrap()
}

fn config(fingers: Vec<Vec<u8>>, shape: (usize, usize), homes: Vec<(u8, Pos)>) -> Config {
    Config {
        finger_assignment: finger_assignment(fingers).unwrap(),
        finger_home_positions: homes.into_iter().map(|(n, p)| (finger(n), p)).collect(),
        key_centers_shape: shape,
        finger_effort_shape: shape,
    }
}

fn key(ch: char, n: u8, position: Pos) -> Key {
    Key::new(ch, finger(n), position, false)
}

fn home_key(ch: char, n: u8, position: Pos) -> Key {
    Key::new(ch, finger(n), position, true)
}

fn ab_cd() -> Layout {
    Layout::new(
        "ab\ncd",
        &config(
            vec![vec![1, 2], vec![1, 2]],
            (2, 2),
            vec![(1, Pos::new(0, 0)), (2, Pos::new(0, 1))],
        ),
    )
    .unwrap()
}

#[test]
fn it_calculates_distance() {
    let finger1 = Finger::new(Hand::Left, FingerKind::Index);
    let finger2 = Finger::new(Hand::Left, FingerKind::Pinky);
    let finger3 = Finger::new(Hand::Right, FingerKind::Index);
    let finger4 = Finger::new(Hand::Right, FingerKind::Middle);

    assert_eq!(finger1.distance(&finger1), None);
    assert_eq!(finger1.distance(&finger2), Some(3));
    assert_eq!(finger1.distance(&finger3), None);
    assert_eq!(finger3.distance(&finger4), Some(1));
}

#[test]
fn it_checks_if_keys_are_same_finger() {
    let key1 = key('q', 1, Pos::new(0, 0));
    let key2 = key('w', 2, Pos::new(0, 1));
    let key3 = key('a', 1, Pos::new(0, 1));

    assert!(key1.same_finger(&key3));
    assert!(!key1.same_finger(&key2));
}

#[test]
fn it_builds_from_configuration() {
    let two_by_two = || {
        config(
            vec![vec![1, 2], vec![1, 2]],
            (2, 2),
            vec![(1, Pos::new(0, 0)), (2, Pos::new(0, 1))],
        )
    };
    assert!(Layout::new("ab\ncd", &two_by_two()).is_ok());
    assert!(Layout::new(
        "abc\ndef",
        &config(
            vec![vec![1, 2, 3], vec![1, 2, 3]],
            (2, 3),
            vec![(1, Pos::new(0, 0)), (2, Pos::new(0, 1)), (3, Pos::new(0, 2))],
        ),
    )
    .is_ok());
    assert!(Layout::new("aa\naa", &two_by_two()).is_ok());

    assert!(Layout::new("abcde", &two_by_two()).is_err());
    assert!(Layout::new(
        "ab\ncd",
        &Config {
            finger_assignment: finger_assignment(vec![vec![1, 2, 3], vec![1, 2, 3]]).unwrap(),
            finger_home_positions: vec![(finger(1), Pos::new(0, 0)), (finger(2), Pos::new(0, 1))],
            key_centers_shape: (2, 2),
            finger_effort_shape: (2, 2),
        },
    )
    .is_err());
    assert!(Layout::new("ab\ncd", &config(vec![vec![1, 2], vec![1, 2]], (2, 2), vec![])).is_err());
    assert!(Layout::new(
        "ab\ncd",
        &config(
            vec![vec![1, 2], vec![1, 2]],
            (2, 2),
            vec![(1, Pos::new(0, 0)), (2, Pos::new(0, 0))],
        ),
    )
    .is_err());
    assert!(Layout::new(
        "ab\ncd",
        &config(
            vec![vec![1, 2], vec![1, 2]],
            (2, 2),
            vec![(1, Pos::new(0, 0)), (2, Pos::new(1, 0))],
        ),
    )
    .is_err());
    assert!(Layout::new("_b\ncd", &two_by_two()).is_err());
}

#[test]
fn it_builds_with_underscores_as_none() {
    let layout = Layout::new(
        "_ab\n_cd",
        &config(
            vec![vec![1, 1, 2], vec![1, 1, 2]],
            (2, 3),
            vec![(1, Pos::new(0, 1)), (2, Pos::new(0, 2))],
        ),
    )
    .unwrap();

    assert_eq!(layout.key_at(&Pos::new(0, 0)), None);
    assert_eq!(layout.char_at(&Pos::new(0, 1)), Some('a'));
    assert_eq!(layout.char_at(&Pos::new(0, 2)), Some('b'));
    assert_eq!(layout.key_at(&Pos::new(1, 0)), None);
    assert_eq!(layout.char_at(&Pos::new(1, 1)), Some('c'));
    assert_eq!(layout.char_at(&Pos::new(1, 2)), Some('d'));
    assert_eq!(layout.keys().len(), 4);
}

#[test]
fn it_builds_from_string_normalizing() {
    assert!(Layout::new(
        r#"
            a b c
            d e f
            "#,
        &config(
            vec![vec![1, 2, 3], vec![1, 2, 3]],
            (2, 3),
            vec![(1, Pos::new(0, 0)), (2, Pos::new(0, 1)), (3, Pos::new(0, 2))],
        ),
    )
    .is_ok());
}

#[test]
fn it_returns_key_by_pos() {
    let layout = Layout::new(
        "abc\ndef",
        &config(
            vec![vec![1, 2, 3], vec![1, 2, 3]],
            (2, 3),
            vec![(1, Pos::new(0, 0)), (2, Pos::new(0, 1)), (3, Pos::new(0, 2))],
        ),
    )
    .unwrap();

    assert_eq!(layout.key_at(&Pos::new(0, 0)), Some(&home_key('a', 1, Pos::new(0, 0))));
    assert_eq!(layout.key_at(&Pos::new(0, 1)), Some(&home_key('b', 2, Pos::new(0, 1))));
    assert_eq!(layout.key_at(&Pos::new(0, 2)), Some(&home_key('c', 3, Pos::new(0, 2))));
    assert_eq!(layout.key_at(&Pos::new(1, 0)), Some(&key('d', 1, Pos::new(1, 0))));
    assert_eq!(layout.key_at(&Pos::new(1, 1)), Some(&key('e', 2, Pos::new(1, 1))));
    assert_eq!(layout.key_at(&Pos::new(1, 2)), Some(&key('f', 3, Pos::new(1, 2))));
    assert_eq!(layout.key_at(&Pos::new(2, 0)), None);
    assert_eq!(layout.key_at(&Pos::new(0, 3)), None);
}

#[test]
fn it_returns_key_by_char() {
    let layout = ab_cd();

    assert_eq!(layout.key_for('a'), Some(&home_key('a', 1, Pos::new(0, 0))));
    assert_eq!(layout.key_for('b'), Some(&home_key('b', 2, Pos::new(0, 1))));
    assert_eq!(layout.key_for('c'), Some(&key('c', 1, Pos::new(1, 0))));
    assert_eq!(layout.key_for('d'), Some(&key('d', 2, Pos::new(1, 1))));
    assert_eq!(layout.key_for('e'), None);
}

#[test]
fn it_returns_char_by_pos() {
    let layout = ab_cd();

    assert_eq!(layout.char_at(&Pos::new(0, 0)), Some('a'));
    assert_eq!(layout.char_at(&Pos::new(0, 1)), Some('b'));
    assert_eq!(layout.char_at(&Pos::new(1, 0)), Some('c'));
    assert_eq!(layout.char_at(&Pos::new(1, 1)), Some('d'));
    assert_eq!(layout.char_at(&Pos::new(2, 0)), None);
    assert_eq!(layout.char_at(&Pos::new(0, 2)), None);
}

#[test]
fn it_sets_char_for_key() {
    let mut layout = ab_cd();

    layout.set_char(&Pos::new(0, 0), 'x');
    assert_eq!(layout.char_at(&Pos::new(0, 0)), Some('x'));
}

#[test]
fn it_swaps_chars() {
    let mut layout = ab_cd();

    layout.swap_chars(&Pos::new(0, 0), &Pos::new(1, 0));
    assert_eq!(layout.char_at(&Pos::new(0, 0)), Some('c'));
    assert_eq!(layout.char_at(&Pos::new(1, 0)), Some('a'));
}

#[test]
fn it_returns_keys() {
    let layout = ab_cd();

    assert_eq!(
        layout.keys(),
        vec![
            home_key('a', 1, Pos::new(0, 0)),
            home_key('b', 2, Pos::new(0, 1)),
            key('c', 1, Pos::new(1, 0)),
            key('d', 2, Pos::new(1, 1)),
        ]
    );
}

#[test]
fn layout_errors_say_what_is_wrong() {
    let two_by_two = |homes: Vec<(u8, Pos)>| config(vec![vec![1, 2], vec![1, 2]], (2, 2), homes);
    let homes = || vec![(1, Pos::new(0, 0)), (2, Pos::new(0, 1))];

    assert_eq!(Layout::new("  \n ", &two_by_two(homes())).err(), Some(LayoutError::Definition(MatrixError::Empty)));
    assert_eq!(
        Layout::new("ab\nc", &two_by_two(homes())).err(),
        Some(LayoutError::Definition(MatrixError::InconsistentRowLengths))
    );
    assert!(matches!(
        Layout::new("abc\ndef", &two_by_two(homes())).err(),
        Some(LayoutError::ShapeMismatch { .. })
    ));
    assert_eq!(
        Layout::new("ab\ncd", &two_by_two(vec![(1, Pos::new(0, 0)), (2, Pos::new(5, 1))])).err(),
        Some(LayoutError::HomeOutOfBounds { finger: finger(2), position: Pos::new(5, 1) })
    );
    assert_eq!(
        Layout::new("ab\ncd", &two_by_two(vec![(1, Pos::new(0, 0)), (2, Pos::new(1, 0))])).err(),
        Some(LayoutError::HomeFingerMismatch { finger: finger(2), position: Pos::new(1, 0) })
    );
    assert_eq!(
        Layout::new("ab\ncd", &two_by_two(vec![(1, Pos::new(0, 0))])).err(),
        Some(LayoutError::MissingHome { finger: finger(2) })
    );
    assert_eq!(
        Layout::new("_b\ncd", &two_by_two(homes())).err(),
        Some(LayoutError::OccupiedKeyWithEmptyHome {
            finger: finger(1),
            home: Pos::new(0, 0),
            position: Pos::new(1, 0),
            ch: 'c'
        })
    );
}

#[test]
fn layout_swapping_twice_restores_the_characters() {
    let mut layout = ab_cd();
    layout.swap_chars(&Pos::new(0, 1), &Pos::new(1, 1));
    assert_eq!(layout.char_at(&Pos::new(0, 1)), Some('d'));
    layout.swap_chars(&Pos::new(0, 1), &Pos::new(1, 1));
    assert_eq!(layout.keys(), ab_cd().keys());
}

#[test]
fn layout_swap_with_empty_cell_changes_nothing() {
    let mut layout = Layout::new(
        "_ab\n_cd",
        &config(
            vec![vec![1, 1, 2], vec![1, 1, 2]],
            (2, 3),
            vec![(1, Pos::new(0, 1)), (2, Pos::new(0, 2))],
        ),
    )
    .unwrap();
    let before = layout.keys();
    layout.swap_chars(&Pos::new(0, 0), &Pos::new(0, 1));
    layout.set_char(&Pos::new(1, 0), 'z');
    assert_eq!(layout.keys(), before);
}

#[test]
fn layout_renders_rows_split_in_halves() {
    let layout = Layout::new(
        "_ab\n_cd",
        &config(
            vec![vec![1, 1, 2], vec![1, 1, 2]],
            (2, 3),
            vec![(1, Pos::new(0, 1)), (2, Pos::new(0, 2))],
        ),
    )
    .unwrap();
    assert_eq!(layout.render(), "  _   a b\n  _   c d\n");
    assert_eq!(ab_cd().render(), "  a   b\n  c   d\n");
}

#[test]
fn layout_hash_follows_the_characters() {
    let layout = ab_cd();
    let mut other = ab_cd();
    assert_eq!(layout.hash(), other.hash());
    other.swap_chars(&Pos::new(0, 0), &Pos::new(1, 1));
    assert_ne!(layout.hash(), other.hash());
}

#[test]
fn finger_numbers_name_the_fingers() {
    assert_eq!(finger(1), Finger::new(Hand::Left, FingerKind::Pinky));
    assert_eq!(finger(5), Finger::new(Hand::Left, FingerKind::Thumb));
    assert_eq!(finger(6), Finger::new(Hand::Right, FingerKind::Thumb));
    assert_eq!(finger(10), Finger::new(Hand::Right, FingerKind::Pinky));
    assert!(Finger::try_from(0).is_err());
    assert!(Finger::try_from(11).is_err());
}

#[test]
fn finger_distance_is_symmetric() {
    let fingers: Vec<Finger> = (1..=10).map(finger).collect();
    for a in &fingers {
        for b in &fingers {
            assert_eq!(a.distance(b), b.distance(a));
        }
    }
    assert_eq!(finger(1).distance(&finger(4)), Some(3));
    assert_eq!(finger(4).distance(&finger(1)), Some(3));
}

#[test]
fn layout_text_reads_back_as_the_same_layout() {
    let cfg = || {
        config(
            vec![vec![1, 1, 2, 7], vec![1, 1, 2, 7]],
            (2, 4),
            vec![(1, Pos::new(0, 1)), (2, Pos::new(0, 2)), (7, Pos::new(0, 3))],
        )
    };
    let mut layout = Layout::new("_abx\n_cdy", &cfg()).unwrap();
    layout.swap_chars(&Pos::new(0, 1), &Pos::new(1, 3));
    let text = layout.render();
    assert_eq!(text, "  _ y   b x\n  _ c   d a\n");
    let again = Layout::new(&text, &cfg()).unwrap();
    assert_eq!(again.keys(), layout.keys());
}
