use layouts_rs::layout::{Config, Finger, Layout};
use layouts_rs::matrix::Pos;
use layouts_rs::serialization::finger_assignment;
use layouts_rs::swaps::{SwapMove, SwapMoveBuilder, SwapMoveStrategy};

fn pos(r: usize, c: usize) -> Pos {
    Pos::new(r, c)
}

fn two_by_two() -> Layout {
    Layout::new(
        "ab\ncd",
        &Config {
            finger_assignment: finger_assignment(vec![vec![1, 2], vec![1, 2]]).unwrap(),
            finger_home_positions: vec![
                (Finger::try_from(1).unwrap(), pos(0, 0)),
                (Finger::try_from(2).unwrap(), pos(0, 1)),
            ],
            key_centers_shape: (2, 2),
            finger_effort_shape: (2, 2),
        },
    )
    .unwrap()
}

fn position_of(layout: &Layout, ch: char) -> Pos {
    layout.key_for(ch).unwrap().position
}

#[test]
fn swaps_it_builds() {
    let positions = vec![pos(0, 0), pos(1, 0), pos(0, 1)];
    assert_eq!(
        SwapMove::single_moves(&positions),
        vec![
            SwapMove(vec![(pos(0, 0), pos(1, 0))]),
            SwapMove(vec![(pos(0, 0), pos(0, 1))]),
            SwapMove(vec![(pos(1, 0), pos(0, 1))]),
        ]
    );

    let positions = vec![pos(0, 0), pos(1, 0), pos(0, 1), pos(1, 1)];
    assert_eq!(
        SwapMove::column_moves(&positions),
        vec![SwapMove(vec![(pos(0, 0), pos(0, 1)), (pos(1, 0), pos(1, 1))])]
    );

    let positions = vec![pos(0, 0), pos(0, 1), pos(1, 0), pos(1, 1)];
    assert_eq!(
        SwapMove::row_moves(&positions),
        vec![SwapMove(vec![(pos(0, 0), pos(1, 0)), (pos(0, 1), pos(1, 1))])]
    );
}

#[test]
fn it_builds_from_single_position() {
    assert_eq!(SwapMove::single_moves(&[pos(0, 0)]), vec![]);
}

#[test]
fn swaps_it_builds_from_empty() {
    assert_eq!(SwapMove::single_moves(&[]), vec![]);
    assert_eq!(SwapMove::column_moves(&[]), vec![]);
    assert_eq!(SwapMove::row_moves(&[]), vec![]);
}

#[test]
fn swaps_it_applies() {
    let mut layout = two_by_two();
    SwapMove(vec![(pos(0, 0), pos(1, 0))]).apply(&mut layout);
    assert_eq!(position_of(&layout, 'a'), pos(1, 0));
    assert_eq!(position_of(&layout, 'c'), pos(0, 0));

    let mut layout = two_by_two();
    SwapMove(vec![(pos(0, 0), pos(0, 1)), (pos(1, 0), pos(1, 1))]).apply(&mut layout);
    assert_eq!(position_of(&layout, 'a'), pos(0, 1));
    assert_eq!(position_of(&layout, 'b'), pos(0, 0));
    assert_eq!(position_of(&layout, 'c'), pos(1, 1));
    assert_eq!(position_of(&layout, 'd'), pos(1, 0));

    let mut layout = two_by_two();
    SwapMove(vec![(pos(0, 0), pos(1, 0)), (pos(0, 1), pos(1, 1))]).apply(&mut layout);
    assert_eq!(position_of(&layout, 'a'), pos(1, 0));
    assert_eq!(position_of(&layout, 'b'), pos(1, 1));
    assert_eq!(position_of(&layout, 'c'), pos(0, 0));
    assert_eq!(position_of(&layout, 'd'), pos(0, 1));
}

#[test]
fn swaps_it_reverts_when_applied_twice() {
    let swaps = vec![
        SwapMove(vec![(pos(0, 0), pos(1, 0))]),
        SwapMove(vec![(pos(0, 0), pos(0, 1)), (pos(1, 0), pos(1, 1))]),
        SwapMove(vec![(pos(0, 0), pos(1, 0)), (pos(0, 1), pos(1, 1))]),
    ];
    for swap in swaps {
        let mut layout = two_by_two();
        swap.apply(&mut layout);
        swap.apply(&mut layout);
        assert_eq!(position_of(&layout, 'a'), pos(0, 0));
        assert_eq!(position_of(&layout, 'b'), pos(0, 1));
        assert_eq!(position_of(&layout, 'c'), pos(1, 0));
        assert_eq!(position_of(&layout, 'd'), pos(1, 1));
    }
}

#[test]
fn swaps_it_builds_with_n_columns() {
    let positions = vec![pos(0, 0), pos(1, 0), pos(0, 1), pos(1, 1), pos(0, 2), pos(1, 2)];
    assert_eq!(
        SwapMove::column_moves(&positions),
        vec![
            SwapMove(vec![(pos(0, 0), pos(0, 1)), (pos(1, 0), pos(1, 1))]),
            SwapMove(vec![(pos(0, 0), pos(0, 2)), (pos(1, 0), pos(1, 2))]),
            SwapMove(vec![(pos(0, 1), pos(0, 2)), (pos(1, 1), pos(1, 2))]),
        ]
    );

    let positions = vec![pos(0, 0), pos(0, 1), pos(0, 2), pos(1, 0), pos(1, 1), pos(1, 2)];
    assert_eq!(
        SwapMove::row_moves(&positions),
        vec![SwapMove(vec![
            (pos(0, 0), pos(1, 0)),
            (pos(0, 1), pos(1, 1)),
            (pos(0, 2), pos(1, 2)),
        ])]
    );
}

#[test]
fn swaps_it_builds_with_n_rows() {
    let positions = vec![pos(0, 0), pos(1, 0), pos(2, 0), pos(0, 1), pos(1, 1), pos(2, 1)];
    assert_eq!(
        SwapMove::column_moves(&positions),
        vec![SwapMove(vec![
            (pos(0, 0), pos(0, 1)),
            (pos(1, 0), pos(1, 1)),
            (pos(2, 0), pos(2, 1)),
        ])]
    );

    let positions = vec![pos(0, 0), pos(0, 1), pos(1, 0), pos(1, 1), pos(2, 0), pos(2, 1)];
    assert_eq!(
        SwapMove::row_moves(&positions),
        vec![
            SwapMove(vec![(pos(0, 0), pos(1, 0)), (pos(0, 1), pos(1, 1))]),
            SwapMove(vec![(pos(0, 0), pos(2, 0)), (pos(0, 1), pos(2, 1))]),
            SwapMove(vec![(pos(1, 0), pos(2, 0)), (pos(1, 1), pos(2, 1))]),
        ]
    );
}

#[test]
fn it_builds_zips_to_shorter_column() {
    let positions = vec![pos(0, 0), pos(1, 0), pos(2, 0), pos(0, 1), pos(1, 1)];
    assert_eq!(
        SwapMove::column_moves(&positions),
        vec![SwapMove(vec![(pos(0, 0), pos(0, 1)), (pos(1, 0), pos(1, 1))])]
    );
}

#[test]
fn it_builds_from_single_column() {
    assert_eq!(SwapMove::column_moves(&[pos(0, 0), pos(1, 0)]), vec![]);
}

#[test]
fn it_builds_zips_to_shorter_row() {
    let positions = vec![pos(0, 0), pos(0, 1), pos(0, 2), pos(1, 0), pos(1, 1)];
    assert_eq!(
        SwapMove::row_moves(&positions),
        vec![SwapMove(vec![(pos(0, 0), pos(1, 0)), (pos(0, 1), pos(1, 1))])]
    );
}

#[test]
fn it_builds_from_single_row() {
    assert_eq!(SwapMove::row_moves(&[pos(0, 0), pos(0, 1)]), vec![]);
}

#[test]
fn swaps_groups_are_sorted_by_key() {
    let positions = vec![pos(0, 2), pos(0, 0), pos(1, 2), pos(1, 0)];
    assert_eq!(
        SwapMove::column_moves(&positions),
        vec![SwapMove(vec![(pos(0, 0), pos(0, 2)), (pos(1, 0), pos(1, 2))])]
    );
}

#[test]
fn swaps_all_moves_are_singles_then_columns_then_rows() {
    let positions = vec![pos(0, 0), pos(1, 0), pos(0, 1), pos(1, 1)];
    let mut expected = SwapMove::single_moves(&positions);
    expected.extend(SwapMove::column_moves(&positions));
    expected.extend(SwapMove::row_moves(&positions));
    assert_eq!(SwapMove::all_moves(&positions), expected);
    assert_eq!(expected.len(), 6 + 1 + 1);
}

#[test]
fn swaps_builder_follows_its_strategies() {
    let positions = vec![pos(0, 0), pos(1, 0), pos(0, 1), pos(1, 1)];
    assert_eq!(SwapMoveBuilder::full().build(&positions), SwapMove::all_moves(&positions));
    assert_eq!(SwapMoveBuilder::default().build(&positions), vec![]);
    assert_eq!(
        SwapMoveBuilder::new(&[SwapMoveStrategy::Row, SwapMoveStrategy::Single]).build(&positions),
        {
            let mut moves = SwapMove::row_moves(&positions);
            moves.extend(SwapMove::single_moves(&positions));
            moves
        }
    );
}
