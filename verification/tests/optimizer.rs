use rand::rngs::StdRng;
use rand::SeedableRng;

use layouts_rs::layout::{Config, Finger, Layout};
use layouts_rs::matrix::Pos;
use layouts_rs::optimizer::OptimizableLayout;
use layouts_rs::serialization::finger_assignment;
use layouts_rs::swaps::{SwapMoveBuilder, SwapMoveStrategy};

const EFFORT: [[f64; 2]; 2] = [[1.0, 50.0], [100.0, 200.0]];

fn make_layout() -> Layout {
    Layout::new(
        "ab\ncd",
        &Config {
            finger_assignment: finger_assignment(vec![vec![1, 2], vec![1, 2]]).unwrap(),
            finger_home_positions: vec![
                (Finger::try_from(1).unwrap(), Pos::new(0, 0)),
                (Finger::try_from(2).unwrap(), Pos::new(0, 1)),
            ],
            key_centers_shape: (2, 2),
            finger_effort_shape: (2, 2),
        },
    )
    .unwrap()
}

fn effort_of(layout: &Layout, ch: char) -> f64 {
    let p = layout.key_for(ch).unwrap().position;
    EFFORT[p.r][p.c]
}

fn layout_effort_score(layout: &Layout) -> f64 {
    layout.keys().iter().map(|k| EFFORT[k.position.r][k.position.c]).sum()
}

/// Makes the allowed move whose layout scores lowest among those that the
/// check accepts, and returns that score. Choosing by a floating point score
/// is the command line's part (it does the same over a parallel iterator);
/// here it drives the library's `try_move` and `apply_move` on the cases of
/// the optimizer's own tests.
fn try_improve(optimizable: &mut OptimizableLayout, score_check: impl Fn(&Layout) -> Option<f64>) -> Option<f64> {
    let mut best: Option<(f64, usize)> = None;
    for index in 0..optimizable.move_count() {
        if let Some(candidate) = optimizable.try_move(index) {
            if let Some(score) = score_check(&candidate) {
                if best.map_or(true, |(s, _)| score < s) {
                    best = Some((score, index));
                }
            }
        }
    }
    let (score, index) = best?;
    optimizable.apply_move(index);
    Some(score)
}

fn chars(optimizable: &OptimizableLayout) -> Vec<char> {
    optimizable.layout().keys().iter().map(|k| k.ch).collect()
}

#[test]
fn it_does_not_improve_layout_when_no_swap_gives_better_score() {
    let mut optimizable = OptimizableLayout::new(make_layout(), &vec![], None, &SwapMoveBuilder::full());
    let result = try_improve(&mut optimizable, |layout| {
        let score = layout_effort_score(layout);
        if score < 0.0 { Some(score) } else { None }
    });
    assert_eq!(result, None);
}

#[test]
fn it_does_not_improve_layout_if_no_swaps_available() {
    let mut optimizable = OptimizableLayout::new(make_layout(), &vec![], None, &SwapMoveBuilder::default());
    let result = try_improve(&mut optimizable, |layout| {
        let score = effort_of(layout, 'c');
        if score < 100.0 { Some(score) } else { None }
    });
    assert_eq!(result, None);
}

#[test]
fn it_improves_layout_by_applying_the_best_swap() {
    let mut optimizable = OptimizableLayout::new(make_layout(), &vec![], None, &SwapMoveBuilder::full());
    let score = try_improve(&mut optimizable, |layout| {
        let score = effort_of(layout, 'c');
        if score < 100.0 { Some(score) } else { None }
    })
    .unwrap();
    assert_eq!(score, 1.0);
    assert_eq!(effort_of(optimizable.layout(), 'c'), 1.0);
}

#[test]
fn it_improves_layout_without_moving_pinned_chars() {
    let mut optimizable =
        OptimizableLayout::new(make_layout(), &vec!['a', 'c'], None, &SwapMoveBuilder::full());
    while try_improve(&mut optimizable, |layout| {
        let score = effort_of(layout, 'd');
        if score < 200.0 { Some(score) } else { None }
    })
    .is_some()
    {}
    assert_eq!(optimizable.layout().key_for('a').unwrap().position, Pos::new(0, 0));
    assert_eq!(optimizable.layout().key_for('c').unwrap().position, Pos::new(1, 0));
    assert_eq!(optimizable.layout().key_for('d').unwrap().position, Pos::new(0, 1));
}

#[test]
fn it_does_not_improve_layout_when_only_one_char_is_unpinned() {
    let mut optimizable =
        OptimizableLayout::new(make_layout(), &vec!['a', 'b', 'c'], None, &SwapMoveBuilder::full());
    let result = try_improve(&mut optimizable, |layout| {
        let score = effort_of(layout, 'd');
        if score < 200.0 { Some(score) } else { None }
    });
    assert_eq!(result, None);
    assert_eq!(optimizable.move_count(), 0);
}

#[test]
fn it_does_not_improve_layout_when_swap_exceeds_max_swapped() {
    let mut optimizable = OptimizableLayout::new(make_layout(), &vec![], Some(0), &SwapMoveBuilder::full());
    let result = try_improve(&mut optimizable, |layout| {
        let score = effort_of(layout, 'c');
        if score < 100.0 { Some(score) } else { None }
    });
    assert_eq!(result, None);
}

#[test]
fn it_improves_layout_when_swap_is_within_max_swapped() {
    let mut optimizable = OptimizableLayout::new(make_layout(), &vec![], Some(2), &SwapMoveBuilder::full());
    let score = try_improve(&mut optimizable, |layout| {
        let score = effort_of(layout, 'c');
        if score < 100.0 { Some(score) } else { None }
    })
    .unwrap();
    assert_eq!(score, 1.0);
    assert_eq!(effort_of(optimizable.layout(), 'c'), 1.0);
}

#[test]
fn it_does_not_improve_layout_after_convergence() {
    let mut optimizable = OptimizableLayout::new(make_layout(), &vec![], None, &SwapMoveBuilder::full());
    let first = try_improve(&mut optimizable, |layout| {
        let score = effort_of(layout, 'c');
        if score < 100.0 { Some(score) } else { None }
    });
    assert_eq!(first, Some(1.0));
    let second = try_improve(&mut optimizable, |layout| {
        let score = effort_of(layout, 'c');
        if score < 1.0 { Some(score) } else { None }
    });
    assert_eq!(second, None);
}

#[test]
fn it_perturbs_layout() {
    let mut optimizable = OptimizableLayout::new(make_layout(), &vec![], None, &SwapMoveBuilder::full());
    let before = chars(&optimizable);
    let mut rng = StdRng::seed_from_u64(42);
    optimizable.perturb(&mut rng, 10);
    assert_ne!(before, chars(&optimizable));
}

#[test]
fn it_does_not_perturb_layout_when_all_chars_are_pinned() {
    let mut optimizable =
        OptimizableLayout::new(make_layout(), &vec!['a', 'b', 'c', 'd'], None, &SwapMoveBuilder::full());
    let before = chars(&optimizable);
    let mut rng = StdRng::seed_from_u64(42);
    optimizable.perturb(&mut rng, 10);
    assert_eq!(before, chars(&optimizable));
}

#[test]
fn it_does_not_perturb_layout_beyond_max_swapped() {
    let mut optimizable = OptimizableLayout::new(make_layout(), &vec![], Some(0), &SwapMoveBuilder::full());
    let mut rng = StdRng::seed_from_u64(42);
    optimizable.perturb(&mut rng, 10);
    assert_eq!(optimizable.diff(), 0);
}

#[test]
fn it_perturbs_layout_within_max_swapped() {
    let mut optimizable = OptimizableLayout::new(make_layout(), &vec![], Some(4), &SwapMoveBuilder::full());
    let mut rng = StdRng::seed_from_u64(42);
    optimizable.perturb(&mut rng, 10);
    assert!(optimizable.diff() > 0);
    assert!(optimizable.diff() <= 4);
}

#[test]
fn it_shuffles_layoyt_ignoring_max_swapped() {
    let mut optimizable = OptimizableLayout::new(make_layout(), &vec![], Some(0), &SwapMoveBuilder::full());
    let before = chars(&optimizable);
    let mut rng = StdRng::seed_from_u64(42);
    optimizable.shuffle(&mut rng, 10);
    assert_ne!(before, chars(&optimizable));
}

#[test]
fn optimizer_moves_only_unpinned_keys() {
    let optimizable =
        OptimizableLayout::new(make_layout(), &vec!['a'], None, &SwapMoveBuilder::new(&[SwapMoveStrategy::Single]));
    assert_eq!(optimizable.move_count(), 3);
    for index in 0..optimizable.move_count() {
        let candidate = optimizable.try_move(index).unwrap();
        assert_eq!(candidate.key_for('a').unwrap().position, Pos::new(0, 0));
    }
}

#[test]
fn optimizer_counts_differences_from_the_start() {
    let mut optimizable = OptimizableLayout::new(make_layout(), &vec![], Some(2), &SwapMoveBuilder::full());
    assert_eq!(optimizable.diff(), 0);
    optimizable.apply_move(0);
    assert_eq!(optimizable.diff(), 2);
    assert_eq!(OptimizableLayout::diff_between(optimizable.layout(), &make_layout()), 2);
    optimizable.apply_move(0);
    assert_eq!(optimizable.diff(), 0);
}

#[test]
fn optimizer_refuses_moves_beyond_max_swapped() {
    let optimizable = OptimizableLayout::new(make_layout(), &vec![], Some(1), &SwapMoveBuilder::full());
    for index in 0..optimizable.move_count() {
        assert!(optimizable.try_move(index).is_none());
    }
}

#[test]
fn optimizer_keeps_the_characters() {
    let mut optimizable = OptimizableLayout::new(make_layout(), &vec!['b'], None, &SwapMoveBuilder::full());
    let mut rng = StdRng::seed_from_u64(7);
    optimizable.shuffle(&mut rng, 25);
    optimizable.perturb(&mut rng, 3);
    let mut after = chars(&optimizable);
    after.sort();
    assert_eq!(after, vec!['a', 'b', 'c', 'd']);
    assert_eq!(optimizable.layout().key_for('b').unwrap().position, Pos::new(0, 1));
}

#[test]
fn optimizer_clone_shares_moves_and_state() {
    let mut optimizable = OptimizableLayout::new(make_layout(), &vec![], Some(2), &SwapMoveBuilder::full());
    optimizable.apply_move(1);
    let copy = optimizable.clone();
    assert_eq!(copy.move_count(), optimizable.move_count());
    assert_eq!(chars(&copy), chars(&optimizable));
    assert_eq!(copy.diff(), optimizable.diff());
    for index in 0..copy.move_count() {
        assert_eq!(
            copy.try_move(index).map(|l| l.keys()),
            optimizable.try_move(index).map(|l| l.keys())
        );
    }
}

#[test]
fn optimizer_perturb_step_keeps_or_undoes() {
    let mut bounded = OptimizableLayout::new(make_layout(), &vec![], Some(1), &SwapMoveBuilder::full());
    let before = chars(&bounded);
    assert!(!bounded.perturb_step(0));
    assert_eq!(chars(&bounded), before);
    let mut free = OptimizableLayout::new(make_layout(), &vec![], None, &SwapMoveBuilder::full());
    assert!(free.perturb_step(0));
    assert_ne!(chars(&free), before);
    assert_eq!(free.diff(), 2);
}

#[test]
fn optimizer_perturb_under_a_loose_bound_moves() {
    let mut optimizable = OptimizableLayout::new(make_layout(), &vec![], Some(4), &SwapMoveBuilder::full());
    let before = chars(&optimizable);
    let mut rng = StdRng::seed_from_u64(3);
    optimizable.perturb(&mut rng, 1);
    assert_ne!(before, chars(&optimizable));
}
