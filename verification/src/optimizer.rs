use std::sync::Arc;

use rand::rngs::StdRng;
use rand::RngCore;
use vstd::prelude::*;

use crate::layout::{grid_key, grid_keys, keys_in_order, lemma_grid_keys_ordered, pos_lt, Key, Layout};
use crate::matrix::Pos;
use crate::swaps::{
    apply_pairs, key_chars, lemma_apply_pairs_keeps_chars, lemma_apply_pairs_twice, lemma_swap_keeps_presence,
    pairs_disjoint, pairs_within, SwapMove, SwapMoveBuilder,
};

verus! {

#[verifier::external_type_specification]
#[verifier::external_body]
pub struct ExStdRng(StdRng);

/// `RngCore::next_u64` on the standard generator: the next random number.
/// Nothing is stated of its value.
#[verifier::external_body]
fn next_random(rng: &mut StdRng) -> (value: u64) {
    rng.next_u64()
}

/// `Arc::clone`: another pointer to the same moves.
#[verifier::external_body]
fn share_moves(moves: &Arc<Vec<SwapMove>>) -> (shared: Arc<Vec<SwapMove>>)
    ensures
        *shared == **moves,
{
    Arc::clone(moves)
}

/// How many times `perturb` draws a move at most.
pub const MAX_PERTURB_ATTEMPTS: usize = 30;

/// The number of places among the first `n` where the two key lists type
/// different characters.
pub open spec fn char_diffs_upto(a: Seq<Key>, b: Seq<Key>, n: int) -> nat
    decreases n,
{
    if n <= 0 {
        0
    } else {
        char_diffs_upto(a, b, n - 1) + if a[n - 1].ch != b[n - 1].ch {
            1nat
        } else {
            0nat
        }
    }
}

/// The number of keys, paired in order, whose characters differ.
pub open spec fn char_diffs(a: Seq<Key>, b: Seq<Key>) -> nat {
    char_diffs_upto(a, b, if a.len() <= b.len() { a.len() as int } else { b.len() as int })
}

/// The keys whose character is not pinned, in order.
pub open spec fn unpinned_keys(ks: Seq<Key>, pinned: Seq<char>) -> Seq<Key>
    decreases ks.len(),
{
    if ks.len() == 0 {
        Seq::empty()
    } else if pinned.contains(ks.last().ch) {
        unpinned_keys(ks.drop_last(), pinned)
    } else {
        unpinned_keys(ks.drop_last(), pinned).push(ks.last())
    }
}

pub open spec fn key_positions(ks: Seq<Key>) -> Seq<Pos> {
    ks.map_values(|k: Key| k.position)
}

/// The grid after the moves with the given indices, made in order.
pub open spec fn apply_moves(
    g: Seq<Seq<Option<Key>>>,
    moves: Seq<Seq<(Pos, Pos)>>,
    indices: Seq<int>,
) -> Seq<Seq<Option<Key>>>
    decreases indices.len(),
{
    if indices.len() == 0 {
        g
    } else {
        apply_pairs(apply_moves(g, moves, indices.drop_last()), moves[indices.last()])
    }
}

/// Every index names one of `n` moves.
pub open spec fn indices_within(indices: Seq<int>, n: int) -> bool {
    forall|i: int| 0 <= i < indices.len() ==> 0 <= #[trigger] indices[i] < n
}

/// The smaller of two numbers.
pub open spec fn min_of(a: int, b: int) -> int {
    if a < b {
        a
    } else {
        b
    }
}

/// One step of `perturb` on grid `g`: the grid after move `index`, unless a
/// largest number of changed keys is set and the move makes more keys differ
/// from `initial` than it allows, in which case the grid stays as it was;
/// and whether the move was kept.
pub open spec fn perturb_step_result(
    g: Seq<Seq<Option<Key>>>,
    moves: Seq<Seq<(Pos, Pos)>>,
    initial: Seq<Key>,
    max: Option<usize>,
    index: int,
) -> (Seq<Seq<Option<Key>>>, bool) {
    let moved = apply_pairs(g, moves[index]);
    if max matches Some(k) && char_diffs(grid_keys(moved), initial) > k {
        (g, false)
    } else {
        (moved, true)
    }
}

/// The steps of `perturb` on the drawn move indices, in order: the grid
/// they leave and the indices of the moves that were kept.
pub open spec fn perturb_replay(
    g: Seq<Seq<Option<Key>>>,
    moves: Seq<Seq<(Pos, Pos)>>,
    initial: Seq<Key>,
    max: Option<usize>,
    drawn: Seq<int>,
) -> (Seq<Seq<Option<Key>>>, Seq<int>)
    decreases drawn.len(),
{
    if drawn.len() == 0 {
        (g, Seq::empty())
    } else {
        let before = perturb_replay(g, moves, initial, max, drawn.drop_last());
        let step = perturb_step_result(before.0, moves, initial, max, drawn.last());
        (step.0, if step.1 { before.1.push(drawn.last()) } else { before.1 })
    }
}

/// `drawn` are the move indices that `perturb` may have drawn when it is to
/// keep `target` moves: each names a move, there are at most
/// `MAX_PERTURB_ATTEMPTS`, drawing went on only while fewer than `target`
/// moves were kept, and it stopped once `target` were kept or the attempts
/// ran out.
pub open spec fn perturb_draws(
    drawn: Seq<int>,
    g: Seq<Seq<Option<Key>>>,
    moves: Seq<Seq<(Pos, Pos)>>,
    initial: Seq<Key>,
    max: Option<usize>,
    target: int,
) -> bool {
    &&& drawn.len() <= MAX_PERTURB_ATTEMPTS
    &&& indices_within(drawn, moves.len() as int)
    &&& forall|j: int| 0 <= j < drawn.len() ==> (#[trigger] perturb_replay(g, moves, initial, max, drawn.take(j))).1.len()
        < target
    &&& (perturb_replay(g, moves, initial, max, drawn).1.len() == target || drawn.len() == MAX_PERTURB_ATTEMPTS)
}

/// A layout being optimized, with the layout it started from, the moves it
/// may make (over the positions of the keys whose characters are not
/// pinned) and the largest number of keys that may differ from the start.
pub struct OptimizableLayout {
    initial_layout: Layout,
    layout: Layout,
    max_swapped: Option<usize>,
    swap_moves: Arc<Vec<SwapMove>>,
    movable: Ghost<Seq<Pos>>,
    pinned: Ghost<Seq<char>>,
}

impl OptimizableLayout {
    /// The current grid.
    pub closed spec fn current(&self) -> Seq<Seq<Option<Key>>> {
        self.layout.grid()
    }

    /// The grid at the start.
    pub closed spec fn initial(&self) -> Seq<Seq<Option<Key>>> {
        self.initial_layout.grid()
    }

    /// The pairs of each move.
    pub closed spec fn moves(&self) -> Seq<Seq<(Pos, Pos)>> {
        self.swap_moves@.map_values(|m: SwapMove| m.0@)
    }

    /// The positions of the keys whose characters are not pinned.
    pub closed spec fn movable(&self) -> Seq<Pos> {
        self.movable@
    }

    pub closed spec fn pinned_chars(&self) -> Seq<char> {
        self.pinned@
    }

    pub closed spec fn max(&self) -> Option<usize> {
        self.max_swapped
    }

    /// How many keys type another character than at the start.
    pub open spec fn diff_spec(&self) -> nat {
        char_diffs(grid_keys(self.current()), grid_keys(self.initial()))
    }

    pub closed spec fn wf(&self) -> bool {
        &&& self.layout.wf()
        &&& self.initial_layout.wf()
        &&& self.movable@ == key_positions(unpinned_keys(grid_keys(self.initial()), self.pinned@))
        &&& forall|i: int| 0 <= i < self.moves().len() ==> pairs_within(#[trigger] self.moves()[i], self.movable@)
        &&& forall|i: int| 0 <= i < self.moves().len() ==> pairs_disjoint(#[trigger] self.moves()[i])
        &&& forall|p: Pos| !self.movable@.contains(p) ==> #[trigger] grid_key(self.current(), p) == grid_key(self.initial(), p)
        &&& key_chars(grid_keys(self.current())) == key_chars(grid_keys(self.initial()))
    }

    /// Builds the moves over the keys whose characters are not in
    /// `pinned_chars`.
    pub fn new(
        layout: Layout,
        pinned_chars: &Vec<char>,
        max_swapped: Option<usize>,
        swap_move_builder: &SwapMoveBuilder,
    ) -> (res: Self)
        requires
            layout.wf(),
        ensures
            res.wf(),
            res.current() == layout.grid(),
            res.initial() == layout.grid(),
            res.max() == max_swapped,
            res.pinned_chars() == pinned_chars@,
            res.movable() == key_positions(unpinned_keys(grid_keys(layout.grid()), pinned_chars@)),
            exists|cols: Seq<usize>, rows: Seq<usize>|
                crate::swaps::sorted_keys(res.movable(), crate::swaps::GroupKey::Column, cols)
                    && crate::swaps::sorted_keys(res.movable(), crate::swaps::GroupKey::Row, rows)
                    && res.moves() == crate::swaps::strategies_moves(
                    swap_move_builder.strategies(),
                    res.movable(),
                    cols,
                    rows,
                ),
    {
        let keys = layout.keys();
        let ghost pinned = pinned_chars@;
        let mut positions: Vec<Pos> = Vec::new();
        let mut i: usize = 0;
        while i < keys.len()
            invariant
                0 <= i <= keys@.len(),
                pinned == pinned_chars@,
                positions@ == key_positions(unpinned_keys(keys@.take(i as int), pinned)),
            decreases keys@.len() - i,
        {
            assert(keys@.take(i + 1).drop_last() == keys@.take(i as int));
            if !Self::contains_char(pinned_chars, keys[i].ch) {
                positions.push(keys[i].position);
            }
            i = i + 1;
            assert(positions@ =~= key_positions(unpinned_keys(keys@.take(i as int), pinned)));
        }
        assert(keys@.take(keys@.len() as int) == keys@);
        proof {
            lemma_grid_keys_ordered(layout.grid());
            Self::lemma_unpinned_sorted(keys@, pinned);
        }
        let moves = swap_move_builder.build(positions.as_slice());
        let initial_layout = layout.clone();
        let res = OptimizableLayout {
            initial_layout,
            layout,
            max_swapped,
            swap_moves: Arc::new(moves),
            movable: Ghost(positions@),
            pinned: Ghost(pinned),
        };
        proof {
            assert(res.moves() =~= crate::swaps::moves_view(moves@));
            let (cols, rows) = choose|cols: Seq<usize>, rows: Seq<usize>|
                crate::swaps::sorted_keys(positions@, crate::swaps::GroupKey::Column, cols)
                    && crate::swaps::sorted_keys(positions@, crate::swaps::GroupKey::Row, rows)
                    && crate::swaps::moves_view(moves@) == crate::swaps::strategies_moves(
                    swap_move_builder.strategies(),
                    positions@,
                    cols,
                    rows,
                );
            assert(res.movable() == positions@);
            assert(res.moves() == crate::swaps::strategies_moves(swap_move_builder.strategies(), res.movable(), cols, rows));
            assert forall|i: int| 0 <= i < res.moves().len() implies pairs_within(#[trigger] res.moves()[i], positions@)
                && pairs_disjoint(res.moves()[i]) by {
                assert(res.moves()[i] == moves@[i].0@);
            }
        }
        res
    }

    /// `ks` is sorted by position, so the positions of its unpinned keys are
    /// distinct.
    proof fn lemma_unpinned_sorted(ks: Seq<Key>, pinned: Seq<char>)
        requires
            forall|i: int, j: int| 0 <= i < j < ks.len() ==> pos_lt((#[trigger] ks[i]).position, (#[trigger] ks[j]).position),
        ensures
            forall|i: int, j: int|
                0 <= i < j < unpinned_keys(ks, pinned).len() ==> pos_lt(
                    (#[trigger] unpinned_keys(ks, pinned)[i]).position,
                    (#[trigger] unpinned_keys(ks, pinned)[j]).position,
                ),
            forall|i: int| 0 <= i < unpinned_keys(ks, pinned).len() ==> ks.contains(#[trigger] unpinned_keys(ks, pinned)[i])
                && !pinned.contains(unpinned_keys(ks, pinned)[i].ch),
            crate::swaps::all_distinct(key_positions(unpinned_keys(ks, pinned))),
        decreases ks.len(),
    {
        let u = unpinned_keys(ks, pinned);
        if ks.len() > 0 {
            let init = ks.drop_last();
            Self::lemma_unpinned_sorted(init, pinned);
            let ui = unpinned_keys(init, pinned);
            assert forall|i: int| 0 <= i < u.len() implies ks.contains(#[trigger] u[i]) && !pinned.contains(u[i].ch) by {
                if i < ui.len() {
                    assert(u[i] == ui[i]);
                    let j = choose|j: int| 0 <= j < init.len() && init[j] == ui[i];
                    assert(ks[j] == u[i]);
                } else {
                    assert(ks[ks.len() - 1] == u[i]);
                }
            }
            assert forall|i: int, j: int| 0 <= i < j < u.len() implies pos_lt((#[trigger] u[i]).position, (#[trigger] u[j]).position) by {
                if j < ui.len() {
                    assert(u[i] == ui[i] && u[j] == ui[j]);
                } else {
                    assert(u[i] == ui[i]);
                    let a = choose|a: int| 0 <= a < init.len() && init[a] == ui[i];
                    assert(ks[a] == u[i]);
                    assert(u[j] == ks[ks.len() - 1]);
                }
            }
        }
        let kp = key_positions(u);
        assert forall|i: int, j: int| 0 <= i < j < kp.len() implies #[trigger] kp[i] != #[trigger] kp[j] by {
            assert(pos_lt(u[i].position, u[j].position));
        }
    }

    fn contains_char(chars: &Vec<char>, ch: char) -> (b: bool)
        ensures
            b == chars@.contains(ch),
    {
        let mut i: usize = 0;
        while i < chars.len()
            invariant
                0 <= i <= chars@.len(),
                forall|j: int| 0 <= j < i ==> chars@[j] != ch,
            decreases chars@.len() - i,
        {
            if chars[i] == ch {
                assert(chars@[i as int] == ch);
                return true;
            }
            i = i + 1;
        }
        false
    }

    /// How many keys type another character than at the start.
    pub fn diff(&self) -> (d: usize)
        requires
            self.wf(),
        ensures
            d == self.diff_spec(),
    {
        Self::diff_between(&self.layout, &self.initial_layout)
    }

    /// The number of keys, paired in order, that type different characters
    /// in the two layouts.
    pub fn diff_between(layout: &Layout, initial_layout: &Layout) -> (d: usize)
        requires
            layout.wf(),
            initial_layout.wf(),
        ensures
            d == char_diffs(grid_keys(layout.grid()), grid_keys(initial_layout.grid())),
    {
        let a = layout.keys();
        let b = initial_layout.keys();
        let n = if a.len() <= b.len() {
            a.len()
        } else {
            b.len()
        };
        let mut count: usize = 0;
        let mut i: usize = 0;
        while i < n
            invariant
                n <= a@.len(),
                n <= b@.len(),
                n == (if a@.len() <= b@.len() { a@.len() } else { b@.len() }),
                0 <= i <= n,
                count == char_diffs_upto(a@, b@, i as int),
                count <= i,
            decreases n - i,
        {
            if a[i].ch != b[i].ch {
                count = count + 1;
            }
            i = i + 1;
        }
        count
    }

    /// The number of moves.
    pub fn move_count(&self) -> (n: usize)
        ensures
            n == self.moves().len(),
    {
        self.swap_moves.len()
    }

    /// Keys outside the pairs of a move keep their place.
    proof fn lemma_apply_outside(g: Seq<Seq<Option<Key>>>, pairs: Seq<(Pos, Pos)>, p: Pos)
        requires
            forall|i: int| 0 <= i < pairs.len() ==> (#[trigger] pairs[i]).0 != p && pairs[i].1 != p,
        ensures
            grid_key(apply_pairs(g, pairs), p) == grid_key(g, p),
        decreases pairs.len(),
    {
        if pairs.len() > 0 {
            let init = pairs.drop_last();
            assert forall|i: int| 0 <= i < init.len() implies (#[trigger] init[i]).0 != p && init[i].1 != p by {
                assert(init[i] == pairs[i]);
            }
            Self::lemma_apply_outside(g, init, p);
            let last = pairs[pairs.len() - 1];
            lemma_swap_keeps_presence(apply_pairs(g, init), last.0, last.1, p);
        }
    }

    /// Applying one of the moves keeps the invariant.
    proof fn lemma_apply_keeps_wf(old_self: Self, new_self: Self, index: int)
        requires
            old_self.wf(),
            0 <= index < old_self.moves().len(),
            new_self.layout.wf(),
            new_self.initial_layout == old_self.initial_layout,
            new_self.swap_moves == old_self.swap_moves,
            new_self.movable == old_self.movable,
            new_self.pinned == old_self.pinned,
            new_self.current() == apply_pairs(old_self.current(), old_self.moves()[index]),
        ensures
            new_self.wf(),
    {
        let m = old_self.moves()[index];
        assert(pairs_within(m, old_self.movable@));
        assert forall|p: Pos| !new_self.movable@.contains(p) implies #[trigger] grid_key(new_self.current(), p) == grid_key(
            new_self.initial(),
            p,
        ) by {
            assert forall|i: int| 0 <= i < m.len() implies (#[trigger] m[i]).0 != p && m[i].1 != p by {}
            Self::lemma_apply_outside(old_self.current(), m, p);
            assert(grid_key(old_self.current(), p) == grid_key(old_self.initial(), p));
        }
        lemma_apply_pairs_keeps_chars(old_self.current(), m);
        assert(new_self.moves() == old_self.moves());
    }

    /// Makes move `index`.
    pub fn apply_move(&mut self, index: usize)
        requires
            old(self).wf(),
            index < old(self).moves().len(),
        ensures
            final(self).wf(),
            final(self).current() == apply_pairs(old(self).current(), old(self).moves()[index as int]),
            final(self).initial() == old(self).initial(),
            final(self).moves() == old(self).moves(),
            final(self).movable() == old(self).movable(),
            final(self).pinned_chars() == old(self).pinned_chars(),
            final(self).max() == old(self).max(),
    {
        let ghost before = *self;
        let moves: &Vec<SwapMove> = &self.swap_moves;
        assert(moves@[index as int].0@ == before.moves()[index as int]);
        moves[index].apply(&mut self.layout);
        proof {
            Self::lemma_apply_keeps_wf(before, *self, index as int);
        }
    }

    /// The layout after move `index`, unless a largest number of changed
    /// keys is set and the move would exceed it.
    pub fn try_move(&self, index: usize) -> (res: Option<Layout>)
        requires
            self.wf(),
            index < self.moves().len(),
        ensures
            res is None <==> (self.max() matches Some(max) && char_diffs(
                grid_keys(apply_pairs(self.current(), self.moves()[index as int])),
                grid_keys(self.initial()),
            ) > max),
            res matches Some(l) ==> l.wf() && l.grid() == apply_pairs(self.current(), self.moves()[index as int]),
    {
        let mut candidate = self.layout.clone();
        let moves: &Vec<SwapMove> = &self.swap_moves;
        assert(moves@[index as int].0@ == self.moves()[index as int]);
        moves[index].apply(&mut candidate);
        match self.max_swapped {
            Some(max) => {
                if Self::diff_between(&candidate, &self.initial_layout) <= max {
                    Some(candidate)
                } else {
                    None
                }
            },
            None => Some(candidate),
        }
    }

    /// Makes `size` random moves, whatever the largest number of changed
    /// keys.
    pub fn shuffle(&mut self, rng: &mut StdRng, size: usize)
        requires
            old(self).wf(),
        ensures
            final(self).wf(),
            final(self).initial() == old(self).initial(),
            final(self).moves() == old(self).moves(),
            final(self).movable() == old(self).movable(),
            final(self).pinned_chars() == old(self).pinned_chars(),
            final(self).max() == old(self).max(),
            old(self).moves().len() == 0 ==> final(self).current() == old(self).current(),
            exists|indices: Seq<int>|
                #![trigger apply_moves(old(self).current(), old(self).moves(), indices)]
                indices.len() == (if old(self).moves().len() == 0 { 0 } else { size as int })
                    && indices_within(indices, old(self).moves().len() as int)
                    && final(self).current() == apply_moves(old(self).current(), old(self).moves(), indices),
    {
        let n = self.swap_moves.len();
        if n == 0 {
            proof {
                let none = Seq::<int>::empty();
                assert(apply_moves(self.current(), self.moves(), none) == self.current());
            }
            return;
        }
        let ghost start = *self;
        let ghost mut indices = Seq::<int>::empty();
        let mut k: usize = 0;
        while k < size
            invariant
                self.wf(),
                n == self.moves().len(),
                n > 0,
                self.initial() == start.initial(),
                self.moves() == start.moves(),
                self.movable() == start.movable(),
                self.pinned_chars() == start.pinned_chars(),
                self.max() == start.max(),
                k <= size,
                indices.len() == k,
                indices_within(indices, n as int),
                self.current() == apply_moves(start.current(), start.moves(), indices),
            decreases size - k,
        {
            let index = (#[verifier::truncate] (next_random(rng) as usize)) % n;
            self.apply_move(index);
            proof {
                assert(indices.push(index as int).drop_last() =~= indices);
                indices = indices.push(index as int);
            }
            k = k + 1;
        }
        assert(apply_moves(start.current(), start.moves(), indices) == self.current());
    }

    /// Makes move `index`, and undoes it again when a largest number of
    /// changed keys is set and the move exceeds it; tells whether the move
    /// was kept.
    pub fn perturb_step(&mut self, index: usize) -> (kept: bool)
        requires
            old(self).wf(),
            index < old(self).moves().len(),
        ensures
            final(self).wf(),
            final(self).initial() == old(self).initial(),
            final(self).moves() == old(self).moves(),
            final(self).movable() == old(self).movable(),
            final(self).pinned_chars() == old(self).pinned_chars(),
            final(self).max() == old(self).max(),
            (final(self).current(), kept) == perturb_step_result(
                old(self).current(),
                old(self).moves(),
                grid_keys(old(self).initial()),
                old(self).max(),
                index as int,
            ),
    {
        let ghost before = self.current();
        self.apply_move(index);
        match self.max_swapped {
            Some(max) => {
                if self.diff() > max {
                    self.apply_move(index);
                    proof {
                        lemma_apply_pairs_twice(before, self.moves()[index as int]);
                    }
                    false
                } else {
                    true
                }
            },
            None => true,
        }
    }

    /// Tries up to `MAX_PERTURB_ATTEMPTS` random moves until `n` of them (at
    /// most as many as there are moves) have been kept; a move that makes
    /// more keys differ from the start than allowed is undone.
    pub fn perturb(&mut self, rng: &mut StdRng, n: usize)
        requires
            old(self).wf(),
        ensures
            final(self).wf(),
            final(self).initial() == old(self).initial(),
            final(self).moves() == old(self).moves(),
            final(self).movable() == old(self).movable(),
            final(self).pinned_chars() == old(self).pinned_chars(),
            final(self).max() == old(self).max(),
            final(self).max() matches Some(max) ==> final(self).diff_spec() <= max || final(self).current()
                == old(self).current(),
            exists|kept: Seq<int>|
                #![trigger apply_moves(old(self).current(), old(self).moves(), kept)]
                indices_within(kept, old(self).moves().len() as int)
                    && kept.len() <= min_of(n as int, old(self).moves().len() as int)
                    && kept.len() <= MAX_PERTURB_ATTEMPTS
                    && final(self).current() == apply_moves(old(self).current(), old(self).moves(), kept)
                    && (old(self).max() is None ==> kept.len() == min_of(
                        min_of(n as int, old(self).moves().len() as int),
                        MAX_PERTURB_ATTEMPTS as int,
                    ))
                    && (old(self).max() matches Some(max) ==> forall|j: int|
                        1 <= j <= kept.len() ==> #[trigger] char_diffs(
                            grid_keys(apply_moves(old(self).current(), old(self).moves(), kept.take(j))),
                            grid_keys(old(self).initial()),
                        ) <= max),
            exists|drawn: Seq<int>|
                #![trigger perturb_replay(old(self).current(), old(self).moves(), grid_keys(old(self).initial()), old(self).max(), drawn)]
                perturb_draws(
                    drawn,
                    old(self).current(),
                    old(self).moves(),
                    grid_keys(old(self).initial()),
                    old(self).max(),
                    min_of(n as int, old(self).moves().len() as int),
                ) && final(self).current() == perturb_replay(
                    old(self).current(),
                    old(self).moves(),
                    grid_keys(old(self).initial()),
                    old(self).max(),
                    drawn,
                ).0,
    {
        let swaps_number = self.swap_moves.len();
        let n = if n < swaps_number {
            n
        } else {
            swaps_number
        };
        let ghost start = *self;
        let ghost init_keys = grid_keys(start.initial());
        let ghost mut kept = Seq::<int>::empty();
        let ghost mut drawn = Seq::<int>::empty();
        let mut applied: usize = 0;
        let mut attempt: usize = 0;
        while attempt < MAX_PERTURB_ATTEMPTS && applied < n
            invariant
                self.wf(),
                swaps_number == self.moves().len(),
                n <= swaps_number,
                applied <= attempt,
                attempt <= MAX_PERTURB_ATTEMPTS,
                applied <= n,
                init_keys == grid_keys(start.initial()),
                kept.len() == applied,
                indices_within(kept, swaps_number as int),
                self.current() == apply_moves(start.current(), start.moves(), kept),
                start.max() is None ==> applied == attempt,
                start.max() matches Some(max) ==> forall|j: int|
                    1 <= j <= kept.len() ==> #[trigger] char_diffs(
                        grid_keys(apply_moves(start.current(), start.moves(), kept.take(j))),
                        grid_keys(start.initial()),
                    ) <= max,
                drawn.len() == attempt,
                indices_within(drawn, swaps_number as int),
                perturb_replay(start.current(), start.moves(), init_keys, start.max(), drawn) == (self.current(), kept),
                forall|j: int| 0 <= j < drawn.len() ==> (#[trigger] perturb_replay(
                    start.current(),
                    start.moves(),
                    init_keys,
                    start.max(),
                    drawn.take(j),
                )).1.len() < n,
                self.initial() == start.initial(),
                self.moves() == start.moves(),
                self.movable() == start.movable(),
                self.pinned_chars() == start.pinned_chars(),
                self.max() == start.max(),
                self.max() matches Some(max) ==> self.diff_spec() <= max || self.current() == start.current(),
            decreases MAX_PERTURB_ATTEMPTS - attempt,
        {
            let index = (#[verifier::truncate] (next_random(rng) as usize)) % swaps_number;
            let ghost before = self.current();
            let ghost old_drawn = drawn;
            let keep = self.perturb_step(index);
            proof {
                let longer = old_drawn.push(index as int);
                assert(longer.drop_last() =~= old_drawn);
                assert forall|j: int| 0 <= j < longer.len() implies (#[trigger] perturb_replay(
                    start.current(),
                    start.moves(),
                    init_keys,
                    start.max(),
                    longer.take(j),
                )).1.len() < n by {
                    if j < old_drawn.len() {
                        assert(longer.take(j) =~= old_drawn.take(j));
                    } else {
                        assert(longer.take(j) =~= old_drawn);
                    }
                }
                drawn = longer;
                if keep {
                    let more = kept.push(index as int);
                    assert(more.drop_last() =~= kept);
                    if let Some(max) = start.max() {
                        assert forall|j: int| 1 <= j <= more.len() implies #[trigger] char_diffs(
                            grid_keys(apply_moves(start.current(), start.moves(), more.take(j))),
                            grid_keys(start.initial()),
                        ) <= max by {
                            if j < more.len() {
                                assert(more.take(j) =~= kept.take(j));
                            } else {
                                assert(more.take(j) =~= more);
                            }
                        }
                    }
                    kept = more;
                }
            }
            if keep {
                applied = applied + 1;
            }
            attempt = attempt + 1;
        }
        assert(apply_moves(start.current(), start.moves(), kept) == self.current());
        assert(perturb_draws(drawn, start.current(), start.moves(), init_keys, start.max(), n as int));
    }

    /// The current layout.
    pub fn layout(&self) -> (l: &Layout)
        ensures
            l.grid() == self.current(),
            self.wf() ==> l.wf(),
    {
        &self.layout
    }

    /// Optimizing only moves characters around: the current layout types
    /// each character as many times as the layout it started from.
    pub proof fn lemma_keeps_chars(&self)
        requires
            self.wf(),
        ensures
            key_chars(grid_keys(self.current())) == key_chars(grid_keys(self.initial())),
    {
    }

    /// A key whose character is pinned stays where it was at the start.
    pub proof fn lemma_pinned_keys_stay(&self, p: Pos)
        requires
            self.wf(),
            grid_key(self.initial(), p) matches Some(k) && self.pinned_chars().contains(k.ch),
        ensures
            grid_key(self.current(), p) == grid_key(self.initial(), p),
    {
        let g = self.initial();
        let k = grid_key(g, p)->0;
        lemma_grid_keys_ordered(g);
        Self::lemma_unpinned_sorted(grid_keys(g), self.pinned@);
        if self.movable@.contains(p) {
            let u = unpinned_keys(grid_keys(g), self.pinned@);
            let i = choose|i: int| 0 <= i < self.movable@.len() && self.movable@[i] == p;
            assert(key_positions(u)[i] == u[i].position);
            assert(grid_keys(g).contains(u[i]));
            let j = choose|j: int| 0 <= j < grid_keys(g).len() && grid_keys(g)[j] == u[i];
            assert(grid_key(g, grid_keys(g)[j].position) == Some(grid_keys(g)[j]));
        }
    }
}

impl Clone for OptimizableLayout {
    fn clone(&self) -> (res: Self)
        ensures
            res.current() == self.current(),
            res.initial() == self.initial(),
            res.moves() == self.moves(),
            res.movable() == self.movable(),
            res.pinned_chars() == self.pinned_chars(),
            res.max() == self.max(),
            self.wf() ==> res.wf(),
    {
        let res = OptimizableLayout {
            initial_layout: self.initial_layout.clone(),
            layout: self.layout.clone(),
            max_swapped: self.max_swapped,
            swap_moves: share_moves(&self.swap_moves),
            movable: Ghost(self.movable@),
            pinned: Ghost(self.pinned@),
        };
        proof {
            assert(res.moves() =~= self.moves());
        }
        res
    }
}

} // verus!
