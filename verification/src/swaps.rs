use vstd::prelude::*;
use vstd::multiset::Multiset;

use crate::layout::{grid_char, grid_key, grid_keys, grid_set_char, grid_swap, row_keys, Key, Layout};
use crate::matrix::Pos;

verus! {

/// A move of the optimizer: the characters of each pair of positions are
/// exchanged, pair after pair.
#[derive(Clone, Debug, PartialEq)]
pub struct SwapMove(pub Vec<(Pos, Pos)>);

/// Which coordinate groups positions together.
#[derive(Clone, Copy, Debug, PartialEq, Eq, Structural)]
pub enum GroupKey {
    Row,
    Column,
}

pub open spec fn key_of(p: Pos, by: GroupKey) -> usize {
    match by {
        GroupKey::Row => p.r,
        GroupKey::Column => p.c,
    }
}

/// The pairs of each move.
pub open spec fn moves_view(moves: Seq<SwapMove>) -> Seq<Seq<(Pos, Pos)>> {
    moves.map_values(|m: SwapMove| m.0@)
}

/// The moves that pair position `i` with each later position.
pub open spec fn single_moves_of(ps: Seq<Pos>, i: int) -> Seq<Seq<(Pos, Pos)>> {
    Seq::new((ps.len() - i - 1) as nat, |k: int| seq![(ps[i], ps[i + 1 + k])])
}

/// The single moves whose first position is one of the first `n` positions.
pub open spec fn single_moves_upto(ps: Seq<Pos>, n: int) -> Seq<Seq<(Pos, Pos)>>
    decreases n,
{
    if n <= 0 {
        Seq::empty()
    } else {
        single_moves_upto(ps, n - 1) + single_moves_of(ps, n - 1)
    }
}

/// One move for each pair `i < j` of positions, exchanging `ps[i]` and
/// `ps[j]`, ordered by `i` then `j`.
pub open spec fn single_moves_spec(ps: Seq<Pos>) -> Seq<Seq<(Pos, Pos)>> {
    single_moves_upto(ps, ps.len() as int)
}

/// The positions whose key is `k`, in their order.
pub open spec fn group_of(ps: Seq<Pos>, by: GroupKey, k: usize) -> Seq<Pos>
    decreases ps.len(),
{
    if ps.len() == 0 {
        Seq::empty()
    } else if key_of(ps.last(), by) == k {
        group_of(ps.drop_last(), by, k).push(ps.last())
    } else {
        group_of(ps.drop_last(), by, k)
    }
}

/// The first elements of `a` paired with the first elements of `b`, as many
/// pairs as the shorter one has elements.
pub open spec fn zip_pairs(a: Seq<Pos>, b: Seq<Pos>) -> Seq<(Pos, Pos)> {
    Seq::new(if a.len() <= b.len() { a.len() } else { b.len() }, |i: int| (a[i], b[i]))
}

/// Some position has key `k`.
pub open spec fn key_present(ps: Seq<Pos>, by: GroupKey, k: usize) -> bool {
    exists|p: int| 0 <= p < ps.len() && key_of(#[trigger] ps[p], by) == k
}

/// The keys of the positions, each once, in increasing order.
pub open spec fn sorted_keys(ps: Seq<Pos>, by: GroupKey, keys: Seq<usize>) -> bool {
    &&& forall|i: int, j: int| 0 <= i < j < keys.len() ==> keys[i] < keys[j]
    &&& forall|i: int| 0 <= i < keys.len() ==> key_present(ps, by, #[trigger] keys[i])
    &&& forall|p: int| 0 <= p < ps.len() ==> keys.contains(key_of(#[trigger] ps[p], by))
}

proof fn lemma_increasing_unique(a: Seq<usize>, b: Seq<usize>)
    requires
        forall|i: int, j: int| 0 <= i < j < a.len() ==> a[i] < a[j],
        forall|i: int, j: int| 0 <= i < j < b.len() ==> b[i] < b[j],
        forall|x: usize| a.contains(x) <==> b.contains(x),
    ensures
        a == b,
    decreases a.len(),
{
    if a.len() == 0 {
        if b.len() > 0 {
            assert(b.contains(b[0]));
        }
        assert(a =~= b);
    } else {
        if b.len() == 0 {
            assert(a.contains(a[0]));
        }
        let la = a.last();
        let lb = b.last();
        assert(a.contains(la));
        let j = choose|j: int| 0 <= j < b.len() && b[j] == la;
        assert(la <= lb) by {
            if j < b.len() - 1 {
            }
        }
        assert(b.contains(lb));
        let i = choose|i: int| 0 <= i < a.len() && a[i] == lb;
        assert(lb <= la) by {
            if i < a.len() - 1 {
            }
        }
        let a0 = a.drop_last();
        let b0 = b.drop_last();
        assert forall|x: usize| a0.contains(x) <==> b0.contains(x) by {
            if a0.contains(x) {
                let k = choose|k: int| 0 <= k < a0.len() && a0[k] == x;
                assert(a[k] == x && x < la);
                assert(b.contains(x));
                let m = choose|m: int| 0 <= m < b.len() && b[m] == x;
                assert(m < b.len() - 1);
                assert(b0[m] == x);
            }
            if b0.contains(x) {
                let k = choose|k: int| 0 <= k < b0.len() && b0[k] == x;
                assert(b[k] == x && x < lb);
                assert(a.contains(x));
                let m = choose|m: int| 0 <= m < a.len() && a[m] == x;
                assert(m < a.len() - 1);
                assert(a0[m] == x);
            }
        }
        lemma_increasing_unique(a0, b0);
        assert(a =~= a0.push(la));
        assert(b =~= b0.push(lb));
    }
}

/// The sorted keys of a list of positions are unique: whichever list
/// `sorted_keys` admits, it is the same one.
pub proof fn lemma_sorted_keys_unique(ps: Seq<Pos>, by: GroupKey, a: Seq<usize>, b: Seq<usize>)
    requires
        sorted_keys(ps, by, a),
        sorted_keys(ps, by, b),
    ensures
        a == b,
{
    assert forall|x: usize| a.contains(x) <==> b.contains(x) by {
        if a.contains(x) {
            let i = choose|i: int| 0 <= i < a.len() && a[i] == x;
            assert(key_present(ps, by, a[i]));
            let p = choose|p: int| 0 <= p < ps.len() && key_of(#[trigger] ps[p], by) == a[i];
            assert(b.contains(key_of(ps[p], by)));
        }
        if b.contains(x) {
            let i = choose|i: int| 0 <= i < b.len() && b[i] == x;
            assert(key_present(ps, by, b[i]));
            let p = choose|p: int| 0 <= p < ps.len() && key_of(#[trigger] ps[p], by) == b[i];
            assert(a.contains(key_of(ps[p], by)));
        }
    }
    lemma_increasing_unique(a, b);
}

/// The group moves whose first group is the `i`-th key.
pub open spec fn group_moves_of(ps: Seq<Pos>, by: GroupKey, keys: Seq<usize>, i: int) -> Seq<Seq<(Pos, Pos)>> {
    Seq::new(
        (keys.len() - i - 1) as nat,
        |k: int| zip_pairs(group_of(ps, by, keys[i]), group_of(ps, by, keys[i + 1 + k])),
    )
}

pub open spec fn group_moves_upto(ps: Seq<Pos>, by: GroupKey, keys: Seq<usize>, n: int) -> Seq<Seq<(Pos, Pos)>>
    decreases n,
{
    if n <= 0 {
        Seq::empty()
    } else {
        group_moves_upto(ps, by, keys, n - 1) + group_moves_of(ps, by, keys, n - 1)
    }
}

/// One move for each pair of keys `k1 < k2`, pairing the positions with key
/// `k1` with those with key `k2`, in order, as far as the shorter group goes.
pub open spec fn group_moves_spec(ps: Seq<Pos>, by: GroupKey, keys: Seq<usize>) -> Seq<Seq<(Pos, Pos)>> {
    group_moves_upto(ps, by, keys, keys.len() as int)
}

/// The grid after exchanging the characters of each pair, first to last.
pub open spec fn apply_pairs(g: Seq<Seq<Option<crate::layout::Key>>>, pairs: Seq<(Pos, Pos)>) -> Seq<
    Seq<Option<crate::layout::Key>>,
>
    decreases pairs.len(),
{
    if pairs.len() == 0 {
        g
    } else {
        grid_swap(apply_pairs(g, pairs.drop_last()), pairs.last().0, pairs.last().1)
    }
}

/// The cell (`r`, `c`) of `grid_swap(g, a, b)`, described directly.
pub open spec fn swapped_cell(g: Seq<Seq<Option<Key>>>, a: Pos, b: Pos, r: int, c: int) -> Option<Key> {
    match (grid_char(g, a), grid_char(g, b)) {
        (Some(ca), Some(cb)) => {
            if r == b.r && c == b.c {
                with_char(g[r][c], ca)
            } else if r == a.r && c == a.c {
                with_char(g[r][c], cb)
            } else {
                g[r][c]
            }
        },
        _ => g[r][c],
    }
}

/// The key `k`, if any, typing `ch` instead.
pub open spec fn with_char(k: Option<Key>, ch: char) -> Option<Key> {
    match k {
        Some(key) => Some(Key { ch, finger: key.finger, position: key.position, finger_home: key.finger_home }),
        None => None,
    }
}

/// Two pairs have no position in common.
pub open spec fn pair_disjoint(p: (Pos, Pos), q: (Pos, Pos)) -> bool {
    p.0 != q.0 && p.0 != q.1 && p.1 != q.0 && p.1 != q.1
}

/// No position occurs in two different pairs.
pub open spec fn pairs_disjoint(pairs: Seq<(Pos, Pos)>) -> bool {
    forall|i: int, j: int| 0 <= i < j < pairs.len() ==> pair_disjoint(#[trigger] pairs[i], #[trigger] pairs[j])
}

/// No position occurs twice.
pub open spec fn all_distinct(ps: Seq<Pos>) -> bool {
    forall|i: int, j: int| 0 <= i < j < ps.len() ==> #[trigger] ps[i] != #[trigger] ps[j]
}

/// Every position of every pair is one of `ps`.
pub open spec fn pairs_within(pairs: Seq<(Pos, Pos)>, ps: Seq<Pos>) -> bool {
    forall|i: int| 0 <= i < pairs.len() ==> ps.contains(#[trigger] pairs[i].0) && ps.contains(pairs[i].1)
}

/// All moves, in the order of `SwapMove::all_moves`.
pub open spec fn all_moves_spec(ps: Seq<Pos>, cols: Seq<usize>, rows: Seq<usize>) -> Seq<Seq<(Pos, Pos)>> {
    single_moves_spec(ps) + group_moves_spec(ps, GroupKey::Column, cols) + group_moves_spec(ps, GroupKey::Row, rows)
}

/// The cells of `grid_swap(g, a, b)` are those of `swapped_cell`.
pub proof fn lemma_swap_cells(g: Seq<Seq<Option<Key>>>, a: Pos, b: Pos)
    ensures
        grid_swap(g, a, b).len() == g.len(),
        forall|r: int| 0 <= r < g.len() ==> #[trigger] grid_swap(g, a, b)[r].len() == g[r].len(),
        forall|r: int, c: int|
            0 <= r < g.len() && 0 <= c < g[r].len() ==> #[trigger] grid_swap(g, a, b)[r][c] == swapped_cell(
                g,
                a,
                b,
                r,
                c,
            ),
{
}

/// Swapping does not add or remove keys.
pub proof fn lemma_swap_keeps_presence(g: Seq<Seq<Option<Key>>>, a: Pos, b: Pos, p: Pos)
    ensures
        grid_key(grid_swap(g, a, b), p) is Some <==> grid_key(g, p) is Some,
        p != a && p != b ==> grid_key(grid_swap(g, a, b), p) == grid_key(g, p),
{
    lemma_swap_cells(g, a, b);
}

/// The characters of some keys, each counted as often as it occurs.
pub open spec fn key_chars(ks: Seq<Key>) -> Multiset<char>
    decreases ks.len(),
{
    if ks.len() == 0 {
        Multiset::empty()
    } else {
        key_chars(ks.drop_last()).insert(ks.last().ch)
    }
}

/// The character of a cell, as a multiset of at most one element.
pub open spec fn cell_chars(cell: Option<Key>) -> Multiset<char> {
    match cell {
        Some(k) => Multiset::singleton(k.ch),
        None => Multiset::empty(),
    }
}

/// The characters of a row's keys.
pub open spec fn row_chars(row: Seq<Option<Key>>) -> Multiset<char>
    decreases row.len(),
{
    if row.len() == 0 {
        Multiset::empty()
    } else {
        row_chars(row.drop_last()).add(cell_chars(row.last()))
    }
}

/// The characters of a grid's keys.
pub open spec fn grid_chars(g: Seq<Seq<Option<Key>>>) -> Multiset<char>
    decreases g.len(),
{
    if g.len() == 0 {
        Multiset::empty()
    } else {
        grid_chars(g.drop_last()).add(row_chars(g.last()))
    }
}

proof fn lemma_key_chars_concat(a: Seq<Key>, b: Seq<Key>)
    ensures
        key_chars(a + b) == key_chars(a).add(key_chars(b)),
    decreases b.len(),
{
    broadcast use vstd::multiset::group_multiset_axioms;

    if b.len() == 0 {
        assert(a + b =~= a);
        assert(key_chars(a).add(key_chars(b)) =~= key_chars(a));
    } else {
        assert((a + b).drop_last() =~= a + b.drop_last());
        lemma_key_chars_concat(a, b.drop_last());
        assert(key_chars(a + b) =~= key_chars(a).add(key_chars(b)));
    }
}

proof fn lemma_row_chars_are_key_chars(row: Seq<Option<Key>>)
    ensures
        key_chars(row_keys(row)) == row_chars(row),
    decreases row.len(),
{
    if row.len() > 0 {
        lemma_row_chars_are_key_chars(row.drop_last());
        let tail = match row.last() {
            Some(k) => seq![k],
            None => Seq::<Key>::empty(),
        };
        lemma_key_chars_concat(row_keys(row.drop_last()), tail);
        broadcast use vstd::multiset::group_multiset_axioms;
        match row.last() {
            Some(k) => {
                assert(tail == seq![k]);
                assert(tail.drop_last() =~= Seq::<Key>::empty());
                assert(tail.last() == k);
                assert(key_chars(tail.drop_last()) == Multiset::<char>::empty());
                assert(key_chars(tail) =~= Multiset::singleton(k.ch));
            },
            None => {
                assert(key_chars(tail) =~= Multiset::empty());
            },
        }
    }
}

/// The characters of a grid's keys, counted cell by cell, are those of its
/// key list.
proof fn lemma_grid_chars_are_key_chars(g: Seq<Seq<Option<Key>>>)
    ensures
        key_chars(grid_keys(g)) == grid_chars(g),
    decreases g.len(),
{
    if g.len() > 0 {
        lemma_grid_chars_are_key_chars(g.drop_last());
        lemma_row_chars_are_key_chars(g.last());
        lemma_key_chars_concat(grid_keys(g.drop_last()), row_keys(g.last()));
    }
}

proof fn lemma_row_update_chars(row: Seq<Option<Key>>, c: int, x: Option<Key>)
    requires
        0 <= c < row.len(),
    ensures
        row_chars(row.update(c, x)).add(cell_chars(row[c])) == row_chars(row).add(cell_chars(x)),
    decreases row.len(),
{
    broadcast use vstd::multiset::group_multiset_axioms;

    let updated = row.update(c, x);
    if c == row.len() - 1 {
        assert(updated.drop_last() =~= row.drop_last());
        assert(updated.last() == x);
        assert(row.last() == row[c]);
        assert forall|v: char| #[trigger] row_chars(updated).add(cell_chars(row[c])).count(v) == row_chars(row).add(
            cell_chars(x),
        ).count(v) by {
            assert(row_chars(updated) == row_chars(row.drop_last()).add(cell_chars(x)));
            assert(row_chars(row) == row_chars(row.drop_last()).add(cell_chars(row[c])));
        }
    } else {
        assert(updated.drop_last() =~= row.drop_last().update(c, x));
        assert(updated.last() == row.last());
        lemma_row_update_chars(row.drop_last(), c, x);
        assert(row.drop_last()[c] == row[c]);
        assert forall|v: char| #[trigger] row_chars(updated).add(cell_chars(row[c])).count(v) == row_chars(row).add(
            cell_chars(x),
        ).count(v) by {
            assert(row_chars(updated) == row_chars(row.drop_last().update(c, x)).add(cell_chars(row.last())));
            assert(row_chars(row) == row_chars(row.drop_last()).add(cell_chars(row.last())));
            assert(row_chars(row.drop_last().update(c, x)).add(cell_chars(row[c])).count(v) == row_chars(
                row.drop_last(),
            ).add(cell_chars(x)).count(v));
        }
    }
    assert(row_chars(updated).add(cell_chars(row[c])) =~= row_chars(row).add(cell_chars(x)));
}

proof fn lemma_grid_update_chars(g: Seq<Seq<Option<Key>>>, r: int, row: Seq<Option<Key>>)
    requires
        0 <= r < g.len(),
    ensures
        grid_chars(g.update(r, row)).add(row_chars(g[r])) == grid_chars(g).add(row_chars(row)),
    decreases g.len(),
{
    broadcast use vstd::multiset::group_multiset_axioms;

    let updated = g.update(r, row);
    if r == g.len() - 1 {
        assert(updated.drop_last() =~= g.drop_last());
        assert(updated.last() == row);
        assert(g.last() == g[r]);
        assert forall|v: char| #[trigger] grid_chars(updated).add(row_chars(g[r])).count(v) == grid_chars(g).add(
            row_chars(row),
        ).count(v) by {
            assert(grid_chars(updated) == grid_chars(g.drop_last()).add(row_chars(row)));
            assert(grid_chars(g) == grid_chars(g.drop_last()).add(row_chars(g[r])));
        }
    } else {
        assert(updated.drop_last() =~= g.drop_last().update(r, row));
        assert(updated.last() == g.last());
        lemma_grid_update_chars(g.drop_last(), r, row);
        assert(g.drop_last()[r] == g[r]);
        assert forall|v: char| #[trigger] grid_chars(updated).add(row_chars(g[r])).count(v) == grid_chars(g).add(
            row_chars(row),
        ).count(v) by {
            assert(grid_chars(updated) == grid_chars(g.drop_last().update(r, row)).add(row_chars(g.last())));
            assert(grid_chars(g) == grid_chars(g.drop_last()).add(row_chars(g.last())));
            assert(grid_chars(g.drop_last().update(r, row)).add(row_chars(g[r])).count(v) == grid_chars(
                g.drop_last(),
            ).add(row_chars(row)).count(v));
        }
    }
    assert(grid_chars(updated).add(row_chars(g[r])) =~= grid_chars(g).add(row_chars(row)));
}

/// Giving the key at `p` another character replaces one occurrence of its
/// character by the new one.
proof fn lemma_set_char_chars(g: Seq<Seq<Option<Key>>>, p: Pos, ch: char)
    requires
        grid_char(g, p) is Some,
    ensures
        grid_chars(grid_set_char(g, p, ch)).insert(grid_char(g, p)->0) == grid_chars(g).insert(ch),
{
    broadcast use vstd::multiset::group_multiset_axioms;

    let k = grid_key(g, p)->0;
    let r = p.r as int;
    let c = p.c as int;
    let new_cell = Some(Key { ch, finger: k.finger, position: k.position, finger_home: k.finger_home });
    let new_row = g[r].update(c, new_cell);
    lemma_row_update_chars(g[r], c, new_cell);
    lemma_grid_update_chars(g, r, new_row);
    let updated = g.update(r, new_row);
    assert(grid_set_char(g, p, ch) == updated);
    assert(g[r][c] == Some(k));
    assert forall|v: char| #[trigger] grid_chars(updated).insert(k.ch).count(v) == grid_chars(g).insert(ch).count(v) by {
        assert(grid_chars(updated).add(row_chars(g[r])).count(v) == grid_chars(g).add(row_chars(new_row)).count(v));
        assert(row_chars(new_row).add(cell_chars(g[r][c])).count(v) == row_chars(g[r]).add(cell_chars(new_cell)).count(v));
    }
    assert(grid_chars(updated).insert(k.ch) =~= grid_chars(g).insert(ch));
}

/// Exchanging the characters of two keys keeps the characters of the grid:
/// each occurs as often as before.
pub proof fn lemma_swap_keeps_chars(g: Seq<Seq<Option<Key>>>, a: Pos, b: Pos)
    ensures
        key_chars(grid_keys(grid_swap(g, a, b))) == key_chars(grid_keys(g)),
{
    broadcast use vstd::multiset::group_multiset_axioms;

    lemma_grid_chars_are_key_chars(g);
    lemma_grid_chars_are_key_chars(grid_swap(g, a, b));
    if let (Some(ca), Some(cb)) = (grid_char(g, a), grid_char(g, b)) {
        let g1 = grid_set_char(g, a, cb);
        lemma_set_char_chars(g, a, cb);
        assert(grid_char(g1, b) == Some(cb)) by {
            lemma_swap_cells(g, a, b);
        }
        lemma_set_char_chars(g1, b, ca);
        let g2 = grid_set_char(g1, b, ca);
        assert forall|v: char| #[trigger] grid_chars(g2).count(v) == grid_chars(g).count(v) by {
            assert(grid_chars(g1).insert(ca).count(v) == grid_chars(g).insert(cb).count(v));
            assert(grid_chars(g2).insert(cb).count(v) == grid_chars(g1).insert(ca).count(v));
        }
        assert(grid_chars(g2) =~= grid_chars(g));
    }
}

/// Making the exchanges of a list of pairs keeps the characters of the grid.
pub proof fn lemma_apply_pairs_keeps_chars(g: Seq<Seq<Option<Key>>>, pairs: Seq<(Pos, Pos)>)
    ensures
        key_chars(grid_keys(apply_pairs(g, pairs))) == key_chars(grid_keys(g)),
    decreases pairs.len(),
{
    if pairs.len() > 0 {
        lemma_apply_pairs_keeps_chars(g, pairs.drop_last());
        lemma_swap_keeps_chars(apply_pairs(g, pairs.drop_last()), pairs.last().0, pairs.last().1);
    }
}

/// Exchanging the same two characters twice restores the grid.
pub proof fn lemma_swap_twice(g: Seq<Seq<Option<Key>>>, a: Pos, b: Pos)
    ensures
        grid_swap(grid_swap(g, a, b), a, b) == g,
{
    let g1 = grid_swap(g, a, b);
    let g2 = grid_swap(g1, a, b);
    lemma_swap_cells(g, a, b);
    lemma_swap_cells(g1, a, b);
    assert forall|r: int| 0 <= r < g.len() implies #[trigger] g2[r] =~= g[r] by {
        assert forall|c: int| 0 <= c < g[r].len() implies g2[r][c] == g[r][c] by {
            if grid_char(g, a) is Some && grid_char(g, b) is Some {
                assert(grid_key(g1, a) == with_char(grid_key(g, a), grid_char(g, b)->0) || a == b);
            }
        }
    }
    assert(g2 =~= g);
}

/// Exchanges on disjoint pairs of positions can be made in either order.
pub proof fn lemma_swaps_commute(g: Seq<Seq<Option<Key>>>, p: (Pos, Pos), q: (Pos, Pos))
    requires
        pair_disjoint(p, q),
    ensures
        grid_swap(grid_swap(g, p.0, p.1), q.0, q.1) == grid_swap(grid_swap(g, q.0, q.1), p.0, p.1),
{
    let gp = grid_swap(g, p.0, p.1);
    let gq = grid_swap(g, q.0, q.1);
    let left = grid_swap(gp, q.0, q.1);
    let right = grid_swap(gq, p.0, p.1);
    lemma_swap_cells(g, p.0, p.1);
    lemma_swap_cells(g, q.0, q.1);
    lemma_swap_cells(gp, q.0, q.1);
    lemma_swap_cells(gq, p.0, p.1);
    lemma_swap_keeps_presence(g, p.0, p.1, q.0);
    lemma_swap_keeps_presence(g, p.0, p.1, q.1);
    lemma_swap_keeps_presence(g, q.0, q.1, p.0);
    lemma_swap_keeps_presence(g, q.0, q.1, p.1);
    assert forall|r: int| 0 <= r < g.len() implies #[trigger] left[r] =~= right[r] by {
        assert forall|c: int| 0 <= c < g[r].len() implies left[r][c] == right[r][c] by {}
    }
    assert(left =~= right);
}

/// An exchange on a pair disjoint from all pairs of `pairs` commutes with
/// applying `pairs`.
pub proof fn lemma_swap_commutes_with_pairs(g: Seq<Seq<Option<Key>>>, q: (Pos, Pos), pairs: Seq<(Pos, Pos)>)
    requires
        forall|i: int| 0 <= i < pairs.len() ==> pair_disjoint(q, #[trigger] pairs[i]),
    ensures
        apply_pairs(grid_swap(g, q.0, q.1), pairs) == grid_swap(apply_pairs(g, pairs), q.0, q.1),
    decreases pairs.len(),
{
    if pairs.len() > 0 {
        let init = pairs.drop_last();
        let last = pairs.last();
        lemma_swap_commutes_with_pairs(g, q, init);
        assert(pair_disjoint(q, pairs[pairs.len() - 1]));
        lemma_swaps_commute(apply_pairs(g, init), q, last);
    }
}

/// Applying a move with disjoint pairs twice restores the grid.
pub proof fn lemma_apply_pairs_twice(g: Seq<Seq<Option<Key>>>, pairs: Seq<(Pos, Pos)>)
    requires
        pairs_disjoint(pairs),
    ensures
        apply_pairs(apply_pairs(g, pairs), pairs) == g,
    decreases pairs.len(),
{
    if pairs.len() > 0 {
        let init = pairs.drop_last();
        let q = pairs.last();
        assert(pairs_disjoint(init)) by {
            assert forall|i: int, j: int| 0 <= i < j < init.len() implies pair_disjoint(
                #[trigger] init[i],
                #[trigger] init[j],
            ) by {
                assert(init[i] == pairs[i] && init[j] == pairs[j]);
            }
        }
        assert forall|i: int| 0 <= i < init.len() implies pair_disjoint(q, #[trigger] init[i]) by {
            assert(pair_disjoint(pairs[i], pairs[pairs.len() - 1]));
        }
        let once = apply_pairs(g, pairs);
        lemma_swap_commutes_with_pairs(apply_pairs(g, init), q, init);
        lemma_swap_twice(apply_pairs(apply_pairs(g, init), init), q.0, q.1);
        lemma_apply_pairs_twice(g, init);
    }
}

proof fn lemma_single_moves_shape(ps: Seq<Pos>, n: int, i: int)
    requires
        0 <= n <= ps.len(),
        0 <= i < single_moves_upto(ps, n).len(),
    ensures
        exists|a: int, b: int|
            0 <= a < b < ps.len() && single_moves_upto(ps, n)[i] == seq![(ps[a], ps[b])],
    decreases n,
{
    if n > 0 {
        let prev = single_moves_upto(ps, n - 1);
        if i < prev.len() {
            lemma_single_moves_shape(ps, n - 1, i);
        } else {
            let k = i - prev.len();
            assert(single_moves_upto(ps, n)[i] == single_moves_of(ps, n - 1)[k]);
            assert(single_moves_upto(ps, n)[i] == seq![(ps[n - 1], ps[n + k])]);
        }
    }
}

proof fn lemma_group_members(ps: Seq<Pos>, by: GroupKey, k: usize)
    ensures
        forall|i: int| 0 <= i < group_of(ps, by, k).len() ==> key_of(#[trigger] group_of(ps, by, k)[i], by) == k
            && ps.contains(group_of(ps, by, k)[i]),
        all_distinct(ps) ==> all_distinct(group_of(ps, by, k)),
    decreases ps.len(),
{
    if ps.len() > 0 {
        let init = ps.drop_last();
        lemma_group_members(init, by, k);
        let gi = group_of(init, by, k);
        let gg = group_of(ps, by, k);
        assert forall|i: int| 0 <= i < gg.len() implies key_of(#[trigger] gg[i], by) == k && ps.contains(gg[i]) by {
            if i < gi.len() {
                assert(gg[i] == gi[i]);
                let j = choose|j: int| 0 <= j < init.len() && init[j] == gi[i];
                assert(ps[j] == gi[i]);
            } else {
                assert(gg[i] == ps.last());
                assert(ps[ps.len() - 1] == gg[i]);
            }
        }
        if all_distinct(ps) {
            assert(all_distinct(init)) by {
                assert forall|i: int, j: int| 0 <= i < j < init.len() implies #[trigger] init[i] != #[trigger] init[j] by {
                    assert(init[i] == ps[i] && init[j] == ps[j]);
                }
            }
            assert forall|i: int, j: int| 0 <= i < j < gg.len() implies #[trigger] gg[i] != #[trigger] gg[j] by {
                if j == gi.len() && key_of(ps.last(), by) == k {
                    let m = choose|m: int| 0 <= m < init.len() && init[m] == gi[i];
                    assert(ps[m] == gg[i]);
                    assert(ps[ps.len() - 1] == gg[j]);
                } else {
                    assert(gg[i] == gi[i] && gg[j] == gi[j]);
                }
            }
        }
    }
}

proof fn lemma_group_moves_shape(ps: Seq<Pos>, by: GroupKey, keys: Seq<usize>, n: int, i: int)
    requires
        0 <= n <= keys.len(),
        0 <= i < group_moves_upto(ps, by, keys, n).len(),
    ensures
        exists|a: int, b: int|
            0 <= a < b < keys.len() && group_moves_upto(ps, by, keys, n)[i] == zip_pairs(
                group_of(ps, by, keys[a]),
                group_of(ps, by, keys[b]),
            ),
    decreases n,
{
    if n > 0 {
        let prev = group_moves_upto(ps, by, keys, n - 1);
        if i < prev.len() {
            lemma_group_moves_shape(ps, by, keys, n - 1, i);
        } else {
            let k = i - prev.len();
            assert(group_moves_upto(ps, by, keys, n)[i] == group_moves_of(ps, by, keys, n - 1)[k]);
        }
    }
}

proof fn lemma_zip_disjoint(ps: Seq<Pos>, by: GroupKey, k1: usize, k2: usize)
    requires
        all_distinct(ps),
        k1 != k2,
    ensures
        pairs_disjoint(zip_pairs(group_of(ps, by, k1), group_of(ps, by, k2))),
        pairs_within(zip_pairs(group_of(ps, by, k1), group_of(ps, by, k2)), ps),
{
    lemma_group_members(ps, by, k1);
    lemma_group_members(ps, by, k2);
    let g1 = group_of(ps, by, k1);
    let g2 = group_of(ps, by, k2);
    let z = zip_pairs(g1, g2);
    assert forall|i: int, j: int| 0 <= i < j < z.len() implies pair_disjoint(#[trigger] z[i], #[trigger] z[j]) by {
        assert(key_of(g1[i], by) == k1 && key_of(g2[j], by) == k2);
        assert(key_of(g1[j], by) == k1 && key_of(g2[i], by) == k2);
    }
    assert forall|i: int| 0 <= i < z.len() implies ps.contains(#[trigger] z[i].0) && ps.contains(z[i].1) by {
        assert(z[i].0 == g1[i] && z[i].1 == g2[i]);
    }
}

proof fn lemma_single_move_well_formed(ps: Seq<Pos>, i: int)
    requires
        0 <= i < single_moves_spec(ps).len(),
    ensures
        pairs_disjoint(single_moves_spec(ps)[i]),
        pairs_within(single_moves_spec(ps)[i], ps),
{
    lemma_single_moves_shape(ps, ps.len() as int, i);
    let m = single_moves_spec(ps)[i];
    let (a, b) = choose|a: int, b: int| 0 <= a < b < ps.len() && m == seq![(ps[a], ps[b])];
    assert(m.len() == 1);
    assert(m[0].0 == ps[a] && m[0].1 == ps[b]);
}

proof fn lemma_group_move_well_formed(ps: Seq<Pos>, by: GroupKey, keys: Seq<usize>, i: int)
    requires
        all_distinct(ps),
        sorted_keys(ps, by, keys),
        0 <= i < group_moves_spec(ps, by, keys).len(),
    ensures
        pairs_disjoint(group_moves_spec(ps, by, keys)[i]),
        pairs_within(group_moves_spec(ps, by, keys)[i], ps),
{
    lemma_group_moves_shape(ps, by, keys, keys.len() as int, i);
    let (a, b) = choose|a: int, b: int|
        0 <= a < b < keys.len() && group_moves_spec(ps, by, keys)[i] == zip_pairs(
            group_of(ps, by, keys[a]),
            group_of(ps, by, keys[b]),
        );
    lemma_zip_disjoint(ps, by, keys[a], keys[b]);
}

/// Each move built from distinct positions exchanges disjoint pairs of those
/// positions only.
pub proof fn lemma_moves_well_formed(ps: Seq<Pos>, cols: Seq<usize>, rows: Seq<usize>, i: int)
    requires
        all_distinct(ps),
        sorted_keys(ps, GroupKey::Column, cols),
        sorted_keys(ps, GroupKey::Row, rows),
        0 <= i < all_moves_spec(ps, cols, rows).len(),
    ensures
        pairs_disjoint(all_moves_spec(ps, cols, rows)[i]),
        pairs_within(all_moves_spec(ps, cols, rows)[i], ps),
{
    let singles = single_moves_spec(ps);
    let columns = group_moves_spec(ps, GroupKey::Column, cols);
    let rws = group_moves_spec(ps, GroupKey::Row, rows);
    assert(all_moves_spec(ps, cols, rows) == singles + columns + rws);
    if i < singles.len() {
        lemma_single_move_well_formed(ps, i);
        assert(all_moves_spec(ps, cols, rows)[i] == singles[i]);
    } else if i < singles.len() + columns.len() {
        lemma_group_move_well_formed(ps, GroupKey::Column, cols, i - singles.len());
        assert(all_moves_spec(ps, cols, rows)[i] == columns[i - singles.len()]);
    } else {
        lemma_group_move_well_formed(ps, GroupKey::Row, rows, i - singles.len() - columns.len());
        assert(all_moves_spec(ps, cols, rows)[i] == rws[i - singles.len() - columns.len()]);
    }
}

/// Applying any move built from distinct positions twice restores the grid.
pub proof fn lemma_move_applied_twice_restores(
    g: Seq<Seq<Option<Key>>>,
    ps: Seq<Pos>,
    cols: Seq<usize>,
    rows: Seq<usize>,
    i: int,
)
    requires
        all_distinct(ps),
        sorted_keys(ps, GroupKey::Column, cols),
        sorted_keys(ps, GroupKey::Row, rows),
        0 <= i < all_moves_spec(ps, cols, rows).len(),
    ensures
        apply_pairs(apply_pairs(g, all_moves_spec(ps, cols, rows)[i]), all_moves_spec(ps, cols, rows)[i]) == g,
{
    lemma_moves_well_formed(ps, cols, rows, i);
    lemma_apply_pairs_twice(g, all_moves_spec(ps, cols, rows)[i]);
}

/// A family of moves.
#[derive(Debug, Clone, Copy, PartialEq, Eq, Structural)]
pub enum SwapMoveStrategy {
    /// Exchange two positions.
    Single,
    /// Exchange two columns.
    Column,
    /// Exchange two rows.
    Row,
}

/// Builds the moves of the chosen families.
#[derive(Debug)]
pub struct SwapMoveBuilder {
    strategies: Vec<SwapMoveStrategy>,
}

/// The moves of one family, given the sorted column and row keys.
pub open spec fn strategy_moves(
    strategy: SwapMoveStrategy,
    ps: Seq<Pos>,
    cols: Seq<usize>,
    rows: Seq<usize>,
) -> Seq<Seq<(Pos, Pos)>> {
    match strategy {
        SwapMoveStrategy::Single => single_moves_spec(ps),
        SwapMoveStrategy::Column => group_moves_spec(ps, GroupKey::Column, cols),
        SwapMoveStrategy::Row => group_moves_spec(ps, GroupKey::Row, rows),
    }
}

/// The moves of each family in turn.
pub open spec fn strategies_moves(
    strategies: Seq<SwapMoveStrategy>,
    ps: Seq<Pos>,
    cols: Seq<usize>,
    rows: Seq<usize>,
) -> Seq<Seq<(Pos, Pos)>>
    decreases strategies.len(),
{
    if strategies.len() == 0 {
        Seq::empty()
    } else {
        strategies_moves(strategies.drop_last(), ps, cols, rows) + strategy_moves(
            strategies.last(),
            ps,
            cols,
            rows,
        )
    }
}

proof fn lemma_strategies_moves_well_formed(
    strategies: Seq<SwapMoveStrategy>,
    ps: Seq<Pos>,
    cols: Seq<usize>,
    rows: Seq<usize>,
)
    requires
        sorted_keys(ps, GroupKey::Column, cols),
        sorted_keys(ps, GroupKey::Row, rows),
    ensures
        forall|i: int|
            0 <= i < strategies_moves(strategies, ps, cols, rows).len() ==> pairs_within(
                #[trigger] strategies_moves(strategies, ps, cols, rows)[i],
                ps,
            ),
        all_distinct(ps) ==> forall|i: int|
            0 <= i < strategies_moves(strategies, ps, cols, rows).len() ==> pairs_disjoint(
                #[trigger] strategies_moves(strategies, ps, cols, rows)[i],
            ),
    decreases strategies.len(),
{
    if strategies.len() > 0 {
        let init = strategies_moves(strategies.drop_last(), ps, cols, rows);
        let last = strategy_moves(strategies.last(), ps, cols, rows);
        lemma_strategies_moves_well_formed(strategies.drop_last(), ps, cols, rows);
        let all = strategies_moves(strategies, ps, cols, rows);
        assert(all == init + last);
        assert forall|i: int| 0 <= i < all.len() implies pairs_within(#[trigger] all[i], ps) && (all_distinct(
            ps,
        ) ==> pairs_disjoint(all[i])) by {
            if i >= init.len() {
                let k = i - init.len();
                assert(all[i] == last[k]);
                match strategies.last() {
                    SwapMoveStrategy::Single => {
                        lemma_single_move_well_formed(ps, k);
                    },
                    SwapMoveStrategy::Column => {
                        if all_distinct(ps) {
                            lemma_group_move_well_formed(ps, GroupKey::Column, cols, k);
                        } else {
                            lemma_group_move_within(ps, GroupKey::Column, cols, k);
                        }
                    },
                    SwapMoveStrategy::Row => {
                        if all_distinct(ps) {
                            lemma_group_move_well_formed(ps, GroupKey::Row, rows, k);
                        } else {
                            lemma_group_move_within(ps, GroupKey::Row, rows, k);
                        }
                    },
                }
            } else {
                assert(all[i] == init[i]);
            }
        }
    }
}

proof fn lemma_group_move_within(ps: Seq<Pos>, by: GroupKey, keys: Seq<usize>, i: int)
    requires
        sorted_keys(ps, by, keys),
        0 <= i < group_moves_spec(ps, by, keys).len(),
    ensures
        pairs_within(group_moves_spec(ps, by, keys)[i], ps),
{
    lemma_group_moves_shape(ps, by, keys, keys.len() as int, i);
    let (a, b) = choose|a: int, b: int|
        0 <= a < b < keys.len() && group_moves_spec(ps, by, keys)[i] == zip_pairs(
            group_of(ps, by, keys[a]),
            group_of(ps, by, keys[b]),
        );
    lemma_group_members(ps, by, keys[a]);
    lemma_group_members(ps, by, keys[b]);
    let z = group_moves_spec(ps, by, keys)[i];
    assert forall|j: int| 0 <= j < z.len() implies ps.contains(#[trigger] z[j].0) && ps.contains(z[j].1) by {
        assert(z[j].0 == group_of(ps, by, keys[a])[j]);
        assert(z[j].1 == group_of(ps, by, keys[b])[j]);
    }
}

impl SwapMoveBuilder {
    /// The chosen families, in order.
    pub closed spec fn strategies(&self) -> Seq<SwapMoveStrategy> {
        self.strategies@
    }

    pub fn new(strategies: &[SwapMoveStrategy]) -> (builder: Self)
        ensures
            builder.strategies() == strategies@,
    {
        let mut list: Vec<SwapMoveStrategy> = Vec::new();
        let mut i: usize = 0;
        while i < strategies.len()
            invariant
                0 <= i <= strategies@.len(),
                list@ == strategies@.take(i as int),
            decreases strategies@.len() - i,
        {
            list.push(strategies[i]);
            i = i + 1;
            assert(list@ =~= strategies@.take(i as int));
        }
        assert(strategies@.take(strategies@.len() as int) == strategies@);
        SwapMoveBuilder { strategies: list }
    }

    /// Single moves, then column moves, then row moves.
    pub fn full() -> (builder: Self)
        ensures
            builder.strategies() == seq![
                SwapMoveStrategy::Single,
                SwapMoveStrategy::Column,
                SwapMoveStrategy::Row,
            ],
    {
        let mut list: Vec<SwapMoveStrategy> = Vec::new();
        list.push(SwapMoveStrategy::Single);
        list.push(SwapMoveStrategy::Column);
        list.push(SwapMoveStrategy::Row);
        assert(list@ =~= seq![SwapMoveStrategy::Single, SwapMoveStrategy::Column, SwapMoveStrategy::Row]);
        SwapMoveBuilder { strategies: list }
    }

    /// The moves of each chosen family in turn, over `positions`. Each move
    /// only involves those positions; when they are distinct, no position
    /// occurs in two pairs of the same move.
    pub fn build(&self, positions: &[Pos]) -> (moves: Vec<SwapMove>)
        ensures
            exists|cols: Seq<usize>, rows: Seq<usize>|
                sorted_keys(positions@, GroupKey::Column, cols) && sorted_keys(positions@, GroupKey::Row, rows)
                    && moves_view(moves@) == strategies_moves(self.strategies(), positions@, cols, rows),
            forall|i: int| 0 <= i < moves@.len() ==> pairs_within(#[trigger] moves@[i].0@, positions@),
            all_distinct(positions@) ==> forall|i: int|
                0 <= i < moves@.len() ==> pairs_disjoint(#[trigger] moves@[i].0@),
    {
        let cols = SwapMove::collect_keys(positions, GroupKey::Column);
        let rows = SwapMove::collect_keys(positions, GroupKey::Row);
        let ghost ps = positions@;
        let mut moves: Vec<SwapMove> = Vec::new();
        let mut i: usize = 0;
        while i < self.strategies.len()
            invariant
                ps == positions@,
                sorted_keys(ps, GroupKey::Column, cols@),
                sorted_keys(ps, GroupKey::Row, rows@),
                0 <= i <= self.strategies@.len(),
                moves_view(moves@) == strategies_moves(self.strategies@.take(i as int), ps, cols@, rows@),
            decreases self.strategies@.len() - i,
        {
            let mut more = match self.strategies[i] {
                SwapMoveStrategy::Single => SwapMove::single_moves(positions),
                SwapMoveStrategy::Column => SwapMove::group_moves_by(positions, GroupKey::Column, &cols),
                SwapMoveStrategy::Row => SwapMove::group_moves_by(positions, GroupKey::Row, &rows),
            };
            let ghost before = moves@;
            let ghost added = more@;
            moves.append(&mut more);
            assert(self.strategies@.take(i + 1).drop_last() == self.strategies@.take(i as int));
            assert(moves_view(moves@) =~= moves_view(before) + moves_view(added));
            i = i + 1;
        }
        assert(self.strategies@.take(self.strategies@.len() as int) == self.strategies@);
        proof {
            lemma_strategies_moves_well_formed(self.strategies@, ps, cols@, rows@);
            let all = strategies_moves(self.strategies@, ps, cols@, rows@);
            assert forall|i: int| 0 <= i < moves@.len() implies #[trigger] moves@[i].0@ == all[i] by {
                assert(moves_view(moves@)[i] == moves@[i].0@);
            }
            assert(sorted_keys(positions@, GroupKey::Column, cols@) && sorted_keys(positions@, GroupKey::Row, rows@)
                && moves_view(moves@) == strategies_moves(self.strategies(), positions@, cols@, rows@));
        }
        moves
    }
}

impl Default for SwapMoveBuilder {
    /// No family at all: builds no move.
    fn default() -> (builder: Self)
        ensures
            builder.strategies() == Seq::<SwapMoveStrategy>::empty(),
    {
        SwapMoveBuilder { strategies: Vec::new() }
    }
}

impl SwapMove {
    /// The single moves, then the column moves, then the row moves.
    #[verifier::rlimit(40)]
    pub fn all_moves(positions: &[Pos]) -> (moves: Vec<Self>)
        ensures
            exists|cols: Seq<usize>, rows: Seq<usize>|
                sorted_keys(positions@, GroupKey::Column, cols) && sorted_keys(positions@, GroupKey::Row, rows)
                    && moves_view(moves@) == single_moves_spec(positions@) + group_moves_spec(
                    positions@,
                    GroupKey::Column,
                    cols,
                ) + group_moves_spec(positions@, GroupKey::Row, rows),
    {
        let mut moves = Self::single_moves(positions);
        let mut columns = Self::column_moves(positions);
        let mut rows = Self::row_moves(positions);
        let ghost singles_v = moves@;
        let ghost columns_v = columns@;
        let ghost rows_v = rows@;
        moves.append(&mut columns);
        moves.append(&mut rows);
        proof {
            let cols = choose|cols: Seq<usize>| sorted_keys(positions@, GroupKey::Column, cols)
                && moves_view(columns_v) == group_moves_spec(positions@, GroupKey::Column, cols);
            let rws = choose|rws: Seq<usize>| sorted_keys(positions@, GroupKey::Row, rws)
                && moves_view(rows_v) == group_moves_spec(positions@, GroupKey::Row, rws);
            assert(moves@ == singles_v + columns_v + rows_v);
            assert(moves_view(moves@) =~= moves_view(singles_v) + moves_view(columns_v) + moves_view(rows_v));
            assert(moves_view(moves@) == single_moves_spec(positions@) + group_moves_spec(
                positions@,
                GroupKey::Column,
                cols,
            ) + group_moves_spec(positions@, GroupKey::Row, rws));
        }
        moves
    }

    /// One move for each pair of positions, exchanging the two.
    pub fn single_moves(positions: &[Pos]) -> (moves: Vec<Self>)
        ensures
            moves_view(moves@) == single_moves_spec(positions@),
    {
        let n = positions.len();
        let ghost ps = positions@;
        let mut moves: Vec<Self> = Vec::new();
        let mut i: usize = 0;
        while i < n
            invariant
                n == ps.len(),
                ps == positions@,
                0 <= i <= n,
                moves_view(moves@) == single_moves_upto(ps, i as int),
            decreases n - i,
        {
            let ghost before = moves_view(moves@);
            let mut j: usize = i + 1;
            while j < n
                invariant
                    n == ps.len(),
                    ps == positions@,
                    0 <= i < n,
                    i + 1 <= j <= n,
                    moves_view(moves@) == before + single_moves_of(ps, i as int).take(j - i - 1),
                decreases n - j,
            {
                let mut pair: Vec<(Pos, Pos)> = Vec::new();
                pair.push((positions[i], positions[j]));
                assert(pair@ =~= seq![(ps[i as int], ps[j as int])]);
                let ghost mv = moves@;
                moves.push(SwapMove(pair));
                assert(moves_view(moves@) =~= moves_view(mv).push(seq![(ps[i as int], ps[j as int])]));
                j = j + 1;
                assert(moves_view(moves@) =~= before + single_moves_of(ps, i as int).take(j - i - 1));
            }
            assert(single_moves_of(ps, i as int).take(n - i - 1) == single_moves_of(ps, i as int));
            i = i + 1;
        }
        moves
    }

    /// One move for each pair of columns, exchanging the keys of the two
    /// columns row by row.
    pub fn column_moves(positions: &[Pos]) -> (moves: Vec<Self>)
        ensures
            exists|keys: Seq<usize>|
                sorted_keys(positions@, GroupKey::Column, keys) && moves_view(moves@) == group_moves_spec(
                    positions@,
                    GroupKey::Column,
                    keys,
                ),
    {
        Self::group_moves(positions, GroupKey::Column)
    }

    /// One move for each pair of rows, exchanging the keys of the two rows
    /// column by column.
    pub fn row_moves(positions: &[Pos]) -> (moves: Vec<Self>)
        ensures
            exists|keys: Seq<usize>|
                sorted_keys(positions@, GroupKey::Row, keys) && moves_view(moves@) == group_moves_spec(
                    positions@,
                    GroupKey::Row,
                    keys,
                ),
    {
        Self::group_moves(positions, GroupKey::Row)
    }

    fn key(p: Pos, by: GroupKey) -> (k: usize)
        ensures
            k == key_of(p, by),
    {
        match by {
            GroupKey::Row => p.r,
            GroupKey::Column => p.c,
        }
    }

    /// The keys of the positions, each once, in increasing order. (The
    /// groups are kept as this sorted list of keys and the positions of each
    /// key, in order, rather than as a `BTreeMap` from key to positions:
    /// vstd specifies no `insert`, `entry` or lookup of `BTreeMap`, only its
    /// length and iteration.)
    fn collect_keys(positions: &[Pos], by: GroupKey) -> (keys: Vec<usize>)
        ensures
            sorted_keys(positions@, by, keys@),
    {
        let n = positions.len();
        let mut keys: Vec<usize> = Vec::new();
        let mut i: usize = 0;
        while i < n
            invariant
                n == positions@.len(),
                0 <= i <= n,
                sorted_keys(positions@.take(i as int), by, keys@),
            decreases n - i,
        {
            let k = Self::key(positions[i], by);
            let ghost old_keys = keys@;
            let mut j: usize = 0;
            while j < keys.len() && keys[j] < k
                invariant
                    0 <= j <= keys@.len(),
                    keys@ == old_keys,
                    forall|m: int| 0 <= m < j ==> keys@[m] < k,
                decreases keys@.len() - j,
            {
                j = j + 1;
            }
            if j == keys.len() || keys[j] != k {
                keys.insert(j, k);
            }
            proof {
                let ps = positions@.take(i + 1);
                assert(positions@.take(i as int) == ps.drop_last());
                assert forall|a: int, b: int| 0 <= a < b < keys@.len() implies keys@[a] < keys@[b] by {
                    if keys@ != old_keys {
                        if a < j && b > j {
                            assert(keys@[b] == old_keys[b - 1]);
                            assert(old_keys[j as int] > k || j == old_keys.len());
                        }
                    }
                }
                assert forall|a: int| 0 <= a < keys@.len() implies key_present(ps, by, #[trigger] keys@[a]) by {
                    if keys@ != old_keys && a == j {
                        assert(key_of(ps[i as int], by) == keys@[a]);
                    } else if keys@ != old_keys && a > j {
                        let p = choose|p: int| 0 <= p < i && key_of(#[trigger] positions@.take(i as int)[p], by) == old_keys[a - 1];
                        assert(key_of(ps[p], by) == keys@[a]);
                    } else {
                        let p = choose|p: int| 0 <= p < i && key_of(#[trigger] positions@.take(i as int)[p], by) == old_keys[a];
                        assert(key_of(ps[p], by) == keys@[a]);
                    }
                }
                assert forall|p: int| 0 <= p < ps.len() implies keys@.contains(key_of(#[trigger] ps[p], by)) by {
                    if p < i {
                        assert(positions@.take(i as int)[p] == ps[p]);
                        assert(old_keys.contains(key_of(ps[p], by)));
                        let m = choose|m: int| 0 <= m < old_keys.len() && old_keys[m] == key_of(ps[p], by);
                        if keys@ != old_keys && m >= j {
                            assert(keys@[m + 1] == old_keys[m]);
                        } else {
                            assert(keys@[m] == old_keys[m]);
                        }
                    } else {
                        assert(keys@[j as int] == k);
                    }
                }
            }
            i = i + 1;
        }
        assert(positions@.take(n as int) == positions@);
        keys
    }

    /// The positions whose key is `k`, in their order.
    fn collect_group(positions: &[Pos], by: GroupKey, k: usize) -> (group: Vec<Pos>)
        ensures
            group@ == group_of(positions@, by, k),
    {
        let n = positions.len();
        let mut group: Vec<Pos> = Vec::new();
        let mut i: usize = 0;
        while i < n
            invariant
                n == positions@.len(),
                0 <= i <= n,
                group@ == group_of(positions@.take(i as int), by, k),
            decreases n - i,
        {
            assert(positions@.take(i + 1).drop_last() == positions@.take(i as int));
            if Self::key(positions[i], by) == k {
                group.push(positions[i]);
            }
            i = i + 1;
        }
        assert(positions@.take(n as int) == positions@);
        group
    }

    fn zip(a: &Vec<Pos>, b: &Vec<Pos>) -> (pairs: Vec<(Pos, Pos)>)
        ensures
            pairs@ == zip_pairs(a@, b@),
    {
        let n = if a.len() <= b.len() {
            a.len()
        } else {
            b.len()
        };
        let mut pairs: Vec<(Pos, Pos)> = Vec::new();
        let mut i: usize = 0;
        while i < n
            invariant
                n == (if a@.len() <= b@.len() { a@.len() } else { b@.len() }),
                0 <= i <= n,
                pairs@ == zip_pairs(a@, b@).take(i as int),
            decreases n - i,
        {
            pairs.push((a[i], b[i]));
            i = i + 1;
            assert(pairs@ =~= zip_pairs(a@, b@).take(i as int));
        }
        assert(zip_pairs(a@, b@).take(n as int) == zip_pairs(a@, b@));
        pairs
    }

    proof fn lemma_group_nonempty(ps: Seq<Pos>, by: GroupKey, p: int)
        requires
            0 <= p < ps.len(),
        ensures
            group_of(ps, by, key_of(ps[p], by)).len() > 0,
        decreases ps.len(),
    {
        if p < ps.len() - 1 {
            Self::lemma_group_nonempty(ps.drop_last(), by, p);
        }
    }

    fn group_moves(positions: &[Pos], by: GroupKey) -> (moves: Vec<Self>)
        ensures
            exists|keys: Seq<usize>|
                sorted_keys(positions@, by, keys) && moves_view(moves@) == group_moves_spec(
                    positions@,
                    by,
                    keys,
                ),
    {
        let keys = Self::collect_keys(positions, by);
        Self::group_moves_by(positions, by, &keys)
    }

    /// The group moves for the given sorted keys of the positions.
    fn group_moves_by(positions: &[Pos], by: GroupKey, keys: &Vec<usize>) -> (moves: Vec<Self>)
        requires
            sorted_keys(positions@, by, keys@),
        ensures
            moves_view(moves@) == group_moves_spec(positions@, by, keys@),
    {
        let ghost ks = keys@;
        let ghost ps = positions@;
        let n = keys.len();
        let mut groups: Vec<Vec<Pos>> = Vec::new();
        let mut g: usize = 0;
        while g < n
            invariant
                n == ks.len(),
                ks == keys@,
                ps == positions@,
                0 <= g <= n,
                groups@.len() == g,
                forall|m: int| 0 <= m < g ==> #[trigger] groups@[m]@ == group_of(ps, by, ks[m]),
            decreases n - g,
        {
            groups.push(Self::collect_group(positions, by, keys[g]));
            g = g + 1;
        }

        let mut moves: Vec<Self> = Vec::new();
        let mut i: usize = 0;
        while i < n
            invariant
                n == ks.len(),
                ks == keys@,
                ps == positions@,
                sorted_keys(ps, by, ks),
                groups@.len() == n,
                forall|m: int| 0 <= m < n ==> #[trigger] groups@[m]@ == group_of(ps, by, ks[m]),
                0 <= i <= n,
                moves_view(moves@) == group_moves_upto(ps, by, ks, i as int),
            decreases n - i,
        {
            let ghost before = moves_view(moves@);
            let mut j: usize = i + 1;
            while j < n
                invariant
                    n == ks.len(),
                    ks == keys@,
                    ps == positions@,
                    sorted_keys(ps, by, ks),
                    groups@.len() == n,
                    forall|m: int| 0 <= m < n ==> #[trigger] groups@[m]@ == group_of(ps, by, ks[m]),
                    0 <= i < n,
                    i + 1 <= j <= n,
                    moves_view(moves@) == before + group_moves_of(ps, by, ks, i as int).take(j - i - 1),
                decreases n - j,
            {
                let pairs = Self::zip(&groups[i], &groups[j]);
                proof {
                    let pi = choose|p: int| 0 <= p < ps.len() && key_of(#[trigger] ps[p], by) == ks[i as int];
                    let pj = choose|p: int| 0 <= p < ps.len() && key_of(#[trigger] ps[p], by) == ks[j as int];
                    Self::lemma_group_nonempty(ps, by, pi);
                    Self::lemma_group_nonempty(ps, by, pj);
                }
                let ghost pairs_v = pairs@;
                let ghost mv = moves@;
                if pairs.len() > 0 {
                    moves.push(SwapMove(pairs));
                }
                assert(moves_view(moves@) =~= moves_view(mv).push(pairs_v));
                j = j + 1;
                assert(moves_view(moves@) =~= before + group_moves_of(ps, by, ks, i as int).take(j - i - 1));
            }
            assert(group_moves_of(ps, by, ks, i as int).take(n - i - 1) == group_moves_of(ps, by, ks, i as int));
            i = i + 1;
        }
        moves
    }

    /// Exchanges the characters of each pair of positions in turn.
    pub fn apply(&self, layout: &mut Layout)
        requires
            old(layout).wf(),
        ensures
            final(layout).wf(),
            final(layout).width() == old(layout).width(),
            final(layout).grid() == apply_pairs(old(layout).grid(), self.0@),
    {
        let n = self.0.len();
        let mut i: usize = 0;
        while i < n
            invariant
                n == self.0@.len(),
                0 <= i <= n,
                layout.wf(),
                layout.width() == old(layout).width(),
                layout.grid() == apply_pairs(old(layout).grid(), self.0@.take(i as int)),
            decreases n - i,
        {
            let (p1, p2) = self.0[i];
            layout.swap_chars(&p1, &p2);
            assert(self.0@.take(i + 1).drop_last() == self.0@.take(i as int));
            i = i + 1;
        }
        assert(self.0@.take(n as int) == self.0@);
    }
}

} // verus!
