use vstd::prelude::*;

use vstd::string::StrSliceExecFns;

use std::collections::hash_map::DefaultHasher;
use std::hash::{Hash, Hasher};
use vstd::std_specs::hash::DefaultHasherAdditionalSpecFns;

use crate::matrix::{rows_have_length, Matrix, MatrixError, Pos};
use crate::text::push_char;

verus! {

/// The character that marks a grid cell without a key.
pub const NONE_CHAR: char = '_';

#[derive(Debug, Clone, Copy, PartialEq, Eq, PartialOrd, Ord, Hash, Structural)]
pub enum Hand {
    Left,
    Right,
}

/// The fingers of one hand, from the outside in.
#[derive(Debug, Clone, Copy, PartialEq, Eq, PartialOrd, Ord, Hash, Structural)]
pub enum FingerKind {
    Pinky,
    Ring,
    Middle,
    Index,
    Thumb,
}

#[derive(Debug, Copy, Clone, PartialEq, Eq, PartialOrd, Ord, Hash, Structural)]
pub struct Finger {
    pub hand: Hand,
    pub kind: FingerKind,
}

/// The place of a hand in the declared order (left before right).
pub open spec fn hand_rank(hand: Hand) -> int {
    match hand {
        Hand::Left => 0,
        Hand::Right => 1,
    }
}

/// The place of a finger kind in the declared order (pinky first, thumb last).
pub open spec fn kind_rank(kind: FingerKind) -> int {
    match kind {
        FingerKind::Pinky => 0,
        FingerKind::Ring => 1,
        FingerKind::Middle => 2,
        FingerKind::Index => 3,
        FingerKind::Thumb => 4,
    }
}

/// The place of a finger in the order of its fields: hand first, then kind.
pub open spec fn finger_rank(finger: Finger) -> int {
    hand_rank(finger.hand) * 5 + kind_rank(finger.kind)
}

/// The finger with the given number: 1 to 5 are the left pinky to the left
/// thumb, 6 to 10 the right thumb to the right pinky.
pub open spec fn finger_of_number(value: u8) -> Option<Finger> {
    if value == 1 {
        Some(Finger { hand: Hand::Left, kind: FingerKind::Pinky })
    } else if value == 2 {
        Some(Finger { hand: Hand::Left, kind: FingerKind::Ring })
    } else if value == 3 {
        Some(Finger { hand: Hand::Left, kind: FingerKind::Middle })
    } else if value == 4 {
        Some(Finger { hand: Hand::Left, kind: FingerKind::Index })
    } else if value == 5 {
        Some(Finger { hand: Hand::Left, kind: FingerKind::Thumb })
    } else if value == 6 {
        Some(Finger { hand: Hand::Right, kind: FingerKind::Thumb })
    } else if value == 7 {
        Some(Finger { hand: Hand::Right, kind: FingerKind::Index })
    } else if value == 8 {
        Some(Finger { hand: Hand::Right, kind: FingerKind::Middle })
    } else if value == 9 {
        Some(Finger { hand: Hand::Right, kind: FingerKind::Ring })
    } else if value == 10 {
        Some(Finger { hand: Hand::Right, kind: FingerKind::Pinky })
    } else {
        None
    }
}

/// Finger numbers 1 to 5 are the left hand's fingers from the pinky in,
/// and the numbers mirror between the hands: 11 - v is the right hand's
/// finger of the same kind as v. No other number names a finger.
pub proof fn lemma_finger_numbers()
    ensures
        forall|v: u8|
            1 <= v <= 5 ==> (#[trigger] finger_of_number(v) matches Some(f) && f.hand == Hand::Left
                && kind_rank(f.kind) == v - 1),
        forall|v: u8|
            1 <= v <= 5 ==> finger_of_number((11 - v) as u8) == Some(
                Finger { hand: Hand::Right, kind: (#[trigger] finger_of_number(v))->0.kind },
            ),
        forall|v: u8| (v == 0 || v > 10) ==> #[trigger] finger_of_number(v) is None,
{
    assert forall|v: u8| 1 <= v <= 5 implies finger_of_number((11 - v) as u8) == Some(
        Finger { hand: Hand::Right, kind: (#[trigger] finger_of_number(v))->0.kind },
    ) by {
        if v == 1 {
            assert((11 - v) as u8 == 10);
        } else if v == 2 {
            assert((11 - v) as u8 == 9);
        } else if v == 3 {
            assert((11 - v) as u8 == 8);
        } else if v == 4 {
            assert((11 - v) as u8 == 7);
        } else {
            assert((11 - v) as u8 == 6);
        }
    }
}

/// The place of `kind` in the order pinky, ring, middle, index, thumb.
pub fn kind_index(kind: FingerKind) -> (i: u8)
    ensures
        i == kind_rank(kind),
{
    match kind {
        FingerKind::Pinky => 0,
        FingerKind::Ring => 1,
        FingerKind::Middle => 2,
        FingerKind::Index => 3,
        FingerKind::Thumb => 4,
    }
}

/// How many fingers apart two different fingers of the same hand are;
/// `None` for fingers of different hands and for the same finger kind.
pub open spec fn finger_distance(a: Finger, b: Finger) -> Option<usize> {
    if a.hand != b.hand || a.kind == b.kind {
        None
    } else if kind_rank(a.kind) >= kind_rank(b.kind) {
        Some((kind_rank(a.kind) - kind_rank(b.kind)) as usize)
    } else {
        Some((kind_rank(b.kind) - kind_rank(a.kind)) as usize)
    }
}

/// The distance between two fingers does not depend on their order.
pub proof fn lemma_finger_distance_symmetric(a: Finger, b: Finger)
    ensures
        finger_distance(a, b) == finger_distance(b, a),
{
}

impl Finger {
    pub fn new(hand: Hand, kind: FingerKind) -> (finger: Self)
        ensures
            finger.hand == hand,
            finger.kind == kind,
    {
        Finger { hand, kind }
    }

    /// The place of this finger in the order of its fields (hand, then kind).
    pub fn rank(&self) -> (i: u8)
        ensures
            i == finger_rank(*self),
    {
        let hand: u8 = match self.hand {
            Hand::Left => 0,
            Hand::Right => 1,
        };
        hand * 5 + kind_index(self.kind)
    }

    /// How many fingers apart two different fingers of the same hand are;
    /// `None` for fingers of different hands and for the same finger kind.
    pub fn distance(&self, other: &Finger) -> (d: Option<usize>)
        ensures
            d == finger_distance(*self, *other),
    {
        if self.hand != other.hand || self.kind == other.kind {
            return None;
        }
        let a = kind_index(self.kind);
        let b = kind_index(other.kind);
        if a >= b {
            Some((a - b) as usize)
        } else {
            Some((b - a) as usize)
        }
    }
}

/// A finger number outside 1 to 10.
#[derive(Debug, Clone, Copy, PartialEq, Eq, Structural)]
pub struct InvalidFingerNumber(pub u8);

impl TryFrom<u8> for Finger {
    type Error = InvalidFingerNumber;

    fn try_from(value: u8) -> (res: Result<Finger, InvalidFingerNumber>) {
        let (hand, kind) = match value {
            1 => (Hand::Left, FingerKind::Pinky),
            2 => (Hand::Left, FingerKind::Ring),
            3 => (Hand::Left, FingerKind::Middle),
            4 => (Hand::Left, FingerKind::Index),
            5 => (Hand::Left, FingerKind::Thumb),
            6 => (Hand::Right, FingerKind::Thumb),
            7 => (Hand::Right, FingerKind::Index),
            8 => (Hand::Right, FingerKind::Middle),
            9 => (Hand::Right, FingerKind::Ring),
            10 => (Hand::Right, FingerKind::Pinky),
            _ => return Err(InvalidFingerNumber(value)),
        };
        Ok(Finger { hand, kind })
    }
}

impl vstd::std_specs::convert::TryFromSpecImpl<u8> for Finger {
    open spec fn obeys_try_from_spec() -> bool {
        true
    }

    open spec fn try_from_spec(v: u8) -> Result<Finger, InvalidFingerNumber> {
        match finger_of_number(v) {
            Some(f) => Ok(f),
            None => Err(InvalidFingerNumber(v)),
        }
    }
}

/// No finger has two home positions.
pub open spec fn homes_distinct(homes: Seq<(Finger, Pos)>) -> bool {
    forall|i: int, j: int| 0 <= i < j < homes.len() ==> (#[trigger] homes[i]).0 != (#[trigger] homes[j]).0
}

/// A key of the layout: the character it types, the finger that presses it,
/// where it lies on the grid and whether it is that finger's home key.
#[derive(Debug, Clone, Copy, PartialEq, Eq, Structural)]
pub struct Key {
    pub ch: char,
    pub finger: Finger,
    pub position: Pos,
    pub finger_home: bool,
}

impl Key {
    pub fn new(ch: char, finger: Finger, position: Pos, finger_home: bool) -> (key: Self)
        ensures
            key == (Key { ch, finger, position, finger_home }),
    {
        Key { ch, finger, position, finger_home }
    }

    pub fn same_finger(&self, other: &Key) -> (b: bool)
        ensures
            b == (self.finger == other.finger),
    {
        self.finger == other.finger
    }
}

/// Whether `c` has the Unicode `White_Space` property.
pub open spec fn is_whitespace(c: char) -> bool {
    let v = c as u32;
    ||| 0x09 <= v <= 0x0D
    ||| v == 0x20
    ||| v == 0x85
    ||| v == 0xA0
    ||| v == 0x1680
    ||| 0x2000 <= v <= 0x200A
    ||| v == 0x2028
    ||| v == 0x2029
    ||| v == 0x202F
    ||| v == 0x205F
    ||| v == 0x3000
}

/// Whether `c` has the Unicode `White_Space` property.
pub fn char_is_whitespace(c: char) -> (b: bool)
    ensures
        b == is_whitespace(c),
{
    let v = c as u32;
    (0x09 <= v && v <= 0x0D) || v == 0x20 || v == 0x85 || v == 0xA0 || v == 0x1680 || (0x2000
        <= v && v <= 0x200A) || v == 0x2028 || v == 0x2029 || v == 0x202F || v == 0x205F || v
        == 0x3000
}

/// Reads `s` line by line, keeping only the characters that are not
/// whitespace; gives the rows finished so far (blank lines left out) and the
/// row being read.
pub open spec fn scan_rows(s: Seq<char>) -> (Seq<Seq<char>>, Seq<char>)
    decreases s.len(),
{
    if s.len() == 0 {
        (Seq::empty(), Seq::empty())
    } else {
        let (done, current) = scan_rows(s.drop_last());
        let ch = s.last();
        if ch == '\n' {
            (if current.len() > 0 { done.push(current) } else { done }, Seq::empty())
        } else if is_whitespace(ch) {
            (done, current)
        } else {
            (done, current.push(ch))
        }
    }
}

/// The rows of a layout definition: its lines with all whitespace removed,
/// blank lines left out.
pub open spec fn definition_rows(s: Seq<char>) -> Seq<Seq<char>> {
    let (done, current) = scan_rows(s);
    if current.len() > 0 {
        done.push(current)
    } else {
        done
    }
}

/// Splits a layout definition into rows of characters.
pub fn parse_definition(definition: &str) -> (rows: Vec<Vec<char>>)
    ensures
        rows@.map_values(|row: Vec<char>| row@) == definition_rows(definition@),
{
    let n = definition.unicode_len();
    let mut done: Vec<Vec<char>> = Vec::new();
    let mut current: Vec<char> = Vec::new();
    let mut i: usize = 0;
    while i < n
        invariant
            n == definition@.len(),
            0 <= i <= n,
            done@.map_values(|row: Vec<char>| row@) == scan_rows(definition@.take(i as int)).0,
            current@ == scan_rows(definition@.take(i as int)).1,
        decreases n - i,
    {
        let ch = definition.get_char(i);
        assert(definition@.take(i + 1).drop_last() == definition@.take(i as int));
        assert(definition@.take(i + 1).last() == ch);
        if ch == '\n' {
            if current.len() > 0 {
                done.push(current);
            }
            current = Vec::new();
        } else if !char_is_whitespace(ch) {
            current.push(ch);
        }
        i = i + 1;
        assert(done@.map_values(|row: Vec<char>| row@) =~= scan_rows(definition@.take(i as int)).0);
    }
    assert(definition@.take(n as int) == definition@);
    if current.len() > 0 {
        done.push(current);
    }
    assert(done@.map_values(|row: Vec<char>| row@) =~= definition_rows(definition@));
    done
}

/// The part of a layout's configuration that decides which keys exist: the
/// finger that presses each grid cell (`None` where no finger does), the home
/// position of each finger (one per finger, see `homes_distinct`), and the
/// shapes of the per-cell key centers and finger efforts, which must match
/// the layout definition.
pub struct Config {
    pub finger_assignment: Matrix<Option<Finger>>,
    pub finger_home_positions: Vec<(Finger, Pos)>,
    pub key_centers_shape: (usize, usize),
    pub finger_effort_shape: (usize, usize),
}

/// The per-cell matrices of a layout configuration.
#[derive(Debug, Clone, Copy, PartialEq, Eq, Structural)]
pub enum ConfigMatrix {
    KeyCenters,
    FingerAssignment,
    FingerEffort,
}

/// Why a layout cannot be built.
#[derive(Debug, Clone, Copy, PartialEq, Eq, Structural)]
pub enum LayoutError {
    /// The definition has no rows, or rows of different lengths.
    Definition(MatrixError),
    /// A configuration matrix does not have the shape of the definition.
    ShapeMismatch {
        matrix: ConfigMatrix,
        expected_rows: usize,
        expected_columns: usize,
        rows: usize,
        columns: usize,
    },
    /// A home position lies outside the grid.
    HomeOutOfBounds { finger: Finger, position: Pos },
    /// A home position lies on a cell of another finger, or of none.
    HomeFingerMismatch { finger: Finger, position: Pos },
    /// A finger presses some cell but has no home position.
    MissingHome { finger: Finger },
    /// A finger's home cell holds no key while another of its cells does.
    OccupiedKeyWithEmptyHome { finger: Finger, home: Pos, position: Pos, ch: char },
}

/// Every row of `g` has `columns` cells.
pub open spec fn is_rectangular<T>(g: Seq<Seq<T>>, columns: int) -> bool {
    forall|r: int| 0 <= r < g.len() ==> #[trigger] g[r].len() == columns
}

pub open spec fn in_shape(rows: int, columns: int, p: Pos) -> bool {
    p.r < rows && p.c < columns
}

/// The home entry lies on the grid, on a cell of its own finger.
pub open spec fn home_on_finger(
    fingers: Seq<Seq<Option<Finger>>>,
    rows: int,
    columns: int,
    home: (Finger, Pos),
) -> bool {
    in_shape(rows, columns, home.1) && fingers[home.1.r as int][home.1.c as int] == Some(home.0)
}

pub open spec fn homes_on_fingers(
    fingers: Seq<Seq<Option<Finger>>>,
    rows: int,
    columns: int,
    homes: Seq<(Finger, Pos)>,
) -> bool {
    forall|i: int| 0 <= i < homes.len() ==> home_on_finger(fingers, rows, columns, #[trigger] homes[i])
}

pub open spec fn has_home(homes: Seq<(Finger, Pos)>, finger: Finger) -> bool {
    exists|i: int| 0 <= i < homes.len() && (#[trigger] homes[i]).0 == finger
}

/// Every finger that presses some cell has a home position.
pub open spec fn fingers_have_homes(
    fingers: Seq<Seq<Option<Finger>>>,
    rows: int,
    columns: int,
    homes: Seq<(Finger, Pos)>,
) -> bool {
    forall|r: int, c: int|
        0 <= r < rows && 0 <= c < columns && (#[trigger] fingers[r][c]) is Some ==> has_home(
            homes,
            fingers[r][c]->0,
        )
}

/// A finger whose home cell holds no key holds no key anywhere else either.
pub open spec fn empty_homes_respected(
    chars: Seq<Seq<char>>,
    fingers: Seq<Seq<Option<Finger>>>,
    rows: int,
    columns: int,
    homes: Seq<(Finger, Pos)>,
) -> bool {
    forall|i: int, r: int, c: int|
        #![trigger homes[i], chars[r][c]]
        0 <= i < homes.len() && 0 <= r < rows && 0 <= c < columns && chars[homes[i].1.r as int][homes[i].1.c as int]
            == NONE_CHAR && fingers[r][c] == Some(homes[i].0) && (r != homes[i].1.r || c
            != homes[i].1.c) ==> chars[r][c] == NONE_CHAR
}

/// The home positions pass all three checks.
pub open spec fn homes_valid(
    chars: Seq<Seq<char>>,
    fingers: Seq<Seq<Option<Finger>>>,
    rows: int,
    columns: int,
    homes: Seq<(Finger, Pos)>,
) -> bool {
    &&& homes_on_fingers(fingers, rows, columns, homes)
    &&& fingers_have_homes(fingers, rows, columns, homes)
    &&& empty_homes_respected(chars, fingers, rows, columns, homes)
}

/// `e` is the error of the first home check that fails, and names a witness
/// of that failure.
pub open spec fn home_error_explained(
    chars: Seq<Seq<char>>,
    fingers: Seq<Seq<Option<Finger>>>,
    rows: int,
    columns: int,
    homes: Seq<(Finger, Pos)>,
    e: LayoutError,
) -> bool {
    match e {
        LayoutError::HomeOutOfBounds { finger, position } => exists|i: int|
            0 <= i < homes.len() && #[trigger] homes[i] == (finger, position) && !in_shape(
                rows,
                columns,
                position,
            ) && forall|j: int| 0 <= j < i ==> home_on_finger(fingers, rows, columns, #[trigger] homes[j]),
        LayoutError::HomeFingerMismatch { finger, position } => exists|i: int|
            0 <= i < homes.len() && #[trigger] homes[i] == (finger, position) && in_shape(
                rows,
                columns,
                position,
            ) && fingers[position.r as int][position.c as int] != Some(finger) && forall|j: int|
                0 <= j < i ==> home_on_finger(fingers, rows, columns, #[trigger] homes[j]),
        LayoutError::MissingHome { finger } => {
            &&& homes_on_fingers(fingers, rows, columns, homes)
            &&& !has_home(homes, finger)
            &&& exists|r: int, c: int|
                0 <= r < rows && 0 <= c < columns && #[trigger] fingers[r][c] == Some(finger)
        },
        LayoutError::OccupiedKeyWithEmptyHome { finger, home, position, ch } => {
            &&& homes_on_fingers(fingers, rows, columns, homes)
            &&& fingers_have_homes(fingers, rows, columns, homes)
            &&& is_home(homes, finger, home)
            &&& chars[home.r as int][home.c as int] == NONE_CHAR
            &&& in_shape(rows, columns, position)
            &&& fingers[position.r as int][position.c as int] == Some(finger)
            &&& position != home
            &&& chars[position.r as int][position.c as int] == ch
            &&& ch != NONE_CHAR
        },
        _ => false,
    }
}

/// `position` is a home position of `finger`.
pub open spec fn is_home(homes: Seq<(Finger, Pos)>, finger: Finger, position: Pos) -> bool {
    exists|i: int| 0 <= i < homes.len() && #[trigger] homes[i] == (finger, position)
}

/// The key of a cell: there is one where a finger is assigned and the
/// definition holds a character other than `NONE_CHAR`.
pub open spec fn cell_key(
    ch: char,
    finger: Option<Finger>,
    homes: Seq<(Finger, Pos)>,
    position: Pos,
) -> Option<Key> {
    match finger {
        None => None,
        Some(f) => if ch == NONE_CHAR {
            None
        } else {
            Some(Key { ch, finger: f, position, finger_home: is_home(homes, f, position) })
        },
    }
}

pub open spec fn key_grid(
    chars: Seq<Seq<char>>,
    fingers: Seq<Seq<Option<Finger>>>,
    rows: int,
    columns: int,
    homes: Seq<(Finger, Pos)>,
) -> Seq<Seq<Option<Key>>> {
    Seq::new(
        rows as nat,
        |r: int|
            Seq::new(
                columns as nat,
                |c: int| cell_key(chars[r][c], fingers[r][c], homes, Pos { r: r as usize, c: c as usize }),
            ),
    )
}

/// Every key lies at the position it records.
pub open spec fn positions_consistent(g: Seq<Seq<Option<Key>>>) -> bool {
    forall|r: int, c: int|
        0 <= r < g.len() && 0 <= c < g[r].len() && (#[trigger] g[r][c]) is Some ==> g[r][c]->0.position
            == Pos { r: r as usize, c: c as usize }
}

/// The definition has rows, all as long as the first.
pub open spec fn definition_ok(d: Seq<Seq<char>>) -> bool {
    d.len() > 0 && rows_have_length(d, d[0].len() as int)
}

/// The first configuration matrix, in the order key centers, finger
/// assignment, finger effort, whose shape differs from that of the
/// definition `d`.
pub open spec fn shape_error(d: Seq<Seq<char>>, config: &Config) -> Option<LayoutError> {
    let rows = d.len();
    let columns = d[0].len();
    if rows != config.key_centers_shape.0 || columns != config.key_centers_shape.1 {
        Some(
            LayoutError::ShapeMismatch {
                matrix: ConfigMatrix::KeyCenters,
                expected_rows: config.key_centers_shape.0,
                expected_columns: config.key_centers_shape.1,
                rows: rows as usize,
                columns: columns as usize,
            },
        )
    } else if rows != config.finger_assignment.row_count() || columns
        != config.finger_assignment.column_count() {
        Some(
            LayoutError::ShapeMismatch {
                matrix: ConfigMatrix::FingerAssignment,
                expected_rows: config.finger_assignment.row_count() as usize,
                expected_columns: config.finger_assignment.column_count() as usize,
                rows: rows as usize,
                columns: columns as usize,
            },
        )
    } else if rows != config.finger_effort_shape.0 || columns != config.finger_effort_shape.1 {
        Some(
            LayoutError::ShapeMismatch {
                matrix: ConfigMatrix::FingerEffort,
                expected_rows: config.finger_effort_shape.0,
                expected_columns: config.finger_effort_shape.1,
                rows: rows as usize,
                columns: columns as usize,
            },
        )
    } else {
        None
    }
}

/// The key at `p`, if `p` lies on the grid and holds one.
pub open spec fn grid_key(g: Seq<Seq<Option<Key>>>, p: Pos) -> Option<Key> {
    if p.r < g.len() && p.c < g[p.r as int].len() {
        g[p.r as int][p.c as int]
    } else {
        None
    }
}

/// The character of the key at `p`, if there is one.
pub open spec fn grid_char(g: Seq<Seq<Option<Key>>>, p: Pos) -> Option<char> {
    match grid_key(g, p) {
        Some(k) => Some(k.ch),
        None => None,
    }
}

/// The grid with the key at `p`, if there is one, typing `ch` instead.
pub open spec fn grid_set_char(g: Seq<Seq<Option<Key>>>, p: Pos, ch: char) -> Seq<Seq<Option<Key>>> {
    match grid_key(g, p) {
        Some(k) => g.update(
            p.r as int,
            g[p.r as int].update(
                p.c as int,
                Some(Key { ch, finger: k.finger, position: k.position, finger_home: k.finger_home }),
            ),
        ),
        None => g,
    }
}

/// The grid with the characters of the keys at `p1` and `p2` exchanged, if
/// both positions hold a key; the grid unchanged otherwise.
pub open spec fn grid_swap(g: Seq<Seq<Option<Key>>>, p1: Pos, p2: Pos) -> Seq<Seq<Option<Key>>> {
    match (grid_char(g, p1), grid_char(g, p2)) {
        (Some(a), Some(b)) => grid_set_char(grid_set_char(g, p1, b), p2, a),
        _ => g,
    }
}

/// The keys of a row, left to right.
pub open spec fn row_keys(row: Seq<Option<Key>>) -> Seq<Key>
    decreases row.len(),
{
    if row.len() == 0 {
        Seq::empty()
    } else {
        row_keys(row.drop_last()) + match row.last() {
            Some(k) => seq![k],
            None => Seq::empty(),
        }
    }
}

/// The keys of a grid, row by row.
pub open spec fn grid_keys(g: Seq<Seq<Option<Key>>>) -> Seq<Key>
    decreases g.len(),
{
    if g.len() == 0 {
        Seq::empty()
    } else {
        grid_keys(g.drop_last()) + row_keys(g.last())
    }
}

/// Cell (`r`, `c`) holds a key typing `ch`.
pub open spec fn key_with_char_at(g: Seq<Seq<Option<Key>>>, r: int, c: int, ch: char) -> bool {
    &&& 0 <= r < g.len()
    &&& 0 <= c < g[r].len()
    &&& g[r][c] matches Some(k) && k.ch == ch
}

/// `p` comes before `q` in row-major order.
pub open spec fn pos_lt(p: Pos, q: Pos) -> bool {
    p.r < q.r || (p.r == q.r && p.c < q.c)
}

/// The keys lie at their positions in `g`, in row-major order.
pub open spec fn keys_in_order(ks: Seq<Key>, g: Seq<Seq<Option<Key>>>) -> bool {
    &&& forall|i: int| 0 <= i < ks.len() ==> grid_key(g, (#[trigger] ks[i]).position) == Some(ks[i])
    &&& forall|i: int, j: int| 0 <= i < j < ks.len() ==> pos_lt((#[trigger] ks[i]).position, (#[trigger] ks[j]).position)
}

proof fn lemma_row_keys_ordered(row: Seq<Option<Key>>, r: int)
    requires
        0 <= r <= usize::MAX,
        row.len() <= usize::MAX + 1,
        forall|c: int| 0 <= c < row.len() && (#[trigger] row[c]) is Some ==> row[c]->0.position == (Pos { r: r as usize, c: c as usize }),
    ensures
        forall|i: int| 0 <= i < row_keys(row).len() ==> (#[trigger] row_keys(row)[i]).position.r == r
            && row_keys(row)[i].position.c < row.len() && row[row_keys(row)[i].position.c as int] == Some(row_keys(row)[i]),
        forall|i: int, j: int| 0 <= i < j < row_keys(row).len() ==> (#[trigger] row_keys(row)[i]).position.c
            < (#[trigger] row_keys(row)[j]).position.c,
    decreases row.len(),
{
    if row.len() > 0 {
        let init = row.drop_last();
        lemma_row_keys_ordered(init, r);
        let rk = row_keys(row);
        let ik = row_keys(init);
        assert forall|i: int| 0 <= i < rk.len() implies (#[trigger] rk[i]).position.r == r && rk[i].position.c < row.len()
            && row[rk[i].position.c as int] == Some(rk[i]) by {
            if i < ik.len() {
                assert(rk[i] == ik[i]);
                assert(init[ik[i].position.c as int] == row[ik[i].position.c as int]);
            } else {
                assert(row[row.len() - 1] is Some);
            }
        }
        assert forall|i: int, j: int| 0 <= i < j < rk.len() implies (#[trigger] rk[i]).position.c < (
        #[trigger] rk[j]).position.c by {
            if j < ik.len() {
                assert(rk[i] == ik[i] && rk[j] == ik[j]);
            } else {
                assert(rk[i] == ik[i]);
                assert(row[row.len() - 1] is Some);
            }
        }
    }
}

/// The keys of a grid whose keys record their positions come in row-major
/// order, each at its position.
pub proof fn lemma_grid_keys_ordered(g: Seq<Seq<Option<Key>>>)
    requires
        positions_consistent(g),
        g.len() <= usize::MAX,
        forall|r: int| 0 <= r < g.len() ==> (#[trigger] g[r]).len() <= usize::MAX,
    ensures
        keys_in_order(grid_keys(g), g),
    decreases g.len(),
{
    if g.len() > 0 {
        let init = g.drop_last();
        let r = g.len() - 1;
        assert(positions_consistent(init)) by {
            assert forall|a: int, b: int| 0 <= a < init.len() && 0 <= b < init[a].len() && (#[trigger] init[a][b]) is Some
                implies init[a][b]->0.position == Pos { r: a as usize, c: b as usize } by {
                assert(init[a][b] == g[a][b]);
            }
        }
        lemma_grid_keys_ordered(init);
        let row = g[r];
        assert forall|c: int| 0 <= c < row.len() && (#[trigger] row[c]) is Some implies row[c]->0.position == Pos {
            r: r as usize,
            c: c as usize,
        } by {
            assert(g[r][c] == row[c]);
        }
        lemma_row_keys_ordered(row, r);
        let ks = grid_keys(g);
        let ik = grid_keys(init);
        let rk = row_keys(row);
        assert(g.last() == row);
        assert(ks == ik + rk);
        assert forall|i: int| 0 <= i < ks.len() implies grid_key(g, (#[trigger] ks[i]).position) == Some(ks[i]) by {
            if i < ik.len() {
                assert(ks[i] == ik[i]);
                let p = ik[i].position;
                assert(grid_key(init, p) == Some(ik[i]));
                assert(g[p.r as int] == init[p.r as int]);
            } else {
                assert(ks[i] == rk[i - ik.len()]);
            }
        }
        assert forall|i: int, j: int| 0 <= i < j < ks.len() implies pos_lt((#[trigger] ks[i]).position, (
        #[trigger] ks[j]).position) by {
            if j < ik.len() {
                assert(ks[i] == ik[i] && ks[j] == ik[j]);
            } else if i < ik.len() {
                assert(ks[i] == ik[i] && ks[j] == rk[j - ik.len()]);
                assert(grid_key(init, ik[i].position) == Some(ik[i]));
            } else {
                assert(ks[i] == rk[i - ik.len()] && ks[j] == rk[j - ik.len()]);
            }
        }
    }
}

/// A keyboard layout: a grid of cells, each holding a key or nothing.
pub struct Layout {
    keys: Matrix<Option<Key>>,
}

impl Layout {
    /// The cells, row by row.
    pub closed spec fn grid(&self) -> Seq<Seq<Option<Key>>> {
        self.keys.row_seqs()
    }

    /// The number of columns of the grid.
    pub closed spec fn width(&self) -> nat {
        self.keys.column_count()
    }

    pub closed spec fn storage_ok(&self) -> bool {
        &&& self.keys.wf()
        &&& self.keys.row_count() <= usize::MAX
        &&& self.keys.column_count() <= usize::MAX
    }

    pub open spec fn wf(&self) -> bool {
        &&& self.storage_ok()
        &&& self.grid().len() <= usize::MAX
        &&& self.width() <= usize::MAX
        &&& is_rectangular(self.grid(), self.width() as int)
        &&& positions_consistent(self.grid())
    }

    /// Checks the home positions against the finger assignment and the
    /// definition: each lies on a cell of its finger, every finger in use has
    /// one, and a finger with an empty home cell has no other key.
    fn check_finger_home_positions(
        definition: &Matrix<char>,
        finger_assignment: &Matrix<Option<Finger>>,
        finger_home_positions: &Vec<(Finger, Pos)>,
    ) -> (res: Result<(), LayoutError>)
        requires
            definition.wf(),
            finger_assignment.wf(),
            definition.row_count() == finger_assignment.row_count(),
            definition.column_count() == finger_assignment.column_count(),
        ensures
            res is Ok <==> homes_valid(
                definition.row_seqs(),
                finger_assignment.row_seqs(),
                definition.row_count() as int,
                definition.column_count() as int,
                finger_home_positions@,
            ),
            res matches Err(e) ==> home_error_explained(
                definition.row_seqs(),
                finger_assignment.row_seqs(),
                definition.row_count() as int,
                definition.column_count() as int,
                finger_home_positions@,
                e,
            ),
    {
        let rows = finger_assignment.num_rows();
        let columns = finger_assignment.num_columns();
        let ghost chars = definition.row_seqs();
        let ghost fingers = finger_assignment.row_seqs();
        let ghost homes = finger_home_positions@;

        let n = finger_home_positions.len();
        let mut i: usize = 0;
        while i < n
            invariant
                n == homes.len(),
                homes == finger_home_positions@,
                fingers == finger_assignment.row_seqs(),
                chars == definition.row_seqs(),
                rows == finger_assignment.row_count(),
                columns == finger_assignment.column_count(),
                definition.row_count() == rows,
                definition.column_count() == columns,
                finger_assignment.wf(),
                0 <= i <= n,
                forall|j: int| 0 <= j < i ==> home_on_finger(fingers, rows as int, columns as int, #[trigger] homes[j]),
            decreases n - i,
        {
            let (finger, position) = finger_home_positions[i];
            match finger_assignment.get(&position) {
                None => {
                    assert(!home_on_finger(fingers, rows as int, columns as int, homes[i as int]));
                    return Err(LayoutError::HomeOutOfBounds { finger, position });
                },
                Some(cell) => {
                    let matches = match *cell {
                        Some(actual) => actual == finger,
                        None => false,
                    };
                    if !matches {
                        assert(!home_on_finger(fingers, rows as int, columns as int, homes[i as int]));
                        return Err(LayoutError::HomeFingerMismatch { finger, position });
                    }
                },
            }
            i = i + 1;
        }

        let mut r: usize = 0;
        while r < rows
            invariant
                n == homes.len(),
                homes == finger_home_positions@,
                fingers == finger_assignment.row_seqs(),
                chars == definition.row_seqs(),
                rows == finger_assignment.row_count(),
                columns == finger_assignment.column_count(),
                definition.row_count() == rows,
                definition.column_count() == columns,
                finger_assignment.wf(),
                homes_on_fingers(fingers, rows as int, columns as int, homes),
                0 <= r <= rows,
                forall|rr: int, cc: int|
                    0 <= rr < r && 0 <= cc < columns && (#[trigger] fingers[rr][cc]) is Some ==> has_home(
                        homes,
                        fingers[rr][cc]->0,
                    ),
            decreases rows - r,
        {
            let mut c: usize = 0;
            while c < columns
                invariant
                    n == homes.len(),
                    homes == finger_home_positions@,
                    fingers == finger_assignment.row_seqs(),
                    chars == definition.row_seqs(),
                    rows == finger_assignment.row_count(),
                    columns == finger_assignment.column_count(),
                    definition.row_count() == rows,
                    definition.column_count() == columns,
                    finger_assignment.wf(),
                    homes_on_fingers(fingers, rows as int, columns as int, homes),
                    0 <= r < rows,
                    0 <= c <= columns,
                    forall|rr: int, cc: int|
                        (0 <= rr < r && 0 <= cc < columns || rr == r && 0 <= cc < c) && (#[trigger] fingers[rr][cc]) is Some
                            ==> has_home(homes, fingers[rr][cc]->0),
                decreases columns - c,
            {
                let position = Pos::new(r, c);
                let cell = *finger_assignment.get(&position).unwrap();
                if let Some(finger) = cell {
                    if !Self::has_home_for(finger_home_positions, finger) {
                        assert(fingers[r as int][c as int] == Some(finger));
                        return Err(LayoutError::MissingHome { finger });
                    }
                }
                c = c + 1;
            }
            r = r + 1;
        }

        let mut i: usize = 0;
        while i < n
            invariant
                n == homes.len(),
                homes == finger_home_positions@,
                fingers == finger_assignment.row_seqs(),
                chars == definition.row_seqs(),
                rows == finger_assignment.row_count(),
                columns == finger_assignment.column_count(),
                definition.row_count() == rows,
                definition.column_count() == columns,
                finger_assignment.wf(),
                definition.wf(),
                homes_on_fingers(fingers, rows as int, columns as int, homes),
                fingers_have_homes(fingers, rows as int, columns as int, homes),
                0 <= i <= n,
                forall|j: int, rr: int, cc: int|
                    #![trigger homes[j], chars[rr][cc]]
                    0 <= j < i && 0 <= rr < rows && 0 <= cc < columns && chars[homes[j].1.r as int][homes[j].1.c as int]
                        == NONE_CHAR && fingers[rr][cc] == Some(homes[j].0) && (rr != homes[j].1.r || cc
                        != homes[j].1.c) ==> chars[rr][cc] == NONE_CHAR,
            decreases n - i,
        {
            let (finger, home) = finger_home_positions[i];
            assert(home_on_finger(fingers, rows as int, columns as int, homes[i as int]));
            let home_char = *definition.get(&home).unwrap();
            if home_char == NONE_CHAR {
                let mut r: usize = 0;
                while r < rows
                    invariant
                        n == homes.len(),
                        homes == finger_home_positions@,
                        fingers == finger_assignment.row_seqs(),
                        chars == definition.row_seqs(),
                        rows == finger_assignment.row_count(),
                        columns == finger_assignment.column_count(),
                        definition.row_count() == rows,
                        definition.column_count() == columns,
                        finger_assignment.wf(),
                        definition.wf(),
                        0 <= i < n,
                        homes[i as int] == (finger, home),
                        chars[home.r as int][home.c as int] == NONE_CHAR,
                        homes_on_fingers(fingers, rows as int, columns as int, homes),
                        fingers_have_homes(fingers, rows as int, columns as int, homes),
                        0 <= r <= rows,
                        forall|rr: int, cc: int|
                            0 <= rr < r && 0 <= cc < columns && fingers[rr][cc] == Some(finger) && (rr != home.r
                                || cc != home.c) ==> #[trigger] chars[rr][cc] == NONE_CHAR,
                    decreases rows - r,
                {
                    let mut c: usize = 0;
                    while c < columns
                        invariant
                            n == homes.len(),
                            homes == finger_home_positions@,
                            fingers == finger_assignment.row_seqs(),
                            chars == definition.row_seqs(),
                            rows == finger_assignment.row_count(),
                            columns == finger_assignment.column_count(),
                            definition.row_count() == rows,
                            definition.column_count() == columns,
                            finger_assignment.wf(),
                            definition.wf(),
                            0 <= i < n,
                            homes[i as int] == (finger, home),
                            chars[home.r as int][home.c as int] == NONE_CHAR,
                            homes_on_fingers(fingers, rows as int, columns as int, homes),
                            fingers_have_homes(fingers, rows as int, columns as int, homes),
                        chars[home.r as int][home.c as int] == NONE_CHAR,
                        homes_on_fingers(fingers, rows as int, columns as int, homes),
                        fingers_have_homes(fingers, rows as int, columns as int, homes),
                            0 <= r < rows,
                            0 <= c <= columns,
                            forall|rr: int, cc: int|
                                (0 <= rr < r && 0 <= cc < columns || rr == r && 0 <= cc < c) && fingers[rr][cc] == Some(
                                    finger,
                                ) && (rr != home.r || cc != home.c) ==> #[trigger] chars[rr][cc] == NONE_CHAR,
                        decreases columns - c,
                    {
                        let position = Pos::new(r, c);
                        let cell = *finger_assignment.get(&position).unwrap();
                        let same = match cell {
                            Some(f) => f == finger,
                            None => false,
                        };
                        if same && (r != home.r || c != home.c) {
                            let ch = *definition.get(&position).unwrap();
                            if ch != NONE_CHAR {
                                assert(is_home(homes, finger, home));
                                assert(chars[r as int][c as int] == ch);
                                assert(!empty_homes_respected(
                                    chars,
                                    fingers,
                                    rows as int,
                                    columns as int,
                                    homes,
                                ));
                                return Err(
                                    LayoutError::OccupiedKeyWithEmptyHome { finger, home, position, ch },
                                );
                            }
                        }
                        c = c + 1;
                    }
                    r = r + 1;
                }
            }
            i = i + 1;
        }
        Ok(())
    }

    /// Whether `finger` has an entry in `homes`.
    fn has_home_for(homes: &Vec<(Finger, Pos)>, finger: Finger) -> (b: bool)
        ensures
            b == has_home(homes@, finger),
    {
        let mut i: usize = 0;
        while i < homes.len()
            invariant
                0 <= i <= homes@.len(),
                forall|j: int| 0 <= j < i ==> (#[trigger] homes@[j]).0 != finger,
            decreases homes@.len() - i,
        {
            if homes[i].0 == finger {
                assert(homes@[i as int].0 == finger);
                return true;
            }
            i = i + 1;
        }
        false
    }

    /// Builds a layout from its definition, one line per row of the grid,
    /// with `NONE_CHAR` for cells without a key. Whitespace is ignored. The
    /// configuration matrices must have the shape of the definition, and the
    /// home positions must pass the checks of `homes_valid`.
    pub fn new(definition: &str, config: &Config) -> (res: Result<Layout, LayoutError>)
        requires
            config.finger_assignment.wf(),
            homes_distinct(config.finger_home_positions@),
        ensures
            !definition_ok(definition_rows(definition@)) ==> res == Err::<Layout, LayoutError>(
                LayoutError::Definition(
                    if definition_rows(definition@).len() == 0 {
                        MatrixError::Empty
                    } else {
                        MatrixError::InconsistentRowLengths
                    },
                ),
            ),
            definition_ok(definition_rows(definition@)) && shape_error(
                definition_rows(definition@),
                config,
            ) is Some ==> res == Err::<Layout, LayoutError>(
                shape_error(definition_rows(definition@), config)->0,
            ),
            definition_ok(definition_rows(definition@)) && shape_error(
                definition_rows(definition@),
                config,
            ) is None ==> (res is Ok <==> homes_valid(
                definition_rows(definition@),
                config.finger_assignment.row_seqs(),
                definition_rows(definition@).len() as int,
                definition_rows(definition@)[0].len() as int,
                config.finger_home_positions@,
            )),
            definition_ok(definition_rows(definition@)) && shape_error(
                definition_rows(definition@),
                config,
            ) is None && res is Err ==> home_error_explained(
                definition_rows(definition@),
                config.finger_assignment.row_seqs(),
                definition_rows(definition@).len() as int,
                definition_rows(definition@)[0].len() as int,
                config.finger_home_positions@,
                res->Err_0,
            ),
            res matches Ok(layout) ==> layout.wf() && layout.grid() == key_grid(
                definition_rows(definition@),
                config.finger_assignment.row_seqs(),
                definition_rows(definition@).len() as int,
                definition_rows(definition@)[0].len() as int,
                config.finger_home_positions@,
            ),
    {
        let rows_vec = parse_definition(definition);
        let ghost d = definition_rows(definition@);
        let definition = match Matrix::new(rows_vec) {
            Ok(m) => m,
            Err(e) => {
                return Err(LayoutError::Definition(e));
            },
        };
        let rows = definition.num_rows();
        let columns = definition.num_columns();
        assert(definition.row_seqs() == d);

        if rows != config.key_centers_shape.0 || columns != config.key_centers_shape.1 {
            return Err(
                LayoutError::ShapeMismatch {
                    matrix: ConfigMatrix::KeyCenters,
                    expected_rows: config.key_centers_shape.0,
                    expected_columns: config.key_centers_shape.1,
                    rows,
                    columns,
                },
            );
        }
        let fa = &config.finger_assignment;
        if rows != fa.num_rows() || columns != fa.num_columns() {
            return Err(
                LayoutError::ShapeMismatch {
                    matrix: ConfigMatrix::FingerAssignment,
                    expected_rows: fa.num_rows(),
                    expected_columns: fa.num_columns(),
                    rows,
                    columns,
                },
            );
        }
        if rows != config.finger_effort_shape.0 || columns != config.finger_effort_shape.1 {
            return Err(
                LayoutError::ShapeMismatch {
                    matrix: ConfigMatrix::FingerEffort,
                    expected_rows: config.finger_effort_shape.0,
                    expected_columns: config.finger_effort_shape.1,
                    rows,
                    columns,
                },
            );
        }
        match Self::check_finger_home_positions(&definition, fa, &config.finger_home_positions) {
            Ok(()) => {},
            Err(e) => {
                return Err(e);
            },
        }

        let ghost fingers = fa.row_seqs();
        let ghost homes = config.finger_home_positions@;
        let ghost expected = key_grid(d, fingers, rows as int, columns as int, homes);
        let n = definition.cell_count();
        let mut keys: Matrix<Option<Key>> = Matrix::filled(rows, columns, None);
        assert(keys.row_seqs() =~= Seq::new(
            rows as nat,
            |i: int| Seq::new(columns as nat, |j: int| if i < 0 { expected[i][j] } else { None }),
        )) by {
            assert forall|i: int| 0 <= i < rows implies keys.row_seqs()[i] =~= Seq::new(
                columns as nat,
                |j: int| if i < 0 { expected[i][j] } else { None },
            ) by {}
        }
        let mut r: usize = 0;
        while r < rows
            invariant
                definition.wf(),
                fa.wf(),
                d == definition.row_seqs(),
                fingers == fa.row_seqs(),
                homes == config.finger_home_positions@,
                expected == key_grid(d, fingers, rows as int, columns as int, homes),
                rows == definition.row_count(),
                columns == definition.column_count(),
                rows == fa.row_count(),
                columns == fa.column_count(),
                keys.wf(),
                keys.row_count() == rows,
                keys.column_count() == columns,
                0 <= r <= rows,
                keys.row_seqs() == Seq::new(
                    rows as nat,
                    |i: int| Seq::new(columns as nat, |j: int| if i < r { expected[i][j] } else { None }),
                ),
            decreases rows - r,
        {
            assert(keys.row_seqs() =~= Seq::new(
                rows as nat,
                |i: int|
                    Seq::new(
                        columns as nat,
                        |j: int| if i < r || (i == r && j < 0) { expected[i][j] } else { None },
                    ),
            )) by {
                assert forall|i: int| 0 <= i < rows implies keys.row_seqs()[i] =~= Seq::new(
                    columns as nat,
                    |j: int| if i < r || (i == r && j < 0) { expected[i][j] } else { None },
                ) by {}
            }
            let mut c: usize = 0;
            while c < columns
                invariant
                    definition.wf(),
                    fa.wf(),
                    d == definition.row_seqs(),
                    fingers == fa.row_seqs(),
                    homes == config.finger_home_positions@,
                    expected == key_grid(d, fingers, rows as int, columns as int, homes),
                    rows == definition.row_count(),
                    columns == definition.column_count(),
                    rows == fa.row_count(),
                    columns == fa.column_count(),
                    keys.wf(),
                    keys.row_count() == rows,
                    keys.column_count() == columns,
                    0 <= r < rows,
                    0 <= c <= columns,
                    keys.row_seqs() == Seq::new(
                        rows as nat,
                        |i: int|
                            Seq::new(
                                columns as nat,
                                |j: int| if i < r || (i == r && j < c) { expected[i][j] } else { None },
                            ),
                    ),
                decreases columns - c,
            {
                let pos = Pos::new(r, c);
                let ch = *definition.get(&pos).unwrap();
                let finger_cell = *fa.get(&pos).unwrap();
                let value = match finger_cell {
                    None => None,
                    Some(f) => {
                        if ch == NONE_CHAR {
                            None
                        } else {
                            let home = Self::is_home_position(&config.finger_home_positions, f, pos);
                            Some(Key::new(ch, f, pos, home))
                        }
                    },
                };
                assert(value == expected[r as int][c as int]);
                let ghost before = keys.row_seqs();
                if let Some(cell) = keys.get_mut(&pos) {
                    *cell = value;
                }
                c = c + 1;
                assert(keys.row_seqs() =~= Seq::new(
                    rows as nat,
                    |i: int|
                        Seq::new(
                            columns as nat,
                            |j: int| if i < r || (i == r && j < c) { expected[i][j] } else { None },
                        ),
                )) by {
                    assert forall|i: int| 0 <= i < rows implies keys.row_seqs()[i] =~= Seq::new(
                        columns as nat,
                        |j: int| if i < r || (i == r && j < c) { expected[i][j] } else { None },
                    ) by {}
                }
            }
            r = r + 1;
            assert(keys.row_seqs() =~= Seq::new(
                rows as nat,
                |i: int| Seq::new(columns as nat, |j: int| if i < r { expected[i][j] } else { None }),
            )) by {
                assert forall|i: int| 0 <= i < rows implies keys.row_seqs()[i] =~= Seq::new(
                    columns as nat,
                    |j: int| if i < r { expected[i][j] } else { None },
                ) by {}
            }
        }
        assert(keys.row_seqs() =~= expected) by {
            assert forall|i: int| 0 <= i < rows implies keys.row_seqs()[i] =~= expected[i] by {}
        }
        Ok(Layout { keys })
    }

    /// Whether `(finger, position)` is an entry of `homes`.
    fn is_home_position(homes: &Vec<(Finger, Pos)>, finger: Finger, position: Pos) -> (b: bool)
        ensures
            b == is_home(homes@, finger, position),
    {
        let mut i: usize = 0;
        while i < homes.len()
            invariant
                0 <= i <= homes@.len(),
                forall|j: int| 0 <= j < i ==> #[trigger] homes@[j] != (finger, position),
            decreases homes@.len() - i,
        {
            if homes[i].0 == finger && homes[i].1 == position {
                assert(homes@[i as int] == (finger, position));
                return true;
            }
            i = i + 1;
        }
        false
    }

    /// The key at `pos`, if there is one.
    pub fn key_at(&self, pos: &Pos) -> (res: Option<&Key>)
        requires
            self.wf(),
        ensures
            res is Some <==> grid_key(self.grid(), *pos) is Some,
            res matches Some(k) ==> grid_key(self.grid(), *pos) == Some(*k),
    {
        match self.keys.get(pos) {
            Some(cell) => match cell {
                Some(key) => Some(key),
                None => None,
            },
            None => None,
        }
    }

    /// The character typed at `pos`, if a key lies there.
    pub fn char_at(&self, pos: &Pos) -> (res: Option<char>)
        requires
            self.wf(),
        ensures
            res == grid_char(self.grid(), *pos),
    {
        match self.key_at(pos) {
            Some(key) => Some(key.ch),
            None => None,
        }
    }

    /// The first key, row by row, that types `ch`.
    pub fn key_for(&self, ch: char) -> (res: Option<&Key>)
        requires
            self.wf(),
        ensures
            res is None <==> !exists|r: int, c: int| key_with_char_at(self.grid(), r, c, ch),
            res matches Some(k) ==> k.ch == ch && exists|r: int, c: int|
                0 <= r < self.grid().len() && 0 <= c < self.grid()[r].len() && self.grid()[r][c]
                    == Some(*k) && forall|r2: int, c2: int|
                    (r2 < r || (r2 == r && c2 < c)) ==> !#[trigger] key_with_char_at(self.grid(), r2, c2, ch),
    {
        let rows = self.keys.num_rows();
        let columns = self.keys.num_columns();
        let ghost g = self.grid();
        let mut r: usize = 0;
        while r < rows
            invariant
                self.wf(),
                g == self.grid(),
                rows == g.len(),
                columns == self.width(),
                0 <= r <= rows,
                forall|r2: int, c2: int| r2 < r ==> !#[trigger] key_with_char_at(g, r2, c2, ch),
            decreases rows - r,
        {
            let mut c: usize = 0;
            while c < columns
                invariant
                    self.wf(),
                    g == self.grid(),
                    rows == g.len(),
                    columns == self.width(),
                    0 <= r < rows,
                    0 <= c <= columns,
                    forall|r2: int, c2: int|
                        (r2 < r || (r2 == r && c2 < c)) ==> !#[trigger] key_with_char_at(g, r2, c2, ch),
                decreases columns - c,
            {
                let pos = Pos::new(r, c);
                match self.keys.get(&pos) {
                    Some(cell) => match cell {
                        Some(key) => {
                            if key.ch == ch {
                                assert(key_with_char_at(g, r as int, c as int, ch));
                                return Some(key);
                            }
                        },
                        None => {},
                    },
                    None => {},
                }
                c = c + 1;
            }
            r = r + 1;
        }
        None
    }

    /// All keys, row by row.
    pub fn keys(&self) -> (res: Vec<Key>)
        requires
            self.wf(),
        ensures
            res@ == grid_keys(self.grid()),
    {
        let rows = self.keys.num_rows();
        let columns = self.keys.num_columns();
        let ghost g = self.grid();
        let mut res: Vec<Key> = Vec::new();
        let mut r: usize = 0;
        while r < rows
            invariant
                self.wf(),
                g == self.grid(),
                rows == g.len(),
                columns == self.width(),
                0 <= r <= rows,
                res@ == grid_keys(g.take(r as int)),
            decreases rows - r,
        {
            let mut c: usize = 0;
            while c < columns
                invariant
                    self.wf(),
                    g == self.grid(),
                    rows == g.len(),
                    columns == self.width(),
                    0 <= r < rows,
                    0 <= c <= columns,
                    res@ == grid_keys(g.take(r as int)) + row_keys(g[r as int].take(c as int)),
                decreases columns - c,
            {
                let pos = Pos::new(r, c);
                let cell = self.keys.get(&pos).unwrap();
                assert(g[r as int].take(c + 1).drop_last() == g[r as int].take(c as int));
                match cell {
                    Some(key) => {
                        res.push(*key);
                    },
                    None => {},
                }
                c = c + 1;
                assert(res@ =~= grid_keys(g.take(r as int)) + row_keys(g[r as int].take(c as int)));
            }
            assert(g[r as int].take(columns as int) == g[r as int]);
            assert(g.take(r + 1).drop_last() == g.take(r as int));
            r = r + 1;
        }
        assert(g.take(rows as int) == g);
        res
    }

    /// Makes the key at `pos`, if there is one, type `ch`.
    pub fn set_char(&mut self, pos: &Pos, ch: char)
        requires
            old(self).wf(),
        ensures
            final(self).wf(),
            final(self).width() == old(self).width(),
            final(self).grid() == grid_set_char(old(self).grid(), *pos, ch),
    {
        let ghost g0 = self.grid();
        if let Some(cell) = self.keys.get_mut(pos) {
            if let Some(key) = *cell {
                *cell = Some(Key { ch, finger: key.finger, position: key.position, finger_home: key.finger_home });
            }
        }
        proof {
            if grid_key(g0, *pos) is None && pos.r < g0.len() && pos.c < g0[pos.r as int].len() {
                assert(self.grid()[pos.r as int] =~= g0[pos.r as int]);
                assert(self.grid() =~= g0);
            }
        }
    }

    /// Exchanges the characters of the keys at `pos1` and `pos2`, if both
    /// positions hold a key.
    pub fn swap_chars(&mut self, pos1: &Pos, pos2: &Pos)
        requires
            old(self).wf(),
        ensures
            final(self).wf(),
            final(self).width() == old(self).width(),
            final(self).grid() == grid_swap(old(self).grid(), *pos1, *pos2),
    {
        let ch1 = match self.char_at(pos1) {
            Some(ch) => ch,
            None => {
                return;
            },
        };
        let ch2 = match self.char_at(pos2) {
            Some(ch) => ch,
            None => {
                return;
            },
        };
        self.set_char(pos1, ch2);
        self.set_char(pos2, ch1);
    }
}

/// The character shown for a cell: its key's, or `NONE_CHAR` when empty.
pub open spec fn cell_char(cell: Option<Key>) -> char {
    match cell {
        Some(key) => key.ch,
        None => NONE_CHAR,
    }
}

/// Characters separated by single spaces.
pub open spec fn spaced(cs: Seq<char>) -> Seq<char>
    decreases cs.len(),
{
    if cs.len() <= 1 {
        cs
    } else {
        spaced(cs.drop_last()) + seq![' ', cs.last()]
    }
}

/// A row as shown: two spaces, the cells of the left half, three spaces,
/// the cells of the right half, and a line break.
pub open spec fn row_line(row: Seq<Option<Key>>, split: int) -> Seq<char> {
    let chars = row.map_values(|cell: Option<Key>| cell_char(cell));
    seq![' ', ' '] + spaced(chars.take(split)) + seq![' ', ' ', ' '] + spaced(chars.skip(split)) + seq!['\n']
}

/// The rows as shown, one line each.
pub open spec fn render_rows(g: Seq<Seq<Option<Key>>>, split: int) -> Seq<char>
    decreases g.len(),
{
    if g.len() == 0 {
        Seq::empty()
    } else {
        render_rows(g.drop_last(), split) + row_line(g.last(), split)
    }
}

/// The characters of `s` that are not whitespace, in order.
pub open spec fn visible(s: Seq<char>) -> Seq<char>
    decreases s.len(),
{
    if s.len() == 0 {
        Seq::empty()
    } else if is_whitespace(s.last()) {
        visible(s.drop_last())
    } else {
        visible(s.drop_last()).push(s.last())
    }
}

proof fn lemma_visible_concat(a: Seq<char>, b: Seq<char>)
    ensures
        visible(a + b) == visible(a) + visible(b),
    decreases b.len(),
{
    if b.len() == 0 {
        assert(a + b =~= a);
        assert(visible(a) + visible(b) =~= visible(a));
    } else {
        assert((a + b).drop_last() =~= a + b.drop_last());
        lemma_visible_concat(a, b.drop_last());
        assert(visible(a + b) =~= visible(a) + visible(b));
    }
}

proof fn lemma_visible_single(c: char)
    ensures
        visible(seq![c]) == (if is_whitespace(c) { Seq::<char>::empty() } else { seq![c] }),
{
    let s = seq![c];
    assert(s.len() == 1);
    assert(s.last() == c);
    assert(s.drop_last() =~= Seq::<char>::empty());
    assert(visible(s.drop_last()) == Seq::<char>::empty());
    assert(Seq::<char>::empty().push(c) =~= s);
}

proof fn lemma_visible_spaces()
    ensures
        visible(seq![' ']) == Seq::<char>::empty(),
        visible(seq![' ', ' ']) == Seq::<char>::empty(),
        visible(seq![' ', ' ', ' ']) == Seq::<char>::empty(),
{
    assert(' ' as u32 == 0x20);
    assert(is_whitespace(' '));
    lemma_visible_single(' ');
    lemma_visible_concat(seq![' '], seq![' ']);
    assert(seq![' '] + seq![' '] =~= seq![' ', ' ']);
    lemma_visible_concat(seq![' ', ' '], seq![' ']);
    assert(seq![' ', ' '] + seq![' '] =~= seq![' ', ' ', ' ']);
}

/// Spacing out characters that are not whitespace adds only whitespace.
proof fn lemma_visible_spaced(cs: Seq<char>)
    requires
        forall|i: int| 0 <= i < cs.len() ==> !is_whitespace(#[trigger] cs[i]),
    ensures
        visible(spaced(cs)) == cs,
        forall|i: int| 0 <= i < spaced(cs).len() ==> #[trigger] spaced(cs)[i] != '\n',
    decreases cs.len(),
{
    if cs.len() == 1 {
        assert(cs =~= seq![cs[0]]);
        lemma_visible_single(cs[0]);
    } else if cs.len() > 1 {
        lemma_visible_spaced(cs.drop_last());
        let pair = seq![' ', cs.last()];
        lemma_visible_concat(spaced(cs.drop_last()), pair);
        lemma_visible_spaces();
        lemma_visible_single(cs.last());
        assert(!is_whitespace(cs[cs.len() - 1]));
        lemma_visible_concat(seq![' '], seq![cs.last()]);
        assert(seq![' '] + seq![cs.last()] =~= pair);
        assert(visible(pair) =~= seq![cs.last()]);
        assert(visible(spaced(cs)) =~= cs);
        let sp = spaced(cs);
        assert forall|i: int| 0 <= i < sp.len() implies #[trigger] sp[i] != '\n' by {
            if i >= spaced(cs.drop_last()).len() {
                assert(is_whitespace('\n'));
            }
        }
    }
}

/// Reading characters with no line break adds their visible characters to
/// the row being read.
proof fn lemma_scan_without_newline(p: Seq<char>, s: Seq<char>)
    requires
        forall|i: int| 0 <= i < s.len() ==> #[trigger] s[i] != '\n',
    ensures
        scan_rows(p + s) == (scan_rows(p).0, scan_rows(p).1 + visible(s)),
    decreases s.len(),
{
    if s.len() == 0 {
        assert(p + s =~= p);
        assert(scan_rows(p).1 + visible(s) =~= scan_rows(p).1);
    } else {
        assert((p + s).drop_last() =~= p + s.drop_last());
        lemma_scan_without_newline(p, s.drop_last());
        assert(s.last() != '\n');
        if is_whitespace(s.last()) {
        } else {
            assert(scan_rows(p).1 + visible(s) =~= (scan_rows(p).1 + visible(s.drop_last())).push(s.last()));
        }
    }
}

/// The visible characters of a row's line are its cells' characters.
proof fn lemma_row_line_reads_back(row: Seq<Option<Key>>, split: int, p: Seq<char>)
    requires
        0 <= split <= row.len(),
        row.len() > 0,
        forall|c: int| 0 <= c < row.len() ==> !is_whitespace(cell_char(#[trigger] row[c])),
        scan_rows(p).1.len() == 0,
    ensures
        scan_rows(p + row_line(row, split)) == (
            scan_rows(p).0.push(row.map_values(|cell: Option<Key>| cell_char(cell))),
            Seq::<char>::empty(),
        ),
{
    let chars = row.map_values(|cell: Option<Key>| cell_char(cell));
    let left = chars.take(split);
    let right = chars.skip(split);
    assert forall|i: int| 0 <= i < left.len() implies !is_whitespace(#[trigger] left[i]) by {
        assert(left[i] == cell_char(row[i]));
    }
    assert forall|i: int| 0 <= i < right.len() implies !is_whitespace(#[trigger] right[i]) by {
        assert(right[i] == cell_char(row[i + split]));
    }
    lemma_visible_spaced(left);
    lemma_visible_spaced(right);
    let content = seq![' ', ' '] + spaced(left) + seq![' ', ' ', ' '] + spaced(right);
    assert forall|i: int| 0 <= i < content.len() implies #[trigger] content[i] != '\n' by {
        let a = seq![' ', ' '].len() as int;
        let b = a + spaced(left).len();
        let c = b + 3;
        if a <= i < b {
            assert(content[i] == spaced(left)[i - a]);
        } else if c <= i {
            assert(content[i] == spaced(right)[i - c]);
        }
    }
    lemma_visible_spaces();
    lemma_visible_concat(seq![' ', ' '], spaced(left));
    lemma_visible_concat(seq![' ', ' '] + spaced(left), seq![' ', ' ', ' ']);
    lemma_visible_concat(seq![' ', ' '] + spaced(left) + seq![' ', ' ', ' '], spaced(right));
    assert(visible(content) =~= chars);
    lemma_scan_without_newline(p, content);
    assert(row_line(row, split) =~= content.push('\n'));
    assert(p + row_line(row, split) =~= (p + content).push('\n'));
    assert((p + content).push('\n').drop_last() =~= p + content);
    assert(chars.len() > 0);
}

/// The rows of a grid, each as the characters of its cells.
pub open spec fn grid_text_rows(g: Seq<Seq<Option<Key>>>) -> Seq<Seq<char>> {
    g.map_values(|row: Seq<Option<Key>>| row.map_values(|cell: Option<Key>| cell_char(cell)))
}

proof fn lemma_scan_render_rows(g: Seq<Seq<Option<Key>>>, split: int)
    requires
        forall|r: int| 0 <= r < g.len() ==> split <= #[trigger] g[r].len() && g[r].len() > 0,
        0 <= split,
        forall|r: int, c: int| 0 <= r < g.len() && 0 <= c < g[r].len() ==> !is_whitespace(cell_char(#[trigger] g[r][c])),
    ensures
        scan_rows(render_rows(g, split)) == (grid_text_rows(g), Seq::<char>::empty()),
    decreases g.len(),
{
    if g.len() == 0 {
        assert(grid_text_rows(g) =~= Seq::<Seq<char>>::empty());
    } else {
        let init = g.drop_last();
        lemma_scan_render_rows(init, split);
        let row = g.last();
        assert(g[g.len() - 1] == row);
        assert forall|c: int| 0 <= c < row.len() implies !is_whitespace(cell_char(#[trigger] row[c])) by {
            assert(row[c] == g[g.len() - 1][c]);
        }
        lemma_row_line_reads_back(row, split, render_rows(init, split));
        assert(grid_text_rows(g) =~= grid_text_rows(init).push(row.map_values(|cell: Option<Key>| cell_char(cell))));
    }
}

/// Reading a layout's text back as a definition gives its rows: the
/// characters of its keys, `NONE_CHAR` for the empty cells, as long as no
/// key types whitespace.
pub proof fn lemma_render_reads_back(g: Seq<Seq<Option<Key>>>, split: int)
    requires
        forall|r: int| 0 <= r < g.len() ==> split <= #[trigger] g[r].len() && g[r].len() > 0,
        0 <= split,
        forall|r: int, c: int| 0 <= r < g.len() && 0 <= c < g[r].len() ==> !is_whitespace(cell_char(#[trigger] g[r][c])),
    ensures
        definition_rows(render_rows(g, split)) == grid_text_rows(g),
{
    lemma_scan_render_rows(g, split);
}

/// The four bytes of `v`, least significant first.
pub open spec fn le_bytes(v: u32) -> Seq<u8> {
    seq![(v % 0x100) as u8, (v / 0x100 % 0x100) as u8, (v / 0x1_0000 % 0x100) as u8, (v / 0x100_0000) as u8]
}

/// The four bytes of `v`, most significant first.
pub open spec fn be_bytes(v: u32) -> Seq<u8> {
    seq![(v / 0x100_0000) as u8, (v / 0x1_0000 % 0x100) as u8, (v / 0x100 % 0x100) as u8, (v % 0x100) as u8]
}

/// `bytes` are the bytes that hashing `c` writes: its code as a `u32`, in
/// the machine's byte order (little- or big-endian).
pub open spec fn char_hash_bytes(c: char, bytes: Seq<u8>) -> bool {
    bytes == le_bytes(c as u32) || bytes == be_bytes(c as u32)
}

/// Feeds a character to a hasher: std's `Hash` for `char` calls
/// `Hasher::write_u32` with its code, which `DefaultHasher` takes as one
/// write of the code's four bytes in the machine's byte order (which of the
/// two orders is left open).
#[verifier::external_body]
fn hash_char(hasher: &mut DefaultHasher, c: char)
    ensures
        final(hasher)@.len() == old(hasher)@.len() + 1,
        final(hasher)@.drop_last() == old(hasher)@,
        char_hash_bytes(c, final(hasher)@.last()),
{
    c.hash(hasher);
}

impl Layout {
    /// Appends the cells `from..to` of row `r`, separated by single spaces.
    fn render_cells(&self, out: &mut String, r: usize, from: usize, to: usize)
        requires
            self.wf(),
            r < self.grid().len(),
            from <= to <= self.width(),
        ensures
            final(out)@ == old(out)@ + spaced(
                self.grid()[r as int].map_values(|cell: Option<Key>| cell_char(cell)).subrange(from as int, to as int),
            ),
    {
        let ghost chars = self.grid()[r as int].map_values(|cell: Option<Key>| cell_char(cell));
        let ghost start = out@;
        let mut c: usize = from;
        assert(chars.subrange(from as int, from as int) =~= Seq::<char>::empty());
        while c < to
            invariant
                self.wf(),
                r < self.grid().len(),
                from <= c <= to <= self.width(),
                chars == self.grid()[r as int].map_values(|cell: Option<Key>| cell_char(cell)),
                out@ == start + spaced(chars.subrange(from as int, c as int)),
            decreases to - c,
        {
            if c > from {
                push_char(out, ' ');
            }
            let ch = match self.keys.get(&Pos::new(r, c)).unwrap() {
                Some(key) => key.ch,
                None => NONE_CHAR,
            };
            push_char(out, ch);
            assert(chars.subrange(from as int, c + 1).drop_last() =~= chars.subrange(from as int, c as int));
            c = c + 1;
            assert(out@ =~= start + spaced(chars.subrange(from as int, c as int)));
        }
    }

    /// The layout as text: one line per row, the left and right halves of
    /// the row set apart, each cell shown by its character (`NONE_CHAR` for
    /// an empty one).
    pub fn render(&self) -> (text: String)
        requires
            self.wf(),
        ensures
            text@ == render_rows(self.grid(), (self.width() / 2) as int),
    {
        let rows = self.keys.num_rows();
        let columns = self.keys.num_columns();
        let split = columns / 2;
        let ghost g = self.grid();
        let mut text = String::new();
        let mut r: usize = 0;
        while r < rows
            invariant
                self.wf(),
                g == self.grid(),
                rows == g.len(),
                columns == self.width(),
                split == columns / 2,
                r <= rows,
                text@ == render_rows(g.take(r as int), split as int),
            decreases rows - r,
        {
            let ghost before = text@;
            let ghost chars = g[r as int].map_values(|cell: Option<Key>| cell_char(cell));
            push_char(&mut text, ' ');
            push_char(&mut text, ' ');
            self.render_cells(&mut text, r, 0, split);
            push_char(&mut text, ' ');
            push_char(&mut text, ' ');
            push_char(&mut text, ' ');
            self.render_cells(&mut text, r, split, columns);
            push_char(&mut text, '\n');
            assert(g[r as int].len() == columns);
            assert(chars.subrange(0, split as int) =~= chars.take(split as int));
            assert(chars.subrange(split as int, columns as int) =~= chars.skip(split as int));
            assert(text@ =~= before + row_line(g[r as int], split as int));
            assert(g.take(r + 1).drop_last() =~= g.take(r as int));
            r = r + 1;
        }
        assert(g.take(rows as int) =~= g);
        text
    }

    /// A hash of the characters of the keys, row by row: a fresh
    /// `DefaultHasher` finished after one write per key, of the bytes of its
    /// character.
    pub fn hash(&self) -> (h: u64)
        requires
            self.wf(),
        ensures
            exists|writes: Seq<Seq<u8>>|
                #![trigger DefaultHasher::spec_finish(writes)]
                writes.len() == grid_keys(self.grid()).len() && (forall|i: int|
                    0 <= i < writes.len() ==> char_hash_bytes(grid_keys(self.grid())[i].ch, #[trigger] writes[i]))
                    && h == DefaultHasher::spec_finish(writes),
    {
        let mut hasher = DefaultHasher::new();
        let keys = self.keys();
        for i in 0..keys.len()
            invariant
                keys@ == grid_keys(self.grid()),
                hasher@.len() == i,
                forall|j: int| 0 <= j < i ==> char_hash_bytes(keys@[j].ch, #[trigger] hasher@[j]),
        {
            let ghost before = hasher@;
            hash_char(&mut hasher, keys[i].ch);
            assert forall|j: int| 0 <= j < i + 1 implies char_hash_bytes(keys@[j].ch, #[trigger] hasher@[j]) by {
                if j < i {
                    assert(hasher@[j] == hasher@.drop_last()[j]);
                }
            }
        }
        let h = hasher.finish();
        assert(DefaultHasher::spec_finish(hasher@) == h);
        h
    }
}

impl Clone for Layout {
    fn clone(&self) -> (res: Self)
        ensures
            res.grid() == self.grid(),
            res.width() == self.width(),
            res.storage_ok() == self.storage_ok(),
    {
        Layout { keys: self.keys.duplicate() }
    }
}

} // verus!
