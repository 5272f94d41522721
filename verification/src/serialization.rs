use vstd::prelude::*;

use crate::layout::{finger_of_number, Finger, FingerKind, Hand};
use crate::matrix::{rows_have_length, Matrix, MatrixError, Pos};
use crate::text::{
    chars_of, count_char, decimal, find_char, index_of_char, is_digit, lemma_decimal,
    lemma_decimal_parses_back, lemma_index_of_char, lemma_one_char, lemma_trim_solid, parse_unsigned,
    parse_unsigned_range, string_of, strip_end, strip_range, strip_start, trim, trim_start, trim_range,
};

verus! {

/// Why a finger assignment, written as finger numbers, is refused.
#[derive(Debug, Clone, Copy, PartialEq, Eq, Structural)]
pub enum FingerAssignmentError {
    /// A number other than 0 (no finger) and 1 to 10.
    InvalidFinger(u8),
    /// The rows do not form a matrix.
    Shape(MatrixError),
}

/// A number of a finger assignment names no finger: it is neither 0 nor 1 to 10.
pub open spec fn invalid_finger_number(value: u8) -> bool {
    value != 0 && finger_of_number(value) is None
}

/// The first invalid number of a row, if any.
pub open spec fn first_invalid_in_row(row: Seq<u8>) -> Option<u8>
    decreases row.len(),
{
    if row.len() == 0 {
        None
    } else {
        match first_invalid_in_row(row.drop_last()) {
            Some(value) => Some(value),
            None => if invalid_finger_number(row.last()) {
                Some(row.last())
            } else {
                None
            },
        }
    }
}

/// The first invalid number, row by row, if any.
pub open spec fn first_invalid(rows: Seq<Seq<u8>>) -> Option<u8>
    decreases rows.len(),
{
    if rows.len() == 0 {
        None
    } else {
        match first_invalid(rows.drop_last()) {
            Some(value) => Some(value),
            None => first_invalid_in_row(rows.last()),
        }
    }
}

/// The fingers that a row of numbers assigns; 0 assigns none.
pub open spec fn assigned_fingers(row: Seq<u8>) -> Seq<Option<Finger>> {
    row.map_values(|value: u8| finger_of_number(value))
}

proof fn lemma_row_error_persists(row: Seq<u8>, i: int)
    requires
        0 <= i <= row.len(),
        first_invalid_in_row(row.take(i)) is Some,
    ensures
        first_invalid_in_row(row) == first_invalid_in_row(row.take(i)),
    decreases row.len() - i,
{
    if i < row.len() {
        assert(row.take(i + 1).drop_last() =~= row.take(i));
        lemma_row_error_persists(row, i + 1);
    } else {
        assert(row.take(i) =~= row);
    }
}

proof fn lemma_rows_error_persists(rows: Seq<Seq<u8>>, i: int)
    requires
        0 <= i <= rows.len(),
        first_invalid(rows.take(i)) is Some,
    ensures
        first_invalid(rows) == first_invalid(rows.take(i)),
    decreases rows.len() - i,
{
    if i < rows.len() {
        assert(rows.take(i + 1).drop_last() =~= rows.take(i));
        lemma_rows_error_persists(rows, i + 1);
    } else {
        assert(rows.take(i) =~= rows);
    }
}

/// The fingers of one row of numbers, or the first invalid number.
fn fingers_of_row(row: &Vec<u8>) -> (res: Result<Vec<Option<Finger>>, u8>)
    ensures
        match first_invalid_in_row(row@) {
            Some(value) => res == Err::<Vec<Option<Finger>>, u8>(value),
            None => res matches Ok(fingers) && fingers@ == assigned_fingers(row@),
        },
{
    let mut fingers: Vec<Option<Finger>> = Vec::new();
    for i in 0..row.len()
        invariant
            first_invalid_in_row(row@.take(i as int)) is None,
            fingers@ == assigned_fingers(row@.take(i as int)),
    {
        assert(row@.take(i + 1).drop_last() =~= row@.take(i as int));
        let value = row[i];
        if value == 0 {
            fingers.push(None);
        } else {
            match Finger::try_from(value) {
                Ok(finger) => fingers.push(Some(finger)),
                Err(_) => {
                    proof {
                        lemma_row_error_persists(row@, i + 1);
                    }
                    return Err(value);
                },
            }
        }
        assert(fingers@ =~= assigned_fingers(row@.take(i + 1)));
    }
    assert(row@.take(row.len() as int) =~= row@);
    Ok(fingers)
}

/// Reads a finger assignment written as finger numbers, one row per
/// keyboard row: 0 is a cell no finger types, 1 to 10 the fingers from the
/// left pinky to the right pinky. The first other number, row by row, is
/// refused; so are rows that do not form a matrix.
pub fn finger_assignment(rows: Vec<Vec<u8>>) -> (res: Result<Matrix<Option<Finger>>, FingerAssignmentError>)
    ensures
        ({
            let numbers = rows@.map_values(|row: Vec<u8>| row@);
            match first_invalid(numbers) {
                Some(value) => res == Err::<Matrix<Option<Finger>>, FingerAssignmentError>(
                    FingerAssignmentError::InvalidFinger(value),
                ),
                None => {
                    &&& numbers.len() == 0 ==> res == Err::<Matrix<Option<Finger>>, FingerAssignmentError>(
                        FingerAssignmentError::Shape(MatrixError::Empty),
                    )
                    &&& numbers.len() > 0 && !rows_have_length(numbers, numbers[0].len() as int)
                        ==> res == Err::<Matrix<Option<Finger>>, FingerAssignmentError>(
                        FingerAssignmentError::Shape(MatrixError::InconsistentRowLengths),
                    )
                    &&& numbers.len() > 0 && rows_have_length(numbers, numbers[0].len() as int)
                        ==> (res matches Ok(m) && m.wf() && m.row_count() == numbers.len()
                            && m.column_count() == numbers[0].len()
                            && m.row_seqs() == numbers.map_values(|row: Seq<u8>| assigned_fingers(row)))
                },
            }
        }),
{
    let ghost numbers = rows@.map_values(|row: Vec<u8>| row@);
    let mut fingers: Vec<Vec<Option<Finger>>> = Vec::new();
    for r in 0..rows.len()
        invariant
            numbers == rows@.map_values(|row: Vec<u8>| row@),
            first_invalid(numbers.take(r as int)) is None,
            fingers@.len() == r,
            forall|i: int| 0 <= i < r ==> #[trigger] fingers@[i]@ == assigned_fingers(numbers[i]),
    {
        assert(numbers.take(r + 1).drop_last() =~= numbers.take(r as int));
        match fingers_of_row(&rows[r]) {
            Ok(row) => fingers.push(row),
            Err(value) => {
                proof {
                    lemma_rows_error_persists(numbers, r + 1);
                }
                return Err(FingerAssignmentError::InvalidFinger(value));
            },
        }
    }
    assert(numbers.take(rows.len() as int) =~= numbers);
    let ghost views = fingers@.map_values(|row: Vec<Option<Finger>>| row@);
    assert(views =~= numbers.map_values(|row: Seq<u8>| assigned_fingers(row)));
    assert forall|i: int| 0 <= i < views.len() implies #[trigger] views[i].len() == numbers[i].len() by {
        assert(views[i] == assigned_fingers(numbers[i]));
    }
    if rows.len() > 0 {
        assert(rows_have_length(views, views[0].len() as int) == rows_have_length(numbers, numbers[0].len() as int)) by {
            if rows_have_length(numbers, numbers[0].len() as int) {
                assert forall|i: int| 0 <= i < views.len() implies #[trigger] views[i].len() == views[0].len() by {
                    assert(views[i].len() == numbers[i].len());
                }
            }
            if rows_have_length(views, views[0].len() as int) {
                assert forall|i: int| 0 <= i < numbers.len() implies #[trigger] numbers[i].len() == numbers[0].len() by {
                    assert(views[i].len() == numbers[i].len());
                }
            }
        }
    }
    match Matrix::new(fingers) {
        Ok(m) => Ok(m),
        Err(error) => Err(FingerAssignmentError::Shape(error)),
    }
}

/// Why a position cannot be read.
#[derive(Debug, Clone, PartialEq, Eq)]
pub enum PosParseError {
    /// The text is not two values separated by a comma.
    Format,
    /// The row, as written, is no unsigned integer.
    InvalidRow(String),
    /// The column, as written, is no unsigned integer.
    InvalidColumn(String),
}

/// A position as written: trimmed, then without its opening and closing
/// brackets.
pub open spec fn position_body(s: Seq<char>) -> Seq<char> {
    strip_end(strip_start(trim(s), '['), ']')
}

/// The row part of a position's body: what lies before its comma, trimmed.
pub open spec fn row_part(body: Seq<char>) -> Seq<char> {
    trim(body.take(index_of_char(body, ',')))
}

/// The column part of a position's body: what lies after its comma, trimmed.
pub open spec fn column_part(body: Seq<char>) -> Seq<char> {
    trim(body.skip(index_of_char(body, ',') + 1))
}

/// `res` is what reading `s` as a position gives: the body between the
/// brackets must hold one comma, and the row and the column around it must be
/// unsigned integers.
pub open spec fn reads_pos(s: Seq<char>, res: Result<Pos, PosParseError>) -> bool {
    let body = position_body(s);
    if count_char(body, ',') != 1 {
        res == Err::<Pos, PosParseError>(PosParseError::Format)
    } else {
        match (parse_unsigned(row_part(body), usize::MAX as nat), parse_unsigned(column_part(body), usize::MAX as nat)) {
            (None, _) => res matches Err(PosParseError::InvalidRow(part)) && part@ == row_part(body),
            (Some(_), None) => res matches Err(PosParseError::InvalidColumn(part)) && part@ == column_part(body),
            (Some(r), Some(c)) => res == Ok::<Pos, PosParseError>(Pos { r: r as usize, c: c as usize }),
        }
    }
}

/// The body `digits ++ sep ++ digits` of a position holds one comma, after
/// the first numeral, and its parts read back as the two numbers.
proof fn lemma_body_reads_back(r: usize, c: usize, sep: Seq<char>)
    requires
        sep == seq![','] || sep == seq![',', ' '],
    ensures
        ({
            let body = decimal(r as nat) + sep + decimal(c as nat);
            &&& count_char(body, ',') == 1
            &&& row_part(body) == decimal(r as nat)
            &&& column_part(body) == decimal(c as nat)
        }),
{
    let dr = decimal(r as nat);
    let dc = decimal(c as nat);
    lemma_decimal(r as nat);
    lemma_decimal(c as nat);
    let body = dr + sep + dc;
    let k = dr.len() as int;
    assert forall|i: int| 0 <= i < body.len() && i != k implies #[trigger] body[i] != ',' by {
        if i < k {
            assert(body[i] == dr[i]);
            assert(is_digit(dr[i]));
        } else if i < k + sep.len() {
            assert(body[i] == sep[i - k]);
        } else {
            assert(body[i] == dc[i - k - sep.len()]);
            assert(is_digit(dc[i - k - sep.len()]));
        }
    }
    lemma_one_char(body, ',', k);
    assert(body.take(k) =~= dr);
    assert(is_digit(dr[0]) && is_digit(dr.last()));
    lemma_trim_solid(dr);
    assert(is_digit(dc[0]) && is_digit(dc.last()));
    lemma_trim_solid(dc);
    if sep.len() == 1 {
        assert(body.skip(k + 1) =~= dc);
    } else {
        let rest = body.skip(k + 1);
        assert(rest =~= seq![' '] + dc);
        assert(rest[0] == ' ');
        assert(rest.skip(1) =~= dc);
        assert(trim_start(dc) == dc);
        assert(trim_start(rest) == trim_start(dc));
    }
}

/// A position written `[r, c]`, or `r,c`, with the numbers in decimal (as
/// `{}` formats them) reads back as that position.
pub proof fn lemma_pos_reads_back(r: usize, c: usize)
    ensures
        reads_pos(seq!['['] + decimal(r as nat) + seq![',', ' '] + decimal(c as nat) + seq![']'], Ok(Pos { r, c })),
        reads_pos(decimal(r as nat) + seq![','] + decimal(c as nat), Ok(Pos { r, c })),
{
    let dr = decimal(r as nat);
    let dc = decimal(c as nat);
    lemma_decimal(r as nat);
    lemma_decimal(c as nat);
    lemma_decimal_parses_back(r as nat, usize::MAX as nat);
    lemma_decimal_parses_back(c as nat, usize::MAX as nat);
    assert(is_digit(dr[0]) && is_digit(dc.last()));

    let plain = dr + seq![','] + dc;
    lemma_body_reads_back(r, c, seq![',']);
    assert(plain[0] == dr[0] && plain.last() == dc.last());
    lemma_trim_solid(plain);
    assert(strip_start(plain, '[') == plain);
    assert(strip_end(plain, ']') == plain);
    assert(position_body(plain) == plain);

    let body = dr + seq![',', ' '] + dc;
    lemma_body_reads_back(r, c, seq![',', ' ']);
    let bracketed = seq!['['] + dr + seq![',', ' '] + dc + seq![']'];
    assert(bracketed[0] == '[' && bracketed.last() == ']');
    lemma_trim_solid(bracketed);
    assert(bracketed.skip(1) =~= body + seq![']']);
    assert((body + seq![']'])[0] == dr[0]);
    assert(strip_start(body + seq![']'], '[') == body + seq![']']);
    assert(strip_start(bracketed, '[') == body + seq![']']);
    assert((body + seq![']']).drop_last() =~= body);
    assert(body.last() == dc.last());
    assert(strip_end(body, ']') == body);
    assert(strip_end(body + seq![']'], ']') == body);
    assert(position_body(bracketed) == body);
}

/// Whether `chars[from..to]` spells `word`.
fn spells(chars: &Vec<char>, from: usize, to: usize, word: &[char]) -> (b: bool)
    requires
        from <= to <= chars@.len(),
    ensures
        b == (chars@.subrange(from as int, to as int) == word@),
{
    if to - from != word.len() {
        return false;
    }
    let mut i: usize = 0;
    while i < word.len()
        invariant
            from <= to <= chars@.len(),
            to - from == word@.len(),
            i <= word@.len(),
            forall|j: int| 0 <= j < i ==> chars@[from + j] == word@[j],
        decreases word.len() - i,
    {
        if chars[from + i] != word[i] {
            assert(chars@.subrange(from as int, to as int)[i as int] != word@[i as int]);
            return false;
        }
        i = i + 1;
    }
    assert(chars@.subrange(from as int, to as int) =~= word@);
    true
}

impl Pos {
    /// Reads a position written `[r, c]` (the brackets may be left out,
    /// whitespace is ignored around the text and each value).
    pub fn parse(s: &str) -> (res: Result<Pos, PosParseError>)
        ensures
            reads_pos(s@, res),
    {
        let chars = chars_of(s);
        let (lo, hi) = trim_range(&chars, 0, chars.len());
        let (lo, hi) = strip_range(&chars, lo, hi, '[', ']');
        let ghost body = chars@.subrange(lo as int, hi as int);
        assert(chars@.subrange(0, chars.len() as int) =~= s@);
        let (commas, first) = find_char(&chars, lo, hi, ',');
        if commas != 1 {
            return Err(PosParseError::Format);
        }
        proof {
            lemma_index_of_char(body, ',');
        }
        let comma = first.unwrap();
        assert(body.take(comma - lo) =~= chars@.subrange(lo as int, comma as int));
        assert(body.skip(comma - lo + 1) =~= chars@.subrange(comma + 1, hi as int));
        let (row_lo, row_hi) = trim_range(&chars, lo, comma);
        let (column_lo, column_hi) = trim_range(&chars, comma + 1, hi);
        let r = match parse_unsigned_range(&chars, row_lo, row_hi, usize::MAX) {
            Some(r) => r,
            None => return Err(PosParseError::InvalidRow(string_of(&chars, row_lo, row_hi))),
        };
        let c = match parse_unsigned_range(&chars, column_lo, column_hi, usize::MAX) {
            Some(c) => c,
            None => return Err(PosParseError::InvalidColumn(string_of(&chars, column_lo, column_hi))),
        };
        Ok(Pos::new(r, c))
    }
}

impl std::str::FromStr for Pos {
    type Err = PosParseError;

    fn from_str(s: &str) -> (res: Result<Pos, PosParseError>)
        ensures
            reads_pos(s@, res),
    {
        Pos::parse(s)
    }
}

/// Why a finger cannot be read.
#[derive(Debug, Clone, PartialEq, Eq)]
pub enum FingerParseError {
    /// A number that is no finger's.
    InvalidNumber(u8),
    /// Neither a number nor `hand_kind`.
    Format,
    /// The hand, as written, is neither `left` nor `right`.
    UnknownHand(String),
    /// The kind, as written, is no finger kind.
    UnknownKind(String),
}

/// The hand with the given name.
pub open spec fn hand_named(name: Seq<char>) -> Option<Hand> {
    if name == seq!['l', 'e', 'f', 't'] {
        Some(Hand::Left)
    } else if name == seq!['r', 'i', 'g', 'h', 't'] {
        Some(Hand::Right)
    } else {
        None
    }
}

/// The finger kind with the given name.
pub open spec fn kind_named(name: Seq<char>) -> Option<FingerKind> {
    if name == seq!['p', 'i', 'n', 'k', 'y'] {
        Some(FingerKind::Pinky)
    } else if name == seq!['r', 'i', 'n', 'g'] {
        Some(FingerKind::Ring)
    } else if name == seq!['m', 'i', 'd', 'd', 'l', 'e'] {
        Some(FingerKind::Middle)
    } else if name == seq!['i', 'n', 'd', 'e', 'x'] {
        Some(FingerKind::Index)
    } else if name == seq!['t', 'h', 'u', 'm', 'b'] {
        Some(FingerKind::Thumb)
    } else {
        None
    }
}

/// `res` is what reading `s` as a finger gives: a finger number, or a hand
/// and a finger kind joined by `_`.
pub open spec fn reads_finger(s: Seq<char>, res: Result<Finger, FingerParseError>) -> bool {
    match parse_unsigned(trim(s), 255) {
        Some(v) => res == match finger_of_number(v as u8) {
            Some(f) => Ok::<Finger, FingerParseError>(f),
            None => Err::<Finger, FingerParseError>(FingerParseError::InvalidNumber(v as u8)),
        },
        None => if index_of_char(s, '_') < 0 {
            res == Err::<Finger, FingerParseError>(FingerParseError::Format)
        } else {
            let hand = trim(s.take(index_of_char(s, '_')));
            let kind = trim(s.skip(index_of_char(s, '_') + 1));
            match (hand_named(hand), kind_named(kind)) {
                (None, _) => res matches Err(FingerParseError::UnknownHand(h)) && h@ == hand,
                (Some(_), None) => res matches Err(FingerParseError::UnknownKind(k)) && k@ == kind,
                (Some(h), Some(k)) => res == Ok::<Finger, FingerParseError>(Finger { hand: h, kind: k }),
            }
        },
    }
}

/// The hand named by `chars[from..to]`.
fn hand_of(chars: &Vec<char>, from: usize, to: usize) -> (hand: Option<Hand>)
    requires
        from <= to <= chars@.len(),
    ensures
        hand == hand_named(chars@.subrange(from as int, to as int)),
{
    let left = ['l', 'e', 'f', 't'];
    let right = ['r', 'i', 'g', 'h', 't'];
    assert(left@ =~= seq!['l', 'e', 'f', 't']);
    assert(right@ =~= seq!['r', 'i', 'g', 'h', 't']);
    if spells(chars, from, to, &left) {
        Some(Hand::Left)
    } else if spells(chars, from, to, &right) {
        Some(Hand::Right)
    } else {
        None
    }
}

/// The finger kind named by `chars[from..to]`.
fn kind_of(chars: &Vec<char>, from: usize, to: usize) -> (kind: Option<FingerKind>)
    requires
        from <= to <= chars@.len(),
    ensures
        kind == kind_named(chars@.subrange(from as int, to as int)),
{
    let pinky = ['p', 'i', 'n', 'k', 'y'];
    let ring = ['r', 'i', 'n', 'g'];
    let middle = ['m', 'i', 'd', 'd', 'l', 'e'];
    let index = ['i', 'n', 'd', 'e', 'x'];
    let thumb = ['t', 'h', 'u', 'm', 'b'];
    assert(pinky@ =~= seq!['p', 'i', 'n', 'k', 'y']);
    assert(ring@ =~= seq!['r', 'i', 'n', 'g']);
    assert(middle@ =~= seq!['m', 'i', 'd', 'd', 'l', 'e']);
    assert(index@ =~= seq!['i', 'n', 'd', 'e', 'x']);
    assert(thumb@ =~= seq!['t', 'h', 'u', 'm', 'b']);
    if spells(chars, from, to, &pinky) {
        Some(FingerKind::Pinky)
    } else if spells(chars, from, to, &ring) {
        Some(FingerKind::Ring)
    } else if spells(chars, from, to, &middle) {
        Some(FingerKind::Middle)
    } else if spells(chars, from, to, &index) {
        Some(FingerKind::Index)
    } else if spells(chars, from, to, &thumb) {
        Some(FingerKind::Thumb)
    } else {
        None
    }
}

impl Finger {
    /// Reads a finger written as its number (1 to 10) or as `hand_kind`,
    /// such as `left_index`; whitespace around the text and each name is
    /// ignored.
    pub fn parse(s: &str) -> (res: Result<Finger, FingerParseError>)
        ensures
            reads_finger(s@, res),
    {
        let chars = chars_of(s);
        let n = chars.len();
        assert(chars@.subrange(0, n as int) =~= s@);
        let (lo, hi) = trim_range(&chars, 0, n);
        if let Some(v) = parse_unsigned_range(&chars, lo, hi, 255) {
            let number = v as u8;
            return match Finger::try_from(number) {
                Ok(finger) => Ok(finger),
                Err(_) => Err(FingerParseError::InvalidNumber(number)),
            };
        }
        let (_, first) = find_char(&chars, 0, n, '_');
        let underscore = match first {
            Some(i) => i,
            None => return Err(FingerParseError::Format),
        };
        assert(s@.take(underscore as int) =~= chars@.subrange(0, underscore as int));
        assert(s@.skip(underscore + 1) =~= chars@.subrange(underscore + 1, n as int));
        let (hand_lo, hand_hi) = trim_range(&chars, 0, underscore);
        let (kind_lo, kind_hi) = trim_range(&chars, underscore + 1, n);
        let hand = match hand_of(&chars, hand_lo, hand_hi) {
            Some(hand) => hand,
            None => return Err(FingerParseError::UnknownHand(string_of(&chars, hand_lo, hand_hi))),
        };
        let kind = match kind_of(&chars, kind_lo, kind_hi) {
            Some(kind) => kind,
            None => return Err(FingerParseError::UnknownKind(string_of(&chars, kind_lo, kind_hi))),
        };
        Ok(Finger::new(hand, kind))
    }
}

impl std::str::FromStr for Finger {
    type Err = FingerParseError;

    fn from_str(s: &str) -> (res: Result<Finger, FingerParseError>)
        ensures
            reads_finger(s@, res),
    {
        Finger::parse(s)
    }
}

/// The finger kinds as configuration files name them.
#[derive(Debug, Clone, Copy, PartialEq, Eq, Structural)]
pub enum FingerKindSource {
    Pinky,
    Ring,
    Middle,
    Index,
    Thumb,
}

/// The finger kind that a configuration name stands for.
pub open spec fn kind_of_source(source: FingerKindSource) -> FingerKind {
    match source {
        FingerKindSource::Pinky => FingerKind::Pinky,
        FingerKindSource::Ring => FingerKind::Ring,
        FingerKindSource::Middle => FingerKind::Middle,
        FingerKindSource::Index => FingerKind::Index,
        FingerKindSource::Thumb => FingerKind::Thumb,
    }
}

impl From<FingerKindSource> for FingerKind {
    fn from(source: FingerKindSource) -> (kind: FingerKind) {
        match source {
            FingerKindSource::Pinky => FingerKind::Pinky,
            FingerKindSource::Ring => FingerKind::Ring,
            FingerKindSource::Middle => FingerKind::Middle,
            FingerKindSource::Index => FingerKind::Index,
            FingerKindSource::Thumb => FingerKind::Thumb,
        }
    }
}

impl vstd::std_specs::convert::FromSpecImpl<FingerKindSource> for FingerKind {
    open spec fn obeys_from_spec() -> bool {
        true
    }

    open spec fn from_spec(source: FingerKindSource) -> FingerKind {
        kind_of_source(source)
    }
}

/// Whether the keys around a trigram's middle key are typed by the same hand
/// as it, as configuration files name it.
#[derive(Debug, Clone, Copy, PartialEq, Eq, Structural)]
pub enum HandednessSource {
    Same,
    Alternate,
}

impl HandednessSource {
    /// The `same_hand` flag of a trigram kind.
    pub fn same_hand(&self) -> (b: bool)
        ensures
            b == (*self is Same),
    {
        match self {
            HandednessSource::Same => true,
            HandednessSource::Alternate => false,
        }
    }
}

/// The strength of a redirect, as configuration files name it.
#[derive(Debug, Clone, Copy, PartialEq, Eq, Structural)]
pub enum RedirectStrengthSource {
    Weak,
    Strong,
}

impl RedirectStrengthSource {
    /// The `weak` flag of a redirect.
    pub fn weak(&self) -> (b: bool)
        ensures
            b == (*self is Weak),
    {
        match self {
            RedirectStrengthSource::Weak => true,
            RedirectStrengthSource::Strong => false,
        }
    }
}

/// The direction of a roll, as configuration files name it.
#[derive(Debug, Clone, Copy, PartialEq, Eq, Structural)]
pub enum RollDirectionSource {
    In,
    Out,
}

impl RollDirectionSource {
    /// The `inward` flag of a roll.
    pub fn inward(&self) -> (b: bool)
        ensures
            b == (*self is In),
    {
        match self {
            RollDirectionSource::In => true,
            RollDirectionSource::Out => false,
        }
    }
}

} // verus!
