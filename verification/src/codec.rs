//! The puzzle codec: text to board and back. A puzzle is 81 meaningful
//! characters — digits for fixed cells, '.', '_' or '0' for unknown cells —
//! with whitespace between groups ignored.

use crate::board::{board_wf, cell_wf, Board, Cell, ALL_DIGITS};
use vstd::prelude::*;

verus! {

/// Relies on String::push: appends exactly the given character.
pub assume_specification[ String::push ](s: &mut String, c: char)
    ensures
        final(s)@ == old(s)@.push(c),
;

#[derive(Clone, Copy, Debug, PartialEq, Eq, Structural)]
pub enum ParseError {
    /// The meaningful character count is not 81.
    WrongLength,
    /// A character that is neither digit, placeholder nor whitespace.
    InvalidChar,
}

pub open spec fn is_ws(c: char) -> bool {
    c == ' ' || c == '\t' || c == '\n' || c == '\r'
}

/// The digit a character stands for; 0 when it is no digit character.
pub open spec fn digit_of_char(c: char) -> int {
    if c == '1' {
        1
    } else if c == '2' {
        2
    } else if c == '3' {
        3
    } else if c == '4' {
        4
    } else if c == '5' {
        5
    } else if c == '6' {
        6
    } else if c == '7' {
        7
    } else if c == '8' {
        8
    } else if c == '9' {
        9
    } else {
        0
    }
}

pub open spec fn is_digit_char(c: char) -> bool {
    digit_of_char(c) != 0
}

pub open spec fn is_blank_char(c: char) -> bool {
    c == '.' || c == '_' || c == '0'
}

pub open spec fn valid_char(c: char) -> bool {
    is_ws(c) || is_digit_char(c) || is_blank_char(c)
}

/// The character that renders a digit (0 renders the blank placeholder '0').
pub open spec fn digit_char(d: int) -> char {
    if d == 1 {
        '1'
    } else if d == 2 {
        '2'
    } else if d == 3 {
        '3'
    } else if d == 4 {
        '4'
    } else if d == 5 {
        '5'
    } else if d == 6 {
        '6'
    } else if d == 7 {
        '7'
    } else if d == 8 {
        '8'
    } else if d == 9 {
        '9'
    } else {
        '0'
    }
}

/// The text with its whitespace dropped.
pub open spec fn meaningful(s: Seq<char>) -> Seq<char>
    decreases s.len(),
{
    if s.len() == 0 {
        Seq::empty()
    } else {
        let rest = meaningful(s.drop_last());
        if is_ws(s.last()) {
            rest
        } else {
            rest.push(s.last())
        }
    }
}

pub open spec fn cell_of_char(c: char) -> Cell {
    if is_digit_char(c) {
        Cell::Fixed(digit_of_char(c) as u8)
    } else {
        Cell::Candidates(ALL_DIGITS)
    }
}

pub open spec fn char_of_cell(c: Cell) -> char {
    match c {
        Cell::Fixed(d) => digit_char(d as int),
        Cell::Candidates(_) => '.',
    }
}

/// What decoding a text yields: `InvalidChar` as soon as any character is
/// foreign to the format, else `WrongLength` unless exactly 81 meaningful
/// characters remain, else the 81 cells they spell.
pub open spec fn spec_decode(s: Seq<char>) -> Result<Seq<Cell>, ParseError> {
    if exists|k: int| 0 <= k < s.len() && !valid_char(#[trigger] s[k]) {
        Err(ParseError::InvalidChar)
    } else if meaningful(s).len() != 81 {
        Err(ParseError::WrongLength)
    } else {
        Ok(Seq::new(81, |i: int| cell_of_char(meaningful(s)[i])))
    }
}

pub open spec fn spec_encode(s: Seq<Cell>) -> Seq<char> {
    Seq::new(s.len(), |i: int| char_of_cell(s[i]))
}

fn ws_char(c: char) -> (r: bool)
    ensures
        r == is_ws(c),
{
    c == ' ' || c == '\t' || c == '\n' || c == '\r'
}

fn char_digit(c: char) -> (d: u8)
    ensures
        d == digit_of_char(c),
{
    if c == '1' {
        1
    } else if c == '2' {
        2
    } else if c == '3' {
        3
    } else if c == '4' {
        4
    } else if c == '5' {
        5
    } else if c == '6' {
        6
    } else if c == '7' {
        7
    } else if c == '8' {
        8
    } else if c == '9' {
        9
    } else {
        0
    }
}

fn digit_to_char(d: u8) -> (c: char)
    requires
        d <= 9,
    ensures
        c == digit_char(d as int),
{
    if d == 1 {
        '1'
    } else if d == 2 {
        '2'
    } else if d == 3 {
        '3'
    } else if d == 4 {
        '4'
    } else if d == 5 {
        '5'
    } else if d == 6 {
        '6'
    } else if d == 7 {
        '7'
    } else if d == 8 {
        '8'
    } else if d == 9 {
        '9'
    } else {
        '0'
    }
}

fn blank_char(c: char) -> (r: bool)
    ensures
        r == is_blank_char(c),
{
    c == '.' || c == '_' || c == '0'
}

/// Parses puzzle text into a board, exactly as `spec_decode` lays down.
#[verifier::loop_isolation(false)]
pub fn decode(text: &str) -> (r: Result<Board, ParseError>)
    ensures
        (match r {
            Ok(b) => b.wf() && spec_decode(text@) == Ok::<Seq<Cell>, ParseError>(b@),
            Err(e) => spec_decode(text@) == Err::<Seq<Cell>, ParseError>(e),
        }),
{
    let n = text.unicode_len();
    let mut i: usize = 0;
    while i < n
        invariant
            i <= n,
            forall|k: int| 0 <= k < i ==> valid_char(#[trigger] text@[k]),
        decreases n - i,
    {
        let c = text.get_char(i);
        if !(ws_char(c) || char_digit(c) != 0 || blank_char(c)) {
            proof {
                assert(!valid_char(text@[i as int]));
            }
            return Err(ParseError::InvalidChar);
        }
        i = i + 1;
    }
    proof {
        assert(!(exists|k: int| 0 <= k < text@.len() && !valid_char(#[trigger] text@[k])));
    }
    let mut cells: Vec<Cell> = Vec::new();
    let mut i: usize = 0;
    while i < n
        invariant
            i <= n,
            cells@.len() == meaningful(text@.subrange(0, i as int)).len(),
            forall|k: int|
                0 <= k < cells@.len() ==> #[trigger] cells@[k] == cell_of_char(
                    meaningful(text@.subrange(0, i as int))[k],
                ),
            forall|k: int| 0 <= k < cells@.len() ==> cell_wf(#[trigger] cells@[k]),
        decreases n - i,
    {
        let c = text.get_char(i);
        proof {
            assert(text@.subrange(0, i as int + 1).drop_last() =~= text@.subrange(0, i as int));
            assert(text@.subrange(0, i as int + 1).last() == text@[i as int]);
        }
        if !ws_char(c) {
            let d = char_digit(c);
            if d != 0 {
                cells.push(Cell::Fixed(d));
            } else {
                cells.push(Cell::Candidates(ALL_DIGITS));
            }
            proof {
                assert(cells@.last() == cell_of_char(text@[i as int]));
            }
        }
        i = i + 1;
    }
    proof {
        assert(text@.subrange(0, n as int) =~= text@);
    }
    if cells.len() != 81 {
        return Err(ParseError::WrongLength);
    }
    proof {
        assert(Seq::new(81, |k: int| cell_of_char(meaningful(text@)[k])) =~= cells@);
        assert(board_wf(cells@));
    }
    Ok(Board::from_cells(cells))
}

/// Renders a board as 81 characters, one per cell, unknown cells as '.'.
#[verifier::loop_isolation(false)]
pub fn encode(b: &Board) -> (r: String)
    requires
        b.wf(),
    ensures
        r@ == spec_encode(b@),
{
    let mut out = String::new();
    let mut i: usize = 0;
    while i < 81
        invariant
            i <= 81,
            out@.len() == i,
            forall|k: int| 0 <= k < i ==> out@[k] == char_of_cell(b@[k]),
        decreases 81 - i,
    {
        let c = match b.get(i) {
            Cell::Fixed(d) => digit_to_char(d),
            Cell::Candidates(_) => '.',
        };
        out.push(c);
        i = i + 1;
    }
    proof {
        assert(out@ =~= spec_encode(b@));
    }
    out
}

/// Parses one puzzle string (the name the solver's callers use).
pub fn from_string(puzzle: &str) -> (r: Result<Board, ParseError>)
    ensures
        (match r {
            Ok(b) => b.wf() && spec_decode(puzzle@) == Ok::<Seq<Cell>, ParseError>(b@),
            Err(e) => spec_decode(puzzle@) == Err::<Seq<Cell>, ParseError>(e),
        }),
{
    decode(puzzle)
}

/// What the text reads after a guess: the character at `idx` replaced by the
/// digit `guess` (0 blanks the cell); an index beyond the text changes
/// nothing.
pub open spec fn spec_updated(s: Seq<char>, idx: int, guess: int) -> Seq<char> {
    if idx < s.len() {
        s.update(idx, digit_char(guess))
    } else {
        s
    }
}

/// Replaces the character at `idx` with the digit `guess` (0 blanks the
/// cell) and decodes the result.
#[verifier::loop_isolation(false)]
pub fn update_sudoku(sudoku: &str, idx: usize, guess: u8) -> (r: Result<Board, ParseError>)
    requires
        guess <= 9,
    ensures
        (match r {
            Ok(b) => b.wf() && spec_decode(spec_updated(sudoku@, idx as int, guess as int))
                == Ok::<Seq<Cell>, ParseError>(b@),
            Err(e) => spec_decode(spec_updated(sudoku@, idx as int, guess as int)) == Err::<
                Seq<Cell>,
                ParseError,
            >(e),
        }),
{
    let ghost target = spec_updated(sudoku@, idx as int, guess as int);
    let n = sudoku.unicode_len();
    let mut out = String::new();
    let mut i: usize = 0;
    while i < n
        invariant
            i <= n,
            out@.len() == i,
            forall|k: int| 0 <= k < i ==> out@[k] == target[k],
        decreases n - i,
    {
        let c = if i == idx {
            digit_to_char(guess)
        } else {
            sudoku.get_char(i)
        };
        out.push(c);
        i = i + 1;
    }
    proof {
        assert(out@ =~= target);
    }
    decode(out.as_str())
}

// ------------------------------------------------------------------
// The codec round trip.
// ------------------------------------------------------------------

/// A board in puzzle form: every cell either fixed or fully unknown. These
/// are the boards the codec's text format can express losslessly; a cell
/// with a strictly narrowed candidate set (say a lone candidate 5, after
/// propagation) renders as '.' and decodes back to all nine candidates.
pub open spec fn puzzle_form(s: Seq<Cell>) -> bool {
    forall|i: int|
        0 <= i < s.len() ==> (#[trigger] s[i]) is Fixed || s[i] == Cell::Candidates(ALL_DIGITS)
}

proof fn lemma_meaningful_no_ws(s: Seq<char>)
    requires
        forall|k: int| 0 <= k < s.len() ==> !is_ws(#[trigger] s[k]),
    ensures
        meaningful(s) == s,
    decreases s.len(),
{
    if s.len() == 0 {
        assert(meaningful(s) =~= s);
    } else {
        lemma_meaningful_no_ws(s.drop_last());
        assert(meaningful(s) =~= s);
    }
}

/// Law: decoding an encoded board gives the board back, for every board in
/// puzzle form — full grids and carved puzzles alike.
pub proof fn lemma_decode_encode_round_trip(s: Seq<Cell>)
    requires
        board_wf(s),
        puzzle_form(s),
    ensures
        spec_decode(spec_encode(s)) == Ok::<Seq<Cell>, ParseError>(s),
{
    let e = spec_encode(s);
    assert forall|k: int| 0 <= k < e.len() implies valid_char(#[trigger] e[k]) && !is_ws(e[k]) by {
        assert(cell_wf(s[k]));
        assert(e[k] == char_of_cell(s[k]));
    }
    lemma_meaningful_no_ws(e);
    assert(meaningful(e).len() == 81);
    assert(!(exists|k: int| 0 <= k < e.len() && !valid_char(#[trigger] e[k])));
    let dec = Seq::new(81, |i: int| cell_of_char(meaningful(e)[i]));
    assert forall|i: int| 0 <= i < 81 implies dec[i] == s[i] by {
        assert(cell_wf(s[i]));
        assert(e[i] == char_of_cell(s[i]));
    }
    assert(dec =~= s);
}

} // verus!
