//! Puzzles as their collaborators consume them: encoded text pairs, and the
//! stored row shape with an id and a clue count.

use crate::board::Cell;
use crate::codec::{encode, lemma_decode_encode_round_trip, puzzle_form, spec_decode, spec_encode};
use crate::generate::{generate_filled, generate_unique_from};
use crate::model::{completion_of, solved};
use crate::rng::Rng;
use vstd::prelude::*;

verus! {

/// A generated puzzle and its unique solution, both in text form.
pub struct Puzzle {
    pub puzzle: String,
    pub solution: String,
}

/// A stored puzzle as the persistence and API layers exchange it.
pub struct PuzzleRow {
    pub id: String,
    pub puzzle: String,
    pub solution: String,
    pub num_clues: i16,
}

/// Relies on ulid::Ulid::generate and ulid::Ulid::to_string: a fresh ULID in
/// its canonical 26-character text form. The value depends on the clock and
/// on randomness, so only the length is stated.
#[verifier::external_body]
fn fresh_ulid() -> (r: String)
    ensures
        r@.len() == 26,
{
    ulid::Ulid::generate().to_string()
}

/// How many characters of a puzzle text are clues: all but the '.'
/// placeholder.
pub open spec fn clue_count(s: Seq<char>) -> int
    decreases s.len(),
{
    if s.len() == 0 {
        0
    } else {
        clue_count(s.drop_last()) + (if s.last() == '.' {
            0int
        } else {
            1int
        })
    }
}

/// Builds the stored row for a puzzle/solution text pair: a fresh ULID id
/// and the clue count of the puzzle text.
#[verifier::loop_isolation(false)]
pub fn puzzle_from_sudoku(puzzle: String, solution: String) -> (r: PuzzleRow)
    requires
        puzzle@.len() < 0x8000,
    ensures
        r.puzzle == puzzle,
        r.solution == solution,
        r.num_clues == clue_count(puzzle@),
        r.id@.len() == 26,
{
    let n = puzzle.as_str().unicode_len();
    let mut clues: i16 = 0;
    let mut i: usize = 0;
    while i < n
        invariant
            i <= n,
            0 <= clues <= i,
            clues == clue_count(puzzle@.subrange(0, i as int)),
        decreases n - i,
    {
        let c = puzzle.as_str().get_char(i);
        proof {
            assert(puzzle@.subrange(0, i as int + 1).drop_last() =~= puzzle@.subrange(0, i as int));
            assert(puzzle@.subrange(0, i as int + 1).last() == puzzle@[i as int]);
        }
        if c != '.' {
            clues = clues + 1;
        }
        i = i + 1;
    }
    proof {
        assert(puzzle@.subrange(0, n as int) =~= puzzle@);
    }
    PuzzleRow { id: fresh_ulid(), puzzle, solution, num_clues: clues }
}

/// Generates a fresh puzzle: a filled board, then a locally-irreducible
/// carve of it. Both fields are the canonical 81-character encodings of
/// their boards; the solution text is the encoding of the one and only
/// completion of what the puzzle text decodes to.
pub fn generate_puzzle(rng: &mut Rng) -> (p: Puzzle)
    ensures
        ({
            let sol = spec_decode(p.solution@);
            let puz = spec_decode(p.puzzle@);
            &&& sol matches Ok(sol_cells)
            &&& puz matches Ok(puz_cells)
            &&& p.solution@ == spec_encode(sol_cells)
            &&& p.puzzle@ == spec_encode(puz_cells)
            &&& solved(sol_cells)
            &&& completion_of(sol_cells, puz_cells)
            &&& (forall|x: Seq<Cell>| #[trigger] completion_of(x, puz_cells) ==> x == sol_cells)
        }),
{
    let filled = generate_filled(rng);
    let carved = generate_unique_from(&filled, rng);
    let solution = encode(&filled);
    let puzzle = encode(&carved);
    proof {
        assert(puzzle_form(filled@));
        lemma_decode_encode_round_trip(filled@);
        lemma_decode_encode_round_trip(carved@);
    }
    Puzzle { puzzle, solution }
}

} // verus!
