//! The grid representation: cells, the 81-cell board, and the geometry of
//! rows, columns, boxes and peers.

use vstd::prelude::*;

verus! {

use vstd::pervasive::VecAdditionalExecFns;

/// Bitmask over digits 1..=9: bit `d - 1` stands for digit `d`.
pub const ALL_DIGITS: u16 = 0x1ff;

/// One cell of the grid: either a certain digit, or the set of digits not yet
/// excluded for it.
#[derive(Clone, Copy, Debug, PartialEq, Eq, Structural)]
pub enum Cell {
    Fixed(u8),
    Candidates(u16),
}

/// Digit `d` is a member of candidate mask `m`.
pub open spec fn has_digit(m: u16, d: int) -> bool {
    1 <= d <= 9 && nth_bit(m, (d - 1) as u16)
}

pub open spec fn nth_bit(m: u16, k: u16) -> bool {
    (m >> k) & 1 == 1
}

pub open spec fn cell_wf(c: Cell) -> bool {
    match c {
        Cell::Fixed(d) => 1 <= d <= 9,
        Cell::Candidates(m) => m < 0x200,
    }
}

/// The digit of a fixed cell (0 for an unknown cell).
pub open spec fn cell_digit(c: Cell) -> int {
    match c {
        Cell::Fixed(d) => d as int,
        Cell::Candidates(_) => 0,
    }
}

/// The candidate mask of an unknown cell (0 for a fixed cell).
pub open spec fn cell_mask(c: Cell) -> u16 {
    match c {
        Cell::Fixed(_) => 0,
        Cell::Candidates(m) => m,
    }
}

/// Exec membership test for a candidate mask.
pub fn digit_in_mask(m: u16, d: u8) -> (r: bool)
    requires
        1 <= d <= 9,
    ensures
        r == has_digit(m, d as int),
{
    ((m >> ((d - 1) as u16)) & 1) == 1
}

/// Removes digit `d` from mask `m`.
pub fn mask_remove(m: u16, d: u8) -> (r: u16)
    requires
        1 <= d <= 9,
        m < 0x200,
    ensures
        r < 0x200,
        forall|d2: int| #[trigger] has_digit(r, d2) <==> has_digit(m, d2) && d2 != d as int,
{
    let s: u16 = (d - 1) as u16;
    let r: u16 = m & !(1u16 << s);
    proof {
        assert(r < 0x200 && ((r >> s) & 1 != 1)) by (bit_vector)
            requires
                m < 0x200,
                s < 9,
                r == m & !(1u16 << s),
        ;
        assert forall|d2: int| (#[trigger] has_digit(r, d2) <==> has_digit(m, d2) && d2 != d
            as int) by {
            if 1 <= d2 <= 9 && d2 != d as int {
                let s2 = (d2 - 1) as u16;
                assert((r >> s2) & 1 == (m >> s2) & 1) by (bit_vector)
                    requires
                        s2 < 9,
                        s < 9,
                        s2 != s,
                        r == m & !(1u16 << s),
                ;
            }
        }
    }
    r
}

/// The number of digits below `d` that mask `m` holds; `mask_count(m, 10)`
/// is the size of the whole candidate set.
pub open spec fn mask_count(m: u16, d: int) -> nat
    decreases d,
{
    if d <= 1 {
        0
    } else {
        mask_count(m, d - 1) + (if has_digit(m, d - 1) {
            1nat
        } else {
            0nat
        })
    }
}

/// The digits of a mask, in ascending order.
pub fn mask_digits(m: u16) -> (v: Vec<u8>)
    ensures
        forall|k: int| 0 <= k < v@.len() ==> 1 <= #[trigger] v@[k] <= 9 && has_digit(m, v@[k] as int),
        forall|d: int| #[trigger] has_digit(m, d) ==> v@.contains(d as u8),
        forall|k1: int, k2: int| 0 <= k1 < k2 < v@.len() ==> v@[k1] < v@[k2],
        v@.len() == mask_count(m, 10),
{
    let mut v: Vec<u8> = Vec::new();
    let mut d: u8 = 1;
    while d <= 9
        invariant
            1 <= d <= 10,
            forall|k: int|
                0 <= k < v@.len() ==> 1 <= #[trigger] v@[k] < d && has_digit(m, v@[k] as int),
            forall|d2: int| 1 <= d2 < d && #[trigger] has_digit(m, d2) ==> v@.contains(d2 as u8),
            forall|k1: int, k2: int| 0 <= k1 < k2 < v@.len() ==> v@[k1] < v@[k2],
            v@.len() == mask_count(m, d as int),
        decreases 10 - d,
    {
        if digit_in_mask(m, d) {
            let ghost old_v = v@;
            v.push(d);
            proof {
                assert(v@[v@.len() - 1] == d);
                assert forall|d2: int| 1 <= d2 < d + 1 && #[trigger] has_digit(m, d2) implies v@
                    .contains(d2 as u8) by {
                    if d2 < d {
                        let k = choose|k: int| 0 <= k < old_v.len() && old_v[k] == d2 as u8;
                        assert(v@[k] == d2 as u8);
                    } else {
                        assert(v@[v@.len() - 1] == d2 as u8);
                    }
                }
            }
        }
        d = d + 1;
    }
    proof {
        assert forall|d2: int| #[trigger] has_digit(m, d2) implies v@.contains(d2 as u8) by {
            assert(1 <= d2 <= 9);
        }
    }
    v
}

// ------------------------------------------------------------------
// Geometry: cells are indexed 0..81 in row-major order.
// ------------------------------------------------------------------

pub open spec fn row_of(i: int) -> int {
    i / 9
}

pub open spec fn col_of(i: int) -> int {
    i % 9
}

pub open spec fn box_of(i: int) -> int {
    (i / 27) * 3 + (i % 9) / 3
}

/// Two distinct cells see each other: same row, column or box.
pub open spec fn is_peer(i: int, j: int) -> bool {
    0 <= i < 81 && 0 <= j < 81 && i != j && (row_of(i) == row_of(j) || col_of(i) == col_of(j)
        || box_of(i) == box_of(j))
}

/// Exec peer test.
pub fn peers(i: usize, j: usize) -> (r: bool)
    requires
        i < 81,
        j < 81,
    ensures
        r == is_peer(i as int, j as int),
{
    i != j && (i / 9 == j / 9 || i % 9 == j % 9 || (i / 27 == j / 27 && (i % 9) / 3 == (j % 9)
        / 3))
}

// ------------------------------------------------------------------
// The board.
// ------------------------------------------------------------------

/// A 9x9 grid: 81 cells in row-major order. Values are only built by this
/// library's own constructors, which keep every cell well formed.
pub struct Board {
    cells: Vec<Cell>,
}

pub open spec fn board_wf(s: Seq<Cell>) -> bool {
    s.len() == 81 && (forall|i: int| 0 <= i < 81 ==> cell_wf(#[trigger] s[i]))
}

impl View for Board {
    type V = Seq<Cell>;

    closed spec fn view(&self) -> Seq<Cell> {
        self.cells@
    }
}

impl Board {
    pub open spec fn wf(&self) -> bool {
        board_wf(self@)
    }

    /// The all-unknown board: every cell may still hold any digit.
    pub fn empty() -> (r: Board)
        ensures
            r.wf(),
            forall|i: int| 0 <= i < 81 ==> r@[i] == Cell::Candidates(ALL_DIGITS),
    {
        let mut cells: Vec<Cell> = Vec::new();
        let mut n: usize = 0;
        while n < 81
            invariant
                n <= 81,
                cells@.len() == n,
                forall|i: int| 0 <= i < n ==> cells@[i] == Cell::Candidates(ALL_DIGITS),
            decreases 81 - n,
        {
            cells.push(Cell::Candidates(ALL_DIGITS));
            n = n + 1;
        }
        Board { cells }
    }

    pub fn get(&self, i: usize) -> (c: Cell)
        requires
            self.wf(),
            i < 81,
        ensures
            c == self@[i as int],
    {
        self.cells[i]
    }

    pub(crate) fn set_cell(&mut self, i: usize, c: Cell)
        requires
            old(self).wf(),
            i < 81,
            cell_wf(c),
        ensures
            final(self).wf(),
            final(self)@ == old(self)@.update(i as int, c),
    {
        self.cells.set(i, c);
    }

    pub(crate) fn from_cells(cells: Vec<Cell>) -> (r: Board)
        requires
            board_wf(cells@),
        ensures
            r@ == cells@,
    {
        Board { cells }
    }

    pub fn duplicate(&self) -> (r: Board)
        requires
            self.wf(),
        ensures
            r@ == self@,
    {
        let mut cells: Vec<Cell> = Vec::new();
        let mut n: usize = 0;
        while n < 81
            invariant
                n <= 81,
                self.wf(),
                cells@.len() == n,
                forall|i: int| 0 <= i < n ==> cells@[i] == self@[i],
            decreases 81 - n,
        {
            cells.push(self.cells[n]);
            n = n + 1;
        }
        proof {
            assert(cells@ =~= self@);
        }
        Board { cells }
    }

    /// Boards are equal when all 81 cells agree.
    pub fn eq_board(&self, other: &Board) -> (r: bool)
        requires
            self.wf(),
            other.wf(),
        ensures
            r <==> self@ == other@,
    {
        let mut n: usize = 0;
        while n < 81
            invariant
                n <= 81,
                self.wf(),
                other.wf(),
                forall|i: int| 0 <= i < n ==> self@[i] == other@[i],
            decreases 81 - n,
        {
            if self.cells[n] != other.cells[n] {
                return false;
            }
            n = n + 1;
        }
        proof {
            assert(self@ =~= other@);
        }
        true
    }
}

} // verus!
