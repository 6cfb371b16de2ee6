//! Completeness of solved grids: each row, column and box of a solved board
//! contains every digit 1..=9. Together with `no_conflict` (no digit twice
//! among peers, and a group's nine cells are mutual peers) this says each
//! group holds each digit exactly once.

use crate::board::{board_wf, cell_digit, cell_wf, is_peer, Cell};
use crate::model::{all_fixed, no_conflict, solved};
use vstd::arithmetic::div_mod::{lemma_fundamental_div_mod, lemma_mod_division_less_than_divisor};
use vstd::prelude::*;
use vstd::set_lib::{lemma_len_subset, lemma_int_range, set_int_range};

verus! {

pub open spec fn row_indices(r: int) -> Seq<int> {
    Seq::new(9, |k: int| 9 * r + k)
}

pub open spec fn col_indices(c: int) -> Seq<int> {
    Seq::new(9, |k: int| 9 * k + c)
}

pub open spec fn box_indices(b: int) -> Seq<int> {
    Seq::new(9, |k: int| 27 * (b / 3) + 3 * (b % 3) + 9 * (k / 3) + k % 3)
}

/// Digit `d` appears among the cells listed in `idxs`.
pub open spec fn group_contains_digit(s: Seq<Cell>, idxs: Seq<int>, d: int) -> bool {
    exists|k: int| 0 <= k < idxs.len() && cell_digit(s[#[trigger] idxs[k]]) == d
}

/// Every row, column and box contains every digit.
pub open spec fn grid_complete(s: Seq<Cell>) -> bool {
    forall|g: int, d: int|
        0 <= g < 9 && 1 <= d <= 9 ==> #[trigger] group_contains_digit(s, row_indices(g), d)
            && group_contains_digit(s, col_indices(g), d) && group_contains_digit(
            s,
            box_indices(g),
            d,
        )
}

/// Division by a constant is pinned down by the decomposition.
proof fn lemma_div_unique(x: int, d: int, q: int, rem: int)
    requires
        d > 0,
        x == d * q + rem,
        0 <= rem < d,
    ensures
        x / d == q && x % d == rem,
{
    lemma_fundamental_div_mod(x, d);
    lemma_mod_division_less_than_divisor(x, d);
    assert(d * (x / d - q) == rem - x % d) by (nonlinear_arith)
        requires
            x == d * (x / d) + x % d,
            x == d * q + rem,
    ;
    assert(x / d == q) by (nonlinear_arith)
        requires
            d * (x / d - q) == rem - x % d,
            0 <= rem < d,
            0 <= x % d < d,
            d > 0,
    ;
}

/// The digits of the first `n` cells of a group, as a set.
spec fn digits_upto(s: Seq<Cell>, idxs: Seq<int>, n: int) -> Set<int>
    decreases n,
{
    if n <= 0 {
        Set::empty()
    } else {
        digits_upto(s, idxs, n - 1).insert(cell_digit(s[idxs[n - 1]]))
    }
}

proof fn lemma_digits_upto_card(s: Seq<Cell>, idxs: Seq<int>, n: int)
    requires
        board_wf(s),
        all_fixed(s),
        no_conflict(s),
        idxs.len() == 9,
        forall|k: int| 0 <= k < 9 ==> 0 <= #[trigger] idxs[k] < 81,
        forall|k1: int, k2: int|
            0 <= k1 < k2 < 9 ==> is_peer(#[trigger] idxs[k1], #[trigger] idxs[k2]),
        0 <= n <= 9,
    ensures
        digits_upto(s, idxs, n).finite(),
        digits_upto(s, idxs, n).len() == n,
        forall|d: int|
            #[trigger] digits_upto(s, idxs, n).contains(d) ==> 1 <= d <= 9 && (exists|k: int|
                0 <= k < n && cell_digit(s[#[trigger] idxs[k]]) == d),
    decreases n,
{
    if n > 0 {
        lemma_digits_upto_card(s, idxs, n - 1);
        let prev = digits_upto(s, idxs, n - 1);
        let d_new = cell_digit(s[idxs[n - 1]]);
        assert(cell_wf(s[idxs[n - 1]]) && s[idxs[n - 1]] is Fixed);
        if prev.contains(d_new) {
            let k = choose|k: int| 0 <= k < n - 1 && cell_digit(s[#[trigger] idxs[k]]) == d_new;
            assert(is_peer(idxs[k], idxs[n - 1]));
            assert(false);
        }
        assert forall|d: int| #[trigger]
            digits_upto(s, idxs, n).contains(d) implies 1 <= d <= 9 && (exists|k: int|
            0 <= k < n && cell_digit(s[#[trigger] idxs[k]]) == d) by {
            if d == d_new {
                assert(cell_digit(s[idxs[n - 1]]) == d);
            } else {
                assert(prev.contains(d));
                let k = choose|k: int| 0 <= k < n - 1 && cell_digit(s[#[trigger] idxs[k]]) == d;
                assert(0 <= k < n && cell_digit(s[idxs[k]]) == d);
            }
        }
    }
}

/// The pigeonhole step: nine mutually-peer cells of a solved board carry
/// nine pairwise distinct digits out of 1..=9, so every digit is among them.
proof fn lemma_group_complete(s: Seq<Cell>, idxs: Seq<int>)
    requires
        board_wf(s),
        all_fixed(s),
        no_conflict(s),
        idxs.len() == 9,
        forall|k: int| 0 <= k < 9 ==> 0 <= #[trigger] idxs[k] < 81,
        forall|k1: int, k2: int|
            0 <= k1 < k2 < 9 ==> is_peer(#[trigger] idxs[k1], #[trigger] idxs[k2]),
    ensures
        forall|d: int| 1 <= d <= 9 ==> group_contains_digit(s, idxs, d),
{
    lemma_digits_upto_card(s, idxs, 9);
    let digs = digits_upto(s, idxs, 9);
    let range = set_int_range(1, 10);
    lemma_int_range(1, 10);
    assert forall|d: int| 1 <= d <= 9 implies group_contains_digit(s, idxs, d) by {
        if !digs.contains(d) {
            let smaller = range.remove(d);
            assert(digs.subset_of(smaller));
            lemma_len_subset(digs, smaller);
            assert(smaller.len() == 8);
            assert(false);
        }
        let k = choose|k: int| 0 <= k < 9 && cell_digit(s[#[trigger] idxs[k]]) == d;
        assert(cell_digit(s[idxs[k]]) == d);
    }
}

/// Law: in a solved board every row, every column and every box contains
/// every digit 1..=9 (and, by `no_conflict`, each exactly once).
pub proof fn lemma_solved_grid_complete(s: Seq<Cell>)
    requires
        solved(s),
    ensures
        grid_complete(s),
{
    assert forall|g: int, d: int|
        0 <= g < 9 && 1 <= d <= 9 implies #[trigger] group_contains_digit(s, row_indices(g), d)
        && group_contains_digit(s, col_indices(g), d) && group_contains_digit(
        s,
        box_indices(g),
        d,
    ) by {
        let rows = row_indices(g);
        assert forall|k1: int, k2: int|
            0 <= k1 < k2 < 9 implies is_peer(#[trigger] rows[k1], #[trigger] rows[k2]) by {
            lemma_div_unique(9 * g + k1, 9, g, k1);
            lemma_div_unique(9 * g + k2, 9, g, k2);
        }
        lemma_group_complete(s, rows);

        let cols = col_indices(g);
        assert forall|k1: int, k2: int|
            0 <= k1 < k2 < 9 implies is_peer(#[trigger] cols[k1], #[trigger] cols[k2]) by {
            lemma_div_unique(9 * k1 + g, 9, k1, g);
            lemma_div_unique(9 * k2 + g, 9, k2, g);
        }
        lemma_group_complete(s, cols);

        let boxes = box_indices(g);
        assert forall|k: int| 0 <= k < 9 implies 0 <= #[trigger] boxes[k] < 81 by {
            lemma_box_cell_coords(g, k);
        }
        assert forall|k1: int, k2: int|
            0 <= k1 < k2 < 9 implies is_peer(#[trigger] boxes[k1], #[trigger] boxes[k2]) by {
            lemma_box_cell_coords(g, k1);
            lemma_box_cell_coords(g, k2);
        }
        lemma_group_complete(s, boxes);
    }
}

/// The k-th cell of box `b` lies in box `b`.
proof fn lemma_box_cell_coords(b: int, k: int)
    requires
        0 <= b < 9,
        0 <= k < 9,
    ensures
        0 <= box_indices(b)[k] < 81,
        crate::board::box_of(box_indices(b)[k]) == b,
        box_indices(b)[k] % 9 == 3 * (b % 3) + k % 3,
        box_indices(b)[k] / 9 == 3 * (b / 3) + k / 3,
{
    lemma_fundamental_div_mod(b, 3);
    lemma_mod_division_less_than_divisor(b, 3);
    lemma_fundamental_div_mod(k, 3);
    lemma_mod_division_less_than_divisor(k, 3);
    let i: int = 27 * (b / 3) + 3 * (b % 3) + 9 * (k / 3) + k % 3;
    assert(box_indices(b)[k] == i);
    lemma_div_unique(i, 27, b / 3, 3 * (b % 3) + 9 * (k / 3) + k % 3);
    lemma_div_unique(i, 9, 3 * (b / 3) + k / 3, 3 * (b % 3) + k % 3);
    lemma_div_unique(3 * (b % 3) + k % 3, 3, b % 3, k % 3);
}

} // verus!
