//! 8x8 board packed into a `u64`: bit `row * 8 + col` is set when that cell
//! is filled. A move is the anchor cell of a domino; the second cell lies
//! below the anchor for the vertical side and right of it for the
//! horizontal side.
use vstd::prelude::*;

verus! {

/// Side to move.
#[derive(Debug, Clone, Copy, PartialEq, Eq, Structural)]
pub enum Side {
    /// Places dominoes vertically.
    Vertical,
    /// Places dominoes horizontally.
    Horizontal,
}

impl Side {
    pub open spec fn flip(self) -> Side {
        match self {
            Side::Vertical => Side::Horizontal,
            Side::Horizontal => Side::Vertical,
        }
    }

    pub fn opposite(self) -> (r: Side)
        ensures
            r == self.flip(),
            r != self,
    {
        match self {
            Side::Vertical => Side::Horizontal,
            Side::Horizontal => Side::Vertical,
        }
    }
}

/// Cells of the rightmost column.
pub const FILE_H: u64 = 0x8080_8080_8080_8080;

/// Cells of the bottom row.
pub const RANK_8: u64 = 0xFF00_0000_0000_0000;

/// Whether bit `i` of `x` is set.
pub open spec fn bit_set(x: u64, i: u64) -> bool {
    (x >> i) & 1u64 == 1u64
}

/// The cell that a domino anchored at `anchor` covers besides the anchor.
pub open spec fn second_cell(anchor: int, side: Side) -> int {
    match side {
        Side::Vertical => anchor + 8,
        Side::Horizontal => anchor + 1,
    }
}

/// A domino of `side` may be anchored at cell `i`: both of its cells are on
/// the board, in one column or row, and empty.
pub open spec fn is_legal_anchor(occupied: u64, side: Side, i: u64) -> bool {
    &&& i < 64
    &&& !bit_set(occupied, i)
    &&& match side {
        Side::Vertical => i < 56 && !bit_set(occupied, (i + 8) as u64),
        Side::Horizontal => i % 8 != 7 && !bit_set(occupied, (i + 1) as u64),
    }
}

/// Number of legal anchors among the cells `0..n`.
pub open spec fn legal_count(occupied: u64, side: Side, n: int) -> nat
    decreases n,
{
    if n <= 0 {
        0
    } else {
        legal_count(occupied, side, n - 1) + if is_legal_anchor(occupied, side, (n - 1) as u64) {
            1nat
        } else {
            0nat
        }
    }
}

/// The legal anchors among the cells `0..n`, in increasing order.
pub open spec fn legal_anchors(occupied: u64, side: Side, n: int) -> Seq<u8>
    decreases n,
{
    if n <= 0 {
        Seq::empty()
    } else if is_legal_anchor(occupied, side, (n - 1) as u64) {
        legal_anchors(occupied, side, n - 1).push((n - 1) as u8)
    } else {
        legal_anchors(occupied, side, n - 1)
    }
}

/// The anchor set as a bitboard: bit `i` of the result is set exactly when a
/// domino of `side` may be anchored at cell `i`.
pub fn generate_moves_bb(occupied: u64, side: Side) -> (r: u64)
    ensures
        forall|i: u64| i < 64 ==> (bit_set(r, i) <==> is_legal_anchor(occupied, side, i)),
{
    let empty = !occupied;
    match side {
        Side::Vertical => {
            let anchors = empty & !RANK_8;
            let below = empty >> 8u64;
            let r = anchors & below;
            assert forall|i: u64| i < 64 implies (bit_set(r, i) <==> is_legal_anchor(
                occupied,
                side,
                i,
            )) by {
                assert(((((!occupied) & !0xFF00_0000_0000_0000u64) & ((!occupied) >> 8u64)) >> i)
                    & 1u64 == 1u64 <==> (i < 56 && (occupied >> i) & 1u64 != 1u64 && (occupied
                    >> (i + 8) as u64) & 1u64 != 1u64)) by (bit_vector)
                    requires
                        i < 64,
                ;
            }
            r
        },
        Side::Horizontal => {
            let anchors = empty & !FILE_H;
            let right = (empty >> 1u64) & !FILE_H;
            let r = anchors & right;
            assert forall|i: u64| i < 64 implies (bit_set(r, i) <==> is_legal_anchor(
                occupied,
                side,
                i,
            )) by {
                assert(((((!occupied) & !0x8080_8080_8080_8080u64) & (((!occupied) >> 1u64)
                    & !0x8080_8080_8080_8080u64)) >> i) & 1u64 == 1u64 <==> (i % 8 != 7 && (
                occupied >> i) & 1u64 != 1u64 && (occupied >> (i + 1) as u64) & 1u64 != 1u64))
                    by (bit_vector)
                    requires
                        i < 64,
                ;
            }
            r
        },
    }
}

/// Every legal anchor of `side`, in increasing order.
pub fn generate_moves(occupied: u64, side: Side) -> (r: Vec<u8>)
    ensures
        r@ == legal_anchors(occupied, side, 64),
{
    let mut moves: Vec<u8> = Vec::with_capacity(32);
    let bb = generate_moves_bb(occupied, side);
    let mut i: u64 = 0;
    while i < 64
        invariant
            i <= 64,
            forall|j: u64| j < 64 ==> (bit_set(bb, j) <==> is_legal_anchor(occupied, side, j)),
            moves@ == legal_anchors(occupied, side, i as int),
        decreases 64 - i,
    {
        assert(bit_set(bb, i) <==> is_legal_anchor(occupied, side, i));
        if (bb >> i) & 1u64 == 1u64 {
            moves.push(i as u8);
        }
        i = i + 1;
    }
    moves
}

/// Number of legal anchors of `side`.
pub fn count_moves(occupied: u64, side: Side) -> (r: u32)
    ensures
        r == legal_count(occupied, side, 64),
        r <= 64,
{
    let bb = generate_moves_bb(occupied, side);
    let mut count: u32 = 0;
    let mut i: u64 = 0;
    while i < 64
        invariant
            i <= 64,
            count <= i,
            forall|j: u64| j < 64 ==> (bit_set(bb, j) <==> is_legal_anchor(occupied, side, j)),
            count == legal_count(occupied, side, i as int),
        decreases 64 - i,
    {
        assert(bit_set(bb, i) <==> is_legal_anchor(occupied, side, i));
        if (bb >> i) & 1u64 == 1u64 {
            count = count + 1;
        }
        i = i + 1;
    }
    count
}

/// The cells that a domino of `side` anchored at `anchor` covers, as bits
/// (a second cell past the last row falls off the board).
pub open spec fn domino_bits(anchor: u64, side: Side) -> u64 {
    match side {
        Side::Vertical => (1u64 << anchor) | ((1u64 << anchor) << 8u64),
        Side::Horizontal => (1u64 << anchor) | ((1u64 << anchor) << 1u64),
    }
}

/// Fills both cells of the domino; legality is not checked.
pub fn apply_move(occupied: u64, anchor: u8, side: Side) -> (r: u64)
    requires
        anchor < 64,
    ensures
        r == occupied | domino_bits(anchor as u64, side),
        forall|i: u64|
            i < 64 ==> (bit_set(r, i) <==> (bit_set(occupied, i) || i == anchor || i
                == second_cell(anchor as int, side))),
{
    let anchor_bit = 1u64 << anchor as u64;
    let second_bit = match side {
        Side::Vertical => anchor_bit << 8u64,
        Side::Horizontal => anchor_bit << 1u64,
    };
    let r = occupied | anchor_bit | second_bit;
    let a = anchor as u64;
    assert(r == occupied | domino_bits(a, side)) by {
        match side {
            Side::Vertical => {
                assert(occupied | (1u64 << a) | ((1u64 << a) << 8u64) == occupied | ((1u64 << a) | (
                (1u64 << a) << 8u64))) by (bit_vector);
            },
            Side::Horizontal => {
                assert(occupied | (1u64 << a) | ((1u64 << a) << 1u64) == occupied | ((1u64 << a) | (
                (1u64 << a) << 1u64))) by (bit_vector);
            },
        }
    }
    assert forall|i: u64| i < 64 implies (bit_set(r, i) <==> (bit_set(occupied, i) || i == anchor
        || i == second_cell(anchor as int, side))) by {
        match side {
            Side::Vertical => {
                assert(((occupied | (1u64 << a) | ((1u64 << a) << 8u64)) >> i) & 1u64 == 1u64 <==> (
                (occupied >> i) & 1u64 == 1u64 || i == a || i == a + 8)) by (bit_vector)
                    requires
                        i < 64,
                        a < 64,
                ;
            },
            Side::Horizontal => {
                assert(((occupied | (1u64 << a) | ((1u64 << a) << 1u64)) >> i) & 1u64 == 1u64 <==> (
                (occupied >> i) & 1u64 == 1u64 || i == a || i == a + 1)) by (bit_vector)
                    requires
                        i < 64,
                        a < 64,
                ;
            },
        }
    }
    r
}

/// Whether a domino of `side` may be anchored at `anchor`.
pub fn is_valid_move(occupied: u64, anchor: u8, side: Side) -> (r: bool)
    requires
        anchor < 64,
    ensures
        r == is_legal_anchor(occupied, side, anchor as u64),
{
    let moves_bb = generate_moves_bb(occupied, side);
    let a = anchor as u64;
    assert((moves_bb & (1u64 << a)) != 0 <==> (moves_bb >> a) & 1u64 == 1u64) by (bit_vector)
        requires
            a < 64,
    ;
    assert(bit_set(moves_bb, a) <==> is_legal_anchor(occupied, side, a));
    (moves_bb & (1u64 << anchor as u64)) != 0
}

/// Row and column of a cell.
pub fn anchor_to_coords(anchor: u8) -> (r: (u8, u8))
    ensures
        r.0 == anchor / 8,
        r.1 == anchor % 8,
{
    (anchor / 8, anchor % 8)
}

/// Cell at a row and column.
pub fn coords_to_anchor(row: u8, col: u8) -> (r: u8)
    requires
        row * 8 + col <= 255,
    ensures
        r == row * 8 + col,
{
    row * 8 + col
}

/// The second cell of a domino anchored at `anchor`.
pub fn get_second_cell(anchor: u8, side: Side) -> (r: u8)
    requires
        second_cell(anchor as int, side) <= 255,
    ensures
        r == second_cell(anchor as int, side),
{
    match side {
        Side::Vertical => anchor + 8,
        Side::Horizontal => anchor + 1,
    }
}

/// The move list and the move count agree, and every listed move is legal.
pub proof fn lemma_legal_anchors(occupied: u64, side: Side, n: int)
    requires
        0 <= n <= 64,
    ensures
        legal_anchors(occupied, side, n).len() == legal_count(occupied, side, n),
        legal_count(occupied, side, n) <= n,
        forall|k: int|
            0 <= k < legal_anchors(occupied, side, n).len() ==> {
                let a = #[trigger] legal_anchors(occupied, side, n)[k];
                a < n && is_legal_anchor(occupied, side, a as u64)
            },
    decreases n,
{
    if n > 0 {
        lemma_legal_anchors(occupied, side, n - 1);
    }
}

} // verus!
