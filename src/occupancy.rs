//! 10x10 board of the misere game, packed into two `u64` words: cell `i`
//! is bit `i` of `low` for `i < 64`, and bit `i - 64` of `high` otherwise.
//! A move covers `len` cells from `start`, stepping by a row (vertical,
//! orientation 0) or by one cell (horizontal, any other orientation).
use vstd::prelude::*;
use crate::bitboard::bit_set;

verus! {

pub const BOARD_SIZE: usize = 10;

pub const CELL_COUNT: usize = 100;

/// Shortest move.
pub const MIN_LEN: usize = 2;

/// The filled cells of a board.
#[derive(Clone, Copy, Debug, PartialEq, Eq, Structural)]
pub struct Occupancy {
    pub low: u64,
    pub high: u64,
}

impl Default for Occupancy {
    fn default() -> (r: Occupancy)
        ensures
            r.low == 0 && r.high == 0,
    {
        Occupancy { low: 0, high: 0 }
    }
}

impl Occupancy {
    /// Cell `idx` is filled.
    pub open spec fn filled(self, idx: int) -> bool {
        if idx < 64 {
            bit_set(self.low, idx as u64)
        } else {
            bit_set(self.high, (idx - 64) as u64)
        }
    }

    pub fn is_set(&self, idx: usize) -> (r: bool)
        requires
            idx < 128,
        ensures
            r == self.filled(idx as int),
    {
        if idx < 64 {
            let i = idx as u64;
            let x = self.low;
            assert(((x & (1u64 << i)) != 0) == ((x >> i) & 1u64 == 1u64)) by (bit_vector)
                requires
                    i < 64,
            ;
            (self.low & (1u64 << i)) != 0
        } else {
            let i = (idx - 64) as u64;
            let x = self.high;
            assert(((x & (1u64 << i)) != 0) == ((x >> i) & 1u64 == 1u64)) by (bit_vector)
                requires
                    i < 64,
            ;
            (self.high & (1u64 << i)) != 0
        }
    }

    /// Fills cell `idx`.
    pub fn set(&mut self, idx: usize)
        requires
            idx < 128,
        ensures
            *final(self) == with_cell(*old(self), idx as int),
            forall|j: int| 0 <= j < 128 ==> final(self).filled(j) == (old(self).filled(j) || j == idx),
    {
        if idx < 64 {
            let i = idx as u64;
            let x = self.low;
            self.low = self.low | (1u64 << i);
            assert forall|j: u64| j < 64 implies #[trigger] bit_set(x | (1u64 << i), j) == (bit_set(
                x,
                j,
            ) || j == i) by {
                assert(((x | (1u64 << i)) >> j) & 1u64 == 1u64 <==> ((x >> j) & 1u64 == 1u64 || j
                    == i)) by (bit_vector)
                    requires
                        i < 64,
                        j < 64,
                ;
            }
            assert forall|j: int| 0 <= j < 128 implies self.filled(j) == (old(self).filled(j) || j
                == idx) by {
                if j < 64 {
                    assert(bit_set(self.low, j as u64) == (bit_set(x, j as u64) || j as u64 == i));
                }
            }
        } else {
            let i = (idx - 64) as u64;
            let x = self.high;
            self.high = self.high | (1u64 << i);
            assert forall|j: u64| j < 64 implies #[trigger] bit_set(x | (1u64 << i), j) == (bit_set(
                x,
                j,
            ) || j == i) by {
                assert(((x | (1u64 << i)) >> j) & 1u64 == 1u64 <==> ((x >> j) & 1u64 == 1u64 || j
                    == i)) by (bit_vector)
                    requires
                        i < 64,
                        j < 64,
                ;
            }
            assert forall|j: int| 0 <= j < 128 implies self.filled(j) == (old(self).filled(j) || j
                == idx) by {
                if j >= 64 {
                    assert(bit_set(self.high, (j - 64) as u64) == (bit_set(x, (j - 64) as u64) || (j
                        - 64) as u64 == i));
                }
            }
        }
    }

    /// A board from four 32-bit words, least significant first.
    pub fn from_u32_parts(low_lo: u32, low_hi: u32, high_lo: u32, high_hi: u32) -> (r: Self)
        ensures
            r.low == low_hi as int * 0x1_0000_0000 + low_lo as int,
            r.high == high_hi as int * 0x1_0000_0000 + high_lo as int,
    {
        let a = low_hi as u64;
        let b = low_lo as u64;
        let c = high_hi as u64;
        let d = high_lo as u64;
        assert((a << 32u64) | b == a * 0x1_0000_0000u64 + b) by (bit_vector)
            requires
                a < 0x1_0000_0000u64,
                b < 0x1_0000_0000u64,
        ;
        assert((c << 32u64) | d == c * 0x1_0000_0000u64 + d) by (bit_vector)
            requires
                c < 0x1_0000_0000u64,
                d < 0x1_0000_0000u64,
        ;
        Occupancy { low: (a << 32u64) | b, high: (c << 32u64) | d }
    }
}

/// The board with cell `idx` filled.
pub open spec fn with_cell(o: Occupancy, idx: int) -> Occupancy {
    if idx < 64 {
        Occupancy { low: o.low | (1u64 << idx as u64), high: o.high }
    } else {
        Occupancy { low: o.low, high: o.high | (1u64 << (idx - 64) as u64) }
    }
}

/// The board with the first `len` cells from `start` by `delta` filled.
pub open spec fn with_cells(o: Occupancy, start: int, len: int, delta: int) -> Occupancy
    decreases len,
{
    if len <= 0 {
        o
    } else {
        with_cell(with_cells(o, start, len - 1, delta), start + (len - 1) * delta)
    }
}

/// A move: start cell in bits 0 to 6, length in bits 7 to 10, orientation
/// in bit 11.
pub type EncMove = u16;

/// The code of a move.
pub open spec fn move_code(start: u8, len: u8, orient: u8) -> u16 {
    (start as u16) | ((len as u16) << 7u16) | ((orient as u16) << 11u16)
}

/// The fields of a code.
pub open spec fn move_fields(m: u16) -> (u8, u8, u8) {
    ((m & 0x7fu16) as u8, ((m >> 7u16) & 0x0fu16) as u8, ((m >> 11u16) & 0x01u16) as u8)
}

pub fn encode_move(start: u8, len: u8, orient: u8) -> (r: EncMove)
    ensures
        r == move_code(start, len, orient),
        start < 128 && len < 16 && orient < 2 ==> r == start + 128 * len + 2048 * orient,
{
    let s = start as u16;
    let l = len as u16;
    let o = orient as u16;
    assert(s < 128 && l < 16 && o < 2 ==> (s | (l << 7u16) | (o << 11u16)) == s + 128 * l + 2048 * o)
        by (bit_vector);
    s | (l << 7u16) | (o << 11u16)
}

pub fn decode_move(m: EncMove) -> (r: (u8, u8, u8))
    ensures
        r == move_fields(m),
        r.0 == m % 128,
        r.1 == (m / 128) % 16,
        r.2 == (m / 2048) % 2,
{
    assert((m & 0x7fu16) == m % 128 && ((m >> 7u16) & 0x0fu16) == (m / 128) % 16 && ((m >> 11u16)
        & 0x01u16) == (m / 2048) % 2) by (bit_vector);
    let start = (m & 0x7fu16) as u8;
    let len = ((m >> 7u16) & 0x0fu16) as u8;
    let orient = ((m >> 11u16) & 0x01u16) as u8;
    (start, len, orient)
}

/// Decoding a code gives back the start, length and orientation it was
/// made of, whenever each fits its field.
pub proof fn lemma_move_round_trip(start: u8, len: u8, orient: u8)
    requires
        start < 128,
        len < 16,
        orient < 2,
    ensures
        move_fields(move_code(start, len, orient)) == (start, len, orient),
{
    let s = start as u16;
    let l = len as u16;
    let o = orient as u16;
    assert(((s | (l << 7u16) | (o << 11u16)) & 0x7fu16) == s && (((s | (l << 7u16) | (o << 11u16))
        >> 7u16) & 0x0fu16) == l && (((s | (l << 7u16) | (o << 11u16)) >> 11u16) & 0x01u16) == o)
        by (bit_vector)
        requires
            s < 128,
            l < 16,
            o < 2,
    ;
}

/// Distance between consecutive cells of a move or run.
pub open spec fn step(orient: u8) -> int {
    if orient == 0 {
        BOARD_SIZE as int
    } else {
        1
    }
}

/// Cell `j` is one of the first `len` cells from `start` by `delta`.
pub open spec fn covers(start: int, len: int, delta: int, j: int) -> bool
    decreases len,
{
    if len <= 0 {
        false
    } else {
        covers(start, len - 1, delta, j) || j == start + (len - 1) * delta
    }
}

/// Every cell of the move lies below 128.
pub open spec fn move_in_range(m: u16) -> bool {
    let (start, len, orient) = move_fields(m);
    len == 0 || start + (len - 1) * step(orient) < 128
}

/// The board after the move.
pub open spec fn applied(occ: Occupancy, m: u16) -> Occupancy {
    with_cells(occ, move_fields(m).0 as int, move_fields(m).1 as int, step(move_fields(m).2))
}

/// Fills every cell of the move; legality is not checked.
pub fn apply_move(occ: Occupancy, m: EncMove) -> (r: Occupancy)
    requires
        move_in_range(m),
    ensures
        r == applied(occ, m),
        forall|j: int|
            0 <= j < 128 ==> r.filled(j) == (occ.filled(j) || covers(
                move_fields(m).0 as int,
                move_fields(m).1 as int,
                step(move_fields(m).2),
                j,
            )),
{
    let (start, len, orient) = decode_move(m);
    let delta: usize = if orient == 0 {
        BOARD_SIZE
    } else {
        1
    };
    let mut cur = occ;
    let mut idx: usize = start as usize;
    let mut k: usize = 0;
    while k < len as usize
        invariant
            k <= len,
            idx == start + k * delta,
            delta == step(orient),
            len == 0 || start + (len - 1) * delta < 128,
            cur == with_cells(occ, start as int, k as int, delta as int),
            forall|j: int|
                0 <= j < 128 ==> cur.filled(j) == (occ.filled(j) || covers(
                    start as int,
                    k as int,
                    delta as int,
                    j,
                )),
        decreases len - k,
    {
        assert(idx <= start + (len - 1) * delta) by (nonlinear_arith)
            requires
                idx == start + k * delta,
                k < len,
                delta >= 1,
        ;
        cur.set(idx);
        assert(idx + delta == start + (k + 1) * delta) by (nonlinear_arith)
            requires
                idx == start + k * delta,
        ;
        idx = idx + delta;
        k = k + 1;
    }
    cur
}

/// A maximal empty run of cells in one row or column.
#[derive(Clone, Copy, Debug)]
pub struct Run {
    pub start: u8,
    pub len: u8,
    pub orient: u8,
}

/// Cell at position `pos` of line `line`: lines are columns for
/// orientation 0 and rows otherwise.
pub open spec fn line_cell(orient: u8, line: int, pos: int) -> int {
    if orient == 0 {
        pos * 10 + line
    } else {
        line * 10 + pos
    }
}

/// Number of empty cells directly before position `pos` of a line.
pub open spec fn empty_before(occ: Occupancy, orient: u8, line: int, pos: int) -> nat
    decreases pos,
{
    if pos <= 0 {
        0
    } else if !occ.filled(line_cell(orient, line, pos - 1)) {
        empty_before(occ, orient, line, pos - 1) + 1
    } else {
        0
    }
}

/// Position `pos` ends the run before it: it is past the board's edge or a
/// filled cell.
pub open spec fn ends_run(occ: Occupancy, orient: u8, line: int, pos: int) -> bool {
    pos >= 10 || occ.filled(line_cell(orient, line, pos))
}

/// The runs of two or more cells of a line that end at positions `0..pos`.
pub open spec fn line_runs(occ: Occupancy, orient: u8, line: int, pos: int) -> Seq<Run>
    decreases pos,
{
    if pos <= 0 {
        Seq::empty()
    } else {
        let n = empty_before(occ, orient, line, pos - 1);
        if ends_run(occ, orient, line, pos - 1) && n >= 2 {
            line_runs(occ, orient, line, pos - 1).push(
                Run {
                    start: line_cell(orient, line, pos - 1 - n) as u8,
                    len: n as u8,
                    orient,
                },
            )
        } else {
            line_runs(occ, orient, line, pos - 1)
        }
    }
}

/// The runs of two or more cells of the lines `0..lines`, line by line.
pub open spec fn board_runs(occ: Occupancy, orient: u8, lines: int) -> Seq<Run>
    decreases lines,
{
    if lines <= 0 {
        Seq::empty()
    } else {
        board_runs(occ, orient, lines - 1) + line_runs(occ, orient, lines - 1, 11)
    }
}

/// A run of two to ten cells that stays on the board.
pub open spec fn run_fits(r: Run) -> bool {
    &&& 2 <= r.len <= 10
    &&& r.start + (r.len - 1) * step(r.orient) < 100
}

fn cell_index(orient: u8, line: usize, pos: usize) -> (r: usize)
    requires
        line < 10,
        pos < 10,
    ensures
        r == line_cell(orient, line as int, pos as int),
        r < 100,
{
    if orient == 0 {
        pos * BOARD_SIZE + line
    } else {
        line * BOARD_SIZE + pos
    }
}

/// The maximal empty runs of two or more cells in orientation `orient`,
/// line by line.
pub fn extract_runs(occ: Occupancy, orient: u8) -> (r: Vec<Run>)
    ensures
        r@ == board_runs(occ, orient, 10),
        r@.len() <= 110,
        forall|k: int| 0 <= k < r@.len() ==> run_fits(#[trigger] r@[k]) && r@[k].orient == orient,
{
    let mut runs: Vec<Run> = Vec::new();
    let mut line: usize = 0;
    while line < BOARD_SIZE
        invariant
            line <= 10,
            runs@.len() <= 11 * line,
            runs@ == board_runs(occ, orient, line as int),
            forall|k: int| 0 <= k < runs@.len() ==> run_fits(#[trigger] runs@[k]) && runs@[k].orient == orient,
        decreases 10 - line,
    {
        let ghost before = runs@;
        let mut run: usize = 0;
        let mut pos: usize = 0;
        while pos <= BOARD_SIZE
            invariant
                line < 10,
                pos <= 11,
                runs@.len() <= 11 * line + pos,
                run <= pos,
                pos <= 10 ==> run == empty_before(occ, orient, line as int, pos as int),
                runs@ == before + line_runs(occ, orient, line as int, pos as int),
                forall|k: int| 0 <= k < runs@.len() ==> run_fits(#[trigger] runs@[k]) && runs@[k].orient == orient,
            decreases 11 - pos,
        {
            let empty = pos < BOARD_SIZE && !occ.is_set(cell_index(orient, line, pos));
            if empty {
                run = run + 1;
            } else {
                if run >= MIN_LEN {
                    let start = cell_index(orient, line, pos - run);
                    proof {
                        if orient == 0 {
                            assert(start + (run - 1) * 10 == (pos - 1) * 10 + line) by (nonlinear_arith)
                                requires
                                    start == (pos - run) * 10 + line,
                                    run >= 1,
                            ;
                        }
                    }
                    runs.push(Run { start: start as u8, len: run as u8, orient });
                }
                run = 0;
            }
            proof {
                assert(runs@ == before + line_runs(occ, orient, line as int, pos + 1));
            }
            pos = pos + 1;
        }
        line = line + 1;
    }
    runs
}

/// Number of moves of a run of `len` cells: `len * (len - 1) / 2`.
pub open spec fn pairs(len: int) -> int {
    len * (len - 1) / 2
}

/// Sum of `pairs` over the first `n` runs.
pub open spec fn estimate(runs: Seq<Run>, n: int) -> int
    decreases n,
{
    if n <= 0 {
        0
    } else {
        estimate(runs, n - 1) + pairs(runs[n - 1].len as int)
    }
}

/// Estimated number of moves of the runs, saturating at `u32::MAX`.
pub fn estimate_moves_from_runs(runs: &[Run]) -> (r: u32)
    ensures
        r == if estimate(runs@, runs@.len() as int) < u32::MAX {
            estimate(runs@, runs@.len() as int)
        } else {
            u32::MAX as int
        },
{
    let mut total: u32 = 0;
    let mut i: usize = 0;
    while i < runs.len()
        invariant
            i <= runs@.len(),
            total == if estimate(runs@, i as int) < u32::MAX {
                estimate(runs@, i as int)
            } else {
                u32::MAX as int
            },
            estimate(runs@, i as int) >= 0,
        decreases runs@.len() - i,
    {
        let l = runs[i].len as u32;
        let p: u32 = if l >= 1 {
            assert(l * (l - 1) <= 255 * 254) by (nonlinear_arith)
                requires
                    1 <= l <= 255,
            ;
            assert(l * (l - 1) >= 0) by (nonlinear_arith)
                requires
                    1 <= l,
            ;
            l * (l - 1) / 2
        } else {
            assert(pairs(0) == 0) by (nonlinear_arith);
            0
        };
        assert(l == runs@[i as int].len);
        assert(p == pairs(l as int));
        assert(estimate(runs@, i + 1) == estimate(runs@, i as int) + p);
        total = total.saturating_add(p);
        i = i + 1;
    }
    total
}

/// The move covering `len` cells of `run` from offset `off`.
pub open spec fn segment_move(run: Run, off: int, len: int) -> u16 {
    move_code((run.start + off * step(run.orient)) as u8, len as u8, run.orient)
}

/// The moves of `len` cells of `run` at offsets `0..count`.
pub open spec fn offset_moves(run: Run, len: int, count: int) -> Seq<u16>
    decreases count,
{
    if count <= 0 {
        Seq::empty()
    } else {
        offset_moves(run, len, count - 1).push(segment_move(run, count - 1, len))
    }
}

/// The moves of `run` of lengths `2..len_end`, by length, then by offset.
pub open spec fn length_moves(run: Run, len_end: int) -> Seq<u16>
    decreases len_end,
{
    if len_end <= 2 {
        Seq::empty()
    } else {
        length_moves(run, len_end - 1) + offset_moves(run, len_end - 1, run.len - (len_end - 1) + 1)
    }
}

/// Every move within `run`.
pub open spec fn run_all_moves(run: Run) -> Seq<u16> {
    length_moves(run, run.len + 1)
}

/// Every move within the first `n` runs, run by run.
pub open spec fn runs_all_moves(runs: Seq<Run>, n: int) -> Seq<u16>
    decreases n,
{
    if n <= 0 {
        Seq::empty()
    } else {
        runs_all_moves(runs, n - 1) + run_all_moves(runs[n - 1])
    }
}

/// Every move of orientation `orient` on the board.
pub open spec fn all_moves(occ: Occupancy, orient: u8) -> Seq<u16> {
    let runs = board_runs(occ, orient, 10);
    runs_all_moves(runs, runs.len() as int)
}

proof fn lemma_segment_in_range(base: int, off: int, len: int, l: int, delta: int, orient: u8)
    requires
        orient <= 1,
        delta == step(orient),
        0 <= off,
        2 <= len <= 10,
        off + len <= l,
        0 <= base,
        base + (l - 1) * delta < 100,
    ensures
        move_in_range(move_code((base + off * delta) as u8, len as u8, orient)),
{
    assert(base + off * delta + (len - 1) * delta <= base + (l - 1) * delta) by (nonlinear_arith)
        requires
            off + len <= l,
            delta >= 1,
    ;
    assert(off * delta >= 0) by (nonlinear_arith)
        requires
            off >= 0,
            delta >= 1,
    ;
    lemma_move_round_trip((base + off * delta) as u8, len as u8, orient);
}

/// Appends every move within `run`.
fn push_run_moves(moves: &mut Vec<EncMove>, run: Run)
    requires
        run_fits(run),
    ensures
        final(moves)@ == old(moves)@ + run_all_moves(run),
        run.orient <= 1 && (forall|k: int| 0 <= k < old(moves)@.len() ==> move_in_range(#[trigger] old(moves)@[k]))
            ==> forall|k: int| 0 <= k < final(moves)@.len() ==> move_in_range(#[trigger] final(moves)@[k]),
{
    let base = run.start as usize;
    let l = run.len as usize;
    let delta: usize = if run.orient == 0 {
        BOARD_SIZE
    } else {
        1
    };
    let mut len: usize = MIN_LEN;
    while len <= l
        invariant
            run_fits(run),
            base == run.start,
            l == run.len,
            delta == step(run.orient),
            2 <= len <= l + 1,
            moves@ == old(moves)@ + length_moves(run, len as int),
            run.orient <= 1 && (forall|k: int| 0 <= k < old(moves)@.len() ==> move_in_range(#[trigger] old(moves)@[k]))
                ==> forall|k: int| 0 <= k < moves@.len() ==> move_in_range(#[trigger] moves@[k]),
        decreases l + 1 - len,
    {
        let mut off: usize = 0;
        while off <= l - len
            invariant
                run_fits(run),
                base == run.start,
                l == run.len,
                delta == step(run.orient),
                2 <= len <= l,
                off <= l - len + 1,
                moves@ == old(moves)@ + length_moves(run, len as int) + offset_moves(
                    run,
                    len as int,
                    off as int,
                ),
                run.orient <= 1 && (forall|k: int| 0 <= k < old(moves)@.len() ==> move_in_range(#[trigger] old(moves)@[k]))
                    ==> forall|k: int| 0 <= k < moves@.len() ==> move_in_range(#[trigger] moves@[k]),
            decreases l - len + 1 - off,
        {
            assert(base + off * delta < 100) by (nonlinear_arith)
                requires
                    off <= l - len,
                    len >= 2,
                    base + (l - 1) * delta < 100,
                    delta >= 1,
            ;
            let m = encode_move((base + off * delta) as u8, len as u8, run.orient);
            proof {
                if run.orient <= 1 {
                    lemma_segment_in_range(base as int, off as int, len as int, l as int, delta as int, run.orient);
                }
            }
            moves.push(m);
            assert(moves@ =~= old(moves)@ + length_moves(run, len as int) + offset_moves(
                run,
                len as int,
                off + 1,
            ));
            off = off + 1;
        }
        assert(moves@ =~= old(moves)@ + length_moves(run, len + 1));
        len = len + 1;
    }
}

/// Every move of orientation `orient`: each sub-run of two or more cells of
/// each run, run by run, then by length and offset.
pub fn generate_all_moves(occ: Occupancy, orient: u8) -> (r: Vec<EncMove>)
    ensures
        r@ == all_moves(occ, orient),
        orient <= 1 ==> forall|k: int| 0 <= k < r@.len() ==> move_in_range(#[trigger] r@[k]),
{
    let runs = extract_runs(occ, orient);
    let mut moves: Vec<EncMove> = Vec::new();
    let mut i: usize = 0;
    while i < runs.len()
        invariant
            i <= runs@.len(),
            runs@ == board_runs(occ, orient, 10),
            forall|k: int| 0 <= k < runs@.len() ==> run_fits(#[trigger] runs@[k]) && runs@[k].orient == orient,
            moves@ == runs_all_moves(runs@, i as int),
            orient <= 1 ==> forall|k: int| 0 <= k < moves@.len() ==> move_in_range(#[trigger] moves@[k]),
        decreases runs@.len() - i,
    {
        let run = runs[i];
        assert(run.orient == orient);
        push_run_moves(&mut moves, run);
        i = i + 1;
    }
    moves
}

/// Estimated move count above which long runs get only candidate moves.
pub const EXHAUSTIVE_LIMIT: u32 = 220;

/// Longest run whose moves are all candidates.
pub const SHORT_RUN: usize = 6;

fn abs_diff(a: usize, b: usize) -> (r: usize)
    ensures
        r == if a >= b {
            a - b
        } else {
            b - a
        },
{
    if a >= b {
        a - b
    } else {
        b - a
    }
}

/// How well a move of `len` cells at offset `off` splits a run of `l`
/// cells: each remaining part of two or more cells gains 50, each single
/// wasted cell loses 15, and the parts' difference in size loses its value.
pub open spec fn split_score(l: int, off: int, len: int) -> int {
    let left = off;
    let right = l - (off + len);
    50 * ((if left >= 2 {
        1int
    } else {
        0
    }) + (if right >= 2 {
        1int
    } else {
        0
    })) - 15 * ((if left == 1 {
        1int
    } else {
        0
    }) + (if right == 1 {
        1int
    } else {
        0
    })) - (if left >= right {
        left - right
    } else {
        right - left
    })
}

/// The offsets tried for a split by `len` cells: one before the centre, the
/// centre, and one after it (kept inside the run).
pub open spec fn split_trials_for(l: int, len: int) -> Seq<(int, int)> {
    let c = (l - len) / 2;
    seq![(if c >= 1 { c - 1 } else { 0 }, len), (c, len), (if c + 1 <= l - len { c + 1 } else { l - len }, len)]
}

/// The split trials of a long run: lengths 2, 3 and 4.
pub open spec fn split_trials(l: int) -> Seq<(int, int)> {
    split_trials_for(l, 2) + split_trials_for(l, 3) + split_trials_for(l, 4)
}

/// The first trial of greatest `split_score`.
pub open spec fn best_trial(l: int, trials: Seq<(int, int)>) -> (int, int)
    decreases trials.len(),
{
    if trials.len() <= 1 {
        trials[0]
    } else {
        let b = best_trial(l, trials.drop_last());
        let t = trials.last();
        if split_score(l, t.0, t.1) > split_score(l, b.0, b.1) {
            t
        } else {
            b
        }
    }
}

/// The offset of sample `o`: 0, l/4, l/2, 3l/4 and l-2.
pub open spec fn sample_offset(l: int, o: int) -> int {
    if o == 0 {
        0
    } else if o == 1 {
        l / 4
    } else if o == 2 {
        l / 2
    } else if o == 3 {
        (3 * l) / 4
    } else {
        l - 2
    }
}

/// Short moves sampled at offset `off`: the lengths `2..len_end` that fit.
pub open spec fn samples_below(l: int, off: int, len_end: int) -> Seq<(int, int)>
    decreases len_end,
{
    if len_end <= 2 {
        Seq::empty()
    } else if off + (len_end - 1) <= l {
        samples_below(l, off, len_end - 1).push((off, len_end - 1))
    } else {
        samples_below(l, off, len_end - 1)
    }
}

/// The samples of lengths 2 to 4 at the first `o` sample offsets.
pub open spec fn samples_upto(l: int, o: int) -> Seq<(int, int)>
    decreases o,
{
    if o <= 0 {
        Seq::empty()
    } else {
        samples_upto(l, o - 1) + samples_below(l, sample_offset(l, o - 1), 5)
    }
}

/// The fixed candidates of a long run: two and three cells at either end,
/// the whole run, all but one cell at either end, and the best split.
pub open spec fn head_segments(l: int) -> Seq<(int, int)> {
    seq![(0, 2), (l - 2, 2), (0, 3), (l - 3, 3), (0, l), (0, l - 1), (1, l - 1), best_trial(l, split_trials(l))]
}

/// The candidate (offset, length) pairs of a run of `l >= 7` cells, in
/// order: `head_segments`, then samples of two to four cells at offsets 0,
/// l/4, l/2, 3l/4 and l-2.
pub open spec fn long_run_segments(l: int) -> Seq<(int, int)> {
    head_segments(l) + samples_upto(l, 5)
}

/// The moves of `run` for a list of (offset, length) pairs.
pub open spec fn segs_to_moves(run: Run, segs: Seq<(int, int)>) -> Seq<u16>
    decreases segs.len(),
{
    if segs.len() == 0 {
        Seq::empty()
    } else {
        segs_to_moves(run, segs.drop_last()).push(segment_move(run, segs.last().0, segs.last().1))
    }
}

/// The candidate moves of one run, before repeats are dropped: every move
/// of a run of at most six cells, `long_run_segments` of a longer one.
pub open spec fn run_candidates(run: Run) -> Seq<u16> {
    if run.len <= SHORT_RUN {
        run_all_moves(run)
    } else {
        segs_to_moves(run, long_run_segments(run.len as int))
    }
}

/// The candidates of the first `n` runs, run by run.
pub open spec fn runs_candidates(runs: Seq<Run>, n: int) -> Seq<u16>
    decreases n,
{
    if n <= 0 {
        Seq::empty()
    } else {
        runs_candidates(runs, n - 1) + run_candidates(runs[n - 1])
    }
}

/// `s` without repeats, each item where it first occurs.
pub open spec fn dedup(s: Seq<u16>) -> Seq<u16>
    decreases s.len(),
{
    if s.len() == 0 {
        Seq::empty()
    } else {
        let d = dedup(s.drop_last());
        if d.contains(s.last()) {
            d
        } else {
            d.push(s.last())
        }
    }
}

/// The candidate moves of orientation `orient`, without repeats.
pub open spec fn candidate_moves(occ: Occupancy, orient: u8) -> Seq<u16> {
    let runs = board_runs(occ, orient, 10);
    dedup(runs_candidates(runs, runs.len() as int))
}

fn add_unique(moves: &mut Vec<EncMove>, m: EncMove)
    ensures
        final(moves)@ == if old(moves)@.contains(m) {
            old(moves)@
        } else {
            old(moves)@.push(m)
        },
{
    let mut i: usize = 0;
    while i < moves.len()
        invariant
            i <= moves@.len(),
            moves@ == old(moves)@,
            forall|k: int| 0 <= k < i ==> moves@[k] != m,
        decreases moves@.len() - i,
    {
        if moves[i] == m {
            return;
        }
        i = i + 1;
    }
    moves.push(m);
}

fn split_value(l: usize, off: usize, len: usize) -> (r: i32)
    requires
        l <= 10,
        off + len <= l,
    ensures
        r == split_score(l as int, off as int, len as int),
{
    let left = off;
    let right = l - (off + len);
    let good: i32 = (if left >= 2 {
        1i32
    } else {
        0
    }) + (if right >= 2 {
        1i32
    } else {
        0
    });
    let wasted: i32 = (if left == 1 {
        1i32
    } else {
        0
    }) + (if right == 1 {
        1i32
    } else {
        0
    });
    50 * good - 15 * wasted - abs_diff(left, right) as i32
}

/// The (offset, length) candidates of a run of `l` cells, `7 <= l <= 10`.
fn long_segments(l: usize) -> (r: Vec<(usize, usize)>)
    requires
        7 <= l <= 10,
    ensures
        r@.len() == long_run_segments(l as int).len(),
        forall|k: int|
            0 <= k < r@.len() ==> (#[trigger] r@[k].0 as int, r@[k].1 as int) == long_run_segments(
                l as int,
            )[k],
        forall|k: int| 0 <= k < r@.len() ==> 2 <= (#[trigger] r@[k]).1 && r@[k].0 + r@[k].1 <= l,
{
    let mut segs: Vec<(usize, usize)> = Vec::new();
    segs.push((0, 2));
    segs.push((l - 2, 2));
    segs.push((0, 3));
    segs.push((l - 3, 3));
    segs.push((0, l));
    segs.push((0, l - 1));
    segs.push((1, l - 1));
    let mut trials: Vec<(usize, usize)> = Vec::new();
    let mut len: usize = 2;
    while len <= 4
        invariant
            7 <= l <= 10,
            2 <= len <= 5,
            trials@.len() == 3 * (len - 2),
            forall|k: int|
                0 <= k < trials@.len() ==> (#[trigger] trials@[k].0 as int, trials@[k].1 as int)
                    == split_trials(l as int)[k],
            forall|k: int|
                0 <= k < trials@.len() ==> (#[trigger] trials@[k]).0 + trials@[k].1 <= l && 2
                    <= trials@[k].1,
        decreases 5 - len,
    {
        let center = (l - len) / 2;
        let lo = if center >= 1 {
            center - 1
        } else {
            0
        };
        let hi = if center + 1 <= l - len {
            center + 1
        } else {
            l - len
        };
        trials.push((lo, len));
        trials.push((center, len));
        trials.push((hi, len));
        len = len + 1;
    }
    let mut best = trials[0];
    let mut best_sc = split_value(l, best.0, best.1);
    let mut k: usize = 1;
    while k < trials.len()
        invariant
            7 <= l <= 10,
            trials@.len() == 9,
            1 <= k <= 9,
            forall|j: int|
                0 <= j < trials@.len() ==> (#[trigger] trials@[j].0 as int, trials@[j].1 as int)
                    == split_trials(l as int)[j],
            forall|j: int|
                0 <= j < trials@.len() ==> (#[trigger] trials@[j]).0 + trials@[j].1 <= l && 2
                    <= trials@[j].1,
            2 <= best.1,
            (best.0 as int, best.1 as int) == best_trial(l as int, split_trials(l as int).take(k as int)),
            best.0 + best.1 <= l,
            best_sc == split_score(l as int, best.0 as int, best.1 as int),
        decreases 9 - k,
    {
        let t = trials[k];
        let sc = split_value(l, t.0, t.1);
        assert(split_trials(l as int).take(k + 1).drop_last() == split_trials(l as int).take(k as int));
        if sc > best_sc {
            best = t;
            best_sc = sc;
        }
        k = k + 1;
    }
    assert(split_trials(l as int).take(9) == split_trials(l as int));
    segs.push(best);
    assert(segs@.len() == head_segments(l as int).len());
    let offs: [usize; 5] = [0, l / 4, l / 2, (3 * l) / 4, l - 2];
    let mut o: usize = 0;
    while o < 5
        invariant
            7 <= l <= 10,
            o <= 5,
            forall|j: int| 0 <= j < 5 ==> offs@[j] == sample_offset(l as int, j),
            segs@.len() == (head_segments(l as int) + samples_upto(l as int, o as int)).len(),
            forall|j: int|
                0 <= j < segs@.len() ==> (#[trigger] segs@[j].0 as int, segs@[j].1 as int) == (
                head_segments(l as int) + samples_upto(l as int, o as int))[j],
            forall|j: int| 0 <= j < segs@.len() ==> 2 <= (#[trigger] segs@[j]).1 && segs@[j].0 + segs@[j].1 <= l,
        decreases 5 - o,
    {
        let off = offs[o];
        let ghost prefix = head_segments(l as int) + samples_upto(l as int, o as int);
        let mut len: usize = 2;
        while len <= 4
            invariant
                7 <= l <= 10,
                o < 5,
                off == sample_offset(l as int, o as int),
                2 <= len <= 5,
                prefix == head_segments(l as int) + samples_upto(l as int, o as int),
                segs@.len() == (prefix + samples_below(l as int, off as int, len as int)).len(),
                forall|j: int|
                    0 <= j < segs@.len() ==> (#[trigger] segs@[j].0 as int, segs@[j].1 as int) == (
                    prefix + samples_below(l as int, off as int, len as int))[j],
                forall|j: int| 0 <= j < segs@.len() ==> 2 <= (#[trigger] segs@[j]).1 && segs@[j].0 + segs@[j].1 <= l,
            decreases 5 - len,
        {
            if off + len <= l {
                segs.push((off, len));
            }
            proof {
                let next = prefix + samples_below(l as int, off as int, len + 1);
                let cur = prefix + samples_below(l as int, off as int, len as int);
                if off + len <= l {
                    assert(next =~= cur.push((off as int, len as int)));
                } else {
                    assert(next =~= cur);
                }
            }
            len = len + 1;
        }
        assert(head_segments(l as int) + samples_upto(l as int, o + 1) =~= prefix + samples_below(
            l as int,
            off as int,
            5,
        ));
        o = o + 1;
    }
    segs
}

/// Appends the candidate moves of `run`, repeats included.
fn push_run_candidates(raw: &mut Vec<EncMove>, run: Run)
    requires
        run_fits(run),
    ensures
        final(raw)@ == old(raw)@ + run_candidates(run),
        run.orient <= 1 && (forall|k: int| 0 <= k < old(raw)@.len() ==> move_in_range(#[trigger] old(raw)@[k]))
            ==> forall|k: int| 0 <= k < final(raw)@.len() ==> move_in_range(#[trigger] final(raw)@[k]),
{
    let l = run.len as usize;
    if l <= SHORT_RUN {
        push_run_moves(raw, run);
        return;
    }
    let base = run.start as usize;
    let delta: usize = if run.orient == 0 {
        BOARD_SIZE
    } else {
        1
    };
    let segs = long_segments(l);
    let ghost want = long_run_segments(l as int);
    let mut k: usize = 0;
    while k < segs.len()
        invariant
            run_fits(run),
            7 <= l <= 10,
            base == run.start,
            l == run.len,
            delta == step(run.orient),
            want == long_run_segments(l as int),
            k <= segs@.len(),
            segs@.len() == want.len(),
            forall|j: int| 0 <= j < segs@.len() ==> (#[trigger] segs@[j].0 as int, segs@[j].1 as int) == want[j],
            forall|j: int| 0 <= j < segs@.len() ==> 2 <= (#[trigger] segs@[j]).1 && segs@[j].0 + segs@[j].1 <= l,
            raw@ == old(raw)@ + segs_to_moves(run, want.take(k as int)),
            run.orient <= 1 && (forall|k: int| 0 <= k < old(raw)@.len() ==> move_in_range(#[trigger] old(raw)@[k]))
                ==> forall|k: int| 0 <= k < raw@.len() ==> move_in_range(#[trigger] raw@[k]),
        decreases segs@.len() - k,
    {
        let (off, len) = segs[k];
        assert(base + off * delta < 100) by (nonlinear_arith)
            requires
                off + len <= l,
                len >= 2,
                base + (l - 1) * delta < 100,
                delta >= 1,
        ;
        proof {
            if run.orient <= 1 {
                lemma_segment_in_range(base as int, off as int, len as int, l as int, delta as int, run.orient);
            }
        }
        raw.push(encode_move((base + off * delta) as u8, len as u8, run.orient));
        proof {
            assert(want.take(k + 1).drop_last() =~= want.take(k as int));
            assert(raw@ =~= old(raw)@ + segs_to_moves(run, want.take(k + 1)));
        }
        k = k + 1;
    }
    assert(want.take(segs@.len() as int) =~= want);
}

/// The candidate moves of orientation `orient`, without repeats: every
/// move of runs of at most six cells, and `long_run_segments` of longer
/// runs.
pub fn generate_candidate_moves(occ: Occupancy, orient: u8) -> (r: Vec<EncMove>)
    ensures
        r@ == candidate_moves(occ, orient),
        orient <= 1 ==> forall|k: int| 0 <= k < r@.len() ==> move_in_range(#[trigger] r@[k]),
{
    let runs = extract_runs(occ, orient);
    let mut moves: Vec<EncMove> = Vec::new();
    let mut i: usize = 0;
    while i < runs.len()
        invariant
            i <= runs@.len(),
            runs@ == board_runs(occ, orient, 10),
            forall|k: int| 0 <= k < runs@.len() ==> run_fits(#[trigger] runs@[k]) && runs@[k].orient == orient,
            moves@ == dedup(runs_candidates(runs@, i as int)),
            orient <= 1 ==> forall|k: int| 0 <= k < moves@.len() ==> move_in_range(#[trigger] moves@[k]),
        decreases runs@.len() - i,
    {
        let run = runs[i];
        assert(run.orient == orient);
        let mut raw: Vec<EncMove> = Vec::new();
        push_run_candidates(&mut raw, run);
        let ghost done = runs_candidates(runs@, i as int);
        let mut j: usize = 0;
        while j < raw.len()
            invariant
                j <= raw@.len(),
                raw@ == run_candidates(run),
                moves@ == dedup(done + raw@.take(j as int)),
                orient <= 1 ==> forall|k: int| 0 <= k < raw@.len() ==> move_in_range(#[trigger] raw@[k]),
                orient <= 1 ==> forall|k: int| 0 <= k < moves@.len() ==> move_in_range(#[trigger] moves@[k]),
            decreases raw@.len() - j,
        {
            add_unique(&mut moves, raw[j]);
            assert((done + raw@.take(j + 1)).drop_last() =~= done + raw@.take(j as int));
            j = j + 1;
        }
        assert(done + raw@.take(raw@.len() as int) =~= runs_candidates(runs@, i + 1));
        i = i + 1;
    }
    moves
}

/// The moves the search considers (see `generate_moves_dynamic`).
pub open spec fn dynamic_moves(occ: Occupancy, orient: u8) -> Seq<u16> {
    let runs = board_runs(occ, orient, 10);
    if runs.len() == 0 {
        Seq::empty()
    } else if estimate(runs, runs.len() as int) <= EXHAUSTIVE_LIMIT {
        all_moves(occ, orient)
    } else {
        candidate_moves(occ, orient)
    }
}

/// The moves of orientation `orient` that the search considers: none when
/// no run of two or more cells is left; every move when the estimated count
/// is at most `EXHAUSTIVE_LIMIT`; the candidate moves otherwise.
pub fn generate_moves_dynamic(occ: Occupancy, orient: u8) -> (r: Vec<EncMove>)
    ensures
        r@ == dynamic_moves(occ, orient),
        orient <= 1 ==> forall|k: int| 0 <= k < r@.len() ==> move_in_range(#[trigger] r@[k]),
{
    let runs = extract_runs(occ, orient);
    if runs.len() == 0 {
        return Vec::new();
    }
    let est = estimate_moves_from_runs(runs.as_slice());
    if est <= EXHAUSTIVE_LIMIT {
        generate_all_moves(occ, orient)
    } else {
        generate_candidate_moves(occ, orient)
    }
}

} // verus!
