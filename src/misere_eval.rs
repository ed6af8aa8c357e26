//! Static evaluation of misere positions from run metrics: per side, how
//! many runs it has (moves it surely gets), how many dominoes its runs hold
//! at most, and the same for runs that no run of the opponent crosses.
use vstd::prelude::*;
use crate::occupancy::{
    applied, apply_move, board_runs, covers, dynamic_moves, extract_runs, generate_moves_dynamic,
    move_in_range, run_fits, step, EncMove, Occupancy, Run,
};

verus! {

/// Run metrics of one side.
#[derive(Clone, Copy, Debug)]
pub struct Metrics {
    /// Number of runs.
    pub min: i32,
    /// Sum of half the run lengths.
    pub max: i32,
    /// Number of runs that no opponent run crosses.
    pub min_excl: i32,
    /// Sum of half their lengths.
    pub max_excl: i32,
}

impl Default for Metrics {
    fn default() -> (r: Metrics)
        ensures
            r.min == 0 && r.max == 0 && r.min_excl == 0 && r.max_excl == 0,
    {
        Metrics { min: 0, max: 0, min_excl: 0, max_excl: 0 }
    }
}

/// Some of the first `k` cells from `start` by `delta` is blocked.
pub open spec fn hits(blocked: spec_fn(int) -> bool, start: int, delta: int, k: int) -> bool
    decreases k,
{
    k > 0 && (hits(blocked, start, delta, k - 1) || blocked(start + (k - 1) * delta))
}

/// Cell `j` lies in one of the first `n` runs.
pub open spec fn in_runs(runs: Seq<Run>, n: int, j: int) -> bool
    decreases n,
{
    n > 0 && (in_runs(runs, n - 1, j) || covers(
        runs[n - 1].start as int,
        runs[n - 1].len as int,
        step(runs[n - 1].orient),
        j,
    ))
}

/// The board cells filled in `mask`.
pub open spec fn mask_cells(mask: Occupancy) -> spec_fn(int) -> bool {
    |j: int| 0 <= j < 100 && mask.filled(j)
}

/// The board cells of the runs.
pub open spec fn run_cells(runs: Seq<Run>) -> spec_fn(int) -> bool {
    |j: int| 0 <= j < 100 && in_runs(runs, runs.len() as int, j)
}

/// The metrics (run count, half-length sum, and both for the runs with no
/// blocked cell) of the first `n` runs.
pub open spec fn metric_counts(runs: Seq<Run>, blocked: spec_fn(int) -> bool, n: int) -> (
    int,
    int,
    int,
    int,
)
    decreases n,
{
    if n <= 0 {
        (0, 0, 0, 0)
    } else {
        let m = metric_counts(runs, blocked, n - 1);
        let r = runs[n - 1];
        let half = r.len / 2;
        if hits(blocked, r.start as int, step(r.orient), r.len as int) {
            (m.0 + 1, m.1 + half, m.2, m.3)
        } else {
            (m.0 + 1, m.1 + half, m.2 + 1, m.3 + half)
        }
    }
}

/// The metrics of orientation `orient` against the cells of `opp_runs`.
pub open spec fn side_metrics(occ: Occupancy, orient: u8, opp_runs: Seq<Run>) -> (int, int, int, int) {
    let runs = board_runs(occ, orient, 10);
    metric_counts(runs, run_cells(opp_runs), runs.len() as int)
}

/// `a / b` rounded toward zero, for `b > 0`.
pub open spec fn div_toward_zero(a: int, b: int) -> int {
    if a >= 0 {
        a / b
    } else {
        -((-a) / b)
    }
}

/// Ten times the difference of the two sides' max/min ratios (a side with
/// no run has ratio 0), rounded toward zero.
pub open spec fn efficiency(my: (int, int, int, int), opp: (int, int, int, int)) -> int {
    if my.0 > 0 && opp.0 > 0 {
        div_toward_zero(10 * (my.1 * opp.0 - opp.1 * my.0), my.0 * opp.0)
    } else if my.0 > 0 {
        div_toward_zero(10 * my.1, my.0)
    } else if opp.0 > 0 {
        div_toward_zero(-10 * opp.1, opp.0)
    } else {
        0
    }
}

/// The misere score of metrics `my` (side to move) against `opp`.
pub open spec fn misere_score(my: (int, int, int, int), opp: (int, int, int, int)) -> int {
    (my.3 - opp.3) * 50 + ((my.1 - my.0) - (opp.1 - opp.0)) * 15 + (if opp.0 > 0 {
        opp.0 * 30
    } else {
        0
    }) + (if my.3 >= opp.1 && my.3 > 0 {
        200 + (my.3 - opp.1) * 25
    } else {
        0
    }) + (if my.1 + opp.1 <= 10 {
        (if opp.2 == 0 && my.2 > 0 {
            150int
        } else {
            0
        }) + (if opp.0 > my.0 {
            (opp.0 - my.0) * 40
        } else {
            0
        })
    } else {
        0
    }) - (if my.3 <= opp.1 {
        my.0 * 10
    } else {
        0
    }) + efficiency(my, opp)
}

/// The static score of a position for the side to move (0 vertical, any
/// other value horizontal).
pub open spec fn misere_evaluation(occ: Occupancy, side_to_move: u8) -> int {
    let runs_v = board_runs(occ, 0, 10);
    let runs_h = board_runs(occ, 1, 10);
    let m_v = side_metrics(occ, 0, runs_h);
    let m_h = side_metrics(occ, 1, runs_v);
    if side_to_move == 0 {
        misere_score(m_v, m_h)
    } else {
        misere_score(m_h, m_v)
    }
}

/// Ordering score of a move: a move that leaves the opponent without moves
/// loses at once in the misere game; otherwise the child's evaluation from
/// the mover's view.
pub open spec fn cheap_score(occ: Occupancy, mv: u16, side_to_move: u8) -> int {
    let child = applied(occ, mv);
    let opp = (1 - side_to_move) as u8;
    if dynamic_moves(child, opp).len() == 0 {
        -1_000_000
    } else {
        -misere_evaluation(child, opp)
    }
}

/// Fills the cells of `run` in `mask`.
fn add_run_cells(mask: Occupancy, run: Run) -> (r: Occupancy)
    requires
        run_fits(run),
    ensures
        forall|j: int|
            0 <= j < 128 ==> r.filled(j) == (mask.filled(j) || covers(
                run.start as int,
                run.len as int,
                step(run.orient),
                j,
            )),
{
    let delta: usize = if run.orient == 0 {
        10
    } else {
        1
    };
    let mut mask = mask;
    let ghost first = mask;
    let mut idx: usize = run.start as usize;
    let mut k: usize = 0;
    while k < run.len as usize
        invariant
            run_fits(run),
            k <= run.len,
            idx == run.start + k * delta,
            delta == step(run.orient),
            forall|j: int|
                0 <= j < 128 ==> mask.filled(j) == (first.filled(j) || covers(
                    run.start as int,
                    k as int,
                    delta as int,
                    j,
                )),
        decreases run.len - k,
    {
        assert(idx < 100) by (nonlinear_arith)
            requires
                idx == run.start + k * delta,
                k < run.len,
                run.start + (run.len - 1) * delta < 100,
                delta >= 1,
        ;
        mask.set(idx);
        assert(idx + delta == run.start + (k + 1) * delta) by (nonlinear_arith)
            requires
                idx == run.start + k * delta,
        ;
        idx = idx + delta;
        k = k + 1;
    }
    mask
}

/// Some cell of `run` is filled in `mask`.
fn run_overlaps(mask: Occupancy, run: Run) -> (r: bool)
    requires
        run_fits(run),
    ensures
        r == hits(mask_cells(mask), run.start as int, step(run.orient), run.len as int),
{
    let delta: usize = if run.orient == 0 {
        10
    } else {
        1
    };
    let mut idx: usize = run.start as usize;
    let mut k: usize = 0;
    while k < run.len as usize
        invariant
            run_fits(run),
            k <= run.len,
            idx == run.start + k * delta,
            delta == step(run.orient),
            !hits(mask_cells(mask), run.start as int, delta as int, k as int),
        decreases run.len - k,
    {
        assert(idx < 100) by (nonlinear_arith)
            requires
                idx == run.start + k * delta,
                k < run.len,
                run.start + (run.len - 1) * delta < 100,
                delta >= 1,
        ;
        if mask.is_set(idx) {
            proof {
                lemma_hits_grow(mask_cells(mask), run.start as int, delta as int, k + 1, run.len as int);
            }
            return true;
        }
        assert(idx + delta == run.start + (k + 1) * delta) by (nonlinear_arith)
            requires
                idx == run.start + k * delta,
        ;
        idx = idx + delta;
        k = k + 1;
    }
    false
}

proof fn lemma_hits_grow(blocked: spec_fn(int) -> bool, start: int, delta: int, k: int, n: int)
    requires
        hits(blocked, start, delta, k),
        k <= n,
    ensures
        hits(blocked, start, delta, n),
    decreases n - k,
{
    if k < n {
        lemma_hits_grow(blocked, start, delta, k, n - 1);
    }
}

/// The metrics of the runs of orientation `orient` against the cells
/// filled in `opp_playable_mask`.
fn compute_metrics(occ: Occupancy, orient: u8, opp_playable_mask: Occupancy) -> (r: Metrics)
    ensures
        (r.min as int, r.max as int, r.min_excl as int, r.max_excl as int) == ({
            let runs = board_runs(occ, orient, 10);
            metric_counts(runs, mask_cells(opp_playable_mask), runs.len() as int)
        }),
        0 <= r.min <= 110,
        0 <= r.max <= 550,
        0 <= r.min_excl <= 110,
        0 <= r.max_excl <= 550,
{
    let runs = extract_runs(occ, orient);
    let mut m = Metrics::default();
    let mut i: usize = 0;
    while i < runs.len()
        invariant
            i <= runs@.len(),
            runs@.len() <= 110,
            runs@ == board_runs(occ, orient, 10),
            forall|k: int| 0 <= k < runs@.len() ==> run_fits(#[trigger] runs@[k]),
            (m.min as int, m.max as int, m.min_excl as int, m.max_excl as int) == metric_counts(
                runs@,
                mask_cells(opp_playable_mask),
                i as int,
            ),
            0 <= m.min <= i,
            0 <= m.max <= 5 * i,
            0 <= m.min_excl <= i,
            0 <= m.max_excl <= 5 * i,
        decreases runs@.len() - i,
    {
        let r = runs[i];
        assert(run_fits(runs@[i as int]));
        let half = (r.len as i32) / 2;
        m.min = m.min + 1;
        m.max = m.max + half;
        let exclusive = !run_overlaps(opp_playable_mask, r);
        if exclusive {
            m.min_excl = m.min_excl + 1;
            m.max_excl = m.max_excl + half;
        }
        i = i + 1;
    }
    m
}

pub(crate) fn div_toward_zero_exec(a: i32, b: i32) -> (r: i32)
    requires
        b > 0,
        -10_000_000 <= a <= 10_000_000,
    ensures
        r == div_toward_zero(a as int, b as int),
{
    if a >= 0 {
        a / b
    } else {
        -((-a) / b)
    }
}

/// The static misere score of a position for the side to move.
pub fn evaluate_misere(occ: Occupancy, side_to_move: u8) -> (r: i32)
    ensures
        r == misere_evaluation(occ, side_to_move),
        -700_000 <= r <= 700_000,
{
    let runs_v = extract_runs(occ, 0);
    let runs_h = extract_runs(occ, 1);
    let mut mask_v = Occupancy::default();
    let mut mask_h = Occupancy::default();
    proof {
        assert forall|j: u64| j < 64 implies !crate::bitboard::bit_set(0u64, j) by {
            assert((0u64 >> j) & 1u64 == 0u64) by (bit_vector);
        }
    }
    let mut i: usize = 0;
    while i < runs_v.len()
        invariant
            i <= runs_v@.len(),
            forall|k: int| 0 <= k < runs_v@.len() ==> run_fits(#[trigger] runs_v@[k]),
            forall|j: int| 0 <= j < 128 ==> mask_v.filled(j) == in_runs(runs_v@, i as int, j),
        decreases runs_v@.len() - i,
    {
        mask_v = add_run_cells(mask_v, runs_v[i]);
        i = i + 1;
    }
    let mut i: usize = 0;
    while i < runs_h.len()
        invariant
            i <= runs_h@.len(),
            forall|k: int| 0 <= k < runs_h@.len() ==> run_fits(#[trigger] runs_h@[k]),
            forall|j: int| 0 <= j < 128 ==> mask_h.filled(j) == in_runs(runs_h@, i as int, j),
        decreases runs_h@.len() - i,
    {
        mask_h = add_run_cells(mask_h, runs_h[i]);
        i = i + 1;
    }
    let m_v = compute_metrics(occ, 0, mask_h);
    let m_h = compute_metrics(occ, 1, mask_v);
    assert(mask_cells(mask_h) =~= run_cells(runs_h@));
    assert(mask_cells(mask_v) =~= run_cells(runs_v@));
    if side_to_move == 0 {
        score_metrics(m_v, m_h)
    } else {
        score_metrics(m_h, m_v)
    }
}

/// The four metrics as integers.
pub open spec fn metric_tuple(m: Metrics) -> (int, int, int, int) {
    (m.min as int, m.max as int, m.min_excl as int, m.max_excl as int)
}

pub open spec fn metrics_bounded(m: Metrics) -> bool {
    &&& 0 <= m.min <= 110
    &&& 0 <= m.max <= 550
    &&& 0 <= m.min_excl <= 110
    &&& 0 <= m.max_excl <= 550
}

proof fn lemma_div_toward_zero_bound(a: int, b: int)
    requires
        b >= 1,
    ensures
        -(if a >= 0 { a } else { -a }) <= div_toward_zero(a, b) <= (if a >= 0 { a } else { -a }),
{
    if a >= 0 {
        assert(0 <= a / b <= a) by (nonlinear_arith)
            requires
                a >= 0,
                b >= 1,
        ;
    } else {
        assert(0 <= (-a) / b <= -a) by (nonlinear_arith)
            requires
                -a >= 0,
                b >= 1,
        ;
    }
}

fn efficiency_of(my: Metrics, opp: Metrics) -> (r: i32)
    requires
        metrics_bounded(my),
        metrics_bounded(opp),
    ensures
        r == efficiency(metric_tuple(my), metric_tuple(opp)),
        -605_000 <= r <= 605_000,
{
    if my.min > 0 && opp.min > 0 {
        assert(0 <= my.max * opp.min <= 60_500) by (nonlinear_arith)
            requires
                0 <= my.max <= 550,
                0 < opp.min <= 110,
        ;
        assert(0 <= opp.max * my.min <= 60_500) by (nonlinear_arith)
            requires
                0 <= opp.max <= 550,
                0 < my.min <= 110,
        ;
        assert(1 <= my.min * opp.min <= 12_100) by (nonlinear_arith)
            requires
                0 < my.min <= 110,
                0 < opp.min <= 110,
        ;
        let a = 10 * (my.max * opp.min - opp.max * my.min);
        let b = my.min * opp.min;
        proof {
            lemma_div_toward_zero_bound(a as int, b as int);
        }
        div_toward_zero_exec(a, b)
    } else if my.min > 0 {
        proof {
            lemma_div_toward_zero_bound(10 * my.max, my.min as int);
        }
        div_toward_zero_exec(10 * my.max, my.min)
    } else if opp.min > 0 {
        proof {
            lemma_div_toward_zero_bound(-10 * opp.max, opp.min as int);
        }
        div_toward_zero_exec(-10 * opp.max, opp.min)
    } else {
        0
    }
}

#[verifier::rlimit(50)]
fn score_metrics(my: Metrics, opp: Metrics) -> (r: i32)
    requires
        metrics_bounded(my),
        metrics_bounded(opp),
    ensures
        r == misere_score(metric_tuple(my), metric_tuple(opp)),
        -700_000 <= r <= 700_000,
{
    let mut score: i32 = 0;
    score = score + (my.max_excl - opp.max_excl) * 50;
    score = score + ((my.max - my.min) - (opp.max - opp.min)) * 15;
    if opp.min > 0 {
        score = score + opp.min * 30;
    }
    if my.max_excl >= opp.max && my.max_excl > 0 {
        score = score + 200;
        score = score + (my.max_excl - opp.max) * 25;
    }
    let total_max = my.max + opp.max;
    if total_max <= 10 {
        if opp.min_excl == 0 && my.min_excl > 0 {
            score = score + 150;
        }
        if opp.min > my.min {
            score = score + (opp.min - my.min) * 40;
        }
    }
    if my.max_excl <= opp.max {
        score = score - my.min * 10;
    }
    score + efficiency_of(my, opp)
}

/// Ordering score of a move for the side to move (see `cheap_score`).
pub fn cheap_move_score(occ: Occupancy, mv: EncMove, side_to_move: u8) -> (r: i32)
    requires
        move_in_range(mv),
        side_to_move <= 1,
    ensures
        r == cheap_score(occ, mv, side_to_move),
        -1_000_000 <= r <= 700_000,
{
    let child = apply_move(occ, mv);
    let opp = 1u8 - side_to_move;
    let opp_moves = generate_moves_dynamic(child, opp);
    if opp_moves.len() == 0 {
        return -1_000_000;
    }
    -evaluate_misere(child, opp)
}

} // verus!
