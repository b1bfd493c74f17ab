//! Per-game scoring.
//!
//! The score is kept exactly, as an integer count of score units. One unit
//! is `1 / score_denominator(void_total)` points, with
//! `score_denominator(v) = 20 * max(v, 1)`. In these units every reward,
//! penalty and bonus of the scoring rules is a whole number:
//!
//! - a safe (non-void) explore at streak `k` earns `1 + 0.1 * min(k, 10)`
//!   points, i.e. `2 * (10 + min(k, 10)) * max(v, 1)` units;
//! - a void explore costs the risk-balanced penalty `(1 - p) / p` with
//!   `p = v / total`, i.e. `20 * (total - v)` units (nothing when the map
//!   has no voids or no cells);
//! - clearing every safe cell earns the completion bonus
//!   `0.25 * safe_total` points, i.e. `5 * safe_total * max(v, 1)` units.
use vstd::prelude::*;

verus! {

/// Maximum number of streak steps that contribute to the multiplier.
pub const STREAK_BONUS_CAP_STEPS: u32 = 10;

/// Scoring counters of one game.
#[derive(Clone, Copy, Debug, PartialEq, Eq, Structural)]
pub struct ScoreState {
    /// Risk-balanced point total in score units (may be negative).
    pub score_units: i128,
    /// Non-void cells explored so far.
    pub safe_explored: u32,
    /// Void cells explored so far.
    pub void_explored: u32,
    /// Current run of consecutive safe explores; resets to 0 on a void.
    pub streak: u32,
    /// Longest streak achieved during this game.
    pub best_streak: u32,
    /// Total cells on the map.
    pub total_cells: u32,
    /// Void cell count.
    pub void_total: u32,
    /// True once every non-void cell has been explored.
    pub completed: bool,
}

/// `max(void_total, 1)`, the factor that makes the void penalty whole.
pub open spec fn void_factor(void_total: u32) -> int {
    if void_total == 0 { 1 } else { void_total as int }
}

/// Number of score units in one point.
pub open spec fn spec_score_denominator(void_total: u32) -> int {
    20 * void_factor(void_total)
}

/// Streak multiplier in tenths: `10 + min(streak, 10)`.
pub open spec fn spec_multiplier_tenths(streak: u32) -> int {
    10 + if streak < STREAK_BONUS_CAP_STEPS { streak as int } else { STREAK_BONUS_CAP_STEPS as int }
}

/// Units earned by a safe explore at the given streak.
pub open spec fn spec_safe_reward_units(streak: u32, void_total: u32) -> int {
    2 * spec_multiplier_tenths(streak) * void_factor(void_total)
}

/// Units lost by a void explore.
pub open spec fn spec_void_penalty_units(total_cells: u32, void_total: u32) -> int {
    if void_total == 0 || total_cells == 0 {
        0
    } else {
        20 * (total_cells - void_total)
    }
}

/// Units of the one-shot completion bonus.
pub open spec fn spec_completion_bonus_units(safe_total: u32, void_total: u32) -> int {
    5 * safe_total * void_factor(void_total)
}

/// `a + 1`, saturating at `u32::MAX`.
pub open spec fn sat_inc(a: u32) -> u32 {
    if a == u32::MAX { u32::MAX } else { (a + 1) as u32 }
}

/// `x` clamped into the range of `i128`.
pub open spec fn clamp_i128(x: int) -> i128 {
    if x > i128::MAX { i128::MAX } else if x < i128::MIN { i128::MIN } else { x as i128 }
}

/// Sum of the streak multipliers (in tenths) of the first `n` safe explores.
pub open spec fn ramp_tenths(n: nat) -> int
    decreases n,
{
    if n == 0 {
        0
    } else {
        ramp_tenths((n - 1) as nat) + spec_multiplier_tenths((n - 1) as u32)
    }
}

/// Maximum achievable score in units: every safe cell explored at the
/// capped streak ramp, plus the completion bonus; `None` without safe cells.
pub open spec fn spec_max_score_units(safe_total: u32, void_total: u32) -> Option<int> {
    if safe_total == 0 {
        None
    } else {
        Some(
            2 * ramp_tenths(safe_total as nat) * void_factor(void_total)
                + spec_completion_bonus_units(safe_total, void_total),
        )
    }
}

/// Number of safe (non-void) explores in `moves`, where `true` marks a void.
pub open spec fn safe_moves(moves: Seq<bool>) -> nat
    decreases moves.len(),
{
    if moves.len() == 0 {
        0
    } else {
        safe_moves(moves.drop_last()) + if moves.last() { 0nat } else { 1nat }
    }
}

/// `k` safe explores in a row.
pub open spec fn safe_run(k: nat) -> Seq<bool> {
    Seq::new(k, |i: int| false)
}

impl ScoreState {
    /// The state after exploring, in order, one newly explored cell per entry
    /// of `moves` (`true` marks a void).
    pub open spec fn explored_all(self, moves: Seq<bool>) -> ScoreState
        decreases moves.len(),
    {
        if moves.len() == 0 {
            self
        } else {
            self.explored_all(moves.drop_last()).explored(moves.last())
        }
    }

    /// The all-zero state.
    pub open spec fn zero() -> ScoreState {
        ScoreState {
            score_units: 0,
            safe_explored: 0,
            void_explored: 0,
            streak: 0,
            best_streak: 0,
            total_cells: 0,
            void_total: 0,
            completed: false,
        }
    }

    /// `total_cells - void_total`, saturating at zero.
    pub open spec fn safe_total(self) -> u32 {
        if self.total_cells >= self.void_total {
            (self.total_cells - self.void_total) as u32
        } else {
            0
        }
    }

    /// The state with `completed` recomputed from the counters.
    pub open spec fn recomputed(self) -> ScoreState {
        ScoreState {
            completed: self.safe_total() > 0 && self.safe_explored >= self.safe_total(),
            ..self
        }
    }

    /// Fresh counters for a map of `total_cells` cells of which `void_total` are void
    /// (the void count is capped at the cell count).
    pub open spec fn for_map(total_cells: u32, void_total: u32) -> ScoreState {
        ScoreState {
            total_cells,
            void_total: if void_total < total_cells { void_total } else { total_cells },
            ..ScoreState::zero()
        }.recomputed()
    }

    /// The counters right after one explore, before the completion bonus.
    pub open spec fn counted(self, is_void: bool) -> ScoreState {
        if is_void {
            ScoreState {
                void_explored: sat_inc(self.void_explored),
                streak: 0,
                score_units: clamp_i128(
                    self.score_units - spec_void_penalty_units(self.total_cells, self.void_total),
                ),
                ..self
            }
        } else {
            let streak = sat_inc(self.streak);
            ScoreState {
                safe_explored: sat_inc(self.safe_explored),
                score_units: clamp_i128(
                    self.score_units + spec_safe_reward_units(self.streak, self.void_total),
                ),
                streak,
                best_streak: if streak > self.best_streak { streak } else { self.best_streak },
                ..self
            }
        }
    }

    /// The state after exploring one newly explored cell.
    pub open spec fn explored(self, is_void: bool) -> ScoreState {
        let next = self.counted(is_void).recomputed();
        if !self.completed && next.completed {
            ScoreState {
                score_units: clamp_i128(
                    next.score_units + spec_completion_bonus_units(next.safe_total(), next.void_total),
                ),
                ..next
            }
        } else {
            next
        }
    }

    /// Number of score units in one point of this game.
    pub fn score_denominator(&self) -> (d: u64)
        ensures
            d == spec_score_denominator(self.void_total),
    {
        if self.void_total == 0 {
            20
        } else {
            20 * (self.void_total as u64)
        }
    }

    /// Reset all scoring counters and record the realized cell / void counts.
    pub fn reset_for_map(&mut self, total_cells: u32, void_total: u32)
        ensures
            *final(self) == ScoreState::for_map(total_cells, void_total),
    {
        let capped = if void_total < total_cells { void_total } else { total_cells };
        *self = ScoreState {
            score_units: 0,
            safe_explored: 0,
            void_explored: 0,
            streak: 0,
            best_streak: 0,
            total_cells,
            void_total: capped,
            completed: false,
        };
        self.recompute_derived();
    }

    fn recompute_derived(&mut self)
        ensures
            *final(self) == old(self).recomputed(),
    {
        let safe_total = self.total_cells.saturating_sub(self.void_total);
        self.completed = safe_total > 0 && self.safe_explored >= safe_total;
    }

    /// Apply the score change for a single newly explored cell; `is_void` is
    /// the cell's void status.
    pub fn explore(&mut self, is_void: bool)
        ensures
            *final(self) == old(self).explored(is_void),
    {
        let was_completed = self.completed;
        if is_void {
            self.void_explored = self.void_explored.saturating_add(1);
            self.streak = 0;
            let penalty = void_penalty_units(self.total_cells, self.void_total);
            self.score_units = saturating_add_i128(self.score_units, -penalty);
        } else {
            self.safe_explored = self.safe_explored.saturating_add(1);
            let reward = safe_reward_units(self.streak, self.void_total);
            self.score_units = saturating_add_i128(self.score_units, reward);
            self.streak = self.streak.saturating_add(1);
            if self.streak > self.best_streak {
                self.best_streak = self.streak;
            }
        }
        self.recompute_derived();
        if !was_completed && self.completed {
            let safe_total = self.total_cells.saturating_sub(self.void_total);
            let bonus = completion_bonus_units(safe_total, self.void_total);
            self.score_units = saturating_add_i128(self.score_units, bonus);
        }
    }
}

impl Default for ScoreState {
    fn default() -> (s: ScoreState)
        ensures
            s == ScoreState::zero(),
    {
        ScoreState {
            score_units: 0,
            safe_explored: 0,
            void_explored: 0,
            streak: 0,
            best_streak: 0,
            total_cells: 0,
            void_total: 0,
            completed: false,
        }
    }
}

/// `a + b`, clamped into the range of `i128`.
fn saturating_add_i128(a: i128, b: i128) -> (r: i128)
    ensures
        r == clamp_i128(a + b),
{
    match a.checked_add(b) {
        Some(s) => s,
        None => if b > 0 { i128::MAX } else { i128::MIN },
    }
}

/// Streak multiplier in tenths of a point: `10 + min(streak, 10)`.
pub fn streak_multiplier_tenths(streak: u32) -> (m: u32)
    ensures
        m == spec_multiplier_tenths(streak),
{
    let capped = if streak < STREAK_BONUS_CAP_STEPS { streak } else { STREAK_BONUS_CAP_STEPS };
    10 + capped
}

/// Units earned by a safe explore at the given streak.
pub fn safe_reward_units(streak: u32, void_total: u32) -> (r: i128)
    ensures
        r == spec_safe_reward_units(streak, void_total),
{
    let factor: i128 = if void_total == 0 { 1 } else { void_total as i128 };
    let tenths = streak_multiplier_tenths(streak) as i128;
    assert(0 <= tenths <= 20 && 1 <= factor <= u32::MAX);
    assert(2 * tenths * factor <= 40 * (u32::MAX as int)) by (nonlinear_arith)
        requires 0 <= tenths <= 20, 1 <= factor <= u32::MAX;
    2 * tenths * factor
}

/// Risk-balanced void penalty in units: `20 * (total_cells - void_total)`,
/// zero for maps with no voids or no cells.
pub fn void_penalty_units(total_cells: u32, void_total: u32) -> (p: i128)
    ensures
        p == spec_void_penalty_units(total_cells, void_total),
{
    if void_total == 0 || total_cells == 0 {
        0
    } else {
        20 * (total_cells as i128 - void_total as i128)
    }
}

/// Units of the completion bonus for a map with `safe_total` safe cells.
pub fn completion_bonus_units(safe_total: u32, void_total: u32) -> (b: i128)
    ensures
        b == spec_completion_bonus_units(safe_total, void_total),
{
    let factor: i128 = if void_total == 0 { 1 } else { void_total as i128 };
    let s = safe_total as i128;
    assert(5 * s * factor <= 5 * (u32::MAX as int) * (u32::MAX as int)) by (nonlinear_arith)
        requires 0 <= s <= u32::MAX, 1 <= factor <= u32::MAX;
    assert(0 <= 5 * s * factor) by (nonlinear_arith)
        requires 0 <= s, 1 <= factor;
    5 * s * factor
}

proof fn lemma_ramp_bound(n: nat)
    ensures
        10 * n <= ramp_tenths(n) <= 20 * n,
    decreases n,
{
    if n > 0 {
        lemma_ramp_bound((n - 1) as nat);
    }
}

/// Maximum achievable score in units for a map with `safe_total` safe cells:
/// every safe cell explored at the capped streak ramp, plus the completion
/// bonus, and no explored voids. `None` when there are no safe cells.
pub fn max_score_units(safe_total: u32, void_total: u32) -> (m: Option<u128>)
    ensures
        match spec_max_score_units(safe_total, void_total) {
            None => m is None,
            Some(v) => m == Some(v as u128),
        },
{
    if safe_total == 0 {
        return None;
    }
    let mut tenths: u64 = 0;
    let mut i: u32 = 0;
    while i < safe_total
        invariant
            i <= safe_total,
            tenths == ramp_tenths(i as nat),
        decreases safe_total - i,
    {
        proof {
            lemma_ramp_bound(i as nat);
        }
        tenths = tenths + streak_multiplier_tenths(i) as u64;
        i = i + 1;
    }
    proof {
        lemma_ramp_bound(safe_total as nat);
    }
    let factor: u128 = if void_total == 0 { 1 } else { void_total as u128 };
    let t = tenths as u128;
    let s = safe_total as u128;
    assert(2 * t * factor <= 40 * (u32::MAX as int) * (u32::MAX as int)) by (nonlinear_arith)
        requires t <= 20 * (u32::MAX as int), 1 <= factor <= u32::MAX;
    assert(5 * s * factor <= 5 * (u32::MAX as int) * (u32::MAX as int)) by (nonlinear_arith)
        requires s <= u32::MAX, 1 <= factor <= u32::MAX;
    Some(2 * t * factor + 5 * s * factor)
}

/// Risk balance: on a map with `total_cells` cells of which `void_total`
/// are void, a uniformly random first click has expected score zero, i.e.
/// the safe cells' reward at streak zero, weighted by their number, equals
/// the void cells' penalty weighted by theirs.
pub proof fn random_click_expects_zero(total_cells: u32, void_total: u32)
    requires
        0 < void_total <= total_cells,
    ensures
        (total_cells - void_total) * spec_safe_reward_units(0, void_total)
            == void_total * spec_void_penalty_units(total_cells, void_total),
{
    let t = total_cells as int;
    let v = void_total as int;
    assert((t - v) * (2 * 10 * v) == v * (20 * (t - v))) by (nonlinear_arith);
}


proof fn lemma_ramp_monotone(a: nat, b: nat)
    requires
        a <= b,
    ensures
        ramp_tenths(a) <= ramp_tenths(b),
    decreases b,
{
    if a < b {
        lemma_ramp_monotone(a, (b - 1) as nat);
    }
}

/// What the counters are after any sequence of explores from a reset.
proof fn lemma_counters(total_cells: u32, void_total: u32, moves: Seq<bool>)
    ensures
        ({
            let start = ScoreState::for_map(total_cells, void_total);
            let s = start.explored_all(moves);
            &&& s.total_cells == start.total_cells
            &&& s.void_total == start.void_total
            &&& s.safe_explored == if safe_moves(moves) < u32::MAX {
                safe_moves(moves)
            } else {
                u32::MAX as nat
            }
            &&& s.streak <= s.safe_explored
            &&& s.completed == (start.safe_total() > 0 && safe_moves(moves) >= start.safe_total())
        }),
    decreases moves.len(),
{
    if moves.len() > 0 {
        lemma_counters(total_cells, void_total, moves.drop_last());
    }
}

/// After a reset for a map, over any sequence of explores: the cell and void
/// totals stay as the reset set them; the game counts as completed exactly
/// when the safe explores so far have reached the safe total; and the last
/// explore adds the completion bonus exactly when it is the one that reaches
/// the safe total.
pub proof fn completion_follows_safe_explores(
    total_cells: u32,
    void_total: u32,
    moves: Seq<bool>,
)
    ensures
        ({
            let start = ScoreState::for_map(total_cells, void_total);
            let s = start.explored_all(moves);
            &&& s.total_cells == total_cells
            &&& s.void_total == start.void_total
            &&& s.completed == (start.safe_total() > 0 && safe_moves(moves)
                >= start.safe_total())
            &&& moves.len() > 0 ==> {
                let before = start.explored_all(moves.drop_last());
                let bonus = if safe_moves(moves.drop_last()) < start.safe_total() <= safe_moves(
                    moves,
                ) {
                    spec_completion_bonus_units(start.safe_total(), start.void_total)
                } else {
                    0
                };
                s.score_units == clamp_i128(before.counted(moves.last()).score_units + bonus)
            }
        }),
{
    lemma_counters(total_cells, void_total, moves);
    if moves.len() > 0 {
        lemma_counters(total_cells, void_total, moves.drop_last());
    }
}

/// The running score after explores that take no safe cell twice is bounded
/// by the streak ramp of the safe explores so far, plus the bonus once the
/// game is completed.
proof fn lemma_score_bound(total_cells: u32, void_total: u32, moves: Seq<bool>)
    requires
        safe_moves(moves) <= ScoreState::for_map(total_cells, void_total).safe_total(),
    ensures
        ({
            let start = ScoreState::for_map(total_cells, void_total);
            let s = start.explored_all(moves);
            s.score_units <= 2 * ramp_tenths(safe_moves(moves)) * void_factor(start.void_total)
                + if s.completed {
                spec_completion_bonus_units(start.safe_total(), start.void_total)
            } else {
                0
            }
        }),
    decreases moves.len(),
{
    let start = ScoreState::for_map(total_cells, void_total);
    let f = void_factor(start.void_total);
    let st = start.safe_total();
    let bonus = spec_completion_bonus_units(st, start.void_total);
    assert(bonus >= 0) by (nonlinear_arith)
        requires
            bonus == 5 * st * f,
            f >= 1,
    ;
    if moves.len() > 0 {
        let prefix = moves.drop_last();
        let m = moves.last();
        let n = safe_moves(prefix);
        lemma_score_bound(total_cells, void_total, prefix);
        lemma_counters(total_cells, void_total, prefix);
        lemma_counters(total_cells, void_total, moves);
        let a = start.explored_all(prefix);
        let s = start.explored_all(moves);
        let r = ramp_tenths(n);
        lemma_ramp_bound(n);
        assert(2 * r * f >= 0) by (nonlinear_arith)
            requires
                r >= 0,
                f >= 1,
        ;
        if m {
            assert(s.score_units <= a.score_units);
        } else {
            assert(n < st);
            let k = a.streak;
            let mk = spec_multiplier_tenths(k);
            let mn = spec_multiplier_tenths(n as u32);
            assert(mk <= mn);
            assert(ramp_tenths(n + 1) == r + mn);
            assert(2 * mk * f <= 2 * mn * f) by (nonlinear_arith)
                requires
                    mk <= mn,
                    f >= 1,
            ;
            assert(2 * (r + mn) * f == 2 * r * f + 2 * mn * f) by (nonlinear_arith);
            assert(2 * mn * f >= 0) by (nonlinear_arith)
                requires
                    mn >= 0,
                    f >= 1,
            ;
        }
    }
}

/// Over explores after a reset that take each safe cell at most once, the
/// running score never exceeds the maximum score of the map.
pub proof fn score_never_exceeds_max(total_cells: u32, void_total: u32, moves: Seq<bool>)
    requires
        ScoreState::for_map(total_cells, void_total).safe_total() > 0,
        safe_moves(moves) <= ScoreState::for_map(total_cells, void_total).safe_total(),
    ensures
        ({
            let start = ScoreState::for_map(total_cells, void_total);
            &&& spec_max_score_units(start.safe_total(), start.void_total) matches Some(max)
            &&& start.explored_all(moves).score_units <= max
        }),
{
    let start = ScoreState::for_map(total_cells, void_total);
    let f = void_factor(start.void_total);
    let st = start.safe_total();
    let n = safe_moves(moves);
    lemma_score_bound(total_cells, void_total, moves);
    lemma_ramp_monotone(n, st as nat);
    let rn = ramp_tenths(n);
    let rs = ramp_tenths(st as nat);
    assert(2 * rn * f <= 2 * rs * f) by (nonlinear_arith)
        requires
            rn <= rs,
            f >= 1,
    ;
    assert(spec_completion_bonus_units(st, start.void_total) >= 0) by (nonlinear_arith)
        requires
            spec_completion_bonus_units(st, start.void_total) == 5 * st * f,
            f >= 1,
    ;
}

/// The state after `k` safe explores in a row from a reset, with no void.
proof fn lemma_sweep(total_cells: u32, void_total: u32, k: nat)
    requires
        k <= ScoreState::for_map(total_cells, void_total).safe_total(),
    ensures
        ({
            let start = ScoreState::for_map(total_cells, void_total);
            let st = start.safe_total();
            let s = start.explored_all(safe_run(k));
            &&& s.safe_explored == k
            &&& s.streak == k
            &&& s.total_cells == start.total_cells
            &&& s.void_total == start.void_total
            &&& s.completed == (st > 0 && k == st)
            &&& s.score_units == 2 * ramp_tenths(k) * void_factor(start.void_total) + if k == st
                && st > 0 {
                spec_completion_bonus_units(st, start.void_total)
            } else {
                0
            }
        }),
    decreases k,
{
    if k > 0 {
        let start = ScoreState::for_map(total_cells, void_total);
        let st = start.safe_total();
        let f = void_factor(start.void_total);
        let j = (k - 1) as nat;
        lemma_sweep(total_cells, void_total, j);
        let moves = safe_run(k);
        assert(moves.drop_last() =~= safe_run(j));
        let a = start.explored_all(safe_run(j));
        let r = ramp_tenths(j);
        let mj = spec_multiplier_tenths(j as u32);
        lemma_ramp_bound(k);
        assert(ramp_tenths(k) == r + mj);
        assert(2 * (r + mj) * f == 2 * r * f + 2 * mj * f) by (nonlinear_arith);
        assert(2 * ramp_tenths(k) * f + 5 * st * f <= 45 * (u32::MAX as int) * (u32::MAX as int))
            by (nonlinear_arith)
            requires
                ramp_tenths(k) <= 20 * k,
                k <= st,
                st <= u32::MAX,
                1 <= f <= u32::MAX,
        ;
        assert(2 * r * f >= 0 && 2 * mj * f >= 0 && 5 * st * f >= 0) by (nonlinear_arith)
            requires
                r >= 0,
                mj >= 0,
                st >= 0,
                f >= 1,
        ;
        assert(start.explored_all(moves) == a.explored(false));
    } else {
        let f = void_factor(ScoreState::for_map(total_cells, void_total).void_total);
        assert(2 * ramp_tenths(0) * f == 0) by (nonlinear_arith)
            requires
                ramp_tenths(0) == 0,
        ;
    }
}

/// Exploring every safe cell once after a reset, and no void, reaches the
/// maximum score of the map exactly.
pub proof fn clean_sweep_reaches_max(total_cells: u32, void_total: u32)
    requires
        ScoreState::for_map(total_cells, void_total).safe_total() > 0,
    ensures
        ({
            let start = ScoreState::for_map(total_cells, void_total);
            let st = start.safe_total();
            &&& spec_max_score_units(st, start.void_total) matches Some(max)
            &&& start.explored_all(safe_run(st as nat)).score_units == max
            &&& safe_moves(safe_run(st as nat)) == st
        }),
{
    let st = ScoreState::for_map(total_cells, void_total).safe_total();
    lemma_sweep(total_cells, void_total, st as nat);
    lemma_safe_moves_all_safe(st as nat);
}

proof fn lemma_safe_moves_all_safe(k: nat)
    ensures
        safe_moves(safe_run(k)) == k,
    decreases k,
{
    if k > 0 {
        lemma_safe_moves_all_safe((k - 1) as nat);
        assert(safe_run(k).drop_last() =~= safe_run((k - 1) as nat));
    }
}

/// The highest streak reached after each prefix of `moves`, starting from
/// the streak of `start`.
pub open spec fn peak_streak(start: ScoreState, moves: Seq<bool>) -> u32
    decreases moves.len(),
{
    if moves.len() == 0 {
        start.streak
    } else {
        let before = peak_streak(start, moves.drop_last());
        let now = start.explored_all(moves).streak;
        if now > before { now } else { before }
    }
}

/// The longest streak is kept up to date on every explore: afterwards it is
/// the larger of the longest streak before and the streak just reached.
pub proof fn best_streak_follows_streak(s: ScoreState, is_void: bool)
    ensures
        ({
            let after = s.explored(is_void);
            after.best_streak == if after.streak > s.best_streak {
                after.streak
            } else {
                s.best_streak
            }
        }),
{
}

/// After a reset, the longest streak is the highest streak reached over the
/// explores since, and never below the current streak.
pub proof fn best_streak_is_peak(total_cells: u32, void_total: u32, moves: Seq<bool>)
    ensures
        ({
            let start = ScoreState::for_map(total_cells, void_total);
            let s = start.explored_all(moves);
            &&& s.best_streak == peak_streak(start, moves)
            &&& s.best_streak >= s.streak
        }),
    decreases moves.len(),
{
    if moves.len() > 0 {
        best_streak_is_peak(total_cells, void_total, moves.drop_last());
        let start = ScoreState::for_map(total_cells, void_total);
        best_streak_follows_streak(start.explored_all(moves.drop_last()), moves.last());
    }
}

/// `k` safe explores in a row after a reset leave a streak and a longest
/// streak of `k`.
pub proof fn safe_run_streak(total_cells: u32, void_total: u32, k: nat)
    requires
        k <= u32::MAX,
    ensures
        ({
            let s = ScoreState::for_map(total_cells, void_total).explored_all(safe_run(k));
            s.streak == k && s.best_streak == k
        }),
    decreases k,
{
    if k > 0 {
        let j = (k - 1) as nat;
        safe_run_streak(total_cells, void_total, j);
        assert(safe_run(k).drop_last() =~= safe_run(j));
        best_streak_follows_streak(
            ScoreState::for_map(total_cells, void_total).explored_all(safe_run(j)),
            false,
        );
    }
}

} // verus!
