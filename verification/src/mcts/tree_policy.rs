//! Which move a playout tries next: the one with the best upper confidence
//! bound, in fixed-point arithmetic.
use vstd::prelude::*;
use crate::arith::lemma_sum_fits;
use crate::mcts::node::MoveInfo;

verus! {

/// How many stored steps make 1 in the fixed-point numbers of this module.
pub const SCORE_UNIT: u64 = 10_000;

/// The natural logarithm of 2, in ten-thousandths.
pub const LN_2: u64 = 6_931;

/// Two to the power `k`.
pub open spec fn two_to(k: nat) -> nat
    decreases k,
{
    if k == 0 {
        1
    } else {
        2 * two_to((k - 1) as nat)
    }
}

/// The whole part of the logarithm of `n` to the base 2; zero for zero.
pub open spec fn floor_log2(n: nat) -> nat
    decreases n,
{
    if n <= 1 {
        0
    } else {
        1 + floor_log2(n / 2)
    }
}

/// The natural logarithm of `n` in ten-thousandths, approximated: right at
/// the powers of two, as far as `LN_2` is, and on a straight line between
/// two of them. Zero for zero.
pub open spec fn approx_ln(n: nat) -> nat {
    if n == 0 {
        0
    } else {
        let k = floor_log2(n);
        LN_2 as nat * k + LN_2 as nat * ((n - two_to(k)) as nat) / two_to(k)
    }
}

/// `root` is the whole part of the square root of `x`.
pub open spec fn is_sqrt(x: nat, root: nat) -> bool {
    root * root <= x < (root + 1) * (root + 1)
}

/// The whole part of the square root of `x`.
pub open spec fn isqrt(x: nat) -> nat {
    choose|root: nat| is_sqrt(x, root)
}

/// A number has only one whole square root.
pub proof fn lemma_sqrt_unique(x: nat, root: nat)
    requires
        is_sqrt(x, root),
    ensures
        isqrt(x) == root,
{
    let other = isqrt(x);
    assert(is_sqrt(x, other));
    assert(other == root) by (nonlinear_arith)
        requires
            root * root <= x < (root + 1) * (root + 1),
            other * other <= x < (other + 1) * (other + 1),
    ;
}

/// `a` divided by the positive `b`, rounded towards zero.
pub open spec fn quotient(a: int, b: int) -> int {
    if a >= 0 {
        a / b
    } else {
        -((-a) / b)
    }
}

/// The visits of the first `n` moves together.
pub open spec fn visits_upto<M>(moves: Seq<MoveInfo<M>>, n: nat) -> nat
    decreases n,
{
    if n == 0 {
        0
    } else {
        visits_upto(moves, (n - 1) as nat) + moves[n - 1].visits as nat
    }
}

/// How often the position of the moves was visited: the visits of all its
/// moves together, capped at the largest `u64`.
pub open spec fn parent_visits<M>(moves: Seq<MoveInfo<M>>) -> nat {
    if visits_upto(moves, moves.len()) > u64::MAX {
        u64::MAX as nat
    } else {
        visits_upto(moves, moves.len())
    }
}

/// The mean evaluation of a move, in ten-thousandths.
pub open spec fn mean_value(sum_evaluations: i64, visits: u64) -> int {
    quotient(sum_evaluations * SCORE_UNIT, visits as int)
}

/// The bonus for a move that was tried little, in ten-thousandths: the
/// exploration constant times the square root of the logarithm of the
/// parent's visits over the visits of the move.
pub open spec fn exploration(exploration_constant: u64, parent: nat, visits: u64) -> int {
    exploration_constant * isqrt(approx_ln(parent) * SCORE_UNIT as nat / visits as nat)
        / SCORE_UNIT as int
}

/// The upper confidence bound of a visited move, in ten-thousandths.
pub open spec fn uct_score(
    exploration_constant: u64,
    parent: nat,
    sum_evaluations: i64,
    visits: u64,
) -> int {
    mean_value(sum_evaluations, visits) + exploration(exploration_constant, parent, visits)
}

/// The score of the move at `i` among its siblings.
pub open spec fn score_of<M>(exploration_constant: u64, moves: Seq<MoveInfo<M>>, i: int) -> int {
    uct_score(
        exploration_constant,
        parent_visits(moves),
        moves[i].sum_evaluations,
        moves[i].visits,
    )
}

/// The move at `i` is the first that was never tried.
pub open spec fn is_first_unvisited<M>(moves: Seq<MoveInfo<M>>, i: int) -> bool {
    &&& 0 <= i < moves.len()
    &&& moves[i].visits == 0
    &&& forall|j: int| 0 <= j < i ==> (#[trigger] moves[j]).visits != 0
}

/// Every move was tried, none has a better score than the move at `i`, and
/// none before it has one as good.
pub open spec fn is_first_best<M>(exploration_constant: u64, moves: Seq<MoveInfo<M>>, i: int)
    -> bool {
    &&& 0 <= i < moves.len()
    &&& forall|j: int| 0 <= j < moves.len() ==> (#[trigger] moves[j]).visits != 0
    &&& forall|j: int|
        0 <= j < moves.len() ==> #[trigger] score_of(exploration_constant, moves, j) <= score_of(
            exploration_constant,
            moves,
            i,
        )
    &&& forall|j: int|
        0 <= j < i ==> #[trigger] score_of(exploration_constant, moves, j) < score_of(
            exploration_constant,
            moves,
            i,
        )
}

/// The move at `i` is the one to try next: the first that was never tried
/// or, if all were tried, the first with the best score.
pub open spec fn is_choice<M>(exploration_constant: u64, moves: Seq<MoveInfo<M>>, i: int)
    -> bool {
    is_first_unvisited(moves, i) || is_first_best(exploration_constant, moves, i)
}

/// There is only one move to try next.
pub proof fn lemma_choice_unique<M>(
    exploration_constant: u64,
    moves: Seq<MoveInfo<M>>,
    i: int,
    k: int,
)
    requires
        is_choice(exploration_constant, moves, i),
        is_choice(exploration_constant, moves, k),
    ensures
        i == k,
{
    if is_first_unvisited(moves, i) {
        assert(moves[i].visits == 0);
        if is_first_unvisited(moves, k) {
            if i < k {
                assert(moves[i].visits != 0);
            }
            if k < i {
                assert(moves[k].visits != 0);
            }
        }
    } else if is_first_unvisited(moves, k) {
        assert(moves[k].visits == 0);
    } else {
        if i < k {
            assert(score_of(exploration_constant, moves, i) < score_of(
                exploration_constant,
                moves,
                k,
            ));
            assert(score_of(exploration_constant, moves, k) <= score_of(
                exploration_constant,
                moves,
                i,
            ));
        }
        if k < i {
            assert(score_of(exploration_constant, moves, k) < score_of(
                exploration_constant,
                moves,
                i,
            ));
            assert(score_of(exploration_constant, moves, i) <= score_of(
                exploration_constant,
                moves,
                k,
            ));
        }
    }
}

proof fn lemma_two_to_doubles(k: nat)
    ensures
        two_to(k + 1) == 2 * two_to(k),
        two_to(k) >= 1,
    decreases k,
{
    if k > 0 {
        lemma_two_to_doubles((k - 1) as nat);
    }
}

proof fn lemma_log2_bounds(n: nat)
    requires
        n >= 1,
    ensures
        two_to(floor_log2(n)) <= n < 2 * two_to(floor_log2(n)),
    decreases n,
{
    if n > 1 {
        lemma_log2_bounds(n / 2);
    }
}

proof fn lemma_two_to_grows(j: nat, k: nat)
    requires
        j <= k,
    ensures
        two_to(j) <= two_to(k),
        j < k ==> 2 * two_to(j) <= two_to(k),
    decreases k,
{
    lemma_two_to_doubles(j);
    if j < k {
        lemma_two_to_grows(j, (k - 1) as nat);
        lemma_two_to_doubles((k - 1) as nat);
    }
}

/// The approximate logarithm is right at the powers of two, and it never
/// falls as its argument grows.
pub proof fn lemma_approx_ln_grows(n: nat, m: nat, k: nat)
    requires
        n <= m,
    ensures
        approx_ln(n) <= approx_ln(m),
        approx_ln(two_to(k)) == LN_2 * k,
{
    lemma_two_to_doubles(k);
    lemma_log2_is(two_to(k), k);
    if n >= 1 {
        let j = floor_log2(n);
        let i = floor_log2(m);
        let p = two_to(j);
        let q = two_to(i);
        lemma_log2_bounds(n);
        lemma_log2_bounds(m);
        if i < j {
            lemma_two_to_grows(i, j);
        }
        assert(j <= i);
        let low = (n - p) as nat;
        assert(LN_2 as nat * low / p < LN_2) by (nonlinear_arith)
            requires
                low < p,
                p >= 1,
        ;
        if j == i {
            let high = (m - p) as nat;
            assert(LN_2 as nat * low / p <= LN_2 as nat * high / p) by (nonlinear_arith)
                requires
                    low <= high,
                    p >= 1,
            ;
        } else {
            assert(LN_2 as nat * j + LN_2 <= LN_2 as nat * i) by (nonlinear_arith)
                requires
                    j + 1 <= i,
            ;
        }
    }
}

proof fn lemma_log2_is(n: nat, k: nat)
    requires
        two_to(k) <= n < 2 * two_to(k),
    ensures
        floor_log2(n) == k,
    decreases k,
{
    lemma_two_to_doubles(k);
    if k == 0 {
    } else {
        lemma_two_to_doubles((k - 1) as nat);
        lemma_log2_is(n / 2, (k - 1) as nat);
    }
}

/// The whole part of the square root of `x`.
pub fn sqrt_floor(x: u64) -> (root: u64)
    ensures
        root == isqrt(x as nat),
        is_sqrt(x as nat, root as nat),
{
    let mut low: u64 = 0;
    let mut high: u64 = 0x1_0000_0000;
    assert(0x1_0000_0000 * 0x1_0000_0000 > u64::MAX) by (nonlinear_arith);
    while high - low > 1
        invariant
            low < high <= 0x1_0000_0000,
            low * low <= x < high * high,
        decreases high - low,
    {
        let middle: u64 = low + (high - low) / 2;
        assert(middle * middle <= 0xFFFF_FFFF * 0xFFFF_FFFF) by (nonlinear_arith)
            requires
                0 <= middle <= 0xFFFF_FFFF,
        ;
        assert(0xFFFF_FFFF * 0xFFFF_FFFF < u64::MAX) by (nonlinear_arith);
        if middle * middle <= x {
            low = middle;
        } else {
            high = middle;
        }
    }
    proof {
        lemma_sqrt_unique(x as nat, low as nat);
    }
    low
}

/// The natural logarithm of `n` in ten-thousandths, approximated.
pub fn ln_approx(n: u64) -> (ln: u64)
    ensures
        ln == approx_ln(n as nat),
        ln <= 64 * LN_2,
{
    if n == 0 {
        return 0;
    }
    let mut power: u64 = 1;
    let mut k: u64 = 0;
    while power <= n / 2
        invariant
            1 <= power <= n,
            power == two_to(k as nat),
            k < 64,
        decreases n - power,
    {
        proof {
            lemma_two_to_doubles(k as nat);
            if k == 63 {
                lemma_two_to_64();
            }
        }
        power = power * 2;
        k = k + 1;
    }
    proof {
        lemma_log2_is(n as nat, k as nat);
        assert((n - power) as nat * (LN_2 as nat) <= power * LN_2) by (nonlinear_arith)
            requires
                n - power <= power,
                n >= power,
        ;
        assert(LN_2 as nat * ((n - power) as nat) / (power as nat) <= LN_2) by (nonlinear_arith)
            requires
                LN_2 as nat * ((n - power) as nat) <= power * LN_2,
                power >= 1,
        ;
    }
    let rest: u128 = (LN_2 as u128) * ((n - power) as u128) / (power as u128);
    LN_2 * k + rest as u64
}

proof fn lemma_two_to_64()
    ensures
        two_to(63) == 0x8000_0000_0000_0000,
{
    reveal_with_fuel(two_to, 64);
}

/// The upper-confidence-bound policy.
#[derive(Debug, Copy, Clone)]
pub struct UCTPolicy {
    exploration_constant: u64,
}

impl UCTPolicy {
    /// A policy with the exploration constant given in ten-thousandths.
    pub fn new(exploration_constant: u64) -> (policy: Self)
        ensures
            policy.constant() == exploration_constant,
    {
        UCTPolicy { exploration_constant }
    }

    pub closed spec fn constant(&self) -> u64 {
        self.exploration_constant
    }

    pub fn exploration_constant(&self) -> (constant: u64)
        ensures
            constant == self.constant(),
    {
        self.exploration_constant
    }

    /// The upper confidence bound of a move that was visited `visits`
    /// times, in a position that was visited `parent` times.
    pub fn score(&self, parent: u64, sum_evaluations: i64, visits: u64) -> (score: i128)
        requires
            visits > 0,
        ensures
            score == uct_score(self.constant(), parent as nat, sum_evaluations, visits),
    {
        let scaled: i128 = sum_evaluations as i128 * SCORE_UNIT as i128;
        let mean: i128 = if scaled >= 0 {
            scaled / visits as i128
        } else {
            -((-scaled) / visits as i128)
        };
        let ln: u64 = ln_approx(parent);
        let ratio: u64 = ln * SCORE_UNIT / visits;
        let root: u64 = sqrt_floor(ratio);
        proof {
            assert(root <= 0xFFFF_FFFF) by (nonlinear_arith)
                requires
                    root * root <= ratio,
                    ratio <= u64::MAX,
            ;
            assert(self.exploration_constant * root <= 0xFFFF_FFFF_FFFF_FFFF * 0xFFFF_FFFF)
                by (nonlinear_arith)
                requires
                    0 <= self.exploration_constant <= 0xFFFF_FFFF_FFFF_FFFF,
                    0 <= root <= 0xFFFF_FFFF,
            ;
            assert(0xFFFF_FFFF_FFFF_FFFF * 0xFFFF_FFFF < 0x1_0000_0000_0000_0000_0000_0000)
                by (nonlinear_arith);
        }
        let bonus: i128 = (self.exploration_constant as i128 * root as i128) / SCORE_UNIT as i128;
        mean + bonus
    }

    /// How often the position of the moves was visited.
    pub fn count_visits<M>(moves: &Vec<MoveInfo<M>>) -> (total: u64)
        ensures
            total == parent_visits(moves@),
    {
        let mut total: u128 = 0;
        let mut i: usize = 0;
        while i < moves.len()
            invariant
                i <= moves.len(),
                total == visits_upto(moves@, i as nat),
                total <= i * u64::MAX,
            decreases moves.len() - i,
        {
            proof {
                lemma_sum_fits(i as int, u64::MAX as int);
            }
            total = total + moves[i].visits as u128;
            i += 1;
        }
        if total > u64::MAX as u128 {
            u64::MAX
        } else {
            total as u64
        }
    }

    /// The move to try next: the first that was never tried or, if all
    /// were tried, the first with the best upper confidence bound.
    pub fn choose_child<M>(&self, moves: &Vec<MoveInfo<M>>) -> (choice: usize)
        requires
            moves.len() > 0,
        ensures
            is_choice(self.constant(), moves@, choice as int),
            forall|other: int| #[trigger]
                is_choice(self.constant(), moves@, other) ==> other == choice,
    {
        let choice = self.find_choice(moves);
        proof {
            assert forall|other: int| #[trigger]
                is_choice(self.constant(), moves@, other) implies other == choice by {
                lemma_choice_unique(self.constant(), moves@, other, choice as int);
            }
        }
        choice
    }

    fn find_choice<M>(&self, moves: &Vec<MoveInfo<M>>) -> (choice: usize)
        requires
            moves.len() > 0,
        ensures
            is_choice(self.constant(), moves@, choice as int),
    {
        let mut i: usize = 0;
        while i < moves.len()
            invariant
                i <= moves.len(),
                forall|j: int| 0 <= j < i ==> (#[trigger] moves[j]).visits != 0,
            decreases moves.len() - i,
        {
            if moves[i].visits == 0 {
                return i;
            }
            i += 1;
        }
        let parent = Self::count_visits(moves);
        let mut best: usize = 0;
        let mut best_score: i128 = self.score(parent, moves[0].sum_evaluations, moves[0].visits);
        i = 1;
        while i < moves.len()
            invariant
                1 <= i <= moves.len(),
                best < i,
                parent == parent_visits(moves@),
                forall|j: int| 0 <= j < moves.len() ==> (#[trigger] moves[j]).visits != 0,
                best_score == score_of(self.constant(), moves@, best as int),
                forall|j: int|
                    0 <= j < i ==> #[trigger] score_of(self.constant(), moves@, j) <= best_score,
                forall|j: int|
                    0 <= j < best ==> #[trigger] score_of(self.constant(), moves@, j) < best_score,
            decreases moves.len() - i,
        {
            let score = self.score(parent, moves[i].sum_evaluations, moves[i].visits);
            if score > best_score {
                best = i;
                best_score = score;
            }
            i += 1;
        }
        best
    }
}

} // verus!
