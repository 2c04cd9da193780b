//! Heuristics for pruning the search.
use vstd::prelude::*;

use vstd::arithmetic::power2::pow2;

use crate::sim::blockbuilding::block::{moves_to_pair, pairing_defined};
use crate::sim::blockbuilding::block_list::{rank_of, with_rank};
use crate::sim::blockbuilding::{Block, BlockList};

verus! {

/// Heuristic for pruning search branches.
#[derive(Debug, Copy, Clone, PartialEq, Eq, Structural)]
pub enum Heuristic {
    /// Use a trivially correct heuristic that only does cheap computations.
    TrivialCorrect,
    /// Prune aggressively; prune branches that are unlikely to result in a
    /// solution.
    Fast,
    /// Prune conservatively; never prune a branch that could possibly result in
    /// a solution.
    Correct,
}

impl Default for Heuristic {
    fn default() -> (h: Heuristic)
        ensures
            h == Heuristic::Fast,
    {
        Heuristic::Fast
    }
}

/// Whether `moves_to_pair` is defined for every pair of nonempty blocks of
/// `s` of inner ranks `r` and `r + 1`.
pub open spec fn pairable(s: Seq<Block>) -> bool {
    forall|i: int, j: int|
        0 <= i < s.len() && 0 <= j < s.len() && s[i] != Block::spec_empty() && s[j]
            != Block::spec_empty() && rank_of(s[j]) == rank_of(s[i]) + 1 ==> pairing_defined(
            #[trigger] s[i],
            #[trigger] s[j],
        )
}

/// Whether some nonempty block of `s` of inner rank one more than `body`'s
/// pairs with `body` in `n` moves.
pub open spec fn pairs_in(s: Seq<Block>, body: Block, n: int) -> bool {
    exists|j: int|
        0 <= j < s.len() && s[j] != Block::spec_empty() && rank_of(s[j]) == rank_of(body) + 1
            && #[trigger] moves_to_pair(body, s[j]) == Some(n)
}

/// The most blocks that `body` can help build within `remaining_moves`.
pub open spec fn body_limit(s: Seq<Block>, body: Block, remaining_moves: int) -> int {
    if pairs_in(s, body, 1) {
        remaining_moves
    } else if pairs_in(s, body, 2) {
        remaining_moves - 1
    } else if remaining_moves >= 2 {
        remaining_moves - 2
    } else {
        0
    }
}

/// Sum of the limits of `bodies`.
pub open spec fn limits_sum(s: Seq<Block>, bodies: Seq<Block>, remaining_moves: int) -> int
    decreases bodies.len(),
{
    if bodies.len() == 0 {
        0
    } else {
        limits_sum(s, bodies.drop_last(), remaining_moves) + body_limit(s, bodies.last(), remaining_moves)
    }
}

/// The grip-theoretic limit: the sum of the limits of the nonempty blocks of
/// inner rank below 4.
pub open spec fn grip_limit(s: Seq<Block>, remaining_moves: int) -> int {
    limits_sum(s, with_rank(s, 0), remaining_moves) + limits_sum(s, with_rank(s, 1), remaining_moves)
        + limits_sum(s, with_rank(s, 2), remaining_moves) + limits_sum(s, with_rank(s, 3), remaining_moves)
}

/// Whether each block of inner rank `r` listed is a nonempty block of `s`
/// of that rank.
spec fn from_rank(s: Seq<Block>, r: int) -> bool {
    forall|k: int|
        0 <= k < with_rank(s, r).len() ==> exists|j: int|
            0 <= j < s.len() && s[j] == #[trigger] with_rank(s, r)[k] && s[j] != Block::spec_empty()
                && rank_of(s[j]) == r
}

/// The blocks of inner rank `r` are blocks of `s`.
proof fn lemma_with_rank(s: Seq<Block>, r: int)
    ensures
        with_rank(s, r).len() <= s.len(),
        from_rank(s, r),
    decreases s.len(),
{
    if s.len() > 0 {
        lemma_with_rank(s.drop_last(), r);
        let p = with_rank(s.drop_last(), r);
        assert forall|k: int| 0 <= k < with_rank(s, r).len() implies exists|j: int|
            0 <= j < s.len() && s[j] == #[trigger] with_rank(s, r)[k] && s[j] != Block::spec_empty()
                && rank_of(s[j]) == r by {
            if k < p.len() {
                let j = choose|j: int|
                    0 <= j < s.drop_last().len() && s.drop_last()[j] == #[trigger] p[k] && s.drop_last()[j]
                        != Block::spec_empty() && rank_of(s.drop_last()[j]) == r;
                assert(s[j] == with_rank(s, r)[k]);
            } else {
                assert(s[s.len() - 1] == with_rank(s, r)[k]);
            }
        }
    }
}

/// The head ranks' blocks are exactly the nonempty blocks of that rank.
proof fn lemma_with_rank_complete(s: Seq<Block>, r: int, j: int)
    requires
        0 <= j < s.len(),
        s[j] != Block::spec_empty(),
        rank_of(s[j]) == r,
    ensures
        with_rank(s, r).contains(s[j]),
    decreases s.len(),
{
    if j < s.len() - 1 {
        lemma_with_rank_complete(s.drop_last(), r, j);
        let p = with_rank(s.drop_last(), r);
        let k = choose|k: int| 0 <= k < p.len() && p[k] == s[j];
        assert(with_rank(s, r)[k] == s[j]);
    } else {
        let w = with_rank(s, r);
        assert(w[w.len() - 1] == s[j]);
    }
}

/// Returns whether the number of moves needed to pair is defined for every
/// pair of nonempty blocks of `state` of consecutive inner ranks.
pub fn is_pairable(state: &BlockList) -> (r: bool)
    requires
        state.wf(),
    ensures
        r == pairable(state@),
{
    let blocks = state.blocks();
    let n = blocks.len();
    let mut i: usize = 0;
    while i < n
        invariant
            blocks@ == state@,
            n == blocks@.len(),
            i <= n,
            forall|a: int, b: int|
                0 <= a < i && 0 <= b < n && blocks@[a] != Block::spec_empty() && blocks@[b]
                    != Block::spec_empty() && rank_of(blocks@[b]) == rank_of(blocks@[a]) + 1 ==> pairing_defined(
                    #[trigger] blocks@[a],
                    #[trigger] blocks@[b],
                ),
        decreases n - i,
    {
        let body = blocks[i];
        let body_empty = body.is_empty();
        let body_rank = body.inner_rank();
        let mut j: usize = 0;
        while j < n
            invariant
                blocks@ == state@,
                n == blocks@.len(),
                i < n,
                body == blocks@[i as int],
                body_empty == (body == Block::spec_empty()),
                body_rank == rank_of(body),
                j <= n,
                forall|a: int, b: int|
                    0 <= a < i && 0 <= b < n && blocks@[a] != Block::spec_empty() && blocks@[b]
                        != Block::spec_empty() && rank_of(blocks@[b]) == rank_of(blocks@[a]) + 1 ==> pairing_defined(
                        #[trigger] blocks@[a],
                        #[trigger] blocks@[b],
                    ),
                forall|b: int|
                    0 <= b < j && body != Block::spec_empty() && blocks@[b] != Block::spec_empty() && rank_of(
                        blocks@[b],
                    ) == rank_of(body) + 1 ==> pairing_defined(body, #[trigger] blocks@[b]),
            decreases n - j,
        {
            let head = blocks[j];
            if !body_empty && !head.is_empty() && head.inner_rank() as u16 == body_rank as u16 + 1 {
                if !Block::pairing_is_defined(body, head) {
                    return false;
                }
            }
            j = j + 1;
        }
        i = i + 1;
    }
    true
}

impl Heuristic {
    /// Returns whether the heuristic believes that `state` can be reduced to
    /// `expected_blocks` blocks within `remaining_moves`.
    pub fn might_be_solvable(self, state: &BlockList, expected_blocks: usize, remaining_moves: usize) -> (r: bool)
        requires
            state.canonical(),
            pairable(state@),
            expected_blocks <= state@.len(),
            remaining_moves < usize::BITS,
            self != Heuristic::Fast ==> pow2(remaining_moves as nat) * expected_blocks <= usize::MAX,
            104 * remaining_moves <= usize::MAX,
            remaining_moves == 0 ==> forall|i: int| 0 <= i < state@.len() ==> !pairs_in(state@, #[trigger] state@[i], 2),
        ensures
            r == (state@.len() - expected_blocks <= self.spec_combinatoric_limit(expected_blocks as int, remaining_moves as nat)
                && (self == Heuristic::TrivialCorrect || state@.len() - expected_blocks <= grip_limit(state@, remaining_moves as int))),
            self == Heuristic::TrivialCorrect ==> (r <==> state@.len() - expected_blocks <= pow2(remaining_moves as nat)
                * expected_blocks),
    {
        let remaining_pairings_needed = state.len() as usize - expected_blocks;
        remaining_pairings_needed <= self.combinatoric_limit(expected_blocks, remaining_moves)
            && remaining_pairings_needed <= self.grip_theoretic_limit(state, remaining_moves)
    }

    /// With no move left, the Fast heuristic allows one pairing and the others
    /// as many as there are expected blocks; each further move doubles what
    /// they allow.
    pub proof fn lemma_combinatoric_limit_doubles(self, expected_blocks: int, remaining_moves: nat)
        ensures
            self.spec_combinatoric_limit(expected_blocks, 0) == if self == Heuristic::Fast {
                1
            } else {
                expected_blocks
            },
            self.spec_combinatoric_limit(expected_blocks, remaining_moves + 1) == 2 * self.spec_combinatoric_limit(
                expected_blocks,
                remaining_moves,
            ),
    {
        vstd::arithmetic::power2::lemma2_to64();
        vstd::arithmetic::power2::lemma_pow2_unfold(remaining_moves + 1);
        let p = pow2(remaining_moves);
        assert(2 * p * expected_blocks == 2 * (p * expected_blocks)) by (nonlinear_arith);
        assert(1 * expected_blocks == expected_blocks);
    }

    /// The maximum number of block pairings by a naive combinatoric count.
    pub open spec fn spec_combinatoric_limit(self, expected_blocks: int, remaining_moves: nat) -> int {
        match self {
            Heuristic::Fast => pow2(remaining_moves) as int,
            _ => pow2(remaining_moves) * expected_blocks,
        }
    }

    /// Returns the maximum number of block pairings possible using a naive
    /// combinatoric approach.
    fn combinatoric_limit(self, expected_blocks: usize, remaining_moves: usize) -> (r: usize)
        requires
            remaining_moves < usize::BITS,
            self != Heuristic::Fast ==> pow2(remaining_moves as nat) * expected_blocks <= usize::MAX,
        ensures
            r == self.spec_combinatoric_limit(expected_blocks as int, remaining_moves as nat),
    {
        proof {
            vstd::bits::lemma_usize_pow2_no_overflow(remaining_moves as nat);
            vstd::bits::lemma_usize_shl_is_mul(1, remaining_moves);
        }
        let p = 1usize << remaining_moves;
        match self {
            Heuristic::TrivialCorrect => p * expected_blocks,
            Heuristic::Fast => p,
            Heuristic::Correct => p * expected_blocks,
        }
    }

    /// Returns the maximum number of block pairings using a grip-theoretic
    /// approach.
    fn grip_theoretic_limit(self, state: &BlockList, remaining_moves: usize) -> (r: usize)
        requires
            state.canonical(),
            pairable(state@),
            104 * remaining_moves <= usize::MAX,
            remaining_moves == 0 ==> forall|i: int| 0 <= i < state@.len() ==> !pairs_in(state@, #[trigger] state@[i], 2),
        ensures
            self == Heuristic::TrivialCorrect ==> r == usize::MAX,
            self != Heuristic::TrivialCorrect ==> r == grip_limit(state@, remaining_moves as int),
    {
        if self == Heuristic::TrivialCorrect {
            return usize::MAX;
        }
        let ghost s = state@;
        let mut max_pairings_possible: usize = 0;
        let mut body_rank: u8 = 0;
        while body_rank < 4
            invariant
                state.canonical(),
                pairable(state@),
                s == state@,
                104 * remaining_moves <= usize::MAX,
                remaining_moves == 0 ==> forall|i: int| 0 <= i < s.len() ==> !pairs_in(s, #[trigger] s[i], 2),
                body_rank <= 4,
                max_pairings_possible == (if body_rank > 0 { limits_sum(s, with_rank(s, 0), remaining_moves as int) } else { 0 })
                    + (if body_rank > 1 { limits_sum(s, with_rank(s, 1), remaining_moves as int) } else { 0 })
                    + (if body_rank > 2 { limits_sum(s, with_rank(s, 2), remaining_moves as int) } else { 0 })
                    + (if body_rank > 3 { limits_sum(s, with_rank(s, 3), remaining_moves as int) } else { 0 }),
                max_pairings_possible <= remaining_moves * (26 * body_rank),
            decreases 4 - body_rank,
        {
            let head_rank = body_rank + 1;
            let bodies = state.blocks_with_inner_rank(body_rank);
            let heads = state.blocks_with_inner_rank(head_rank);
            proof {
                lemma_with_rank(s, body_rank as int);
                lemma_with_rank(s, head_rank as int);
                state.lemma_len();
                assert(bodies@.subrange(0, 0) =~= Seq::<Block>::empty());
            }
            let ghost before = max_pairings_possible;
            let mut k: usize = 0;
            while k < bodies.len()
                invariant
                    state.canonical(),
                    pairable(state@),
                    s == state@,
                    104 * remaining_moves <= usize::MAX,
                    remaining_moves == 0 ==> forall|i: int| 0 <= i < s.len() ==> !pairs_in(s, #[trigger] s[i], 2),
                    body_rank < 4,
                    head_rank == body_rank + 1,
                    bodies@ == with_rank(s, body_rank as int),
                    heads@ == with_rank(s, head_rank as int),
                    from_rank(s, body_rank as int),
                    from_rank(s, head_rank as int),
                    k <= bodies.len(),
                    max_pairings_possible == before + limits_sum(s, bodies@.subrange(0, k as int), remaining_moves as int),
                    max_pairings_possible <= before + remaining_moves * k,
                    before <= remaining_moves * (26 * body_rank),
                    bodies.len() <= 26,
                decreases bodies.len() - k,
            {
                let body = bodies[k];
                let ghost bi = choose|j: int|
                    0 <= j < s.len() && s[j] == #[trigger] with_rank(s, body_rank as int)[k as int] && s[j]
                        != Block::spec_empty() && rank_of(s[j]) == body_rank;
                let mut best: usize = remaining_moves.saturating_sub(2);
                let mut h: usize = 0;
                let mut found_one = false;
                let mut found_two = false;
                while h < heads.len() && !found_one
                    invariant
                        state.canonical(),
                        pairable(state@),
                        s == state@,
                        remaining_moves == 0 ==> forall|i: int| 0 <= i < s.len() ==> !pairs_in(s, #[trigger] s[i], 2),
                        0 <= bi < s.len(),
                        s[bi] == body,
                        body != Block::spec_empty(),
                        rank_of(body) == body_rank,
                        head_rank == body_rank + 1,
                        heads@ == with_rank(s, head_rank as int),
                        from_rank(s, head_rank as int),
                        h <= heads.len(),
                        found_one ==> pairs_in(s, body, 1),
                        !found_one ==> forall|k: int| 0 <= k < h ==> moves_to_pair(body, #[trigger] heads@[k]) != Some(1int),
                        found_two ==> pairs_in(s, body, 2),
                        !found_two ==> forall|k: int| 0 <= k < h ==> moves_to_pair(body, #[trigger] heads@[k]) != Some(2int),
                        best == (if found_one { remaining_moves as int } else if found_two { remaining_moves - 1 } else if remaining_moves >= 2 { remaining_moves - 2 } else { 0 }),
                    decreases heads.len() - h,
                {
                    let head = heads[h];
                    let ghost hj = choose|j: int|
                        0 <= j < s.len() && s[j] == #[trigger] with_rank(s, head_rank as int)[h as int] && s[j]
                            != Block::spec_empty() && rank_of(s[j]) == head_rank;
                    assert(pairing_defined(s[bi], s[hj]));
                    match Block::moves_needed_to_pair(body, head) {
                        None => {},
                        Some(n) => {
                            if n == 1 {
                                best = remaining_moves;
                                found_one = true;
                                proof {
                                    assert(moves_to_pair(body, s[hj]) == Some(1int));
                                }
                            } else if n == 2 {
                                proof {
                                    assert(moves_to_pair(body, s[hj]) == Some(2int));
                                    assert(pairs_in(s, body, 2));
                                }
                                best = remaining_moves - 1;
                                found_two = true;
                            }
                        },
                    }
                    h = h + 1;
                }
                proof {
                    if !found_one && pairs_in(s, body, 1) {
                        let j = choose|j: int|
                            0 <= j < s.len() && s[j] != Block::spec_empty() && rank_of(s[j]) == rank_of(body) + 1
                                && #[trigger] moves_to_pair(body, s[j]) == Some(1int);
                        lemma_with_rank_complete(s, head_rank as int, j);
                        let k2 = choose|k2: int| 0 <= k2 < heads@.len() && heads@[k2] == s[j];
                    }
                    if !found_two && pairs_in(s, body, 2) {
                        let j = choose|j: int|
                            0 <= j < s.len() && s[j] != Block::spec_empty() && rank_of(s[j]) == rank_of(body) + 1
                                && #[trigger] moves_to_pair(body, s[j]) == Some(2int);
                        lemma_with_rank_complete(s, head_rank as int, j);
                        let k2 = choose|k2: int| 0 <= k2 < heads@.len() && heads@[k2] == s[j];
                    }
                    assert(best == body_limit(s, body, remaining_moves as int));
                }
                proof {
                    let sub = bodies@.subrange(0, k + 1);
                    assert(sub.drop_last() =~= bodies@.subrange(0, k as int));
                    assert(sub.last() == body);
                    assert(limits_sum(s, sub, remaining_moves as int) == limits_sum(s, bodies@.subrange(0, k as int), remaining_moves as int)
                        + body_limit(s, body, remaining_moves as int));
                    assert(best <= remaining_moves);
                    assert(remaining_moves * k + remaining_moves == remaining_moves * (k + 1)) by (nonlinear_arith);
                    assert(remaining_moves * (26 * body_rank) + remaining_moves * (k + 1) <= 104 * remaining_moves) by (nonlinear_arith)
                        requires
                            k < 26,
                            body_rank < 4,
                    ;
                }
                max_pairings_possible = max_pairings_possible + best;
                k = k + 1;
            }
            proof {
                assert(bodies@.subrange(0, bodies.len() as int) =~= bodies@);
                assert(remaining_moves * (26 * body_rank) + remaining_moves * bodies.len() <= remaining_moves * (26 * (body_rank + 1))) by (nonlinear_arith)
                    requires
                        bodies.len() <= 26,
                ;
            }
            body_rank = body_rank + 1;
        }
        max_pairings_possible
    }
}

} // verus!
