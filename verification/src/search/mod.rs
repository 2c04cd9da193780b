//! Blockbuilding search.
use vstd::prelude::*;

use vstd::arithmetic::power2::pow2;

use crate::sim::blockbuilding::block_list::{covers, has_active_part, holds_cell, new_cell_count, same_cells, valid_cell};
use crate::sim::blockbuilding::{Block, BlockList};
use crate::sim::common::grip::opposite_id;
use crate::sim::common::twist::{fixes_grip, puzzle_twist};
use crate::sim::blockbuilding::pieces::{
    centers_home, lemma_pieces_after_moved, lemma_pieces_moved_none, lemma_pieces_moved_prepend, lemma_twists_valid_append,
    pieces_after, pieces_moved, places, setup_placement, twists_valid, Stickers,
};
use crate::sim::common::{Elem, Grip, GripSet, Twist};
use meta::{built_cell, cells_built, full_axis, full_axis_count, lemma_continuation_builds, stage_continuations};
use segment::{chain_twists, lemma_chain_prefix, twist_fits, twist_pushed, lemma_segment_le_total, lemma_segment_le_trans, lemma_segment_le_prefers_fewer, segment_eq, segment_le};
use std::ops::Not;
use heuristic::{grip_limit, is_pairable, pairable};

pub mod heuristic;
pub mod meta;
pub mod params;
pub mod segment;

pub use heuristic::Heuristic;
pub use meta::{Continuation, SolutionMetadata};
pub use params::{BlockBuildingSearchParams, Targets};
pub use segment::{Segment, SegmentId, SegmentStore};

verus! {

/// Whether the twist at `j` does not turn a grip again: it is not on the
/// grip of the twist before it, nor on the grip two twists back when the twist
/// between is on the opposite grip.
pub open spec fn grip_step_ok(tw: Seq<Twist>, j: int) -> bool {
    &&& !(j >= 1 && tw[j - 1].grip == tw[j].grip)
    &&& !(j >= 2 && tw[j - 1].grip.spec_id() == opposite_id(tw[j].grip.spec_id()) && tw[j - 2].grip == tw[j].grip)
}

/// Whether `s` extends `base` by at most `depth` twists, none of which turns
/// a grip again and each of which fixes its grip, to a canonical state of at
/// most `expected_blocks` blocks holding the same pieces, moved by those
/// twists.
pub open spec fn extends_to_solution(s: Segment, base: Segment, expected_blocks: int, depth: int) -> bool {
    &&& centers_home(base.state@) ==> centers_home(s.state@) && pieces_moved(
        base.state@,
        s.state@,
        s.segment_twists@.subrange(base.segment_twists@.len() as int, s.segment_twists@.len() as int),
    )
    &&& forall|j: int|
        base.segment_twists@.len() <= j < s.segment_twists@.len() ==> #[trigger] grip_step_ok(s.segment_twists@, j)
    &&& twists_valid(s.segment_twists@.subrange(base.segment_twists@.len() as int, s.segment_twists@.len() as int))
    &&& s.state.canonical()
    &&& s.state@.len() <= expected_blocks
    &&& same_cells(s.state@, base.state@)
    &&& base.segment_twists@.len() <= s.segment_twists@.len() <= base.segment_twists@.len() + depth
    &&& s.segment_twists@.subrange(0, base.segment_twists@.len() as int) == base.segment_twists@
    &&& s.meta == base.meta
    &&& s.previous_segment == base.previous_segment
}

/// Whether a twist on `grip` is worth trying after `twists` on `state`: it is
/// not on the last grip twisted, nor on the second to last when the last was
/// its opposite, and it moves some block.
pub open spec fn worth_testing(state: Seq<Block>, twists: Seq<Twist>, grip: Grip) -> bool {
    let n = twists.len();
    &&& !(n >= 1 && twists[n - 1].grip == grip)
    &&& !(n >= 2 && twists[n - 1].grip.spec_id() == opposite_id(grip.spec_id()) && twists[n - 2].grip == grip)
    &&& exists|i: int| 0 <= i < state.len() && has_active_part(#[trigger] state[i], grip)
}

/// Which grips the search tries next. Never the grip just twisted, nor one
/// that moves no block. A grip that moves some block is tried first thing,
/// after a twist on another axis, and after a twist on its opposite grip
/// unless the twist before that was on the grip itself (so a grip, its
/// opposite and the grip again are never tried in a row).
pub proof fn lemma_grips_tried(state: Seq<Block>, twists: Seq<Twist>, grip: Grip)
    ensures
        twists.len() >= 1 && twists.last().grip == grip ==> !worth_testing(state, twists, grip),
        (forall|i: int| 0 <= i < state.len() ==> !has_active_part(#[trigger] state[i], grip)) ==> !worth_testing(
            state,
            twists,
            grip,
        ),
        twists.len() >= 2 && twists[twists.len() - 2].grip == grip && twists.last().grip.spec_id() == opposite_id(
            grip.spec_id(),
        ) ==> !worth_testing(state, twists, grip),
        (exists|i: int| 0 <= i < state.len() && has_active_part(#[trigger] state[i], grip)) ==> {
            &&& twists.len() == 0 ==> worth_testing(state, twists, grip)
            &&& twists.len() >= 1 && twists.last().grip.spec_id() / 2 != grip.spec_id() / 2 ==> worth_testing(
                state,
                twists,
                grip,
            )
            &&& twists.len() >= 1 && twists.last().grip.spec_id() == opposite_id(grip.spec_id()) && (twists.len() == 1
                || twists[twists.len() - 2].grip != grip) ==> worth_testing(state, twists, grip)
        },
{
    let n = twists.len();
    if n >= 1 {
        Grip::lemma_id_eq(twists[n - 1].grip, grip);
        assert(twists.last() == twists[n - 1]);
        if twists[n - 1].grip.spec_id() / 2 != grip.spec_id() / 2 {
            assert(twists[n - 1].grip.spec_id() != opposite_id(grip.spec_id()));
        }
    }
}

/// Returns whether a twist on `grip` is worth trying next.
fn grip_is_worth_testing(state: &BlockList, twists: &[Twist], grip: Grip) -> (r: bool)
    requires
        state.wf(),
    ensures
        r == worth_testing(state@, twists@, grip),
{
    let n = twists.len();
    let gid = grip.id();
    let oid = grip.opposite().id();
    let same_as_last = n >= 1 && twists[n - 1].grip.id() == gid;
    let opposite_done = n >= 2 && twists[n - 1].grip.id() == oid && twists[n - 2].grip.id() == gid;
    proof {
        if n >= 1 {
            Grip::lemma_id_eq(twists@[n - 1].grip, grip);
        }
        if n >= 2 {
            Grip::lemma_id_eq(twists@[n - 2].grip, grip);
        }
        assert(same_as_last == (n >= 1 && twists@[n - 1].grip == grip));
        assert(opposite_done == (n >= 2 && twists@[n - 1].grip.spec_id() == opposite_id(grip.spec_id())
            && twists@[n - 2].grip == grip));
    }
    if same_as_last {
        assert(!worth_testing(state@, twists@, grip));
        return false;  // same grip as last move
    }
    if opposite_done {
        assert(!worth_testing(state@, twists@, grip));
        return false;  // opposite grip already moved
    }
    let blocks = state.blocks();
    let mut i: usize = 0;
    while i < blocks.len()
        invariant
            blocks@ == state@,
            i <= blocks@.len(),
            n == twists@.len(),
            !(n >= 1 && twists@[n - 1].grip == grip),
            !(n >= 2 && twists@[n - 1].grip.spec_id() == opposite_id(grip.spec_id()) && twists@[n - 2].grip == grip),
            forall|k: int| 0 <= k < i ==> !has_active_part(#[trigger] blocks@[k], grip),
        decreases blocks@.len() - i,
    {
        if !blocks[i].is_grip_inactive(grip) {
            assert(has_active_part(blocks@[i as int], grip));
            assert(has_active_part(state@[i as int], grip));
            assert(worth_testing(state@, twists@, grip));
            return true;
        }
        i = i + 1;
    }
    assert(!worth_testing(state@, twists@, grip));
    false  // doesn't move any block
}

/// Whether the heuristic `h` cuts off the search at `state`, `depth` twists
/// from the end, for at most `expected` blocks.
pub open spec fn cut_off(h: Heuristic, state: Seq<Block>, expected: int, depth: nat) -> bool {
    &&& pairable(state)
    &&& !(state.len() - expected <= h.spec_combinatoric_limit(expected, depth) && (h == Heuristic::TrivialCorrect
        || state.len() - expected <= grip_limit(state, depth as int)))
}

/// Whether the depth-first search tries `t` after segment `s`: a twist of the
/// puzzle on a grip worth testing.
pub open spec fn dfs_candidate(s: Segment, t: Twist) -> bool {
    &&& puzzle_twist(t)
    &&& worth_testing(s.state@, s.segment_twists@, t.grip)
}

/// Whether the depth-first search from `s`, with `depth` twists left, is sure
/// by the contracts of the twist to find a state of at most `expected`
/// blocks: `s` has one, or the search is not cut off at `s` and some twist it
/// tries surely gives a segment from which it is sure to find one.
pub open spec fn surely_found(h: Heuristic, s: Segment, expected: int, depth: nat) -> bool
    decreases depth,
{
    if s.state@.len() <= expected {
        true
    } else if depth == 0 || cut_off(h, s.state@, expected, depth) {
        false
    } else {
        exists|t: Twist|
            #[trigger] dfs_candidate(s, t) && twist_fits(s, t) && forall|n: Segment|
                #[trigger] twist_pushed(s, t, n) ==> surely_found(h, n, expected, (depth - 1) as nat)
    }
}

/// Whether the depth-first search from `s`, with `depth` twists left, is
/// sure by the contracts of the twist to find the segment reached by the
/// twists `ts`: `s` has at most `expected` blocks and `ts` is empty, or the
/// search is not cut off at `s`, the first twist of `ts` is one it tries and
/// surely gives a segment, and from every segment it may give the search is
/// sure to find the rest of `ts`.
pub open spec fn surely_found_by(h: Heuristic, s: Segment, ts: Seq<Twist>, expected: int, depth: nat) -> bool
    decreases ts.len(),
{
    if s.state@.len() <= expected {
        ts.len() == 0
    } else if ts.len() == 0 || depth == 0 || cut_off(h, s.state@, expected, depth) {
        false
    } else {
        &&& dfs_candidate(s, ts[0])
        &&& twist_fits(s, ts[0])
        &&& forall|n: Segment|
            #[trigger] twist_pushed(s, ts[0], n) ==> surely_found_by(h, n, ts.drop_first(), expected, (depth - 1) as nat)
    }
}

/// Whether a segment of `buf` from index `from` on has the twists `tw`.
pub open spec fn twists_found(buf: Seq<Segment>, from: int, tw: Seq<Twist>) -> bool {
    exists|i: int| from <= i < buf.len() && (#[trigger] buf[i]).segment_twists@ == tw
}

/// Whether `t` is among the first `k` twists of `list`.
pub open spec fn listed_before(list: Seq<Twist>, k: int, t: Twist) -> bool {
    exists|j: int| 0 <= j < k && list[j] == t
}

/// A buffer that keeps its first segments keeps what was found there.
proof fn lemma_found_kept(b1: Seq<Segment>, b2: Seq<Segment>, from: int, tw: Seq<Twist>)
    requires
        from >= 0,
        twists_found(b1, from, tw),
        b2.len() >= b1.len(),
        forall|i: int| 0 <= i < b1.len() ==> #[trigger] b2[i] == b1[i],
    ensures
        twists_found(b2, from, tw),
{
    let i = choose|i: int| from <= i < b1.len() && (#[trigger] b1[i]).segment_twists@ == tw;
    assert(b2[i] == b1[i]);
}

/// After the search from the segment that twist number `ti` of `list` gives,
/// every segment the search from `s0` is sure to find through the twists up
/// to that one is in the buffer.
proof fn lemma_dfs_step_found(
    h: Heuristic,
    s0: Segment,
    next: Segment,
    twist: Twist,
    list: Seq<Twist>,
    ti: int,
    grip: Grip,
    e: int,
    d: nat,
    b_old: Seq<Segment>,
    before: Seq<Segment>,
    after: Seq<Segment>,
)
    requires
        0 <= ti < list.len(),
        twist == list[ti],
        twist.grip == grip,
        twist_pushed(s0, twist, next),
        s0.state@.len() > e,
        d >= 1,
        forall|ts: Seq<Twist>|
            #[trigger] surely_found_by(h, s0, ts, e, d) && (ts[0].grip.spec_id() < grip.spec_id() || (ts[0].grip == grip
                && listed_before(list, ti, ts[0]))) ==> twists_found(before, b_old.len() as int, s0.segment_twists@ + ts),
        before.len() >= b_old.len(),
        after.len() >= before.len(),
        forall|i: int| 0 <= i < before.len() ==> #[trigger] after[i] == before[i],
        forall|ts: Seq<Twist>|
            #[trigger] surely_found_by(h, next, ts, e, (d - 1) as nat) ==> twists_found(
                after,
                before.len() as int,
                next.segment_twists@ + ts,
            ),
    ensures
        forall|ts: Seq<Twist>|
            #[trigger] surely_found_by(h, s0, ts, e, d) && (ts[0].grip.spec_id() < grip.spec_id() || (ts[0].grip == grip
                && listed_before(list, ti + 1, ts[0]))) ==> twists_found(after, b_old.len() as int, s0.segment_twists@ + ts),
{
    assert forall|ts: Seq<Twist>|
        #[trigger] surely_found_by(h, s0, ts, e, d) && (ts[0].grip.spec_id() < grip.spec_id() || (ts[0].grip == grip
            && listed_before(list, ti + 1, ts[0]))) implies twists_found(after, b_old.len() as int, s0.segment_twists@ + ts) by {
        if ts[0].grip.spec_id() < grip.spec_id() || listed_before(list, ti, ts[0]) {
            lemma_found_kept(before, after, b_old.len() as int, s0.segment_twists@ + ts);
        } else {
            let j = choose|j: int| 0 <= j < ti + 1 && list[j] == ts[0];
            assert(j == ti);
            let rest = ts.drop_first();
            assert(surely_found_by(h, next, rest, e, (d - 1) as nat));
            let tw = next.segment_twists@ + rest;
            assert(twists_found(after, before.len() as int, tw));
            let i = choose|i: int| before.len() <= i < after.len() && (#[trigger] after[i]).segment_twists@ == tw;
            assert(tw =~= s0.segment_twists@ + ts);
        }
    }
}

/// Runs a depth-first search to `remaining_depth` for sequences of moves that
/// result in at most `expected_blocks` blocks. Results are appended to
/// `solutions_buffer`.
pub fn dfs_blockbuild(
    params: BlockBuildingSearchParams,
    expected_blocks: usize,
    remaining_depth: usize,
    solutions_buffer: &mut Vec<Segment>,
    solution_so_far: Segment,
)
    requires
        solution_so_far.state.canonical(),
        solution_so_far.state.spec_twist_count() + remaining_depth < 65535,
        expected_blocks <= u32::MAX,
        remaining_depth < usize::BITS,
        params.heuristic != Heuristic::Fast ==> pow2(remaining_depth as nat) * expected_blocks <= usize::MAX,
        104 * remaining_depth <= usize::MAX,
    ensures
        final(solutions_buffer)@.len() >= old(solutions_buffer)@.len(),
        forall|i: int| 0 <= i < old(solutions_buffer)@.len() ==> #[trigger] final(solutions_buffer)@[i] == old(solutions_buffer)@[i],
        forall|i: int|
            old(solutions_buffer)@.len() <= i < final(solutions_buffer)@.len() ==> extends_to_solution(
                #[trigger] final(solutions_buffer)@[i],
                solution_so_far,
                expected_blocks as int,
                remaining_depth as int,
            ),
        solution_so_far.state@.len() <= expected_blocks ==> final(solutions_buffer)@ == old(solutions_buffer)@.push(
            solution_so_far,
        ),
        solution_so_far.state@.len() > expected_blocks && remaining_depth == 0 ==> final(solutions_buffer)@ == old(
            solutions_buffer,
        )@,
        solution_so_far.state@.len() > expected_blocks ==> forall|i: int|
            old(solutions_buffer)@.len() <= i < final(solutions_buffer)@.len() ==> (
            #[trigger] final(solutions_buffer)@[i]).segment_twists@.len() > solution_so_far.segment_twists@.len(),
        surely_found(params.heuristic, solution_so_far, expected_blocks as int, remaining_depth as nat)
            ==> final(solutions_buffer)@.len() > old(solutions_buffer)@.len(),
        forall|ts: Seq<Twist>|
            #[trigger] surely_found_by(params.heuristic, solution_so_far, ts, expected_blocks as int, remaining_depth as nat)
                ==> twists_found(final(solutions_buffer)@, old(solutions_buffer)@.len() as int, solution_so_far.segment_twists@ + ts),
    decreases remaining_depth,
{
    let len = solution_so_far.state.len();
    if len <= expected_blocks as u32 {
        // found a solution!
        proof {
            assert(solution_so_far.segment_twists@.subrange(0, solution_so_far.segment_twists@.len() as int)
                =~= solution_so_far.segment_twists@);
            let n0 = solution_so_far.segment_twists@.len() as int;
            assert(solution_so_far.segment_twists@.subrange(n0, n0) =~= Seq::<Twist>::empty());
            lemma_pieces_moved_none(solution_so_far.state@);
        }
        let ghost b0 = solutions_buffer@;
        solutions_buffer.push(solution_so_far);
        proof {
            assert forall|ts: Seq<Twist>|
                #[trigger] surely_found_by(params.heuristic, solution_so_far, ts, expected_blocks as int, remaining_depth as nat)
                implies twists_found(solutions_buffer@, b0.len() as int, solution_so_far.segment_twists@ + ts) by {
                assert(ts.len() == 0);
                assert(solution_so_far.segment_twists@ + ts =~= solution_so_far.segment_twists@);
                assert(solutions_buffer@[b0.len() as int] == solution_so_far);
            }
        }
        return;
    }
    if remaining_depth == 0 {
        return;  // no more to search; give up
    }
    if is_pairable(&solution_so_far.state) && !params.heuristic.might_be_solvable(
        &solution_so_far.state,
        expected_blocks,
        remaining_depth,
    ) {
        return;  // probably not solvable; give up
    }
    proof {
        if params.heuristic != Heuristic::Fast {
            vstd::arithmetic::power2::lemma_pow2_strictly_increases((remaining_depth - 1) as nat, remaining_depth as nat);
            vstd::arithmetic::mul::lemma_mul_inequality(
                pow2((remaining_depth - 1) as nat) as int,
                pow2(remaining_depth as nat) as int,
                expected_blocks as int,
            );
        }
    }
    let ghost h = params.heuristic;
    let ghost e = expected_blocks as int;
    let ghost d = remaining_depth as nat;
    let ghost sf = surely_found(h, solution_so_far, e, d);
    let ghost t0 = choose|t: Twist|
        #[trigger] dfs_candidate(solution_so_far, t) && twist_fits(solution_so_far, t) && forall|n: Segment|
            #[trigger] twist_pushed(solution_so_far, t, n) ==> surely_found(h, n, e, (d - 1) as nat);
    proof {
        assert(!cut_off(h, solution_so_far.state@, e, d));
        if sf {
            assert(dfs_candidate(solution_so_far, t0));
        }
    }
    let twists_so_far = solution_so_far.segment_twists.as_slice();
    let grips = Grip::all();
    let mut gi: usize = 0;
    while gi < 8
        invariant
            twists_so_far@ == solution_so_far.segment_twists@,
            solution_so_far.state.canonical(),
            solution_so_far.state.spec_twist_count() + remaining_depth < 65535,
            expected_blocks <= u32::MAX,
            0 < remaining_depth < usize::BITS,
            params.heuristic != Heuristic::Fast ==> pow2((remaining_depth - 1) as nat) * expected_blocks <= usize::MAX,
            104 * remaining_depth <= usize::MAX,
            gi <= 8,
            solutions_buffer@.len() >= old(solutions_buffer)@.len(),
            forall|i: int| 0 <= i < old(solutions_buffer)@.len() ==> #[trigger] solutions_buffer@[i] == old(solutions_buffer)@[i],
            forall|i: int|
                old(solutions_buffer)@.len() <= i < solutions_buffer@.len() ==> extends_to_solution(
                    #[trigger] solutions_buffer@[i],
                    solution_so_far,
                    expected_blocks as int,
                    remaining_depth as int,
                ),
            forall|i: int|
                old(solutions_buffer)@.len() <= i < solutions_buffer@.len() ==> (
                #[trigger] solutions_buffer@[i]).segment_twists@.len() > solution_so_far.segment_twists@.len(),
            forall|i: int| 0 <= i < 8 ==> (#[trigger] grips[i]).spec_id() == i,
            h == params.heuristic && e == expected_blocks && d == remaining_depth,
            sf ==> dfs_candidate(solution_so_far, t0) && twist_fits(solution_so_far, t0) && forall|n: Segment|
                #[trigger] twist_pushed(solution_so_far, t0, n) ==> surely_found(h, n, e, (d - 1) as nat),
            sf && t0.grip.spec_id() < gi ==> solutions_buffer@.len() > old(solutions_buffer)@.len(),
            solution_so_far.state@.len() > expected_blocks,
            !cut_off(h, solution_so_far.state@, e, d),
            forall|ts: Seq<Twist>|
                #[trigger] surely_found_by(h, solution_so_far, ts, e, d) && ts[0].grip.spec_id() < gi ==> twists_found(
                    solutions_buffer@,
                    old(solutions_buffer)@.len() as int,
                    solution_so_far.segment_twists@ + ts,
                ),
        decreases 8 - gi,
    {
        let grip = grips[gi];
        proof {
            if sf && t0.grip.spec_id() == gi {
                Grip::lemma_id_eq(grip, t0.grip);
            }
        }
        let ghost before_grip = solutions_buffer@.len();
        if grip_is_worth_testing(&solution_so_far.state, twists_so_far, grip) {
            let twists = grip.twists();
            let ghost at = if sf && grip == t0.grip {
                choose|i: int| 0 <= i < twists.len() && twists[i].transform == t0.transform
            } else {
                0int
            };
            proof {
                if sf && grip == t0.grip {
                    let _ = t0.transform;
                    assert(exists|i: int| 0 <= i < twists.len() && twists[i].transform == t0.transform);
                    assert(twists[at].grip == t0.grip);
                    assert(twists[at] == t0);
                }
            }
            let mut ti: usize = 0;
            while ti < twists.len()
                invariant
                    worth_testing(solution_so_far.state@, twists_so_far@, grip),
                    twists_so_far@ == solution_so_far.segment_twists@,
                    forall|i: int| 0 <= i < twists.len() ==> (#[trigger] twists[i]).grip == grip,
                    forall|i: int| 0 <= i < twists.len() ==> fixes_grip(#[trigger] twists[i].transform, grip),
                    solution_so_far.state.canonical(),
                    solution_so_far.state.spec_twist_count() + remaining_depth < 65535,
                    expected_blocks <= u32::MAX,
                    0 < remaining_depth < usize::BITS,
                    params.heuristic != Heuristic::Fast ==> pow2((remaining_depth - 1) as nat) * expected_blocks <= usize::MAX,
                    104 * remaining_depth <= usize::MAX,
                    forall|e: Elem|
                        e.spec_id() < 192 ==> ((exists|i: int| 0 <= i < twists.len() && twists[i].transform == e)
                            <==> (e.spec_id() != 0 && e.grip_image(2 * (grip.spec_id() / 2)) == 2 * (
                        grip.spec_id() / 2))),
                    ti <= twists.len(),
                    solutions_buffer@.len() >= old(solutions_buffer)@.len(),
                    forall|i: int| 0 <= i < old(solutions_buffer)@.len() ==> #[trigger] solutions_buffer@[i] == old(solutions_buffer)@[i],
                    forall|i: int|
                        old(solutions_buffer)@.len() <= i < solutions_buffer@.len() ==> extends_to_solution(
                            #[trigger] solutions_buffer@[i],
                            solution_so_far,
                            expected_blocks as int,
                            remaining_depth as int,
                        ),
                    forall|i: int|
                        old(solutions_buffer)@.len() <= i < solutions_buffer@.len() ==> (
                        #[trigger] solutions_buffer@[i]).segment_twists@.len() > solution_so_far.segment_twists@.len(),
                    h == params.heuristic && e == expected_blocks && d == remaining_depth,
                    sf ==> dfs_candidate(solution_so_far, t0) && twist_fits(solution_so_far, t0) && forall|n: Segment|
                        #[trigger] twist_pushed(solution_so_far, t0, n) ==> surely_found(h, n, e, (d - 1) as nat),
                    sf && grip == t0.grip ==> 0 <= at < twists.len() && twists[at] == t0,
                    sf && grip == t0.grip && at < ti ==> solutions_buffer@.len() > old(solutions_buffer)@.len(),
                    solutions_buffer@.len() >= before_grip,
                    sf && t0.grip.spec_id() < grip.spec_id() ==> solutions_buffer@.len() > old(solutions_buffer)@.len(),
                    solution_so_far.state@.len() > expected_blocks,
                    !cut_off(h, solution_so_far.state@, e, d),
                    grip.spec_id() == gi,
                    forall|ts: Seq<Twist>|
                        #[trigger] surely_found_by(h, solution_so_far, ts, e, d) && (ts[0].grip.spec_id() < grip.spec_id() || (
                        ts[0].grip == grip && listed_before(twists@, ti as int, ts[0]))) ==> twists_found(
                            solutions_buffer@,
                            old(solutions_buffer)@.len() as int,
                            solution_so_far.segment_twists@ + ts,
                        ),
                decreases twists.len() - ti,
            {
                let twist = twists[ti];
                let _ = twist.transform.id();
                assert(twists[ti as int].transform == twist.transform);
                let pushed = solution_so_far.push_twist(twist);
                proof {
                    if sf && grip == t0.grip && ti == at {
                        assert(twist == t0);
                        assert(pushed is Some);
                    }
                }
                match pushed {
                    Some(next) => {
                        let ghost before = solutions_buffer@;
                        proof {
                            if sf && grip == t0.grip && ti == at {
                                assert(twist_pushed(solution_so_far, t0, next));
                                assert(surely_found(h, next, e, (d - 1) as nat));
                            }
                        }
                        dfs_blockbuild(params, expected_blocks, remaining_depth - 1, solutions_buffer, next);
                        proof {
                            lemma_dfs_step_found(
                                h,
                                solution_so_far,
                                next,
                                twist,
                                twists@,
                                ti as int,
                                grip,
                                e,
                                d,
                                old(solutions_buffer)@,
                                before,
                                solutions_buffer@,
                            );
                            assert forall|i: int|
                                old(solutions_buffer)@.len() <= i < solutions_buffer@.len() implies (
                                #[trigger] solutions_buffer@[i]).segment_twists@.len()
                                > solution_so_far.segment_twists@.len() by {
                                if i < before.len() {
                                    assert(solutions_buffer@[i] == before[i]);
                                } else {
                                    assert(extends_to_solution(
                                        solutions_buffer@[i],
                                        next,
                                        expected_blocks as int,
                                        (remaining_depth - 1) as int,
                                    ));
                                }
                            }
                            assert forall|i: int|
                                old(solutions_buffer)@.len() <= i < solutions_buffer@.len() implies extends_to_solution(
                                #[trigger] solutions_buffer@[i],
                                solution_so_far,
                                expected_blocks as int,
                                remaining_depth as int,
                            ) by {
                                if i < before.len() {
                                    assert(solutions_buffer@[i] == before[i]);
                                } else {
                                    let s = solutions_buffer@[i];
                                    assert(extends_to_solution(s, next, expected_blocks as int, (remaining_depth - 1) as int));
                                    let n0 = solution_so_far.segment_twists@.len();
                                    let n1 = next.segment_twists@.len();
                                    assert(n1 == n0 + 1);
                                    assert(s.segment_twists@.subrange(0, n1 as int) == next.segment_twists@);
                                    assert(s.segment_twists@.subrange(0, n0 as int) =~= next.segment_twists@.subrange(0, n0 as int));
                                    assert(next.segment_twists@.subrange(0, n0 as int) =~= solution_so_far.segment_twists@);
                                    assert forall|v: u8| #[trigger] covers(s.state@, v) == covers(solution_so_far.state@, v) by {
                                        assert(covers(s.state@, v) == covers(next.state@, v));
                                        assert(covers(next.state@, v) == covers(solution_so_far.state@, v));
                                    }
                                    let tw = s.segment_twists@;
                                    assert(tw[n0 as int] == next.segment_twists@[n0 as int]);
                                    assert(tw[n0 as int] == twist);
                                    if n0 >= 1 {
                                        assert(tw[n0 - 1] == next.segment_twists@[n0 - 1]);
                                        assert(tw[n0 - 1] == twists_so_far@[n0 - 1]);
                                    }
                                    if n0 >= 2 {
                                        assert(tw[n0 - 2] == next.segment_twists@[n0 - 2]);
                                        assert(tw[n0 - 2] == twists_so_far@[n0 - 2]);
                                    }
                                    assert(grip_step_ok(tw, n0 as int));
                                    assert(twists_valid(tw.subrange(n0 as int, tw.len() as int))) by {
                                        let sub = tw.subrange(n0 as int, tw.len() as int);
                                        let rest = tw.subrange(n1 as int, tw.len() as int);
                                        assert forall|j: int| 0 <= j < sub.len() implies fixes_grip(
                                            #[trigger] sub[j].transform,
                                            sub[j].grip,
                                        ) by {
                                            if j == 0 {
                                                assert(sub[0] == twist);
                                            } else {
                                                assert(sub[j] == rest[j - 1]);
                                            }
                                        }
                                    }
                                    if centers_home(solution_so_far.state@) {
                                        assert(fixes_grip(twist.transform, twist.grip));
                                        let rest = tw.subrange(n1 as int, tw.len() as int);
                                        lemma_pieces_moved_prepend(solution_so_far.state@, next.state@, s.state@, twist, rest);
                                        assert(seq![twist] + rest =~= tw.subrange(n0 as int, tw.len() as int));
                                    }
                                }
                            }
                        }
                    },
                    None => {
                        proof {
                            assert forall|ts: Seq<Twist>|
                                #[trigger] surely_found_by(h, solution_so_far, ts, e, d) && (ts[0].grip.spec_id()
                                    < grip.spec_id() || (ts[0].grip == grip && listed_before(twists@, ti + 1, ts[0])))
                                implies twists_found(
                                solutions_buffer@,
                                old(solutions_buffer)@.len() as int,
                                solution_so_far.segment_twists@ + ts,
                            ) by {
                                if ts[0].grip == grip && !listed_before(twists@, ti as int, ts[0]) {
                                    let j = choose|j: int| 0 <= j < ti + 1 && twists@[j] == ts[0];
                                    assert(j == ti);
                                    assert(twist_fits(solution_so_far, twist));
                                }
                            }
                        }
                    },
                }
                ti = ti + 1;
            }
            proof {
                assert forall|ts: Seq<Twist>|
                    #[trigger] surely_found_by(h, solution_so_far, ts, e, d) && ts[0].grip.spec_id() < gi + 1 implies twists_found(
                    solutions_buffer@,
                    old(solutions_buffer)@.len() as int,
                    solution_so_far.segment_twists@ + ts,
                ) by {
                    if ts[0].grip.spec_id() == gi {
                        Grip::lemma_id_eq(ts[0].grip, grip);
                        let tr = ts[0].transform;
                        assert(puzzle_twist(ts[0]));
                        assert(exists|i: int| 0 <= i < twists.len() && twists[i].transform == tr);
                        let i = choose|i: int| 0 <= i < twists.len() && twists[i].transform == tr;
                        assert(twists@[i] == ts[0]);
                        assert(listed_before(twists@, twists.len() as int, ts[0]));
                    }
                }
            }
        } else {
            proof {
                assert forall|ts: Seq<Twist>|
                    #[trigger] surely_found_by(h, solution_so_far, ts, e, d) && ts[0].grip.spec_id() < gi + 1 implies twists_found(
                    solutions_buffer@,
                    old(solutions_buffer)@.len() as int,
                    solution_so_far.segment_twists@ + ts,
                ) by {
                    if ts[0].grip.spec_id() == gi {
                        Grip::lemma_id_eq(ts[0].grip, grip);
                        assert(dfs_candidate(solution_so_far, ts[0]));
                    }
                }
            }
        }
        gi = gi + 1;
    }
    proof {
        assert forall|ts: Seq<Twist>|
            #[trigger] surely_found_by(h, solution_so_far, ts, e, d) implies twists_found(
            solutions_buffer@,
            old(solutions_buffer)@.len() as int,
            solution_so_far.segment_twists@ + ts,
        ) by {
            assert(puzzle_twist(ts[0]));
        }
    }
}

} // verus!

verus! {

/// Whether the segment at index `a` of `segs` comes no later than the one at
/// index `b`: by the order of segments, then by index.
pub open spec fn idx_le(segs: Seq<Segment>, a: usize, b: usize) -> bool {
    &&& segment_le(segs[a as int], segs[b as int])
    &&& segment_le(segs[b as int], segs[a as int]) ==> a <= b
}

/// Whether the indices `s` are sorted by [`idx_le`].
pub open spec fn idx_sorted(segs: Seq<Segment>, s: Seq<usize>) -> bool {
    forall|i: int, j: int| 0 <= i < j < s.len() ==> idx_le(segs, #[trigger] s[i], #[trigger] s[j])
}

proof fn lemma_idx_le_trans(segs: Seq<Segment>, a: usize, b: usize, c: usize)
    requires
        idx_le(segs, a, b),
        idx_le(segs, b, c),
    ensures
        idx_le(segs, a, c),
{
    lemma_segment_le_trans(segs[a as int], segs[b as int], segs[c as int]);
    if segment_le(segs[c as int], segs[a as int]) {
        lemma_segment_le_trans(segs[b as int], segs[c as int], segs[a as int]);
        lemma_segment_le_trans(segs[c as int], segs[a as int], segs[b as int]);
    }
}

/// Sorts the indices `idx` of segments of `segs` by the order of segments,
/// keeping equal segments in the order of their indices. The indices must be
/// increasing.
fn sort_indices(segs: &Vec<Segment>, idx: &[usize]) -> (r: Vec<usize>)
    requires
        forall|k: int| 0 <= k < segs@.len() ==> (#[trigger] segs@[k]).state.wf(),
        forall|k: int| 0 <= k < idx@.len() ==> #[trigger] idx@[k] < segs@.len(),
        forall|i: int, j: int| 0 <= i < j < idx@.len() ==> idx@[i] < idx@[j],
    ensures
        r@.to_multiset() == idx@.to_multiset(),
        r@.len() == idx@.len(),
        idx_sorted(segs@, r@),
    decreases idx@.len(),
{
    broadcast use {vstd::seq_lib::group_to_multiset_ensures, vstd::multiset::group_multiset_axioms};

    let n = idx.len();
    if n <= 1 {
        let mut r: Vec<usize> = Vec::new();
        if n == 1 {
            r.push(idx[0]);
        }
        assert(r@ =~= idx@);
        return r;
    }
    let mid = n / 2;
    let left_in = slice_range(idx, 0, mid);
    let right_in = slice_range(idx, mid, n);
    let left = sort_indices(segs, left_in.as_slice());
    let right = sort_indices(segs, right_in.as_slice());
    proof {
        assert(idx@ =~= left_in@ + right_in@);
        vstd::seq_lib::lemma_multiset_commutative(left_in@, right_in@);
        assert forall|x: usize| left@.contains(x) implies left_in@.contains(x) by {
            assert(left@.to_multiset().count(x) > 0);
        }
        assert forall|x: usize| right@.contains(x) implies right_in@.contains(x) by {
            assert(right@.to_multiset().count(x) > 0);
        }
    }
    let mut r: Vec<usize> = Vec::new();
    let mut i: usize = 0;
    let mut j: usize = 0;
    while i < left.len() || j < right.len()
        invariant
            forall|k: int| 0 <= k < segs@.len() ==> (#[trigger] segs@[k]).state.wf(),
            forall|k: int| 0 <= k < idx@.len() ==> #[trigger] idx@[k] < segs@.len(),
            forall|x: usize| left@.contains(x) ==> left_in@.contains(x),
            forall|x: usize| right@.contains(x) ==> right_in@.contains(x),
            forall|a: int, b: int| 0 <= a < left_in@.len() && 0 <= b < right_in@.len() ==> #[trigger] left_in@[a] < #[trigger] right_in@[b],
            forall|k: int| 0 <= k < left_in@.len() ==> #[trigger] left_in@[k] < segs@.len(),
            forall|k: int| 0 <= k < right_in@.len() ==> #[trigger] right_in@[k] < segs@.len(),
            idx_sorted(segs@, left@),
            idx_sorted(segs@, right@),
            i <= left@.len(),
            j <= right@.len(),
            r@.to_multiset() == left@.subrange(0, i as int).to_multiset().add(right@.subrange(0, j as int).to_multiset()),
            r@.len() == i + j,
            idx_sorted(segs@, r@),
            forall|a: int, b: int| 0 <= a < r@.len() && i <= b < left@.len() ==> idx_le(segs@, #[trigger] r@[a], #[trigger] left@[b]),
            forall|a: int, b: int| 0 <= a < r@.len() && j <= b < right@.len() ==> idx_le(segs@, #[trigger] r@[a], #[trigger] right@[b]),
        decreases left@.len() + right@.len() - i - j,
    {
        proof {
            if i < left@.len() {
                assert(left@.contains(left@[i as int]));
                let k1 = choose|k: int| 0 <= k < left_in@.len() && left_in@[k] == left@[i as int];
            }
            if j < right@.len() {
                assert(right@.contains(right@[j as int]));
                let k2 = choose|k: int| 0 <= k < right_in@.len() && right_in@[k] == right@[j as int];
            }
        }
        let take_left = if i >= left.len() {
            false
        } else if j >= right.len() {
            true
        } else {
            segs[left[i]].sort_key_le(&segs[right[j]])
        };
        let x = if take_left { left[i] } else { right[j] };
        proof {
            if i < left@.len() {
                assert(left@.contains(left@[i as int]));
            }
            if j < right@.len() {
                assert(right@.contains(right@[j as int]));
            }
            if take_left {
                let li = left@[i as int];
                let k1 = choose|k: int| 0 <= k < left_in@.len() && left_in@[k] == li;
                if j < right@.len() {
                    let rj = right@[j as int];
                    let k2 = choose|k: int| 0 <= k < right_in@.len() && right_in@[k] == rj;
                    assert(li < rj);
                    assert(idx_le(segs@, li, rj));
                    assert forall|b: int| j <= b < right@.len() implies idx_le(segs@, li, #[trigger] right@[b]) by {
                        if b > j {
                            lemma_idx_le_trans(segs@, li, rj, right@[b]);
                        }
                    }
                }
            } else {
                let rj = right@[j as int];
                let k2 = choose|k: int| 0 <= k < right_in@.len() && right_in@[k] == rj;
                if i < left@.len() {
                    let li = left@[i as int];
                    lemma_segment_le_total(segs@[li as int], segs@[rj as int]);
                    assert(idx_le(segs@, rj, li));
                    assert forall|b: int| i <= b < left@.len() implies idx_le(segs@, rj, #[trigger] left@[b]) by {
                        if b > i {
                            lemma_idx_le_trans(segs@, rj, li, left@[b]);
                        }
                    }
                }
            }
        }
        let ghost r0 = r@;
        r.push(x);
        proof {
            let a0 = left@.subrange(0, i as int);
            let b0 = right@.subrange(0, j as int);
            r0.to_multiset_ensures();
            a0.to_multiset_ensures();
            b0.to_multiset_ensures();
            assert(r@ == r0.push(x));
            assert(r@.to_multiset() == r0.to_multiset().insert(x));
            if take_left {
                assert(left@.subrange(0, i + 1) =~= a0.push(x));
                assert(a0.push(x).to_multiset() == a0.to_multiset().insert(x));
                assert(r@.to_multiset() =~= a0.push(x).to_multiset().add(b0.to_multiset()));
            } else {
                assert(right@.subrange(0, j + 1) =~= b0.push(x));
                assert(b0.push(x).to_multiset() == b0.to_multiset().insert(x));
                assert(r@.to_multiset() =~= a0.to_multiset().add(b0.push(x).to_multiset()));
            }
        }
        if take_left {
            i = i + 1;
        } else {
            j = j + 1;
        }
    }
    proof {
        assert(left@.subrange(0, left@.len() as int) =~= left@);
        assert(right@.subrange(0, right@.len() as int) =~= right@);
    }
    r
}

/// Copies the elements `lo..hi` of a slice.
fn slice_range(s: &[usize], lo: usize, hi: usize) -> (r: Vec<usize>)
    requires
        lo <= hi <= s@.len(),
    ensures
        r@ == s@.subrange(lo as int, hi as int),
{
    let mut r: Vec<usize> = Vec::new();
    let mut k = lo;
    while k < hi
        invariant
            lo <= k <= hi <= s@.len(),
            r@ == s@.subrange(lo as int, k as int),
        decreases hi - k,
    {
        r.push(s[k]);
        k = k + 1;
        assert(r@ =~= s@.subrange(lo as int, k as int));
    }
    r
}

} // verus!

verus! {

/// Whether `x` is equal, field by field, to some segment of `s`.
pub open spec fn is_one_of(x: Segment, s: Seq<Segment>) -> bool {
    exists|k: int| 0 <= k < s.len() && segment_eq(x, s[k])
}

/// Whether `r` holds, in the order of segments and without two equal
/// neighbours, segments of `s`: every segment of `s`, or, when `r` holds
/// `max_count` of them, every segment of `s` that comes no later than those
/// left out.
pub open spec fn best_distinct(r: Seq<Segment>, s: Seq<Segment>, max_count: int) -> bool {
    &&& r.len() <= max_count
    &&& r.len() <= s.len()
    &&& forall|i: int, j: int| 0 <= i < j < r.len() ==> segment_le(#[trigger] r[i], #[trigger] r[j])
    &&& forall|i: int| 0 <= i < r.len() - 1 ==> !segment_eq(#[trigger] r[i], r[i + 1])
    &&& forall|i: int| 0 <= i < r.len() ==> is_one_of(#[trigger] r[i], s)
    &&& forall|k: int|
        0 <= k < s.len() ==> is_one_of(#[trigger] s[k], r) || (r.len() == max_count && forall|i: int|
            0 <= i < r.len() ==> segment_le(#[trigger] r[i], s[k]))
}

/// What is kept of a list of segments is never worse than what is left out:
/// a kept segment has no more twists than one left out, and no more blocks
/// when it has as many twists; and the kept ones come by twist count, then
/// by block count.
pub proof fn lemma_kept_segments_are_best(r: Seq<Segment>, s: Seq<Segment>, max_count: int)
    requires
        best_distinct(r, s, max_count),
    ensures
        forall|i: int, k: int|
            0 <= i < r.len() && 0 <= k < s.len() && !is_one_of(s[k], r) ==> {
                let (a, b) = (#[trigger] r[i], #[trigger] s[k]);
                &&& a.state.spec_twist_count() <= b.state.spec_twist_count()
                &&& a.state.spec_twist_count() == b.state.spec_twist_count() ==> a.state@.len() <= b.state@.len()
            },
        forall|i: int, j: int|
            0 <= i < j < r.len() ==> {
                let (a, b) = (#[trigger] r[i], #[trigger] r[j]);
                &&& a.state.spec_twist_count() <= b.state.spec_twist_count()
                &&& a.state.spec_twist_count() == b.state.spec_twist_count() ==> a.state@.len() <= b.state@.len()
            },
{
    assert forall|i: int, k: int| 0 <= i < r.len() && 0 <= k < s.len() && !is_one_of(s[k], r) implies {
        let (a, b) = (#[trigger] r[i], #[trigger] s[k]);
        &&& a.state.spec_twist_count() <= b.state.spec_twist_count()
        &&& a.state.spec_twist_count() == b.state.spec_twist_count() ==> a.state@.len() <= b.state@.len()
    } by {
        assert(segment_le(r[i], s[k]));
        lemma_segment_le_prefers_fewer(r[i], s[k]);
    }
    assert forall|i: int, j: int| 0 <= i < j < r.len() implies {
        let (a, b) = (#[trigger] r[i], #[trigger] r[j]);
        &&& a.state.spec_twist_count() <= b.state.spec_twist_count()
        &&& a.state.spec_twist_count() == b.state.spec_twist_count() ==> a.state@.len() <= b.state@.len()
    } by {
        assert(segment_le(r[i], r[j]));
        lemma_segment_le_prefers_fewer(r[i], r[j]);
    }
}

/// The segments of `s` at the indices `p`, in that order.
pub open spec fn in_order(s: Seq<Segment>, p: Seq<usize>) -> Seq<Segment> {
    Seq::new(p.len(), |i: int| s[p[i] as int])
}

/// Whether `p` lists each index of `s` once, sorted by the order of segments
/// and, among segments that come equally, by index: the order of a stable
/// sort.
pub open spec fn stable_order(s: Seq<Segment>, p: Seq<usize>) -> bool {
    &&& p.to_multiset() == Seq::new(s.len(), |i: int| i as usize).to_multiset()
    &&& idx_sorted(s, p)
}

/// `s` without each segment equal to the one kept before it.
pub open spec fn dedup_adjacent(s: Seq<Segment>) -> Seq<Segment>
    decreases s.len(),
{
    if s.len() == 0 {
        s
    } else {
        let d = dedup_adjacent(s.drop_last());
        if d.len() > 0 && segment_eq(d.last(), s.last()) {
            d
        } else {
            d.push(s.last())
        }
    }
}

/// The first `max_count` segments of `s`, or all of them if fewer.
pub open spec fn truncated(s: Seq<Segment>, max_count: int) -> Seq<Segment> {
    if s.len() <= max_count {
        s
    } else {
        s.take(max_count)
    }
}

/// Whether `a` and `b` hold, position by position, equal segments.
pub open spec fn segs_eq(a: Seq<Segment>, b: Seq<Segment>) -> bool {
    &&& a.len() == b.len()
    &&& forall|i: int| 0 <= i < a.len() ==> segment_eq(#[trigger] a[i], b[i])
}

/// Dropping the adjacent duplicates of a prefix gives a prefix of what
/// dropping them from the whole gives.
proof fn lemma_dedup_prefix(s: Seq<Segment>, m: int)
    requires
        0 <= m <= s.len(),
    ensures
        dedup_adjacent(s.take(m)).len() <= dedup_adjacent(s).len(),
        forall|i: int| 0 <= i < dedup_adjacent(s.take(m)).len() ==> #[trigger] dedup_adjacent(s)[i] == dedup_adjacent(s.take(m))[i],
    decreases s.len(),
{
    if m == s.len() {
        assert(s.take(m) =~= s);
    } else {
        lemma_dedup_prefix(s.drop_last(), m);
        assert(s.drop_last().take(m) =~= s.take(m));
    }
}

/// Sorts segments by the order of segments, keeping equal ones in their
/// order; drops each segment equal to the one kept before it; and keeps at
/// most `max_count` of them.
pub fn sort_dedup_truncate(segments: Vec<Segment>, max_count: usize) -> (r: Vec<Segment>)
    requires
        forall|k: int| 0 <= k < segments@.len() ==> (#[trigger] segments@[k]).state.wf(),
    ensures
        best_distinct(r@, segments@, max_count as int),
        exists|p: Seq<usize>|
            stable_order(segments@, p) && segs_eq(r@, truncated(dedup_adjacent(#[trigger] in_order(segments@, p)), max_count as int)),
{
    let n = segments.len();
    let mut idx: Vec<usize> = Vec::new();
    let mut k: usize = 0;
    while k < n
        invariant
            k <= n,
            n == segments@.len(),
            idx@ == Seq::new(k as nat, |i: int| i as usize),
        decreases n - k,
    {
        idx.push(k);
        k = k + 1;
        assert(idx@ =~= Seq::new(k as nat, |i: int| i as usize));
    }
    let sorted = sort_indices(&segments, idx.as_slice());
    proof {
        broadcast use vstd::seq_lib::group_to_multiset_ensures;

        assert forall|m: int| 0 <= m < sorted@.len() implies #[trigger] sorted@[m] < n by {
            assert(sorted@.contains(sorted@[m]));
            assert(sorted@.to_multiset().count(sorted@[m]) > 0);
            assert(idx@.contains(sorted@[m]));
        }
        assert forall|k: usize| k < n implies #[trigger] sorted@.contains(k) by {
            assert(idx@[k as int] == k);
            assert(idx@.contains(k));
            assert(sorted@.to_multiset().count(k) > 0);
        }
    }
    let mut r: Vec<Segment> = Vec::new();
    let mut m: usize = 0;
    while m < sorted.len() && r.len() < max_count
        invariant
            n == segments@.len(),
            forall|k: int| 0 <= k < segments@.len() ==> (#[trigger] segments@[k]).state.wf(),
            forall|q: int| 0 <= q < sorted@.len() ==> #[trigger] sorted@[q] < n,
            idx_sorted(segments@, sorted@),
            sorted@.len() == n,
            m <= sorted@.len(),
            r@.len() <= max_count,
            r@.len() <= m,
            forall|i: int, j: int| 0 <= i < j < r@.len() ==> segment_le(#[trigger] r@[i], #[trigger] r@[j]),
            forall|i: int| 0 <= i < r@.len() - 1 ==> !segment_eq(#[trigger] r@[i], r@[i + 1]),
            forall|i: int| 0 <= i < r@.len() ==> is_one_of(#[trigger] r@[i], segments@),
            forall|i: int, q: int| 0 <= i < r@.len() && m <= q < sorted@.len() ==> segment_le(#[trigger] r@[i], segments@[#[trigger] sorted@[q] as int]),
            forall|q: int| 0 <= q < m ==> is_one_of(segments@[#[trigger] sorted@[q] as int], r@),
            forall|k: usize| k < n ==> #[trigger] sorted@.contains(k),
            segs_eq(r@, dedup_adjacent(in_order(segments@, sorted@).take(m as int))),
        decreases sorted@.len() - m,
    {
        let seg = &segments[sorted[m]];
        let keep = r.len() == 0 || !r[r.len() - 1].same_as(seg);
        let ghost whole = in_order(segments@, sorted@);
        let ghost d0 = dedup_adjacent(whole.take(m as int));
        proof {
            let t = whole.take(m + 1);
            assert(t.drop_last() =~= whole.take(m as int));
            assert(t.last() == segments@[sorted@[m as int] as int]);
            if r@.len() > 0 {
                assert(segment_eq(r@[r@.len() - 1], d0[d0.len() - 1]));
            }
        }
        if !keep {
            proof {
                let last = (r@.len() - 1) as int;
                assert(segment_eq(segments@[sorted@[m as int] as int], r@[last]));
                assert forall|q: int| 0 <= q < m + 1 implies is_one_of(segments@[#[trigger] sorted@[q] as int], r@) by {
                    if q == m {
                        assert(segment_eq(segments@[sorted@[q] as int], r@[last]));
                    }
                }
            }
        }
        if keep {
            let c = seg.clone();
            let ghost r0 = r@;
            r.push(c);
            proof {
                let d1 = dedup_adjacent(whole.take(m + 1));
                assert(d1 == d0.push(segments@[sorted@[m as int] as int]));
                assert forall|i: int| 0 <= i < r@.len() implies segment_eq(#[trigger] r@[i], d1[i]) by {
                    if i < r0.len() {
                        assert(r@[i] == r0[i]);
                        assert(segment_eq(r0[i], d0[i]));
                    }
                }
                let q0 = sorted@[m as int];
                assert(segment_eq(c, segments@[q0 as int]));
                assert forall|i: int, j: int| 0 <= i < j < r@.len() implies segment_le(#[trigger] r@[i], #[trigger] r@[j]) by {
                    if j == r@.len() - 1 {
                        assert(segment_le(r0[i], segments@[sorted@[m as int] as int]));
                    }
                }
                assert forall|i: int| 0 <= i < r@.len() implies is_one_of(#[trigger] r@[i], segments@) by {
                    if i == r@.len() - 1 {
                        assert(segment_eq(r@[i], segments@[q0 as int]));
                    } else {
                        assert(r@[i] == r0[i]);
                        assert(is_one_of(r0[i], segments@));
                    }
                }
                assert forall|i: int, q: int| 0 <= i < r@.len() && m + 1 <= q < sorted@.len() implies segment_le(#[trigger] r@[i], segments@[#[trigger] sorted@[q] as int]) by {
                    if i == r@.len() - 1 {
                        assert(idx_le(segments@, sorted@[m as int], sorted@[q]));
                    } else {
                        assert(r@[i] == r0[i]);
                    }
                }
                assert forall|q: int| 0 <= q < m + 1 implies is_one_of(segments@[#[trigger] sorted@[q] as int], r@) by {
                    if q == m {
                        assert(segment_eq(segments@[sorted@[q] as int], r@[r@.len() - 1]));
                    } else {
                        assert(is_one_of(segments@[sorted@[q] as int], r0));
                        let w = choose|w: int| 0 <= w < r0.len() && segment_eq(segments@[sorted@[q] as int], r0[w]);
                        assert(r@[w] == r0[w]);
                    }
                }
            }
        }
        m = m + 1;
    }
    proof {
        let whole = in_order(segments@, sorted@);
        let dd = dedup_adjacent(whole);
        lemma_dedup_prefix(whole, m as int);
        if m == sorted@.len() {
            assert(whole.take(m as int) =~= whole);
        } else {
            assert(r@.len() == max_count);
        }
        let tt = truncated(dd, max_count as int);
        assert forall|i: int| 0 <= i < r@.len() implies segment_eq(#[trigger] r@[i], tt[i]) by {
            assert(segment_eq(r@[i], dedup_adjacent(whole.take(m as int))[i]));
        }
        assert(segs_eq(r@, tt));
        assert(idx@ =~= Seq::new(segments@.len(), |i: int| i as usize));
        assert(stable_order(segments@, sorted@));
        assert(segs_eq(r@, truncated(dedup_adjacent(in_order(segments@, sorted@)), max_count as int)));
        assert forall|k: int| 0 <= k < segments@.len() implies is_one_of(#[trigger] segments@[k], r@) || (r@.len()
            == max_count && forall|i: int| 0 <= i < r@.len() ==> segment_le(#[trigger] r@[i], segments@[k])) by {
            assert(sorted@.contains(k as usize));
            let q = choose|q: int| 0 <= q < sorted@.len() && sorted@[q] == k as usize;
            if q < m {
                assert(is_one_of(segments@[sorted@[q] as int], r@));
            } else {
                assert forall|i: int| 0 <= i < r@.len() implies segment_le(#[trigger] r@[i], segments@[k]) by {
                    assert(segment_le(r@[i], segments@[sorted@[q] as int]));
                }
            }
        }
    }
    r
}

/// Whether the twists of segment `s`, which continues a segment of `segs`,
/// fix their grips, and whether, after a scramble whose twists fix theirs, `s`
/// holds every piece where the scramble and the twists leading to `s` put it.
pub open spec fn segment_follows(s: Segment, segs: Seq<Segment>, scramble: Seq<Twist>) -> bool {
    &&& twists_valid(s.segment_twists@)
    &&& twists_valid(scramble) ==> pieces_after(
        s.state@,
        scramble + chain_twists(segs, s.previous_segment.0 as int) + s.segment_twists@,
    )
}

/// Whether each segment of `segs` follows the segments before it, the first
/// having no twists.
pub open spec fn segments_follow(segs: Seq<Segment>, scramble: Seq<Twist>) -> bool {
    &&& segs[0].segment_twists@.len() == 0
    &&& forall|i: int| 0 <= i < segs.len() ==> segment_follows(#[trigger] segs[i], segs, scramble)
}

/// The twists leading to a stored segment fix their grips, and the segment
/// holds its pieces where the scramble and those twists put them.
proof fn lemma_chain_follows(store: SegmentStore, id: int)
    requires
        store.wf(),
        segments_follow(store.spec_segments(), store.spec_scramble()),
        0 <= id < store.spec_segments().len(),
    ensures
        twists_valid(chain_twists(store.spec_segments(), id)),
        twists_valid(store.spec_scramble()) ==> pieces_after(
            store.spec_segments()[id].state@,
            store.spec_scramble() + chain_twists(store.spec_segments(), id),
        ),
    decreases id,
{
    let segs = store.spec_segments();
    let scr = store.spec_scramble();
    let x = segs[id];
    assert(segment_follows(x, segs, scr));
    if id == 0 {
        assert(chain_twists(segs, 0) =~= Seq::<Twist>::empty());
        assert(x.segment_twists@ =~= Seq::<Twist>::empty());
        assert(scr + chain_twists(segs, 0) + x.segment_twists@ =~= scr + chain_twists(segs, 0));
    } else {
        let p = x.previous_segment.0 as int;
        lemma_chain_follows(store, p);
        lemma_twists_valid_append(chain_twists(segs, p), x.segment_twists@);
        assert(scr + chain_twists(segs, p) + x.segment_twists@ =~= scr + (chain_twists(segs, p) + x.segment_twists@));
    }
}

/// A block added, with the scramble and the twists leading to a stored
/// segment as setup moves, to that segment keeps it following the others.
proof fn lemma_push_block_follows(store: SegmentStore, id: int, s: Segment, setup: Seq<Twist>, new_block: Block)
    requires
        store.wf(),
        segments_follow(store.spec_segments(), store.spec_scramble()),
        0 <= id < store.spec_segments().len(),
        setup == store.spec_scramble() + chain_twists(store.spec_segments(), id),
        ({
            let prev = store.spec_segments()[id];
            &&& s.segment_twists@ == prev.segment_twists@
            &&& s.previous_segment == prev.previous_segment
            &&& centers_home(prev.state@) && twists_valid(setup) ==> centers_home(s.state@) && forall|
                v: u8,
                p: Stickers,
            |
                valid_cell(v) ==> (#[trigger] places(s.state@, v, p) == (places(prev.state@, v, p) || (!covers(
                    prev.state@,
                    v,
                ) && holds_cell(new_block, v) && p == setup_placement(setup, v))))
        }),
    ensures
        segment_follows(s, store.spec_segments(), store.spec_scramble()),
{
    let segs = store.spec_segments();
    let scr = store.spec_scramble();
    let prev = segs[id];
    assert(segment_follows(prev, segs, scr));
    lemma_chain_follows(store, id);
    let p = prev.previous_segment.0 as int;
    if id == 0 {
        assert(prev.segment_twists@ =~= Seq::<Twist>::empty());
        assert(scr + chain_twists(segs, p) + s.segment_twists@ =~= setup);
    } else {
        assert(scr + chain_twists(segs, p) + s.segment_twists@ =~= setup);
    }
    if twists_valid(scr) {
        lemma_twists_valid_append(scr, chain_twists(segs, id));
        assert(pieces_after(prev.state@, setup));
    }
}

/// A segment that a depth-first search found from the start of a step after
/// a stored segment follows the stored segments.
proof fn lemma_dfs_follows(store: SegmentStore, id: int, start: Segment, s: Segment, blocks: int, depth: int)
    requires
        store.wf(),
        segments_follow(store.spec_segments(), store.spec_scramble()),
        0 <= id < store.spec_segments().len(),
        start.state == store.spec_segments()[id].state,
        start.segment_twists@.len() == 0,
        start.previous_segment.0 == id,
        extends_to_solution(s, start, blocks, depth),
    ensures
        segment_follows(s, store.spec_segments(), store.spec_scramble()),
{
    let segs = store.spec_segments();
    let scr = store.spec_scramble();
    let tw = s.segment_twists@;
    assert(tw.subrange(0, tw.len() as int) =~= tw);
    lemma_chain_follows(store, id);
    if twists_valid(scr) {
        let moves = scr + chain_twists(segs, id);
        lemma_pieces_after_moved(start.state@, s.state@, moves, tw);
    }
}

/// A segment continuing one of `segs` follows them as it follows `segs` with
/// more segments stored after them.
proof fn lemma_follows_extend(x: Segment, segs: Seq<Segment>, more: Seq<Segment>, scramble: Seq<Twist>)
    requires
        x.previous_segment.0 < segs.len(),
    ensures
        segment_follows(x, segs + more, scramble) == segment_follows(x, segs, scramble),
{
    lemma_chain_prefix(segs, more, x.previous_segment.0 as int);
}

/// IDs of `n` segments stored from ID `start` on.
pub open spec fn ids_from(start: int, n: int) -> Seq<SegmentId> {
    Seq::new(n as nat, |i: int| SegmentId((start + i) as u32))
}

/// Whether `new` is `old` with the segments `added` stored and their IDs
/// making up a new step.
pub open spec fn stored(old: SegmentStore, new: SegmentStore, added: Seq<Segment>) -> bool {
    &&& new.spec_scramble() == old.spec_scramble()
    &&& new.spec_segments() == old.spec_segments() + added
    &&& new.spec_steps() == old.spec_steps().push(ids_from(old.spec_segments().len() as int, added.len() as int))
}

/// Storing segments as a new step, as `add_segments` does, stores them.
proof fn lemma_steps_pushed(old: SegmentStore, new: SegmentStore, added: Seq<Segment>)
    requires
        new.spec_scramble() == old.spec_scramble(),
        new.spec_segments() == old.spec_segments() + added,
        new.spec_steps().len() == old.spec_steps().len() + 1,
        forall|k: int| 0 <= k < new.spec_steps().len() && k != old.spec_steps().len() ==> #[trigger] new.spec_steps()[k]
            == if k < old.spec_steps().len() { old.spec_steps()[k] } else { Seq::empty() },
        new.spec_steps()[old.spec_steps().len() as int] == Seq::<SegmentId>::empty() + Seq::new(
            added.len(),
            |i: int| SegmentId((old.spec_segments().len() + i) as u32),
        ),
    ensures
        stored(old, new, added),
{
    let n = old.spec_steps().len() as int;
    assert(new.spec_steps()[n] =~= ids_from(old.spec_segments().len() as int, added.len() as int));
    assert forall|k: int| 0 <= k < new.spec_steps().len() implies #[trigger] new.spec_steps()[k] == old.spec_steps().push(
        ids_from(old.spec_segments().len() as int, added.len() as int),
    )[k] by {
        if k != n {
            assert(new.spec_steps()[k] == old.spec_steps()[k]);
        }
    }
    assert(new.spec_steps() =~= old.spec_steps().push(ids_from(old.spec_segments().len() as int, added.len() as int)));
}

/// Whether `s` was found by a depth-first search of at most `max_depth`
/// twists, for at most `block_target` blocks, from the start of a step after
/// one of the segments `last` of `segs`.
pub open spec fn found_from(s: Segment, segs: Seq<Segment>, last: Seq<SegmentId>, block_target: int, max_depth: int) -> bool {
    let p = s.previous_segment;
    &&& last.contains(p)
    &&& exists|b: Segment|
        {
            &&& b.state == segs[p.0 as int].state
            &&& b.segment_twists@.len() == 0
            &&& b.meta == segs[p.0 as int].meta
            &&& b.previous_segment == p
            &&& #[trigger] extends_to_solution(s, b, block_target, max_depth)
        }
}

/// Whether `after` keeps the scramble, the segments and the steps of
/// `before`, with more steps after them.
pub open spec fn grown(before: SegmentStore, after: SegmentStore) -> bool {
    &&& after.spec_scramble() == before.spec_scramble()
    &&& after.spec_steps().len() > before.spec_steps().len()
    &&& after.spec_steps().subrange(0, before.spec_steps().len() as int) == before.spec_steps()
    &&& after.spec_segments().len() >= before.spec_segments().len()
    &&& after.spec_segments().subrange(0, before.spec_segments().len() as int) == before.spec_segments()
}

/// Whether every segment of the last step of `store` is at stage `stage`.
pub open spec fn last_step_at_stage(store: SegmentStore, stage: int) -> bool {
    let last = store.spec_steps().last();
    forall|j: int| 0 <= j < last.len() ==> store.spec_segments()[(#[trigger] last[j]).0 as int].meta.stage == stage
}

/// Whether every segment of the last step of `store` has at most `n` blocks.
pub open spec fn last_step_within(store: SegmentStore, n: int) -> bool {
    let last = store.spec_steps().last();
    forall|j: int| 0 <= j < last.len() ==> store.spec_segments()[(#[trigger] last[j]).0 as int].state@.len() <= n
}

/// Storing a step grows a store, and growing is transitive.
proof fn lemma_grown(a: SegmentStore, b: SegmentStore, c: SegmentStore, added: Seq<Segment>)
    requires
        stored(b, c, added),
        a == b || grown(a, b),
    ensures
        grown(a, c),
        grown(b, c),
{
    assert(c.spec_steps().subrange(0, b.spec_steps().len() as int) =~= b.spec_steps());
    assert(c.spec_segments().subrange(0, b.spec_segments().len() as int) =~= b.spec_segments());
    if a != b {
        assert(c.spec_steps().subrange(0, a.spec_steps().len() as int) =~= b.spec_steps().subrange(
            0,
            a.spec_steps().len() as int,
        ));
        assert(c.spec_segments().subrange(0, a.spec_segments().len() as int) =~= b.spec_segments().subrange(
            0,
            a.spec_segments().len() as int,
        ));
    }
}

/// Continuation number `c` of stage `stage` from the segment with the ID
/// at `j` in `ids`.
pub open spec fn nth_continuation(segs: Seq<Segment>, ids: Seq<SegmentId>, stage: u8, j: int, c: int) -> Continuation {
    stage_continuations(segs[ids[j].0 as int].meta, stage)[c]
}

/// Number of continuations of stage `stage` from the segment with the ID at
/// `j` in `ids`.
pub open spec fn continuation_count(segs: Seq<Segment>, ids: Seq<SegmentId>, stage: u8, j: int) -> int {
    stage_continuations(segs[ids[j].0 as int].meta, stage).len() as int
}

/// Whether `s` is segment `prev` with the block of `cont` added and the
/// metadata of `cont`.
pub open spec fn block_added(s: Segment, prev: Segment, cont: Continuation) -> bool {
    &&& s.state.canonical()
    &&& s.previous_segment == prev.previous_segment
    &&& s.segment_twists@ == prev.segment_twists@
    &&& s.meta == cont.1
    &&& forall|v: u8| valid_cell(v) ==> (#[trigger] covers(s.state@, v) == (covers(prev.state@, v) || holds_cell(cont.0, v)))
}

/// Whether `s` is a segment with the ID at some `j` in `ids` with the block
/// of one of its continuations of stage `stage` added.
pub open spec fn from_continuation(s: Segment, segs: Seq<Segment>, ids: Seq<SegmentId>, stage: u8) -> bool {
    exists|j: int, c: int|
        0 <= j < ids.len() && 0 <= c < continuation_count(segs, ids, stage, j) && #[trigger] block_added(
            s,
            segs[ids[j].0 as int],
            nth_continuation(segs, ids, stage, j, c),
        )
}

/// Whether some segment of `r` is `prev` with the block of `cont` added.
pub open spec fn in_results(r: Seq<Segment>, prev: Segment, cont: Continuation) -> bool {
    exists|k: int| 0 <= k < r.len() && #[trigger] block_added(r[k], prev, cont)
}

/// Whether the block of `cont` can be added to `prev`: the list stays within
/// 26 blocks and holds some piece.
pub open spec fn block_fits(prev: Segment, cont: Continuation) -> bool {
    &&& prev.state@.len() + new_cell_count(prev.state@, cont.0, 256) <= 26
    &&& exists|v: u8| valid_cell(v) && (covers(prev.state@, v) || holds_cell(cont.0, v))
}

/// Whether the segment with the ID at `j` in `last` already has at most
/// `block_target` blocks, with a twist count that can still grow.
pub open spec fn ready_at(segs: Seq<Segment>, last: Seq<SegmentId>, block_target: int, j: int) -> bool {
    &&& segs[last[j].0 as int].state@.len() <= block_target
    &&& segs[last[j].0 as int].state.spec_twist_count() < 65535
}

/// Whether some segment of `last` already has at most `block_target` blocks.
pub open spec fn has_ready(segs: Seq<Segment>, last: Seq<SegmentId>, block_target: int) -> bool {
    exists|j: int| 0 <= j < last.len() && #[trigger] ready_at(segs, last, block_target, j)
}

/// Whether the block of some continuation of stage `stage` can be added to
/// some segment of `ids`.
pub open spec fn has_fitting(segs: Seq<Segment>, ids: Seq<SegmentId>, stage: u8) -> bool {
    exists|j: int, c: int|
        0 <= j < ids.len() && 0 <= c < continuation_count(segs, ids, stage, j) && block_fits(
            segs[ids[j].0 as int],
            #[trigger] nth_continuation(segs, ids, stage, j, c),
        )
}

/// Whether the first step that a stage added to `before`, in `after`, holds
/// segments of the last step of `before` with a block of the stage added,
/// and holds one when some block fits and its ID can be given.
pub open spec fn first_step_ok(before: SegmentStore, after: SegmentStore, stage: u8, max_count: int) -> bool {
    let first = after.spec_steps()[before.spec_steps().len() as int];
    &&& forall|j: int| 0 <= j < first.len() ==> from_continuation(
        after.spec_segments()[(#[trigger] first[j]).0 as int],
        before.spec_segments(),
        before.spec_steps().last(),
        stage,
    )
    &&& max_count >= 1 && before.spec_segments().len() + max_count <= u32::MAX && has_fitting(
        before.spec_segments(),
        before.spec_steps().last(),
        stage,
    ) ==> first.len() > 0
}

/// The best of the segments with a block added hold a block of the stage, and
/// there is one when some block fits.
proof fn lemma_stage_step_chosen(
    raw: Seq<Segment>,
    chosen: Seq<Segment>,
    segs: Seq<Segment>,
    ids: Seq<SegmentId>,
    stage: u8,
    max_count: int,
)
    requires
        best_distinct(chosen, raw, max_count),
        forall|k: int| 0 <= k < raw.len() ==> #[trigger] from_continuation(raw[k], segs, ids, stage),
        forall|j: int, cc: int|
            0 <= j < ids.len() && 0 <= cc < continuation_count(segs, ids, stage, j) && block_fits(
                segs[ids[j].0 as int],
                #[trigger] nth_continuation(segs, ids, stage, j, cc),
            ) ==> in_results(raw, segs[ids[j].0 as int], nth_continuation(segs, ids, stage, j, cc)),
    ensures
        forall|q: int| 0 <= q < chosen.len() ==> #[trigger] from_continuation(chosen[q], segs, ids, stage),
        forall|q: int| 0 <= q < chosen.len() ==> (#[trigger] chosen[q]).meta.stage == stage,
        max_count >= 1 && has_fitting(segs, ids, stage) ==> chosen.len() > 0,
{
    assert forall|q: int| 0 <= q < chosen.len() implies #[trigger] from_continuation(chosen[q], segs, ids, stage) by {
        assert(is_one_of(chosen[q], raw));
        let k = choose|k: int| 0 <= k < raw.len() && segment_eq(chosen[q], raw[k]);
        assert(from_continuation(raw[k], segs, ids, stage));
        let (j, c) = choose|j: int, c: int|
            0 <= j < ids.len() && 0 <= c < continuation_count(segs, ids, stage, j) && #[trigger] block_added(
                raw[k],
                segs[ids[j].0 as int],
                nth_continuation(segs, ids, stage, j, c),
            );
        assert(block_added(chosen[q], segs[ids[j].0 as int], nth_continuation(segs, ids, stage, j, c)));
    }
    assert forall|q: int| 0 <= q < chosen.len() implies (#[trigger] chosen[q]).meta.stage == stage by {
        assert(from_continuation(chosen[q], segs, ids, stage));
        let (j, c) = choose|j: int, c: int|
            0 <= j < ids.len() && 0 <= c < continuation_count(segs, ids, stage, j) && #[trigger] block_added(
                chosen[q],
                segs[ids[j].0 as int],
                nth_continuation(segs, ids, stage, j, c),
            );
        lemma_continuation_builds(segs[ids[j].0 as int].meta, stage, c, 0);
    }
    if max_count >= 1 && has_fitting(segs, ids, stage) {
        let (j, c) = choose|j: int, c: int|
            0 <= j < ids.len() && 0 <= c < continuation_count(segs, ids, stage, j) && block_fits(
                segs[ids[j].0 as int],
                #[trigger] nth_continuation(segs, ids, stage, j, c),
            );
        assert(in_results(raw, segs[ids[j].0 as int], nth_continuation(segs, ids, stage, j, c)));
        let q = choose|q: int| 0 <= q < raw.len() && #[trigger] block_added(
            raw[q],
            segs[ids[j].0 as int],
            nth_continuation(segs, ids, stage, j, c),
        );
        assert(is_one_of(raw[q], chosen) || chosen.len() == max_count);
    }
}

/// Storing the chosen segments as the stage's first step makes it what
/// `first_step_ok` describes.
proof fn lemma_first_step_stored(before: SegmentStore, after: SegmentStore, chosen: Seq<Segment>, stage: u8, max_count: int)
    requires
        chosen.len() <= max_count,
        forall|q: int| 0 <= q < chosen.len() ==> #[trigger] from_continuation(
            chosen[q],
            before.spec_segments(),
            before.spec_steps().last(),
            stage,
        ),
        max_count >= 1 && has_fitting(before.spec_segments(), before.spec_steps().last(), stage) ==> chosen.len() > 0,
        stored(
            before,
            after,
            if before.spec_segments().len() + chosen.len() <= u32::MAX {
                chosen
            } else {
                Seq::empty()
            },
        ),
    ensures
        first_step_ok(before, after, stage, max_count),
{
    let n = before.spec_segments().len();
    let added = if n + chosen.len() <= u32::MAX {
        chosen
    } else {
        Seq::empty()
    };
    let first = after.spec_steps()[before.spec_steps().len() as int];
    assert(first == ids_from(n as int, added.len() as int));
    assert forall|j: int| 0 <= j < first.len() implies from_continuation(
        after.spec_segments()[(#[trigger] first[j]).0 as int],
        before.spec_segments(),
        before.spec_steps().last(),
        stage,
    ) by {
        assert(first[j].0 == n + j);
        assert(after.spec_segments()[n + j] == added[j]);
    }
}

/// Growing a store keeps what the stage's first step was.
proof fn lemma_first_step_kept(before: SegmentStore, mid: SegmentStore, after: SegmentStore, stage: u8, max_count: int)
    requires
        first_step_ok(before, mid, stage, max_count),
        mid.wf(),
        grown(before, mid),
        grown(mid, after),
    ensures
        first_step_ok(before, after, stage, max_count),
{
    let n = before.spec_steps().len() as int;
    assert(after.spec_steps()[n] == after.spec_steps().subrange(0, mid.spec_steps().len() as int)[n]);
    let first = after.spec_steps()[n];
    assert forall|j: int| 0 <= j < first.len() implies from_continuation(
        after.spec_segments()[(#[trigger] first[j]).0 as int],
        before.spec_segments(),
        before.spec_steps().last(),
        stage,
    ) by {
        assert(first[j] == mid.spec_steps()[n][j]);
        let id = first[j].0 as int;
        assert(id < mid.spec_segments().len());
        assert(after.spec_segments()[id] == after.spec_segments().subrange(0, mid.spec_segments().len() as int)[id]);
    }
}

/// Whether a depth-first search to `depth` for `block_target` blocks, from a
/// state with `twist_count` twists, stays within the limits of the numbers
/// involved.
pub open spec fn search_allowed(params: BlockBuildingSearchParams, block_target: int, depth: int, twist_count: int) -> bool {
    &&& depth < usize::BITS
    &&& block_target <= u32::MAX
    &&& twist_count + depth < 65535
    &&& params.heuristic != Heuristic::Fast ==> pow2(depth as nat) * block_target <= usize::MAX
}

/// Whether every target solution count is at least 1.
pub open spec fn targets_positive(params: BlockBuildingSearchParams) -> bool {
    forall|i: int| 0 <= i < 5 ==> #[trigger] params.solution_count_targets[i] >= 1
}

/// Whether the search of depth `depth` from the start of a step after the
/// segment with the ID at `j` in `last` may run and is sure to find a state
/// of at most `block_target` blocks.
pub open spec fn surely_found_at(
    params: BlockBuildingSearchParams,
    segs: Seq<Segment>,
    last: Seq<SegmentId>,
    block_target: int,
    j: int,
    depth: int,
) -> bool {
    let id = last[j];
    let prev = segs[id.0 as int];
    &&& 0 <= depth <= params.max_depth
    &&& search_allowed(params, block_target, depth, prev.state.spec_twist_count() as int)
    &&& forall|b: Segment|
        b.state == prev.state && b.segment_twists@.len() == 0 && b.meta == prev.meta && b.previous_segment == id
            ==> #[trigger] surely_found(params.heuristic, b, block_target, depth as nat)
}

/// Whether some search of depth below `limit` from the start of a step
/// after a segment of `last` may run and is sure to find one.
pub open spec fn surely_found_below(
    params: BlockBuildingSearchParams,
    segs: Seq<Segment>,
    last: Seq<SegmentId>,
    block_target: int,
    limit: int,
) -> bool {
    exists|j: int, dd: int|
        0 <= j < last.len() && 0 <= dd < limit && #[trigger] surely_found_at(params, segs, last, block_target, j, dd)
}

/// Whether a segment of `buf` continues the segment with ID `id` by the
/// twists `ts`.
pub open spec fn found_at(buf: Seq<Segment>, id: SegmentId, ts: Seq<Twist>) -> bool {
    exists|q: int| 0 <= q < buf.len() && (#[trigger] buf[q]).previous_segment == id && buf[q].segment_twists@ == ts
}

/// The number of solutions wanted by depth `d`.
pub open spec fn desired_at(params: BlockBuildingSearchParams, d: int) -> int {
    params.solution_count_targets[if d < 4 { d } else { 4 }] as int
}

/// Whether `n` solutions reach the number wanted at some depth up to `dd`.
pub open spec fn full_by(params: BlockBuildingSearchParams, n: int, dd: int) -> bool {
    exists|d: int| 0 <= d <= dd && n >= #[trigger] desired_at(params, d)
}

/// Whether the search of depth `dd` from the start of a step after the
/// segment with the ID at `j` in `last` may run and is sure to find the
/// segment reached by the twists `ts`.
pub open spec fn search_finds(
    params: BlockBuildingSearchParams,
    segs: Seq<Segment>,
    last: Seq<SegmentId>,
    block_target: int,
    j: int,
    dd: int,
    ts: Seq<Twist>,
) -> bool {
    let id = last[j];
    let prev = segs[id.0 as int];
    &&& 0 <= dd <= params.max_depth
    &&& search_allowed(params, block_target, dd, prev.state.spec_twist_count() as int)
    &&& forall|b: Segment|
        b.state == prev.state && b.segment_twists@.len() == 0 && b.meta == prev.meta && b.previous_segment == id
            ==> #[trigger] surely_found_by(params.heuristic, b, ts, block_target, dd as nat)
}

/// Whether `raw` holds every segment that some search of a step, from a
/// segment of `last`, is sure to find, unless enough solutions were found by
/// that depth.
pub open spec fn raw_complete(
    params: BlockBuildingSearchParams,
    segs: Seq<Segment>,
    last: Seq<SegmentId>,
    block_target: int,
    raw: Seq<Segment>,
) -> bool {
    forall|j: int, dd: int, ts: Seq<Twist>|
        0 <= j < last.len() && #[trigger] search_finds(params, segs, last, block_target, j, dd, ts) ==> found_at(
            raw,
            last[j],
            ts,
        ) || full_by(params, raw.len() as int, dd)
}

/// Moving the first result of a search onto the buffer keeps every
/// continuation found in one or the other.
proof fn lemma_results_step(
    id: SegmentId,
    s: Segment,
    nb: Seq<Segment>,
    na: Seq<Segment>,
    r: Seq<Segment>,
    r2: Seq<Segment>,
)
    requires
        r.len() > 0,
        r[0] == s,
        s.previous_segment == id,
        r2 == r.subrange(1, r.len() as int),
        na == nb.push(s),
    ensures
        forall|ts: Seq<Twist>|
            (found_at(nb, id, ts) || twists_found(r, 0, ts)) ==> (found_at(na, id, ts) || twists_found(r2, 0, ts)),
        forall|x: SegmentId, ts: Seq<Twist>| found_at(nb, x, ts) ==> #[trigger] found_at(na, x, ts),
{
    assert forall|x: SegmentId, ts: Seq<Twist>| found_at(nb, x, ts) implies #[trigger] found_at(na, x, ts) by {
        lemma_found_at_push(nb, s, x, ts);
    }
    assert forall|ts: Seq<Twist>|
        (found_at(nb, id, ts) || twists_found(r, 0, ts)) implies (found_at(na, id, ts) || twists_found(r2, 0, ts)) by {
        if found_at(nb, id, ts) {
            lemma_found_at_push(nb, s, id, ts);
        } else {
            let i = choose|i: int| 0 <= i < r.len() && (#[trigger] r[i]).segment_twists@ == ts;
            if i == 0 {
                assert(na[nb.len() as int] == s);
            } else {
                assert(r2[i - 1] == r[i]);
            }
        }
    }
}

/// Pushing onto a buffer keeps what it held.
proof fn lemma_found_at_push(buf: Seq<Segment>, x: Segment, id: SegmentId, ts: Seq<Twist>)
    requires
        found_at(buf, id, ts),
    ensures
        found_at(buf.push(x), id, ts),
{
    let q = choose|q: int| 0 <= q < buf.len() && (#[trigger] buf[q]).previous_segment == id && buf[q].segment_twists@ == ts;
    assert(buf.push(x)[q] == buf[q]);
}

/// Blockbuilding solver.
pub struct Solver {
    params: BlockBuildingSearchParams,
    segments: SegmentStore,
}

impl Solver {
    /// Whether the segment store is valid, has at least one step, and each of
    /// its segments follows the segments before it.
    pub closed spec fn wf(self) -> bool {
        &&& self.segments.wf()
        &&& self.segments.spec_steps().len() >= 1
        &&& segments_follow(self.segments.spec_segments(), self.segments.spec_scramble())
        &&& forall|i: int|
            0 <= i < self.segments.spec_segments().len() ==> cells_built(
                (#[trigger] self.segments.spec_segments()[i]).state@,
                self.segments.spec_segments()[i].meta,
            )
    }

    /// The segments found so far.
    pub closed spec fn spec_store(self) -> SegmentStore {
        self.segments
    }

    /// Creates a solver for `scramble`.
    pub fn new(params: BlockBuildingSearchParams, scramble: Vec<Twist>) -> (r: Solver)
        ensures
            r.wf(),
            r.spec_store().spec_scramble() == scramble@,
            r.spec_store().spec_segments().len() == 1,
            r.spec_store().spec_steps().len() == 1,
    {
        let segments = SegmentStore::new(scramble);
        proof {
            let segs = segments.spec_segments();
            assert(segs[0].state@.len() == 0);
            assert(segment_follows(segs[0], segs, segments.spec_scramble()));
        }
        Solver { params, segments }
    }

    /// Returns the segment store.
    pub fn segments(&self) -> (r: &SegmentStore)
        ensures
            *r == self.spec_store(),
    {
        &self.segments
    }

    /// Sorts the segments found at a step stably by the order of segments,
    /// drops each one equal to the one kept before it, and keeps at most the
    /// first target count of them.
    fn do_step(&self, new_segments: Vec<Segment>) -> (r: Vec<Segment>)
        requires
            forall|k: int| 0 <= k < new_segments@.len() ==> (#[trigger] new_segments@[k]).state.wf(),
        ensures
            best_distinct(r@, new_segments@, self.params.solution_count_targets[0] as int),
            exists|p: Seq<usize>|
                stable_order(new_segments@, p) && segs_eq(
                    r@,
                    truncated(
                        dedup_adjacent(#[trigger] in_order(new_segments@, p)),
                        self.params.solution_count_targets[0] as int,
                    ),
                ),
    {
        sort_dedup_truncate(new_segments, self.params.solution_count_targets[0])
    }

    /// Continues each segment of the last step with the blocks of stage
    /// `stage` (from 1 to 6). Segments whose metadata is not at the stage
    /// before are skipped.
    fn add_pieces(&self, stage: u8) -> (r: Vec<Segment>)
        requires
            self.wf(),
        ensures
            forall|k: int| 0 <= k < r@.len() ==> (#[trigger] r@[k]).state.canonical(),
            forall|k: int| 0 <= k < r@.len() ==> (#[trigger] r@[k]).previous_segment.0 < self.spec_store().spec_segments().len(),
            forall|k: int| 0 <= k < r@.len() ==> segment_follows(
                #[trigger] r@[k],
                self.spec_store().spec_segments(),
                self.spec_store().spec_scramble(),
            ),
            forall|k: int| 0 <= k < r@.len() ==> cells_built((#[trigger] r@[k]).state@, r@[k].meta),
            ({
                let segs = self.spec_store().spec_segments();
                let ids = self.spec_store().spec_steps().last();
                &&& forall|k: int| 0 <= k < r@.len() ==> #[trigger] from_continuation(r@[k], segs, ids, stage)
                &&& forall|j: int, cc: int|
                    0 <= j < ids.len() && 0 <= cc < continuation_count(segs, ids, stage, j) && block_fits(
                        segs[ids[j].0 as int],
                        #[trigger] nth_continuation(segs, ids, stage, j, cc),
                    ) ==> in_results(r@, segs[ids[j].0 as int], nth_continuation(segs, ids, stage, j, cc))
            }),
    {
        let step = self.segments.next_step();
        let ids = self.segments.segment_ids_for_step(step - 1);
        let ghost segs = self.segments.spec_segments();
        let ghost scr = self.segments.spec_scramble();
        let mut r: Vec<Segment> = Vec::new();
        let mut k: usize = 0;
        while k < ids.len()
            invariant
                self.wf(),
                segs == self.segments.spec_segments(),
                ids@ == self.segments.spec_steps()[step - 1],
                step == self.segments.spec_steps().len(),
                k <= ids@.len(),
                forall|q: int| 0 <= q < r@.len() ==> (#[trigger] r@[q]).state.canonical(),
                forall|q: int| 0 <= q < r@.len() ==> (#[trigger] r@[q]).previous_segment.0 < segs.len(),
                scr == self.segments.spec_scramble(),
                forall|q: int| 0 <= q < r@.len() ==> segment_follows(#[trigger] r@[q], segs, scr),
                forall|q: int| 0 <= q < r@.len() ==> cells_built((#[trigger] r@[q]).state@, r@[q].meta),
                forall|q: int| 0 <= q < r@.len() ==> #[trigger] from_continuation(r@[q], segs, ids@, stage),
                forall|j: int, cc: int|
                    0 <= j < k && 0 <= cc < continuation_count(segs, ids@, stage, j) && block_fits(
                        segs[ids@[j].0 as int],
                        #[trigger] nth_continuation(segs, ids@, stage, j, cc),
                    ) ==> in_results(r@, segs[ids@[j].0 as int], nth_continuation(segs, ids@, stage, j, cc)),
            decreases ids@.len() - k,
        {
            let id = ids[k];
            assert(self.segments.spec_steps()[step - 1][k as int] == id);
            let prev = self.segments.get(id);
            proof {
                assert(segs[id.0 as int].state.canonical());
                if id.0 >= 1 {
                    assert(segs[id.0 as int].previous_segment.0 < id.0);
                }
            }
            let meta = prev.meta;
            let conts: Vec<Continuation> = if stage == 1 && meta.stage == 0 {
                meta.stage1()
            } else if stage == 2 && meta.stage == 1 {
                meta.stage2()
            } else if stage == 3 && meta.stage == 2 {
                meta.stage3()
            } else if stage == 4 && meta.stage == 3 && meta.left_blocked_grips.not().len() == 2 && full_axes(
                meta.left_blocked_grips,
            ) == 2 {
                meta.stage4()
            } else if stage == 5 && meta.stage == 4 {
                meta.stage5()
            } else if stage == 6 && meta.stage == 5 {
                meta.stage6()
            } else {
                Vec::new()
            };
            proof {
                assert(conts@ =~= stage_continuations(meta, stage));
                assert(prev.meta == segs[ids@[k as int].0 as int].meta);
            }
            let mut c: usize = 0;
            while c < conts.len()
                invariant
                    self.wf(),
                    segs == self.segments.spec_segments(),
                    id.0 < segs.len(),
                    *prev == segs[id.0 as int],
                    prev.state.canonical(),
                    prev.previous_segment.0 < segs.len(),
                    c <= conts@.len(),
                    forall|q: int| 0 <= q < r@.len() ==> (#[trigger] r@[q]).state.canonical(),
                    forall|q: int| 0 <= q < r@.len() ==> (#[trigger] r@[q]).previous_segment.0 < segs.len(),
                    scr == self.segments.spec_scramble(),
                    forall|q: int| 0 <= q < r@.len() ==> segment_follows(#[trigger] r@[q], segs, scr),
                forall|q: int| 0 <= q < r@.len() ==> cells_built((#[trigger] r@[q]).state@, r@[q].meta),
                    k < ids@.len(),
                    ids@[k as int] == id,
                    conts@ == stage_continuations(segs[ids@[k as int].0 as int].meta, stage),
                    forall|q: int| 0 <= q < r@.len() ==> #[trigger] from_continuation(r@[q], segs, ids@, stage),
                    forall|j: int, cc: int|
                        (0 <= j < k || (j == k && cc < c)) && 0 <= cc < continuation_count(segs, ids@, stage, j) && block_fits(
                            segs[ids@[j].0 as int],
                            #[trigger] nth_continuation(segs, ids@, stage, j, cc),
                        ) ==> in_results(r@, segs[ids@[j].0 as int], nth_continuation(segs, ids@, stage, j, cc)),
                decreases conts@.len() - c,
            {
                let (new_block, new_meta) = conts[c];
                let setup_moves = self.segments.all_prior_twists_for_segment(id);
                let ghost cont = nth_continuation(segs, ids@, stage, k as int, c as int);
                assert(conts@[c as int] == cont);
                let ghost r0 = r@;
                match prev.push_block(setup_moves.as_slice(), new_block, new_meta) {
                    Some(s) => {
                        proof {
                            lemma_push_block_follows(self.segments, id.0 as int, s, setup_moves@, new_block);
                            assert(cells_built(prev.state@, prev.meta));
                            assert forall|v: u8| valid_cell(v) implies (#[trigger] covers(s.state@, v) == built_cell(s.meta, v)) by {
                                lemma_continuation_builds(prev.meta, stage, c as int, v);
                            }
                        }
                        r.push(s);
                        proof {
                            let last = r0.len() as int;
                            assert(block_added(r@[last], segs[ids@[k as int].0 as int], cont));
                            assert(from_continuation(r@[last], segs, ids@, stage));
                            assert forall|q: int| 0 <= q < r@.len() implies #[trigger] from_continuation(r@[q], segs, ids@, stage) by {
                                if q < r0.len() {
                                    assert(r@[q] == r0[q]);
                                }
                            }
                            assert forall|j: int, cc: int|
                                (0 <= j < k || (j == k && cc < c + 1)) && 0 <= cc < continuation_count(segs, ids@, stage, j) && block_fits(
                                    segs[ids@[j].0 as int],
                                    #[trigger] nth_continuation(segs, ids@, stage, j, cc),
                                ) implies in_results(r@, segs[ids@[j].0 as int], nth_continuation(segs, ids@, stage, j, cc)) by {
                                if j == k && cc == c {
                                    assert(block_added(r@[last], segs[ids@[j].0 as int], nth_continuation(segs, ids@, stage, j, cc)));
                                } else {
                                    assert(in_results(r0, segs[ids@[j].0 as int], nth_continuation(segs, ids@, stage, j, cc)));
                                    let q0 = choose|q: int| 0 <= q < r0.len() && #[trigger] block_added(
                                        r0[q],
                                        segs[ids@[j].0 as int],
                                        nth_continuation(segs, ids@, stage, j, cc),
                                    );
                                    assert(r@[q0] == r0[q0]);
                                }
                            }
                        }
                    },
                    None => {
                        proof {
                            assert(!block_fits(segs[ids@[k as int].0 as int], cont));
                        }
                    },
                }
                c = c + 1;
            }
            k = k + 1;
        }
        proof {
            assert(ids@ == self.spec_store().spec_steps().last());
        }
        r
    }

    /// Stores the segments found at a step, or none if their IDs would not
    /// fit.
    fn store_step(&mut self, step: usize, new_segments: Vec<Segment>, Ghost(segs): Ghost<Seq<Segment>>)
        requires
            old(self).wf(),
            segs == old(self).spec_store().spec_segments(),
            step == old(self).spec_store().spec_steps().len(),
            forall|q: int| 0 <= q < new_segments@.len() ==> (#[trigger] new_segments@[q]).state.canonical(),
            forall|q: int| 0 <= q < new_segments@.len() ==> (#[trigger] new_segments@[q]).previous_segment.0 < segs.len(),
            forall|q: int| 0 <= q < new_segments@.len() ==> segment_follows(
                #[trigger] new_segments@[q],
                segs,
                old(self).spec_store().spec_scramble(),
            ),
            forall|q: int| 0 <= q < new_segments@.len() ==> cells_built(
                (#[trigger] new_segments@[q]).state@,
                new_segments@[q].meta,
            ),
        ensures
            final(self).wf(),
            final(self).spec_store().spec_steps().len() >= old(self).spec_store().spec_steps().len(),
            final(self).spec_store().spec_scramble() == old(self).spec_store().spec_scramble(),
            step < usize::MAX ==> stored(
                old(self).spec_store(),
                final(self).spec_store(),
                if segs.len() + new_segments@.len() <= u32::MAX {
                    new_segments@
                } else {
                    Seq::empty()
                },
            ),
            step == usize::MAX ==> final(self).spec_store() == old(self).spec_store(),
            final(self).params == old(self).params,
    {
        if step == usize::MAX {
            return;
        }
        if new_segments.len() <= 0xffff_ffff && self.segments.segment_count() <= 0xffff_ffff - new_segments.len() {
            let ghost added = new_segments@;
            let ghost scr = self.segments.spec_scramble();
            self.segments.add_segments(step, new_segments);
            proof {
                let all = self.segments.spec_segments();
                assert(all == segs + added);
                assert(all[0] == segs[0]);
                assert forall|i: int| 0 <= i < all.len() implies segment_follows(#[trigger] all[i], all, scr) by {
                    if i < segs.len() {
                        assert(all[i] == segs[i]);
                        assert(segment_follows(segs[i], segs, scr));
                        if i >= 1 {
                            assert(segs[i].previous_segment.0 < i);
                        }
                    } else {
                        assert(all[i] == added[i - segs.len()]);
                    }
                    lemma_follows_extend(all[i], segs, added, scr);
                }
                assert forall|i: int| 0 <= i < all.len() implies cells_built(
                    (#[trigger] all[i]).state@,
                    all[i].meta,
                ) by {
                    if i < segs.len() {
                        assert(all[i] == segs[i]);
                    } else {
                        assert(all[i] == added[i - segs.len()]);
                    }
                }
                lemma_steps_pushed(old(self).spec_store(), self.segments, added);
            }
        } else {
            let ghost before = self.segments;
            self.segments.add_segments(step, Vec::new());
            proof {
                assert(self.segments.spec_segments() =~= segs + Seq::<Segment>::empty());
                lemma_steps_pushed(before, self.segments, Seq::<Segment>::empty());
            }
        }
    }

    /// Runs the depth-first searches of one blockbuilding step: from each
    /// segment of the last step, at increasing depths, for states of at most
    /// `block_target` blocks, until enough solutions are found; then stores
    /// the best of them as a new step.
    fn do_blockbuilding_step(&mut self, block_target: usize)
        requires
            old(self).wf(),
        ensures
            final(self).wf(),
            final(self).spec_store().spec_steps().len() >= old(self).spec_store().spec_steps().len(),
            final(self).spec_store().spec_scramble() == old(self).spec_store().spec_scramble(),
            final(self).params == old(self).params,
            old(self).spec_store().spec_steps().len() < usize::MAX ==> {
                let before = old(self).spec_store();
                let after = final(self).spec_store();
                let added = after.spec_segments().subrange(before.spec_segments().len() as int, after.spec_segments().len() as int);
                &&& stored(before, after, added)
                &&& added.len() <= old(self).params.solution_count_targets[0]
                &&& forall|i: int, j: int| 0 <= i < j < added.len() ==> segment_le(#[trigger] added[i], #[trigger] added[j])
                &&& forall|k: int| 0 <= k < added.len() ==> found_from(
                    #[trigger] added[k],
                    before.spec_segments(),
                    before.spec_steps().last(),
                    block_target as int,
                    old(self).params.max_depth as int,
                )
                &&& old(self).params.solution_count_targets[0] >= 1 && block_target <= u32::MAX
                    && before.spec_segments().len() + old(self).params.solution_count_targets[0] <= u32::MAX
                    && has_ready(before.spec_segments(), before.spec_steps().last(), block_target as int) ==> added.len()
                    > 0
                &&& targets_positive(old(self).params) && before.spec_segments().len()
                    + old(self).params.solution_count_targets[0] <= u32::MAX && surely_found_below(
                    old(self).params,
                    before.spec_segments(),
                    before.spec_steps().last(),
                    block_target as int,
                    old(self).params.max_depth + 1,
                ) ==> added.len() > 0
                &&& before.spec_segments().len() + old(self).params.solution_count_targets[0] <= u32::MAX ==> exists|
                    raw: Seq<Segment>,
                |
                    #[trigger] raw_complete(
                        old(self).params,
                        before.spec_segments(),
                        before.spec_steps().last(),
                        block_target as int,
                        raw,
                    ) && exists|p: Seq<usize>|
                        stable_order(raw, p) && segs_eq(
                            added,
                            truncated(
                                dedup_adjacent(#[trigger] in_order(raw, p)),
                                old(self).params.solution_count_targets[0] as int,
                            ),
                        )
            },
    {
        let step = self.segments.next_step();
        let ids = copy_ids(self.segments.segment_ids_for_step(step - 1));
        let ghost segs = self.segments.spec_segments();
        let ghost scr = self.segments.spec_scramble();
        let mut new_segments: Vec<Segment> = Vec::new();
        let max_depth = self.params.max_depth;
        let targets = self.params.solution_count_targets;
        let mut depth: usize = 0;
        let mut done = false;
        while !done
            invariant
                self.wf(),
                segs == self.segments.spec_segments(),
                step == self.segments.spec_steps().len(),
                ids@ == self.segments.spec_steps()[step - 1],
                !done ==> depth <= max_depth,
                forall|q: int| 0 <= q < new_segments@.len() ==> (#[trigger] new_segments@[q]).state.canonical(),
                forall|q: int| 0 <= q < new_segments@.len() ==> (#[trigger] new_segments@[q]).previous_segment.0 < segs.len(),
                scr == self.segments.spec_scramble(),
                forall|q: int| 0 <= q < new_segments@.len() ==> segment_follows(#[trigger] new_segments@[q], segs, scr),
                forall|q: int| 0 <= q < new_segments@.len() ==> found_from(#[trigger] new_segments@[q], segs, ids@, block_target as int, max_depth as int),
                max_depth == self.params.max_depth,
                self.params == old(self).params,
                targets == self.params.solution_count_targets,
                depth == 0 && !done ==> new_segments@.len() == 0,
                (depth > 0 || done) && targets[0] >= 1 && block_target <= u32::MAX && has_ready(segs, ids@, block_target as int)
                    ==> new_segments@.len() > 0,
                targets_positive(self.params) && surely_found_below(self.params, segs, ids@, block_target as int, depth as int)
                    ==> new_segments@.len() > 0,
                done && targets_positive(self.params) && surely_found_below(
                    self.params,
                    segs,
                    ids@,
                    block_target as int,
                    max_depth + 1,
                ) ==> new_segments@.len() > 0,
                forall|j: int, dd: int, ts: Seq<Twist>|
                    0 <= j < ids@.len() && dd < depth && #[trigger] search_finds(self.params, segs, ids@, block_target as int, j, dd, ts)
                        ==> found_at(new_segments@, ids@[j], ts) || full_by(self.params, new_segments@.len() as int, dd),
                done ==> raw_complete(self.params, segs, ids@, block_target as int, new_segments@),
            decreases max_depth - depth, if done { 0int } else { 1int },
        {
            let desired = targets[if depth < 4 { depth } else { 4 }];
            let left = desired.saturating_sub(new_segments.len());
            let mut taken: usize = 0;
            let mut k: usize = 0;
            let ghost n0 = new_segments@.len();
            proof {
                if targets_positive(self.params) {
                    let di = if depth < 4 { depth as int } else { 4int };
                    assert(targets[di] >= 1);
                }
            }
            while k < ids.len() && taken < left
                invariant
                    self.wf(),
                    segs == self.segments.spec_segments(),
                    ids@ == self.segments.spec_steps()[step - 1],
                    step == self.segments.spec_steps().len(),
                    k <= ids@.len(),
                    depth <= max_depth,
                    taken <= left,
                    forall|q: int| 0 <= q < new_segments@.len() ==> (#[trigger] new_segments@[q]).state.canonical(),
                    forall|q: int| 0 <= q < new_segments@.len() ==> (#[trigger] new_segments@[q]).previous_segment.0 < segs.len(),
                    scr == self.segments.spec_scramble(),
                    forall|q: int| 0 <= q < new_segments@.len() ==> segment_follows(#[trigger] new_segments@[q], segs, scr),
                    forall|q: int| 0 <= q < new_segments@.len() ==> found_from(#[trigger] new_segments@[q], segs, ids@, block_target as int, max_depth as int),
                    max_depth == self.params.max_depth,
                    self.params == old(self).params,
                    targets == self.params.solution_count_targets,
                    new_segments@.len() == n0 + taken,
                    depth == 0 ==> n0 == 0 && left == targets[0],
                    depth == 0 && targets[0] >= 1 && block_target <= u32::MAX && (exists|j: int|
                        0 <= j < k && #[trigger] ready_at(segs, ids@, block_target as int, j)) ==> taken > 0,
                    targets_positive(self.params) ==> left > 0 || n0 > 0,
                    targets_positive(self.params) && surely_found_below(self.params, segs, ids@, block_target as int, depth as int)
                        ==> n0 > 0,
                    targets_positive(self.params) && (exists|j: int|
                        0 <= j < k && #[trigger] surely_found_at(self.params, segs, ids@, block_target as int, j, depth as int))
                        ==> new_segments@.len() > 0,
                    forall|j: int, dd: int, ts: Seq<Twist>|
                        0 <= j < ids@.len() && dd < depth && #[trigger] search_finds(self.params, segs, ids@, block_target as int, j, dd, ts)
                            ==> found_at(new_segments@, ids@[j], ts) || full_by(self.params, new_segments@.len() as int, dd),
                    forall|j: int, ts: Seq<Twist>|
                        0 <= j < k && #[trigger] search_finds(self.params, segs, ids@, block_target as int, j, depth as int, ts)
                            ==> found_at(new_segments@, ids@[j], ts) || new_segments@.len() >= desired_at(self.params, depth as int),
                    desired == desired_at(self.params, depth as int),
                    left == (if n0 < desired { desired - n0 } else { 0 }),
                decreases ids@.len() - k,
            {
                let id = ids[k];
                assert(self.segments.spec_steps()[step - 1][k as int] == id);
                let prev = self.segments.get(id);
                let start = prev.next_step(id);
                if can_search(self.params, block_target, depth, start.state.twist_count()) {
                    let mut results: Vec<Segment> = Vec::new();
                    dfs_blockbuild(self.params, block_target, depth, &mut results, start);
                    let mut results = results;
                    let ghost t0 = taken;
                    let ghost rl0 = results@.len();
                    proof {
                        if ready_at(segs, ids@, block_target as int, k as int) {
                            assert(results@.len() == 1);
                        }
                        assert forall|ts: Seq<Twist>|
                            #[trigger] surely_found_by(self.params.heuristic, start, ts, block_target as int, depth as nat) implies found_at(
                            new_segments@,
                            id,
                            ts,
                        ) || twists_found(results@, 0, ts) || taken == left by {
                            assert(start.segment_twists@ + ts =~= ts);
                        }
                        assert forall|q: int| 0 <= q < results@.len() implies (#[trigger] results@[q]).previous_segment == id by {
                            assert(extends_to_solution(results@[q], start, block_target as int, depth as int));
                        }
                        if surely_found_at(self.params, segs, ids@, block_target as int, k as int, depth as int) {
                            assert(ids@[k as int] == id);
                            let pv = segs[ids@[k as int].0 as int];
                            assert(start.state == pv.state && start.segment_twists@.len() == 0 && start.meta == pv.meta
                                && start.previous_segment == ids@[k as int]);
                            let bt = block_target as int;
                            let dp = depth as int;
                            assert(forall|b: Segment|
                                b.state == pv.state && b.segment_twists@.len() == 0 && b.meta == pv.meta && b.previous_segment
                                    == ids@[k as int] ==> #[trigger] surely_found(self.params.heuristic, b, bt, dp as nat));
                            assert(surely_found(self.params.heuristic, start, bt, dp as nat));
                            assert(surely_found(self.params.heuristic, start, block_target as int, depth as nat));
                            assert(rl0 > 0);
                        }
                    }
                    while results.len() > 0 && taken < left
                        invariant
                            taken <= left,
                            forall|q: int| 0 <= q < results@.len() ==> extends_to_solution(
                                #[trigger] results@[q],
                                start,
                                block_target as int,
                                depth as int,
                            ),
                            self.wf(),
                            segs == self.segments.spec_segments(),
                            start.previous_segment == id,
                            k < ids@.len(),
                            ids@[k as int] == id,
                            depth <= max_depth,
                            ids@ == self.segments.spec_steps()[step - 1],
                            start.state == segs[id.0 as int].state,
                            start.meta == segs[id.0 as int].meta,
                            start.segment_twists@.len() == 0,
                            id.0 < segs.len(),
                            forall|q: int| 0 <= q < new_segments@.len() ==> (#[trigger] new_segments@[q]).state.canonical(),
                            forall|q: int| 0 <= q < new_segments@.len() ==> (#[trigger] new_segments@[q]).previous_segment.0 < segs.len(),
                            scr == self.segments.spec_scramble(),
                            forall|q: int| 0 <= q < new_segments@.len() ==> segment_follows(#[trigger] new_segments@[q], segs, scr),
                            forall|q: int| 0 <= q < new_segments@.len() ==> found_from(#[trigger] new_segments@[q], segs, ids@, block_target as int, max_depth as int),
                            max_depth == self.params.max_depth,
                            self.params == old(self).params,
                            targets == self.params.solution_count_targets,
                            new_segments@.len() == n0 + taken,
                            depth == 0 ==> n0 == 0 && left == targets[0],
                            t0 <= taken,
                            results@.len() + (taken - t0) == rl0,
                            desired == desired_at(self.params, depth as int),
                            left == (if n0 < desired { desired - n0 } else { 0 }),
                            forall|q: int| 0 <= q < results@.len() ==> (#[trigger] results@[q]).previous_segment == id,
                            forall|j: int, dd: int, ts: Seq<Twist>|
                                0 <= j < ids@.len() && dd < depth && #[trigger] search_finds(self.params, segs, ids@, block_target as int, j, dd, ts)
                                    ==> found_at(new_segments@, ids@[j], ts) || full_by(self.params, new_segments@.len() as int, dd),
                            forall|j: int, ts: Seq<Twist>|
                                0 <= j < k && #[trigger] search_finds(self.params, segs, ids@, block_target as int, j, depth as int, ts)
                                    ==> found_at(new_segments@, ids@[j], ts) || new_segments@.len() >= desired_at(self.params, depth as int),
                            forall|ts: Seq<Twist>|
                                #[trigger] surely_found_by(self.params.heuristic, start, ts, block_target as int, depth as nat) ==> found_at(
                                    new_segments@,
                                    id,
                                    ts,
                                ) || twists_found(results@, 0, ts) || taken == left,
                        decreases results@.len(),
                    {
                        let ghost old_results_before_remove = results@;
                        let s = results.remove(0);
                        proof {
                            assert(extends_to_solution(s, start, block_target as int, depth as int));
                            lemma_dfs_follows(self.segments, id.0 as int, start, s, block_target as int, depth as int);
                            assert(ids@[k as int] == id);
                            assert(extends_to_solution(s, start, block_target as int, max_depth as int));
                            assert(found_from(s, segs, ids@, block_target as int, max_depth as int));
                        }
                        let ghost nb = new_segments@;
                        let ghost rb = results@;
                        new_segments.push(s);
                        taken = taken + 1;
                        proof {
                            lemma_results_step(id, s, nb, new_segments@, old_results_before_remove, results@);
                            assert(old_results_before_remove[0] == s);
                        }
                    }
                    proof {
                        if depth == 0 && targets[0] >= 1 && block_target <= u32::MAX && ready_at(segs, ids@, block_target as int, k as int) {
                            assert(rl0 == 1);
                            assert(taken > 0);
                        }
                        assert forall|ts: Seq<Twist>|
                            #[trigger] search_finds(self.params, segs, ids@, block_target as int, k as int, depth as int, ts) implies found_at(
                            new_segments@,
                            ids@[k as int],
                            ts,
                        ) || new_segments@.len() >= desired_at(self.params, depth as int) by {
                            assert(ids@[k as int] == id);
                            let pv = segs[ids@[k as int].0 as int];
                            assert(start.state == pv.state && start.segment_twists@.len() == 0 && start.meta == pv.meta
                                && start.previous_segment == ids@[k as int]);
                            let bt = block_target as int;
                            let dp = depth as int;
                            assert(surely_found_by(self.params.heuristic, start, ts, bt, dp as nat));
                            assert(surely_found_by(self.params.heuristic, start, ts, block_target as int, depth as nat));
                        }
                    }
                } else {
                    proof {
                        if depth == 0 && targets[0] >= 1 && block_target <= u32::MAX && ready_at(segs, ids@, block_target as int, k as int) {
                            assert(ids@[k as int] == id);
                            assert(*prev == segs[id.0 as int]);
                            assert(start.state == segs[id.0 as int].state);
                            assert(start.state.spec_twist_count() < 65535);
                            assert(pow2(0) == 1) by {
                                vstd::arithmetic::power2::lemma2_to64();
                            }
                            assert(0 < usize::BITS);
                            assert(pow2(0) * block_target == block_target) by (nonlinear_arith)
                                requires
                                    pow2(0) == 1,
                            ;
                            assert(start.state.spec_twist_count() + 0 < 65535);
                            assert(search_allowed(self.params, block_target as int, 0, start.state.spec_twist_count() as int));
                            assert(false);
                        }
                    }
                }
                proof {
                    if depth == 0 && targets[0] >= 1 && block_target <= u32::MAX && (exists|j: int|
                        0 <= j < k + 1 && #[trigger] ready_at(segs, ids@, block_target as int, j)) {
                        let j = choose|j: int| 0 <= j < k + 1 && #[trigger] ready_at(segs, ids@, block_target as int, j);
                    }
                    if targets_positive(self.params) && (exists|j: int|
                        0 <= j < k + 1 && #[trigger] surely_found_at(self.params, segs, ids@, block_target as int, j, depth as int)) {
                        let j = choose|j: int|
                            0 <= j < k + 1 && #[trigger] surely_found_at(self.params, segs, ids@, block_target as int, j, depth as int);
                        if j == k {
                            assert(search_allowed(self.params, block_target as int, depth as int, start.state.spec_twist_count() as int));
                        }
                    }
                }
                k = k + 1;
            }
            proof {
                if depth == 0 && targets[0] >= 1 && block_target <= u32::MAX && has_ready(segs, ids@, block_target as int) {
                    let j = choose|j: int| 0 <= j < ids@.len() && #[trigger] ready_at(segs, ids@, block_target as int, j);
                    if k < ids@.len() {
                        assert(taken == left);
                    }
                }
            }
            proof {
                if targets_positive(self.params) && (exists|j: int|
                    0 <= j < ids@.len() && #[trigger] surely_found_at(self.params, segs, ids@, block_target as int, j, depth as int)) {
                    let j = choose|j: int|
                        0 <= j < ids@.len() && #[trigger] surely_found_at(self.params, segs, ids@, block_target as int, j, depth as int);
                    if k < ids@.len() {
                        assert(taken == left);
                    }
                }
                if targets_positive(self.params) && surely_found_below(self.params, segs, ids@, block_target as int, depth + 1) {
                    let (j, dd) = choose|j: int, dd: int|
                        0 <= j < ids@.len() && 0 <= dd < depth + 1 && #[trigger] surely_found_at(
                            self.params,
                            segs,
                            ids@,
                            block_target as int,
                            j,
                            dd,
                        );
                    if dd < depth {
                        assert(surely_found_below(self.params, segs, ids@, block_target as int, depth as int));
                    }
                }
                if targets_positive(self.params) {
                    let di = if depth < 4 { depth as int } else { 4int };
                    assert(targets[di] >= 1);
                }
                if targets_positive(self.params) && surely_found_below(self.params, segs, ids@, block_target as int, max_depth + 1) {
                    let (j, dd) = choose|j: int, dd: int|
                        0 <= j < ids@.len() && 0 <= dd < max_depth + 1 && #[trigger] surely_found_at(
                            self.params,
                            segs,
                            ids@,
                            block_target as int,
                            j,
                            dd,
                        );
                    assert(dd <= self.params.max_depth);
                }
            }
            if new_segments.len() >= desired || depth >= max_depth {
                done = true;
            } else {
                depth = depth + 1;
            }
        }
        let ghost raw = new_segments@;
        let new_segments = self.do_step(new_segments);
        proof {
            assert forall|q: int| 0 <= q < new_segments@.len() implies (#[trigger] new_segments@[q]).state.canonical()
                && new_segments@[q].previous_segment.0 < segs.len() && segment_follows(new_segments@[q], segs, scr)
                && found_from(new_segments@[q], segs, ids@, block_target as int, max_depth as int) by {
                assert(is_one_of(new_segments@[q], raw));
                let k = choose|k: int| 0 <= k < raw.len() && segment_eq(new_segments@[q], raw[k]);
                assert(found_from(raw[k], segs, ids@, block_target as int, max_depth as int));
                let p = raw[k].previous_segment;
                let b = choose|b: Segment|
                    {
                        &&& b.state == segs[p.0 as int].state
                        &&& b.segment_twists@.len() == 0
                        &&& b.meta == segs[p.0 as int].meta
                        &&& b.previous_segment == p
                        &&& #[trigger] extends_to_solution(raw[k], b, block_target as int, max_depth as int)
                    };
                assert(extends_to_solution(new_segments@[q], b, block_target as int, max_depth as int));
            }
        }
        let ghost before = self.segments;
        let ghost chosen = new_segments@;
        self.store_step(step, new_segments, Ghost(segs));
        proof {
            if step < usize::MAX {
                let after = self.segments;
                let added = after.spec_segments().subrange(segs.len() as int, after.spec_segments().len() as int);
                if segs.len() + chosen.len() <= u32::MAX {
                    assert(added =~= chosen);
                } else {
                    assert(added =~= Seq::<Segment>::empty());
                }
                assert(before.spec_steps().last() == ids@);
                if targets_positive(self.params) && segs.len() + targets[0] <= u32::MAX && surely_found_below(
                    self.params,
                    segs,
                    ids@,
                    block_target as int,
                    max_depth + 1,
                ) {
                    assert(targets[0] >= 1);
                    assert(raw.len() > 0);
                    assert(is_one_of(raw[0], chosen) || chosen.len() == targets[0]);
                }
                if targets[0] >= 1 && block_target <= u32::MAX && segs.len() + targets[0] <= u32::MAX && has_ready(
                    segs,
                    ids@,
                    block_target as int,
                ) {
                    assert(raw.len() > 0);
                    assert(is_one_of(raw[0], chosen) || chosen.len() == targets[0]);
                }
            }
        }
    }

    /// Runs blockbuilding stage `stage`: adds the stage's blocks to each
    /// segment of the last step, then builds down one block at a time until
    /// `target_block_count` blocks.
    fn do_blockbuilding_stage(&mut self, target_block_count: usize, stage: u8)
        requires
            old(self).wf(),
        ensures
            final(self).wf(),
            final(self).spec_store().spec_steps().len() >= old(self).spec_store().spec_steps().len(),
            final(self).spec_store().spec_scramble() == old(self).spec_store().spec_scramble(),
            final(self).params == old(self).params,
            old(self).spec_store().spec_steps().len() + 28 < usize::MAX ==> {
                let before = old(self).spec_store();
                let after = final(self).spec_store();
                &&& grown(before, after)
                &&& after.spec_steps().len() <= before.spec_steps().len() + 27
                &&& last_step_within(after, target_block_count as int)
                &&& first_step_ok(before, after, stage, old(self).params.solution_count_targets[0] as int)
                &&& last_step_at_stage(after, stage as int)
            },
    {
        let step = self.segments.next_step();
        let new_segments = self.add_pieces(stage);
        let ghost raw = new_segments@;
        let new_segments = self.do_step(new_segments);
        proof {
            assert forall|q: int| 0 <= q < new_segments@.len() implies (#[trigger] new_segments@[q]).state.canonical()
                && new_segments@[q].previous_segment.0 < self.segments.spec_segments().len() && segment_follows(
                new_segments@[q],
                self.segments.spec_segments(),
                self.segments.spec_scramble(),
            ) by {
                assert(is_one_of(new_segments@[q], raw));
                let k = choose|k: int| 0 <= k < raw.len() && segment_eq(new_segments@[q], raw[k]);
                assert(cells_built(raw[k].state@, raw[k].meta));
            }
            assert forall|q: int| 0 <= q < new_segments@.len() implies cells_built(
                (#[trigger] new_segments@[q]).state@,
                new_segments@[q].meta,
            ) by {
                assert(is_one_of(new_segments@[q], raw));
                let k = choose|k: int| 0 <= k < raw.len() && segment_eq(new_segments@[q], raw[k]);
                assert(cells_built(raw[k].state@, raw[k].meta));
            }
            let segs0 = self.segments.spec_segments();
            let ids0 = self.segments.spec_steps().last();
            assert forall|j: int, cc: int|
                0 <= j < ids0.len() && 0 <= cc < continuation_count(segs0, ids0, stage, j) && block_fits(
                    segs0[ids0[j].0 as int],
                    #[trigger] nth_continuation(segs0, ids0, stage, j, cc),
                ) implies in_results(raw, segs0[ids0[j].0 as int], nth_continuation(segs0, ids0, stage, j, cc)) by {
                assert(block_fits(self.spec_store().spec_segments()[ids0[j].0 as int], nth_continuation(self.spec_store().spec_segments(), self.spec_store().spec_steps().last(), stage, j, cc)));
            }
            lemma_stage_step_chosen(
                raw,
                new_segments@,
                self.segments.spec_segments(),
                self.segments.spec_steps().last(),
                stage,
                self.params.solution_count_targets[0] as int,
            );
        }
        let mut init_blocks: usize = 0;
        let mut k: usize = 0;
        while k < new_segments.len()
            invariant
                k <= new_segments@.len(),
                init_blocks <= 26,
                forall|q: int| 0 <= q < new_segments@.len() ==> (#[trigger] new_segments@[q]).state.canonical(),
                forall|q: int| 0 <= q < k ==> (#[trigger] new_segments@[q]).state@.len() <= init_blocks,
            decreases new_segments@.len() - k,
        {
            let n = new_segments[k].state.len() as usize;
            if n > init_blocks {
                init_blocks = n;
            }
            k = k + 1;
        }
        let ghost segs = self.segments.spec_segments();
        let ghost chosen = new_segments@;
        let ghost start_store = self.segments;
        self.store_step(step, new_segments, Ghost(segs));
        proof {
            if step < usize::MAX {
                let added = if segs.len() + chosen.len() <= u32::MAX {
                    chosen
                } else {
                    Seq::empty()
                };
                lemma_grown(start_store, start_store, self.segments, added);
                lemma_first_step_stored(start_store, self.segments, chosen, stage, self.params.solution_count_targets[0] as int);
                let last = self.segments.spec_steps().last();
                assert forall|j: int| 0 <= j < last.len() implies self.segments.spec_segments()[(#[trigger] last[j]).0 as int].state@.len()
                    <= init_blocks by {
                    assert(self.segments.spec_segments()[segs.len() + j] == added[j]);
                }
                assert forall|j: int| 0 <= j < last.len() implies self.segments.spec_segments()[(#[trigger] last[j]).0 as int].meta.stage
                    == stage by {
                    assert(self.segments.spec_segments()[segs.len() + j] == added[j]);
                }
            }
        }
        let mut target = init_blocks;
        while target > target_block_count
            invariant
                self.wf(),
                self.segments.spec_steps().len() >= old(self).spec_store().spec_steps().len(),
                self.segments.spec_scramble() == old(self).spec_store().spec_scramble(),
                self.params == old(self).params,
                target <= init_blocks <= 26,
                step == old(self).spec_store().spec_steps().len(),
                start_store == old(self).spec_store(),
                step + 28 < usize::MAX ==> {
                    &&& grown(start_store, self.segments)
                    &&& first_step_ok(start_store, self.segments, stage, self.params.solution_count_targets[0] as int)
                    &&& self.segments.spec_steps().len() <= step + 1 + init_blocks - target
                    &&& last_step_within(self.segments, target as int)
                    &&& last_step_at_stage(self.segments, stage as int)
                },
            decreases target,
        {
            target = target - 1;
            let ghost before = self.segments;
            self.do_blockbuilding_step(target);
            proof {
                if step + 28 < usize::MAX {
                    let after = self.segments;
                    let added = after.spec_segments().subrange(before.spec_segments().len() as int, after.spec_segments().len() as int);
                    lemma_grown(start_store, before, after, added);
                    lemma_first_step_kept(start_store, before, after, stage, self.params.solution_count_targets[0] as int);
                    let last = after.spec_steps().last();
                    assert forall|j: int| 0 <= j < last.len() implies after.spec_segments()[(#[trigger] last[j]).0 as int].state@.len()
                        <= target by {
                        let s = added[j];
                        assert(after.spec_segments()[before.spec_segments().len() + j] == s);
                        assert(found_from(s, before.spec_segments(), before.spec_steps().last(), target as int, self.params.max_depth as int));
                    }
                    assert forall|j: int| 0 <= j < last.len() implies after.spec_segments()[(#[trigger] last[j]).0 as int].meta.stage
                        == stage by {
                        let s = added[j];
                        assert(after.spec_segments()[before.spec_segments().len() + j] == s);
                        let bl = before.spec_steps().last();
                        assert(found_from(s, before.spec_segments(), bl, target as int, self.params.max_depth as int));
                        let p = s.previous_segment;
                        let jj = choose|jj: int| 0 <= jj < bl.len() && bl[jj] == p;
                        assert(before.spec_segments()[(bl[jj]).0 as int].meta.stage == stage);
                    }
                }
            }
        }
    }

    /// Runs all six stages and returns the twists of the best solution, or
    /// `None` if there is none. The best solution's blocks hold each of their
    /// pieces where the scramble and the solution put it, and every solution
    /// of the last step is a single block at stage 6 that covers exactly the
    /// cells of the mid, left and right blocks of its metadata: the first two
    /// layers.
    pub fn solve(&mut self) -> (r: Option<Vec<Twist>>)
        requires
            old(self).wf(),
        ensures
            final(self).wf(),
            final(self).spec_store().spec_scramble() == old(self).spec_store().spec_scramble(),
            r is None <==> final(self).spec_store().spec_steps().last().len() == 0,
            old(self).spec_store().spec_steps().len() + 200 < usize::MAX ==> last_step_within(final(self).spec_store(), 1)
                && last_step_at_stage(final(self).spec_store(), 6),
            forall|i: int|
                0 <= i < final(self).spec_store().spec_segments().len() ==> cells_built(
                    (#[trigger] final(self).spec_store().spec_segments()[i]).state@,
                    final(self).spec_store().spec_segments()[i].meta,
                ),
            r matches Some(tw) ==> {
                let store = final(self).spec_store();
                let last = store.spec_steps().last();
                &&& last.len() > 0
                &&& tw@ == chain_twists(store.spec_segments(), last[0].0 as int)
                &&& twists_valid(tw@)
                &&& twists_valid(store.spec_scramble()) ==> pieces_after(
                    store.spec_segments()[last[0].0 as int].state@,
                    store.spec_scramble() + tw@,
                )
            },
    {
        let targets = self.params.targets;
        self.do_blockbuilding_stage(targets.select(1, 5), 1);
        self.do_blockbuilding_stage(targets.select(1, 5), 2);
        self.do_blockbuilding_stage(targets.select(2, 6), 3);
        self.do_blockbuilding_stage(targets.select(2, 6), 4);
        self.do_blockbuilding_stage(targets.select(2, 5), 5);
        self.do_blockbuilding_stage(targets.select(1, 1), 6);
        match self.segments.best_solutions_so_far() {
            None => None,
            Some(ids) => {
                if ids.len() == 0 {
                    None
                } else {
                    let best = ids[0];
                    proof {
                        let n = self.segments.spec_steps().len();
                        assert(self.segments.spec_steps()[n - 1][0] == best);
                        lemma_chain_follows(self.segments, best.0 as int);
                    }
                    Some(self.segments.solution_twists_for_segment(best))
                }
            },
        }
    }
}

/// Copies a slice of segment IDs.
fn copy_ids(ids: &[SegmentId]) -> (r: Vec<SegmentId>)
    ensures
        r@ == ids@,
{
    let mut r: Vec<SegmentId> = Vec::new();
    let mut k: usize = 0;
    while k < ids.len()
        invariant
            k <= ids@.len(),
            r@ == ids@.subrange(0, k as int),
        decreases ids@.len() - k,
    {
        r.push(ids[k]);
        k = k + 1;
        assert(r@ =~= ids@.subrange(0, k as int));
    }
    r
}

/// Returns whether a depth-first search to `depth` for `block_target` blocks
/// stays within the limits of the numbers involved, from a state with
/// `twist_count` twists.
fn can_search(params: BlockBuildingSearchParams, block_target: usize, depth: usize, twist_count: u16) -> (r: bool)
    ensures
        r == search_allowed(params, block_target as int, depth as int, twist_count as int),
        r ==> 104 * depth <= usize::MAX,
{
    if depth >= usize::BITS as usize || block_target > 0xffff_ffff || twist_count as usize + depth >= 65535 {
        return false;
    }
    proof {
        vstd::bits::lemma_usize_pow2_no_overflow(depth as nat);
        vstd::bits::lemma_usize_shl_is_mul(1, depth);
    }
    let p = 1usize << depth;
    match p.checked_mul(block_target) {
        Some(_) => true,
        None => params.heuristic == Heuristic::Fast,
    }
}

/// Returns the number of axes with both grips in `gs`.
fn full_axes(gs: GripSet) -> (r: u8)
    ensures
        r == full_axis_count(gs),
{
    let mut r: u8 = 0;
    let mut a: u8 = 0;
    while a < 4
        invariant
            a <= 4,
            r == (if a > 0 && full_axis(gs, 0) { 1int } else { 0 }) + (if a > 1 && full_axis(gs, 1) { 1int } else { 0 })
                + (if a > 2 && full_axis(gs, 2) { 1int } else { 0 }) + (if a > 3 && full_axis(gs, 3) { 1int } else { 0 }),
        decreases 4 - a,
    {
        if gs.contains(Grip::new(2 * a)) && gs.contains(Grip::new(2 * a + 1)) {
            r = r + 1;
        }
        a = a + 1;
    }
    r
}

} // verus!
