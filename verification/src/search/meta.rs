//! Metadata of partial solutions: which blocks to build next.
use vstd::prelude::*;

use std::ops::Not;

use crate::sim::blockbuilding::block::{expanded, lay, lemma_expanded_mono, lemma_sub_mask};
use crate::sim::blockbuilding::block_list::{cell_layer, covers, holds_cell, valid_cell};
use crate::sim::blockbuilding::Block;
use crate::sim::common::grip::opposite_id;
use crate::sim::common::{axes, Axis, Elem, Grip, GripSet, Piece};

verus! {

broadcast use {Elem::lemma_with_id, Grip::lemma_with_id};

/// A block to add next, with the metadata that goes with it.
pub type Continuation = (Block, SolutionMetadata);

/// Metadata about a particular solution.
///
/// This mainly includes info about what order we are using to solve grips,
/// which helps when figuring out the next blocks to solve.
#[derive(Debug, Copy, Clone, PartialEq, Eq, Hash, Structural)]
pub struct SolutionMetadata {
    /// Stage of the solution.
    pub stage: u8,
    /// Grips blocked on the mid+left block.
    pub left_blocked_grips: GripSet,
    /// Right block active grip; meaningful from stage 4 on.
    pub right_grip: Grip,
    /// Grips blocked on the right block.
    pub right_blocked_grips: GripSet,
    /// Last layer grip; meaningful from stage 4 on.
    pub last_layer: Grip,
}

/// The solved center piece on grip `g`.
pub open spec fn solved_center(g: Grip) -> Piece {
    Piece { grips: GripSet::of_bits(1u8 << g.spec_id()), attitude: Elem::with_id(0) }
}

/// The set holding exactly the grip `g`.
pub open spec fn single(g: int) -> GripSet {
    GripSet::of_bits(1u8 << (g as u8))
}

/// Whether `gs` holds exactly one grip of each axis, as given by the bits of
/// `i`: bit 3 for X, 2 for Y, 1 for Z and 0 for W (set for the negative grip).
pub open spec fn stage1_set(gs: GripSet, i: int) -> bool {
    forall|h: int|
        #[trigger] gs.has(h) <==> (h == (i / 8) % 2 || h == 2 + (i / 4) % 2 || h == 4 + (i / 2) % 2 || h
            == 6 + i % 2)
}

/// The set of grips of stage 1 number `i`.
pub open spec fn stage1_grips(i: int) -> GripSet {
    choose|gs: GripSet| stage1_set(gs, i)
}

/// Whether both grips of axis `a` are in `gs`.
pub open spec fn full_axis(gs: GripSet, a: int) -> bool {
    gs.has(2 * a) && gs.has(2 * a + 1)
}

/// Number of axes with both grips in `gs`.
pub open spec fn full_axis_count(gs: GripSet) -> int {
    (if full_axis(gs, 0) { 1int } else { 0 }) + (if full_axis(gs, 1) { 1int } else { 0 }) + (if full_axis(gs, 2) {
        1int
    } else {
        0
    }) + (if full_axis(gs, 3) { 1int } else { 0 })
}

/// The `k`-th axis (0 or 1) with both grips in `gs`, when there are two.
pub open spec fn nth_full_axis(gs: GripSet, k: int) -> int {
    let first = if full_axis(gs, 0) { 0int } else if full_axis(gs, 1) { 1 } else if full_axis(gs, 2) { 2 } else { 3 };
    let second = if full_axis(gs, 3) { 3int } else if full_axis(gs, 2) { 2 } else if full_axis(gs, 1) { 1 } else { 0 };
    if k == 0 { first } else { second }
}

/// Whether `gs` holds exactly the grips `g1`, `g2` and `g3`.
pub open spec fn is_triple(gs: GripSet, g1: int, g2: int, g3: int) -> bool {
    forall|h: int| #[trigger] gs.has(h) <==> (h == g1 || h == g2 || h == g3)
}

/// The set holding exactly the grips `g1`, `g2` and `g3`.
pub open spec fn triple(g1: int, g2: int, g3: int) -> GripSet {
    choose|gs: GripSet| is_triple(gs, g1, g2, g3)
}

impl SolutionMetadata {
    /// The metadata at the next stage.
    pub open spec fn spec_next_stage(self) -> SolutionMetadata {
        SolutionMetadata {
            stage: (self.stage + 1) as u8,
            left_blocked_grips: self.left_blocked_grips,
            right_grip: self.right_grip,
            right_blocked_grips: self.right_blocked_grips,
            last_layer: self.last_layer,
        }
    }

    /// The core expanded by the left blocked grips and `grips`, with the
    /// metadata that has `grips` added to the left blocked grips.
    pub open spec fn left_continuation(self, grips: GripSet) -> Continuation {
        let m = SolutionMetadata {
            stage: self.stage,
            left_blocked_grips: self.left_blocked_grips.union(grips),
            right_grip: self.right_grip,
            right_blocked_grips: self.right_blocked_grips,
            last_layer: self.last_layer,
        };
        (Block::with(expanded(0x0F0u16, m.left_blocked_grips, 8), Elem::with_id(0)), m)
    }

    /// The right center expanded by the right blocked grips and `grips`, with
    /// the metadata that has `grips` added to the right blocked grips.
    pub open spec fn right_continuation(self, grips: GripSet) -> Continuation {
        let m = SolutionMetadata {
            stage: self.stage,
            left_blocked_grips: self.left_blocked_grips,
            right_grip: self.right_grip,
            right_blocked_grips: self.right_blocked_grips.union(grips),
            last_layer: self.last_layer,
        };
        (
            Block::with(
                expanded(Block::of_piece(solved_center(self.right_grip)).spec_layers(), m.right_blocked_grips, 8),
                Elem::with_id(0),
            ),
            m,
        )
    }

    /// Metadata of an empty solution.
    pub fn new() -> (m: SolutionMetadata)
        ensures
            m.stage == 0,
            m.left_blocked_grips.spec_bits() == 0,
            m.right_blocked_grips.spec_bits() == 0,
            m.right_grip.spec_id() == 0,
            m.last_layer.spec_id() == 0,
    {
        SolutionMetadata {
            stage: 0,
            left_blocked_grips: GripSet::empty(),
            right_grip: Grip::new(0),
            right_blocked_grips: GripSet::empty(),
            last_layer: Grip::new(0),
        }
    }

    fn next_stage(self) -> (r: SolutionMetadata)
        requires
            self.stage < 255,
        ensures
            r == self.spec_next_stage(),
    {
        SolutionMetadata { stage: self.stage + 1, ..self }
    }

    /// Returns the last layer grip. The stage must be 4 or more.
    pub fn last_layer(self) -> (g: Grip)
        requires
            self.stage >= 4,
        ensures
            g == self.last_layer,
    {
        self.last_layer
    }

    fn with_left_blocked_grips(self, grips: GripSet) -> (r: Continuation)
        ensures
            r == self.left_continuation(grips),
    {
        let mut m = self;
        m.left_blocked_grips = m.left_blocked_grips | grips;
        let core = Block::core_block();
        proof {
            Block::lemma_with(0x0F0, Elem::with_id(0));
        }
        (core.expand(m.left_blocked_grips), m)
    }

    fn with_right_grip(self, g: Grip) -> (r: SolutionMetadata)
        ensures
            r == (SolutionMetadata { right_grip: g, ..self }),
    {
        SolutionMetadata { right_grip: g, ..self }
    }

    fn with_last_layer(self, g: Grip) -> (r: SolutionMetadata)
        ensures
            r == (SolutionMetadata { last_layer: g, ..self }),
    {
        SolutionMetadata { last_layer: g, ..self }
    }

    fn with_right_blocked_grips(self, grips: GripSet) -> (r: Continuation)
        ensures
            r == self.right_continuation(grips),
    {
        let mut m = self;
        m.right_blocked_grips = m.right_blocked_grips | grips;
        let one = [self.right_grip];
        let right_center = Piece::new_solved(&one);
        let single = GripSet::from_grip(self.right_grip);
        proof {
            GripSet::lemma_of_bits(1u8 << self.right_grip.spec_id());
            assert forall|h: int| 0 <= h < 8 implies right_center.grips.has(h) == GripSet::of_bits(
                1u8 << self.right_grip.spec_id(),
            ).has(h) by {
                assert(single.has(h) == (h == self.right_grip.spec_id()));
                if right_center.grips.has(h) {
                    let i = choose|i: int| 0 <= i < 1 && one@[i].spec_id() == h;
                }
                if h == self.right_grip.spec_id() {
                    assert(one@[0].spec_id() == h);
                }
            }
            GripSet::lemma_ext(right_center.grips, GripSet::of_bits(1u8 << self.right_grip.spec_id()));
            Elem::lemma_id_eq(right_center.attitude, Elem::with_id(0));
            assert(right_center == solved_center(self.right_grip));
        }
        let center_block = Block::from(right_center);
        (center_block.expand(m.right_blocked_grips), m)
    }

    fn next_stage_expand_left_block(self) -> (r: Vec<Continuation>)
        requires
            self.stage < 255,
        ensures
            r@.len() == self.left_blocked_grips.complement().members().len(),
            forall|i: int|
                0 <= i < r.len() ==> #[trigger] r@[i] == self.spec_next_stage().left_continuation(
                    single(self.left_blocked_grips.complement().members()[i]),
                ),
    {
        let free = self.left_blocked_grips.not();
        let grips = free.iter();
        let mut r: Vec<Continuation> = Vec::new();
        let mut k: usize = 0;
        while k < grips.len()
            invariant
                self.stage < 255,
                free == self.left_blocked_grips.complement(),
                grips@.len() == free.members().len(),
                forall|i: int| 0 <= i < grips.len() ==> (#[trigger] grips[i]).spec_id() == free.members()[i],
                k <= grips.len(),
                r@.len() == k,
                forall|i: int|
                    0 <= i < k ==> #[trigger] r@[i] == self.spec_next_stage().left_continuation(single(free.members()[i])),
            decreases grips.len() - k,
        {
            let single = GripSet::from_grip(grips[k]);
            let c = self.next_stage().with_left_blocked_grips(single);
            r.push(c);
            proof {
                GripSet::lemma_of_bits(1u8 << grips[k as int].spec_id());
                GripSet::lemma_bits_eq(single, GripSet::of_bits(1u8 << grips[k as int].spec_id()));
                assert(r@[k as int] == self.spec_next_stage().left_continuation(single));
            }
            k = k + 1;
        }
        r
    }

    fn next_stage_expand_right_block(self) -> (r: Vec<Continuation>)
        requires
            self.stage < 255,
        ensures
            ({
                let free = self.right_blocked_grips.spec_opposites().intersect(self.right_blocked_grips.complement()).intersect(
                    GripSet::of_bits(1u8 << self.last_layer.spec_id()).complement(),
                );
                &&& r@.len() == free.members().len()
                &&& forall|i: int|
                    0 <= i < r.len() ==> #[trigger] r@[i] == self.spec_next_stage().right_continuation(single(free.members()[i]))
            }),
    {
        let last = GripSet::from_grip(self.last_layer);
        proof {
            GripSet::lemma_of_bits(1u8 << self.last_layer.spec_id());
            GripSet::lemma_bits_eq(last, GripSet::of_bits(1u8 << self.last_layer.spec_id()));
        }
        let free = self.right_blocked_grips.opposites() & self.right_blocked_grips.not() & last.not();
        let grips = free.iter();
        let mut r: Vec<Continuation> = Vec::new();
        let mut k: usize = 0;
        while k < grips.len()
            invariant
                self.stage < 255,
                grips@.len() == free.members().len(),
                forall|i: int| 0 <= i < grips.len() ==> (#[trigger] grips[i]).spec_id() == free.members()[i],
                k <= grips.len(),
                r@.len() == k,
                forall|i: int|
                    0 <= i < k ==> #[trigger] r@[i] == self.spec_next_stage().right_continuation(single(free.members()[i])),
            decreases grips.len() - k,
        {
            let single = GripSet::from_grip(grips[k]);
            let c = self.next_stage().with_right_blocked_grips(single);
            r.push(c);
            proof {
                GripSet::lemma_of_bits(1u8 << grips[k as int].spec_id());
                GripSet::lemma_bits_eq(single, GripSet::of_bits(1u8 << grips[k as int].spec_id()));
                assert(r@[k as int] == self.spec_next_stage().right_continuation(single));
            }
            k = k + 1;
        }
        r
    }

    /// Continuations of stage 1: the core with one grip of each axis blocked,
    /// for each of the 16 choices.
    pub fn stage1(self) -> (r: Vec<Continuation>)
        requires
            self.stage == 0,
        ensures
            r@.len() == 16,
            forall|i: int|
                0 <= i < 16 ==> #[trigger] r@[i] == self.spec_next_stage().left_continuation(stage1_grips(i)),
    {
        let x = axes::X().grips();
        let y = axes::Y().grips();
        let z = axes::Z().grips();
        let w = axes::W().grips();
        let mut r: Vec<Continuation> = Vec::new();
        let mut i: usize = 0;
        while i < 16
            invariant
                self.stage == 0,
                x[0].spec_id() == 0 && x[1].spec_id() == 1,
                y[0].spec_id() == 2 && y[1].spec_id() == 3,
                z[0].spec_id() == 4 && z[1].spec_id() == 5,
                w[0].spec_id() == 6 && w[1].spec_id() == 7,
                i <= 16,
                r@.len() == i,
                forall|j: int|
                    0 <= j < i ==> #[trigger] r@[j] == self.spec_next_stage().left_continuation(stage1_grips(j)),
            decreases 16 - i,
        {
            let arr = [x[(i / 8) % 2], y[(i / 4) % 2], z[(i / 2) % 2], w[i % 2]];
            let blocked = GripSet::from_grips(&arr);
            proof {
                assert forall|h: int| #[trigger] blocked.has(h) <==> (h == (i / 8) % 2 || h == 2 + (i / 4) % 2 || h
                    == 4 + (i / 2) % 2 || h == 6 + i % 2) by {
                    if blocked.has(h) {
                        let k = choose|k: int| 0 <= k < 4 && arr@[k].spec_id() == h;
                    }
                    if h == (i / 8) % 2 {
                        assert(arr@[0].spec_id() == h);
                    }
                    if h == 2 + (i / 4) % 2 {
                        assert(arr@[1].spec_id() == h);
                    }
                    if h == 4 + (i / 2) % 2 {
                        assert(arr@[2].spec_id() == h);
                    }
                    if h == 6 + i % 2 {
                        assert(arr@[3].spec_id() == h);
                    }
                }
                assert(stage1_set(blocked, i as int));
                let c = stage1_grips(i as int);
                assert(stage1_set(c, i as int));
                GripSet::lemma_ext(blocked, c);
            }
            let c = self.next_stage().with_left_blocked_grips(blocked);
            r.push(c);
            proof {
                assert(r@[i as int] == self.spec_next_stage().left_continuation(stage1_grips(i as int)));
            }
            i = i + 1;
        }
        r
    }

    /// Continuations of stage 2: the left block expanded by one more grip.
    pub fn stage2(self) -> (r: Vec<Continuation>)
        requires
            self.stage == 1,
        ensures
            r@.len() == self.left_blocked_grips.complement().members().len(),
            forall|i: int|
                0 <= i < r.len() ==> #[trigger] r@[i] == self.spec_next_stage().left_continuation(
                    single(self.left_blocked_grips.complement().members()[i]),
                ),
    {
        self.next_stage_expand_left_block()
    }

    /// Continuations of stage 3: the left block expanded by one more grip.
    pub fn stage3(self) -> (r: Vec<Continuation>)
        requires
            self.stage == 2,
        ensures
            r@.len() == self.left_blocked_grips.complement().members().len(),
            forall|i: int|
                0 <= i < r.len() ==> #[trigger] r@[i] == self.spec_next_stage().left_continuation(
                    single(self.left_blocked_grips.complement().members()[i]),
                ),
    {
        self.next_stage_expand_left_block()
    }

    /// Continuations of stage 4: the right center on one of the two grips not
    /// yet blocked on the left, with the other as the last layer, blocked
    /// opposite the last layer and on one grip of each of the two axes fully
    /// blocked on the left; 8 choices in all.
    pub fn stage4(self) -> (r: Vec<Continuation>)
        requires
            self.stage == 3,
            self.left_blocked_grips.complement().count() == 2,
            full_axis_count(self.left_blocked_grips) == 2,
        ensures
            r@.len() == 8,
            forall|i: int|
                0 <= i < 8 ==> {
                    let free = self.left_blocked_grips.complement().members();
                    let p1 = if i / 4 == 0 { free[0] } else { free[1] };
                    let p2 = if i / 4 == 0 { free[1] } else { free[0] };
                    let m = SolutionMetadata {
                        right_grip: Grip::with_id(p1 as u8),
                        last_layer: Grip::with_id(p2 as u8),
                        ..self.spec_next_stage()
                    };
                    #[trigger] r@[i] == m.right_continuation(
                        triple(
                            opposite_id(p2 as u8) as int,
                            2 * nth_full_axis(self.left_blocked_grips, 0) + (i / 2) % 2,
                            2 * nth_full_axis(self.left_blocked_grips, 1) + i % 2,
                        ),
                    )
                },
    {
        let free = self.left_blocked_grips.not();
        let gs = free.unwrap_two();
        let all_axes = Axis::all();
        let mut full: Vec<Axis> = Vec::new();
        let mut a: usize = 0;
        while a < 4
            invariant
                a <= 4,
                forall|g: int| 0 <= g < 8 ==> #[trigger] free.has(g) == !self.left_blocked_grips.has(g),
                forall|i: int| 0 <= i < 4 ==> (#[trigger] all_axes[i]).spec_id() == i,
                full@.len() == (if a > 0 && full_axis(self.left_blocked_grips, 0) { 1int } else { 0 }) + (if a > 1
                    && full_axis(self.left_blocked_grips, 1) { 1int } else { 0 }) + (if a > 2 && full_axis(
                    self.left_blocked_grips,
                    2,
                ) { 1int } else { 0 }) + (if a > 3 && full_axis(self.left_blocked_grips, 3) { 1int } else { 0 }),
                forall|k: int, j: int| 0 <= k < j < full@.len() ==> full@[k].spec_id() < full@[j].spec_id(),
                forall|k: int| 0 <= k < full@.len() ==> full_axis(self.left_blocked_grips, (#[trigger] full@[k]).spec_id() as int)
                    && full@[k].spec_id() < a,
                forall|b: int| 0 <= b < a && full_axis(self.left_blocked_grips, b) ==> exists|k: int|
                    0 <= k < full@.len() && (#[trigger] full@[k]).spec_id() == b,
            decreases 4 - a,
        {
            let axis = all_axes[a];
            let rest = GripSet::from_axis(axis) & free;
            let ghost old_full = full@;
            if rest.is_empty() {
                proof {
                    assert(!rest.has(2 * a as int) && !rest.has(2 * a + 1));
                    assert(full_axis(self.left_blocked_grips, a as int));
                }
                full.push(axis);
                proof {
                    assert forall|b: int| 0 <= b < a + 1 && full_axis(self.left_blocked_grips, b) implies exists|k: int|
                        0 <= k < full@.len() && (#[trigger] full@[k]).spec_id() == b by {
                        if b == a {
                            assert(full@[full@.len() - 1].spec_id() == b);
                        } else {
                            let k = choose|k: int| 0 <= k < old_full.len() && (#[trigger] old_full[k]).spec_id() == b;
                            assert(full@[k] == old_full[k]);
                        }
                    }
                }
            } else {
                proof {
                    let h = choose|h: int| rest.has(h);
                    assert(!full_axis(self.left_blocked_grips, a as int));
                }
            }
            a = a + 1;
        }
        let ax1 = full[0].grips();
        let ax2 = full[1].grips();
        proof {
            assert(full@[0].spec_id() == nth_full_axis(self.left_blocked_grips, 0)) by {
                let z = full@[0].spec_id() as int;
                assert forall|b: int| 0 <= b < z implies !full_axis(self.left_blocked_grips, b) by {
                    if full_axis(self.left_blocked_grips, b) {
                        let k = choose|k: int| 0 <= k < full@.len() && (#[trigger] full@[k]).spec_id() == b;
                    }
                }
            }
            assert(full@[1].spec_id() == nth_full_axis(self.left_blocked_grips, 1)) by {
                let z = full@[1].spec_id() as int;
                assert forall|b: int| z < b < 4 implies !full_axis(self.left_blocked_grips, b) by {
                    if full_axis(self.left_blocked_grips, b) {
                        let k = choose|k: int| 0 <= k < full@.len() && (#[trigger] full@[k]).spec_id() == b;
                        assert(full@[0].spec_id() < full@[1].spec_id());
                    }
                }
            }
        }
        let mut r: Vec<Continuation> = Vec::new();
        let mut i: usize = 0;
        while i < 8
            invariant
                self.stage == 3,
                free == self.left_blocked_grips.complement(),
                gs[0].spec_id() == free.members()[0],
                gs[1].spec_id() == free.members()[1],
                ax1[0].spec_id() == 2 * nth_full_axis(self.left_blocked_grips, 0),
                ax1[1].spec_id() == 2 * nth_full_axis(self.left_blocked_grips, 0) + 1,
                ax2[0].spec_id() == 2 * nth_full_axis(self.left_blocked_grips, 1),
                ax2[1].spec_id() == 2 * nth_full_axis(self.left_blocked_grips, 1) + 1,
                i <= 8,
                r@.len() == i,
                forall|j: int|
                    0 <= j < i ==> {
                        let free = self.left_blocked_grips.complement().members();
                        let p1 = if j / 4 == 0 { free[0] } else { free[1] };
                        let p2 = if j / 4 == 0 { free[1] } else { free[0] };
                        let m = SolutionMetadata {
                            right_grip: Grip::with_id(p1 as u8),
                            last_layer: Grip::with_id(p2 as u8),
                            ..self.spec_next_stage()
                        };
                        #[trigger] r@[j] == m.right_continuation(
                            triple(
                                opposite_id(p2 as u8) as int,
                                2 * nth_full_axis(self.left_blocked_grips, 0) + (j / 2) % 2,
                                2 * nth_full_axis(self.left_blocked_grips, 1) + j % 2,
                            ),
                        )
                    },
            decreases 8 - i,
        {
            let p1 = if i / 4 == 0 { gs[0] } else { gs[1] };
            let p2 = if i / 4 == 0 { gs[1] } else { gs[0] };
            let arr = [p2.opposite(), ax1[(i / 2) % 2], ax2[i % 2]];
            let blocked = GripSet::from_grips(&arr);
            let m = self.next_stage().with_right_grip(p1).with_last_layer(p2);
            proof {
                let t = triple(opposite_id(p2.spec_id()) as int, arr@[1].spec_id() as int, arr@[2].spec_id() as int);
                assert(is_triple(blocked, opposite_id(p2.spec_id()) as int, arr@[1].spec_id() as int, arr@[2].spec_id() as int)) by {
                    assert forall|h: int| #[trigger] blocked.has(h) <==> (h == opposite_id(p2.spec_id()) || h == arr@[1].spec_id() || h == arr@[2].spec_id()) by {
                        if blocked.has(h) {
                            let k = choose|k: int| 0 <= k < 3 && arr@[k].spec_id() == h;
                        }
                        if h == opposite_id(p2.spec_id()) {
                            assert(arr@[0].spec_id() == h);
                        }
                        if h == arr@[1].spec_id() {
                            assert(arr@[1].spec_id() == h);
                        }
                        if h == arr@[2].spec_id() {
                            assert(arr@[2].spec_id() == h);
                        }
                    }
                }
                assert(is_triple(t, opposite_id(p2.spec_id()) as int, arr@[1].spec_id() as int, arr@[2].spec_id() as int));
                GripSet::lemma_ext(blocked, t);
                Grip::lemma_id_eq(p1, Grip::with_id(p1.spec_id()));
                Grip::lemma_id_eq(p2, Grip::with_id(p2.spec_id()));
            }
            let c = m.with_right_blocked_grips(blocked);
            r.push(c);
            i = i + 1;
        }
        r
    }

    /// Continuations of stage 5: the right block expanded by one grip
    /// opposite to one of its blocked grips, other than the last layer.
    pub fn stage5(self) -> (r: Vec<Continuation>)
        requires
            self.stage == 4,
        ensures
            ({
                let free = self.right_blocked_grips.spec_opposites().intersect(self.right_blocked_grips.complement()).intersect(
                    GripSet::of_bits(1u8 << self.last_layer.spec_id()).complement(),
                );
                &&& r@.len() == free.members().len()
                &&& forall|i: int|
                    0 <= i < r.len() ==> #[trigger] r@[i] == self.spec_next_stage().right_continuation(single(free.members()[i]))
            }),
    {
        self.next_stage_expand_right_block()
    }

    /// Continuations of stage 6: the right block expanded by one grip
    /// opposite to one of its blocked grips, other than the last layer.
    pub fn stage6(self) -> (r: Vec<Continuation>)
        requires
            self.stage == 5,
        ensures
            ({
                let free = self.right_blocked_grips.spec_opposites().intersect(self.right_blocked_grips.complement()).intersect(
                    GripSet::of_bits(1u8 << self.last_layer.spec_id()).complement(),
                );
                &&& r@.len() == free.members().len()
                &&& forall|i: int|
                    0 <= i < r.len() ==> #[trigger] r@[i] == self.spec_next_stage().right_continuation(single(free.members()[i]))
            }),
    {
        self.next_stage_expand_right_block()
    }
}

/// Whether `m` is the metadata of a solution with no block yet: stage 0,
/// nothing blocked, and grip 0 for the right grip and the last layer.
pub open spec fn initial_meta(m: SolutionMetadata) -> bool {
    &&& m.stage == 0
    &&& m.left_blocked_grips.spec_bits() == 0
    &&& m.right_blocked_grips.spec_bits() == 0
    &&& m.right_grip.spec_id() == 0
    &&& m.last_layer.spec_id() == 0
}

impl Default for SolutionMetadata {
    fn default() -> (m: SolutionMetadata)
        ensures
            initial_meta(m),
    {
        SolutionMetadata::new()
    }
}


/// Continuation number `i` of stage 4 from `meta`.
pub open spec fn stage4_continuation(meta: SolutionMetadata, i: int) -> Continuation {
    let free = meta.left_blocked_grips.complement().members();
    let p1 = if i / 4 == 0 { free[0] } else { free[1] };
    let p2 = if i / 4 == 0 { free[1] } else { free[0] };
    let m = SolutionMetadata {
        right_grip: Grip::with_id(p1 as u8),
        last_layer: Grip::with_id(p2 as u8),
        ..meta.spec_next_stage()
    };
    m.right_continuation(
        triple(
            opposite_id(p2 as u8) as int,
            2 * nth_full_axis(meta.left_blocked_grips, 0) + (i / 2) % 2,
            2 * nth_full_axis(meta.left_blocked_grips, 1) + i % 2,
        ),
    )
}

/// Grips free for the right block of stages 5 and 6.
pub open spec fn right_free(meta: SolutionMetadata) -> GripSet {
    meta.right_blocked_grips.spec_opposites().intersect(meta.right_blocked_grips.complement()).intersect(
        GripSet::of_bits(1u8 << meta.last_layer.spec_id()).complement(),
    )
}

/// The continuations of stage `stage` (from 1 to 6) from a solution with
/// metadata `meta`: none unless `meta` is at the stage before, and, for
/// stage 4, unless exactly two grips, on two full axes, are not yet blocked
/// on the left.
pub open spec fn stage_continuations(meta: SolutionMetadata, stage: u8) -> Seq<Continuation> {
    let free = meta.left_blocked_grips.complement().members();
    if stage == 1 && meta.stage == 0 {
        Seq::new(16, |i: int| meta.spec_next_stage().left_continuation(stage1_grips(i)))
    } else if (stage == 2 && meta.stage == 1) || (stage == 3 && meta.stage == 2) {
        Seq::new(free.len(), |i: int| meta.spec_next_stage().left_continuation(single(free[i])))
    } else if stage == 4 && meta.stage == 3 && meta.left_blocked_grips.complement().count() == 2 && full_axis_count(
        meta.left_blocked_grips,
    ) == 2 {
        Seq::new(8, |i: int| stage4_continuation(meta, i))
    } else if (stage == 5 && meta.stage == 4) || (stage == 6 && meta.stage == 5) {
        Seq::new(
            right_free(meta).members().len(),
            |i: int| meta.spec_next_stage().right_continuation(single(right_free(meta).members()[i])),
        )
    } else {
        Seq::empty()
    }
}


/// The mid and left block of a solution with metadata `m`.
pub open spec fn left_block(m: SolutionMetadata) -> Block {
    Block::with(expanded(0x0F0u16, m.left_blocked_grips, 8), Elem::with_id(0))
}

/// The right block of a solution with metadata `m`.
pub open spec fn right_block(m: SolutionMetadata) -> Block {
    Block::with(
        expanded(Block::of_piece(solved_center(m.right_grip)).spec_layers(), m.right_blocked_grips, 8),
        Elem::with_id(0),
    )
}

/// Whether a solution with metadata `m` has built cell `v`: from stage 1 on
/// the mid and left block, from stage 4 on the right block too.
pub open spec fn built_cell(m: SolutionMetadata, v: u8) -> bool {
    ||| m.stage >= 1 && holds_cell(left_block(m), v)
    ||| m.stage >= 4 && holds_cell(right_block(m), v)
}

/// A block expanded by more grips holds every cell of the block expanded by
/// fewer.
pub proof fn lemma_expanded_holds(base: u16, s: GripSet, t: GripSet, v: u8)
    requires
        base < 4096,
        forall|g: int| 0 <= g < 8 && #[trigger] s.has(g) ==> t.has(g),
        holds_cell(Block::with(expanded(base, s, 8), Elem::with_id(0)), v),
    ensures
        holds_cell(Block::with(expanded(base, t, 8), Elem::with_id(0)), v),
{
    let x = expanded(base, s, 8);
    let y = expanded(base, t, 8);
    lemma_expanded_mono(base, s, t, 8);
    lemma_sub_mask(x, y);
    Elem::lemma_with_id(0);
    Block::lemma_with(x, Elem::with_id(0));
    Block::lemma_with(y, Elem::with_id(0));
    Block::lemma_with(0, Elem::with_id(0));
    assert(x != 0);
    assert(lay(y, 0, cell_layer(v, 0)));
    assert(lay(y, 1, cell_layer(v, 1)));
    assert(lay(y, 2, cell_layer(v, 2)));
    assert(lay(y, 3, cell_layer(v, 3)));
}

/// Adding the block of a continuation of stage `stage` to a solution that
/// has built the cells of its metadata builds the cells of the new metadata,
/// one stage on.
pub proof fn lemma_continuation_builds(m: SolutionMetadata, stage: u8, c: int, v: u8)
    requires
        0 <= c < stage_continuations(m, stage).len(),
    ensures
        ({
            let cont = stage_continuations(m, stage)[c];
            &&& m.stage + 1 == stage
            &&& cont.1.stage == m.stage + 1
            &&& built_cell(cont.1, v) == (built_cell(m, v) || holds_cell(cont.0, v))
        }),
{
    let cont = stage_continuations(m, stage)[c];
    let n = m.spec_next_stage();
    GripSet::lemma_union_has(m.left_blocked_grips, m.left_blocked_grips);
    if stage == 1 && m.stage == 0 {
    } else if (stage == 2 && m.stage == 1) || (stage == 3 && m.stage == 2) {
        let free = m.left_blocked_grips.complement().members();
        GripSet::lemma_union_has(m.left_blocked_grips, single(free[c]));
        if holds_cell(left_block(m), v) {
            lemma_expanded_holds(0x0F0u16, m.left_blocked_grips, cont.1.left_blocked_grips, v);
        }
    } else if stage == 4 && m.stage == 3 && m.left_blocked_grips.complement().count() == 2 && full_axis_count(
        m.left_blocked_grips,
    ) == 2 {
    } else if (stage == 5 && m.stage == 4) || (stage == 6 && m.stage == 5) {
        let free = right_free(m).members();
        GripSet::lemma_union_has(m.right_blocked_grips, single(free[c]));
        assert(cont.1.right_grip == m.right_grip);
        let base = Block::of_piece(solved_center(m.right_grip)).spec_layers();
        Block::of_piece(solved_center(m.right_grip)).lemma_layers_range();
        if holds_cell(right_block(m), v) {
            lemma_expanded_holds(base, m.right_blocked_grips, cont.1.right_blocked_grips, v);
        }
    }
}

/// Whether segment state `state` with metadata `m` covers exactly the cells
/// that the metadata says are built.
pub open spec fn cells_built(state: Seq<Block>, m: SolutionMetadata) -> bool {
    forall|v: u8| valid_cell(v) ==> (#[trigger] covers(state, v) == built_cell(m, v))
}

} // verus!
