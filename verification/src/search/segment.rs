//! Segments of solutions and their storage.
use vstd::prelude::*;

use super::meta::{initial_meta, SolutionMetadata};
use crate::sim::blockbuilding::block_list::{covers, holds_cell, new_cell_count, same_cells, split_count, valid_cell};
use crate::sim::blockbuilding::{Block, BlockList};
use crate::sim::blockbuilding::pieces::{centers_home, places, setup_placement, twisted_pieces, twists_valid, Stickers};
use crate::sim::common::twist::fixes_grip;
use crate::sim::common::Twist;
use crate::util::stackvec::StackVec;

verus! {

/// Maximum number of moves allowed in a single segment.
pub const MAX_SOLUTION_SEGMENT_LEN: usize = 11;

/// ID for a [`Segment`].
#[derive(Debug, Default, Copy, Clone, PartialEq, Eq, Hash, PartialOrd, Ord, Structural)]
pub struct SegmentId(pub u32);

impl SegmentId {
    /// ID of the initial segment.
    pub fn init() -> (r: SegmentId)
        ensures
            r.0 == 0,
    {
        SegmentId(0)
    }
}

/// Segment of a solution.
#[derive(Debug)]
pub struct Segment {
    /// State at the end of the segment.
    pub state: BlockList,
    /// Twists of the segment.
    pub segment_twists: StackVec<Twist, 11>,
    /// Metadata of the solution.
    pub meta: SolutionMetadata,
    /// Segment that this one continues.
    pub previous_segment: SegmentId,
}

/// A number ordering twists as their derived order does: by grip, then by
/// transform.
pub open spec fn twist_key(t: Twist) -> int {
    t.grip.spec_id() * 256 + t.transform.spec_id()
}

/// Lexicographic order on sequences of twists.
pub open spec fn twists_le(a: Seq<Twist>, b: Seq<Twist>) -> bool
    decreases a.len(),
{
    if a.len() == 0 {
        true
    } else if b.len() == 0 {
        false
    } else if twist_key(a[0]) != twist_key(b[0]) {
        twist_key(a[0]) < twist_key(b[0])
    } else {
        twists_le(a.drop_first(), b.drop_first())
    }
}

/// The order of segments: by twist count, then by block count, then by
/// previous segment, then by twists.
pub open spec fn segment_le(a: Segment, b: Segment) -> bool {
    if a.state.spec_twist_count() != b.state.spec_twist_count() {
        a.state.spec_twist_count() < b.state.spec_twist_count()
    } else if a.state@.len() != b.state@.len() {
        a.state@.len() < b.state@.len()
    } else if a.previous_segment.0 != b.previous_segment.0 {
        a.previous_segment.0 < b.previous_segment.0
    } else {
        twists_le(a.segment_twists@, b.segment_twists@)
    }
}

/// The order on twist sequences is total.
pub proof fn lemma_twists_le_total(a: Seq<Twist>, b: Seq<Twist>)
    ensures
        twists_le(a, b) || twists_le(b, a),
    decreases a.len(),
{
    if a.len() > 0 && b.len() > 0 && twist_key(a[0]) == twist_key(b[0]) {
        lemma_twists_le_total(a.drop_first(), b.drop_first());
    }
}

/// The order on twist sequences is transitive.
pub proof fn lemma_twists_le_trans(a: Seq<Twist>, b: Seq<Twist>, c: Seq<Twist>)
    requires
        twists_le(a, b),
        twists_le(b, c),
    ensures
        twists_le(a, c),
    decreases a.len(),
{
    if a.len() > 0 && b.len() > 0 && c.len() > 0 && twist_key(a[0]) == twist_key(b[0]) && twist_key(b[0])
        == twist_key(c[0]) {
        lemma_twists_le_trans(a.drop_first(), b.drop_first(), c.drop_first());
    }
}

/// The order on segments is total.
pub proof fn lemma_segment_le_total(a: Segment, b: Segment)
    ensures
        segment_le(a, b) || segment_le(b, a),
{
    lemma_twists_le_total(a.segment_twists@, b.segment_twists@);
}

/// The order on segments is transitive.
pub proof fn lemma_segment_le_trans(a: Segment, b: Segment, c: Segment)
    requires
        segment_le(a, b),
        segment_le(b, c),
    ensures
        segment_le(a, c),
{
    if a.state.spec_twist_count() == b.state.spec_twist_count() && b.state.spec_twist_count()
        == c.state.spec_twist_count() && a.state@.len() == b.state@.len() && b.state@.len() == c.state@.len()
        && a.previous_segment.0 == b.previous_segment.0 && b.previous_segment.0 == c.previous_segment.0 {
        lemma_twists_le_trans(a.segment_twists@, b.segment_twists@, c.segment_twists@);
    }
}

/// Segments with fewer twists come first; among those with as many twists,
/// those with fewer blocks; then those that continue an earlier segment.
pub proof fn lemma_segment_le_prefers_fewer(a: Segment, b: Segment)
    ensures
        a.state.spec_twist_count() < b.state.spec_twist_count() ==> segment_le(a, b) && !segment_le(b, a),
        a.state.spec_twist_count() == b.state.spec_twist_count() && a.state@.len() < b.state@.len() ==> segment_le(
            a,
            b,
        ) && !segment_le(b, a),
        a.state.spec_twist_count() == b.state.spec_twist_count() && a.state@.len() == b.state@.len()
            && a.previous_segment.0 < b.previous_segment.0 ==> segment_le(a, b) && !segment_le(b, a),
        segment_le(a, b) ==> a.state.spec_twist_count() <= b.state.spec_twist_count(),
        segment_le(a, b) && a.state.spec_twist_count() == b.state.spec_twist_count() ==> a.state@.len()
            <= b.state@.len(),
{
}

/// Twist sequences are ordered like words: a proper prefix comes first, and
/// otherwise the first differing twist decides, by grip and then by
/// transform.
pub proof fn lemma_twists_le_lexicographic(a: Seq<Twist>, b: Seq<Twist>, i: int)
    ensures
        twists_le(a, a + b),
        b.len() > 0 ==> !twists_le(a + b, a),
        0 <= i < a.len() && i < b.len() && (forall|j: int| 0 <= j < i ==> a[j] == b[j]) && (a[i].grip.spec_id()
            < b[i].grip.spec_id() || (a[i].grip.spec_id() == b[i].grip.spec_id() && a[i].transform.spec_id()
            < b[i].transform.spec_id())) ==> twists_le(a, b) && !twists_le(b, a),
    decreases a.len(),
{
    if a.len() > 0 {
        assert((a + b)[0] == a[0]);
        assert((a + b).drop_first() == a.drop_first() + b);
        lemma_twists_le_lexicographic(a.drop_first(), b, i);
        if 0 < i < a.len() && i < b.len() && (forall|j: int| 0 <= j < i ==> a[j] == b[j]) {
            assert(a[0] == b[0]);
            assert forall|j: int| 0 <= j < i - 1 implies a.drop_first()[j] == b.drop_first()[j] by {
                assert(a[j + 1] == b[j + 1]);
            }
            assert(a.drop_first()[i - 1] == a[i] && b.drop_first()[i - 1] == b[i]);
            lemma_twists_le_lexicographic(a.drop_first(), b.drop_first(), i - 1);
        }
    } else {
        assert(a + b == b);
    }
}

/// Among segments with as many twists and blocks that continue the same
/// segment, one whose twists begin those of the other comes first.
pub proof fn lemma_segment_le_prefix_first(a: Segment, b: Segment)
    requires
        a.state.spec_twist_count() == b.state.spec_twist_count(),
        a.state@.len() == b.state@.len(),
        a.previous_segment.0 == b.previous_segment.0,
        a.segment_twists@.len() < b.segment_twists@.len(),
        a.segment_twists@ == b.segment_twists@.take(a.segment_twists@.len() as int),
    ensures
        segment_le(a, b) && !segment_le(b, a),
{
    let x = a.segment_twists@;
    let y = b.segment_twists@.skip(x.len() as int);
    assert(x + y == b.segment_twists@);
    lemma_twists_le_lexicographic(x, y, 0);
}

/// Whether two segments are equal field by field.
pub open spec fn segment_eq(a: Segment, b: Segment) -> bool {
    &&& a.state == b.state
    &&& a.segment_twists@ == b.segment_twists@
    &&& a.meta == b.meta
    &&& a.previous_segment == b.previous_segment
}

/// Lexicographic comparison of twist sequences.
fn twists_le_exec(a: &[Twist], b: &[Twist]) -> (r: bool)
    ensures
        r == twists_le(a@, b@),
{
    let mut i: usize = 0;
    assert(a@.subrange(0, a.len() as int) =~= a@);
    assert(b@.subrange(0, b.len() as int) =~= b@);
    while i < a.len() && i < b.len()
        invariant
            i <= a.len(),
            i <= b.len(),
            twists_le(a@, b@) == twists_le(a@.subrange(i as int, a.len() as int), b@.subrange(i as int, b.len() as int)),
        decreases a.len() - i,
    {
        let ka = (a[i].grip.id() as u32) * 256 + a[i].transform.id() as u32;
        let kb = (b[i].grip.id() as u32) * 256 + b[i].transform.id() as u32;
        let ghost sa = a@.subrange(i as int, a.len() as int);
        let ghost sb = b@.subrange(i as int, b.len() as int);
        assert(sa[0] == a[i as int] && sb[0] == b[i as int]);
        if ka != kb {
            return ka < kb;
        }
        assert(sa.drop_first() =~= a@.subrange(i + 1, a.len() as int));
        assert(sb.drop_first() =~= b@.subrange(i + 1, b.len() as int));
        i = i + 1;
    }
    i == a.len()
}

impl Clone for Segment {
    fn clone(&self) -> (r: Segment)
        ensures
            segment_eq(r, *self),
    {
        Segment {
            state: self.state,
            segment_twists: self.segment_twists.clone(),
            meta: self.meta,
            previous_segment: self.previous_segment,
        }
    }
}

impl Default for Segment {
    fn default() -> (r: Segment)
        ensures
            r.state.is_empty_list(),
            r.state.canonical(),
            r.segment_twists@.len() == 0,
            r.meta.stage == 0,
            initial_meta(r.meta),
            r.previous_segment.0 == 0,
    {
        Segment {
            state: BlockList::default(),
            segment_twists: StackVec::new(),
            meta: SolutionMetadata::default(),
            previous_segment: SegmentId(0),
        }
    }
}

/// Whether `s` is segment `base` with `twist` added: its state is canonical,
/// nonempty and holds the same pieces, moved by the twist when the centers
/// are solved, and the twist is counted.
pub open spec fn twist_pushed(base: Segment, twist: Twist, s: Segment) -> bool {
    &&& s.state.canonical()
    &&& same_cells(s.state@, base.state@)
    &&& s.state@.len() > 0
    &&& s.state.spec_twist_count() == base.state.spec_twist_count() + if base.state.twisted_has(
        twist.grip.spec_id() as int,
    ) {
        0int
    } else {
        1int
    }
    &&& s.segment_twists@ == base.segment_twists@.push(twist)
    &&& s.meta == base.meta
    &&& s.previous_segment == base.previous_segment
    &&& centers_home(base.state@) && fixes_grip(twist.transform, twist.grip) ==> centers_home(s.state@)
        && twisted_pieces(base.state@, s.state@, twist)
}

/// Whether adding `twist` to `base` is sure to give a segment: the state
/// stays within 26 blocks, the segment within 11 twists, and some piece is
/// held.
pub open spec fn twist_fits(base: Segment, twist: Twist) -> bool {
    &&& base.state@.len() + split_count(base.state@, twist.grip) <= 26
    &&& base.segment_twists@.len() < 11
    &&& exists|v: u8| covers(base.state@, v)
}

impl Segment {
    /// Adds a twist to the segment. Returns `None` if the state would
    /// overflow or become empty, or if the segment is full.
    pub fn push_twist(&self, twist: Twist) -> (r: Option<Segment>)
        requires
            self.state.wf(),
            twist.transform.spec_id() != 0,
            self.state.spec_twist_count() < 65535,
        ensures
            self.state@.len() + split_count(self.state@, twist.grip) > 26 ==> r is None,
            self.segment_twists@.len() >= 11 ==> r is None,
            self.state@.len() + split_count(self.state@, twist.grip) <= 26 && self.segment_twists@.len() < 11
                && (exists|v: u8| covers(self.state@, v)) ==> r is Some,
            r matches Some(s) ==> twist_pushed(*self, twist, s),
    {
        let state = self.state.twist(twist);
        proof {
            if exists|v: u8| covers(self.state@, v) {
                let v = choose|v: u8| covers(self.state@, v);
                if self.state@.len() + split_count(self.state@, twist.grip) <= 26 {
                    assert(covers(state@, v));
                }
            }
        }
        let state = match state.if_nonempty() {
            Some(s) => s,
            None => {
                return None;
            },
        };
        let segment_twists = match self.segment_twists.clone().push(twist) {
            Some(t) => t,
            None => {
                return None;
            },
        };
        Some(Segment { state, segment_twists, previous_segment: self.previous_segment, meta: self.meta })
    }

    /// Adds a block to the segment. Returns `None` if the state would
    /// overflow or be empty.
    pub fn push_block(&self, setup_moves: &[Twist], new_block: Block, new_meta: SolutionMetadata) -> (r: Option<Segment>)
        requires
            self.state.wf(),
        ensures
            self.state@.len() + new_cell_count(self.state@, new_block, 256) > 26 ==> r is None,
            self.state@.len() + new_cell_count(self.state@, new_block, 256) <= 26 && (exists|v: u8|
                valid_cell(v) && (covers(self.state@, v) || holds_cell(new_block, v))) ==> r is Some,
            r matches Some(s) ==> {
                &&& s.state.canonical()
                &&& forall|v: u8|
                    valid_cell(v) ==> (#[trigger] covers(s.state@, v) == (covers(self.state@, v) || holds_cell(
                        new_block,
                        v,
                    )))
                &&& s.state@.len() > 0
                &&& s.state.spec_twist_count() == self.state.spec_twist_count()
                &&& s.segment_twists@ == self.segment_twists@
                &&& s.meta == new_meta
                &&& s.previous_segment == self.previous_segment
                &&& centers_home(self.state@) && twists_valid(setup_moves@) ==> centers_home(s.state@) && forall|
                    v: u8,
                    p: Stickers,
                |
                    valid_cell(v) ==> (#[trigger] places(s.state@, v, p) == (places(self.state@, v, p) || (!covers(
                        self.state@,
                        v,
                    ) && holds_cell(new_block, v) && p == setup_placement(setup_moves@, v))))
            },
    {
        let state = self.state.add_block_with_setup_moves(setup_moves, new_block);
        proof {
            if exists|v: u8| valid_cell(v) && (covers(self.state@, v) || holds_cell(new_block, v)) {
                let v = choose|v: u8| valid_cell(v) && (covers(self.state@, v) || holds_cell(new_block, v));
                if self.state@.len() + new_cell_count(self.state@, new_block, 256) <= 26 {
                    assert(covers(state@, v));
                }
            }
        }
        let state = match state.if_nonempty() {
            Some(s) => s,
            None => {
                return None;
            },
        };
        Some(
            Segment {
                state,
                meta: new_meta,
                segment_twists: self.segment_twists.clone(),
                previous_segment: self.previous_segment,
            },
        )
    }

    /// Returns a new empty segment continuing from this one, which has the ID
    /// `previous_segment`.
    pub fn next_step(&self, previous_segment: SegmentId) -> (r: Segment)
        ensures
            r.state == self.state,
            r.segment_twists@.len() == 0,
            r.previous_segment == previous_segment,
            r.meta == self.meta,
    {
        Segment { state: self.state, segment_twists: StackVec::new(), previous_segment, meta: self.meta }
    }

    /// Returns whether this segment comes no later than `other` in the order
    /// of segments.
    pub fn sort_key_le(&self, other: &Segment) -> (r: bool)
        requires
            self.state.wf(),
            other.state.wf(),
        ensures
            r == segment_le(*self, *other),
    {
        let ta = self.state.twist_count();
        let tb = other.state.twist_count();
        if ta != tb {
            return ta < tb;
        }
        let la = self.state.len();
        let lb = other.state.len();
        if la != lb {
            return la < lb;
        }
        if self.previous_segment.0 != other.previous_segment.0 {
            return self.previous_segment.0 < other.previous_segment.0;
        }
        twists_le_exec(self.segment_twists.as_slice(), other.segment_twists.as_slice())
    }

    /// Returns whether two segments are equal field by field.
    pub fn same_as(&self, other: &Segment) -> (r: bool)
        ensures
            r == segment_eq(*self, *other),
    {
        if !self.state.same_as(&other.state) || self.meta != other.meta || self.previous_segment
            != other.previous_segment {
            return false;
        }
        let a = self.segment_twists.as_slice();
        let b = other.segment_twists.as_slice();
        if a.len() != b.len() {
            return false;
        }
        let mut i: usize = 0;
        while i < a.len()
            invariant
                a.len() == b.len(),
                a@ == self.segment_twists@,
                b@ == other.segment_twists@,
                i <= a.len(),
                forall|j: int| 0 <= j < i ==> a@[j] == b@[j],
            decreases a.len() - i,
        {
            if a[i] != b[i] {
                return false;
            }
            i = i + 1;
        }
        assert(a@ =~= b@);
        true
    }
}


/// The twists of segment `id` and of all the segments it continues, in
/// order, down to (and not including) the initial segment.
pub open spec fn chain_twists(segs: Seq<Segment>, id: int) -> Seq<Twist>
    decreases id,
{
    if id <= 0 || id >= segs.len() {
        Seq::empty()
    } else if 0 <= segs[id].previous_segment.0 < id {
        chain_twists(segs, segs[id].previous_segment.0 as int) + segs[id].segment_twists@
    } else {
        segs[id].segment_twists@
    }
}

/// Segments stored after others do not change the twists leading to the
/// others.
pub proof fn lemma_chain_prefix(segs: Seq<Segment>, more: Seq<Segment>, id: int)
    requires
        id < segs.len(),
    ensures
        chain_twists(segs + more, id) == chain_twists(segs, id),
    decreases id,
{
    if id > 0 {
        assert((segs + more)[id] == segs[id]);
        let p = segs[id].previous_segment.0 as int;
        if 0 <= p < id {
            lemma_chain_prefix(segs, more, p);
        }
    }
}

/// Storage of all segments, by ID, and of the IDs of the segments found at
/// each step.
pub struct SegmentStore {
    /// The scramble that the solutions start from.
    pub scramble: Vec<Twist>,
    segments: Vec<Segment>,
    steps: Vec<Vec<SegmentId>>,
}

impl SegmentStore {
    /// The scramble.
    pub closed spec fn spec_scramble(self) -> Seq<Twist> {
        self.scramble@
    }

    /// The segments, by ID.
    pub closed spec fn spec_segments(self) -> Seq<Segment> {
        self.segments@
    }

    /// The IDs of the segments found at each step.
    pub closed spec fn spec_steps(self) -> Seq<Seq<SegmentId>> {
        self.steps@.map_values(|v: Vec<SegmentId>| v@)
    }

    /// Whether each segment continues an earlier one, every state is
    /// canonical, and the steps refer to stored segments.
    pub open spec fn wf(self) -> bool {
        let segs = self.spec_segments();
        &&& 1 <= segs.len() <= u32::MAX
        &&& segs[0].previous_segment.0 == 0
        &&& forall|i: int| 1 <= i < segs.len() ==> (#[trigger] segs[i]).previous_segment.0 < i
        &&& forall|i: int| 0 <= i < segs.len() ==> (#[trigger] segs[i]).state.canonical()
        &&& forall|k: int, j: int|
            0 <= k < self.spec_steps().len() && 0 <= j < self.spec_steps()[k].len() ==> (
            #[trigger] self.spec_steps()[k][j]).0 < segs.len()
    }

    /// Creates a store holding only the initial segment, at step 0.
    pub fn new(scramble: Vec<Twist>) -> (r: SegmentStore)
        ensures
            r.wf(),
            r.spec_scramble() == scramble@,
            r.spec_segments().len() == 1,
            r.spec_segments()[0].state.is_empty_list(),
            r.spec_segments()[0].segment_twists@.len() == 0,
            initial_meta(r.spec_segments()[0].meta),
            r.spec_segments()[0].previous_segment.0 == 0,
            r.spec_steps() == seq![seq![SegmentId(0)]],
    {
        let mut segments: Vec<Segment> = Vec::new();
        segments.push(Segment::default());
        let mut first: Vec<SegmentId> = Vec::new();
        first.push(SegmentId::init());
        let mut steps: Vec<Vec<SegmentId>> = Vec::new();
        steps.push(first);
        let r = SegmentStore { scramble, segments, steps };
        assert(r.spec_steps() =~= seq![seq![SegmentId(0)]]);
        r
    }

    /// Returns the segment with the given ID.
    pub fn get(&self, id: SegmentId) -> (r: &Segment)
        requires
            id.0 < self.spec_segments().len(),
        ensures
            *r == self.spec_segments()[id.0 as int],
    {
        &self.segments[id.0 as usize]
    }

    /// Returns the number of stored segments.
    pub fn segment_count(&self) -> (r: usize)
        ensures
            r == self.spec_segments().len(),
    {
        self.segments.len()
    }

    /// Stores `segments` and adds their IDs to step `step`.
    pub fn add_segments(&mut self, step: usize, segments: Vec<Segment>)
        requires
            old(self).wf(),
            step < usize::MAX,
            old(self).spec_segments().len() + segments@.len() <= u32::MAX,
            forall|i: int| 0 <= i < segments@.len() ==> (#[trigger] segments@[i]).previous_segment.0 < old(self).spec_segments().len(),
            forall|i: int| 0 <= i < segments@.len() ==> (#[trigger] segments@[i]).state.canonical(),
        ensures
            final(self).wf(),
            final(self).spec_scramble() == old(self).spec_scramble(),
            final(self).spec_segments() == old(self).spec_segments() + segments@,
            final(self).spec_steps().len() == if old(self).spec_steps().len() <= step {
                step + 1
            } else {
                old(self).spec_steps().len() as int
            },
            forall|k: int| 0 <= k < final(self).spec_steps().len() && k != step ==> #[trigger] final(self).spec_steps()[k]
                == if k < old(self).spec_steps().len() { old(self).spec_steps()[k] } else { Seq::empty() },
            final(self).spec_steps()[step as int] == (if step < old(self).spec_steps().len() {
                old(self).spec_steps()[step as int]
            } else {
                Seq::empty()
            }) + Seq::new(segments@.len(), |i: int| SegmentId((old(self).spec_segments().len() + i) as u32)),
    {
        let start = self.segments.len();
        let n = segments.len();
        let mut ids: Vec<SegmentId> = Vec::new();
        let mut i: usize = 0;
        while i < n
            invariant
                start + n <= u32::MAX,
                i <= n,
                ids@ == Seq::new(i as nat, |j: int| SegmentId((start + j) as u32)),
            decreases n - i,
        {
            ids.push(SegmentId((start + i) as u32));
            i = i + 1;
            proof {
                assert(ids@ =~= Seq::new(i as nat, |j: int| SegmentId((start + j) as u32)));
            }
        }
        let mut segments = segments;
        let ghost added = segments@;
        self.segments.append(&mut segments);
        proof {
            let segs = self.spec_segments();
            assert(segs == old(self).spec_segments() + added);
            assert(segs[0] == old(self).spec_segments()[0]);
            assert forall|i: int| 1 <= i < segs.len() implies (#[trigger] segs[i]).previous_segment.0 < i by {
                if i >= start {
                    assert(segs[i] == added[i - start]);
                } else {
                    assert(segs[i] == old(self).spec_segments()[i]);
                }
            }
            assert forall|i: int| 0 <= i < segs.len() implies (#[trigger] segs[i]).state.canonical() by {
                if i >= start {
                    assert(segs[i] == added[i - start]);
                } else {
                    assert(segs[i] == old(self).spec_segments()[i]);
                }
            }
        }
        self.push_batch(step, ids);
    }

    /// Adds the IDs of stored segments to step `step`.
    pub fn push_batch(&mut self, step: usize, segment_ids: Vec<SegmentId>)
        requires
            old(self).wf(),
            step < usize::MAX,
            forall|i: int| 0 <= i < segment_ids@.len() ==> (#[trigger] segment_ids@[i]).0 < old(self).spec_segments().len(),
        ensures
            final(self).wf(),
            final(self).spec_scramble() == old(self).spec_scramble(),
            final(self).spec_segments() == old(self).spec_segments(),
            final(self).spec_steps().len() == if old(self).spec_steps().len() <= step {
                step + 1
            } else {
                old(self).spec_steps().len() as int
            },
            forall|k: int| 0 <= k < final(self).spec_steps().len() && k != step ==> #[trigger] final(self).spec_steps()[k]
                == if k < old(self).spec_steps().len() { old(self).spec_steps()[k] } else { Seq::empty() },
            final(self).spec_steps()[step as int] == (if step < old(self).spec_steps().len() {
                old(self).spec_steps()[step as int]
            } else {
                Seq::empty()
            }) + segment_ids@,
    {
        let ghost old_steps = self.spec_steps();
        while self.steps.len() <= step
            invariant
                old_steps == old(self).spec_steps(),
                self.segments == old(self).segments,
                self.scramble == old(self).scramble,
                self.steps@.len() >= old_steps.len(),
                old_steps.len() <= step ==> self.steps@.len() <= step + 1,
                old_steps.len() > step ==> self.steps@.len() == old_steps.len(),
                forall|k: int| 0 <= k < old_steps.len() ==> #[trigger] self.steps@[k]@ == old_steps[k],
                forall|k: int| old_steps.len() <= k < self.steps@.len() ==> #[trigger] self.steps@[k]@ == Seq::<SegmentId>::empty(),
            decreases step + 1 - self.steps@.len(),
        {
            self.steps.push(Vec::new());
        }
        let mut batch = Vec::new();
        std::mem::swap(&mut batch, &mut self.steps[step]);
        let ghost before = batch@;
        let mut i: usize = 0;
        while i < segment_ids.len()
            invariant
                i <= segment_ids@.len(),
                batch@ == before + segment_ids@.subrange(0, i as int),
            decreases segment_ids@.len() - i,
        {
            batch.push(segment_ids[i]);
            i = i + 1;
            assert(batch@ =~= before + segment_ids@.subrange(0, i as int));
        }
        assert(segment_ids@.subrange(0, segment_ids@.len() as int) =~= segment_ids@);
        self.steps.set(step, batch);
        proof {
            assert forall|k: int, j: int|
                0 <= k < self.spec_steps().len() && 0 <= j < self.spec_steps()[k].len() implies (
                #[trigger] self.spec_steps()[k][j]).0 < self.spec_segments().len() by {
                if k != step && k < old_steps.len() {
                    assert(self.spec_steps()[k] == old_steps[k]);
                    assert(old(self).spec_steps()[k][j] == self.spec_steps()[k][j]);
                }
                if k == step && j < before.len() {
                    assert(old(self).spec_steps()[k][j] == self.spec_steps()[k][j]);
                }
            }
        }
    }

    /// Returns the IDs of the segments found at step `step`.
    pub fn segment_ids_for_step(&self, step: usize) -> (r: &[SegmentId])
        ensures
            r@ == if step < self.spec_steps().len() {
                self.spec_steps()[step as int]
            } else {
                Seq::empty()
            },
    {
        if step < self.steps.len() {
            self.steps[step].as_slice()
        } else {
            &[]
        }
    }

    /// Returns the twists of the solution up to the end of segment `id`.
    pub fn solution_twists_for_segment(&self, id: SegmentId) -> (r: Vec<Twist>)
        requires
            self.wf(),
            id.0 < self.spec_segments().len(),
        ensures
            r@ == chain_twists(self.spec_segments(), id.0 as int),
    {
        let r = self.twists_for_segment(&[], id);
        assert(Seq::<Twist>::empty() + chain_twists(self.spec_segments(), id.0 as int) =~= chain_twists(
            self.spec_segments(),
            id.0 as int,
        ));
        r
    }

    /// Returns the scramble followed by the twists of the solution up to the
    /// end of segment `id`.
    pub fn all_prior_twists_for_segment(&self, id: SegmentId) -> (r: Vec<Twist>)
        requires
            self.wf(),
            id.0 < self.spec_segments().len(),
        ensures
            r@ == self.spec_scramble() + chain_twists(self.spec_segments(), id.0 as int),
    {
        self.twists_for_segment(self.scramble.as_slice(), id)
    }

    fn twists_for_segment(&self, init: &[Twist], id: SegmentId) -> (r: Vec<Twist>)
        requires
            self.wf(),
            id.0 < self.spec_segments().len(),
        ensures
            r@ == init@ + chain_twists(self.spec_segments(), id.0 as int),
    {
        let ghost segs = self.spec_segments();
        let mut tail: Vec<Twist> = Vec::new();
        let mut cur = id;
        while cur.0 != 0
            invariant
                self.wf(),
                segs == self.spec_segments(),
                cur.0 < segs.len(),
                chain_twists(segs, id.0 as int) == chain_twists(segs, cur.0 as int) + tail@,
            decreases cur.0,
        {
            let segment = &self.segments[cur.0 as usize];
            let twists = segment.segment_twists.as_slice();
            let mut next: Vec<Twist> = Vec::new();
            let mut k: usize = 0;
            while k < twists.len()
                invariant
                    k <= twists@.len(),
                    next@ == twists@.subrange(0, k as int),
                decreases twists@.len() - k,
            {
                next.push(twists[k]);
                k = k + 1;
                assert(next@ =~= twists@.subrange(0, k as int));
            }
            let mut j: usize = 0;
            let ghost t0 = tail@;
            while j < tail.len()
                invariant
                    t0 == tail@,
                    j <= tail@.len(),
                    next@ == twists@ + tail@.subrange(0, j as int),
                decreases tail@.len() - j,
            {
                next.push(tail[j]);
                j = j + 1;
                assert(next@ =~= twists@ + tail@.subrange(0, j as int));
            }
            proof {
                assert(twists@.subrange(0, twists@.len() as int) =~= twists@);
                assert(tail@.subrange(0, tail@.len() as int) =~= tail@);
                assert(chain_twists(segs, cur.0 as int) == chain_twists(segs, segs[cur.0 as int].previous_segment.0 as int)
                    + segs[cur.0 as int].segment_twists@);
                assert(chain_twists(segs, id.0 as int) =~= chain_twists(segs, segs[cur.0 as int].previous_segment.0 as int) + next@);
            }
            tail = next;
            cur = segment.previous_segment;
        }
        let mut r: Vec<Twist> = Vec::new();
        let mut i: usize = 0;
        while i < init.len()
            invariant
                i <= init@.len(),
                r@ == init@.subrange(0, i as int),
            decreases init@.len() - i,
        {
            r.push(init[i]);
            i = i + 1;
            assert(r@ =~= init@.subrange(0, i as int));
        }
        let mut j: usize = 0;
        while j < tail.len()
            invariant
                j <= tail@.len(),
                r@ == init@ + tail@.subrange(0, j as int),
            decreases tail@.len() - j,
        {
            r.push(tail[j]);
            j = j + 1;
            assert(r@ =~= init@ + tail@.subrange(0, j as int));
        }
        proof {
            assert(init@.subrange(0, init@.len() as int) =~= init@);
            assert(tail@.subrange(0, tail@.len() as int) =~= tail@);
            assert(chain_twists(segs, 0) =~= Seq::<Twist>::empty());
            assert(chain_twists(segs, id.0 as int) =~= tail@);
        }
        r
    }

    /// Returns the IDs of the segments found at the last step.
    pub fn best_solutions_so_far(&self) -> (r: Option<&Vec<SegmentId>>)
        ensures
            r is None <==> self.spec_steps().len() == 0,
            r matches Some(v) ==> v@ == self.spec_steps().last(),
    {
        let n = self.steps.len();
        if n == 0 {
            None
        } else {
            Some(&self.steps[n - 1])
        }
    }

    /// Returns the number of the next step.
    pub fn next_step(&self) -> (r: usize)
        ensures
            r == self.spec_steps().len(),
    {
        self.steps.len()
    }
}

} // verus!
