use vstd::prelude::*;

use rand::rngs::SmallRng;
use rand::seq::IndexedRandom;

use super::axis::Axis;
use super::element::{Elem, TransformByElem};
use super::grip::Grip;

verus! {

/// Twist of a 4-dimensional Rubik's cube
#[derive(Debug, Default, Copy, Clone, PartialEq, Eq, Hash, PartialOrd, Ord, Structural)]
pub struct Twist {
    /// Grip affected by the twist.
    pub grip: Grip,
    /// Transform applied to pieces by the twist.
    pub transform: Elem,
}

/// Whether `transform` fixes `grip`, as the transform of a twist on the grip
/// must.
pub open spec fn fixes_grip(transform: Elem, grip: Grip) -> bool {
    transform.grip_image(grip.spec_id() as int) == grip.spec_id()
}

impl Twist {
    /// Constructs a twist. The twist transform must fix the grip.
    pub fn new(grip: Grip, transform: Elem) -> (t: Twist)
        requires
            fixes_grip(transform, grip),
        ensures
            t.grip == grip,
            t.transform == transform,
    {
        Twist { grip, transform }
    }

    /// Returns the grip affected by the twist.
    pub fn grip(self) -> (g: Grip)
        ensures
            g == self.grip,
    {
        self.grip
    }

    /// Returns the transform applied to pieces by the twist.
    pub fn transform(self) -> (e: Elem)
        ensures
            e == self.transform,
    {
        self.transform
    }

    /// Returns the inverse twist.
    pub fn inv(self) -> (t: Twist)
        requires
            fixes_grip(self.transform, self.grip),
        ensures
            t.grip == self.grip,
            t.transform == self.transform.inverse(),
            fixes_grip(t.transform, t.grip),
    {
        let inv = self.transform.inv();
        let _ = self.transform.id();
        let g = self.grip.id();
        proof {
            Elem::lemma_action(self.transform, self.transform, g as int);
        }
        Twist::new(self.grip, inv)
    }
}

impl TransformByElem for Twist {
    open spec fn transformed_by(self, elem: Elem) -> Twist {
        Twist {
            grip: self.grip.moved_by(elem),
            transform: self.transform.transformed_by(elem),
        }
    }

    fn transform_by(self, elem: Elem) -> (r: Twist) {
        Twist { grip: elem * self.grip, transform: elem.transform(self.transform) }
    }
}

impl Grip {
    /// Returns all twists on the grip: one for each transform fixing the
    /// grip's axis other than the identity, in order of ID.
    pub fn twists(self) -> (r: Vec<Twist>)
        ensures
            forall|i: int| 0 <= i < r.len() ==> (#[trigger] r[i]).grip == self,
            forall|i: int| 0 <= i < r.len() ==> fixes_grip(#[trigger] r[i].transform, self),
            forall|i: int, j: int|
                0 <= i < j < r.len() ==> r[i].transform.spec_id() < r[j].transform.spec_id(),
            forall|e: Elem|
                e.spec_id() < 192 ==> ((exists|i: int| 0 <= i < r.len() && r[i].transform == e)
                    <==> (e.spec_id() != 0 && e.grip_image(2 * (self.spec_id() / 2)) == 2 * (
                self.spec_id() / 2))),
    {
        let axis = self.axis();
        let stab = axis.stabilizer_without_identity();
        let gid = self.id();
        let mut r: Vec<Twist> = Vec::new();
        let mut i: usize = 0;
        while i < stab.len()
            invariant
                i <= stab.len(),
                r.len() == i,
                axis.spec_id() == gid / 2,
                gid == self.spec_id(),
                gid < 8,
                forall|e: Elem|
                    e.spec_id() < 192 ==> (stab@.contains(e) <==> (e.spec_id() != 0 && e.grip_image(
                        2 * axis.spec_id(),
                    ) == 2 * axis.spec_id())),
                forall|k: int| 0 <= k < i ==> (#[trigger] r[k]).grip == self && r[k].transform == stab[k],
                forall|k: int| 0 <= k < i ==> fixes_grip(#[trigger] r[k].transform, self),
            decreases stab.len() - i,
        {
            let e = stab[i];
            let _ = e.id();
            proof {
                assert(stab@.contains(e)) by {
                    assert(stab@[i as int] == e);
                }
                Elem::lemma_action(e, e, 2 * axis.spec_id());
            }
            r.push(Twist { grip: self, transform: e });
            i = i + 1;
        }
        proof {
            assert forall|e: Elem| e.spec_id() < 192 implies ((exists|i: int| 0 <= i < r.len() && r[i].transform == e)
                <==> stab@.contains(e)) by {
                if stab@.contains(e) {
                    let k = choose|k: int| 0 <= k < stab@.len() && stab@[k] == e;
                    assert(r[k].transform == e);
                }
                if exists|i: int| 0 <= i < r.len() && r[i].transform == e {
                    let k = choose|k: int| 0 <= k < r.len() && r[k].transform == e;
                    assert(stab@[k] == e);
                }
            }
        }
        r
    }
}

/// The random number generator used to pick random twists.
#[verifier::external_type_specification]
#[verifier::external_body]
pub struct ExSmallRng(SmallRng);

/// Picks an element of `twists` with `rand`'s `IndexedRandom::choose`, which
/// draws an index below the length from `rng`. The contract states only that
/// the result is `None` for an empty slice and otherwise one of its elements;
/// which one depends on the generator's state.
#[verifier::external_body]
fn choose_twist(rng: &mut SmallRng, twists: &[Twist]) -> (picked: Option<Twist>)
    ensures
        picked is None <==> twists.len() == 0,
        picked is Some ==> twists@.contains(picked->0),
{
    twists.choose(rng).copied()
}

/// Whether `t` is a twist of the puzzle: a transform other than the identity
/// that fixes the axis of its grip.
pub open spec fn puzzle_twist(t: Twist) -> bool {
    let a = 2 * (t.grip.spec_id() / 2);
    &&& t.grip.spec_id() < 8
    &&& t.transform.spec_id() < 192
    &&& t.transform.spec_id() != 0
    &&& t.transform.grip_image(a as int) == a
}

/// Whether twist `a` comes before twist `b`: by grip, then by transform.
pub open spec fn twist_before(a: Twist, b: Twist) -> bool {
    a.grip.spec_id() < b.grip.spec_id() || (a.grip.spec_id() == b.grip.spec_id() && a.transform.spec_id()
        < b.transform.spec_id())
}

/// A twist of the puzzle fixes its grip.
pub proof fn lemma_puzzle_twist_fixes_grip(t: Twist)
    requires
        puzzle_twist(t),
    ensures
        fixes_grip(t.transform, t.grip),
{
    let g = t.grip.spec_id() as int;
    let a = 2 * (g / 2);
    Elem::lemma_action(t.transform, t.transform, a);
    Elem::lemma_action(t.transform, t.transform, g);
}

/// Returns a sequence of `count` random twists, each drawn from all twists of
/// the puzzle.
pub fn random_twists(rng: &mut SmallRng, count: usize) -> (r: Vec<Twist>)
    ensures
        r.len() == count,
        forall|i: int| 0 <= i < r.len() ==> puzzle_twist(#[trigger] r[i]),
        forall|i: int| 0 <= i < r.len() ==> fixes_grip(#[trigger] r[i].transform, r[i].grip),
{
    let all = all_twists();
    let mut r: Vec<Twist> = Vec::new();
    let mut i: usize = 0;
    while i < count
        invariant
            i <= count,
            r.len() == i,
            all.len() > 0,
            forall|t: Twist| #[trigger] all@.contains(t) <==> puzzle_twist(t),
            forall|j: int| 0 <= j < r.len() ==> puzzle_twist(#[trigger] r[j]),
            forall|j: int| 0 <= j < r.len() ==> fixes_grip(#[trigger] r[j].transform, r[j].grip),
        decreases count - i,
    {
        match choose_twist(rng, all.as_slice()) {
            Some(t) => {
                proof {
                    assert(all@.contains(t));
                    lemma_puzzle_twist_fixes_grip(t);
                }
                r.push(t);
            },
            None => {
                return r;
            },
        }
        i = i + 1;
    }
    r
}

/// Returns all twists of the puzzle, grip by grip and, on each grip, in order
/// of transform.
pub fn all_twists() -> (r: Vec<Twist>)
    ensures
        r.len() > 0,
        forall|t: Twist| #[trigger] r@.contains(t) <==> puzzle_twist(t),
        forall|i: int, j: int| 0 <= i < j < r.len() ==> twist_before(#[trigger] r[i], #[trigger] r[j]),
        forall|i: int| 0 <= i < r.len() ==> fixes_grip(#[trigger] r[i].transform, r[i].grip),
{
    let yz = super::elements::YZ();
    proof {
        Elem::lemma_grip_image_def(yz, 0);
        super::table::lemma_table_yz();
    }
    let grips = Grip::all();
    let mut r: Vec<Twist> = Vec::new();
    let mut k: usize = 0;
    while k < 8
        invariant
            k <= 8,
            k > 0 ==> r.len() > 0,
            yz.grip_image(0) == 0,
            yz.spec_id() == 97,
            forall|i: int| 0 <= i < 8 ==> (#[trigger] grips[i]).spec_id() == i,
            forall|j: int| 0 <= j < r.len() ==> puzzle_twist(#[trigger] r[j]) && r[j].grip.spec_id() < k,
            forall|t: Twist| puzzle_twist(t) && t.grip.spec_id() < k ==> #[trigger] r@.contains(t),
            forall|i: int, j: int| 0 <= i < j < r.len() ==> twist_before(#[trigger] r[i], #[trigger] r[j]),
        decreases 8 - k,
    {
        let ts = grips[k].twists();
        proof {
            if k == 0 {
                assert(exists|i: int| 0 <= i < ts.len() && ts[i].transform == yz);
            }
        }
        let ghost r0 = r@;
        let mut i: usize = 0;
        while i < ts.len()
            invariant
                i <= ts.len(),
                k < 8,
                k == 0 ==> ts.len() > 0,
                i > 0 ==> r.len() > 0,
                k > 0 ==> r.len() > 0,
                grips[k as int].spec_id() == k,
                forall|j: int| 0 <= j < ts.len() ==> fixes_grip(#[trigger] ts[j].transform, grips[k as int]),
                forall|j: int| 0 <= j < ts.len() ==> (#[trigger] ts[j]).grip == grips[k as int],
                forall|a: int, b: int| 0 <= a < b < ts.len() ==> ts[a].transform.spec_id() < ts[b].transform.spec_id(),
                forall|e: Elem|
                    e.spec_id() < 192 ==> ((exists|j: int| 0 <= j < ts.len() && ts[j].transform == e) <==> (e.spec_id()
                        != 0 && e.grip_image(2 * (k / 2) as int) == 2 * (k / 2))),
                r@ == r0 + ts@.subrange(0, i as int),
                forall|j: int| 0 <= j < r0.len() ==> puzzle_twist(#[trigger] r0[j]) && r0[j].grip.spec_id() < k,
                forall|j: int| 0 <= j < r.len() ==> puzzle_twist(#[trigger] r[j]) && r[j].grip.spec_id() <= k,
                forall|i1: int, j1: int| 0 <= i1 < j1 < r.len() ==> twist_before(#[trigger] r[i1], #[trigger] r[j1]),
            decreases ts.len() - i,
        {
            let t = ts[i];
            let _ = t.transform.id();
            proof {
                let e = t.transform;
                assert(exists|j: int| 0 <= j < ts.len() && ts[j].transform == e);
                assert(puzzle_twist(t));
                assert forall|j: int| 0 <= j < r.len() implies twist_before(#[trigger] r[j], t) by {
                    if j >= r0.len() {
                        assert(r[j] == ts[j - r0.len()]);
                    }
                }
            }
            let ghost rb = r@;
            r.push(t);
            proof {
                assert(r@ =~= r0 + ts@.subrange(0, i + 1));
                assert forall|i1: int, j1: int| 0 <= i1 < j1 < r.len() implies twist_before(#[trigger] r[i1], #[trigger] r[j1]) by {
                    if j1 < rb.len() {
                        assert(r[i1] == rb[i1] && r[j1] == rb[j1]);
                    } else {
                        assert(r[i1] == rb[i1]);
                    }
                }
            }
            i = i + 1;
        }
        proof {
            assert(ts@.subrange(0, ts.len() as int) =~= ts@);
            assert forall|t: Twist| puzzle_twist(t) && t.grip.spec_id() < k + 1 implies #[trigger] r@.contains(t) by {
                if t.grip.spec_id() < k {
                    assert(r0.contains(t));
                    let q = choose|q: int| 0 <= q < r0.len() && r0[q] == t;
                    assert(r@[q] == t);
                } else {
                    let e = t.transform;
                    assert(exists|j: int| 0 <= j < ts.len() && ts[j].transform == e);
                    let j = choose|j: int| 0 <= j < ts.len() && ts[j].transform == e;
                    Grip::lemma_id_eq(ts[j].grip, t.grip);
                    assert(ts[j] == t);
                    assert(r@[r0.len() + j] == t);
                }
            }
        }
        k = k + 1;
    }
    proof {
        assert forall|t: Twist| #[trigger] r@.contains(t) implies puzzle_twist(t) by {
            let q = choose|q: int| 0 <= q < r@.len() && r@[q] == t;
        }
        assert forall|i: int| 0 <= i < r.len() implies fixes_grip(#[trigger] r[i].transform, r[i].grip) by {
            lemma_puzzle_twist_fixes_grip(r[i]);
        }
    }
    r
}

} // verus!
