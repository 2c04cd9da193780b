//! Names of twists, as used in HSC1 log files: the grip of the twist, then
//! the grips that the twist turns around (`IU`, `IU2`, `IUR`, `IUFR`, ...).
use vstd::prelude::*;

use super::element::{Elem, TransformByElem};
use super::elements::{XZ, YX, ZY};
use super::grip::Grip;
use super::grips::{F, I, R, U};
use super::twist::Twist;
use crate::util::text::{bytes_equal, split_words, words};

verus! {

broadcast use {Elem::lemma_with_id, Grip::lemma_with_id, Elem::lemma_id_eq, Grip::lemma_id_eq};

/// Number of twist slots: one for each grip and each element.
pub const TWIST_SLOTS: usize = 1536;

/// ASCII letter naming a grip.
pub open spec fn grip_letter(id: int) -> u8 {
    if id == 0 {
        82u8
    } else if id == 1 {
        76u8
    } else if id == 2 {
        85u8
    } else if id == 3 {
        68u8
    } else if id == 4 {
        70u8
    } else if id == 5 {
        66u8
    } else if id == 6 {
        79u8
    } else {
        73u8
    }
}

/// Order of the grips in twist names: U D F B R L O I.
pub open spec fn hsc1_order() -> Seq<int> {
    seq![2int, 3int, 4int, 5int, 0int, 1int, 6int, 7int]
}

/// Letters of the grips of `order` that are in `gs`, in the order of `order`.
pub open spec fn letters_in_order(order: Seq<int>, gs: Set<int>) -> Seq<u8>
    decreases order.len(),
{
    if order.len() == 0 {
        seq![]
    } else {
        letters_in_order(order.drop_last(), gs) + (if gs.contains(order.last()) {
            seq![grip_letter(order.last())]
        } else {
            seq![]
        })
    }
}

/// Transform of the named twist of kind `b` on grip I: a quarter turn
/// (`IU`), a half turn (`IU2`), an edge turn (`IUR`) or a corner turn
/// (`IUFR`).
pub open spec fn base_transform(b: int) -> Elem {
    let xz = Elem::with_id(2);
    let yx = Elem::with_id(13);
    let zy = Elem::with_id(84);
    if b == 0 {
        xz
    } else if b == 1 {
        xz.product(xz)
    } else if b == 2 {
        yx.product(xz).product(xz)
    } else {
        zy.product(yx)
    }
}

/// The named twist of kind `b` on grip I.
pub open spec fn base_twist(b: int) -> Twist {
    Twist { grip: Grip::with_id(7), transform: base_transform(b) }
}

/// The twist of kind `b` seen from the element with ID `o`.
pub open spec fn named_twist(o: int, b: int) -> Twist {
    base_twist(b).transformed_by(Elem::with_id(o as u8))
}

/// Name of the twist of kind `b` seen from the element with ID `o`.
pub open spec fn twist_label(o: int, b: int) -> Seq<u8> {
    let e = Elem::with_id(o as u8);
    let i = e.grip_image(7);
    let u = e.grip_image(2);
    let r = e.grip_image(0);
    let f = e.grip_image(4);
    if b == 0 {
        seq![grip_letter(i), grip_letter(u)]
    } else if b == 1 {
        seq![grip_letter(i), grip_letter(u), 50u8]
    } else if b == 2 {
        seq![grip_letter(i)] + letters_in_order(hsc1_order(), set![u, r])
    } else {
        seq![grip_letter(i)] + letters_in_order(hsc1_order(), set![u, r, f])
    }
}

/// Slot of a twist in a table of twists.
pub open spec fn twist_slot(t: Twist) -> int {
    t.grip.spec_id() * 192 + t.transform.spec_id()
}

/// The twist in a slot.
pub open spec fn twist_in_slot(j: int) -> Twist {
    Twist { grip: Grip::with_id((j / 192) as u8), transform: Elem::with_id((j % 192) as u8) }
}

/// The first kind below `k` whose twist seen from `o` is in slot `j`.
pub open spec fn first_kind(o: int, j: int, k: nat) -> Option<int>
    decreases k,
{
    if k == 0 {
        None
    } else {
        match first_kind(o, j, (k - 1) as nat) {
            Some(b) => Some(b),
            None => if twist_slot(named_twist(o, k - 1)) == j {
                Some(k - 1)
            } else {
                None
            },
        }
    }
}

/// The first element (by ID, below `n`) and kind whose named twist is in
/// slot `j`.
pub open spec fn first_naming(j: int, n: nat) -> Option<(int, int)>
    decreases n,
{
    if n == 0 {
        None
    } else {
        match first_naming(j, (n - 1) as nat) {
            Some(p) => Some(p),
            None => match first_kind(n - 1, j, 4) {
                Some(b) => Some((n - 1, b)),
                None => None,
            },
        }
    }
}

/// Name of the twist in slot `j`, from the elements below `n`: the first
/// element that names it wins.
pub open spec fn slot_name_upto(j: int, n: nat) -> Option<Seq<u8>> {
    match first_naming(j, n) {
        Some(p) => Some(twist_label(p.0, p.1)),
        None => None,
    }
}

/// Name of the twist in slot `j`.
pub open spec fn slot_name(j: int) -> Option<Seq<u8>> {
    slot_name_upto(j, 192)
}

/// Name of a twist, if it has one.
pub open spec fn twist_name(t: Twist) -> Option<Seq<u8>> {
    slot_name(twist_slot(t))
}

/// The first slot below `n` whose twist is named `s`.
pub open spec fn first_slot_named(s: Seq<u8>, n: nat) -> Option<int>
    decreases n,
{
    if n == 0 {
        None
    } else {
        match first_slot_named(s, (n - 1) as nat) {
            Some(j) => Some(j),
            None => if slot_name(n - 1) == Some(s) {
                Some(n - 1)
            } else {
                None
            },
        }
    }
}

/// The twist named `s`: the one in the first slot with that name.
pub open spec fn twist_named(s: Seq<u8>) -> Option<Twist> {
    match first_slot_named(s, 1536) {
        Some(j) => Some(twist_in_slot(j)),
        None => None,
    }
}

/// The bytes of an optional byte vector.
pub open spec fn opt_bytes(v: Option<Vec<u8>>) -> Option<Seq<u8>> {
    match v {
        Some(b) => Some(b@),
        None => None,
    }
}

/// ASCII letter naming a grip.
pub fn grip_letter_exec(g: Grip) -> (r: u8)
    ensures
        r == grip_letter(g.spec_id() as int),
{
    let id = g.id();
    if id == 0 {
        82
    } else if id == 1 {
        76
    } else if id == 2 {
        85
    } else if id == 3 {
        68
    } else if id == 4 {
        70
    } else if id == 5 {
        66
    } else if id == 6 {
        79
    } else {
        73
    }
}

/// Appends the letters of the grips in `gs`, in the order used by twist
/// names.
fn push_letters_in_order(out: &mut Vec<u8>, gs: &[Grip])
    ensures
        final(out)@ == old(out)@ + letters_in_order(
            hsc1_order(),
            Set::new(|g: int| exists|k: int| 0 <= k < gs.len() && gs[k].spec_id() == g),
        ),
{
    let order: [u8; 8] = [2, 3, 4, 5, 0, 1, 6, 7];
    let ghost gset = Set::new(|g: int| exists|k: int| 0 <= k < gs.len() && gs[k].spec_id() == g);
    let ghost start = out@;
    let mut i: usize = 0;
    while i < 8
        invariant
            i <= 8,
            forall|k: int| 0 <= k < 8 ==> order[k] as int == #[trigger] hsc1_order()[k],
            out@ == start + letters_in_order(hsc1_order().take(i as int), gset),
            gset == Set::new(|g: int| exists|k: int| 0 <= k < gs.len() && gs[k].spec_id() == g),
        decreases 8 - i,
    {
        let g = order[i];
        let mut found = false;
        let mut k: usize = 0;
        while k < gs.len()
            invariant
                k <= gs.len(),
                found <==> exists|m: int| 0 <= m < k && gs[m].spec_id() == g,
            decreases gs.len() - k,
        {
            if gs[k].id() == g {
                found = true;
            }
            k = k + 1;
        }
        proof {
            let t = hsc1_order().take(i + 1);
            assert(t.drop_last() == hsc1_order().take(i as int));
            assert(t.last() == g as int);
            assert(found == gset.contains(g as int));
        }
        if found {
            out.push(grip_letter_exec(Grip::new(g)));
        }
        proof {
            assert(hsc1_order().take(i + 1).drop_last() == hsc1_order().take(i as int));
        }
        i = i + 1;
    }
    proof {
        assert(hsc1_order().take(8) == hsc1_order());
    }
}

/// Name of the twist of kind `b` seen from `offset`.
fn make_label(offset: Elem, b: usize) -> (r: Vec<u8>)
    requires
        b < 4,
    ensures
        r@ == twist_label(offset.spec_id() as int, b as int),
{
    let i = offset * I();
    let u = offset * U();
    let rg = offset * R();
    let f = offset * F();
    let mut out: Vec<u8> = Vec::new();
    out.push(grip_letter_exec(i));
    if b == 0 {
        out.push(grip_letter_exec(u));
    } else if b == 1 {
        out.push(grip_letter_exec(u));
        out.push(50);
    } else if b == 2 {
        let gs = [u, rg];
        push_letters_in_order(&mut out, &gs);
        proof {
            let s1 = Set::new(|g: int| exists|k: int| 0 <= k < gs@.len() && gs@[k].spec_id() == g);
            let s2 = set![u.spec_id() as int, rg.spec_id() as int];
            assert forall|g: int| s1.contains(g) <==> s2.contains(g) by {
                if g == u.spec_id() {
                    assert(gs@[0].spec_id() == g);
                }
                if g == rg.spec_id() {
                    assert(gs@[1].spec_id() == g);
                }
            }
            assert(s1 == s2);
        }
    } else {
        let gs = [u, rg, f];
        push_letters_in_order(&mut out, &gs);
        proof {
            let s1 = Set::new(|g: int| exists|k: int| 0 <= k < gs@.len() && gs@[k].spec_id() == g);
            let s2 = set![u.spec_id() as int, rg.spec_id() as int, f.spec_id() as int];
            assert forall|g: int| s1.contains(g) <==> s2.contains(g) by {
                if g == u.spec_id() {
                    assert(gs@[0].spec_id() == g);
                }
                if g == rg.spec_id() {
                    assert(gs@[1].spec_id() == g);
                }
                if g == f.spec_id() {
                    assert(gs@[2].spec_id() == g);
                }
            }
            assert(s1 == s2);
        }
    }
    proof {
        let e = Elem::with_id((offset.spec_id() as int) as u8);
        assert((offset.spec_id() as int) as u8 == offset.spec_id());
        assert(e.spec_id() == offset.spec_id());
        assert(e == offset);
    }
    out
}

/// The four kinds of named twists on grip I, in the order in which names
/// are given.
fn base_twists() -> (r: [Twist; 4])
    ensures
        forall|b: int|
            0 <= b < 4 ==> #[trigger] r[b] == base_twist(b),
{
    let xz = XZ();
    let yx = YX();
    let zy = ZY();
    let i = I();
    proof {
        assert(Elem::with_id(2).spec_id() == 2);
        assert(Elem::with_id(13).spec_id() == 13);
        assert(Elem::with_id(84).spec_id() == 84);
        assert(Grip::with_id(7).spec_id() == 7);
        assert(xz == Elem::with_id(2));
        assert(yx == Elem::with_id(13));
        assert(zy == Elem::with_id(84));
        assert(i == Grip::with_id(7));
    }
    let iu = Twist { grip: i, transform: xz };
    let iu2 = Twist { grip: i, transform: xz * xz };
    let iur = Twist { grip: i, transform: yx * xz * xz };
    let iurf = Twist { grip: i, transform: zy * yx };
    [iu, iu2, iur, iurf]
}

/// Names of all twists, by slot (see [`twist_slot`]). Each twist that has a
/// name gets the one given by the first element, in order of ID, that
/// names it.
pub fn twist_names_4d() -> (r: Vec<Option<Vec<u8>>>)
    ensures
        r.len() == TWIST_SLOTS,
        forall|j: int| 0 <= j < TWIST_SLOTS ==> #[trigger] opt_bytes(r[j]) == slot_name(j),
{
    let bases = base_twists();
    let mut r: Vec<Option<Vec<u8>>> = Vec::new();
    let mut j: usize = 0;
    while j < TWIST_SLOTS
        invariant
            j <= TWIST_SLOTS,
            r.len() == j,
            forall|k: int| 0 <= k < j ==> (#[trigger] r[k] is None),
        decreases TWIST_SLOTS - j,
    {
        r.push(None);
        j = j + 1;
    }
    let mut o: u8 = 0;
    while o < 192
        invariant
            o <= 192,
            r.len() == TWIST_SLOTS,
            forall|b: int|
                0 <= b < 4 ==> #[trigger] bases[b] == base_twist(b),
            forall|k: int| 0 <= k < TWIST_SLOTS ==> #[trigger] opt_bytes(r[k]) == slot_name_upto(k, o as nat),
        decreases 192 - o,
    {
        let offset = Elem::new(o);
        let mut b: usize = 0;
        while b < 4
            invariant
                o < 192,
                b <= 4,
                offset == Elem::with_id(o),
                r.len() == TWIST_SLOTS,
                forall|c: int|
                    0 <= c < 4 ==> #[trigger] bases[c] == base_twist(c),
                forall|k: int|
                    0 <= k < TWIST_SLOTS ==> #[trigger] opt_bytes(r[k]) == match first_naming(k, o as nat) {
                        Some(p) => Some(twist_label(p.0, p.1)),
                        None => match first_kind(o as int, k, b as nat) {
                            Some(c) => Some(twist_label(o as int, c)),
                            None => None,
                        },
                    },
            decreases 4 - b,
        {
            let t = offset.transform(bases[b]);
            let slot = t.grip.id() as usize * 192 + t.transform.id() as usize;
            proof {
                assert((o as int) as u8 == o);
                assert(t == named_twist(o as int, b as int));
                assert(slot == twist_slot(named_twist(o as int, b as int)));
            }
            let empty = r[slot].is_none();
            let ghost old_r = r;
            if empty {
                let label = make_label(offset, b);
                r.set(slot, Some(label));
            }
            proof {
                assert forall|k: int| 0 <= k < TWIST_SLOTS implies #[trigger] opt_bytes(r[k]) == match first_naming(
                    k,
                    o as nat,
                ) {
                    Some(p) => Some(twist_label(p.0, p.1)),
                    None => match first_kind(o as int, k, (b + 1) as nat) {
                        Some(c) => Some(twist_label(o as int, c)),
                        None => None,
                    },
                } by {
                    assert(opt_bytes(old_r[k]) == opt_bytes(old_r[k]));
                    if k != slot {
                        assert(r[k] == old_r[k]);
                    }
                    assert(first_kind(o as int, k, (b + 1) as nat) == match first_kind(o as int, k, b as nat) {
                        Some(c) => Some(c),
                        None => if twist_slot(named_twist(o as int, b as int)) == k {
                            Some(b as int)
                        } else {
                            None
                        },
                    });
                }
            }
            b = b + 1;
        }
        proof {
            assert forall|k: int| 0 <= k < TWIST_SLOTS implies #[trigger] opt_bytes(r[k]) == slot_name_upto(
                k,
                (o + 1) as nat,
            ) by {
                assert(first_naming(k, (o + 1) as nat) == match first_naming(k, o as nat) {
                    Some(p) => Some(p),
                    None => match first_kind(o as int, k, 4) {
                        Some(c) => Some((o as int, c)),
                        None => None,
                    },
                });
            }
        }
        o = o + 1;
    }
    r
}

/// The twist named `name` in a table of twist names: the one in the first
/// slot with that name.
pub fn find_named_twist(names: &Vec<Option<Vec<u8>>>, name: &[u8]) -> (r: Option<Twist>)
    requires
        names.len() == TWIST_SLOTS,
        forall|j: int| 0 <= j < TWIST_SLOTS ==> #[trigger] opt_bytes(names[j]) == slot_name(j),
    ensures
        r == twist_named(name@),
{
    let mut j: usize = 0;
    while j < TWIST_SLOTS
        invariant
            j <= TWIST_SLOTS,
            names.len() == TWIST_SLOTS,
            forall|k: int| 0 <= k < TWIST_SLOTS ==> #[trigger] opt_bytes(names[k]) == slot_name(k),
            (first_slot_named(name@, j as nat) is None),
        decreases TWIST_SLOTS - j,
    {
        let hit = match &names[j] {
            Some(v) => bytes_equal(v.as_slice(), name),
            None => false,
        };
        proof {
            assert(opt_bytes(names[j as int]) == slot_name(j as int));
            assert(hit == (slot_name(j as int) == Some(name@)));
        }
        if hit {
            let t = Twist { grip: Grip::new((j / 192) as u8), transform: Elem::new((j % 192) as u8) };
            proof {
                lemma_first_slot_named_stays(name@, (j + 1) as nat, 1536);
                let ts = twist_in_slot(j as int);
                assert(ts.grip.spec_id() == ((j as int) / 192) as u8);
                assert(ts.transform.spec_id() == ((j as int) % 192) as u8);
                assert(t.grip == ts.grip);
                assert(t.transform == ts.transform);
                assert(t == twist_in_slot(j as int));
            }
            return Some(t);
        }
        j = j + 1;
    }
    None
}

/// Once a slot with a name is found, later bounds find the same one.
proof fn lemma_first_slot_named_stays(s: Seq<u8>, n: nat, m: nat)
    requires
        n <= m,
        first_slot_named(s, n) is Some,
    ensures
        first_slot_named(s, m) == first_slot_named(s, n),
    decreases m - n,
{
    if n < m {
        lemma_first_slot_named_stays(s, n, (m - 1) as nat);
    }
}

/// The twists named by `ws`; `None` if a word names no twist.
pub open spec fn twists_named(ws: Seq<Seq<u8>>) -> Option<Seq<Twist>>
    decreases ws.len(),
{
    if ws.len() == 0 {
        Some(seq![])
    } else {
        match (twists_named(ws.drop_last()), twist_named(ws.last())) {
            (Some(ts), Some(t)) => Some(ts.push(t)),
            _ => None,
        }
    }
}

/// Reads a space-separated list of twist names. Every word must name a
/// twist.
pub fn parse_twists(s: &[u8]) -> (r: Vec<Twist>)
    requires
        twists_named(words(s@)) is Some,
    ensures
        twists_named(words(s@)) == Some(r@),
{
    let names = twist_names_4d();
    let ws = split_words(s);
    let ghost wv = words(s@);
    let mut r: Vec<Twist> = Vec::new();
    let mut i: usize = 0;
    proof {
        assert(wv.take(0) =~= Seq::<Seq<u8>>::empty());
        assert(r@ =~= Seq::<Twist>::empty());
    }
    while i < ws.len()
        invariant
            i <= ws.len(),
            wv == words(s@),
            ws.len() == wv.len(),
            forall|k: int| 0 <= k < ws.len() ==> (#[trigger] ws[k])@ == wv[k],
            names.len() == TWIST_SLOTS,
            forall|j: int| 0 <= j < TWIST_SLOTS ==> #[trigger] opt_bytes(names[j]) == slot_name(j),
            twists_named(wv.take(i as int)) == Some(r@),
            twists_named(wv) is Some,
        decreases ws.len() - i,
    {
        proof {
            assert(wv.take(i + 1).drop_last() == wv.take(i as int));
            assert(wv.take(i + 1).last() == ws[i as int]@);
        }
        match find_named_twist(&names, ws[i].as_slice()) {
            Some(t) => {
                r.push(t);
            },
            None => {
                proof {
                    lemma_twists_named_none(wv, i + 1);
                    assert(false);
                }
                return r;
            },
        }
        i = i + 1;
    }
    proof {
        assert(wv.take(ws.len() as int) == wv);
    }
    r
}

/// Once a word names no twist, no longer list of words is read.
proof fn lemma_twists_named_none(ws: Seq<Seq<u8>>, n: int)
    requires
        0 < n <= ws.len(),
        twists_named(ws.take(n)) is None,
    ensures
        twists_named(ws) is None,
    decreases ws.len() - n,
{
    if n < ws.len() {
        assert(ws.take(n + 1).drop_last() == ws.take(n));
        lemma_twists_named_none(ws, n + 1);
    } else {
        assert(ws.take(n) == ws);
    }
}

/// The first slot below `n` named `s` is named `s`, and there is one as soon
/// as some slot below `n` is named `s`.
proof fn lemma_first_slot_named(s: Seq<u8>, n: nat, j: int)
    ensures
        first_slot_named(s, n) matches Some(k) ==> 0 <= k < n && slot_name(k) == Some(s),
        0 <= j < n && slot_name(j) == Some(s) ==> first_slot_named(s, n) is Some,
    decreases n,
{
    if n > 0 {
        lemma_first_slot_named(s, (n - 1) as nat, j);
    }
}

/// Reading a name and naming the twist read gives the name back; and a twist
/// that has a name is found by that name.
pub proof fn lemma_names_read_back(s: Seq<u8>, t: Twist)
    requires
        t.grip.spec_id() < 8,
        t.transform.spec_id() < 192,
    ensures
        twist_named(s) matches Some(u) ==> twist_name(u) == Some(s),
        twist_name(t) matches Some(n) ==> twist_named(n) is Some,
{
    lemma_first_slot_named(s, 1536, 0);
    if let Some(k) = first_slot_named(s, 1536) {
        let u = twist_in_slot(k);
        assert(twist_slot(u) == k);
    }
    if let Some(n) = twist_name(t) {
        lemma_first_slot_named(n, 1536, twist_slot(t));
    }
}

impl Twist {
    /// The twist with the given name, if any.
    pub fn from_name(name: &[u8]) -> (r: Option<Twist>)
        ensures
            r == twist_named(name@),
    {
        let names = twist_names_4d();
        find_named_twist(&names, name)
    }

    /// The name of the twist, if it has one.
    pub fn name(self) -> (r: Option<Vec<u8>>)
        ensures
            opt_bytes(r) == twist_name(self),
    {
        let mut names = twist_names_4d();
        let slot = self.grip.id() as usize * 192 + self.transform.id() as usize;
        proof {
            assert(opt_bytes(names[slot as int]) == slot_name(slot as int));
        }
        names.swap_remove(slot)
    }
}

} // verus!
