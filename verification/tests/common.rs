use robodoan::sim::common::elements;
use robodoan::sim::common::grips;
use robodoan::sim::common::vector::Vec4;
use robodoan::sim::common::{Axis, Elem, Grip, GripSet};

#[test]
fn axis_test_mul_elem_axis() {
    for e in Elem::iter_all() {
        for a in Axis::all() {
            assert_eq!(e * a, (e * a.grips()[0]).axis())
        }
    }
}

#[test]
fn mod_test_mul_elem_axis() {
    for e in Elem::iter_all() {
        for a in Axis::all() {
            assert_eq!(e * a, (e * a.pos_grip()).axis())
        }
    }
}

#[test]
fn test_grip_set_unwrap() {
    for g1 in Grip::all() {
        let one = GripSet::from_grips(&[g1]);
        assert_eq!(one.exactly_one(), Some(g1));
        assert_eq!(one.exactly_two(), None);
        for g2 in Grip::all() {
            if g1 < g2 {
                let two = GripSet::from_grips(&[g1, g2]);
                assert_eq!(two.exactly_one(), None);
                assert_eq!(two.exactly_two(), Some([g1, g2]));
            }
        }
    }
}

#[test]
fn test_grip_set_opposite() {
    for bits in u8::MIN..=u8::MAX {
        let grips = GripSet::from_bits(bits);
        let expected: Vec<Grip> = grips.iter().into_iter().map(|g| g.opposite()).collect();
        let expected = GripSet::from_grips(&expected);
        let actual = grips.opposites();
        assert_eq!(actual, expected)
    }
}

#[test]
fn elements_act_on_grips() {
    let yz = elements::YZ();
    assert_eq!(yz * grips::R(), grips::R());
    assert_eq!(yz * grips::U(), grips::F());
    assert_eq!(elements::IDENT() * grips::O(), grips::O());
    assert_eq!(Elem::iter_all().len(), 192);
    for e in Elem::iter_all() {
        assert_eq!(e * e.inv(), Elem::ident());
    }
}

#[test]
fn test_simple_rotations() {
    let x = Vec4::new(1, 0, 0, 0);
    let y = Vec4::new(0, 1, 0, 0);
    let z = Vec4::new(0, 0, 1, 0);
    let w = Vec4::new(0, 0, 0, 1);
    let neg = |v: Vec4| Vec4::new(-v.x, -v.y, -v.z, -v.w);
    for (elem, init, expected) in [
        (elements::IDENT(), [x, y, z, w], [x, y, z, w]),
        (elements::XY(), [x, y, z, w], [y, neg(x), z, w]),
        (elements::XZ(), [x, y, z, w], [z, y, neg(x), w]),
        (elements::XW(), [x, y, z, w], [w, y, z, neg(x)]),
        (elements::YX(), [x, y, z, w], [neg(y), x, z, w]),
        (elements::ZX(), [x, y, z, w], [neg(z), y, x, w]),
        (elements::WX(), [x, y, z, w], [neg(w), y, z, x]),
        (elements::YZ(), [x, y, z, w], [x, z, neg(y), w]),
        (elements::YW(), [x, y, z, w], [x, w, z, neg(y)]),
        (elements::ZY(), [x, y, z, w], [x, neg(z), y, w]),
        (elements::WY(), [x, y, z, w], [x, neg(w), z, y]),
        (elements::ZW(), [x, y, z, w], [x, y, w, neg(z)]),
        (elements::WZ(), [x, y, z, w], [x, y, neg(w), z]),
    ] {
        for (a, b) in init.into_iter().zip(expected) {
            assert_eq!(elem * a, b);
        }
    }
}

#[test]
fn moved_vectors_follow_the_grips() {
    let v = Vec4::new(1, -2, 3, -4);
    for e in Elem::iter_all() {
        let moved = e * v;
        for a in Axis::all() {
            let g = e * a.pos_grip();
            let c = v.get(a.id());
            let expected = if g.is_pos() { c } else { -c };
            assert_eq!(moved.get(g.axis().id()), expected);
        }
    }
}

#[test]
fn inverse_undoes_every_element() {
    let ident = Elem::iter_all()[0];
    for e in Elem::iter_all() {
        assert_eq!(e * e.inv(), ident);
        assert_eq!(e.inv() * e, ident);
        assert_eq!(e.inv().inv(), e);
        for g in Grip::all() {
            assert_eq!(e.inv() * (e * g), g);
        }
    }
}

#[test]
fn all_twists_are_every_twist_of_each_grip_in_order() {
    let all = robodoan::sim::common::all_twists();
    assert_eq!(all.len(), 8 * 23);
    for w in all.windows(2) {
        let ka = (w[0].grip.id(), w[0].transform.id());
        let kb = (w[1].grip.id(), w[1].transform.id());
        assert!(ka < kb);
    }
    let mut expected = Vec::new();
    for g in Grip::all() {
        expected.extend(g.twists());
    }
    assert_eq!(all, expected);
}

#[test]
fn element_ids_follow_the_breadth_first_order() {
    let codes = robodoan::sim::common::group::generate_rotation_codes();
    assert_eq!(codes.len(), 192);
    for id in 0..192u8 {
        assert_eq!(codes[id as usize], robodoan::sim::common::table::code_of_id(id));
    }
}
