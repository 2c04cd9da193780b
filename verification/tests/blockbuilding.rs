use robodoan::sim::blockbuilding::block::rev9;
use robodoan::sim::blockbuilding::{Block, BlockList, BlockListMeta, PackedLayers};
use robodoan::sim::common::{elements, grips, Elem, Twist};

#[test]
fn block_test_rev9() {
    assert_eq!(rev9(0x001), 0x100);
    assert_eq!(rev9(0x011), 0x110);
    assert_eq!(rev9(0x111), 0x111);
    assert_eq!(rev9(0x110), 0x011);
    assert_eq!(rev9(0x100), 0x001);
    assert_eq!(rev9(0x010), 0x010);
}

#[test]
fn test_merge_core_center() {
    let core = Block::from_layer_bits(0x0F0); // core
    let mut center = Block::from_layer_bits(0x0E1); // R center
    let merged = Block::from_layer_bits(0xF1);
    assert_eq!(Block::merge(core, center), merged);
    center = elements::YZ() * center;
    assert_eq!(Block::merge(core, center), merged.with_attitude(elements::YZ()));
}

#[test]
fn test_merge_center_ridge() {
    let mut center = Block::from_layer_bits(0x0F1); // core + R center
    let mut ridge = Block::from_layer_bits(0xD3); // U center + RU ridge
    let merged = Block::from_layer_bits(0xF3);
    assert_eq!(Block::merge(center, ridge), merged);
    center = elements::YZ() * center; // keeps X fixed
    ridge = elements::ZW() * ridge; // keeps XY fixed
    assert_eq!(Block::merge(center, ridge), elements::ZW() * merged);
    ridge = elements::XW() * ridge; // keeps Y fixed, but moves X
    assert_eq!(Block::merge(center, ridge), Block::empty());
}

#[test]
fn test_merge_ridge_edge() {
    let mut ridge = Block::from_layer_bits(0xD3); // U center + RU ridge
    let mut edge = Block::from_layer_bits(0x5B); // UI ridge + RUI edge
    let merged = Block::from_layer_bits(0xDB);
    assert_eq!(Block::merge(ridge, edge), merged);
    ridge = elements::WZ() * ridge; // ZW is indistinguishable on ridge
    assert_eq!(Block::merge(ridge, edge), merged);
    edge = elements::ZW() * edge; // ZW is indistinguishable on ridge
    assert_eq!(Block::merge(ridge, edge), elements::ZW() * merged);
    ridge = elements::XW() * ridge; // keeps Z (previously Y) fixed
    edge = elements::XW() * edge;
    assert_eq!(Block::merge(ridge, edge), elements::XW() * elements::ZW() * merged);
}

#[test]
fn test_block_list_meta_twist_count() {
    let r = grips::R();
    let l = grips::L();
    let u = grips::U();
    let d = grips::D();

    let mut m = BlockListMeta::default();
    assert_eq!(m.twist_count(), 0);
    m.count_twist_on_grip(r);
    assert_eq!(m.twist_count(), 1);
    m.count_twist_on_grip(r);
    assert_eq!(m.twist_count(), 1);
    m.count_twist_on_grip(l);
    assert_eq!(m.twist_count(), 2);
    m.count_twist_on_grip(r);
    assert_eq!(m.twist_count(), 2);
    m.count_twist_on_grip(u);
    assert_eq!(m.twist_count(), 3);
    m.count_twist_on_grip(r);
    assert_eq!(m.twist_count(), 4);
    m.count_twist_on_grip(d);
    assert_eq!(m.twist_count(), 5);
    m.count_twist_on_grip(u);
    assert_eq!(m.twist_count(), 6);
    m.count_twist_on_grip(u);
    assert_eq!(m.twist_count(), 6);
    m.count_twist_on_grip(d);
    assert_eq!(m.twist_count(), 6);
}

#[test]
fn block_list_test_add_block() {
    let init_block = Block::from_layer_bits(0x0FF);
    let state = BlockList::default().add_block_with_setup_moves(&[], init_block);
    assert_eq!(state.len(), 1);
    assert_eq!(state.blocks()[0], init_block);

    let ru = Twist::new(grips::R(), elements::WZ());
    let ir = Twist::new(grips::I(), elements::ZY());
    let state = BlockList::default().add_block_with_setup_moves(&[ru, ir], init_block);
    assert_eq!(state.len(), 3);
}

#[test]
fn block_list_test_merge_2223() {
    let head = Block::from_layer_bits(0xc73);
    let body = Block::from_layer_bits(0x4fb);
    let mut list = BlockList::default();
    list.push(body).unwrap();
    list.push(head).unwrap();
    list.cleanup();
    assert_eq!(list.len(), 1);
}

#[test]
fn cleanup_is_idempotent() {
    let ru = Twist::new(grips::R(), elements::WZ());
    let ir = Twist::new(grips::I(), elements::ZY());
    let state = BlockList::default().add_block_with_setup_moves(&[ru, ir], Block::from_layer_bits(0x0FF));
    let mut again = state;
    again.cleanup();
    assert!(again.same_as(&state));
}

#[test]
fn twist_keeps_pieces_and_counts() {
    let block = Block::from_layer_bits(0x0FF);
    let state = BlockList::default().add_block_with_setup_moves(&[], block);
    let ru = Twist::new(grips::R(), elements::WZ());
    let twisted = state.twist(ru);
    // The R layer leaves the block: one block becomes two.
    assert_eq!(twisted.len(), 2);
    assert_eq!(twisted.twist_count(), 1);
    let back = twisted.twist(ru.inv());
    assert_eq!(back.len(), 1);
    assert_eq!(back.twist_count(), 1);
    let total: u32 = back.blocks().iter().map(|b| b.piece_count()).sum();
    assert_eq!(total, block.piece_count());
}

#[test]
fn push_overflows_at_26() {
    let mut list = BlockList::empty();
    for _ in 0..26 {
        assert!(list.push(Block::from_layer_bits(0x001)).is_ok());
    }
    assert!(list.push(Block::from_layer_bits(0x001)).is_err());
    assert_eq!(list.len(), 26);
}

#[test]
fn blocks_with_inner_rank_lists_by_rank() {
    let mut list = BlockList::empty();
    list.push(Block::from_layer_bits(0x0F0)).unwrap(); // core, rank 0
    list.push(Block::from_layer_bits(0x0E1)).unwrap(); // center, rank 1
    assert_eq!(list.blocks_with_inner_rank(0), vec![Block::from_layer_bits(0x0F0)]);
    assert_eq!(list.blocks_with_inner_rank(1), vec![Block::from_layer_bits(0x0E1)]);
    assert!(list.blocks_with_inner_rank(4).is_empty());
    list.cleanup();
    assert_eq!(list.blocks(), vec![Block::from_layer_bits(0x0F1)]);
}

#[test]
fn test_transform_layer_mask() {
    let layers = PackedLayers::from_u16(0b_0111_0100_0010_0110);
    assert_eq!(elements::IDENT() * layers, layers);
    for t1 in Elem::iter_all() {
        for t2 in Elem::iter_all() {
            assert_eq!(t1 * (t2 * layers), (t1 * t2) * layers);
        }
    }
}

fn grip_bits(x: u16, g: u8) -> u16 {
    let bits = (x >> (4 * (g / 2))) & 7;
    if g % 2 == 0 {
        bits
    } else {
        ((bits & 1) << 2) | (bits & 2) | ((bits >> 2) & 1)
    }
}

fn check_merge_layers(xs: [usize; 8]) {
    let axis_options: [u16; 6] = [0b001, 0b010, 0b100, 0b011, 0b110, 0b111];
    let b1 = axis_options[xs[0]] | (axis_options[xs[0]] << 4) | (axis_options[xs[1]] << 8) | (axis_options[xs[2]] << 12);
    let b2 = axis_options[xs[4]] | (axis_options[xs[5]] << 4) | (axis_options[xs[6]] << 8) | (axis_options[xs[7]] << 12);
    if b1 == b2 {
        return;
    }
    let l1 = PackedLayers::from_u16(b1);
    let l2 = PackedLayers::from_u16(b2);
    let differing: Vec<u8> = (0..4u8).filter(|&a| (b1 >> (4 * a)) & 7 != (b2 >> (4 * a)) & 7).collect();
    let merge_grip = if differing.len() == 1 {
        let a = differing[0];
        [2 * a, 2 * a + 1].into_iter().find(|&g| {
            (grip_bits(b1, g) == 0b001 && grip_bits(b2, g) & 0b011 == 0b010)
                || (grip_bits(b2, g) == 0b001 && grip_bits(b1, g) & 0b011 == 0b010)
        })
    } else {
        None
    };
    let expected = merge_grip.map(|g| ((l1 | l2).to_u16(), (g / 2) as usize));
    let actual = l1.try_merge_with(l2).map(|(l, a)| (l.to_u16(), a));
    assert_eq!(expected, actual, "{xs:?}");
}

#[test]
fn merge_layers_on_all_axis_options() {
    for a in 0..6 {
        for b in 0..6 {
            for c in 0..6 {
                for d in 0..6 {
                    for e in 0..6 {
                        for f in 0..6 {
                            for g in 0..6 {
                                check_merge_layers([a, b, c, 0, d, e, f, g]);
                            }
                        }
                    }
                }
            }
        }
    }
}

#[test]
fn moved_layers_compose() {
    let layers = PackedLayers::from_u16(0b_0001_0011_0110_0111);
    let xy = elements::XY();
    let moved = xy * layers;
    assert_ne!(moved, layers);
    let mut back = moved;
    for _ in 0..3 {
        back = xy * back;
    }
    assert_eq!(back, layers);
    assert_eq!(Elem::iter_all().len(), 192);
}

#[test]
fn twist_then_inverse_gives_the_pieces_back() {
    let ru = Twist::new(grips::R(), elements::WZ());
    let ir = Twist::new(grips::I(), elements::ZY());
    let state = BlockList::default().add_block_with_setup_moves(&[ru, ir], Block::from_layer_bits(0x0FF));
    for tw in robodoan::sim::common::all_twists() {
        let back = state.twist(tw).twist(tw.inv());
        assert_eq!(back.blocks(), state.blocks(), "{tw:?}");
    }
}

#[test]
fn twist_turns_the_pieces_of_its_layer() {
    // A single corner piece: R, U, F, O.
    let corner = Block::from_layer_bits(0x00F);
    let state = BlockList::default().add_block_with_setup_moves(&[], corner);
    assert_eq!(state.blocks(), vec![corner]);
    // A twist of I leaves it alone; a twist of R turns it.
    let ir = Twist::new(grips::I(), elements::ZY());
    assert_eq!(state.twist(ir).blocks(), vec![corner]);
    let ru = Twist::new(grips::R(), elements::WZ());
    let turned = state.twist(ru).blocks();
    assert_eq!(turned.len(), 1);
    assert_eq!(turned[0].attitude(), elements::WZ());
    // Setting the piece up with the same twist gives the same block.
    let set_up = BlockList::default().add_block_with_setup_moves(&[ru], corner);
    assert_eq!(set_up.blocks(), turned);
}

#[test]
fn split_parts_hold_the_pieces_of_the_block() {
    for bits in 1u16..4096 {
        let b = robodoan::sim::blockbuilding::Block::from_layer_bits(bits);
        for g in robodoan::sim::common::Grip::all() {
            let [a, i] = b.split(g);
            assert_eq!(a.piece_count() + i.piece_count(), b.piece_count());
            let every_axis = (0..4).all(|ax| bits & (0x111u16 << ax) != 0);
            if every_axis {
                assert!(!(a.is_empty() && i.is_empty()));
                if a.is_empty() {
                    assert_eq!(i, b);
                }
                if i.is_empty() {
                    assert_eq!(a, b);
                }
                let whole_active = a == b && i.is_empty();
                assert_eq!(b.active_grips().contains(g), whole_active);
            }
        }
    }
}

#[test]
fn inactive_grips_move_with_the_block() {
    for bits in [0x001u16, 0x111, 0x0f3, 0x7ff, 0x249, 0xfff] {
        let b = robodoan::sim::blockbuilding::Block::from_layer_bits(bits);
        for e in robodoan::sim::common::Elem::iter_all() {
            for g in robodoan::sim::common::Grip::all() {
                assert_eq!((e * b).is_grip_inactive(e * g), b.is_grip_inactive(g));
            }
        }
    }
}
