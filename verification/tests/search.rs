use rand::rngs::SmallRng;
use rand::SeedableRng;
use robodoan::search::heuristic::Heuristic;
use robodoan::search::meta::SolutionMetadata;
use robodoan::search::params::{BlockBuildingSearchParams, Targets};
use robodoan::search::segment::{Segment, SegmentId, SegmentStore};
use robodoan::search::{dfs_blockbuild, sort_dedup_truncate};
use robodoan::sim::blockbuilding::{Block, BlockList};
use robodoan::sim::common::twist::{all_twists, random_twists};
use robodoan::sim::common::{elements, grips, Twist};

#[test]
fn targets_select() {
    assert_eq!(Targets::Simple.select(1, 5), 1);
    assert_eq!(Targets::CutCorners.select(1, 5), 5);
    assert_eq!(Targets::default(), Targets::Simple);
}

#[test]
fn default_params() {
    let p = BlockBuildingSearchParams::default();
    assert_eq!(p.max_depth, 4);
    assert_eq!(p.parallel_depth, 2);
    assert_eq!(p.solution_count_targets, [1_000_000, 10_000, 5_000, 500, 50]);
    assert_eq!(p.heuristic, Heuristic::Fast);
}

#[test]
fn stage_continuations() {
    let m = SolutionMetadata::default();
    let s1 = m.stage1();
    assert_eq!(s1.len(), 16);
    for (block, meta) in &s1 {
        assert_eq!(meta.stage, 1);
        assert_eq!(meta.left_blocked_grips.len(), 4);
        assert_eq!(block.piece_count(), 16);
    }
    let (_, m1) = s1[0];
    let s2 = m1.stage2();
    assert_eq!(s2.len(), 4);
    assert_eq!(s2[0].1.stage, 2);
    assert_eq!(s2[0].1.left_blocked_grips.len(), 5);
}

#[test]
fn segment_twists_chain() {
    let store = SegmentStore::new(vec![Twist::new(grips::R(), elements::WZ())]);
    assert_eq!(store.next_step(), 1);
    assert_eq!(store.segment_ids_for_step(0), &[SegmentId(0)]);
    assert!(store.segment_ids_for_step(5).is_empty());
    assert_eq!(store.all_prior_twists_for_segment(SegmentId(0)).len(), 1);
    assert!(store.solution_twists_for_segment(SegmentId(0)).is_empty());
}

#[test]
fn segment_store_add_and_chain() {
    let mut store = SegmentStore::new(vec![]);
    let block = Block::from_layer_bits(0x0FF);
    let base = Segment::default().push_block(&[], block, SolutionMetadata::default()).unwrap();
    let ru = Twist::new(grips::R(), elements::WZ());
    let first = base.push_twist(ru).unwrap();
    store.add_segments(1, vec![first]);
    assert_eq!(store.segment_count(), 2);
    let second = store.get(SegmentId(1)).next_step(SegmentId(1)).push_twist(ru.inv()).unwrap();
    store.add_segments(3, vec![second]);
    assert_eq!(store.next_step(), 4);
    assert!(store.segment_ids_for_step(2).is_empty());
    assert_eq!(store.solution_twists_for_segment(SegmentId(2)), vec![ru, ru.inv()]);
    assert_eq!(store.best_solutions_so_far().unwrap(), &vec![SegmentId(2)]);
}

#[test]
fn dfs_finds_the_undoing_twist() {
    let block = Block::from_layer_bits(0x0FF);
    let ru = Twist::new(grips::R(), elements::WZ());
    let scrambled = BlockList::default().add_block_with_setup_moves(&[ru], block);
    assert_eq!(scrambled.len(), 2);
    let mut start = Segment::default();
    start.state = scrambled;
    let mut found = vec![];
    dfs_blockbuild(BlockBuildingSearchParams::default(), 1, 1, &mut found, start);
    assert!(!found.is_empty());
    for s in &found {
        assert_eq!(s.state.len(), 1);
        assert_eq!(s.segment_twists.len(), 1);
        assert_eq!(s.segment_twists.get(0).grip, grips::R());
    }
}

#[test]
fn sorting_segments() {
    let block = Block::from_layer_bits(0x0FF);
    let base = Segment::default().push_block(&[], block, SolutionMetadata::default()).unwrap();
    let a = base.push_twist(Twist::new(grips::R(), elements::WZ())).unwrap();
    let b = base.clone();
    let sorted = sort_dedup_truncate(vec![a.clone(), b.clone(), b.clone()], 10);
    assert_eq!(sorted.len(), 2);
    assert_eq!(sorted[0].state.twist_count(), 0);
    assert_eq!(sorted[1].state.twist_count(), 1);
    let truncated = sort_dedup_truncate(vec![a, b], 1);
    assert_eq!(truncated.len(), 1);
    assert_eq!(truncated[0].state.twist_count(), 0);
}

#[test]
fn heuristic_limits() {
    let block = Block::from_layer_bits(0x0FF);
    let ru = Twist::new(grips::R(), elements::WZ());
    let scrambled = BlockList::default().add_block_with_setup_moves(&[ru], block);
    assert!(Heuristic::Fast.might_be_solvable(&scrambled, 1, 1));
    assert!(Heuristic::TrivialCorrect.might_be_solvable(&scrambled, 1, 1));
    assert!(!Heuristic::Fast.might_be_solvable(&scrambled, 0, 0));
}

#[test]
fn random_twists_draw_from_all_twists() {
    let all = all_twists();
    let mut rng = SmallRng::seed_from_u64(7);
    let twists = random_twists(&mut rng, 30);
    assert_eq!(twists.len(), 30);
    for t in &twists {
        assert!(all.contains(t));
    }
    assert!(twists.iter().any(|t| *t != twists[0]));
}

#[test]
fn sort_dedup_truncate_keeps_equal_keys_in_input_order() {
    let base = Segment::default();
    let a = base.clone();
    let mut b = base.clone();
    b.meta.stage = 1;
    let mut c = base.clone();
    c.meta.stage = 2;
    // All three have equal sort keys; the stable sort keeps them in input
    // order, and adjacent duplicates of `b` are dropped.
    let r = sort_dedup_truncate(vec![c.clone(), b.clone(), b.clone(), a.clone()], 10);
    assert_eq!(r.len(), 3);
    assert!(r[0].same_as(&c) && r[1].same_as(&b) && r[2].same_as(&a));
    let r = sort_dedup_truncate(vec![c.clone(), b.clone(), a.clone()], 2);
    assert_eq!(r.len(), 2);
    assert!(r[0].same_as(&c) && r[1].same_as(&b));
}
