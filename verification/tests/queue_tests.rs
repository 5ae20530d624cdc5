use minobot::garbage::next_hole;
use minobot::{HoleSource, PieceQueue, PieceType, RandomPieceQueue};

fn sorted(mut kinds: Vec<PieceType>) -> Vec<u8> {
    let mut tags: Vec<u8> = kinds
        .drain(..)
        .map(|k| match k {
            PieceType::J => 0,
            PieceType::L => 1,
            PieceType::S => 2,
            PieceType::T => 3,
            PieceType::Z => 4,
            PieceType::I => 5,
            PieceType::O => 6,
        })
        .collect();
    tags.sort();
    tags
}

#[test]
fn every_bag_holds_each_kind_once() {
    for seed in [[0u8; 16], [1u8; 16], [0xa5u8; 16]] {
        let mut queue = RandomPieceQueue::new(seed, 5);
        assert_eq!(queue.max_previews(), 5);
        let mut taken = Vec::new();
        for _ in 0..70 {
            taken.push(queue.take());
        }
        for bag in taken.chunks(7) {
            assert_eq!(sorted(bag.to_vec()), vec![0, 1, 2, 3, 4, 5, 6]);
        }
    }
}

#[test]
fn take_hands_out_what_was_shown() {
    let mut queue = RandomPieceQueue::new([7u8; 16], 3);
    for _ in 0..20 {
        let shown = [queue.get(0), queue.get(1), queue.get(2)];
        assert_eq!(queue.take(), shown[0]);
        assert_eq!(queue.get(0), shown[1]);
        assert_eq!(queue.get(1), shown[2]);
    }
}

#[test]
fn same_seed_same_pieces() {
    let mut a = RandomPieceQueue::new([3u8; 16], 4);
    let mut b = RandomPieceQueue::new([3u8; 16], 4);
    for _ in 0..30 {
        assert_eq!(a.take(), b.take());
    }
}

#[test]
fn queue_without_previews() {
    let queue = RandomPieceQueue::new([0u8; 16], 0);
    assert_eq!(queue.max_previews(), 0);
}

#[test]
fn next_hole_keeps_or_leaves_the_column() {
    assert_eq!(next_hole(None, false, 7), 7);
    assert_eq!(next_hole(None, true, 0), 0);
    assert_eq!(next_hole(Some(4), false, 0), 4);
    assert_eq!(next_hole(Some(4), true, 0), 0);
    assert_eq!(next_hole(Some(4), true, 3), 3);
    assert_eq!(next_hole(Some(4), true, 4), 5);
    assert_eq!(next_hole(Some(4), true, 8), 9);
    assert_eq!(next_hole(Some(0), true, 0), 1);
    assert_eq!(next_hole(Some(9), true, 8), 8);
}

#[test]
fn holes_are_columns() {
    let mut source = HoleSource::new([9u8; 16]);
    let holes = source.holes(200, 3);
    assert_eq!(holes.len(), 200);
    assert!(holes.iter().all(|&h| (0..10).contains(&h)));
    let changes = holes.windows(2).filter(|w| w[0] != w[1]).count();
    assert!(changes > 20 && changes < 110);
    assert!(source.holes(0, 3).is_empty());
}

#[test]
fn holes_never_or_always_change() {
    let mut source = HoleSource::new([2u8; 16]);
    let holes = source.holes(50, 0);
    assert!(holes.iter().all(|&h| h == holes[0]));
    let holes = source.holes(50, 10);
    assert!(holes.windows(2).all(|w| w[0] != w[1]));
}

#[test]
fn same_seed_same_holes() {
    let mut first = HoleSource::new([5u8; 16]);
    let mut second = HoleSource::new([5u8; 16]);
    assert_eq!(first.holes(60, 3), second.holes(60, 3));
    let mut other = HoleSource::new([6u8; 16]);
    assert_ne!(HoleSource::new([5u8; 16]).holes(60, 3), other.holes(60, 3));
}
