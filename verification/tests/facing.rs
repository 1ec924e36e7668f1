use redstone_simulator::facing::Facing;

#[test]
fn reverse_swaps_opposites() {
    assert_eq!(Facing::North.reverse(), Facing::South);
    assert_eq!(Facing::South.reverse(), Facing::North);
    assert_eq!(Facing::East.reverse(), Facing::West);
    assert_eq!(Facing::West.reverse(), Facing::East);
    assert_eq!(Facing::Up.reverse(), Facing::Down);
    assert_eq!(Facing::Down.reverse(), Facing::Up);
}

#[test]
fn reverse_twice_is_identity() {
    for f in Facing::all() {
        assert_eq!(f.reverse().reverse(), f);
    }
}

#[test]
fn rotate_right_cycles_north_east_south_west() {
    assert_eq!(Facing::North.rotate_right(), Facing::East);
    assert_eq!(Facing::East.rotate_right(), Facing::South);
    assert_eq!(Facing::South.rotate_right(), Facing::West);
    assert_eq!(Facing::West.rotate_right(), Facing::North);
}

#[test]
fn rotate_left_cycles_the_other_way() {
    assert_eq!(Facing::North.rotate_left(), Facing::West);
    assert_eq!(Facing::West.rotate_left(), Facing::South);
    assert_eq!(Facing::South.rotate_left(), Facing::East);
    assert_eq!(Facing::East.rotate_left(), Facing::North);
}

#[test]
fn rotations_undo_each_other() {
    for f in [Facing::North, Facing::East, Facing::South, Facing::West] {
        assert_eq!(f.rotate_left().rotate_right(), f);
        assert_eq!(f.rotate_right().rotate_left(), f);
        assert_eq!(f.rotate_right().rotate_right(), f.reverse());
        assert_eq!(
            f.rotate_right().rotate_right().rotate_right().rotate_right(),
            f
        );
    }
}

#[test]
fn is_flat_tells_horizontal_from_vertical() {
    assert!(Facing::North.is_flat());
    assert!(Facing::East.is_flat());
    assert!(Facing::South.is_flat());
    assert!(Facing::West.is_flat());
    assert!(!Facing::Up.is_flat());
    assert!(!Facing::Down.is_flat());
}

#[test]
fn front_moves_one_unit() {
    let p = (1usize, 2usize, 3usize);
    assert_eq!(Facing::North.front(p), (1, 2, 2));
    assert_eq!(Facing::East.front(p), (2, 2, 3));
    assert_eq!(Facing::South.front(p), (1, 2, 4));
    assert_eq!(Facing::West.front(p), (0, 2, 3));
    assert_eq!(Facing::Up.front(p), (1, 3, 3));
    assert_eq!(Facing::Down.front(p), (1, 1, 3));
}

#[test]
fn front_wraps_at_the_ends_of_the_range() {
    let max = usize::MAX;
    assert_eq!(Facing::North.front((5, 5, 0)), (5, 5, max));
    assert_eq!(Facing::West.front((0, 5, 5)), (max, 5, 5));
    assert_eq!(Facing::Down.front((5, 0, 5)), (5, max, 5));
    assert_eq!(Facing::South.front((5, 5, max)), (5, 5, 0));
    assert_eq!(Facing::East.front((max, 5, 5)), (0, 5, 5));
    assert_eq!(Facing::Up.front((5, max, 5)), (5, 0, 5));
}

#[test]
fn back_is_front_of_the_reverse() {
    let p = (10usize, 20usize, 30usize);
    assert_eq!(Facing::North.back(p), (10, 20, 31));
    assert_eq!(Facing::East.back(p), (9, 20, 30));
    assert_eq!(Facing::Up.back(p), (10, 19, 30));
    for f in Facing::all() {
        assert_eq!(f.back(p), f.reverse().front(p));
        assert_eq!(f.back(f.front(p)), p);
        assert_eq!(f.front(f.back((0, 0, 0))), (0, 0, 0));
    }
}

#[test]
fn all_lists_the_six_directions() {
    assert_eq!(
        Facing::all(),
        [
            Facing::North,
            Facing::East,
            Facing::South,
            Facing::West,
            Facing::Up,
            Facing::Down
        ]
    );
}
