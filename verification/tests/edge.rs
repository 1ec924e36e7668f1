use redstone_simulator::edge::{Edge, MAX_POWER};

#[test]
fn is_side_tells_the_channel() {
    assert!(!Edge::Rear(3).is_side());
    assert!(Edge::Side(3).is_side());
}

#[test]
fn strength_loss_is_the_number_held() {
    assert_eq!(Edge::Rear(0).strength_loss(), 0);
    assert_eq!(Edge::Rear(7).strength_loss(), 7);
    assert_eq!(Edge::Side(15).strength_loss(), 15);
}

#[test]
fn rear_plus_rear_is_rear() {
    assert_eq!(Edge::Rear(1) + &Edge::Rear(2), Edge::Rear(3));
    assert_eq!(Edge::Rear(0) + &Edge::Rear(0), Edge::Rear(0));
}

#[test]
fn rear_plus_side_is_side() {
    assert_eq!(Edge::Rear(1) + &Edge::Side(2), Edge::Side(3));
    assert_eq!(Edge::Rear(4) + &Edge::Side(0), Edge::Side(4));
}

#[test]
fn sums_stop_at_the_largest_strength() {
    assert_eq!(MAX_POWER, 15);
    assert_eq!(Edge::Rear(10) + &Edge::Rear(10), Edge::Rear(15));
    assert_eq!(Edge::Rear(15) + &Edge::Rear(1), Edge::Rear(15));
    assert_eq!(Edge::Rear(14) + &Edge::Side(1), Edge::Side(15));
    assert_eq!(Edge::Rear(200) + &Edge::Rear(200), Edge::Rear(15));
}

#[test]
fn rear_zero_is_a_left_identity() {
    for loss in 0..=15u8 {
        assert_eq!(Edge::Rear(0) + &Edge::Rear(loss), Edge::Rear(loss));
        assert_eq!(Edge::Rear(0) + &Edge::Side(loss), Edge::Side(loss));
    }
}

#[test]
fn joining_is_associative() {
    for a in 0..=15u8 {
        for b in 0..=15u8 {
            for c in 0..=15u8 {
                let left = (Edge::Rear(a) + &Edge::Rear(b)) + &Edge::Side(c);
                let right = Edge::Rear(a) + &(Edge::Rear(b) + &Edge::Side(c));
                assert_eq!(left, right);
            }
        }
    }
}

#[test]
fn order_is_by_channel_then_loss() {
    assert!(Edge::Rear(5).less_than(&Edge::Side(0)));
    assert!(Edge::Rear(1).less_than(&Edge::Rear(2)));
    assert!(Edge::Side(1).less_than(&Edge::Side(2)));
    assert!(!Edge::Side(0).less_than(&Edge::Rear(15)));
    assert!(!Edge::Rear(2).less_than(&Edge::Rear(2)));
    assert!(!Edge::Rear(3).less_than(&Edge::Rear(2)));
}

#[test]
fn carry_takes_the_loss_off() {
    assert_eq!(Edge::Rear(3).carry(15), 12);
    assert_eq!(Edge::Side(3).carry(15), 12);
    assert_eq!(Edge::Rear(0).carry(9), 9);
    assert_eq!(Edge::Rear(3).carry(3), 0);
    assert_eq!(Edge::Rear(3).carry(2), 0);
    assert_eq!(Edge::Rear(15).carry(15), 0);
}

#[test]
fn carry_along_a_path_is_carry_along_its_edges() {
    for power in 0..=15u8 {
        for a in 0..=15u8 {
            for b in 0..=15u8 {
                let whole = (Edge::Rear(a) + &Edge::Rear(b)).carry(power);
                let parts = Edge::Rear(b).carry(Edge::Rear(a).carry(power));
                assert_eq!(whole, parts);
            }
        }
    }
}
