use redstone_simulator::blocks::comparator::{CComparator, Comparator, ComparatorMode};
use redstone_simulator::blocks::redstone::Redstone;
use redstone_simulator::blocks::repeater::Repeater;
use redstone_simulator::blocks::srepeater::SRepeater;
use redstone_simulator::blocks::torch::{Torch, NEVER};
use redstone_simulator::blocks::{
    redstone_max, redstone_min, srepeater_powered, srepeater_unpowered, Block, OutputPower,
    Updatable,
};
use redstone_simulator::facing::Facing;

fn comparator(mode: ComparatorMode, entity_power: Option<u8>) -> Comparator {
    Comparator {
        signal: 0,
        next_signal: 0,
        entity_power,
        mode,
        last_update: NEVER,
    }
}

#[test]
fn wire_takes_its_input_at_once() {
    let mut w = Redstone::with_signal(0);
    assert!(w.update(7));
    assert_eq!(w.output_power(), 7);
    assert!(!w.update(7));
    assert_eq!(w.output_power(), 7);
    assert!(w.update(0));
    assert_eq!(w.output_power(), 0);
}

#[test]
fn constructors_give_the_blocks_they_name() {
    assert_eq!(redstone_min(), Block::Redstone(Redstone { signal: 0, held: false }));
    assert_eq!(redstone_max(), Block::Redstone(Redstone { signal: 15, held: false }));
    assert_eq!(
        srepeater_powered(),
        Block::SRepeater(SRepeater {
            powered: true,
            next_powered: true
        })
    );
    assert_eq!(
        srepeater_unpowered(),
        Block::SRepeater(SRepeater {
            powered: false,
            next_powered: false
        })
    );
    assert_eq!(redstone_min().output_power(), 0);
    assert_eq!(redstone_max().output_power(), 15);
    assert_eq!(srepeater_powered().output_power(), 15);
    assert_eq!(srepeater_unpowered().output_power(), 0);
}

#[test]
fn repeater_passes_a_rising_edge_after_its_delay() {
    let mut r = Repeater::new(2, false, false);
    assert_eq!(r.delay(), 2);
    assert!(r.update(15, 0));
    assert_eq!(
        r,
        Repeater {
            powered: false,
            next_powered: true,
            delay: 2,
            count: 0,
            locked: false
        }
    );
    assert!(!r.late_updatable());
    assert_eq!(r.count, 1);
    assert_eq!(r.output_power(), 0);
    assert!(r.update(15, 0));
    assert!(r.late_updatable());
    assert_eq!(r.count, 0);
    assert!(r.powered);
    assert_eq!(r.output_power(), 15);
    assert!(!r.update(15, 0));
}

#[test]
fn repeater_of_delay_one_fires_at_the_first_commit() {
    let mut r = Repeater::new(1, false, false);
    assert!(r.update(1, 0));
    assert!(r.late_updatable());
    assert_eq!(r.output_power(), 15);
}

#[test]
fn repeater_takes_a_falling_edge_only_at_rest() {
    let mut r = Repeater {
        powered: false,
        next_powered: true,
        delay: 3,
        count: 1,
        locked: false,
    };
    assert!(r.update(0, 0));
    assert_eq!(r.next_powered, true);
    assert_eq!(r.count, 1);

    let mut s = Repeater::new(3, true, false);
    assert!(s.update(0, 0));
    assert_eq!(s.next_powered, false);
    assert_eq!(s.count, 0);
}

#[test]
fn repeater_rising_edge_restarts_the_count() {
    let mut r = Repeater {
        powered: true,
        next_powered: false,
        delay: 4,
        count: 2,
        locked: false,
    };
    assert!(!r.update(9, 0));
    assert_eq!(r.next_powered, true);
    assert_eq!(r.count, 0);
}

#[test]
fn locked_repeater_ignores_its_input() {
    let mut r = Repeater::new(2, false, false);
    assert!(!r.update(15, 1));
    assert_eq!(
        r,
        Repeater {
            powered: false,
            next_powered: false,
            delay: 2,
            count: 0,
            locked: true
        }
    );
    assert!(r.update(15, 0));
    assert!(!r.locked);
    assert!(r.next_powered);
}

#[test]
fn repeater_counter_stays_below_the_delay() {
    for delay in 1..=4u8 {
        let mut r = Repeater::new(delay, false, false);
        let inputs = [15u8, 15, 0, 0, 15, 0, 15, 15, 15, 0, 0, 0, 0, 3, 0, 1];
        for rear in inputs {
            r.update(rear, 0);
            assert!(r.count < r.delay);
            r.late_updatable();
            assert!(r.count < r.delay);
            assert_eq!(r.delay, delay);
        }
    }
}

#[test]
fn will_lock_follows_the_output() {
    assert!(Repeater::new(1, true, false).will_lock());
    assert!(!Repeater::new(1, false, false).will_lock());
    assert!(Block::Repeater(Repeater::new(1, true, false)).will_lock());
    let mut c = comparator(ComparatorMode::Compare, None);
    assert!(!Block::Comparator(c).will_lock());
    c.signal = 4;
    assert!(Block::Comparator(c).will_lock());
}

#[test]
fn simple_repeater_follows_its_input_one_tick_late() {
    let mut r = SRepeater::with_power(false);
    assert!(r.update(3));
    assert_eq!(r.output_power(), 0);
    assert!(r.late_updatable());
    assert_eq!(r.output_power(), 15);
    assert!(!r.late_updatable());
    assert!(!r.update(15));
    assert!(r.update(0));
    assert!(r.late_updatable());
    assert_eq!(r.output_power(), 0);
}

#[test]
fn torch_inverts_its_input() {
    let mut t = Torch::with_lit(true);
    assert_eq!(t.output_power(), 15);
    assert!(t.update(1));
    assert_eq!(t.output_power(), 15);
    assert!(t.late_updatable(0));
    assert_eq!(t.output_power(), 0);
    assert!(!t.update(15));
    assert!(t.update(0));
    assert!(t.late_updatable(1));
    assert_eq!(t.output_power(), 15);
}

#[test]
fn torch_commits_once_in_a_tick() {
    let mut t = Torch::with_lit(true);
    t.update(15);
    assert!(t.late_updatable(7));
    let once = t;
    assert!(!t.late_updatable(7));
    assert_eq!(t, once);
    t.update(0);
    assert!(!t.late_updatable(7));
    assert_eq!(t.output_power(), 0);
    assert!(t.late_updatable(8));
    assert_eq!(t.output_power(), 15);
}

#[test]
fn comparator_compares() {
    let mut c = comparator(ComparatorMode::Compare, None);
    assert!(c.update(10, 5));
    assert_eq!(c.next_signal, 10);
    c.update(10, 10);
    assert_eq!(c.next_signal, 10);
    c.update(10, 11);
    assert_eq!(c.next_signal, 0);
    c.update(0, 0);
    assert_eq!(c.next_signal, 0);
}

#[test]
fn comparator_subtracts() {
    let mut c = comparator(ComparatorMode::Subtract, None);
    c.update(10, 3);
    assert_eq!(c.next_signal, 7);
    c.update(3, 10);
    assert_eq!(c.next_signal, 0);
    c.update(15, 0);
    assert_eq!(c.next_signal, 15);
}

#[test]
fn comparator_rear_is_at_least_the_entity_power() {
    let mut c = comparator(ComparatorMode::Compare, Some(1));
    c.update(0, 0);
    assert_eq!(c.next_signal, 1);
    c.update(9, 0);
    assert_eq!(c.next_signal, 9);
    c.update(0, 2);
    assert_eq!(c.next_signal, 0);
    let mut s = comparator(ComparatorMode::Subtract, Some(1));
    s.update(0, 1);
    assert_eq!(s.next_signal, 0);
    s.update(0, 0);
    assert_eq!(s.next_signal, 1);
}

#[test]
fn comparator_commits_once_in_a_tick() {
    let mut c = comparator(ComparatorMode::Compare, None);
    assert!(c.update(6, 0));
    assert_eq!(c.output_power(), 0);
    assert!(c.late_updatable(3));
    assert_eq!(c.output_power(), 6);
    c.update(2, 0);
    assert!(!c.late_updatable(3));
    assert_eq!(c.output_power(), 6);
    assert!(c.late_updatable(4));
    assert_eq!(c.output_power(), 2);
}

#[test]
fn committing_twice_in_a_tick_is_committing_once() {
    let mut blocks = vec![
        Block::Torch(Torch {
            lit: true,
            next_lit: false,
            last_update: NEVER,
        }),
        Block::Comparator(Comparator {
            signal: 3,
            next_signal: 9,
            entity_power: None,
            mode: ComparatorMode::Subtract,
            last_update: 2,
        }),
        Block::SRepeater(SRepeater {
            powered: false,
            next_powered: true,
        }),
    ];
    for b in blocks.iter_mut() {
        b.late_updatable(5);
        let once = *b;
        assert!(!b.late_updatable(5));
        assert_eq!(*b, once);
    }
}

#[test]
fn output_power_is_a_signal_strength() {
    let mut blocks = vec![redstone_min(), redstone_max()];
    for signal in 0..=15u8 {
        blocks.push(Block::Redstone(Redstone { signal, held: false }));
        blocks.push(Block::Comparator(Comparator {
            signal,
            next_signal: 0,
            entity_power: None,
            mode: ComparatorMode::Compare,
            last_update: NEVER,
        }));
    }
    for powered in [false, true] {
        blocks.push(Block::Repeater(Repeater::new(1, powered, false)));
        blocks.push(Block::Torch(Torch::with_lit(powered)));
        blocks.push(Block::SRepeater(SRepeater::with_power(powered)));
    }
    for b in blocks {
        assert!(b.output_power() <= 15);
    }
}

#[test]
fn is_redstone_tells_wire_from_the_rest() {
    assert!(redstone_min().is_redstone());
    assert!(!srepeater_powered().is_redstone());
    assert!(!Block::Torch(Torch::with_lit(true)).is_redstone());
}

#[test]
fn construction_comparator_becomes_a_comparator_at_rest() {
    let mut c = CComparator::new(Facing::North, ComparatorMode::Subtract);
    assert!(!c.contains_entity_power());
    assert_eq!(c.facing(), Facing::North);
    c.signal = 5;
    c.entity_power = Some(1);
    assert!(c.contains_entity_power());
    assert_eq!(
        c.to_block(),
        Block::Comparator(Comparator {
            signal: 5,
            next_signal: 5,
            entity_power: Some(1),
            mode: ComparatorMode::Subtract,
            last_update: NEVER,
        })
    );
}

#[test]
fn held_wire_keeps_its_signal() {
    let mut w = Redstone::constant();
    assert_eq!(w.output_power(), 15);
    assert!(!w.update(0));
    assert_eq!(w.output_power(), 15);
    assert!(!w.update(7));
    assert_eq!(w, Redstone { signal: 15, held: true });
}
