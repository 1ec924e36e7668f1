use redstone_simulator::blocks::comparator::{CComparator, ComparatorMode};
use redstone_simulator::blocks::redstone_block::CRedstoneBlock;
use redstone_simulator::cblock::{
    CBlock, CProbe, CRedstone, CRepeater, CSolidStrong, CSolidWeak, CTorch, CTrigger, Palette,
};
use redstone_simulator::facing::Facing;
use redstone_simulator::parse::{
    chars_of, find_char, parse_small, range_is, split_ranges, trim_end, BuildError,
};
use redstone_simulator::state::BlockState;

fn palette() -> Palette {
    Palette {
        solid: vec!["minecraft:stone".to_string(), "minecraft:oak_planks".to_string()],
        transparent: vec!["minecraft:air".to_string(), "minecraft:glass".to_string()],
    }
}

#[test]
fn chars_of_gives_the_characters() {
    assert_eq!(chars_of("abc"), vec!['a', 'b', 'c']);
    assert_eq!(chars_of(""), Vec::<char>::new());
    assert_eq!(chars_of("é=1"), vec!['é', '=', '1']);
}

#[test]
fn find_char_gives_the_first_place() {
    let v = chars_of("a[b[c");
    assert_eq!(find_char(&v, 0, 5, '['), 1);
    assert_eq!(find_char(&v, 2, 5, '['), 3);
    assert_eq!(find_char(&v, 4, 5, '['), 5);
    assert_eq!(find_char(&v, 0, 1, '['), 1);
    assert_eq!(find_char(&v, 0, 5, 'x'), 5);
    assert_eq!(find_char(&v, 3, 3, '['), 3);
}

#[test]
fn trim_end_takes_all_of_them_off() {
    let v = chars_of("ab]]]");
    assert_eq!(trim_end(&v, 0, 5, ']'), 2);
    assert_eq!(trim_end(&v, 0, 2, ']'), 2);
    assert_eq!(trim_end(&v, 2, 5, ']'), 2);
    assert_eq!(trim_end(&v, 0, 5, 'x'), 5);
}

#[test]
fn split_ranges_cuts_at_every_comma() {
    let v = chars_of("a=1,,bc=2,");
    assert_eq!(
        split_ranges(&v, 0, v.len(), ','),
        vec![(0, 3), (4, 4), (5, 9), (10, 10)]
    );
    assert_eq!(split_ranges(&v, 0, 3, ','), vec![(0, 3)]);
    assert_eq!(split_ranges(&v, 2, 2, ','), vec![(2, 2)]);
}

#[test]
fn range_is_compares_text() {
    let v = chars_of("minecraft:stone[a=b]");
    assert!(range_is(&v, 0, 15, "minecraft:stone"));
    assert!(!range_is(&v, 0, 14, "minecraft:stone"));
    assert!(!range_is(&v, 0, 15, "minecraft:stonf"));
    assert!(range_is(&v, 16, 17, "a"));
    assert!(range_is(&v, 3, 3, ""));
}

#[test]
fn parse_small_reads_decimal_numbers_up_to_the_limit() {
    let read = |s: &str, limit: u8| {
        let v = chars_of(s);
        parse_small(&v, 0, v.len(), limit)
    };
    assert_eq!(read("0", 15), Some(0));
    assert_eq!(read("7", 15), Some(7));
    assert_eq!(read("15", 15), Some(15));
    assert_eq!(read("015", 15), Some(15));
    assert_eq!(read("16", 15), None);
    assert_eq!(read("4", 4), Some(4));
    assert_eq!(read("5", 4), None);
    assert_eq!(read("255", 255), Some(255));
    assert_eq!(read("256", 255), None);
    assert_eq!(read("99999999999999999999", 255), None);
    assert_eq!(read("", 15), None);
    assert_eq!(read("1a", 15), None);
    assert_eq!(read("a1", 15), None);
    assert_eq!(read("+1", 15), None);
    assert_eq!(read("-1", 15), None);
    assert_eq!(read("161x", 15), None);
}

#[test]
fn block_state_gives_name_and_properties() {
    let b = BlockState::parse("minecraft:repeater[delay=2,facing=north,locked=false,powered=true]")
        .ok()
        .unwrap();
    assert!(b.name_is("minecraft:repeater"));
    assert!(!b.name_is("minecraft:repeate"));
    assert!(!b.name_is("minecraft:repeater[delay=2"));
    assert_eq!(b.small("delay", 4), Some(2));
    assert_eq!(b.facing("facing"), Some(Facing::North));
    assert_eq!(b.flag("locked"), Some(false));
    assert_eq!(b.flag("powered"), Some(true));
    assert_eq!(b.flag("lit"), None);
    assert_eq!(b.flag("delay"), None);
    assert_eq!(b.facing("delay"), None);
    assert!(b.get("delay").is_some());
    assert!(b.get("dela").is_none());
    assert!(b.get("").is_none());
}

#[test]
fn block_state_without_properties_has_none() {
    let b = BlockState::parse("minecraft:stone").ok().unwrap();
    assert!(b.name_is("minecraft:stone"));
    assert!(b.get("facing").is_none());
    let c = BlockState::parse("minecraft:stone[]").ok().unwrap();
    assert!(c.name_is("minecraft:stone"));
    assert!(c.get("").is_none());
    let d = BlockState::parse("").ok().unwrap();
    assert!(d.name_is(""));
}

#[test]
fn the_last_of_two_items_with_one_key_gives_the_value() {
    let b = BlockState::parse("x[a=1,b=2,a=3]").ok().unwrap();
    assert_eq!(b.small("a", 15), Some(3));
    assert_eq!(b.small("b", 15), Some(2));
}

#[test]
fn empty_items_are_passed_over_and_values_may_hold_equal_signs() {
    let b = BlockState::parse("x[,a=1,,b=c=d,]]").ok().unwrap();
    assert_eq!(b.small("a", 15), Some(1));
    let at = b.get("b").unwrap();
    assert!(range_is(&b.chars, at.0, at.1, "c=d"));
}

#[test]
fn an_item_without_equal_sign_cannot_be_read() {
    assert_eq!(
        BlockState::parse("minecraft:stone[foo]").err(),
        Some(BuildError::MalformedMetadata)
    );
    assert_eq!(
        BlockState::parse("x[a=1,b]").err(),
        Some(BuildError::MalformedMetadata)
    );
    assert_eq!(
        CBlock::from_id("minecraft:stone[foo]", &palette()).err(),
        Some(BuildError::MalformedMetadata)
    );
    assert_eq!(
        CBlock::from_id("minecraft:unheard_of[foo]", &palette()).err(),
        Some(BuildError::MalformedMetadata)
    );
}

#[test]
fn from_id_reads_wire() {
    let got = CBlock::from_id(
        "minecraft:redstone_wire[east=side,north=none,power=7,south=none,west=up]",
        &palette(),
    );
    assert_eq!(
        got,
        Ok(vec![CBlock::Redstone(CRedstone {
            signal: 7,
            north: false,
            east: true,
            south: false,
            west: true,
            node: None
        })])
    );
}

#[test]
fn from_id_reads_a_repeater() {
    let got = CBlock::from_id(
        "minecraft:repeater[delay=3,facing=west,locked=true,powered=false]",
        &palette(),
    );
    assert_eq!(
        got,
        Ok(vec![CBlock::Repeater(CRepeater {
            facing: Facing::West,
            delay: 3,
            powered: false,
            locked: true,
            node: None
        })])
    );
}

#[test]
fn from_id_reads_torches() {
    assert_eq!(
        CBlock::from_id("minecraft:redstone_torch[lit=true]", &palette()),
        Ok(vec![CBlock::Torch(CTorch {
            facing: Facing::Up,
            lit: true,
            node: None
        })])
    );
    assert_eq!(
        CBlock::from_id(
            "minecraft:redstone_wall_torch[facing=south,lit=false]",
            &palette()
        ),
        Ok(vec![CBlock::Torch(CTorch {
            facing: Facing::South,
            lit: false,
            node: None
        })])
    );
}

#[test]
fn from_id_reads_a_comparator() {
    assert_eq!(
        CBlock::from_id(
            "minecraft:comparator[facing=east,mode=subtract,powered=false]",
            &palette()
        ),
        Ok(vec![CBlock::Comparator(CComparator {
            signal: 0,
            facing: Facing::East,
            mode: ComparatorMode::Subtract,
            entity_power: None,
            node: None
        })])
    );
    assert_eq!(
        CBlock::from_id("minecraft:comparator[facing=east,mode=compare]", &palette()),
        Ok(vec![CBlock::Comparator(CComparator::new(
            Facing::East,
            ComparatorMode::Compare
        ))])
    );
}

#[test]
fn from_id_reads_the_blocks_without_properties() {
    let p = palette();
    assert_eq!(
        CBlock::from_id("minecraft:gold_block", &p),
        Ok(vec![CBlock::Trigger(CTrigger { node: None })])
    );
    assert_eq!(
        CBlock::from_id("minecraft:lightning_rod[facing=up,powered=false]", &p),
        Ok(vec![CBlock::Trigger(CTrigger { node: None })])
    );
    assert_eq!(
        CBlock::from_id("minecraft:diamond_block", &p),
        Ok(vec![CBlock::Probe(CProbe { node: None })])
    );
    assert_eq!(
        CBlock::from_id("minecraft:redstone_block", &p),
        Ok(vec![CBlock::RedstoneBlock(CRedstoneBlock { node: None })])
    );
    assert_eq!(CRedstoneBlock::default(), CRedstoneBlock { node: None });
}

#[test]
fn a_solid_block_gives_two_blocks_and_a_transparent_one_none() {
    let p = palette();
    assert_eq!(
        CBlock::from_id("minecraft:stone", &p),
        Ok(vec![
            CBlock::SolidWeak(CSolidWeak { node: None }),
            CBlock::SolidStrong(CSolidStrong { node: None })
        ])
    );
    assert_eq!(
        CBlock::from_id("minecraft:oak_planks[axis=y]", &p),
        Ok(vec![
            CBlock::SolidWeak(CSolidWeak { node: None }),
            CBlock::SolidStrong(CSolidStrong { node: None })
        ])
    );
    assert_eq!(CBlock::from_id("minecraft:air", &p), Ok(vec![]));
    assert_eq!(CBlock::from_id("minecraft:glass", &p), Ok(vec![]));
}

#[test]
fn an_unknown_block_is_an_error() {
    let p = palette();
    assert_eq!(
        CBlock::from_id("minecraft:unheard_of", &p),
        Err(BuildError::UnknownBlock)
    );
    assert_eq!(CBlock::from_id("", &p), Err(BuildError::UnknownBlock));
    assert_eq!(
        CBlock::from_id("minecraft:ston", &p),
        Err(BuildError::UnknownBlock)
    );
    assert_eq!(
        CBlock::from_id("minecraft:stone", &Palette { solid: vec![], transparent: vec![] }),
        Err(BuildError::UnknownBlock)
    );
}

#[test]
fn properties_that_do_not_describe_the_block_are_an_error() {
    let p = palette();
    let bad = [
        "minecraft:repeater[delay=2,facing=up,locked=false,powered=false]",
        "minecraft:repeater[delay=0,facing=north,locked=false,powered=false]",
        "minecraft:repeater[delay=5,facing=north,locked=false,powered=false]",
        "minecraft:repeater[delay=2,facing=north,locked=no,powered=false]",
        "minecraft:repeater[delay=2,facing=north,locked=false]",
        "minecraft:repeater",
        "minecraft:redstone_wire[east=side,north=none,power=16,south=none,west=up]",
        "minecraft:redstone_wire[east=side,north=none,power=7,south=none]",
        "minecraft:redstone_wire[east=tall,north=none,power=7,south=none,west=up]",
        "minecraft:redstone_torch",
        "minecraft:redstone_torch[lit=maybe]",
        "minecraft:redstone_wall_torch[lit=true]",
        "minecraft:redstone_wall_torch[facing=down,lit=true]",
        "minecraft:comparator[facing=east]",
        "minecraft:comparator[facing=east,mode=add]",
        "minecraft:comparator[mode=compare]",
    ];
    for id in bad {
        assert_eq!(
            CBlock::from_id(id, &p),
            Err(BuildError::MalformedMetadata),
            "{}",
            id
        );
    }
}

#[test]
fn a_component_name_goes_before_the_lists() {
    let p = Palette {
        solid: vec!["minecraft:repeater".to_string(), "minecraft:air".to_string()],
        transparent: vec!["minecraft:air".to_string()],
    };
    assert_eq!(
        CBlock::from_id("minecraft:repeater", &p),
        Err(BuildError::MalformedMetadata)
    );
    assert_eq!(CBlock::from_id("minecraft:air", &p).map(|v| v.len()), Ok(2));
}
