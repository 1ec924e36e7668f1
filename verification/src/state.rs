//! Block states read: the name of the block and its properties, ready to
//! be looked up.

use crate::blocks::comparator::ComparatorMode;
use crate::facing::Facing;
use crate::names::same_text;
use crate::parse::{
    chars_of, find_char, first_index, item_key, item_ok, item_value, items, lemma_first_index,
    lookup, parse_small, prop, props_ok, range_is, small_number, split_ranges, state_name,
    state_props, trim_end, BuildError,
};
use vstd::prelude::*;

verus! {

/// A block state whose property list has been cut into its items.
pub struct BlockState {
    /// The characters of the block state.
    pub chars: Vec<char>,
    /// Where the name of the block ends.
    pub name_end: usize,
    /// Where the property list starts and ends.
    pub props: (usize, usize),
    /// Where each item of the property list starts and ends.
    pub ranges: Vec<(usize, usize)>,
}

/// The direction that a property value names, if it names a horizontal
/// one.
pub open spec fn facing_named(s: Seq<char>) -> Option<Facing> {
    if s == "north"@ {
        Some(Facing::North)
    } else if s == "east"@ {
        Some(Facing::East)
    } else if s == "south"@ {
        Some(Facing::South)
    } else if s == "west"@ {
        Some(Facing::West)
    } else {
        None
    }
}

/// The truth value that a property value names, if it names one.
pub open spec fn bool_named(s: Seq<char>) -> Option<bool> {
    if s == "true"@ {
        Some(true)
    } else if s == "false"@ {
        Some(false)
    } else {
        None
    }
}

/// Whether a wire connects to a side, as the property value for that
/// side says, if it says so.
pub open spec fn link_named(s: Seq<char>) -> Option<bool> {
    if s == "none"@ {
        Some(false)
    } else if s == "side"@ || s == "up"@ {
        Some(true)
    } else {
        None
    }
}

/// The comparator mode that a property value names, if it names one.
pub open spec fn mode_named(s: Seq<char>) -> Option<ComparatorMode> {
    if s == "compare"@ {
        Some(ComparatorMode::Compare)
    } else if s == "subtract"@ {
        Some(ComparatorMode::Subtract)
    } else {
        None
    }
}

impl Facing {
    /// The horizontal direction that `value` names, if it names one.
    pub fn parse(value: &str) -> (r: Option<Facing>)
        ensures
            r == facing_named(value@),
    {
        if same_text(value, "north") {
            Some(Facing::North)
        } else if same_text(value, "east") {
            Some(Facing::East)
        } else if same_text(value, "south") {
            Some(Facing::South)
        } else if same_text(value, "west") {
            Some(Facing::West)
        } else {
            None
        }
    }
}

impl ComparatorMode {
    /// The comparator mode that `value` names, if it names one.
    pub fn parse(value: &str) -> (r: Option<ComparatorMode>)
        ensures
            r == mode_named(value@),
    {
        if same_text(value, "compare") {
            Some(ComparatorMode::Compare)
        } else if same_text(value, "subtract") {
            Some(ComparatorMode::Subtract)
        } else {
            None
        }
    }
}

impl BlockState {
    /// The text of the block state.
    pub open spec fn text(&self) -> Seq<char> {
        self.chars@
    }

    /// The name of the block.
    pub open spec fn name(&self) -> Seq<char> {
        state_name(self.text())
    }

    /// The value of the property `key`, if the block state gives one.
    pub open spec fn value(&self, key: Seq<char>) -> Option<Seq<char>> {
        prop(state_props(self.text()), key)
    }

    /// The fields say where the name, the property list and its items
    /// lie in the text, and every item can be read.
    pub open spec fn wf(&self) -> bool {
        &&& self.name_end == first_index(self.text(), '[')
        &&& self.name_end <= self.chars@.len()
        &&& self.props.0 <= self.props.1 <= self.chars@.len()
        &&& self.chars@.subrange(self.props.0 as int, self.props.1 as int) == state_props(
            self.text(),
        )
        &&& self.ranges@.len() == items(state_props(self.text())).len()
        &&& forall|k: int|
            0 <= k < self.ranges@.len() ==> {
                &&& (#[trigger] self.ranges@[k]).0 <= self.ranges@[k].1 <= self.chars@.len()
                &&& self.chars@.subrange(self.ranges@[k].0 as int, self.ranges@[k].1 as int)
                    == items(state_props(self.text()))[k]
            }
        &&& props_ok(state_props(self.text()))
    }

    /// Reads a block state. It can be read unless one of the items of
    /// its property list is neither empty nor holds a `=`.
    pub fn parse(id: &str) -> (r: Result<BlockState, BuildError>)
        ensures
            r is Ok == props_ok(state_props(id@)),
            r matches Ok(b) ==> b.wf() && b.text() == id@,
            r matches Err(e) ==> e == BuildError::MalformedMetadata,
    {
        let chars = chars_of(id);
        let n = chars.len();
        let name_end = find_char(&chars, 0, n, '[');
        assert(chars@.subrange(0, n as int) =~= chars@);
        let props: (usize, usize) = if name_end >= n {
            assert(chars@.subrange(n as int, n as int) =~= Seq::<char>::empty());
            (n, n)
        } else {
            assert(chars@.skip(name_end + 1) =~= chars@.subrange(name_end + 1, n as int));
            (name_end + 1, trim_end(&chars, name_end + 1, n, ']'))
        };
        let ranges = split_ranges(&chars, props.0, props.1, ',');
        let ghost list = items(state_props(chars@));
        let mut k: usize = 0;
        while k < ranges.len()
            invariant
                k <= ranges@.len(),
                chars@ == id@,
                list == items(state_props(chars@)),
                ranges@.len() == list.len(),
                forall|j: int|
                    0 <= j < ranges@.len() ==> {
                        &&& (#[trigger] ranges@[j]).0 <= ranges@[j].1 <= chars@.len()
                        &&& chars@.subrange(ranges@[j].0 as int, ranges@[j].1 as int) == list[j]
                    },
                forall|j: int| 0 <= j < k ==> item_ok(#[trigger] list[j]),
            decreases ranges@.len() - k,
        {
            let (a, b) = ranges[k];
            assert(chars@.subrange(ranges@[k as int].0 as int, ranges@[k as int].1 as int)
                == list[k as int]);
            if a < b {
                let q = find_char(&chars, a, b, '=');
                if q >= b {
                    assert(!item_ok(list[k as int]));
                    assert(!item_ok(items(state_props(id@))[k as int]));
                    return Err(BuildError::MalformedMetadata);
                }
            }
            k = k + 1;
        }
        Ok(BlockState { chars, name_end, props, ranges })
    }

    /// Whether the block is called `lit`.
    pub fn name_is(&self, lit: &str) -> (r: bool)
        requires
            self.wf(),
        ensures
            r == (self.name() == lit@),
    {
        assert(self.chars@.subrange(0, self.name_end as int) =~= self.chars@.take(
            self.name_end as int,
        ));
        range_is(&self.chars, 0, self.name_end, lit)
    }

    /// Where the value of the property `key` lies in the text, if the
    /// block state gives one.
    pub fn get(&self, key: &str) -> (r: Option<(usize, usize)>)
        requires
            self.wf(),
        ensures
            r is Some == self.value(key@) is Some,
            r matches Some(at) ==> at.0 <= at.1 <= self.chars@.len() && self.value(key@) == Some(
                self.chars@.subrange(at.0 as int, at.1 as int),
            ),
    {
        let ghost list = items(state_props(self.text()));
        let mut k: usize = self.ranges.len();
        assert(list.take(k as int) =~= list);
        while k > 0
            invariant
                k <= self.ranges@.len(),
                self.wf(),
                list == items(state_props(self.text())),
                lookup(list, key@) == lookup(list.take(k as int), key@),
            decreases k,
        {
            let (a, b) = self.ranges[k - 1];
            let ghost item = list[k - 1];
            proof {
                assert(self.chars@.subrange(
                    self.ranges@[k - 1].0 as int,
                    self.ranges@[k - 1].1 as int,
                ) == list[k - 1]);
                assert(list.take(k as int).last() == item);
                assert(list.take(k as int).drop_last() =~= list.take(k - 1));
                assert(item_ok(item));
                lemma_first_index(item, '=');
            }
            if a < b {
                let q = find_char(&self.chars, a, b, '=');
                proof {
                    assert(item.take(q - a) =~= self.chars@.subrange(a as int, q as int));
                    assert(item.skip(q - a + 1) =~= self.chars@.subrange(q + 1, b as int));
                }
                if range_is(&self.chars, a, q, key) {
                    return Some((q + 1, b));
                }
            }
            k = k - 1;
        }
        proof {
            assert(list.take(0) =~= Seq::<Seq<char>>::empty());
        }
        None
    }

    /// The horizontal direction that the property `key` names.
    pub fn facing(&self, key: &str) -> (r: Option<Facing>)
        requires
            self.wf(),
        ensures
            r == match self.value(key@) {
                Some(v) => facing_named(v),
                None => None,
            },
    {
        match self.get(key) {
            None => None,
            Some((a, b)) => {
                if range_is(&self.chars, a, b, "north") {
                    Some(Facing::North)
                } else if range_is(&self.chars, a, b, "east") {
                    Some(Facing::East)
                } else if range_is(&self.chars, a, b, "south") {
                    Some(Facing::South)
                } else if range_is(&self.chars, a, b, "west") {
                    Some(Facing::West)
                } else {
                    None
                }
            },
        }
    }

    /// The truth value that the property `key` names.
    pub fn flag(&self, key: &str) -> (r: Option<bool>)
        requires
            self.wf(),
        ensures
            r == match self.value(key@) {
                Some(v) => bool_named(v),
                None => None,
            },
    {
        match self.get(key) {
            None => None,
            Some((a, b)) => {
                if range_is(&self.chars, a, b, "true") {
                    Some(true)
                } else if range_is(&self.chars, a, b, "false") {
                    Some(false)
                } else {
                    None
                }
            },
        }
    }

    /// Whether a wire connects to the side that the property `key`
    /// stands for.
    pub fn link(&self, key: &str) -> (r: Option<bool>)
        requires
            self.wf(),
        ensures
            r == match self.value(key@) {
                Some(v) => link_named(v),
                None => None,
            },
    {
        match self.get(key) {
            None => None,
            Some((a, b)) => {
                if range_is(&self.chars, a, b, "none") {
                    Some(false)
                } else if range_is(&self.chars, a, b, "side") {
                    Some(true)
                } else if range_is(&self.chars, a, b, "up") {
                    Some(true)
                } else {
                    None
                }
            },
        }
    }

    /// The comparator mode that the property `key` names.
    pub fn mode(&self, key: &str) -> (r: Option<ComparatorMode>)
        requires
            self.wf(),
        ensures
            r == match self.value(key@) {
                Some(v) => mode_named(v),
                None => None,
            },
    {
        match self.get(key) {
            None => None,
            Some((a, b)) => {
                if range_is(&self.chars, a, b, "compare") {
                    Some(ComparatorMode::Compare)
                } else if range_is(&self.chars, a, b, "subtract") {
                    Some(ComparatorMode::Subtract)
                } else {
                    None
                }
            },
        }
    }

    /// The number up to `limit` that the property `key` writes.
    pub fn small(&self, key: &str, limit: u8) -> (r: Option<u8>)
        requires
            self.wf(),
        ensures
            r == match self.value(key@) {
                Some(v) => small_number(v, limit),
                None => None,
            },
    {
        match self.get(key) {
            None => None,
            Some((a, b)) => parse_small(&self.chars, a, b, limit),
        }
    }
}

} // verus!
