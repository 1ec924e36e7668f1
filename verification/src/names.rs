//! Name tables: the names under which the probes and the triggers of a
//! world are known.

use vstd::prelude::*;

verus! {

/// A node and the name it goes by.
pub struct Named {
    pub node: u32,
    pub name: String,
}

/// A table of named nodes. In a well-formed table no node has two names
/// and no name stands for two nodes.
pub struct NameTable {
    pub entries: Vec<Named>,
}

/// Whether two strings hold the same text.
pub fn same_text(a: &str, b: &str) -> (r: bool)
    ensures
        r == (a@ == b@),
{
    let x = a.to_owned();
    let y = b.to_owned();
    x == y
}

impl NameTable {
    /// No two entries share a node, and no two share a name.
    pub open spec fn wf(&self) -> bool {
        forall|i: int, j: int|
            0 <= i < self.entries@.len() && 0 <= j < self.entries@.len() && i != j ==> {
                &&& self.entries@[i].node != self.entries@[j].node
                &&& self.entries@[i].name@ != self.entries@[j].name@
            }
    }

    /// Whether the table gives `node` the name `name`.
    pub open spec fn pairs(&self, node: u32, name: Seq<char>) -> bool {
        exists|i: int|
            0 <= i < self.entries@.len() && self.entries@[i].node == node
                && self.entries@[i].name@ == name
    }

    /// Whether the table names `node`.
    pub open spec fn has_node(&self, node: u32) -> bool {
        exists|i: int| 0 <= i < self.entries@.len() && self.entries@[i].node == node
    }

    /// Whether the table knows the name `name`.
    pub open spec fn has_name(&self, name: Seq<char>) -> bool {
        exists|i: int| 0 <= i < self.entries@.len() && self.entries@[i].name@ == name
    }

    /// The node that goes by `name`.
    pub open spec fn node_of(&self, name: Seq<char>) -> u32
        recommends
            self.has_name(name),
    {
        let i = choose|i: int| 0 <= i < self.entries@.len() && self.entries@[i].name@ == name;
        self.entries@[i].node
    }

    /// The nodes of the table, in the order in which they were entered.
    pub open spec fn nodes(&self) -> Seq<u32> {
        self.entries@.map_values(|e: Named| e.node)
    }

    pub fn new() -> (t: NameTable)
        ensures
            t.entries@.len() == 0,
            t.wf(),
    {
        NameTable { entries: Vec::new() }
    }

    pub fn len(&self) -> (n: usize)
        ensures
            n == self.entries@.len(),
    {
        self.entries.len()
    }

    /// The node of the entry at `i`.
    pub fn node_at(&self, i: usize) -> (n: u32)
        requires
            i < self.entries@.len(),
        ensures
            n == self.entries@[i as int].node,
            n == self.nodes()[i as int],
            self.has_node(n),
    {
        self.entries[i].node
    }

    pub fn contains_node(&self, node: u32) -> (r: bool)
        ensures
            r == self.has_node(node),
    {
        let mut i: usize = 0;
        while i < self.entries.len()
            invariant
                i <= self.entries@.len(),
                forall|j: int| 0 <= j < i ==> self.entries@[j].node != node,
            decreases self.entries.len() - i,
        {
            if self.entries[i].node == node {
                return true;
            }
            i = i + 1;
        }
        false
    }

    /// The node that goes by `name`, if the table knows the name.
    pub fn find(&self, name: &str) -> (r: Option<u32>)
        ensures
            r.is_some() == self.has_name(name@),
            r matches Some(n) ==> self.pairs(n, name@),
            self.wf() && self.has_name(name@) ==> r == Some(self.node_of(name@)),
    {
        let mut i: usize = 0;
        while i < self.entries.len()
            invariant
                i <= self.entries@.len(),
                forall|j: int| 0 <= j < i ==> self.entries@[j].name@ != name@,
            decreases self.entries.len() - i,
        {
            if same_text(self.entries[i].name.as_str(), name) {
                proof {
                    if self.wf() {
                        let k = choose|k: int|
                            0 <= k < self.entries@.len() && self.entries@[k].name@ == name@;
                        assert(k == i);
                    }
                }
                return Some(self.entries[i].node);
            }
            i = i + 1;
        }
        None
    }

    /// Gives `node` the name `name`. An entry that held the node or the
    /// name before gives way; the others stay, and the new entry comes
    /// last.
    pub fn insert(&mut self, node: u32, name: String)
        requires
            old(self).wf(),
        ensures
            final(self).wf(),
            final(self).pairs(node, name@),
            final(self).entries@.len() >= 1,
            final(self).entries@.last().node == node,
            final(self).entries@.last().name@ == name@,
            forall|n: u32, s: Seq<char>|
                n != node && s != name@ ==> (final(self).pairs(n, s) <==> old(self).pairs(n, s)),
            forall|n: u32, s: Seq<char>|
                #![trigger final(self).pairs(n, s)]
                final(self).pairs(n, s) ==> (n == node && s == name@) || (n != node && s != name@),
            forall|n: u32| final(self).has_node(n) ==> n == node || old(self).has_node(n),
    {
        let mut kept: Vec<Named> = Vec::new();
        let mut i: usize = 0;
        while i < self.entries.len()
            invariant
                i <= self.entries@.len(),
                self.entries@ == old(self).entries@,
                old(self).wf(),
                forall|a: int|
                    0 <= a < kept@.len() ==> kept@[a].node != node && kept@[a].name@ != name@,
                forall|a: int|
                    0 <= a < kept@.len() ==> held(
                        self.entries@,
                        i as int,
                        #[trigger] kept@[a].node,
                        kept@[a].name@,
                    ),
                forall|a: int, b: int|
                    0 <= a < kept@.len() && 0 <= b < kept@.len() && a != b ==> kept@[a].node
                        != kept@[b].node && kept@[a].name@ != kept@[b].name@,
                forall|j: int|
                    0 <= j < i && self.entries@[j].node != node && self.entries@[j].name@ != name@
                        ==> held(
                        kept@,
                        kept@.len() as int,
                        #[trigger] self.entries@[j].node,
                        self.entries@[j].name@,
                    ),
            decreases self.entries.len() - i,
        {
            let e = &self.entries[i];
            if e.node != node && !same_text(e.name.as_str(), name.as_str()) {
                let ghost before = kept@;
                proof {
                    assert forall|a: int| 0 <= a < before.len() implies before[a].node != e.node
                        && before[a].name@ != e.name@ by {
                        assert(held(self.entries@, i as int, before[a].node, before[a].name@));
                    }
                }
                kept.push(Named { node: e.node, name: e.name.clone() });
                proof {
                    let last = kept@.len() - 1;
                    assert forall|j: int|
                        0 <= j < i + 1 && self.entries@[j].node != node && self.entries@[j].name@
                            != name@ implies held(
                        kept@,
                        kept@.len() as int,
                        #[trigger] self.entries@[j].node,
                        self.entries@[j].name@,
                    ) by {
                        if j < i {
                            let a = choose|a: int|
                                0 <= a < before.len() && before[a].node == self.entries@[j].node
                                    && before[a].name@ == self.entries@[j].name@;
                            assert(kept@[a].node == self.entries@[j].node);
                        } else {
                            assert(kept@[last].node == self.entries@[j].node);
                        }
                    }
                    assert forall|a: int| 0 <= a < kept@.len() implies held(
                        self.entries@,
                        i + 1,
                        #[trigger] kept@[a].node,
                        kept@[a].name@,
                    ) by {
                        if a < last {
                            assert(held(self.entries@, i as int, before[a].node, before[a].name@));
                            let j = choose|j: int|
                                0 <= j < i && self.entries@[j].node == before[a].node
                                    && self.entries@[j].name@ == before[a].name@;
                            assert(self.entries@[j].node == kept@[a].node);
                        } else {
                            assert(self.entries@[i as int].node == kept@[a].node);
                        }
                    }
                }
            }
            i = i + 1;
        }
        let ghost rest = kept@;
        kept.push(Named { node, name });
        self.entries = kept;
        proof {
            let fin = self.entries@;
            let last = fin.len() - 1;
            let was = old(self).entries@;
            assert(fin[last].node == node && fin[last].name@ == name@);
            assert forall|n: u32, s: Seq<char>| n != node && s != name@ implies (self.pairs(n, s)
                <==> old(self).pairs(n, s)) by {
                if self.pairs(n, s) {
                    let a = choose|a: int|
                        0 <= a < fin.len() && fin[a].node == n && fin[a].name@ == s;
                    assert(a < last);
                    assert(held(was, was.len() as int, rest[a].node, rest[a].name@));
                    assert(old(self).pairs(n, s));
                }
                if old(self).pairs(n, s) {
                    let j = choose|j: int|
                        0 <= j < was.len() && was[j].node == n && was[j].name@ == s;
                    assert(held(rest, rest.len() as int, was[j].node, was[j].name@));
                    let a = choose|a: int|
                        0 <= a < rest.len() && rest[a].node == n && rest[a].name@ == s;
                    assert(fin[a].node == n && fin[a].name@ == s);
                    assert(self.pairs(n, s));
                }
            }
            assert forall|n: u32| self.has_node(n) implies n == node || old(self).has_node(n) by {
                let a = choose|a: int| 0 <= a < fin.len() && fin[a].node == n;
                if a < last {
                    assert(held(was, was.len() as int, rest[a].node, rest[a].name@));
                    assert(old(self).has_node(n));
                }
            }
        }
    }
}

/// Whether `after` is `before` with the name `name` given to `node`: an
/// entry that held the node or the name has given way, and nothing else
/// has changed.
pub open spec fn registers(before: NameTable, after: NameTable, node: u32,
    name: Seq<char>) -> bool {
    &&& after.wf()
    &&& after.pairs(node, name)
    &&& forall|n: u32, s: Seq<char>|
        n != node && s != name ==> (after.pairs(n, s) <==> before.pairs(n, s))
    &&& forall|n: u32, s: Seq<char>| #[trigger]
        after.pairs(n, s) ==> (n == node && s == name) || (n != node && s != name)
    &&& forall|n: u32| after.has_node(n) ==> n == node || before.has_node(n)
}

/// Whether one of the first `upto` entries gives `node` the name `name`.
pub open spec fn held(entries: Seq<Named>, upto: int, node: u32, name: Seq<char>) -> bool {
    exists|j: int| 0 <= j < upto && j < entries.len() && entries[j].node == node
        && entries[j].name@ == name
}

/// A well-formed table is a bijection between its names and its nodes:
/// a name stands for one node, a node goes by one name, and the node of
/// a name goes by that name.
pub proof fn lemma_table_bijection(t: NameTable, n1: u32, s1: Seq<char>, n2: u32, s2: Seq<char>)
    requires
        t.wf(),
        t.pairs(n1, s1),
        t.pairs(n2, s2),
    ensures
        n1 == n2 <==> s1 == s2,
        t.has_name(s1) && t.node_of(s1) == n1,
        t.has_node(n1),
{
    let i = choose|i: int|
        0 <= i < t.entries@.len() && t.entries@[i].node == n1 && t.entries@[i].name@ == s1;
    let j = choose|j: int|
        0 <= j < t.entries@.len() && t.entries@[j].node == n2 && t.entries@[j].name@ == s2;
    if n1 == n2 || s1 == s2 {
        assert(i == j);
    }
    let k = choose|k: int| 0 <= k < t.entries@.len() && t.entries@[k].name@ == s1;
    assert(k == i);
}

} // verus!
