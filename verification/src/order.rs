//! Index lists in ascending order: the one order in which the members of
//! a set of indices are visited.

use itertools::Itertools;
use vstd::prelude::*;

verus! {

/// The list without its repetitions: of each index the first occurrence
/// stays, in its place among the others.
pub open spec fn first_occurrences(s: Seq<u32>) -> Seq<u32>
    decreases s.len(),
{
    if s.len() == 0 {
        Seq::empty()
    } else if s.drop_last().contains(s.last()) {
        first_occurrences(s.drop_last())
    } else {
        first_occurrences(s.drop_last()).push(s.last())
    }
}

/// Calls `Itertools::unique` on the items of the list: each item comes
/// out once, where it first stood.
#[verifier::external_body]
pub(crate) fn unique_ids(v: &Vec<u32>) -> (r: Vec<u32>)
    ensures
        r@ == first_occurrences(v@),
{
    v.iter().copied().unique().collect()
}

/// The first occurrences of a list hold what the list holds, and nothing
/// twice.
pub proof fn lemma_first_occurrences(s: Seq<u32>)
    ensures
        first_occurrences(s).no_duplicates(),
        forall|k: u32|
            #![trigger first_occurrences(s).contains(k)]
            #![trigger s.contains(k)]
            first_occurrences(s).contains(k) <==> s.contains(k),
        first_occurrences(s).len() <= s.len(),
    decreases s.len(),
{
    if s.len() > 0 {
        let init = s.drop_last();
        let x = s.last();
        lemma_first_occurrences(init);
        let f0 = first_occurrences(init);
        let f = first_occurrences(s);
        assert forall|k: u32| f.contains(k) <==> s.contains(k) by {
            if f.contains(k) {
                let i = choose|i: int| 0 <= i < f.len() && f[i] == k;
                if i < f0.len() {
                    assert(f0[i] == k);
                    assert(f0.contains(k));
                    let j = choose|j: int| 0 <= j < init.len() && init[j] == k;
                    assert(s[j] == k);
                } else {
                    assert(s[s.len() - 1] == k);
                }
            }
            if s.contains(k) {
                let j = choose|j: int| 0 <= j < s.len() && s[j] == k;
                if j < init.len() {
                    assert(init[j] == k);
                    assert(init.contains(k));
                    let i = choose|i: int| 0 <= i < f0.len() && f0[i] == k;
                    assert(f[i] == k);
                } else if init.contains(x) {
                    let i = choose|i: int| 0 <= i < f0.len() && f0[i] == k;
                    assert(f[i] == k);
                } else {
                    assert(f[f.len() - 1] == k);
                }
            }
        }
        if !init.contains(x) {
            assert(!f0.contains(x));
        }
    }
}

/// Whether the list is strictly increasing.
pub open spec fn increasing(s: Seq<u32>) -> bool {
    forall|i: int, j: int| 0 <= i < j < s.len() ==> s[i] < s[j]
}

/// Whether `s` lists the members of `set`, each once, in ascending
/// order.
pub open spec fn lists(s: Seq<u32>, set: Set<u32>) -> bool {
    increasing(s) && forall|k: u32| s.contains(k) <==> set.contains(k)
}

/// The members of a finite set of indices in ascending order.
pub open spec fn ascending(set: Set<u32>) -> Seq<u32> {
    choose|s: Seq<u32>| lists(s, set)
}

/// A strictly increasing list holds nothing twice.
pub proof fn lemma_increasing_no_duplicates(s: Seq<u32>)
    requires
        increasing(s),
    ensures
        s.no_duplicates(),
{
    assert forall|i: int, j: int| 0 <= i < s.len() && 0 <= j < s.len() && i != j implies s[i]
        != s[j] by {
        if i < j {
            assert(s[i] < s[j]);
        } else {
            assert(s[j] < s[i]);
        }
    }
}

/// Two strictly increasing lists with the same members are the same
/// list.
pub proof fn lemma_increasing_unique(a: Seq<u32>, b: Seq<u32>)
    requires
        increasing(a),
        increasing(b),
        forall|k: u32| a.contains(k) <==> b.contains(k),
    ensures
        a == b,
    decreases a.len(),
{
    if a.len() == 0 {
        if b.len() > 0 {
            assert(b.contains(b[0]));
            assert(a.contains(b[0]));
        }
        assert(a =~= b);
    } else {
        let x = a.last();
        assert(a.contains(x));
        assert(b.contains(x));
        let jx = choose|j: int| 0 <= j < b.len() && b[j] == x;
        let y = b.last();
        assert(b.contains(y));
        assert(a.contains(y));
        let iy = choose|i: int| 0 <= i < a.len() && a[i] == y;
        assert(y <= x) by {
            if iy < a.len() - 1 {
                assert(a[iy] < a[a.len() - 1]);
            }
        }
        assert(x <= y) by {
            if jx < b.len() - 1 {
                assert(b[jx] < b[b.len() - 1]);
            }
        }
        let a0 = a.drop_last();
        let b0 = b.drop_last();
        assert forall|k: u32| a0.contains(k) <==> b0.contains(k) by {
            if a0.contains(k) {
                let i = choose|i: int| 0 <= i < a0.len() && a0[i] == k;
                assert(a[i] == k);
                assert(a[i] < a[a.len() - 1]);
                assert(a.contains(k));
                assert(b.contains(k));
                let j = choose|j: int| 0 <= j < b.len() && b[j] == k;
                assert(j < b.len() - 1);
                assert(b0[j] == k);
            }
            if b0.contains(k) {
                let j = choose|j: int| 0 <= j < b0.len() && b0[j] == k;
                assert(b[j] == k);
                assert(b[j] < b[b.len() - 1]);
                assert(b.contains(k));
                assert(a.contains(k));
                let i = choose|i: int| 0 <= i < a.len() && a[i] == k;
                assert(i < a.len() - 1);
                assert(a0[i] == k);
            }
        }
        lemma_increasing_unique(a0, b0);
        assert(a =~= a0.push(x));
        assert(b =~= b0.push(y));
    }
}

/// A list that lists a set is the ascending list of that set.
pub proof fn lemma_lists_is_ascending(s: Seq<u32>, set: Set<u32>)
    requires
        lists(s, set),
    ensures
        ascending(set) == s,
{
    let t = ascending(set);
    assert(lists(t, set));
    lemma_increasing_unique(s, t);
}

/// Puts `x` into the ascending list `v`, at its place.
fn insert_ascending(v: &mut Vec<u32>, x: u32)
    requires
        increasing(old(v)@),
        !old(v)@.contains(x),
    ensures
        increasing(final(v)@),
        forall|k: u32| final(v)@.contains(k) <==> (k == x || old(v)@.contains(k)),
        final(v)@.len() == old(v)@.len() + 1,
{
    let mut pos: usize = 0;
    while pos < v.len() && v[pos] < x
        invariant
            pos <= v.len(),
            v@ == old(v)@,
            forall|i: int| 0 <= i < pos ==> v@[i] < x,
        decreases v.len() - pos,
    {
        pos = pos + 1;
    }
    let ghost before = v@;
    proof {
        if pos < before.len() {
            assert(before.contains(before[pos as int]));
            assert(before[pos as int] > x);
        }
    }
    v.insert(pos, x);
    proof {
        let after = v@;
        assert(after == before.insert(pos as int, x));
        assert forall|i: int, j: int| 0 <= i < j < after.len() implies after[i] < after[j] by {
            if j < pos {
                assert(after[i] == before[i] && after[j] == before[j]);
            } else if j == pos {
                assert(after[i] == before[i]);
            } else if i < pos {
                assert(after[i] == before[i] && after[j] == before[j - 1]);
                assert(before[pos as int] <= before[j - 1]) by {
                    if pos < j - 1 {
                        assert(before[pos as int] < before[j - 1]);
                    }
                }
            } else if i == pos {
                assert(after[j] == before[j - 1]);
                assert(before[pos as int] <= before[j - 1]) by {
                    if pos < j - 1 {
                        assert(before[pos as int] < before[j - 1]);
                    }
                }
            } else {
                assert(after[i] == before[i - 1] && after[j] == before[j - 1]);
            }
        }
        assert forall|k: u32| after.contains(k) <==> (k == x || before.contains(k)) by {
            if after.contains(k) {
                let i = choose|i: int| 0 <= i < after.len() && after[i] == k;
                if i < pos {
                    assert(before[i] == k);
                } else if i > pos {
                    assert(before[i - 1] == k);
                }
            }
            if k == x {
                assert(after[pos as int] == k);
            }
            if before.contains(k) {
                let i = choose|i: int| 0 <= i < before.len() && before[i] == k;
                if i < pos {
                    assert(after[i] == k);
                } else {
                    assert(after[i + 1] == k);
                }
            }
        }
    }
}

/// The given indices in ascending order.
pub fn sorted_ids(v: &Vec<u32>) -> (r: Vec<u32>)
    requires
        v@.no_duplicates(),
    ensures
        r@ == ascending(v@.to_set()),
        lists(r@, v@.to_set()),
        r@.len() == v@.len(),
{
    let mut r: Vec<u32> = Vec::new();
    let mut i: usize = 0;
    while i < v.len()
        invariant
            i <= v.len(),
            v@.no_duplicates(),
            increasing(r@),
            r@.len() == i,
            forall|k: u32| r@.contains(k) <==> exists|j: int| 0 <= j < i && v@[j] == k,
        decreases v.len() - i,
    {
        let x = v[i];
        proof {
            if r@.contains(x) {
                let j = choose|j: int| 0 <= j < i && v@[j] == x;
                assert(v@[j] == v@[i as int]);
            }
        }
        let ghost before = r@;
        insert_ascending(&mut r, x);
        proof {
            assert forall|k: u32| r@.contains(k) <==> exists|j: int|
                0 <= j < i + 1 && v@[j] == k by {
                if r@.contains(k) {
                    if k == x {
                        assert(v@[i as int] == k);
                    } else {
                        assert(before.contains(k));
                        let j = choose|j: int| 0 <= j < i && v@[j] == k;
                        assert(0 <= j < i + 1 && v@[j] == k);
                    }
                }
                if exists|j: int| 0 <= j < i + 1 && v@[j] == k {
                    let j = choose|j: int| 0 <= j < i + 1 && v@[j] == k;
                    if j < i {
                        assert(before.contains(k));
                    }
                }
            }
        }
        i = i + 1;
    }
    proof {
        assert forall|k: u32| r@.contains(k) <==> v@.to_set().contains(k) by {
            if r@.contains(k) {
                let j = choose|j: int| 0 <= j < v.len() && v@[j] == k;
                assert(v@.contains(k));
            }
            if v@.to_set().contains(k) {
                assert(v@.contains(k));
                let j = choose|j: int| 0 <= j < v@.len() && v@[j] == k;
                assert(0 <= j < i && v@[j] == k);
            }
        }
        lemma_lists_is_ascending(r@, v@.to_set());
    }
    r
}

} // verus!
