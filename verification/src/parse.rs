//! Block states as text: a block name, and after it, in square
//! brackets, a list of `key=value` properties separated by commas.

use vstd::prelude::*;

verus! {

/// Why a world could not be built.
#[derive(Debug, Clone, Copy, PartialEq, Eq, Structural)]
pub enum BuildError {
    /// A block name that is neither a redstone component nor listed as
    /// solid or transparent.
    UnknownBlock,
    /// Properties that cannot be read, that lack what the block needs,
    /// or that hold a value the block cannot have.
    MalformedMetadata,
    /// A comparator without its output signal.
    MissingOutputSignal,
    /// More blocks or connections than a graph can hold.
    TooLarge,
}

/// The place of the first `c` in `s`, or the length of `s` if it holds
/// none.
pub open spec fn first_index(s: Seq<char>, c: char) -> int
    decreases s.len(),
{
    if s.len() == 0 {
        0
    } else if s[0] == c {
        0
    } else {
        1 + first_index(s.drop_first(), c)
    }
}

/// `s` without the `c`s at its end.
pub open spec fn trimmed(s: Seq<char>, c: char) -> Seq<char>
    decreases s.len(),
{
    if s.len() > 0 && s.last() == c {
        trimmed(s.drop_last(), c)
    } else {
        s
    }
}

/// The pieces into which the `c`s cut `s`: one more than there are
/// `c`s, some of them empty perhaps.
pub open spec fn pieces(s: Seq<char>, c: char) -> Seq<Seq<char>>
    decreases s.len(),
{
    let i = first_index(s, c);
    if i < 0 || i >= s.len() {
        seq![s]
    } else {
        seq![s.take(i)] + pieces(s.skip(i + 1), c)
    }
}

/// The name of the block in the block state `s`: what stands before the
/// first `[`.
pub open spec fn state_name(s: Seq<char>) -> Seq<char> {
    s.take(first_index(s, '['))
}

/// The properties in the block state `s`: what stands after the first
/// `[`, without the `]`s at the end.
pub open spec fn state_props(s: Seq<char>) -> Seq<char> {
    let i = first_index(s, '[');
    if i >= s.len() {
        Seq::empty()
    } else {
        trimmed(s.skip(i + 1), ']')
    }
}

/// The items of the property list `p`.
pub open spec fn items(p: Seq<char>) -> Seq<Seq<char>> {
    pieces(p, ',')
}

/// Whether an item can be read: it is empty, or it holds a `=`.
pub open spec fn item_ok(item: Seq<char>) -> bool {
    item.len() == 0 || first_index(item, '=') < item.len()
}

/// Whether every item of the property list `p` can be read.
pub open spec fn props_ok(p: Seq<char>) -> bool {
    forall|k: int| 0 <= k < items(p).len() ==> item_ok(#[trigger] items(p)[k])
}

/// The key of an item: what stands before its first `=`.
pub open spec fn item_key(item: Seq<char>) -> Seq<char> {
    item.take(first_index(item, '='))
}

/// The value of an item: what stands after its first `=`.
pub open spec fn item_value(item: Seq<char>) -> Seq<char> {
    item.skip(first_index(item, '=') + 1)
}

/// The value that the items give to `key`: that of the last item with
/// this key that is not empty.
pub open spec fn lookup(list: Seq<Seq<char>>, key: Seq<char>) -> Option<Seq<char>>
    decreases list.len(),
{
    if list.len() == 0 {
        None
    } else if list.last().len() > 0 && item_key(list.last()) == key {
        Some(item_value(list.last()))
    } else {
        lookup(list.drop_last(), key)
    }
}

/// The value of the property `key` in the property list `p`.
pub open spec fn prop(p: Seq<char>, key: Seq<char>) -> Option<Seq<char>> {
    lookup(items(p), key)
}

/// Whether `c` is a decimal digit.
pub open spec fn is_digit(c: char) -> bool {
    '0' <= c <= '9'
}

/// The number that the decimal digits `s` write, if `s` is made of
/// decimal digits, one at least.
pub open spec fn number(s: Seq<char>) -> Option<nat>
    decreases s.len(),
{
    if s.len() == 0 || !is_digit(s.last()) {
        None
    } else if s.len() == 1 {
        Some((s.last() as u32 - '0' as u32) as nat)
    } else {
        match number(s.drop_last()) {
            Some(n) => Some(n * 10 + (s.last() as u32 - '0' as u32) as nat),
            None => None,
        }
    }
}

/// The number that `s` writes, if it is at most `limit`.
pub open spec fn small_number(s: Seq<char>, limit: u8) -> Option<u8> {
    match number(s) {
        Some(n) => if n <= limit {
            Some(n as u8)
        } else {
            None
        },
        None => None,
    }
}

/// The first index of a character is within the text, nothing before it
/// is the character, and it is the place of the character unless the
/// text holds none.
pub proof fn lemma_first_index(s: Seq<char>, c: char)
    ensures
        0 <= first_index(s, c) <= s.len(),
        forall|i: int| 0 <= i < first_index(s, c) ==> s[i] != c,
        first_index(s, c) < s.len() ==> s[first_index(s, c)] == c,
    decreases s.len(),
{
    if s.len() > 0 && s[0] != c {
        let t = s.drop_first();
        lemma_first_index(t, c);
        assert forall|i: int| 0 <= i < first_index(s, c) implies s[i] != c by {
            if i > 0 {
                assert(t[i - 1] == s[i]);
            }
        }
    }
}

/// A place before which nothing is the character, and which holds the
/// character or is the end of the text, is the first index of the
/// character.
pub proof fn lemma_first_index_is(s: Seq<char>, c: char, q: int)
    requires
        0 <= q <= s.len(),
        forall|i: int| 0 <= i < q ==> s[i] != c,
        q < s.len() ==> s[q] == c,
    ensures
        first_index(s, c) == q,
{
    lemma_first_index(s, c);
    let f = first_index(s, c);
    if f < q {
        assert(s[f] != c);
    }
    if q < f {
        assert(s[q] != c);
    }
}

/// The characters of a string.
pub fn chars_of(s: &str) -> (v: Vec<char>)
    ensures
        v@ == s@,
{
    let n = s.unicode_len();
    let mut v: Vec<char> = Vec::new();
    let mut i: usize = 0;
    while i < n
        invariant
            i <= n,
            n == s@.len(),
            v@ == s@.take(i as int),
        decreases n - i,
    {
        v.push(s.get_char(i));
        i = i + 1;
        assert(v@ =~= s@.take(i as int));
    }
    assert(s@.take(n as int) =~= s@);
    v
}

/// Whether the characters of `v` from `a` to `b` are the text `lit`.
pub fn range_is(v: &Vec<char>, a: usize, b: usize, lit: &str) -> (r: bool)
    requires
        a <= b <= v@.len(),
    ensures
        r == (v@.subrange(a as int, b as int) == lit@),
{
    let l = chars_of(lit);
    let ghost sub = v@.subrange(a as int, b as int);
    if l.len() != b - a {
        assert(sub.len() == b - a);
        return false;
    }
    let mut i: usize = 0;
    while i < l.len()
        invariant
            i <= l@.len(),
            l@ == lit@,
            l@.len() == b - a,
            a <= b <= v@.len(),
            sub == v@.subrange(a as int, b as int),
            forall|j: int| 0 <= j < i ==> sub[j] == l@[j],
        decreases l@.len() - i,
    {
        if v[a + i] != l[i] {
            assert(sub[i as int] == v@[a + i]);
            assert(sub[i as int] != l@[i as int]);
            return false;
        }
        i = i + 1;
    }
    assert(sub =~= l@);
    true
}

/// The place of the first `c` among the characters of `v` from `a` to
/// `b`, or `b` if there is none.
pub fn find_char(v: &Vec<char>, a: usize, b: usize, c: char) -> (q: usize)
    requires
        a <= b <= v@.len(),
    ensures
        a <= q <= b,
        q - a == first_index(v@.subrange(a as int, b as int), c),
{
    let ghost sub = v@.subrange(a as int, b as int);
    let mut q: usize = a;
    while q < b && v[q] != c
        invariant
            a <= q <= b,
            b <= v@.len(),
            sub == v@.subrange(a as int, b as int),
            forall|i: int| 0 <= i < q - a ==> sub[i] != c,
        decreases b - q,
    {
        q = q + 1;
    }
    proof {
        if q < b {
            assert(sub[q - a] == v@[q as int]);
        }
        lemma_first_index_is(sub, c, q - a);
    }
    q
}

/// The end of the characters of `v` from `a` to `b` once the `c`s at
/// their end are taken off.
pub fn trim_end(v: &Vec<char>, a: usize, b: usize, c: char) -> (e: usize)
    requires
        a <= b <= v@.len(),
    ensures
        a <= e <= b,
        v@.subrange(a as int, e as int) == trimmed(v@.subrange(a as int, b as int), c),
{
    let mut e: usize = b;
    while e > a && v[e - 1] == c
        invariant
            a <= e <= b,
            b <= v@.len(),
            trimmed(v@.subrange(a as int, e as int), c) == trimmed(
                v@.subrange(a as int, b as int),
                c,
            ),
        decreases e - a,
    {
        proof {
            let s = v@.subrange(a as int, e as int);
            assert(s.last() == v@[e - 1]);
            assert(s.drop_last() =~= v@.subrange(a as int, e - 1));
        }
        e = e - 1;
    }
    proof {
        let s = v@.subrange(a as int, e as int);
        if e > a {
            assert(s.last() == v@[e - 1]);
        }
    }
    e
}

/// Where the pieces lie into which the `c`s cut the characters of `v`
/// from `a` to `b`: the start and the end of each.
pub fn split_ranges(v: &Vec<char>, a: usize, b: usize, c: char) -> (r: Vec<(usize, usize)>)
    requires
        a <= b <= v@.len(),
    ensures
        r@.len() == pieces(v@.subrange(a as int, b as int), c).len(),
        forall|k: int|
            0 <= k < r@.len() ==> {
                &&& a <= (#[trigger] r@[k]).0 <= r@[k].1 <= b
                &&& v@.subrange(r@[k].0 as int, r@[k].1 as int) == pieces(
                    v@.subrange(a as int, b as int),
                    c,
                )[k]
            },
{
    let ghost whole = pieces(v@.subrange(a as int, b as int), c);
    let mut r: Vec<(usize, usize)> = Vec::new();
    let mut pos: usize = a;
    loop
        invariant_except_break
            a <= pos <= b,
            b <= v@.len(),
            whole == pieces(v@.subrange(a as int, b as int), c),
            r@.len() + pieces(v@.subrange(pos as int, b as int), c).len() == whole.len(),
            forall|k: int|
                0 <= k < r@.len() ==> {
                    &&& a <= (#[trigger] r@[k]).0 <= r@[k].1 <= b
                    &&& v@.subrange(r@[k].0 as int, r@[k].1 as int) == whole[k]
                },
            forall|k: int|
                0 <= k < pieces(v@.subrange(pos as int, b as int), c).len()
                    ==> whole[r@.len() as int + k]
                    == #[trigger] pieces(v@.subrange(pos as int, b as int), c)[k],
        ensures
            b <= v@.len(),
            r@.len() == whole.len(),
            forall|k: int|
                0 <= k < r@.len() ==> {
                    &&& a <= (#[trigger] r@[k]).0 <= r@[k].1 <= b
                    &&& v@.subrange(r@[k].0 as int, r@[k].1 as int) == whole[k]
                },
        decreases b - pos + 1,
    {
        let q = find_char(v, pos, b, c);
        let ghost rest = v@.subrange(pos as int, b as int);
        let ghost before = r@;
        proof {
            assert(rest.take(q - pos) =~= v@.subrange(pos as int, q as int));
            assert(pieces(rest, c)[0] == rest.take(q - pos) || pieces(rest, c)[0] == rest) by {
                if q - pos >= rest.len() {
                    assert(pieces(rest, c) == seq![rest]);
                } else {
                    assert(pieces(rest, c) == seq![rest.take(q - pos)] + pieces(
                        rest.skip(q - pos + 1),
                        c,
                    ));
                }
            }
        }
        r.push((pos, q));
        if q == b {
            proof {
                assert(pieces(rest, c) == seq![rest]);
                assert(rest.take(q - pos) =~= rest);
                assert forall|k: int| 0 <= k < r@.len() implies a <= (#[trigger] r@[k]).0
                    <= r@[k].1 <= b && v@.subrange(r@[k].0 as int, r@[k].1 as int)
                    == whole[k] by {
                    if k < before.len() {
                        assert(r@[k] == before[k]);
                    } else {
                        assert(whole[before.len() as int + 0] == pieces(rest, c)[0]);
                    }
                }
            }
            break;
        }
        proof {
            let tail = rest.skip(q - pos + 1);
            assert(tail =~= v@.subrange(q + 1, b as int));
            let next = pieces(tail, c);
            assert(pieces(rest, c) == seq![rest.take(q - pos)] + next);
            assert forall|k: int| 0 <= k < r@.len() implies a <= (#[trigger] r@[k]).0 <= r@[k].1
                <= b && v@.subrange(r@[k].0 as int, r@[k].1 as int) == whole[k] by {
                if k < before.len() {
                    assert(r@[k] == before[k]);
                } else {
                    assert(whole[before.len() as int + 0] == pieces(rest, c)[0]);
                }
            }
            assert forall|k: int| 0 <= k < next.len() implies whole[r@.len() as int + k]
                == #[trigger] next[k] by {
                assert(pieces(rest, c)[k + 1] == next[k]);
                assert(whole[before.len() as int + (k + 1)] == pieces(rest, c)[k + 1]);
            }
        }
        pos = q + 1;
    }
    r
}

/// The number that the characters of `v` from `a` to `b` write, if it
/// is at most `limit`.
pub fn parse_small(v: &Vec<char>, a: usize, b: usize, limit: u8) -> (r: Option<u8>)
    requires
        a <= b <= v@.len(),
    ensures
        r == small_number(v@.subrange(a as int, b as int), limit),
{
    let ghost sub = v@.subrange(a as int, b as int);
    if a == b {
        return None;
    }
    let mut acc: u32 = 0;
    let mut over = false;
    let mut i: usize = a;
    while i < b
        invariant
            a <= i <= b,
            a < b,
            b <= v@.len(),
            sub == v@.subrange(a as int, b as int),
            acc <= limit,
            i > a ==> number(sub.take(i - a)) is Some,
            i > a && !over ==> number(sub.take(i - a)) == Some(acc as nat),
            i > a && over ==> number(sub.take(i - a))->0 > limit,
            i == a ==> acc == 0 && !over,
        decreases b - i,
    {
        let c = v[i];
        let ghost head = sub.take(i - a);
        let ghost more = sub.take(i - a + 1);
        proof {
            assert(more.last() == c);
            assert(more.drop_last() =~= head);
        }
        if c < '0' || c > '9' {
            proof {
                lemma_number_prefix(sub, i - a + 1);
            }
            return None;
        }
        let d: u32 = (c as u32) - ('0' as u32);
        if !over {
            let next = acc * 10 + d;
            if next > limit as u32 {
                over = true;
            } else {
                acc = next;
            }
        } else {
            proof {
                assert(number(more)->0 >= number(head)->0) by (nonlinear_arith)
                    requires
                        number(more)->0 == number(head)->0 * 10 + d,
                ;
            }
        }
        i = i + 1;
    }
    proof {
        assert(sub.take(b - a) =~= sub);
    }
    if over {
        None
    } else {
        Some(acc as u8)
    }
}

/// A text that writes a number has only beginnings that write numbers.
pub proof fn lemma_number_prefix(s: Seq<char>, k: int)
    requires
        1 <= k <= s.len(),
        number(s.take(k)) is None,
    ensures
        number(s) is None,
    decreases s.len() - k,
{
    if k < s.len() {
        let t = s.take(k + 1);
        assert(t.drop_last() =~= s.take(k));
        lemma_number_prefix(s, k + 1);
    } else {
        assert(s.take(k) =~= s);
    }
}

} // verus!
