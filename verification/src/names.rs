//! Numbering of names, so that a graph over names can be searched over
//! numbers, and the dictionary order of keys.

use vstd::prelude::*;
use vstd::string::*;
use crate::graph::{is_route, reaches};
use crate::text::str_eq;

verus! {

/// No two entries of `names` hold the same characters.
pub open spec fn distinct_names(names: Seq<String>) -> bool {
    forall|i: int, j: int| 0 <= i < j < names.len() ==> names[i]@ != names[j]@
}

/// `index_arcs` are `name_arcs` with each name replaced by its position in
/// `names`.
pub open spec fn numbered(
    names: Seq<String>,
    index_arcs: Seq<(usize, usize)>,
    name_arcs: Seq<(Seq<char>, Seq<char>)>,
) -> bool {
    &&& index_arcs.len() == name_arcs.len()
    &&& forall|j: int|
        0 <= j < index_arcs.len() ==> {
            &&& (#[trigger] index_arcs[j]).0 < names.len()
            &&& index_arcs[j].1 < names.len()
            &&& names[index_arcs[j].0 as int]@ == name_arcs[j].0
            &&& names[index_arcs[j].1 as int]@ == name_arcs[j].1
        }
}

/// Arcs stay numbered when names are added at the end, and when two arcs are
/// added that run between names that are there, one the other turned round.
pub proof fn lemma_numbered_grows(
    names_before: Seq<String>,
    names: Seq<String>,
    index_arcs: Seq<(usize, usize)>,
    name_arcs: Seq<(Seq<char>, Seq<char>)>,
)
    requires
        numbered(names_before, index_arcs, name_arcs),
        names_before.len() <= names.len(),
        forall|k: int| 0 <= k < names_before.len() ==> names[k] == names_before[k],
    ensures
        numbered(names, index_arcs, name_arcs),
        forall|p: usize, c: usize|
            p < names.len() && c < names.len() ==> #[trigger] numbered(
                names,
                index_arcs.push((p, c)).push((c, p)),
                name_arcs.push((names[p as int]@, names[c as int]@)).push(
                    (names[c as int]@, names[p as int]@),
                ),
            ),
{
    assert forall|j: int| 0 <= j < index_arcs.len() implies {
        &&& (#[trigger] index_arcs[j]).0 < names.len()
        &&& index_arcs[j].1 < names.len()
        &&& names[index_arcs[j].0 as int]@ == name_arcs[j].0
        &&& names[index_arcs[j].1 as int]@ == name_arcs[j].1
    } by {
        assert(names[index_arcs[j].0 as int] == names_before[index_arcs[j].0 as int]);
        assert(names[index_arcs[j].1 as int] == names_before[index_arcs[j].1 as int]);
    }
    assert forall|p: usize, c: usize| p < names.len() && c < names.len() implies #[trigger] numbered(
        names,
        index_arcs.push((p, c)).push((c, p)),
        name_arcs.push((names[p as int]@, names[c as int]@)).push(
            (names[c as int]@, names[p as int]@),
        ),
    ) by {
        let more = index_arcs.push((p, c)).push((c, p));
        let more_names = name_arcs.push((names[p as int]@, names[c as int]@)).push(
            (names[c as int]@, names[p as int]@),
        );
        assert forall|j: int| 0 <= j < more.len() implies {
            &&& (#[trigger] more[j]).0 < names.len()
            &&& more[j].1 < names.len()
            &&& names[more[j].0 as int]@ == more_names[j].0
            &&& names[more[j].1 as int]@ == more_names[j].1
        } by {
            if j < index_arcs.len() {
                assert(more[j] == index_arcs[j]);
                assert(more_names[j] == name_arcs[j]);
            }
        }
    }
}

/// The position of `name` in `names`.
pub fn position(names: &Vec<String>, name: &str) -> (r: Option<usize>)
    ensures
        match r {
            Some(i) => i < names@.len() && names@[i as int]@ == name@,
            None => forall|k: int| 0 <= k < names@.len() ==> names@[k]@ != name@,
        },
{
    let mut i: usize = 0;
    while i < names.len()
        invariant
            i <= names@.len(),
            forall|k: int| 0 <= k < i ==> names@[k]@ != name@,
        decreases names@.len() - i,
    {
        if str_eq(names[i].as_str(), name) {
            return Some(i);
        }
        i = i + 1;
    }
    None
}

/// The position of `name` in `names`, after adding it at the end where it was
/// missing.
pub fn intern(names: &mut Vec<String>, name: &str) -> (i: usize)
    requires
        distinct_names(old(names)@),
    ensures
        distinct_names(final(names)@),
        i < final(names)@.len(),
        final(names)@[i as int]@ == name@,
        old(names)@.len() <= final(names)@.len() <= old(names)@.len() + 1,
        forall|k: int| 0 <= k < old(names)@.len() ==> final(names)@[k] == old(names)@[k],
        final(names)@.len() == old(names)@.len() + 1 ==> i == old(names)@.len(),
        final(names)@.len() == old(names)@.len() <==> exists|k: int|
            0 <= k < old(names)@.len() && old(names)@[k]@ == name@,
{
    match position(names, name) {
        Some(i) => i,
        None => {
            names.push(name.to_owned());
            names.len() - 1
        },
    }
}

/// `a` comes before `b` in dictionary order, byte by byte.
pub open spec fn comes_before(a: Seq<u8>, b: Seq<u8>) -> bool
    decreases a.len(),
{
    if b.len() == 0 {
        false
    } else if a.len() == 0 {
        true
    } else if a[0] != b[0] {
        a[0] < b[0]
    } else {
        comes_before(a.drop_first(), b.drop_first())
    }
}

/// The key `(parent_a, child_a)` comes before the key `(parent_b, child_b)`: by the parents, and by
/// the children where the parents are the same.
pub open spec fn key_before(parent_a: Seq<u8>, child_a: Seq<u8>, parent_b: Seq<u8>, child_b: Seq<u8>) -> bool {
    comes_before(parent_a, parent_b) || (parent_a == parent_b && comes_before(child_a, child_b))
}

/// What comes before something that comes before a third comes before the
/// third.
pub proof fn lemma_comes_before_transitive(a: Seq<u8>, b: Seq<u8>, c: Seq<u8>)
    requires
        comes_before(a, b),
        comes_before(b, c),
    ensures
        comes_before(a, c),
    decreases a.len(),
{
    if a.len() != 0 && a[0] == b[0] && b[0] == c[0] {
        lemma_comes_before_transitive(a.drop_first(), b.drop_first(), c.drop_first());
    }
}

/// How two byte strings stand to each other.
#[derive(Clone, Copy, Debug, PartialEq, Eq, Structural)]
pub enum Standing {
    Before,
    Same,
    After,
}

/// How `a` stands to `b` in dictionary order.
pub fn compare_bytes(a: &[u8], b: &[u8]) -> (r: Standing)
    ensures
        r == Standing::Before <==> comes_before(a@, b@),
        r == Standing::Same <==> a@ == b@,
        r == Standing::After <==> comes_before(b@, a@),
{
    let mut i: usize = 0;
    assert(a@.skip(0) =~= a@ && b@.skip(0) =~= b@);
    while i < a.len() && i < b.len() && a[i] == b[i]
        invariant
            i <= a@.len(),
            i <= b@.len(),
            a@.take(i as int) == b@.take(i as int),
            comes_before(a@, b@) == comes_before(a@.skip(i as int), b@.skip(i as int)),
            comes_before(b@, a@) == comes_before(b@.skip(i as int), a@.skip(i as int)),
        decreases a@.len() - i,
    {
        assert(a@.skip(i as int).drop_first() =~= a@.skip(i + 1));
        assert(b@.skip(i as int).drop_first() =~= b@.skip(i + 1));
        assert(a@.take(i + 1) =~= a@.take(i as int).push(a@[i as int]));
        assert(b@.take(i + 1) =~= b@.take(i as int).push(b@[i as int]));
        i = i + 1;
    }
    let ghost ra = a@.skip(i as int);
    let ghost rb = b@.skip(i as int);
    if i == a.len() && i == b.len() {
        assert(a@ =~= a@.take(i as int) && b@ =~= b@.take(i as int));
        Standing::Same
    } else if i == a.len() {
        assert(a@ != b@);
        Standing::Before
    } else if i == b.len() {
        assert(a@ != b@);
        Standing::After
    } else {
        assert(ra[0] == a@[i as int] && rb[0] == b@[i as int]);
        assert(a@ != b@);
        if a[i] < b[i] {
            Standing::Before
        } else {
            Standing::After
        }
    }
}

/// The list holds the number `k`.
pub open spec fn lists(order: Seq<usize>, k: int) -> bool {
    exists|j: int| 0 <= j < order.len() && order[j] == k
}

/// A list holds each of the numbers below `n`, and no other number.
pub open spec fn holds_each(order: Seq<usize>, n: nat) -> bool {
    &&& forall|j: int| 0 <= j < order.len() ==> (#[trigger] order[j]) < n
    &&& forall|k: int| 0 <= k < n ==> #[trigger] lists(order, k)
}

/// The bytes of the keys.
pub open spec fn key_bytes(keys: Seq<(&str, &str)>) -> Seq<(Seq<u8>, Seq<u8>)> {
    Seq::new(keys.len(), |i: int| (keys[i].0.spec_bytes(), keys[i].1.spec_bytes()))
}

/// The key `a` comes before the key `b`.
pub open spec fn pair_before(a: (Seq<u8>, Seq<u8>), b: (Seq<u8>, Seq<u8>)) -> bool {
    key_before(a.0, a.1, b.0, b.1)
}

/// Nothing comes before itself.
pub proof fn lemma_never_before_itself(a: Seq<u8>)
    ensures
        !comes_before(a, a),
    decreases a.len(),
{
    if a.len() != 0 {
        lemma_never_before_itself(a.drop_first());
    }
}

/// Of two byte strings that are not the same, one comes before the other.
pub proof fn lemma_one_comes_first(a: Seq<u8>, b: Seq<u8>)
    ensures
        comes_before(a, b) || comes_before(b, a) || a == b,
    decreases a.len(),
{
    if a.len() != 0 && b.len() != 0 && a[0] == b[0] {
        lemma_one_comes_first(a.drop_first(), b.drop_first());
        if a.drop_first() == b.drop_first() {
            assert(a =~= seq![a[0]] + a.drop_first());
            assert(b =~= seq![b[0]] + b.drop_first());
        }
    } else if a.len() == 0 && b.len() == 0 {
        assert(a =~= b);
    }
}

/// The order of keys is an order: no key comes before itself, of two keys that
/// differ one comes first, and the order carries over a key in between.
pub proof fn lemma_key_order(
    a: (Seq<u8>, Seq<u8>),
    b: (Seq<u8>, Seq<u8>),
    c: (Seq<u8>, Seq<u8>),
)
    ensures
        !pair_before(a, a),
        pair_before(a, b) || pair_before(b, a) || a == b,
        pair_before(a, b) && pair_before(b, c) ==> pair_before(a, c),
        pair_before(a, b) ==> !pair_before(b, a),
{
    lemma_never_before_itself(a.0);
    lemma_never_before_itself(a.1);
    lemma_one_comes_first(a.0, b.0);
    lemma_one_comes_first(a.1, b.1);
    if comes_before(a.0, b.0) && comes_before(b.0, c.0) {
        lemma_comes_before_transitive(a.0, b.0, c.0);
    }
    if a.0 == b.0 && b.0 == c.0 && comes_before(a.1, b.1) && comes_before(b.1, c.1) {
        lemma_comes_before_transitive(a.1, b.1, c.1);
    }
    if comes_before(a.0, b.0) && comes_before(b.0, a.0) {
        lemma_comes_before_transitive(a.0, b.0, a.0);
    }
    if comes_before(a.1, b.1) && comes_before(b.1, a.1) {
        lemma_comes_before_transitive(a.1, b.1, a.1);
    }
}

fn key_comes_before(a: (&str, &str), b: (&str, &str)) -> (r: bool)
    ensures
        r == pair_before((a.0.spec_bytes(), a.1.spec_bytes()), (b.0.spec_bytes(), b.1.spec_bytes())),
{
    proof {
        lemma_key_order(
            (a.0.spec_bytes(), a.1.spec_bytes()),
            (b.0.spec_bytes(), b.1.spec_bytes()),
            (a.0.spec_bytes(), a.1.spec_bytes()),
        );
        lemma_never_before_itself(a.0.spec_bytes());
        if comes_before(a.0.spec_bytes(), b.0.spec_bytes()) && comes_before(
            b.0.spec_bytes(),
            a.0.spec_bytes(),
        ) {
            lemma_comes_before_transitive(a.0.spec_bytes(), b.0.spec_bytes(), a.0.spec_bytes());
        }
    }
    match compare_bytes(a.0.as_bytes(), b.0.as_bytes()) {
        Standing::Before => true,
        Standing::After => false,
        Standing::Same => match compare_bytes(a.1.as_bytes(), b.1.as_bytes()) {
            Standing::Before => true,
            _ => false,
        },
    }
}

/// `order` lists positions of `keys` so that no key comes before one that is
/// listed earlier, and of two keys that are the same the one that stands
/// first is listed first.
pub open spec fn in_key_order(keys: Seq<(Seq<u8>, Seq<u8>)>, order: Seq<usize>) -> bool {
    forall|i: int, j: int|
        0 <= i < j < order.len() ==> {
            &&& !pair_before(keys[(#[trigger] order[j]) as int], keys[(#[trigger] order[i]) as int])
            &&& keys[order[i] as int] == keys[order[j] as int] ==> order[i] < order[j]
        }
}

/// The positions of the keys, each once, in the order of the keys; of keys
/// that are the same, in the order in which they stand.
pub fn order_by_key(keys: &Vec<(&str, &str)>) -> (order: Vec<usize>)
    ensures
        order@.len() == keys@.len(),
        holds_each(order@, keys@.len() as nat),
        in_key_order(key_bytes(keys@), order@),
{
    let n = keys.len();
    let ghost kb = key_bytes(keys@);
    let mut order: Vec<usize> = Vec::new();
    let mut k: usize = 0;
    while k < n
        invariant
            k <= n,
            n == keys@.len(),
            kb == key_bytes(keys@),
            order@.len() == k,
            forall|j: int| 0 <= j < k ==> (#[trigger] order@[j]) < k,
            forall|i: int| 0 <= i < k ==> #[trigger] lists(order@, i),
            in_key_order(kb, order@),
        decreases n - k,
    {
        // the place of key k among those taken so far
        let mut at: usize = k;
        while at > 0 && key_comes_before(keys[k], keys[order[at - 1]])
            invariant
                at <= k,
                k < n,
                n == keys@.len(),
                kb == key_bytes(keys@),
                order@.len() == k,
                forall|j: int| 0 <= j < k ==> (#[trigger] order@[j]) < k,
                forall|j: int|
                    at <= j < k ==> pair_before(kb[k as int], kb[(#[trigger] order@[j]) as int]),
            decreases at,
        {
            at = at - 1;
        }
        let ghost before = order@;
        order.insert(at, k);
        proof {
            assert forall|j: int| 0 <= j < k + 1 implies (#[trigger] order@[j]) < k + 1 by {
                if j < at {
                    assert(order@[j] == before[j]);
                } else if j > at {
                    assert(order@[j] == before[j - 1]);
                }
            }
            assert forall|i: int| 0 <= i < k + 1 implies #[trigger] lists(order@, i) by {
                if i == k {
                    assert(order@[at as int] == k);
                } else {
                    assert(lists(before, i));
                    let j0 = choose|j0: int| 0 <= j0 < before.len() && before[j0] == i;
                    if j0 < at {
                        assert(order@[j0] == i);
                    } else {
                        assert(order@[j0 + 1] == i);
                    }
                }
            }
            assert forall|i: int, j: int| 0 <= i < j < order@.len() implies {
                &&& !pair_before(
                    kb[(#[trigger] order@[j]) as int],
                    kb[(#[trigger] order@[i]) as int],
                )
                &&& kb[order@[i] as int] == kb[order@[j] as int] ==> order@[i] < order@[j]
            } by {
                let oi = if i < at {
                    before[i]
                } else if i == at {
                    k
                } else {
                    before[i - 1]
                };
                let oj = if j < at {
                    before[j]
                } else if j == at {
                    k
                } else {
                    before[j - 1]
                };
                assert(order@[i] == oi && order@[j] == oj);
                if j == at {
                    // the new key against one before its place
                    let last = before[at - 1];
                    lemma_key_order(kb[k as int], kb[oi as int], kb[last as int]);
                    lemma_key_order(kb[oi as int], kb[last as int], kb[k as int]);
                    if i < at - 1 {
                        assert(!pair_before(kb[before[at - 1] as int], kb[before[i] as int]));
                    }
                } else if i == at {
                    // a key after the new key's place against the new key
                    assert(pair_before(kb[k as int], kb[before[j - 1] as int]));
                    lemma_key_order(kb[k as int], kb[oj as int], kb[k as int]);
                } else {
                    let bi = if i < at {
                        i
                    } else {
                        i - 1
                    };
                    let bj = if j < at {
                        j
                    } else {
                        j - 1
                    };
                    assert(!pair_before(kb[before[bj] as int], kb[before[bi] as int]));
                    assert(kb[before[bi] as int] == kb[before[bj] as int] ==> before[bi]
                        < before[bj]);
                }
            }
        }
        k = k + 1;
    }
    order
}

/// A route over numbers is, name for number, a route over names.
pub proof fn lemma_route_named(
    names: Seq<String>,
    index_arcs: Seq<(usize, usize)>,
    name_arcs: Seq<(Seq<char>, Seq<char>)>,
    a: usize,
    hops: Seq<(usize, usize)>,
    b: usize,
)
    requires
        numbered(names, index_arcs, name_arcs),
        a < names.len(),
        is_route(index_arcs, a, hops, b),
    ensures
        b < names.len(),
        reaches(name_arcs, names[a as int]@, names[b as int]@),
    decreases hops.len(),
{
    if hops.len() == 0 {
        assert(is_route(name_arcs, names[a as int]@, Seq::empty(), names[b as int]@));
    } else {
        let j = choose|j: int| 0 <= j < index_arcs.len() && index_arcs[j] == hops[0];
        let next = hops[0].1;
        lemma_route_named(names, index_arcs, name_arcs, next, hops.drop_first(), b);
        let rest = choose|rest: Seq<(Seq<char>, Seq<char>)>|
            is_route(name_arcs, names[next as int]@, rest, names[b as int]@);
        let whole = seq![name_arcs[j]] + rest;
        assert(whole.drop_first() =~= rest);
        assert(name_arcs.contains(whole[0]));
        assert(is_route(name_arcs, names[a as int]@, whole, names[b as int]@));
    }
}

/// A route over names that starts at a numbered name is a route of the same
/// length over numbers, and its end is numbered too.
pub proof fn lemma_route_numbered(
    names: Seq<String>,
    index_arcs: Seq<(usize, usize)>,
    name_arcs: Seq<(Seq<char>, Seq<char>)>,
    a: usize,
    hops: Seq<(Seq<char>, Seq<char>)>,
    end: Seq<char>,
)
    requires
        numbered(names, index_arcs, name_arcs),
        distinct_names(names),
        a < names.len(),
        is_route(name_arcs, names[a as int]@, hops, end),
    ensures
        exists|b: usize, numbers: Seq<(usize, usize)>|
            b < names.len() && names[b as int]@ == end && #[trigger] is_route(
                index_arcs,
                a,
                numbers,
                b,
            ) && numbers.len() == hops.len(),
    decreases hops.len(),
{
    if hops.len() == 0 {
        let none = Seq::<(usize, usize)>::empty();
        assert(is_route(index_arcs, a, none, a));
        assert(a < names.len() && names[a as int]@ == end && is_route(index_arcs, a, none, a)
            && none.len() == hops.len());
    } else {
        let j = choose|j: int| 0 <= j < name_arcs.len() && name_arcs[j] == hops[0];
        let u = index_arcs[j].0;
        let v = index_arcs[j].1;
        assert(u == a) by {
            if u != a {
                if (u as int) < (a as int) {
                    assert(names[u as int]@ != names[a as int]@);
                } else {
                    assert(names[a as int]@ != names[u as int]@);
                }
            }
        }
        lemma_route_numbered(names, index_arcs, name_arcs, v, hops.drop_first(), end);
        let (b, rest) = choose|b: usize, rest: Seq<(usize, usize)>|
            b < names.len() && names[b as int]@ == end && #[trigger] is_route(
                index_arcs,
                v,
                rest,
                b,
            ) && rest.len() == hops.drop_first().len();
        let whole = seq![index_arcs[j]] + rest;
        assert(whole.drop_first() =~= rest);
        assert(index_arcs.contains(whole[0]));
        assert(is_route(index_arcs, a, whole, b));
        assert(b < names.len() && names[b as int]@ == end && is_route(index_arcs, a, whole, b)
            && whole.len() == hops.len());
    }
}

/// A route with at least one hop starts at the start of an arc and ends at the
/// end of one.
pub proof fn lemma_route_ends_on_arcs<N>(arcs: Seq<(N, N)>, a: N, hops: Seq<(N, N)>, b: N)
    requires
        is_route(arcs, a, hops, b),
        hops.len() > 0,
    ensures
        exists|i: int| 0 <= i < arcs.len() && (#[trigger] arcs[i]).0 == a,
        exists|i: int| 0 <= i < arcs.len() && (#[trigger] arcs[i]).1 == b,
    decreases hops.len(),
{
    let i = choose|i: int| 0 <= i < arcs.len() && arcs[i] == hops[0];
    assert(arcs[i].0 == a);
    if hops.len() == 1 {
        reveal_with_fuel(is_route, 2);
        assert(hops.drop_first().len() == 0);
        assert(arcs[i].1 == b);
    } else {
        lemma_route_ends_on_arcs(arcs, hops[0].1, hops.drop_first(), b);
    }
}

} // verus!
