//! Walking ordered sets in ascending order.

use std::collections::BTreeSet;
use vstd::prelude::*;
use vstd::std_specs::btree::increasing_seq;
use vstd::std_specs::cmp::OrdSpec;
use vstd::std_specs::iter::IteratorSpec;

verus! {

broadcast use vstd::laws_cmp::group_laws_cmp;

/// Whether every node in `s` is smaller than the one after it.
pub open spec fn ascending(s: Seq<usize>) -> bool {
    forall|i: int, j: int| 0 <= i < j < s.len() ==> s[i] < s[j]
}

/// Whether `u` occurs in `list`.
pub open spec fn listed(list: Seq<usize>, u: int) -> bool {
    exists|k: int| 0 <= k < list.len() && #[trigger] list[k] == u
}

/// The place of `u` in `list`, where it occurs once.
pub open spec fn place_of(list: Seq<usize>, u: int) -> int {
    choose|k: int| 0 <= k < list.len() && #[trigger] list[k] == u
}

/// In an ascending list every node has one place.
pub proof fn lemma_place_of(list: Seq<usize>, k: int)
    requires
        ascending(list),
        0 <= k < list.len(),
    ensures
        listed(list, list[k] as int),
        place_of(list, list[k] as int) == k,
{
    let u = list[k] as int;
    assert(list[k] == u);
    let l = place_of(list, u);
    assert(0 <= l < list.len() && list[l] == u);
    if l < k {
        assert(list[l] < list[k]);
    } else if k < l {
        assert(list[k] < list[l]);
    }
}

/// Two ascending lists with the same members are the same.
pub proof fn lemma_ascending_unique(a: Seq<usize>, b: Seq<usize>)
    requires
        ascending(a),
        ascending(b),
        forall|i: usize| #[trigger] listed(a, i as int) <==> listed(b, i as int),
    ensures
        a == b,
    decreases a.len(),
{
    if a.len() == 0 {
        if b.len() > 0 {
            assert(listed(b, b[0] as int));
            assert(listed(a, b[0] as int));
        }
        assert(a =~= b);
    } else {
        assert(listed(a, a.last() as int));
        assert(listed(b, a.last() as int));
        assert(listed(b, b.last() as int));
        assert(listed(a, b.last() as int));
        assert(a.last() == b.last());
        let x = a.last();
        assert(a =~= a.drop_last().push(x));
        assert(b =~= b.drop_last().push(x));
        assert forall|i: usize| #[trigger] listed(a.drop_last(), i as int) <==> listed(
            b.drop_last(),
            i as int,
        ) by {
            lemma_listed_push(a.drop_last(), x, i as int);
            lemma_listed_push(b.drop_last(), x, i as int);
            if i == x {
                if listed(a.drop_last(), i as int) {
                    let k = choose|k: int|
                        0 <= k < a.drop_last().len() && #[trigger] a.drop_last()[k] == i;
                    assert(a[k] < a[a.len() - 1]);
                }
                if listed(b.drop_last(), i as int) {
                    let k = choose|k: int|
                        0 <= k < b.drop_last().len() && #[trigger] b.drop_last()[k] == i;
                    assert(b[k] < b[b.len() - 1]);
                }
            }
            assert(listed(a, i as int) <==> listed(b, i as int));
        }
        lemma_ascending_unique(a.drop_last(), b.drop_last());
    }
}

/// The members of `set`, smallest first.
pub open spec fn sorted(set: Set<usize>) -> Seq<usize> {
    choose|list: Seq<usize>|
        #![trigger ascending(list)]
        ascending(list) && forall|i: usize| #[trigger] set.contains(i) <==> listed(list, i as int)
}

/// An ascending list of the members of `set` is the sorted one.
pub proof fn lemma_sorted(set: Set<usize>, list: Seq<usize>)
    requires
        ascending(list),
        forall|i: usize| #[trigger] set.contains(i) <==> listed(list, i as int),
    ensures
        sorted(set) == list,
{
    let s = sorted(set);
    assert(ascending(s) && forall|i: usize| #[trigger] set.contains(i) <==> listed(s, i as int));
    assert forall|i: usize| #[trigger] listed(s, i as int) <==> listed(list, i as int) by {
        assert(set.contains(i) <==> listed(s, i as int));
    }
    lemma_ascending_unique(s, list);
}

/// What stands in a list with one more node.
pub proof fn lemma_listed_push(list: Seq<usize>, x: usize, u: int)
    ensures
        listed(list.push(x), u) == (listed(list, u) || u == x),
{
    let more = list.push(x);
    if listed(list, u) {
        let k = choose|k: int| 0 <= k < list.len() && #[trigger] list[k] == u;
        assert(more[k] == u);
    }
    if u == x {
        assert(more[list.len() as int] == u);
    }
    if listed(more, u) {
        let k = choose|k: int| 0 <= k < more.len() && #[trigger] more[k] == u;
        if k < list.len() {
            assert(list[k] == u);
        }
    }
}

/// What stands up to a place of a list: what stands before it, and what is there.
pub proof fn lemma_listed_take(list: Seq<usize>, k: int)
    requires
        0 <= k < list.len(),
    ensures
        forall|u: int| #[trigger]
            listed(list.take(k + 1), u) == (listed(list.take(k), u) || u == list[k]),
{
    assert(list.take(k).push(list[k]) =~= list.take(k + 1));
    assert forall|u: int| #[trigger] listed(list.take(k + 1), u) == (listed(list.take(k), u) || u
        == list[k]) by {
        lemma_listed_push(list.take(k), list[k], u);
    }
}

/// Adds the listed nodes to `set`.
pub fn insert_all(set: &mut BTreeSet<usize>, list: &[usize])
    ensures
        forall|i: usize| #[trigger]
            final(set)@.contains(i) <==> old(set)@.contains(i) || listed(list@, i as int),
{
    let ghost before = set@;
    for k in 0..list.len()
        invariant
            forall|i: usize| #[trigger]
                set@.contains(i) <==> before.contains(i) || listed(list@.take(k as int), i as int),
    {
        set.insert(list[k]);
        proof {
            lemma_listed_take(list@, k as int);
        }
    }
    assert(list@.take(list@.len() as int) =~= list@);
}

/// Whether the pair `a` stands before the pair `b`: by the first node, then by the second.
pub open spec fn pair_before(a: (usize, usize), b: (usize, usize)) -> bool {
    a.0 < b.0 || (a.0 == b.0 && a.1 < b.1)
}

/// Whether every pair in `s` stands before the one after it.
pub open spec fn ascending_pairs(s: Seq<(usize, usize)>) -> bool {
    forall|i: int, j: int| 0 <= i < j < s.len() ==> pair_before(s[i], s[j])
}

/// The order of a `BTreeSet` of nodes is that of the numbers.
proof fn lemma_node_order(s: Seq<&usize>)
    requires
        increasing_seq(s),
    ensures
        ascending(s.unref()),
{
    assert(vstd::laws_cmp::obeys_cmp::<&usize>());
    assert forall|i: int, j: int| 0 <= i < j < s.len() implies s.unref()[i] < s.unref()[j] by {
        assert(OrdSpec::cmp_spec(&s[i], &s[j]) is Less);
    }
}

/// The order of a `BTreeSet` of pairs is the lexicographic one.
proof fn lemma_pair_order(s: Seq<&(usize, usize)>)
    requires
        increasing_seq(s),
    ensures
        ascending_pairs(s.unref()),
{
    assert(vstd::laws_cmp::obeys_cmp::<&(usize, usize)>());
    assert forall|i: int, j: int| 0 <= i < j < s.len() implies pair_before(
        s.unref()[i],
        s.unref()[j],
    ) by {
        assert(OrdSpec::cmp_spec(&s[i], &s[j]) is Less);
    }
}

/// The members of `set`, smallest first.
pub fn ascending_members(set: &BTreeSet<usize>) -> (members: Vec<usize>)
    ensures
        members@ == sorted(set@),
        ascending(members@),
        forall|i: usize|
            #![trigger set@.contains(i)]
            #![trigger listed(members@, i as int)]
            set@.contains(i) <==> listed(members@, i as int),
        members@.len() == set@.len(),
{
    let mut members: Vec<usize> = Vec::new();
    let walk = set.iter();
    let ghost order: Seq<&usize> = IteratorSpec::remaining(&walk);
    for x in it: walk
        invariant
            it.seq() == order,
            members@ == order.unref().take(it.index()),
    {
        members.push(*x);
    }
    proof {
        lemma_node_order(order);
    }
    assert(members@ == order.unref());
    assert forall|i: usize| #[trigger] set@.contains(i) <==> listed(members@, i as int) by {
        assert(set@.contains(i) <==> members@.to_set().contains(i));
        if members@.contains(i) {
            let k = choose|k: int| 0 <= k < members@.len() && members@[k] == i;
            assert(members@[k] == i);
        }
    }
    proof {
        lemma_sorted(set@, members@);
    }
    members
}

/// The members of `set`, smallest first.
pub fn ascending_pair_members(set: &BTreeSet<(usize, usize)>) -> (members: Vec<(usize, usize)>)
    ensures
        ascending_pairs(members@),
        members@.to_set() == set@,
        members@.len() == set@.len(),
{
    let mut members: Vec<(usize, usize)> = Vec::new();
    let walk = set.iter();
    let ghost order: Seq<&(usize, usize)> = IteratorSpec::remaining(&walk);
    for x in it: walk
        invariant
            it.seq() == order,
            members@ == order.unref().take(it.index()),
    {
        members.push(*x);
    }
    proof {
        lemma_pair_order(order);
    }
    assert(members@ == order.unref());
    members
}

} // verus!
