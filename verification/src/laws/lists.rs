//! What lists of nodes mean.

use crate::connectome::step::is_node_list;
use crate::connectome::State;
use crate::members::{
    ascending, ascending_pairs, lemma_sorted, listed, pair_before, place_of, sorted,
};
use vstd::prelude::*;

verus! {

/// A node is listed where the list contains it, and then has a place there.
pub proof fn law_listed(list: Seq<usize>, u: usize)
    ensures
        listed(list, u as int) <==> list.contains(u),
        list.contains(u) ==> 0 <= place_of(list, u as int) < list.len() && list[place_of(
            list,
            u as int,
        )] == u,
{
    if list.contains(u) {
        let k = choose|k: int| 0 <= k < list.len() && list[k] == u;
        assert(list[k] == u);
    }
}

/// What is listed is a node's number.
pub proof fn law_listed_are_nodes(list: Seq<usize>, u: int)
    ensures
        listed(list, u) ==> 0 <= u <= usize::MAX && list.contains(u as usize),
{
    if listed(list, u) {
        let k = choose|k: int| 0 <= k < list.len() && #[trigger] list[k] == u;
        assert(list[k] == u as usize);
    }
}

/// A list ascends where every node is smaller than those after it.
pub proof fn law_ascending(list: Seq<usize>)
    ensures
        ascending(list) <==> forall|i: int, j: int|
            0 <= i < j < list.len() ==> #[trigger] list[i] < #[trigger] list[j],
{
}

/// A list of pairs ascends where every pair stands before those after it: by its first node, or by
/// its second where the first ones are the same.
pub proof fn law_ascending_pairs(list: Seq<(usize, usize)>)
    ensures
        ascending_pairs(list) <==> forall|i: int, j: int|
            0 <= i < j < list.len() ==> (#[trigger] list[i]).0 < (#[trigger] list[j]).0 || (list[i].0
                == list[j].0 && list[i].1 < list[j].1),
{
    if forall|i: int, j: int|
        0 <= i < j < list.len() ==> (#[trigger] list[i]).0 < (#[trigger] list[j]).0 || (list[i].0
            == list[j].0 && list[i].1 < list[j].1) {
        assert forall|i: int, j: int| 0 <= i < j < list.len() implies pair_before(
            list[i],
            list[j],
        ) by {}
    }
    if ascending_pairs(list) {
        assert forall|i: int, j: int| 0 <= i < j < list.len() implies (#[trigger] list[i]).0 < (
        #[trigger] list[j]).0 || (list[i].0 == list[j].0 && list[i].1 < list[j].1) by {
            assert(pair_before(list[i], list[j]));
        }
    }
}

/// A set in order is the one list that ascends and contains just its members.
pub proof fn law_sorted(set: Set<usize>, list: Seq<usize>)
    requires
        forall|i: int, j: int| 0 <= i < j < list.len() ==> list[i] < list[j],
        forall|i: usize| #[trigger] set.contains(i) <==> list.contains(i),
    ensures
        sorted(set) == list,
{
    assert forall|i: usize| #[trigger] set.contains(i) <==> listed(list, i as int) by {
        law_listed(list, i);
    }
    lemma_sorted(set, list);
}

/// A list of nodes ascends, and all that it contains are nodes.
pub proof fn law_node_list(s: State, list: Seq<usize>)
    ensures
        is_node_list(s, list) <==> (forall|i: int, j: int|
            0 <= i < j < list.len() ==> #[trigger] list[i] < #[trigger] list[j]) && (forall|i: int|
            0 <= i < list.len() ==> #[trigger] list[i] < s.rows.len()),
{
}

} // verus!
