//! What holds of the walkers of a gauge step together: none minds the others.
//!
//! The draws are given as a function of the node and of the index of the emission there.

use crate::binary64::{is_at_most, whole, Bits, ZERO};
use crate::connectome::gauge::{
    emission_counts, gauge_start, is_slow, lemma_start_same, ordered, proposes, speed_threshold,
    Cursor, Gauge,
};
use crate::connectome::State;
use crate::laws::walks::walked;
use crate::members::{ascending, listed};
use vstd::prelude::*;

verus! {

/// The hops that the walker of the given emission makes from `node` on, `hop` of its hops being
/// done.
pub open spec fn way(
    s: State,
    v_th: Bits,
    h_max: int,
    node: usize,
    emission: int,
    hop: int,
    picks: spec_fn(usize, int) -> Option<usize>,
) -> Seq<(usize, usize)>
    decreases h_max - hop,
{
    match picks(node, emission + hop) {
        None => Seq::empty(),
        Some(to) => if hop + 1 < h_max && !is_slow(s, v_th, to as int) {
            seq![(node, to)] + way(s, v_th, h_max, to, emission, hop + 1, picks)
        } else {
            seq![(node, to)]
        },
    }
}

/// The hops of the first `count` walkers of `node`, one walker after the other.
pub open spec fn ways(
    s: State,
    v_th: Bits,
    h_max: int,
    node: usize,
    count: nat,
    picks: spec_fn(usize, int) -> Option<usize>,
) -> Seq<(usize, usize)>
    decreases count,
{
    if count == 0 {
        Seq::empty()
    } else {
        let last = (count - 1) as nat;
        ways(s, v_th, h_max, node, last, picks) + way(
            s,
            v_th,
            h_max,
            node,
            last as int,
            0,
            picks,
        )
    }
}

/// The hops of all walkers of one candidate; there are none where it is no node.
pub open spec fn alone(
    s: State,
    v_th: Bits,
    h_max: int,
    node: usize,
    count: nat,
    picks: spec_fn(usize, int) -> Option<usize>,
) -> Seq<(usize, usize)> {
    if node < s.n() {
        ways(s, v_th, h_max, node, count, picks)
    } else {
        Seq::empty()
    }
}

/// The hops of the first `k` candidates, each alone, in turn.
pub open spec fn in_turn(
    s: State,
    v_th: Bits,
    h_max: int,
    candidates: Seq<usize>,
    counts: Seq<usize>,
    picks: spec_fn(usize, int) -> Option<usize>,
    k: nat,
) -> Seq<(usize, usize)>
    decreases k,
{
    if k == 0 {
        Seq::empty()
    } else {
        let last = (k - 1) as nat;
        in_turn(s, v_th, h_max, candidates, counts, picks, last) + alone(
            s,
            v_th,
            h_max,
            candidates[last as int],
            counts[last as int] as nat,
            picks,
        )
    }
}

/// The gauge step `g` after `k` more walkers made all their hops, or fewer where no more are left.
pub open spec fn after_walks(
    g: Gauge,
    s: State,
    picks: spec_fn(usize, int) -> Option<usize>,
    k: nat,
) -> Gauge
    decreases k,
{
    if k == 0 {
        g
    } else {
        let before = after_walks(g, s, picks, (k - 1) as nat);
        match before.cursor {
            None => before,
            Some(c) => walked(before, s, c, picks),
        }
    }
}

/// The hops that a gauge step has made where it stands before a walker: those of the candidates
/// before, and those of this candidate's walkers before. Once none is left, these are the hops of
/// all candidates.
pub open spec fn on_course(
    g: Gauge,
    s: State,
    picks: spec_fn(usize, int) -> Option<usize>,
) -> bool {
    let h_max = g.h_max as int;
    &&& g.counts.len() == g.candidates.len()
    &&& g.candidates.len() <= usize::MAX
    &&& g.h_max >= 1
    &&& match g.cursor {
        None => g.hops == in_turn(
            s,
            g.v_th,
            h_max,
            g.candidates,
            g.counts,
            picks,
            g.candidates.len(),
        ),
        Some(c) => {
            &&& c.slot < g.candidates.len()
            &&& g.emits(s.n(), c.slot as int)
            &&& c.emission < g.counts[c.slot as int]
            &&& c.hop == 0
            &&& c.node == g.candidates[c.slot as int]
            &&& g.hops == in_turn(
                s,
                g.v_th,
                h_max,
                g.candidates,
                g.counts,
                picks,
                c.slot as nat,
            ) + ways(s, g.v_th, h_max, c.node, c.emission as nat, picks)
        },
    }
}

/// A walker adds its way to the hops, and then the next emission has its turn.
proof fn lemma_walked_way(
    g: Gauge,
    s: State,
    c: Cursor,
    picks: spec_fn(usize, int) -> Option<usize>,
)
    requires
        c.hop < g.h_max,
    ensures
        walked(g, s, c, picks) == (Gauge {
            cursor: g.after_walk(s.n(), c),
            hops: g.hops + way(
                s,
                g.v_th,
                g.h_max as int,
                c.node,
                c.emission as int,
                c.hop as int,
                picks,
            ),
            ..g
        }),
    decreases g.h_max - c.hop,
{
    let pick = picks(c.node, c.emission + c.hop);
    let next = g.next(s, c, pick);
    let path = way(
        s,
        g.v_th,
        g.h_max as int,
        c.node,
        c.emission as int,
        c.hop as int,
        picks,
    );
    if pick is Some && g.goes_on(s, c, pick->0) {
        let d = next.cursor->0;
        lemma_walked_way(next, s, d, picks);
        lemma_start_same(g, next, s.n(), c.slot + 1);
        let rest = way(
            s,
            g.v_th,
            g.h_max as int,
            d.node,
            d.emission as int,
            d.hop as int,
            picks,
        );
        assert(path == seq![(c.node, pick->0)] + rest);
        assert(g.hops.push((c.node, pick->0)) + rest =~= g.hops + path);
    } else {
        if let Some(to) = pick {
            assert(g.hops.push((c.node, to)) =~= g.hops + path);
        } else {
            assert(g.hops =~= g.hops + path);
        }
    }
}

/// Candidates that do not emit make no hops.
proof fn lemma_skipped(
    g: Gauge,
    s: State,
    picks: spec_fn(usize, int) -> Option<usize>,
    slot: nat,
)
    requires
        g.counts.len() == g.candidates.len(),
        g.candidates.len() <= usize::MAX,
        slot <= g.candidates.len(),
    ensures
        ({
            let upto = |k: nat|
                in_turn(s, g.v_th, g.h_max as int, g.candidates, g.counts, picks, k);
            match g.start_from(s.n(), slot as int) {
                None => upto(g.candidates.len()) == upto(slot),
                Some(d) => {
                    &&& slot <= d.slot < g.candidates.len()
                    &&& upto(d.slot as nat) == upto(slot)
                    &&& g.emits(s.n(), d.slot as int)
                    &&& d == (Cursor {
                        slot: d.slot,
                        emission: 0,
                        hop: 0,
                        node: g.candidates[d.slot as int],
                    })
                },
            }
        }),
    decreases g.candidates.len() - slot,
{
    if slot < g.candidates.len() && !g.emits(s.n(), slot as int) {
        lemma_skipped(g, s, picks, slot + 1);
        let before = in_turn(s, g.v_th, g.h_max as int, g.candidates, g.counts, picks, slot);
        assert(before + Seq::<(usize, usize)>::empty() =~= before);
    }
}

/// A walk keeps a gauge step on course.
proof fn lemma_walk_on_course(
    g: Gauge,
    s: State,
    c: Cursor,
    picks: spec_fn(usize, int) -> Option<usize>,
)
    requires
        on_course(g, s, picks),
        g.cursor == Some(c),
    ensures
        on_course(walked(g, s, c, picks), s, picks),
        g.after_walk(s.n(), c) matches Some(d) ==> c.slot < d.slot || (c.slot == d.slot
            && c.emission < d.emission),
{
    lemma_walked_way(g, s, c, picks);
    let after = walked(g, s, c, picks);
    let h_max = g.h_max as int;
    let before = in_turn(s, g.v_th, h_max, g.candidates, g.counts, picks, c.slot as nat);
    let done = ways(s, g.v_th, h_max, c.node, c.emission as nat, picks);
    let path = way(s, g.v_th, h_max, c.node, c.emission as int, 0, picks);
    assert(before + done + path =~= before + (done + path));
    assert(ways(s, g.v_th, h_max, c.node, (c.emission + 1) as nat, picks) == done + path);
    if c.emission + 1 < g.counts[c.slot as int] {
    } else {
        lemma_skipped(g, s, picks, (c.slot + 1) as nat);
        let upto = in_turn(
            s,
            g.v_th,
            h_max,
            g.candidates,
            g.counts,
            picks,
            (c.slot + 1) as nat,
        );
        assert(upto == before + (done + path));
        assert(upto + Seq::<(usize, usize)>::empty() =~= upto);
    }
}

/// A gauge step is on course from its start.
proof fn lemma_start_on_course(
    s: State,
    candidates: Seq<usize>,
    ratios: Seq<Bits>,
    v_root: Bits,
    reach: Bits,
    picks: spec_fn(usize, int) -> Option<usize>,
)
    requires
        ratios.len() == candidates.len(),
        candidates.len() <= usize::MAX,
    ensures
        on_course(gauge_start(s, candidates, ratios, v_root, reach), s, picks),
{
    let g = gauge_start(s, candidates, ratios, v_root, reach);
    let idle = Gauge { cursor: None, ..g };
    lemma_start_same(g, idle, s.n(), 0);
    lemma_skipped(g, s, picks, 0);
    let none = Seq::<(usize, usize)>::empty();
    assert(none + none =~= none);
}

/// A gauge step stays on course.
proof fn lemma_stays_on_course(
    g: Gauge,
    s: State,
    picks: spec_fn(usize, int) -> Option<usize>,
    k: nat,
)
    requires
        on_course(g, s, picks),
    ensures
        on_course(after_walks(g, s, picks, k), s, picks),
        ({
            let h = after_walks(g, s, picks, k);
            h == (Gauge { cursor: h.cursor, hops: h.hops, ..g })
        }),
    decreases k,
{
    if k > 0 {
        let last = (k - 1) as nat;
        lemma_stays_on_course(g, s, picks, last);
        let before = after_walks(g, s, picks, last);
        if let Some(c) = before.cursor {
            lemma_walk_on_course(before, s, c, picks);
            lemma_walked_way(before, s, c, picks);
        }
    }
}

/// One walk and then `k` more are `k + 1` walks.
proof fn lemma_first_walk(
    g: Gauge,
    s: State,
    c: Cursor,
    picks: spec_fn(usize, int) -> Option<usize>,
    k: nat,
)
    requires
        g.cursor == Some(c),
    ensures
        after_walks(g, s, picks, k + 1) == after_walks(walked(g, s, c, picks), s, picks, k),
    decreases k,
{
    if k > 0 {
        lemma_first_walk(g, s, c, picks, (k - 1) as nat);
    } else {
        reveal_with_fuel(after_walks, 2);
    }
}

/// The number of walks after which a gauge step has ended.
proof fn lemma_walks_end(
    g: Gauge,
    s: State,
    picks: spec_fn(usize, int) -> Option<usize>,
) -> (k: nat)
    requires
        on_course(g, s, picks),
    ensures
        after_walks(g, s, picks, k).cursor is None,
    decreases
            match g.cursor {
                None => 0,
                Some(c) => g.candidates.len() - c.slot,
            },
            match g.cursor {
                None => 0,
                Some(c) => g.counts[c.slot as int] - c.emission,
            },
{
    match g.cursor {
        None => 0,
        Some(c) => {
            lemma_walk_on_course(g, s, c, picks);
            lemma_walked_way(g, s, c, picks);
            let k = lemma_walks_end(walked(g, s, c, picks), s, picks);
            lemma_first_walk(g, s, c, picks, k);
            k + 1
        },
    }
}

/// A gauge step ends, and the hops that it has then made are those of each candidate alone, in
/// turn.
pub proof fn law_gauge_step_is_its_walkers(
    s: State,
    candidates: Seq<usize>,
    ratios: Seq<Bits>,
    v_root: Bits,
    reach: Bits,
    picks: spec_fn(usize, int) -> Option<usize>,
)
    requires
        ratios.len() == candidates.len(),
        candidates.len() <= usize::MAX,
    ensures
        exists|k: nat| #[trigger]
            after_walks(
                gauge_start(s, candidates, ratios, v_root, reach),
                s,
                picks,
                k,
            ).cursor is None,
        forall|k: nat|
            {
                let end = #[trigger] after_walks(
                    gauge_start(s, candidates, ratios, v_root, reach),
                    s,
                    picks,
                    k,
                );
                end.cursor is None ==> end.hops == in_turn(
                    s,
                    end.v_th,
                    end.h_max as int,
                    end.candidates,
                    end.counts,
                    picks,
                    end.candidates.len(),
                )
            },
{
    let g = gauge_start(s, candidates, ratios, v_root, reach);
    lemma_start_on_course(s, candidates, ratios, v_root, reach, picks);
    let k = lemma_walks_end(g, s, picks);
    assert(after_walks(g, s, picks, k).cursor is None);
    assert forall|k: nat|
        {
            let end = #[trigger] after_walks(g, s, picks, k);
            end.cursor is None ==> end.hops == in_turn(
                s,
                end.v_th,
                end.h_max as int,
                end.candidates,
                end.counts,
                picks,
                end.candidates.len(),
            )
        } by {
        lemma_stays_on_course(g, s, picks, k);
    }
}

/// The hops of the listed candidates, each with the number of walkers that its ratio says.
pub open spec fn team(
    s: State,
    v_th: Bits,
    h_max: int,
    list: Seq<usize>,
    ratio: spec_fn(usize) -> Bits,
    picks: spec_fn(usize, int) -> Option<usize>,
) -> Seq<(usize, usize)> {
    in_turn(
        s,
        v_th,
        h_max,
        list,
        emission_counts(list.map_values(ratio)),
        picks,
        list.len(),
    )
}

/// What stands further on in the lists does not matter.
proof fn lemma_in_turn_prefix(
    s: State,
    v_th: Bits,
    h_max: int,
    a: Seq<usize>,
    b: Seq<usize>,
    x: Seq<usize>,
    y: Seq<usize>,
    picks: spec_fn(usize, int) -> Option<usize>,
    k: nat,
)
    requires
        forall|j: int| 0 <= j < k ==> a[j] == #[trigger] b[j] && x[j] == y[j],
    ensures
        in_turn(s, v_th, h_max, a, x, picks, k) == in_turn(s, v_th, h_max, b, y, picks, k),
    decreases k,
{
    if k > 0 {
        lemma_in_turn_prefix(s, v_th, h_max, a, b, x, y, picks, (k - 1) as nat);
        assert(a[k - 1] == b[k - 1]);
    }
}

/// The last candidate adds its own hops.
proof fn lemma_team_last(
    s: State,
    v_th: Bits,
    h_max: int,
    list: Seq<usize>,
    ratio: spec_fn(usize) -> Bits,
    picks: spec_fn(usize, int) -> Option<usize>,
)
    requires
        list.len() > 0,
    ensures
        team(s, v_th, h_max, list, ratio, picks) == team(
            s,
            v_th,
            h_max,
            list.drop_last(),
            ratio,
            picks,
        ) + alone(
            s,
            v_th,
            h_max,
            list.last(),
            whole(ratio(list.last())) as usize as nat,
            picks,
        ),
{
    let rest = list.drop_last();
    lemma_in_turn_prefix(
        s,
        v_th,
        h_max,
        list,
        rest,
        emission_counts(list.map_values(ratio)),
        emission_counts(rest.map_values(ratio)),
        picks,
        rest.len(),
    );
}

/// What stands in an ascending list without its last node.
proof fn lemma_listed_drop_last(list: Seq<usize>, i: int)
    requires
        ascending(list),
        list.len() > 0,
    ensures
        ascending(list.drop_last()),
        listed(list.drop_last(), i) == (listed(list, i) && i != list.last()),
        listed(list, i) ==> i <= list.last(),
{
    let rest = list.drop_last();
    if listed(list, i) {
        let k = choose|k: int| 0 <= k < list.len() && #[trigger] list[k] == i;
        if k < rest.len() {
            assert(rest[k] == i);
            assert(list[k] < list[list.len() - 1]);
        }
    }
    if listed(rest, i) {
        let k = choose|k: int| 0 <= k < rest.len() && #[trigger] rest[k] == i;
        assert(list[k] == i);
        assert(list[k] < list[list.len() - 1]);
    }
}

/// Whether `e` lists what `c` and `d` list, and no node stands in both of these.
pub open spec fn splits(e: Seq<usize>, c: Seq<usize>, d: Seq<usize>) -> bool {
    &&& ascending(c) && ascending(d) && ascending(e)
    &&& forall|i: int| #[trigger] listed(e, i) <==> listed(c, i) || listed(d, i)
    &&& forall|i: int| !(#[trigger] listed(c, i) && listed(d, i))
}

/// The hops of two teams without a common member are those of the team of both.
proof fn lemma_teams(
    s: State,
    v_th: Bits,
    h_max: int,
    e: Seq<usize>,
    c: Seq<usize>,
    d: Seq<usize>,
    ratio: spec_fn(usize) -> Bits,
    picks: spec_fn(usize, int) -> Option<usize>,
)
    requires
        splits(e, c, d),
    ensures
        ({
            let of = |list: Seq<usize>| team(s, v_th, h_max, list, ratio, picks);
            &&& of(e).len() == of(c).len() + of(d).len()
            &&& forall|hop: (usize, usize)| #[trigger]
                of(e).contains(hop) <==> of(c).contains(hop) || of(d).contains(hop)
        }),
    decreases e.len(),
{
    broadcast use vstd::seq_lib::group_seq_properties;

    if e.len() == 0 {
        if c.len() > 0 {
            assert(listed(c, c[0] as int));
            assert(listed(e, c[0] as int));
        }
        if d.len() > 0 {
            assert(listed(d, d[0] as int));
            assert(listed(e, d[0] as int));
        }
    } else {
        let x = e.last();
        assert(listed(e, x as int)) by {
            assert(e[e.len() - 1] == x);
        }
        lemma_team_last(s, v_th, h_max, e, ratio, picks);
        let (from, other) = if listed(c, x as int) {
            (c, d)
        } else {
            (d, c)
        };
        assert(from.len() > 0 && from.last() == x) by {
            lemma_listed_drop_last(from, x as int);
            assert(listed(from, from.last() as int)) by {
                assert(from[from.len() - 1] == from.last());
            }
            assert(listed(e, from.last() as int));
            lemma_listed_drop_last(e, from.last() as int);
        }
        let (e2, from2) = (e.drop_last(), from.drop_last());
        assert(splits(e2, from2, other)) by {
            lemma_listed_drop_last(e, 0);
            lemma_listed_drop_last(from, 0);
            assert forall|i: int| #[trigger] listed(e2, i) <==> listed(from2, i) || listed(
                other,
                i,
            ) by {
                lemma_listed_drop_last(e, i);
                lemma_listed_drop_last(from, i);
                assert(listed(e, i) <==> listed(c, i) || listed(d, i));
                assert(!(listed(c, i) && listed(d, i)));
            }
            assert forall|i: int| !(#[trigger] listed(from2, i) && listed(other, i)) by {
                lemma_listed_drop_last(from, i);
                assert(!(listed(c, i) && listed(d, i)));
            }
        }
        lemma_teams(s, v_th, h_max, e2, from2, other, ratio, picks);
        lemma_team_last(s, v_th, h_max, from, ratio, picks);
        let of = |list: Seq<usize>| team(s, v_th, h_max, list, ratio, picks);
        let own = alone(s, v_th, h_max, x, whole(ratio(x)) as usize as nat, picks);
        assert forall|hop: (usize, usize)| #[trigger] of(e).contains(hop) <==> of(c).contains(hop)
            || of(d).contains(hop) by {
            lemma_contains_add(of(e2), own, hop);
            lemma_contains_add(of(from2), own, hop);
            assert(of(e2).contains(hop) <==> of(from2).contains(hop) || of(other).contains(hop));
        }
    }
}

/// What stands in two sequences together.
proof fn lemma_contains_add<A>(a: Seq<A>, b: Seq<A>, x: A)
    ensures
        (a + b).contains(x) <==> a.contains(x) || b.contains(x),
{
    let all = a + b;
    if a.contains(x) {
        let k = choose|k: int| 0 <= k < a.len() && a[k] == x;
        assert(all[k] == x);
    }
    if b.contains(x) {
        let k = choose|k: int| 0 <= k < b.len() && b[k] == x;
        assert(all[a.len() + k] == x);
    }
    if all.contains(x) {
        let k = choose|k: int| 0 <= k < all.len() && all[k] == x;
        if k < a.len() {
            assert(a[k] == x);
        } else {
            assert(b[k - a.len()] == x);
        }
    }
}

/// The gauge step of the listed candidates after `k` walks.
pub open spec fn team_run(
    s: State,
    list: Seq<usize>,
    ratio: spec_fn(usize) -> Bits,
    v_root: Bits,
    reach: Bits,
    picks: spec_fn(usize, int) -> Option<usize>,
    k: nat,
) -> Gauge {
    after_walks(gauge_start(s, list, list.map_values(ratio), v_root, reach), s, picks, k)
}

/// What a gauge step that has ended holds: the hops of its team, and as active who emits or was
/// hopped.
proof fn lemma_team_run(
    s: State,
    list: Seq<usize>,
    ratio: spec_fn(usize) -> Bits,
    v_root: Bits,
    reach: Bits,
    picks: spec_fn(usize, int) -> Option<usize>,
    k: nat,
)
    requires
        list.len() <= usize::MAX,
        team_run(s, list, ratio, v_root, reach, picks, k).cursor is None,
    ensures
        ({
            let end = team_run(s, list, ratio, v_root, reach, picks, k);
            let v_th = speed_threshold(s, v_root);
            let still = is_at_most(v_th, ZERO);
            let members = if still {
                Seq::empty()
            } else {
                list
            };
            &&& end.v_th == v_th
            &&& end.hops == team(
                s,
                v_th,
                gauge_start(s, Seq::empty(), Seq::empty(), v_root, reach).h_max as int,
                members,
                ratio,
                picks,
            )
            &&& forall|i: usize| #[trigger]
                end.has_emitted(s.n(), i) <==> listed(members, i as int) && i < s.n() && (whole(
                    ratio(i),
                ) as usize) > 0
        }),
{
    let ratios = list.map_values(ratio);
    let g = gauge_start(s, list, ratios, v_root, reach);
    let end = team_run(s, list, ratio, v_root, reach, picks, k);
    lemma_start_on_course(s, list, ratios, v_root, reach, picks);
    lemma_stays_on_course(g, s, picks, k);
    let none = Seq::<usize>::empty();
    assert(emission_counts(none.map_values(ratio)) =~= none);
    let members = g.candidates;
    assert forall|i: usize| #[trigger] end.has_emitted(s.n(), i) <==> listed(members, i as int) && i
        < s.n() && (whole(ratio(i)) as usize) > 0 by {
        if end.has_emitted(s.n(), i) {
            let slot = choose|slot: int|
                0 <= slot < end.candidates.len() && #[trigger] end.candidates[slot] == i
                    && end.emits(s.n(), slot) && (end.cursor matches Some(c) ==> slot <= c.slot);
            assert(members[slot] == i);
        }
        if listed(members, i as int) && i < s.n() && (whole(ratio(i)) as usize) > 0 {
            let slot = choose|slot: int|
                0 <= slot < members.len() && #[trigger] members[slot] == i;
            assert(end.candidates[slot] == i);
            assert(end.emits(s.n(), slot));
        }
    }
}

/// Walkers of different candidates are independent: where `c` and `d` split the candidates `e`, the
/// gauge step of `e` makes as many hops as those of `c` and of `d` together, and its active nodes
/// and its proposed bonds are theirs.
pub proof fn law_walkers_are_independent(
    s: State,
    e: Seq<usize>,
    c: Seq<usize>,
    d: Seq<usize>,
    ratio: spec_fn(usize) -> Bits,
    v_root: Bits,
    reach: Bits,
    picks: spec_fn(usize, int) -> Option<usize>,
    ke: nat,
    kc: nat,
    kd: nat,
)
    requires
        splits(e, c, d),
        e.len() <= usize::MAX,
        c.len() <= usize::MAX,
        d.len() <= usize::MAX,
        team_run(s, e, ratio, v_root, reach, picks, ke).cursor is None,
        team_run(s, c, ratio, v_root, reach, picks, kc).cursor is None,
        team_run(s, d, ratio, v_root, reach, picks, kd).cursor is None,
    ensures
        ({
            let x = team_run(s, e, ratio, v_root, reach, picks, ke);
            let y = team_run(s, c, ratio, v_root, reach, picks, kc);
            let z = team_run(s, d, ratio, v_root, reach, picks, kd);
            &&& x.hops.len() == y.hops.len() + z.hops.len()
            &&& x.active_set(s) == y.active_set(s).union(z.active_set(s))
            &&& x.proposed_set(s) == y.proposed_set(s).union(z.proposed_set(s))
        }),
{
    let x = team_run(s, e, ratio, v_root, reach, picks, ke);
    let y = team_run(s, c, ratio, v_root, reach, picks, kc);
    let z = team_run(s, d, ratio, v_root, reach, picks, kd);
    lemma_team_run(s, e, ratio, v_root, reach, picks, ke);
    lemma_team_run(s, c, ratio, v_root, reach, picks, kc);
    lemma_team_run(s, d, ratio, v_root, reach, picks, kd);
    let v_th = speed_threshold(s, v_root);
    let h_max = gauge_start(s, Seq::empty(), Seq::empty(), v_root, reach).h_max as int;
    let none = Seq::<usize>::empty();
    if is_at_most(v_th, ZERO) {
        assert(splits(none, none, none));
        lemma_teams(s, v_th, h_max, none, none, none, ratio, picks);
    } else {
        lemma_teams(s, v_th, h_max, e, c, d, ratio, picks);
    }
    assert forall|hop: (usize, usize)|
        #![trigger x.hops.contains(hop)]
        #![trigger y.hops.contains(hop)]
        #![trigger z.hops.contains(hop)]
        x.hops.contains(hop) <==> y.hops.contains(hop) || z.hops.contains(hop) by {}
    assert forall|i: usize| x.is_active(s.n(), i) <==> y.is_active(s.n(), i) || z.is_active(
        s.n(),
        i,
    ) by {
        lemma_hopped(x, i);
        lemma_hopped(y, i);
        lemma_hopped(z, i);
        assert(listed(e, i as int) <==> listed(c, i as int) || listed(d, i as int));
    }
    assert(x.active_set(s) =~= y.active_set(s).union(z.active_set(s)));
    assert forall|pair: (usize, usize)| x.is_proposed(s, pair) <==> y.is_proposed(s, pair)
        || z.is_proposed(s, pair) by {
        lemma_proposes(x, s, pair);
        lemma_proposes(y, s, pair);
        lemma_proposes(z, s, pair);
    }
    assert(x.proposed_set(s) =~= y.proposed_set(s).union(z.proposed_set(s)));
}

/// Who was hopped, by the hops that were made.
proof fn lemma_hopped(g: Gauge, i: usize)
    ensures
        g.was_hopped(i) <==> exists|hop: (usize, usize)| #[trigger]
            g.hops.contains(hop) && (hop.0 == i || hop.1 == i),
{
    if g.was_hopped(i) {
        let h = choose|h: int|
            0 <= h < g.hops.len() && ((#[trigger] g.hops[h]).0 == i || g.hops[h].1 == i);
        assert(g.hops.contains(g.hops[h]));
    }
    if exists|hop: (usize, usize)| #[trigger]
        g.hops.contains(hop) && (hop.0 == i || hop.1 == i) {
        let hop = choose|hop: (usize, usize)| #[trigger]
            g.hops.contains(hop) && (hop.0 == i || hop.1 == i);
        let h = choose|h: int| 0 <= h < g.hops.len() && g.hops[h] == hop;
        assert(g.hops[h] == hop);
    }
}

/// Whether a hop proposes `pair` with some node.
spec fn hop_proposes(s: State, v_th: Bits, hop: (usize, usize), pair: (usize, usize)) -> bool {
    exists|k: usize| #[trigger] proposes(s, v_th, hop, k) && pair == ordered(hop.0, k)
}

/// What is proposed, by the hops that were made.
proof fn lemma_proposes(g: Gauge, s: State, pair: (usize, usize))
    ensures
        g.is_proposed(s, pair) <==> exists|hop: (usize, usize)| #[trigger]
            g.hops.contains(hop) && hop_proposes(s, g.v_th, hop, pair),
{
    if g.is_proposed(s, pair) {
        let (h, k) = choose|h: int, k: usize|
            0 <= h < g.hops.len() && #[trigger] proposes(s, g.v_th, g.hops[h], k) && pair
                == ordered(g.hops[h].0, k);
        assert(g.hops.contains(g.hops[h]));
        assert(hop_proposes(s, g.v_th, g.hops[h], pair));
    }
    if exists|hop: (usize, usize)| #[trigger]
        g.hops.contains(hop) && hop_proposes(s, g.v_th, hop, pair) {
        let hop = choose|hop: (usize, usize)| #[trigger]
            g.hops.contains(hop) && hop_proposes(s, g.v_th, hop, pair);
        let h = choose|h: int| 0 <= h < g.hops.len() && g.hops[h] == hop;
        let k = choose|k: usize| #[trigger]
            proposes(s, g.v_th, hop, k) && pair == ordered(hop.0, k);
        assert(proposes(s, g.v_th, g.hops[h], k));
    }
}

} // verus!
