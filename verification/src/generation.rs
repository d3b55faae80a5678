//! Why the generations find every route: what holds of the frontier after
//! each generation, and that growth and the removal of dead ends keep it.

use vstd::prelude::*;
use crate::edge::{has_entry, lemma_entries_hold, listed_entries, unique_ids, Edge};
use crate::frontier::{
    alive, enters_at, extend_by, fresh_for, frontier_after, grown, grown_all, grows, seeds_of,
    single,
};
use crate::path::has_id;
use crate::route::{
    arrives, in_discovery_order, is_route, is_trail, lemma_precedes_extends,
    lemma_precedes_siblings, precedes,
};
use crate::sift::{lemma_filter_members, lemma_filter_positions};

verus! {

/// How a walk of one generation derives from its stem in the generation
/// before: carried over unchanged (`via` below zero), because the stem had
/// arrived or had nowhere to go, or extended by the edge listed at `via`.
pub(crate) open spec fn derived(
    edges: Seq<Edge>,
    end: u16,
    stem: Seq<Edge>,
    walk: Seq<Edge>,
    via: int,
) -> bool {
    if via < 0 {
        walk == stem && (arrives(stem, end) || !has_entry(edges, stem.last().exit))
    } else {
        &&& via < edges.len()
        &&& walk == stem.push(edges[via])
        &&& !arrives(stem, end)
        &&& edges[via].entry == stem.last().exit
        &&& !has_id(stem, edges[via].id)
    }
}

/// The walk at `j1` was produced before the walk at `j2`: from an earlier
/// stem, or from the same stem by an edge listed earlier.
pub(crate) open spec fn born_before(parent: Seq<int>, via: Seq<int>, j1: int, j2: int) -> bool {
    parent[j1] < parent[j2] || (parent[j1] == parent[j2] && 0 <= via[j1] < via[j2])
}

/// Each walk of `grown` derives from the walk of `prior` that `parent` names,
/// in the way that `via` names, and the walks stand in order of production.
pub(crate) open spec fn grown_from(
    edges: Seq<Edge>,
    end: u16,
    prior: Seq<Seq<Edge>>,
    grown: Seq<Seq<Edge>>,
    parent: Seq<int>,
    via: Seq<int>,
) -> bool {
    &&& parent.len() == grown.len()
    &&& via.len() == grown.len()
    &&& forall|j: int| 0 <= j < grown.len() ==> 0 <= #[trigger] parent[j] < prior.len()
    &&& forall|j: int|
        0 <= j < grown.len() ==> derived(edges, end, prior[parent[j]], #[trigger] grown[j], via[j])
    &&& forall|j1: int, j2: int|
        0 <= j1 < j2 < grown.len() ==> #[trigger] born_before(parent, via, j1, j2)
}

/// Nothing that one generation owes the next is missing from `grown`: the
/// walks of `prior` that have arrived are carried over, and the
/// others are extended by every adjacent edge that they do not hold yet.
pub(crate) open spec fn grown_fully(
    edges: Seq<Edge>,
    end: u16,
    prior: Seq<Seq<Edge>>,
    grown: Seq<Seq<Edge>>,
) -> bool {
    &&& forall|i: int|
        0 <= i < prior.len() && arrives(#[trigger] prior[i], end) ==> grown.contains(prior[i])
    &&& forall|i: int, k: int|
        0 <= i < prior.len() && 0 <= k < edges.len() && !arrives(prior[i], end) && edges[k].entry
            == prior[i].last().exit && !has_id(prior[i], edges[k].id) ==> grown.contains(
            #[trigger] prior[i].push(edges[k]),
        )
}

/// The walk has arrived, or some edge can still follow it.
pub(crate) open spec fn still_alive(edges: Seq<Edge>, end: u16, walk: Seq<Edge>) -> bool {
    arrives(walk, end) || has_entry(edges, walk.last().exit)
}

/// `kept` holds the walks of `grown` that are still alive, in their order;
/// `from` names where each of them stood.
pub(crate) open spec fn sifted(
    edges: Seq<Edge>,
    end: u16,
    grown: Seq<Seq<Edge>>,
    kept: Seq<Seq<Edge>>,
    from: Seq<int>,
) -> bool {
    &&& from.len() == kept.len()
    &&& forall|j: int|
        0 <= j < kept.len() ==> 0 <= #[trigger] from[j] < grown.len() && kept[j] == grown[from[j]]
    &&& forall|j1: int, j2: int|
        0 <= j1 < j2 < kept.len() ==> #[trigger] from[j1] < #[trigger] from[j2]
    &&& forall|j: int| 0 <= j < kept.len() ==> still_alive(edges, end, #[trigger] kept[j])
    &&& forall|i: int|
        0 <= i < grown.len() && still_alive(edges, end, #[trigger] grown[i]) ==> kept.contains(
            grown[i],
        )
}

/// What lies within the first `g` edges of `walk`.
pub(crate) open spec fn stem(walk: Seq<Edge>, g: int) -> Seq<Edge> {
    if g < walk.len() {
        walk.take(g)
    } else {
        walk
    }
}

/// What holds of the frontier after `g` generations: its walks are trails
/// in discovery order; those that have not arrived have exactly `g` edges;
/// and of every route the frontier holds the first `g` edges, or the whole
/// route when it is no longer than that.
pub(crate) open spec fn frontier_ok(
    edges: Seq<Edge>,
    start: u16,
    end: u16,
    walks: Seq<Seq<Edge>>,
    g: int,
) -> bool {
    &&& forall|i: int| 0 <= i < walks.len() ==> is_trail(edges, start, end, #[trigger] walks[i])
    &&& forall|i: int|
        0 <= i < walks.len() ==> (#[trigger] walks[i]).len() <= g && (walks[i].len() < g
            ==> arrives(walks[i], end))
    &&& forall|route: Seq<Edge>| #[trigger]
        is_route(edges, start, end, route) ==> walks.contains(stem(route, g))
    &&& in_discovery_order(edges, walks)
}

/// A walk derived from a trail is a trail.
pub(crate) proof fn lemma_derived_trail(
    edges: Seq<Edge>,
    start: u16,
    end: u16,
    stem: Seq<Edge>,
    walk: Seq<Edge>,
    via: int,
)
    requires
        is_trail(edges, start, end, stem),
        derived(edges, end, stem, walk, via),
    ensures
        is_trail(edges, start, end, walk),
{
    if via >= 0 {
        let edge = edges[via];
        assert forall|i: int| 0 <= i < walk.len() implies edges.contains(#[trigger] walk[i]) by {
            if i < stem.len() {
                assert(edges.contains(stem[i]));
            }
        }
        assert forall|i: int| 0 <= i < walk.len() - 1 implies (#[trigger] walk[i]).exit == walk[i
            + 1].entry && walk[i].exit != end by {
            if i < stem.len() - 1 {
                assert(stem[i].exit == stem[i + 1].entry && stem[i].exit != end);
            }
        }
        assert forall|i: int, j: int| 0 <= i < j < walk.len() implies walk[i].id != walk[j].id by {
            if j < stem.len() {
                assert(stem[i].id != stem[j].id);
            } else {
                assert(stem[i].id != edge.id);
            }
        }
    }
}

/// Growth followed by sifting keeps the walks trails of the right length.
pub(crate) proof fn lemma_generation_sound(
    edges: Seq<Edge>,
    start: u16,
    end: u16,
    prior: Seq<Seq<Edge>>,
    g: int,
    grown: Seq<Seq<Edge>>,
    parent: Seq<int>,
    via: Seq<int>,
    kept: Seq<Seq<Edge>>,
    from: Seq<int>,
)
    requires
        frontier_ok(edges, start, end, prior, g),
        grown_from(edges, end, prior, grown, parent, via),
        sifted(edges, end, grown, kept, from),
    ensures
        forall|i: int| 0 <= i < kept.len() ==> is_trail(edges, start, end, #[trigger] kept[i]),
        forall|i: int|
            0 <= i < kept.len() ==> (#[trigger] kept[i]).len() <= g + 1 && (kept[i].len() < g + 1
                ==> arrives(kept[i], end)),
{
    assert forall|i: int| 0 <= i < kept.len() implies is_trail(
        edges,
        start,
        end,
        #[trigger] kept[i],
    ) && kept[i].len() <= g + 1 && (kept[i].len() < g + 1 ==> arrives(kept[i], end)) by {
        let j = from[i];
        let p = parent[j];
        assert(kept[i] == grown[j]);
        assert(derived(edges, end, prior[p], grown[j], via[j]));
        assert(is_trail(edges, start, end, prior[p]));
        assert(prior[p].len() <= g);
        lemma_derived_trail(edges, start, end, prior[p], grown[j], via[j]);
        assert(still_alive(edges, end, kept[i]));
    }
}

/// Growth followed by sifting keeps the walks in discovery order.
pub(crate) proof fn lemma_generation_ordered(
    edges: Seq<Edge>,
    end: u16,
    prior: Seq<Seq<Edge>>,
    grown: Seq<Seq<Edge>>,
    parent: Seq<int>,
    via: Seq<int>,
    kept: Seq<Seq<Edge>>,
    from: Seq<int>,
)
    requires
        unique_ids(edges),
        in_discovery_order(edges, prior),
        grown_from(edges, end, prior, grown, parent, via),
        sifted(edges, end, grown, kept, from),
    ensures
        in_discovery_order(edges, kept),
{
    assert forall|i: int, j: int| 0 <= i < j < kept.len() implies precedes(
        edges,
        #[trigger] kept[i],
        #[trigger] kept[j],
    ) by {
        let a = from[i];
        let b = from[j];
        assert(a < b);
        assert(kept[i] == grown[a] && kept[j] == grown[b]);
        assert(born_before(parent, via, a, b));
        let pa = parent[a];
        let pb = parent[b];
        assert(derived(edges, end, prior[pa], grown[a], via[a]));
        assert(derived(edges, end, prior[pb], grown[b], via[b]));
        if pa < pb {
            assert(precedes(edges, prior[pa], prior[pb]));
            lemma_precedes_extends(edges, prior[pa], prior[pb], grown[a], grown[b]);
        } else {
            lemma_precedes_siblings(edges, prior[pa], via[a], via[b]);
        }
    }
}

/// Growth followed by sifting loses no route: the next generation holds of
/// each one edge more.
pub(crate) proof fn lemma_generation_complete(
    edges: Seq<Edge>,
    start: u16,
    end: u16,
    prior: Seq<Seq<Edge>>,
    g: int,
    grown: Seq<Seq<Edge>>,
    kept: Seq<Seq<Edge>>,
    from: Seq<int>,
    route: Seq<Edge>,
)
    requires
        g >= 1,
        prior.contains(stem(route, g)),
        is_route(edges, start, end, route),
        grown_fully(edges, end, prior, grown),
        sifted(edges, end, grown, kept, from),
    ensures
        kept.contains(stem(route, g + 1)),
{
    let i = choose|i: int| 0 <= i < prior.len() && prior[i] == stem(route, g);
    let next = stem(route, g + 1);
    if route.len() <= g {
        assert(arrives(prior[i], end));
        assert(grown.contains(prior[i]));
    } else {
        let edge = route[g];
        assert(prior[i].last() == route[g - 1]);
        assert(route[g - 1].exit == route[g].entry && route[g - 1].exit != end);
        assert(edges.contains(edge));
        let k = choose|k: int| 0 <= k < edges.len() && edges[k] == edge;
        assert(!has_id(prior[i], edge.id)) by {
            if has_id(prior[i], edge.id) {
                let n = choose|n: int|
                    0 <= n < prior[i].len() && (#[trigger] prior[i][n]).id == edge.id;
                assert(route[n].id != route[g].id);
            }
        }
        assert(prior[i].push(edges[k]) =~= next);
        assert(grown.contains(prior[i].push(edges[k])));
    }
    assert(grown.contains(next));
    let j = choose|j: int| 0 <= j < grown.len() && grown[j] == next;
    assert(still_alive(edges, end, grown[j])) by {
        if next.len() < route.len() {
            assert(next.last() == route[g]);
            assert(route[g].exit == route[g + 1].entry);
            assert(edges.contains(route[g + 1]));
            let k = choose|k: int| 0 <= k < edges.len() && edges[k] == route[g + 1];
            assert(edges[k].entry == next.last().exit);
        }
    }
}

/// One generation on: what held of the frontier after `g` generations holds
/// of the sifted growth after `g + 1`.
pub(crate) proof fn lemma_next_generation(
    edges: Seq<Edge>,
    start: u16,
    end: u16,
    prior: Seq<Seq<Edge>>,
    g: int,
    grown: Seq<Seq<Edge>>,
    parent: Seq<int>,
    via: Seq<int>,
    kept: Seq<Seq<Edge>>,
    from: Seq<int>,
)
    requires
        unique_ids(edges),
        g >= 1,
        frontier_ok(edges, start, end, prior, g),
        grown_from(edges, end, prior, grown, parent, via),
        grown_fully(edges, end, prior, grown),
        sifted(edges, end, grown, kept, from),
    ensures
        frontier_ok(edges, start, end, kept, g + 1),
{
    lemma_generation_sound(edges, start, end, prior, g, grown, parent, via, kept, from);
    lemma_generation_ordered(edges, end, prior, grown, parent, via, kept, from);
    assert forall|route: Seq<Edge>| #[trigger]
        is_route(edges, start, end, route) implies kept.contains(stem(route, g + 1)) by {
        lemma_generation_complete(edges, start, end, prior, g, grown, kept, from, route);
    }
}

/// Once every walk of the frontier has arrived, the frontier holds the
/// routes and nothing else.
pub(crate) proof fn lemma_converged(
    edges: Seq<Edge>,
    start: u16,
    end: u16,
    walks: Seq<Seq<Edge>>,
    g: int,
)
    requires
        g >= 1,
        frontier_ok(edges, start, end, walks, g),
        forall|i: int| 0 <= i < walks.len() ==> arrives(#[trigger] walks[i], end),
    ensures
        forall|i: int| 0 <= i < walks.len() ==> is_route(edges, start, end, #[trigger] walks[i]),
        forall|route: Seq<Edge>| #[trigger]
            is_route(edges, start, end, route) ==> walks.contains(route),
{
    assert forall|route: Seq<Edge>| #[trigger]
        is_route(edges, start, end, route) implies walks.contains(route) by {
        assert(walks.contains(stem(route, g)));
        if g < route.len() {
            let i = choose|i: int| 0 <= i < walks.len() && walks[i] == stem(route, g);
            assert(arrives(walks[i], end));
            assert(walks[i].last() == route[g - 1]);
            assert(route[g - 1].exit != end);
        }
    }
}

/// The seeds are what the frontier has to be after one generation.
pub(crate) proof fn lemma_seeds_ok(
    edges: Seq<Edge>,
    start: u16,
    end: u16,
    seeds: Seq<Seq<Edge>>,
    from: Seq<int>,
)
    requires
        unique_ids(edges),
        from.len() == seeds.len(),
        forall|j: int|
            0 <= j < seeds.len() ==> 0 <= #[trigger] from[j] < edges.len() && edges[from[j]].entry
                == start && seeds[j] == seq![edges[from[j]]],
        forall|j1: int, j2: int|
            0 <= j1 < j2 < seeds.len() ==> #[trigger] from[j1] < #[trigger] from[j2],
        forall|k: int|
            0 <= k < edges.len() && (#[trigger] edges[k]).entry == start ==> seeds.contains(
                seq![edges[k]],
            ),
    ensures
        frontier_ok(edges, start, end, seeds, 1),
{
    assert forall|i: int| 0 <= i < seeds.len() implies is_trail(
        edges,
        start,
        end,
        #[trigger] seeds[i],
    ) && seeds[i].len() <= 1 by {
        let k = from[i];
        assert(seeds[i] == seq![edges[k]]);
        assert(edges.contains(edges[k]));
    }
    assert forall|route: Seq<Edge>| #[trigger]
        is_route(edges, start, end, route) implies seeds.contains(stem(route, 1)) by {
        assert(edges.contains(route[0]));
        let k = choose|k: int| 0 <= k < edges.len() && edges[k] == route[0];
        assert(stem(route, 1) =~= seq![edges[k]]);
    }
    assert forall|i: int, j: int| 0 <= i < j < seeds.len() implies precedes(
        edges,
        #[trigger] seeds[i],
        #[trigger] seeds[j],
    ) by {
        let a = from[i];
        let b = from[j];
        assert(a < b);
        lemma_precedes_siblings(edges, Seq::<Edge>::empty(), a, b);
        assert(Seq::<Edge>::empty().push(edges[a]) =~= seeds[i]);
        assert(Seq::<Edge>::empty().push(edges[b]) =~= seeds[j]);
    }
}

/// The seeds are what the frontier has to be after one generation.
pub(crate) proof fn lemma_first_generation(edges: Seq<Edge>, start: u16, end: u16)
    requires
        unique_ids(edges),
    ensures
        frontier_ok(edges, start, end, seeds_of(edges, start), 1),
{
    let test = enters_at(start);
    let from = lemma_filter_positions(edges, test);
    let entered = edges.filter(test);
    let seeds = seeds_of(edges, start);
    lemma_filter_members(edges, test);
    assert forall|j: int| 0 <= j < seeds.len() implies 0 <= #[trigger] from[j] < edges.len()
        && edges[from[j]].entry == start && seeds[j] == seq![edges[from[j]]] by {
        edges.lemma_filter_pred(test, j);
        assert(seeds[j] == single()(entered[j]));
    }
    assert forall|k: int|
        0 <= k < edges.len() && (#[trigger] edges[k]).entry == start implies seeds.contains(
        seq![edges[k]],
    ) by {
        assert(test(edges[k]));
        assert(from.contains(k));
        let a = choose|a: int| 0 <= a < from.len() && from[a] == k;
        assert(seeds[a] == single()(entered[a]));
    }
    lemma_seeds_ok(edges, start, end, seeds, from);
}

/// Where each walk that a generation of growth produces comes from: the
/// index of its stem, and the index of the edge that it took, or a number
/// below zero where the stem was carried over.
pub(crate) proof fn lemma_growth_births(
    edges: Seq<Edge>,
    end: u16,
    prior: Seq<Seq<Edge>>,
) -> (births: (Seq<int>, Seq<int>))
    requires
        forall|i: int| 0 <= i < prior.len() ==> (#[trigger] prior[i]).len() > 0,
    ensures
        grown_from(edges, end, prior, grown_all(edges, end, prior), births.0, births.1),
        grown_fully(edges, end, prior, grown_all(edges, end, prior)),
    decreases prior.len(),
{
    if prior.len() == 0 {
        (Seq::empty(), Seq::empty())
    } else {
        let head = prior.drop_last();
        let walk = prior.last();
        let n = prior.len() - 1;
        assert forall|i: int| 0 <= i < head.len() implies (#[trigger] head[i]).len() > 0 by {
            assert(head[i] == prior[i]);
        }
        let (head_parent, head_via) = lemma_growth_births(edges, end, head);
        let head_grown = grown_all(edges, end, head);
        let added = grown(edges, end, walk);
        let whole = grown_all(edges, end, prior);
        assert(whole == head_grown + added);
        let enters = enters_at(walk.last().exit);
        let fresh = fresh_for(walk);
        let conns = edges.filter(enters);
        let taken = conns.filter(fresh);
        let pos1 = lemma_filter_positions(edges, enters);
        let pos2 = lemma_filter_positions(conns, fresh);
        lemma_filter_members(edges, enters);
        lemma_filter_members(conns, fresh);
        let parent = head_parent + Seq::new(added.len(), |c: int| n);
        let via = if grows(edges, end, walk) {
            head_via + Seq::new(added.len(), |c: int| pos1[pos2[c]])
        } else {
            head_via.push(-1)
        };
        assert(prior[n] == walk);
        assert forall|j: int| 0 <= j < whole.len() implies 0 <= #[trigger] parent[j]
            < prior.len() by {
            if j < head_grown.len() {
                assert(parent[j] == head_parent[j]);
            }
        }
        assert forall|j: int| 0 <= j < whole.len() implies derived(
            edges,
            end,
            prior[parent[j]],
            #[trigger] whole[j],
            via[j],
        ) by {
            if j < head_grown.len() {
                assert(parent[j] == head_parent[j] && via[j] == head_via[j]);
                assert(whole[j] == head_grown[j]);
                assert(derived(edges, end, head[head_parent[j]], head_grown[j], head_via[j]));
                assert(head[head_parent[j]] == prior[head_parent[j]]);
            } else {
                let c = j - head_grown.len();
                assert(whole[j] == added[c]);
                assert(parent[j] == n);
                if grows(edges, end, walk) {
                    assert(via[j] == pos1[pos2[c]]);
                    assert(added[c] == extend_by(walk)(taken[c]));
                    assert(taken[c] == conns[pos2[c]]);
                    assert(conns[pos2[c]] == edges[pos1[pos2[c]]]);
                    assert(taken.contains(taken[c]));
                    assert(conns.contains(conns[pos2[c]]));
                } else {
                    assert(via[j] == -1);
                }
            }
        }
        assert forall|j1: int, j2: int| 0 <= j1 < j2 < whole.len() implies #[trigger] born_before(
            parent,
            via,
            j1,
            j2,
        ) by {
            if j2 < head_grown.len() {
                assert(born_before(head_parent, head_via, j1, j2));
            } else if j1 < head_grown.len() {
                assert(head_parent[j1] < head.len());
            } else {
                assert(grows(edges, end, walk));
                let c1 = j1 - head_grown.len();
                let c2 = j2 - head_grown.len();
                assert(pos2[c1] < pos2[c2]);
                assert(pos1[pos2[c1]] < pos1[pos2[c2]]);
            }
        }
        assert forall|i: int|
            0 <= i < prior.len() && arrives(#[trigger] prior[i], end) implies whole.contains(
            prior[i],
        ) by {
            if i < n {
                assert(head[i] == prior[i]);
                assert(head_grown.contains(head[i]));
                let j = choose|j: int| 0 <= j < head_grown.len() && head_grown[j] == head[i];
                assert(whole[j] == prior[i]);
            } else {
                assert(whole[head_grown.len() as int] == walk);
            }
        }
        assert forall|i: int, k: int|
            0 <= i < prior.len() && 0 <= k < edges.len() && !arrives(prior[i], end)
                && edges[k].entry == prior[i].last().exit && !has_id(
                prior[i],
                edges[k].id,
            ) implies whole.contains(#[trigger] prior[i].push(edges[k])) by {
            if i < n {
                assert(head[i] == prior[i]);
                assert(head_grown.contains(head[i].push(edges[k])));
                let j = choose|j: int|
                    0 <= j < head_grown.len() && head_grown[j] == head[i].push(edges[k]);
                assert(whole[j] == prior[i].push(edges[k]));
            } else {
                assert(grows(edges, end, walk));
                assert(enters(edges[k]));
                assert(conns.contains(edges[k]));
                assert(fresh(edges[k]));
                assert(taken.contains(edges[k]));
                let c = choose|c: int| 0 <= c < taken.len() && taken[c] == edges[k];
                assert(added[c] == extend_by(walk)(taken[c]));
                assert(whole[head_grown.len() + c] == walk.push(edges[k]));
            }
        }
        (parent, via)
    }
}

/// Where each walk that the dead-end policy leaves stood before.
pub(crate) proof fn lemma_sift_positions(
    edges: Seq<Edge>,
    end: u16,
    grown: Seq<Seq<Edge>>,
) -> (from: Seq<int>)
    requires
        forall|i: int| 0 <= i < grown.len() ==> (#[trigger] grown[i]).len() > 0,
    ensures
        sifted(edges, end, grown, grown.filter(alive(listed_entries(edges), end)), from),
{
    let test = alive(listed_entries(edges), end);
    let kept = grown.filter(test);
    let from = lemma_filter_positions(grown, test);
    lemma_filter_members(grown, test);
    assert forall|j: int| 0 <= j < kept.len() implies still_alive(
        edges,
        end,
        #[trigger] kept[j],
    ) by {
        assert(kept.contains(kept[j]));
        lemma_entries_hold(edges, kept[j].last().exit);
    }
    assert forall|i: int|
        0 <= i < grown.len() && still_alive(edges, end, #[trigger] grown[i]) implies kept.contains(
        grown[i],
    ) by {
        lemma_entries_hold(edges, grown[i].last().exit);
        assert(test(grown[i]));
        assert(grown.contains(grown[i]));
    }
    from
}

/// One generation on: what held of the frontier after `g` generations
/// holds, after `g + 1`, of what growth and the dead-end policy make of it.
pub(crate) proof fn lemma_generation_step(
    edges: Seq<Edge>,
    start: u16,
    end: u16,
    prior: Seq<Seq<Edge>>,
    g: int,
)
    requires
        unique_ids(edges),
        g >= 1,
        frontier_ok(edges, start, end, prior, g),
    ensures
        frontier_ok(
            edges,
            start,
            end,
            grown_all(edges, end, prior).filter(alive(listed_entries(edges), end)),
            g + 1,
        ),
{
    assert forall|i: int| 0 <= i < prior.len() implies (#[trigger] prior[i]).len() > 0 by {
        assert(is_trail(edges, start, end, prior[i]));
    }
    let (parent, via) = lemma_growth_births(edges, end, prior);
    let grown = grown_all(edges, end, prior);
    assert forall|i: int| 0 <= i < grown.len() implies (#[trigger] grown[i]).len() > 0 by {
        assert(derived(edges, end, prior[parent[i]], grown[i], via[i]));
    }
    let from = lemma_sift_positions(edges, end, grown);
    let kept = grown.filter(alive(listed_entries(edges), end));
    lemma_next_generation(edges, start, end, prior, g, grown, parent, via, kept, from);
}

/// Growth leaves a list of walks as it is when none of them is on its way.
pub(crate) proof fn lemma_growth_of_settled(edges: Seq<Edge>, end: u16, walks: Seq<Seq<Edge>>)
    requires
        forall|i: int| 0 <= i < walks.len() ==> !grows(edges, end, #[trigger] walks[i]),
    ensures
        grown_all(edges, end, walks) == walks,
    decreases walks.len(),
{
    if walks.len() > 0 {
        let head = walks.drop_last();
        assert forall|i: int| 0 <= i < head.len() implies !grows(
            edges,
            end,
            #[trigger] head[i],
        ) by {
            assert(head[i] == walks[i]);
        }
        lemma_growth_of_settled(edges, end, head);
        assert(!grows(edges, end, walks[walks.len() - 1]));
        assert(head + seq![walks.last()] =~= walks);
    }
}

/// A frontier in which every walk has arrived stays as it is, generation
/// after generation.
pub(crate) proof fn lemma_settled_frontier_stays(
    edges: Seq<Edge>,
    start: u16,
    end: u16,
    steps: nat,
    more: nat,
)
    requires
        forall|i: int|
            0 <= i < frontier_after(edges, start, end, steps).len() ==> arrives(
                #[trigger] frontier_after(edges, start, end, steps)[i],
                end,
            ),
    ensures
        frontier_after(edges, start, end, steps + more) == frontier_after(edges, start, end, steps),
    decreases more,
{
    if more > 0 {
        lemma_settled_frontier_stays(edges, start, end, steps, (more - 1) as nat);
        let walks = frontier_after(edges, start, end, steps);
        let test = alive(listed_entries(edges), end);
        assert(frontier_after(edges, start, end, steps + more) == grown_all(
            edges,
            end,
            frontier_after(edges, start, end, (steps + more - 1) as nat),
        ).filter(test));
        lemma_growth_of_settled(edges, end, walks);
        lemma_all_pass(walks, test);
    }
}

/// A filter keeps a list whole when every item passes.
pub(crate) proof fn lemma_all_pass(walks: Seq<Seq<Edge>>, test: spec_fn(Seq<Edge>) -> bool)
    requires
        forall|i: int| 0 <= i < walks.len() ==> test(#[trigger] walks[i]),
    ensures
        walks.filter(test) == walks,
    decreases walks.len(),
{
    reveal(Seq::filter);
    if walks.len() > 0 {
        let head = walks.drop_last();
        assert forall|i: int| 0 <= i < head.len() implies test(#[trigger] head[i]) by {
            assert(head[i] == walks[i]);
        }
        lemma_all_pass(head, test);
        assert(test(walks[walks.len() - 1]));
        assert(head.push(walks.last()) =~= walks);
    }
}

/// What holds of the frontier holds after any number of generations.
pub(crate) proof fn lemma_every_generation(edges: Seq<Edge>, start: u16, end: u16, steps: nat)
    requires
        unique_ids(edges),
    ensures
        frontier_ok(edges, start, end, frontier_after(edges, start, end, steps), steps as int + 1),
    decreases steps,
{
    if steps == 0 {
        lemma_first_generation(edges, start, end);
    } else {
        lemma_every_generation(edges, start, end, (steps - 1) as nat);
        lemma_generation_step(
            edges,
            start,
            end,
            frontier_after(edges, start, end, (steps - 1) as nat),
            steps as int,
        );
    }
}

} // verus!
