//! The frontier of a search, generation by generation: how the walks of one
//! generation give those of the next.

use vstd::prelude::*;
use crate::edge::{has_entry, listed_entries, Edge};
use crate::path::{has_id, Path};

verus! {

/// The walks that a list of paths holds.
pub open spec fn trails_of(paths: Seq<Path>) -> Seq<Seq<Edge>> {
    Seq::new(paths.len(), |i: int| paths[i]@)
}

/// Every path of the list is well formed.
pub open spec fn all_wf(paths: Seq<Path>) -> bool {
    forall|i: int| 0 <= i < paths.len() ==> (#[trigger] paths[i]).wf()
}

/// The test for an edge that can be entered at `location`.
pub open spec fn enters_at(location: u16) -> spec_fn(Edge) -> bool {
    |e: Edge| e.entry == location
}

/// The test for an edge that `walk` has not taken yet.
pub open spec fn fresh_for(walk: Seq<Edge>) -> spec_fn(Edge) -> bool {
    |e: Edge| !has_id(walk, e.id)
}

/// The walk that consists of one edge.
pub open spec fn single() -> spec_fn(Edge) -> Seq<Edge> {
    |e: Edge| seq![e]
}

/// `walk` with one more edge.
pub open spec fn extend_by(walk: Seq<Edge>) -> spec_fn(Edge) -> Seq<Edge> {
    |e: Edge| walk.push(e)
}

/// The first generation: a walk of one edge for every edge that can be
/// entered at `start`, in list order.
pub open spec fn seeds_of(edges: Seq<Edge>, start: u16) -> Seq<Seq<Edge>> {
    edges.filter(enters_at(start)).map_values(single())
}

/// The walks that go one edge further than `walk`: one for each edge that
/// can be entered where `walk` stands and that it has not taken, in list
/// order.
pub open spec fn extensions(edges: Seq<Edge>, walk: Seq<Edge>) -> Seq<Seq<Edge>> {
    edges.filter(enters_at(walk.last().exit)).filter(fresh_for(walk)).map_values(extend_by(walk))
}

/// The walk is on its way: it has not arrived at `end`, and some edge can
/// be entered where it stands.
pub open spec fn grows(edges: Seq<Edge>, end: u16, walk: Seq<Edge>) -> bool {
    walk.len() > 0 && walk.last().exit != end && has_entry(edges, walk.last().exit)
}

/// What a generation makes of one walk: its extensions where it is on its
/// way, which may be none; else the walk itself, unchanged.
pub open spec fn grown(edges: Seq<Edge>, end: u16, walk: Seq<Edge>) -> Seq<Seq<Edge>> {
    if grows(edges, end, walk) {
        extensions(edges, walk)
    } else {
        seq![walk]
    }
}

/// What a generation makes of a list of walks: what it makes of each, in
/// the order of the list.
pub open spec fn grown_all(edges: Seq<Edge>, end: u16, walks: Seq<Seq<Edge>>) -> Seq<Seq<Edge>>
    decreases walks.len(),
{
    if walks.len() == 0 {
        Seq::empty()
    } else {
        grown_all(edges, end, walks.drop_last()) + grown(edges, end, walks.last())
    }
}

/// The test that the dead-end policy applies: the walk has arrived at
/// `end`, or stands where one of the listed entries is.
pub open spec fn alive(node_entries: Seq<u16>, end: u16) -> spec_fn(Seq<Edge>) -> bool {
    |walk: Seq<Edge>|
        walk.len() > 0 && (walk.last().exit == end || node_entries.contains(walk.last().exit))
}

/// Some walk of the list has not arrived at `end`.
pub open spec fn still_searching(walks: Seq<Seq<Edge>>, end: u16) -> bool {
    exists|j: int| 0 <= j < walks.len() && (#[trigger] walks[j]).last().exit != end
}

/// The frontier after the seeds have gone through `steps` generations, each
/// a round of growth followed by the dead-end policy.
pub open spec fn frontier_after(edges: Seq<Edge>, start: u16, end: u16, steps: nat) -> Seq<
    Seq<Edge>,
>
    decreases steps,
{
    if steps == 0 {
        seeds_of(edges, start)
    } else {
        grown_all(edges, end, frontier_after(edges, start, end, (steps - 1) as nat)).filter(
            alive(listed_entries(edges), end),
        )
    }
}

} // verus!
