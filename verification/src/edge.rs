//! The edge record, the error kinds, and the identifier check on an edge list.

use vstd::prelude::*;

verus! {

/// A directed, weighted connection from the location `entry` to the location
/// `exit`. Two edges are adjacent when the exit of the first is the entry of
/// the second.
#[derive(Clone, Copy, Debug, PartialEq, Eq, Structural)]
pub struct Edge {
    pub id: u16,
    pub entry: u16,
    pub exit: u16,
    pub weight: u64,
}

/// The two ways in which a search can fail.
#[derive(Clone, Copy, Debug, PartialEq, Eq, Structural)]
pub enum PathError {
    /// Two edges of the input carry the identifier held here.
    InvalidInput(u16),
    /// No path leads from the start location to the end location.
    NoPath,
}

/// No identifier occurs on two edges.
pub open spec fn unique_ids(edges: Seq<Edge>) -> bool {
    forall|i: int, j: int| 0 <= i < j < edges.len() ==> edges[i].id != edges[j].id
}

/// The edge at index `i` carries an identifier that an earlier edge carries.
pub open spec fn repeats_at(edges: Seq<Edge>, i: int) -> bool {
    exists|j: int| 0 <= j < i && #[trigger] edges[j].id == edges[i].id
}

/// `id` is the identifier of the first edge, in list order, that repeats the
/// identifier of an earlier one.
pub open spec fn first_repeated_id(edges: Seq<Edge>, id: u16) -> bool {
    exists|i: int|
        0 <= i < edges.len() && unique_ids(edges.take(i)) && repeats_at(edges, i)
            && #[trigger] edges[i].id == id
}

/// Whether some edge before index `upto` carries `id`.
fn id_seen(edges: &[Edge], upto: usize, id: u16) -> (found: bool)
    requires
        upto <= edges@.len(),
    ensures
        found <==> exists|j: int| 0 <= j < upto && #[trigger] edges@[j].id == id,
{
    let mut j: usize = 0;
    while j < upto
        invariant
            j <= upto <= edges@.len(),
            forall|k: int| 0 <= k < j ==> (#[trigger] edges@[k]).id != id,
        decreases upto - j,
    {
        if edges[j].id == id {
            return true;
        }
        j += 1;
    }
    false
}

/// Checks that no two edges share an identifier. On failure the error holds
/// the first identifier, in list order, that was seen before.
pub fn verify_edges(edges: &[Edge]) -> (r: Result<(), PathError>)
    ensures
        r is Ok <==> unique_ids(edges@),
        r is Err ==> exists|id: u16|
            r == Err::<(), PathError>(PathError::InvalidInput(id)) && first_repeated_id(
                edges@,
                id,
            ),
{
    let mut i: usize = 0;
    while i < edges.len()
        invariant
            i <= edges@.len(),
            unique_ids(edges@.take(i as int)),
        decreases edges@.len() - i,
    {
        let id = edges[i].id;
        if id_seen(edges, i, id) {
            assert(repeats_at(edges@, i as int));
            let ghost j = choose|j: int|
                0 <= j < i && #[trigger] edges@[j].id == edges@[i as int].id;
            assert(!unique_ids(edges@)) by {
                assert(edges@[j].id == edges@[i as int].id);
            }
            assert(first_repeated_id(edges@, id));
            return Err(PathError::InvalidInput(id));
        }
        proof {
            let longer = edges@.take(i + 1);
            assert forall|a: int, b: int| 0 <= a < b < longer.len() implies longer[a].id
                != longer[b].id by {
                if b < i {
                    assert(edges@.take(i as int)[a].id != edges@.take(i as int)[b].id);
                }
            }
        }
        i += 1;
    }
    assert(edges@.take(i as int) =~= edges@);
    Ok(())
}

/// Some edge can be entered at `location`.
pub open spec fn has_entry(edges: Seq<Edge>, location: u16) -> bool {
    exists|k: int| 0 <= k < edges.len() && (#[trigger] edges[k]).entry == location
}

/// Some edge ends at `location`.
pub open spec fn has_exit(edges: Seq<Edge>, location: u16) -> bool {
    exists|k: int| 0 <= k < edges.len() && (#[trigger] edges[k]).exit == location
}

/// The entry locations of the edges, in list order.
pub open spec fn listed_entries(edges: Seq<Edge>) -> Seq<u16> {
    Seq::new(edges.len(), |k: int| edges[k].entry)
}

/// The exit locations of the edges, in list order.
pub open spec fn listed_exits(edges: Seq<Edge>) -> Seq<u16> {
    Seq::new(edges.len(), |k: int| edges[k].exit)
}

/// Collects the entry locations of the edges, in list order.
pub fn entries_of(edges: &[Edge]) -> (r: Vec<u16>)
    ensures
        r@ == listed_entries(edges@),
{
    let mut r: Vec<u16> = Vec::new();
    let mut k: usize = 0;
    while k < edges.len()
        invariant
            k <= edges@.len(),
            r@ == listed_entries(edges@.take(k as int)),
        decreases edges@.len() - k,
    {
        r.push(edges[k].entry);
        assert(r@ =~= listed_entries(edges@.take(k + 1)));
        k += 1;
    }
    assert(edges@.take(k as int) =~= edges@);
    r
}

/// Collects the exit locations of the edges, in list order.
pub fn exits_of(edges: &[Edge]) -> (r: Vec<u16>)
    ensures
        r@ == listed_exits(edges@),
{
    let mut r: Vec<u16> = Vec::new();
    let mut k: usize = 0;
    while k < edges.len()
        invariant
            k <= edges@.len(),
            r@ == listed_exits(edges@.take(k as int)),
        decreases edges@.len() - k,
    {
        r.push(edges[k].exit);
        assert(r@ =~= listed_exits(edges@.take(k + 1)));
        k += 1;
    }
    assert(edges@.take(k as int) =~= edges@);
    r
}

/// Whether `location` occurs in `locations`.
pub fn holds_location(locations: &[u16], location: u16) -> (b: bool)
    ensures
        b <==> locations@.contains(location),
{
    let mut k: usize = 0;
    while k < locations.len()
        invariant
            k <= locations@.len(),
            forall|j: int| 0 <= j < k ==> locations@[j] != location,
        decreases locations@.len() - k,
    {
        if locations[k] == location {
            return true;
        }
        k += 1;
    }
    false
}

/// A location is among the collected entries exactly when some edge can be
/// entered there.
pub proof fn lemma_entries_hold(edges: Seq<Edge>, location: u16)
    ensures
        listed_entries(edges).contains(location) <==> has_entry(edges, location),
{
    let entries = listed_entries(edges);
    if entries.contains(location) {
        let k = choose|k: int| 0 <= k < entries.len() && entries[k] == location;
        assert(edges[k].entry == location);
    }
    if has_entry(edges, location) {
        let k = choose|k: int| 0 <= k < edges.len() && (#[trigger] edges[k]).entry == location;
        assert(entries[k] == location);
    }
}

/// A location is among the collected exits exactly when some edge ends
/// there.
pub proof fn lemma_exits_hold(edges: Seq<Edge>, location: u16)
    ensures
        listed_exits(edges).contains(location) <==> has_exit(edges, location),
{
    let exits = listed_exits(edges);
    if exits.contains(location) {
        let k = choose|k: int| 0 <= k < exits.len() && exits[k] == location;
        assert(edges[k].exit == location);
    }
    if has_exit(edges, location) {
        let k = choose|k: int| 0 <= k < edges.len() && (#[trigger] edges[k]).exit == location;
        assert(exits[k] == location);
    }
}

} // verus!
