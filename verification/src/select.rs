//! The selection: of the paths found, those that have arrived and weigh
//! least.

use vstd::prelude::*;
use crate::path::Path;
use crate::route::arrives;

verus! {

/// The test that selection applies: the path has arrived at `end`, and no
/// path of the list that has arrived weighs less.
pub open spec fn lightest(paths: Seq<Path>, end: u16) -> spec_fn(Path) -> bool {
    |p: Path|
        arrives(p@, end) && forall|j: int|
            0 <= j < paths.len() && arrives((#[trigger] paths[j])@, end) ==> p.weight_spec()
                <= paths[j].weight_spec()
}

/// `copies` holds, item for item, copies of the paths of `sources`.
pub open spec fn copies_of(copies: Seq<Path>, sources: Seq<Path>) -> bool {
    &&& copies.len() == sources.len()
    &&& forall|i: int| 0 <= i < copies.len() ==> (#[trigger] copies[i]).is_copy_of(&sources[i])
}

/// The least weight among the paths that have arrived at `end`, if any has.
pub fn least_weight(end: u16, paths: &Vec<Path>) -> (least: Option<u128>)
    ensures
        least is None <==> forall|j: int|
            0 <= j < paths@.len() ==> !arrives((#[trigger] paths@[j])@, end),
        least matches Some(w) ==> {
            &&& exists|j: int|
                0 <= j < paths@.len() && arrives((#[trigger] paths@[j])@, end)
                    && paths@[j].weight_spec() == w
            &&& forall|j: int|
                0 <= j < paths@.len() && arrives((#[trigger] paths@[j])@, end) ==> w
                    <= paths@[j].weight_spec()
        },
{
    let mut least: Option<u128> = None;
    let mut index: usize = 0;
    while index < paths.len()
        invariant
            index <= paths@.len(),
            least is None <==> forall|j: int|
                0 <= j < index ==> !arrives((#[trigger] paths@[j])@, end),
            least matches Some(w) ==> {
                &&& exists|j: int|
                    0 <= j < index && arrives((#[trigger] paths@[j])@, end)
                        && paths@[j].weight_spec() == w
                &&& forall|j: int|
                    0 <= j < index && arrives((#[trigger] paths@[j])@, end) ==> w
                        <= paths@[j].weight_spec()
            },
        decreases paths@.len() - index,
    {
        let subpath = &paths[index];
        if !subpath.is_empty() && subpath.last().exit == end {
            let weight = subpath.weight();
            assert(arrives(paths@[index as int]@, end));
            match least {
                None => {
                    least = Some(weight);
                },
                Some(smallest) => {
                    if weight < smallest {
                        least = Some(weight);
                    }
                },
            }
        }
        index += 1;
    }
    least
}

/// The paths that have arrived at `end` and weigh least among those, ties
/// included, in the order of the list, each once.
pub fn select_shortest(end: u16, paths: &Vec<Path>) -> (shortest: Vec<Path>)
    ensures
        copies_of(shortest@, paths@.filter(lightest(paths@, end))),
{
    let mut shortest_paths: Vec<Path> = Vec::new();
    let least = least_weight(end, paths);
    let mut index: usize = 0;
    proof {
        reveal(Seq::filter);
        assert(paths@.take(0).len() == 0);
    }
    while index < paths.len()
        invariant
            index <= paths@.len(),
            least is None <==> forall|j: int|
                0 <= j < paths@.len() ==> !arrives((#[trigger] paths@[j])@, end),
            least matches Some(w) ==> {
                &&& exists|j: int|
                    0 <= j < paths@.len() && arrives((#[trigger] paths@[j])@, end)
                        && paths@[j].weight_spec() == w
                &&& forall|j: int|
                    0 <= j < paths@.len() && arrives((#[trigger] paths@[j])@, end) ==> w
                        <= paths@[j].weight_spec()
            },
            copies_of(shortest_paths@, paths@.take(index as int).filter(lightest(paths@, end))),
        decreases paths@.len() - index,
    {
        let subpath = &paths[index];
        let ghost chosen = paths@.take(index as int).filter(lightest(paths@, end));
        proof {
            paths@.take(index as int).lemma_filter_push(*subpath, lightest(paths@, end));
            assert(paths@.take(index as int).push(*subpath) =~= paths@.take(index + 1));
        }
        if !subpath.is_empty() && subpath.last().exit == end {
            assert(arrives(paths@[index as int]@, end));
            match least {
                None => {},
                Some(smallest) => {
                    if subpath.weight() == smallest {
                        assert(lightest(paths@, end)(*subpath));
                        shortest_paths.push(subpath.clone());
                        assert(shortest_paths@[chosen.len() as int].is_copy_of(subpath));
                    } else {
                        assert(!lightest(paths@, end)(*subpath)) by {
                            let j = choose|j: int|
                                0 <= j < paths@.len() && arrives((#[trigger] paths@[j])@, end)
                                    && paths@[j].weight_spec() == smallest;
                            assert(paths@[j].weight_spec() < subpath.weight_spec());
                        }
                    }
                },
            }
        }
        index += 1;
    }
    assert(paths@.take(index as int) =~= paths@);
    shortest_paths
}

} // verus!
