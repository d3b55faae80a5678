//! A walk through the graph: the edges taken, in order, with their summed
//! weight and their identifiers kept alongside.

use vstd::prelude::*;
use crate::edge::{unique_ids, Edge};

verus! {

/// The sum of the weights of `walk`.
pub open spec fn total_weight(walk: Seq<Edge>) -> nat
    decreases walk.len(),
{
    if walk.len() == 0 {
        0
    } else {
        total_weight(walk.drop_last()) + walk.last().weight as nat
    }
}

/// The identifiers of `walk`, in order.
pub open spec fn ids_of(walk: Seq<Edge>) -> Seq<u16> {
    Seq::new(walk.len(), |i: int| walk[i].id)
}

/// Some edge of `walk` carries `id`.
pub open spec fn has_id(walk: Seq<Edge>, id: u16) -> bool {
    exists|i: int| 0 <= i < walk.len() && (#[trigger] walk[i]).id == id
}

/// A walk of `n` edges weighs at most `n` times the largest edge weight.
pub proof fn lemma_total_weight_bound(walk: Seq<Edge>)
    ensures
        total_weight(walk) <= walk.len() * 0xffff_ffff_ffff_ffff,
    decreases walk.len(),
{
    if walk.len() > 0 {
        lemma_total_weight_bound(walk.drop_last());
        assert((walk.len() - 1) * 0xffff_ffff_ffff_ffff + 0xffff_ffff_ffff_ffff == walk.len()
            * 0xffff_ffff_ffff_ffff) by (nonlinear_arith);
    }
}

/// Appending an edge adds its weight.
pub proof fn lemma_total_weight_push(walk: Seq<Edge>, edge: Edge)
    ensures
        total_weight(walk.push(edge)) == total_weight(walk) + edge.weight,
{
    assert(walk.push(edge).drop_last() =~= walk);
}

/// An ordered sequence of edges, none taken twice, with the running sum of
/// their weights. The view of a path is the sequence of its edges.
#[derive(Debug)]
pub struct Path {
    edges: Vec<Edge>,
    weight: u128,
    edge_ids: Vec<u16>,
}

impl View for Path {
    type V = Seq<Edge>;

    closed spec fn view(&self) -> Seq<Edge> {
        self.edges@
    }
}

impl Path {
    /// The weight that the path reports.
    pub closed spec fn weight_spec(&self) -> nat {
        self.weight as nat
    }

    /// The identifiers that the path has recorded.
    pub closed spec fn ids(&self) -> Seq<u16> {
        self.edge_ids@
    }

    /// The derived fields agree with the edges, and no identifier repeats.
    pub open spec fn wf(&self) -> bool {
        &&& self.weight_spec() == total_weight(self@)
        &&& self.ids() == ids_of(self@)
        &&& unique_ids(self@)
    }

    /// The two paths hold the same edges and report the same weight and
    /// identifiers.
    pub open spec fn is_copy_of(&self, other: &Path) -> bool {
        &&& self@ == other@
        &&& self.weight_spec() == other.weight_spec()
        &&& self.ids() == other.ids()
    }

    /// The path without edges.
    pub fn new() -> (p: Path)
        ensures
            p@ == Seq::<Edge>::empty(),
            p.wf(),
    {
        let p = Path { edges: Vec::new(), weight: 0, edge_ids: Vec::new() };
        assert(p.edge_ids@ =~= ids_of(p.edges@));
        p
    }

    /// The number of edges.
    pub fn len(&self) -> (n: usize)
        ensures
            n == self@.len(),
    {
        self.edges.len()
    }

    /// Whether the path has no edge.
    pub fn is_empty(&self) -> (b: bool)
        ensures
            b <==> self@.len() == 0,
    {
        self.edges.len() == 0
    }

    /// The edges, in traversal order.
    pub fn edges(&self) -> (r: &Vec<Edge>)
        ensures
            r@ == self@,
    {
        &self.edges
    }

    /// The identifiers of the edges, in traversal order.
    pub fn edge_ids(&self) -> (r: &Vec<u16>)
        ensures
            r@ == self.ids(),
    {
        &self.edge_ids
    }

    /// The summed weight of the edges.
    pub fn weight(&self) -> (w: u128)
        ensures
            w == self.weight_spec(),
    {
        self.weight
    }

    /// The edge taken last; its exit is where the path stands.
    pub fn last(&self) -> (e: &Edge)
        requires
            self@.len() > 0,
        ensures
            *e == self@.last(),
    {
        &self.edges[self.edges.len() - 1]
    }

    /// Whether an edge with this identifier is already part of the path.
    pub fn contains_id(&self, id: u16) -> (b: bool)
        requires
            self.wf(),
        ensures
            b <==> has_id(self@, id),
    {
        let mut i: usize = 0;
        while i < self.edge_ids.len()
            invariant
                i <= self.edge_ids@.len(),
                self.edge_ids@ == ids_of(self.edges@),
                forall|k: int| 0 <= k < i ==> (#[trigger] self.edges@[k]).id != id,
            decreases self.edge_ids@.len() - i,
        {
            if self.edge_ids[i] == id {
                assert(self.edges@[i as int].id == id);
                return true;
            }
            i += 1;
        }
        false
    }

    /// Extends the path by `edge`, which it must not hold yet.
    pub fn append(&mut self, edge: Edge)
        requires
            old(self).wf(),
            !has_id(old(self)@, edge.id),
        ensures
            final(self)@ == old(self)@.push(edge),
            final(self).wf(),
    {
        let held: usize = self.edges.len();
        proof {
            lemma_total_weight_bound(self.edges@);
            lemma_total_weight_push(self.edges@, edge);
            assert(held <= usize::MAX <= 0xffff_ffff_ffff_ffff);
            assert(self.edges@.len() * 0xffff_ffff_ffff_ffff + 0xffff_ffff_ffff_ffff
                <= 0xffff_ffff_ffff_ffff * 0xffff_ffff_ffff_ffff + 0xffff_ffff_ffff_ffff)
                by (nonlinear_arith)
                requires
                    self.edges@.len() <= 0xffff_ffff_ffff_ffff,
            ;
        }
        self.edges.push(edge);
        self.weight += edge.weight as u128;
        self.edge_ids.push(edge.id);
        proof {
            assert(self.edge_ids@ =~= ids_of(self.edges@));
            assert forall|i: int, j: int| 0 <= i < j < self.edges@.len() implies self.edges@[i].id
                != self.edges@[j].id by {
                if j == self.edges@.len() - 1 {
                    assert(old(self)@[i].id != edge.id);
                } else {
                    assert(old(self)@[i].id != old(self)@[j].id);
                }
            }
        }
    }
}

impl Clone for Path {
    /// A copy with the same edges, weight and identifiers.
    fn clone(&self) -> (r: Self)
        ensures
            r.is_copy_of(self),
    {
        let mut edges: Vec<Edge> = Vec::new();
        let mut edge_ids: Vec<u16> = Vec::new();
        let mut i: usize = 0;
        while i < self.edges.len()
            invariant
                i <= self.edges@.len(),
                edges@ == self.edges@.take(i as int),
            decreases self.edges@.len() - i,
        {
            edges.push(self.edges[i]);
            assert(edges@ =~= self.edges@.take(i + 1));
            i += 1;
        }
        assert(edges@ =~= self.edges@);
        let mut k: usize = 0;
        while k < self.edge_ids.len()
            invariant
                k <= self.edge_ids@.len(),
                edge_ids@ == self.edge_ids@.take(k as int),
            decreases self.edge_ids@.len() - k,
        {
            edge_ids.push(self.edge_ids[k]);
            assert(edge_ids@ =~= self.edge_ids@.take(k + 1));
            k += 1;
        }
        assert(edge_ids@ =~= self.edge_ids@);
        Path { edges, weight: self.weight, edge_ids }
    }
}

} // verus!
