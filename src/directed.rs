use std::collections::BTreeMap;
use vstd::multiset::Multiset;
use vstd::laws_cmp::obeys_cmp;
use vstd::std_specs::btree::{increasing_seq, spec_keys_iter};
use vstd::std_specs::cmp::OrdSpec;
use vstd::std_specs::iter::IteratorSpec;
use vstd::prelude::*;

verus! {

broadcast use vstd::std_specs::btree::group_btree_axioms;

/// Multiplicity of `k` in a neighbour map: 0 when absent.
pub open spec fn mult_of(m: Map<u32, u32>, k: u32) -> nat {
    if m.contains_key(k) {
        m[k] as nat
    } else {
        0
    }
}

/// The parallel edges recorded in a neighbour map, as a multiset of neighbours.
pub open spec fn edge_multiset(m: Map<u32, u32>) -> Multiset<u32> {
    Multiset::from_map(m.map_values(|c: u32| c as nat))
}

/// Each neighbour occurs in the edge multiset as often as its stored count says.
pub proof fn lemma_edge_multiset_count(m: Map<u32, u32>)
    requires
        m.dom().finite(),
    ensures
        forall|k: u32| #[trigger] edge_multiset(m).count(k) == mult_of(m, k),
{
    broadcast use vstd::multiset::group_multiset_axioms;

    let mv = m.map_values(|c: u32| c as nat);
    assert(mv.dom() =~= m.dom());
    assert forall|k: u32| #[trigger] edge_multiset(m).count(k) == mult_of(m, k) by {
        if m.contains_key(k) {
            assert(mv.dom().contains(k));
        }
    }
}

/// Raising the count of `k` by one adds one `k` to the edge multiset.
pub proof fn lemma_edge_multiset_insert(m: Map<u32, u32>, k: u32, c: u32)
    requires
        m.dom().finite(),
        c == mult_of(m, k) + 1,
    ensures
        edge_multiset(m.insert(k, c)) == edge_multiset(m).insert(k),
{
    broadcast use vstd::multiset::group_multiset_axioms;

    lemma_edge_multiset_count(m);
    lemma_edge_multiset_count(m.insert(k, c));
    assert(edge_multiset(m.insert(k, c)) =~= edge_multiset(m).insert(k));
}

/// Lowering the count of `k` by one removes one `k` from the edge multiset.
pub proof fn lemma_edge_multiset_remove(m: Map<u32, u32>, k: u32)
    requires
        m.dom().finite(),
        no_zero_counts(m),
        m.contains_key(k),
    ensures
        m[k] == 1 ==> edge_multiset(m.remove(k)) == edge_multiset(m).remove(k),
        m[k] > 1 ==> edge_multiset(m.insert(k, (m[k] - 1) as u32)) == edge_multiset(m).remove(k),
{
    broadcast use vstd::multiset::group_multiset_axioms;

    lemma_edge_multiset_count(m);
    if m[k] == 1 {
        lemma_edge_multiset_count(m.remove(k));
        assert(edge_multiset(m.remove(k)) =~= edge_multiset(m).remove(k));
    } else {
        lemma_edge_multiset_count(m.insert(k, (m[k] - 1) as u32));
        assert(edge_multiset(m.insert(k, (m[k] - 1) as u32)) =~= edge_multiset(m).remove(k));
    }
}

/// How many search sizes the graph keeps: the largest ones.
pub const TOP_SEARCH_LIMIT: usize = 10;

/// A neighbour map is well formed when no key is stored with multiplicity zero.
pub open spec fn no_zero_counts(m: Map<u32, u32>) -> bool {
    forall|k: u32| m.contains_key(k) ==> m[k] > 0
}

/// A vertex of a directed multigraph: for each neighbour, how many parallel
/// edges lead in from it and out to it, and the totals of both.
#[derive(Debug, Clone)]
pub struct Vertex {
    pub vertex_id: u32,
    pub incoming: BTreeMap<u32, u32>,
    pub incoming_cnt: usize,
    pub outgoing: BTreeMap<u32, u32>,
    pub outgoing_cnt: usize,
}

impl Vertex {
    pub open spec fn wf(&self) -> bool {
        &&& no_zero_counts(self.incoming@)
        &&& no_zero_counts(self.outgoing@)
        &&& self.incoming_cnt == self.in_edges().len()
        &&& self.outgoing_cnt == self.out_edges().len()
    }

    /// The incoming edges as a multiset of source vertices.
    pub open spec fn in_edges(&self) -> Multiset<u32> {
        edge_multiset(self.incoming@)
    }

    /// The outgoing edges as a multiset of target vertices.
    pub open spec fn out_edges(&self) -> Multiset<u32> {
        edge_multiset(self.outgoing@)
    }

    pub fn new(id: &u32) -> (r: Vertex)
        ensures
            r.vertex_id == *id,
            r.incoming@ == Map::<u32, u32>::empty(),
            r.outgoing@ == Map::<u32, u32>::empty(),
            r.incoming_cnt == 0,
            r.outgoing_cnt == 0,
            r.wf(),
    {
        let incoming = BTreeMap::<u32, u32>::new();
        let outgoing = BTreeMap::<u32, u32>::new();
        proof {
            broadcast use vstd::multiset::group_multiset_axioms;
            lemma_edge_multiset_count(incoming@);
            lemma_edge_multiset_count(outgoing@);
            assert(edge_multiset(incoming@) =~= Multiset::empty());
            assert(edge_multiset(outgoing@) =~= Multiset::empty());
        }
        Vertex {
            vertex_id: *id,
            incoming,
            outgoing,
            incoming_cnt: 0,
            outgoing_cnt: 0,
        }
    }

    /// Records one more edge from this vertex to `vertex_id`.
    pub fn add_outgoing(&mut self, vertex_id: u32)
        requires
            old(self).wf(),
            mult_of(old(self).outgoing@, vertex_id) < u32::MAX,
            old(self).outgoing_cnt < usize::MAX,
        ensures
            final(self).wf(),
            final(self).out_edges() == old(self).out_edges().insert(vertex_id),
            final(self).outgoing_cnt == old(self).outgoing_cnt + 1,
            mult_of(final(self).outgoing@, vertex_id) == mult_of(old(self).outgoing@, vertex_id) + 1,
            final(self).outgoing@ == old(self).outgoing@.insert(
                vertex_id,
                (mult_of(old(self).outgoing@, vertex_id) + 1) as u32,
            ),
            final(self).incoming@ == old(self).incoming@,
            final(self).in_edges() == old(self).in_edges(),
            final(self).incoming_cnt == old(self).incoming_cnt,
            final(self).vertex_id == old(self).vertex_id,
    {
        proof {
            broadcast use vstd::multiset::group_multiset_axioms;
            lemma_edge_multiset_count(self.outgoing@);
            assert(self.out_edges().count(vertex_id) <= self.out_edges().len());
            lemma_edge_multiset_insert(
                self.outgoing@,
                vertex_id,
                (mult_of(self.outgoing@, vertex_id) + 1) as u32,
            );
        }
        let cur: u32 = match self.outgoing.get(&vertex_id) {
            Some(c) => *c,
            None => 0,
        };
        self.outgoing.insert(vertex_id, cur + 1);
        self.outgoing_cnt = self.outgoing_cnt + 1;
    }

    /// Removes one edge from this vertex to `vertex_id`; fails when there is none.
    pub fn del_outgoing(&mut self, vertex_id: u32) -> (r: Result<(), String>)
        requires
            old(self).wf(),
        ensures
            final(self).wf(),
            r is Ok <==> old(self).outgoing@.contains_key(vertex_id),
            r is Ok ==> final(self).out_edges() == old(self).out_edges().remove(vertex_id),
            r is Ok ==> final(self).outgoing_cnt == old(self).outgoing_cnt - 1,
            r is Ok ==> final(self).outgoing@ == (if old(self).outgoing@[vertex_id] == 1 {
                old(self).outgoing@.remove(vertex_id)
            } else {
                old(self).outgoing@.insert(vertex_id, (old(self).outgoing@[vertex_id] - 1) as u32)
            }),
            r is Err ==> *final(self) == *old(self),
            final(self).incoming@ == old(self).incoming@,
            final(self).in_edges() == old(self).in_edges(),
            final(self).incoming_cnt == old(self).incoming_cnt,
            final(self).vertex_id == old(self).vertex_id,
    {
        let cur: u32 = match self.outgoing.get(&vertex_id) {
            Some(c) => *c,
            None => 0,
        };
        if cur == 0 {
            return Err("Invalid Vertex".to_string());
        }
        proof {
            broadcast use vstd::multiset::group_multiset_axioms;
            lemma_edge_multiset_count(self.outgoing@);
            assert(self.out_edges().count(vertex_id) <= self.out_edges().len());
            lemma_edge_multiset_remove(self.outgoing@, vertex_id);
        }
        if cur == 1 {
            self.outgoing.remove(&vertex_id);
        } else {
            self.outgoing.insert(vertex_id, cur - 1);
        }
        self.outgoing_cnt = self.outgoing_cnt - 1;
        Ok(())
    }

    /// Records one more edge into this vertex from `vertex_id`.
    pub fn add_incoming(&mut self, vertex_id: u32)
        requires
            old(self).wf(),
            mult_of(old(self).incoming@, vertex_id) < u32::MAX,
            old(self).incoming_cnt < usize::MAX,
        ensures
            final(self).wf(),
            final(self).in_edges() == old(self).in_edges().insert(vertex_id),
            final(self).incoming_cnt == old(self).incoming_cnt + 1,
            mult_of(final(self).incoming@, vertex_id) == mult_of(old(self).incoming@, vertex_id) + 1,
            final(self).incoming@ == old(self).incoming@.insert(
                vertex_id,
                (mult_of(old(self).incoming@, vertex_id) + 1) as u32,
            ),
            final(self).outgoing@ == old(self).outgoing@,
            final(self).out_edges() == old(self).out_edges(),
            final(self).outgoing_cnt == old(self).outgoing_cnt,
            final(self).vertex_id == old(self).vertex_id,
    {
        proof {
            broadcast use vstd::multiset::group_multiset_axioms;
            lemma_edge_multiset_count(self.incoming@);
            assert(self.in_edges().count(vertex_id) <= self.in_edges().len());
            lemma_edge_multiset_insert(
                self.incoming@,
                vertex_id,
                (mult_of(self.incoming@, vertex_id) + 1) as u32,
            );
        }
        let cur: u32 = match self.incoming.get(&vertex_id) {
            Some(c) => *c,
            None => 0,
        };
        self.incoming.insert(vertex_id, cur + 1);
        self.incoming_cnt = self.incoming_cnt + 1;
    }

    /// Removes one edge into this vertex from `vertex_id`; fails when there is none.
    pub fn del_incoming(&mut self, vertex_id: u32) -> (r: Result<(), String>)
        requires
            old(self).wf(),
        ensures
            final(self).wf(),
            r is Ok <==> old(self).incoming@.contains_key(vertex_id),
            r is Ok ==> final(self).in_edges() == old(self).in_edges().remove(vertex_id),
            r is Ok ==> final(self).incoming_cnt == old(self).incoming_cnt - 1,
            r is Ok ==> final(self).incoming@ == (if old(self).incoming@[vertex_id] == 1 {
                old(self).incoming@.remove(vertex_id)
            } else {
                old(self).incoming@.insert(vertex_id, (old(self).incoming@[vertex_id] - 1) as u32)
            }),
            r is Err ==> *final(self) == *old(self),
            final(self).outgoing@ == old(self).outgoing@,
            final(self).out_edges() == old(self).out_edges(),
            final(self).outgoing_cnt == old(self).outgoing_cnt,
            final(self).vertex_id == old(self).vertex_id,
    {
        let cur: u32 = match self.incoming.get(&vertex_id) {
            Some(c) => *c,
            None => 0,
        };
        if cur == 0 {
            return Err("Invalid Vertex".to_string());
        }
        proof {
            broadcast use vstd::multiset::group_multiset_axioms;
            lemma_edge_multiset_count(self.incoming@);
            assert(self.in_edges().count(vertex_id) <= self.in_edges().len());
            lemma_edge_multiset_remove(self.incoming@, vertex_id);
        }
        if cur == 1 {
            self.incoming.remove(&vertex_id);
        } else {
            self.incoming.insert(vertex_id, cur - 1);
        }
        self.incoming_cnt = self.incoming_cnt - 1;
        Ok(())
    }
}

/// A directed multigraph: each vertex keeps, per neighbour, how many
/// parallel edges go out to it and come in from it.
#[derive(Debug, Clone)]
pub struct Graph {
    vertex_map: BTreeMap<u32, Vertex>,
    explored: BTreeMap<u32, bool>,
    /// The vertices in the order their depth-first searches finished.
    pub finished_order: Vec<u32>,
    /// For each vertex that started a search, the vertices that search reached.
    pub start_search: BTreeMap<u32, Vec<u32>>,
    top_search_cnts: BTreeMap<u32, usize>,
}

impl Graph {
    /// The vertex ids of the graph.
    pub closed spec fn vertices(&self) -> Set<u32> {
        self.vertex_map@.dom()
    }

    /// The vertex stored under `v`.
    pub closed spec fn vertex(&self, v: u32) -> Vertex {
        self.vertex_map@[v]
    }

    /// How many parallel edges lead from `a` to `b`, as `a` records them.
    pub closed spec fn mult(&self, a: u32, b: u32) -> nat {
        if self.vertex_map@.contains_key(a) {
            mult_of(self.vertex_map@[a].outgoing@, b)
        } else {
            0
        }
    }

    /// How many parallel edges lead from `a` to `b`, as `b` records them.
    pub closed spec fn in_mult(&self, a: u32, b: u32) -> nat {
        if self.vertex_map@.contains_key(b) {
            mult_of(self.vertex_map@[b].incoming@, a)
        } else {
            0
        }
    }

    /// Every vertex is well formed and stored under its own id, both
    /// endpoints of every edge exist, and each edge is recorded alike at both ends.
    pub closed spec fn wf(&self) -> bool {
        &&& forall|v: u32| #[trigger]
            self.vertex_map@.contains_key(v) ==> self.vertex_map@[v].wf()
                && self.vertex_map@[v].vertex_id == v
        &&& forall|a: u32, b: u32| #[trigger] self.mult(a, b) == self.in_mult(a, b)
        &&& forall|a: u32, b: u32| #[trigger]
            self.mult(a, b) > 0 ==> self.vertex_map@.contains_key(b)
    }

    pub fn new() -> (r: Graph)
        ensures
            r.wf(),
            r.vertices() == Set::<u32>::empty(),
            forall|a: u32, b: u32| #[trigger] r.mult(a, b) == 0,
            forall|v: u32| #[trigger] r.out_count(v) == 0,
            forall|v: u32| #[trigger] r.in_count(v) == 0,
            r.explored_set() == Set::<u32>::empty(),
            r.finished() == Seq::<u32>::empty(),
            r.searches() == Map::<u32, Vec<u32>>::empty(),
            r.top_searches() == Map::<u32, usize>::empty(),
    {
        let g = Graph {
            vertex_map: BTreeMap::<u32, Vertex>::new(),
            explored: BTreeMap::new(),
            finished_order: Vec::new(),
            start_search: BTreeMap::new(),
            top_search_cnts: BTreeMap::new(),
        };
        assert(g.vertices() =~= Set::<u32>::empty());
        assert(g.explored_set() =~= Set::<u32>::empty());
        g
    }

    /// Whether `self` and `other` hold the same search state: explored
    /// vertices, finishing order, search groups and kept search sizes.
    pub open spec fn same_search_state(&self, other: &Graph) -> bool {
        &&& self.explored_set() == other.explored_set()
        &&& self.finished() == other.finished()
        &&& self.searches() == other.searches()
        &&& self.top_searches() == other.top_searches()
    }

    /// The vertex set and the kept search sizes are finite.
    pub proof fn lemma_finite(g: Graph)
        ensures
            g.vertices().finite(),
            g.top_searches().dom().finite(),
            g.explored_set().finite(),
    {
    }

    /// The targets of the edges leaving `vertex`, each once, in increasing order.
    pub fn get_outgoing(&self, vertex: u32) -> (r: Vec<u32>)
        requires
            self.wf(),
            self.vertices().contains(vertex),
        ensures
            forall|b: u32| r@.contains(b) <==> self.mult(vertex, b) > 0,
            strictly_increasing(r@),
    {
        let v = self.vertex_map.get(&vertex).unwrap();
        let r = sorted_keys(&v.outgoing);
        proof {
            assert forall|b: u32| r@.contains(b) <==> self.mult(vertex, b) > 0 by {
                assert(r@.contains(b) <==> r@.to_set().contains(b));
            }
        }
        r
    }

    /// The sources of the edges entering `vertex`, each once, in increasing order.
    pub fn get_incoming(&self, vertex: u32) -> (r: Vec<u32>)
        requires
            self.wf(),
            self.vertices().contains(vertex),
        ensures
            forall|a: u32| r@.contains(a) <==> self.mult(a, vertex) > 0,
            strictly_increasing(r@),
    {
        let v = self.vertex_map.get(&vertex).unwrap();
        let r = sorted_keys(&v.incoming);
        proof {
            assert forall|a: u32| r@.contains(a) <==> self.mult(a, vertex) > 0 by {
                assert(r@.contains(a) <==> r@.to_set().contains(a));
                assert(self.mult(a, vertex) == self.in_mult(a, vertex));
            }
        }
        r
    }

    /// How many edges leave `v` in all (0 for an absent vertex).
    pub closed spec fn out_count(&self, v: u32) -> nat {
        if self.vertex_map@.contains_key(v) {
            self.vertex_map@[v].outgoing_cnt as nat
        } else {
            0
        }
    }

    /// How many edges enter `v` in all (0 for an absent vertex).
    pub closed spec fn in_count(&self, v: u32) -> nat {
        if self.vertex_map@.contains_key(v) {
            self.vertex_map@[v].incoming_cnt as nat
        } else {
            0
        }
    }

    /// How many parallel edges lead from `a` to `b`.
    pub fn multiplicity(&self, a: u32, b: u32) -> (n: u32)
        ensures
            n as nat == self.mult(a, b),
    {
        match self.vertex_map.get(&a) {
            Some(vert) => match vert.outgoing.get(&b) {
                Some(c) => *c,
                None => 0,
            },
            None => 0,
        }
    }

    /// How many edges leave `v` in all (0 for an absent vertex).
    pub fn out_degree(&self, v: u32) -> (n: usize)
        ensures
            n == self.out_count(v),
    {
        match self.vertex_map.get(&v) {
            Some(vert) => vert.outgoing_cnt,
            None => 0,
        }
    }

    /// How many edges enter `v` in all (0 for an absent vertex).
    pub fn in_degree(&self, v: u32) -> (n: usize)
        ensures
            n == self.in_count(v),
    {
        match self.vertex_map.get(&v) {
            Some(vert) => vert.incoming_cnt,
            None => 0,
        }
    }

    /// Adds a vertex with no edges unless it exists; returns the new number
    /// of vertices, or `None` when `id` was already there.
    pub fn create_vertex(&mut self, id: &u32) -> (r: Option<usize>)
        requires
            old(self).wf(),
        ensures
            final(self).wf(),
            final(self).vertices() == old(self).vertices().insert(*id),
            forall|a: u32, b: u32| #[trigger] final(self).mult(a, b) == old(self).mult(a, b),
            forall|v: u32| #[trigger] final(self).out_count(v) == old(self).out_count(v),
            forall|v: u32| #[trigger] final(self).in_count(v) == old(self).in_count(v),
            r == (if old(self).vertices().contains(*id) {
                None
            } else {
                Some(final(self).vertices().len() as usize)
            }),
            r matches Some(n) ==> n == old(self).vertices().len() + 1,
            final(self).vertices().finite(),
            final(self).same_search_state(old(self)),
    {
        if self.vertex_map.contains_key(id) {
            None
        } else {
            let v = Vertex::new(id);
            let ghost g0 = *self;
            self.vertex_map.insert(*id, v);
            proof {
                assert(self.vertices() =~= g0.vertices().insert(*id));
                assert forall|a: u32, b: u32| #[trigger] self.mult(a, b) == g0.mult(a, b) by {}
                assert forall|a: u32, b: u32| #[trigger] self.in_mult(a, b) == g0.in_mult(a, b) by {}
                assert forall|a: u32, b: u32| #[trigger] self.mult(a, b) == self.in_mult(a, b) by {
                    assert(g0.mult(a, b) == g0.in_mult(a, b));
                }
                assert forall|v: u32| #[trigger] self.out_count(v) == g0.out_count(v) by {}
                assert forall|v: u32| #[trigger] self.in_count(v) == g0.in_count(v) by {}
            }
            proof {
                vstd::set::axiom_set_insert_len(g0.vertices(), *id);
            }
            Some(self.vertex_map.len())
        }
    }

    /// Adds one edge from `v1` to `v2`, creating either vertex if absent;
    /// returns how many edges now leave `v1`.
    pub fn add_edge(&mut self, v1: u32, v2: u32) -> (r: Option<usize>)
        requires
            old(self).wf(),
            old(self).mult(v1, v2) < u32::MAX,
            old(self).out_count(v1) < usize::MAX,
            old(self).in_count(v2) < usize::MAX,
        ensures
            final(self).wf(),
            final(self).vertices() == old(self).vertices().insert(v1).insert(v2),
            forall|a: u32, b: u32| #[trigger]
                final(self).mult(a, b) == old(self).mult(a, b) + (if a == v1 && b == v2 {
                    1nat
                } else {
                    0nat
                }),
            final(self).out_count(v1) == old(self).out_count(v1) + 1,
            final(self).in_count(v2) == old(self).in_count(v2) + 1,
            forall|v: u32| v != v1 ==> #[trigger] final(self).out_count(v) == old(self).out_count(v),
            forall|v: u32| v != v2 ==> #[trigger] final(self).in_count(v) == old(self).in_count(v),
            final(self).same_search_state(old(self)),
            r == Some(final(self).out_count(v1) as usize),
    {
        self.create_vertex(&v1);
        self.create_vertex(&v2);
        let ghost g0 = *self;
        assert(self.out_count(v1) == self.vertex_map@[v1].outgoing_cnt);
        assert(self.in_count(v2) == self.vertex_map@[v2].incoming_cnt);
        assert(self.mult(v1, v2) == self.in_mult(v1, v2));
        let mut vert = self.vertex_map.remove(&v1).unwrap();
        vert.add_outgoing(v2);
        let new_cnt = vert.outgoing_cnt;
        self.vertex_map.insert(v1, vert);
        let ghost g1 = *self;
        proof {
            assert(self.vertices() =~= g0.vertices());
            assert forall|a: u32, b: u32| #[trigger]
                self.mult(a, b) == g0.mult(a, b) + (if a == v1 && b == v2 {
                    1nat
                } else {
                    0nat
                }) by {}
            assert forall|a: u32, b: u32| #[trigger] self.in_mult(a, b) == g0.in_mult(a, b) by {}
        }
        assert(self.vertex_map@[v2].incoming_cnt == g0.vertex_map@[v2].incoming_cnt);
        let mut vert2 = self.vertex_map.remove(&v2).unwrap();
        vert2.add_incoming(v1);
        self.vertex_map.insert(v2, vert2);
        proof {
            assert(self.vertices() =~= g0.vertices());
            assert forall|a: u32, b: u32| #[trigger] self.mult(a, b) == g1.mult(a, b) by {}
            assert forall|a: u32, b: u32| #[trigger]
                self.in_mult(a, b) == g0.in_mult(a, b) + (if a == v1 && b == v2 {
                    1nat
                } else {
                    0nat
                }) by {}
            assert forall|a: u32, b: u32| #[trigger] self.mult(a, b) == self.in_mult(a, b) by {
                assert(g0.mult(a, b) == g0.in_mult(a, b));
            }
            assert forall|a: u32, b: u32| #[trigger] self.mult(a, b) > 0 implies self.vertex_map@.contains_key(b) by {
                assert(g0.mult(a, b) > 0 ==> g0.vertex_map@.contains_key(b));
            }
            assert forall|v: u32| v != v1 implies #[trigger] self.out_count(v) == g0.out_count(v) by {}
            assert forall|v: u32| v != v2 implies #[trigger] self.in_count(v) == g0.in_count(v) by {}
            assert(self.explored_set() =~= g0.explored_set());
        }
        Some(new_cnt)
    }

    /// Removes one edge from `v1` to `v2`; fails, changing nothing, when there is none.
    pub fn delete_edge(&mut self, v1: u32, v2: u32) -> (r: Result<(), String>)
        requires
            old(self).wf(),
        ensures
            final(self).wf(),
            final(self).vertices() == old(self).vertices(),
            final(self).same_search_state(old(self)),
            r is Ok <==> old(self).mult(v1, v2) > 0,
            r is Err ==> final(self).vertex_view() == old(self).vertex_view(),
            r is Ok ==> final(self).out_count(v1) == old(self).out_count(v1) - 1,
            r is Ok ==> final(self).in_count(v2) == old(self).in_count(v2) - 1,
            forall|v: u32| v != v1 ==> #[trigger] final(self).out_count(v) == old(self).out_count(v),
            forall|v: u32| v != v2 ==> #[trigger] final(self).in_count(v) == old(self).in_count(v),
            r is Err ==> forall|v: u32| #[trigger] final(self).out_count(v) == old(self).out_count(v),
            r is Err ==> forall|v: u32| #[trigger] final(self).in_count(v) == old(self).in_count(v),
            forall|a: u32, b: u32| #[trigger]
                final(self).mult(a, b) == old(self).mult(a, b) - (if r is Ok && a == v1 && b == v2 {
                    1int
                } else {
                    0int
                }),
    {
        let ghost g0 = *self;
        if !self.vertex_map.contains_key(&v1) {
            return Err("Invalid Vertex".to_string());
        }
        let mut vert = self.vertex_map.remove(&v1).unwrap();
        let ghost vert0 = vert;
        let res = vert.del_outgoing(v2);
        self.vertex_map.insert(v1, vert);
        if res.is_err() {
            proof {
                assert(vert == vert0);
                assert(self.vertex_map@ =~= g0.vertex_map@);
                assert forall|a: u32, b: u32| #[trigger] self.mult(a, b) == g0.mult(a, b) by {}
                assert forall|a: u32, b: u32| #[trigger] self.in_mult(a, b) == g0.in_mult(a, b) by {}
                assert forall|v: u32| #[trigger] self.out_count(v) == g0.out_count(v) by {}
                assert forall|v: u32| #[trigger] self.in_count(v) == g0.in_count(v) by {}
            }
            return res;
        }
        let ghost g1 = *self;
        proof {
            assert(self.vertices() =~= g0.vertices());
            assert(g0.mult(v1, v2) > 0);
            assert(g0.in_mult(v1, v2) > 0);
            assert forall|a: u32, b: u32| #[trigger]
                self.mult(a, b) == g0.mult(a, b) - (if a == v1 && b == v2 {
                    1int
                } else {
                    0int
                }) by {}
            assert forall|a: u32, b: u32| #[trigger] self.in_mult(a, b) == g0.in_mult(a, b) by {}
        }
        let mut vert2 = self.vertex_map.remove(&v2).unwrap();
        let res2 = vert2.del_incoming(v1);
        self.vertex_map.insert(v2, vert2);
        proof {
            assert(res2 is Ok);
            assert(self.vertices() =~= g0.vertices());
            assert forall|a: u32, b: u32| #[trigger] self.mult(a, b) == g1.mult(a, b) by {}
            assert forall|a: u32, b: u32| #[trigger]
                self.in_mult(a, b) == g0.in_mult(a, b) - (if a == v1 && b == v2 {
                    1int
                } else {
                    0int
                }) by {}
            assert forall|a: u32, b: u32| #[trigger] self.mult(a, b) == self.in_mult(a, b) by {
                assert(g0.mult(a, b) == g0.in_mult(a, b));
            }
            assert forall|a: u32, b: u32| #[trigger] self.mult(a, b) > 0 implies self.vertex_map@.contains_key(b) by {
                assert(g0.mult(a, b) > 0 ==> g0.vertex_map@.contains_key(b));
            }
            assert forall|v: u32| v != v1 implies #[trigger] self.out_count(v) == g0.out_count(v) by {}
            assert forall|v: u32| v != v2 implies #[trigger] self.in_count(v) == g0.in_count(v) by {}
        }
        Ok(())
    }

    /// The vertices in the order their searches finished.
    pub closed spec fn finished(&self) -> Seq<u32> {
        self.finished_order@
    }

    /// The vertices reached, by starting vertex of the search.
    pub closed spec fn searches(&self) -> Map<u32, Vec<u32>> {
        self.start_search@
    }

    /// The vertices with their neighbour maps.
    pub closed spec fn vertex_view(&self) -> Map<u32, Vertex> {
        self.vertex_map@
    }

    /// The sizes kept of the largest searches, by starting vertex.
    pub closed spec fn top_searches(&self) -> Map<u32, usize> {
        self.top_search_cnts@
    }

    /// The vertices explored by the searches so far.
    pub closed spec fn explored_set(&self) -> Set<u32> {
        self.explored@.dom()
    }

    /// Records that the search from `vertex` has reached `count` vertices;
    /// when more than the kept number of searches are recorded, one with the
    /// smallest size is dropped.
    pub fn add_search_entry(&mut self, vertex: u32, count: usize)
        ensures
            ({
                let m = old(self).top_searches().insert(vertex, count);
                if m.len() > TOP_SEARCH_LIMIT {
                    exists|w: u32|
                        {
                            &&& #[trigger] m.contains_key(w)
                            &&& forall|z: u32| #[trigger] m.contains_key(z) ==> m[w] <= m[z]
                            &&& final(self).top_searches() == m.remove(w)
                        }
                } else {
                    final(self).top_searches() == m
                }
            }),
            final(self).vertex_view() == old(self).vertex_view(),
            final(self).explored_set() == old(self).explored_set(),
            final(self).finished() == old(self).finished(),
            final(self).searches() == old(self).searches(),
    {
        self.top_search_cnts.insert(vertex, count);
        if self.top_search_cnts.len() > TOP_SEARCH_LIMIT {
            let keys = sorted_keys(&self.top_search_cnts);
            let ghost m = self.top_search_cnts@;
            assert(keys@.len() > 0) by {
                if keys@.len() == 0 {
                    assert(keys@.to_set() =~= Set::<u32>::empty());
                }
            }
            assert(m.contains_key(keys@[0])) by {
                assert(keys@.contains(keys@[0]));
                assert(keys@.to_set().contains(keys@[0]));
            }
            let mut w = keys[0];
            let mut best = *self.top_search_cnts.get(&w).unwrap();
            let mut i: usize = 1;
            while i < keys.len()
                invariant
                    self.top_search_cnts@ == m,
                    keys@.to_set() == m.dom(),
                    1 <= i <= keys@.len(),
                    m.contains_key(w),
                    best == m[w],
                    forall|t: int| 0 <= t < i ==> best <= m[#[trigger] keys@[t]],
                decreases keys@.len() - i,
            {
                let k = keys[i];
                assert(m.contains_key(k)) by {
                    assert(keys@.to_set().contains(k));
                }
                let c = *self.top_search_cnts.get(&k).unwrap();
                if c < best {
                    best = c;
                    w = k;
                }
                i = i + 1;
            }
            proof {
                assert forall|z: u32| #[trigger] m.contains_key(z) implies m[w] <= m[z] by {
                    assert(keys@.to_set().contains(z));
                    let t = choose|t: int| 0 <= t < keys@.len() && keys@[t] == z;
                    assert(best <= m[keys@[t]]);
                }
            }
            self.top_search_cnts.remove(&w);
        }
    }

    /// Depth-first search along outgoing edges from the unexplored vertex
    /// `vertex_id`, as part of the search started at `start_vertex`. It
    /// explores exactly the vertices reachable from `vertex_id` through
    /// unexplored ones, appends them to the group of `start_vertex`, and
    /// appends each to the finishing order once all its
    /// successors are explored.
    pub fn dfs_outgoing(&mut self, vertex_id: u32, start_vertex: u32)
        requires
            old(self).wf(),
            old(self).vertices().contains(vertex_id),
            !old(self).explored_set().contains(vertex_id),
        ensures
            final(self).wf(),
            final(self).vertex_view() == old(self).vertex_view(),
            final(self).vertices() == old(self).vertices(),
            forall|a: u32, b: u32| #[trigger] final(self).mult(a, b) == old(self).mult(a, b),
            old(self).explored_set().insert(vertex_id).subset_of(final(self).explored_set()),
            final(self).explored_set().subset_of(old(self).explored_set().union(old(self).vertices())),
            final(self).finished().len() > old(self).finished().len(),
            final(self).finished().take(old(self).finished().len() as int) == old(self).finished(),
            final(self).finished().last() == vertex_id,
            final(self).finished().skip(old(self).finished().len() as int).no_duplicates(),
            final(self).searches().remove(start_vertex) == old(self).searches().remove(start_vertex),
            group_of(final(self).searches(), start_vertex).len() >= group_of(
                old(self).searches(),
                start_vertex,
            ).len(),
            group_of(final(self).searches(), start_vertex).take(
                group_of(old(self).searches(), start_vertex).len() as int,
            ) == group_of(old(self).searches(), start_vertex),
            forall|x: u32| #[trigger]
                group_of(final(self).searches(), start_vertex).skip(
                    group_of(old(self).searches(), start_vertex).len() as int,
                ).contains(x) <==> (final(self).explored_set().contains(x)
                    && !old(self).explored_set().contains(x)),
            forall|x: u32| #[trigger]
                final(self).finished().skip(old(self).finished().len() as int).contains(x) <==> (
                final(self).explored_set().contains(x) && !old(self).explored_set().contains(x)),
            forall|t: Set<u32>, x: u32|
                #[trigger] out_closed(*old(self), t, old(self).explored_set()) && t.contains(vertex_id)
                    && final(self).explored_set().contains(x) && !old(self).explored_set().contains(x)
                    ==> #[trigger] t.contains(x),
            forall|u: u32, b: u32|
                final(self).explored_set().contains(u) && !old(self).explored_set().contains(u)
                    && #[trigger] old(self).mult(u, b) > 0 ==> final(self).explored_set().contains(b),
        decreases old(self).vertices().difference(old(self).explored_set()).len(),
    {
        let ghost g0 = *self;
        self.explored.insert(vertex_id, true);
        let mut group = match self.start_search.remove(&start_vertex) {
            Some(l) => l,
            None => Vec::new(),
        };
        group.push(vertex_id);
        let cur_len = group.len();
        self.start_search.insert(start_vertex, group);
        self.add_search_entry(start_vertex, cur_len);
        proof {
            lemma_wf_frame(g0, *self);
            let g0g = group_of(g0.searches(), start_vertex);
            let gg = group_of(self.searches(), start_vertex);
            assert(gg =~= g0g.push(vertex_id));
            assert(gg.take(g0g.len() as int) =~= g0g);
            assert(gg.skip(g0g.len() as int) =~= seq![vertex_id]);
            assert(self.searches().remove(start_vertex) =~= g0.searches().remove(start_vertex));
            assert forall|x: u32| #[trigger] gg.skip(g0g.len() as int).contains(x) <==> (
                self.explored_set().contains(x) && !g0.explored_set().contains(x)) by {
                if x == vertex_id {
                    assert(gg.skip(g0g.len() as int)[0] == x);
                }
            }
        }
        let nbrs = self.get_outgoing(vertex_id);
        assert(self.finished_order@ == g0.finished_order@);
        let mut j: usize = 0;
        while j < nbrs.len()
            invariant
                g0 == *old(self),
                self.vertex_map@ == g0.vertex_map@,
                g0.wf(),
                g0.vertices().contains(vertex_id),
                !g0.explored_set().contains(vertex_id),
                forall|b: u32| nbrs@.contains(b) <==> g0.mult(vertex_id, b) > 0,
                j <= nbrs@.len(),
                g0.explored_set().insert(vertex_id).subset_of(self.explored_set()),
                self.explored_set().subset_of(g0.explored_set().union(g0.vertices())),
                forall|t: int| 0 <= t < j ==> self.explored_set().contains(#[trigger] nbrs@[t]),
                self.finished_order@.take(g0.finished_order@.len() as int) == g0.finished_order@,
                self.finished_order@.len() >= g0.finished_order@.len(),
                self.finished_order@.skip(g0.finished_order@.len() as int).no_duplicates(),
                self.searches().remove(start_vertex) == g0.searches().remove(start_vertex),
                group_of(self.searches(), start_vertex).len() >= group_of(g0.searches(), start_vertex).len(),
                group_of(self.searches(), start_vertex).take(
                    group_of(g0.searches(), start_vertex).len() as int,
                ) == group_of(g0.searches(), start_vertex),
                forall|x: u32| #[trigger]
                    group_of(self.searches(), start_vertex).skip(
                        group_of(g0.searches(), start_vertex).len() as int,
                    ).contains(x) <==> (self.explored_set().contains(x) && !g0.explored_set().contains(x)),
                forall|x: u32| #[trigger]
                    self.finished_order@.skip(g0.finished_order@.len() as int).contains(x) <==> (
                    self.explored_set().contains(x) && !g0.explored_set().contains(x) && x != vertex_id),
                forall|u: u32, b: u32|
                    self.explored_set().contains(u) && !g0.explored_set().contains(u) && u != vertex_id
                        && #[trigger] g0.mult(u, b) > 0 ==> self.explored_set().contains(b),
                forall|t: Set<u32>, x: u32|
                    #[trigger] out_closed(g0, t, g0.explored_set()) && t.contains(vertex_id)
                        && self.explored_set().contains(x) && !g0.explored_set().contains(x)
                        ==> #[trigger] t.contains(x),
            decreases nbrs@.len() - j,
        {
            let nb = nbrs[j];
            if !self.explored.contains_key(&nb) {
                let ghost before = *self;
                proof {
                    assert(nbrs@.contains(nb));
                    assert(g0.mult(vertex_id, nb) > 0);
                    lemma_unexplored_shrinks(
                        g0.vertices(),
                        g0.explored_set(),
                        self.explored_set(),
                        vertex_id,
                    );
                    lemma_wf_frame(g0, *self);
                }
                self.dfs_outgoing(nb, start_vertex);
                proof {
                    let fb = before.finished_order@;
                    let fa = self.finished_order@;
                    let n0 = g0.finished_order@.len() as int;
                    let nb_len = fb.len() as int;
                    assert(fa.take(nb_len) == fb);
                    assert(fa.take(n0) =~= fb.take(n0));
                    assert(fa.skip(n0) =~= fb.skip(n0) + fa.skip(nb_len));
                    assert forall|x: u32| fb.skip(n0).contains(x) implies !fa.skip(nb_len).contains(x) by {
                        assert(before.explored_set().contains(x));
                        if fa.skip(nb_len).contains(x) {
                            assert(self.finished().skip(before.finished().len() as int).contains(x));
                        }
                    }
                    lemma_concat_no_duplicates(fb.skip(n0), fa.skip(nb_len));
                    assert forall|t: Set<u32>, x: u32|
                        #[trigger] out_closed(g0, t, g0.explored_set()) && t.contains(vertex_id)
                            && self.explored_set().contains(x) && !g0.explored_set().contains(x)
                            implies #[trigger] t.contains(x) by {
                        if !before.explored_set().contains(x) {
                            assert(t.contains(nb));
                            assert(out_closed(before, t, before.explored_set())) by {
                                assert forall|u: u32, b: u32|
                                    t.contains(u) && !before.explored_set().contains(u) && #[trigger] before.mult(u, b) > 0
                                    implies t.contains(b) || before.explored_set().contains(b) by {
                                    assert(g0.mult(u, b) > 0);
                                }
                            }
                        }
                    }
                    let gb = group_of(before.searches(), start_vertex);
                    let ga = group_of(self.searches(), start_vertex);
                    let g0g = group_of(g0.searches(), start_vertex);
                    lemma_extend_segment(
                        ga,
                        gb,
                        g0g.len() as int,
                        g0.explored_set(),
                        before.explored_set(),
                        self.explored_set(),
                    );
                    assert(ga.take(g0g.len() as int) =~= gb.take(g0g.len() as int));
                    assert(self.searches().remove(start_vertex) =~= g0.searches().remove(start_vertex));
                    assert forall|x: u32| #[trigger] fa.skip(n0).contains(x) <==> (
                        self.explored_set().contains(x) && !g0.explored_set().contains(x) && x != vertex_id) by {
                        if fa.skip(n0).contains(x) {
                            let t = choose|t: int| 0 <= t < fa.skip(n0).len() && fa.skip(n0)[t] == x;
                            if t < nb_len - n0 {
                                assert(fb.skip(n0)[t] == x);
                                assert(fb.skip(n0).contains(x));
                            } else {
                                assert(fa.skip(nb_len)[t - (nb_len - n0)] == x);
                                assert(self.finished().skip(before.finished().len() as int).contains(x));
                            }
                        }
                        if before.explored_set().contains(x) && !g0.explored_set().contains(x) && x != vertex_id {
                            assert(fb.skip(n0).contains(x));
                            let t = choose|t: int| 0 <= t < fb.skip(n0).len() && fb.skip(n0)[t] == x;
                            assert(fa.skip(n0)[t] == x);
                        } else if self.explored_set().contains(x) && !before.explored_set().contains(x) {
                            assert(self.finished().skip(before.finished().len() as int).contains(x));
                            let t = choose|t: int| 0 <= t < fa.skip(nb_len).len() && fa.skip(nb_len)[t] == x;
                            assert(fa.skip(n0)[t + (nb_len - n0)] == x);
                        }
                    }
                    assert forall|u: u32, b: u32|
                        self.explored_set().contains(u) && !g0.explored_set().contains(u) && u != vertex_id
                            && #[trigger] g0.mult(u, b) > 0 implies self.explored_set().contains(b) by {
                        assert(before.mult(u, b) == g0.mult(u, b));
                        if before.explored_set().contains(u) {
                            assert(before.explored_set().contains(b));
                        }
                    }
                }
            }
            j = j + 1;
        }
        let ghost f1 = self.finished_order@;
        self.finished_order.push(vertex_id);
        proof {
            lemma_wf_frame(g0, *self);
            let n0 = g0.finished_order@.len() as int;
            assert(self.finished_order@.skip(n0) =~= f1.skip(n0).push(vertex_id));
            assert(!f1.skip(n0).contains(vertex_id));
            assert(f1.skip(n0).push(vertex_id) =~= f1.skip(n0) + seq![vertex_id]);
            lemma_concat_no_duplicates(f1.skip(n0), seq![vertex_id]);
            assert(self.finished_order@.take(n0) =~= f1.take(n0));
            assert forall|x: u32| #[trigger] self.finished().skip(n0).contains(x) <==> (
                self.explored_set().contains(x) && !g0.explored_set().contains(x)) by {
                if f1.skip(n0).contains(x) {
                    let t = choose|t: int| 0 <= t < f1.skip(n0).len() && f1.skip(n0)[t] == x;
                    assert(self.finished_order@.skip(n0)[t] == x);
                }
                if x == vertex_id {
                    assert(self.finished_order@.skip(n0)[f1.skip(n0).len() as int] == x);
                }
                if self.finished_order@.skip(n0).contains(x) && x != vertex_id {
                    let t = choose|t: int| 0 <= t < self.finished_order@.skip(n0).len() && self.finished_order@.skip(n0)[t] == x;
                    assert(f1.skip(n0)[t] == x);
                }
            }
            assert forall|u: u32, b: u32|
                self.explored_set().contains(u) && !g0.explored_set().contains(u)
                    && #[trigger] g0.mult(u, b) > 0 implies self.explored_set().contains(b) by {
                if u == vertex_id {
                    assert(nbrs@.contains(b));
                    let t = choose|t: int| 0 <= t < nbrs@.len() && nbrs@[t] == b;
                }
            }
        }
    }

    /// Depth-first search along incoming edges from the unexplored vertex
    /// `vertex_id`, as part of the search started at `start_vertex`. It
    /// explores exactly the vertices reachable from `vertex_id` through
    /// unexplored ones, appends them to the group of `start_vertex`, and
    /// appends each to the finishing order once all its
    /// predecessors are explored.
    pub fn dfs_incoming(&mut self, vertex_id: u32, start_vertex: u32)
        requires
            old(self).wf(),
            old(self).vertices().contains(vertex_id),
            !old(self).explored_set().contains(vertex_id),
        ensures
            final(self).wf(),
            final(self).vertex_view() == old(self).vertex_view(),
            final(self).vertices() == old(self).vertices(),
            forall|a: u32, b: u32| #[trigger] final(self).mult(a, b) == old(self).mult(a, b),
            old(self).explored_set().insert(vertex_id).subset_of(final(self).explored_set()),
            final(self).explored_set().subset_of(old(self).explored_set().union(old(self).vertices())),
            final(self).finished().len() > old(self).finished().len(),
            final(self).finished().take(old(self).finished().len() as int) == old(self).finished(),
            final(self).finished().last() == vertex_id,
            final(self).finished().skip(old(self).finished().len() as int).no_duplicates(),
            final(self).searches().remove(start_vertex) == old(self).searches().remove(start_vertex),
            group_of(final(self).searches(), start_vertex).len() >= group_of(
                old(self).searches(),
                start_vertex,
            ).len(),
            group_of(final(self).searches(), start_vertex).take(
                group_of(old(self).searches(), start_vertex).len() as int,
            ) == group_of(old(self).searches(), start_vertex),
            forall|x: u32| #[trigger]
                group_of(final(self).searches(), start_vertex).skip(
                    group_of(old(self).searches(), start_vertex).len() as int,
                ).contains(x) <==> (final(self).explored_set().contains(x)
                    && !old(self).explored_set().contains(x)),
            forall|x: u32| #[trigger]
                final(self).finished().skip(old(self).finished().len() as int).contains(x) <==> (
                final(self).explored_set().contains(x) && !old(self).explored_set().contains(x)),
            forall|t: Set<u32>, x: u32|
                #[trigger] in_closed(*old(self), t, old(self).explored_set()) && t.contains(vertex_id)
                    && final(self).explored_set().contains(x) && !old(self).explored_set().contains(x)
                    ==> #[trigger] t.contains(x),
            forall|u: u32, b: u32|
                final(self).explored_set().contains(u) && !old(self).explored_set().contains(u)
                    && #[trigger] old(self).mult(b, u) > 0 ==> final(self).explored_set().contains(b),
        decreases old(self).vertices().difference(old(self).explored_set()).len(),
    {
        let ghost g0 = *self;
        self.explored.insert(vertex_id, true);
        let mut group = match self.start_search.remove(&start_vertex) {
            Some(l) => l,
            None => Vec::new(),
        };
        group.push(vertex_id);
        let cur_len = group.len();
        self.start_search.insert(start_vertex, group);
        self.add_search_entry(start_vertex, cur_len);
        proof {
            lemma_wf_frame(g0, *self);
            let g0g = group_of(g0.searches(), start_vertex);
            let gg = group_of(self.searches(), start_vertex);
            assert(gg =~= g0g.push(vertex_id));
            assert(gg.take(g0g.len() as int) =~= g0g);
            assert(gg.skip(g0g.len() as int) =~= seq![vertex_id]);
            assert(self.searches().remove(start_vertex) =~= g0.searches().remove(start_vertex));
            assert forall|x: u32| #[trigger] gg.skip(g0g.len() as int).contains(x) <==> (
                self.explored_set().contains(x) && !g0.explored_set().contains(x)) by {
                if x == vertex_id {
                    assert(gg.skip(g0g.len() as int)[0] == x);
                }
            }
        }
        let nbrs = self.get_incoming(vertex_id);
        assert(self.finished_order@ == g0.finished_order@);
        let mut j: usize = 0;
        while j < nbrs.len()
            invariant
                g0 == *old(self),
                self.vertex_map@ == g0.vertex_map@,
                g0.wf(),
                g0.vertices().contains(vertex_id),
                !g0.explored_set().contains(vertex_id),
                forall|b: u32| nbrs@.contains(b) <==> g0.mult(b, vertex_id) > 0,
                j <= nbrs@.len(),
                g0.explored_set().insert(vertex_id).subset_of(self.explored_set()),
                self.explored_set().subset_of(g0.explored_set().union(g0.vertices())),
                forall|t: int| 0 <= t < j ==> self.explored_set().contains(#[trigger] nbrs@[t]),
                self.finished_order@.take(g0.finished_order@.len() as int) == g0.finished_order@,
                self.finished_order@.len() >= g0.finished_order@.len(),
                self.finished_order@.skip(g0.finished_order@.len() as int).no_duplicates(),
                self.searches().remove(start_vertex) == g0.searches().remove(start_vertex),
                group_of(self.searches(), start_vertex).len() >= group_of(g0.searches(), start_vertex).len(),
                group_of(self.searches(), start_vertex).take(
                    group_of(g0.searches(), start_vertex).len() as int,
                ) == group_of(g0.searches(), start_vertex),
                forall|x: u32| #[trigger]
                    group_of(self.searches(), start_vertex).skip(
                        group_of(g0.searches(), start_vertex).len() as int,
                    ).contains(x) <==> (self.explored_set().contains(x) && !g0.explored_set().contains(x)),
                forall|x: u32| #[trigger]
                    self.finished_order@.skip(g0.finished_order@.len() as int).contains(x) <==> (
                    self.explored_set().contains(x) && !g0.explored_set().contains(x) && x != vertex_id),
                forall|u: u32, b: u32|
                    self.explored_set().contains(u) && !g0.explored_set().contains(u) && u != vertex_id
                        && #[trigger] g0.mult(b, u) > 0 ==> self.explored_set().contains(b),
                forall|t: Set<u32>, x: u32|
                    #[trigger] in_closed(g0, t, g0.explored_set()) && t.contains(vertex_id)
                        && self.explored_set().contains(x) && !g0.explored_set().contains(x)
                        ==> #[trigger] t.contains(x),
            decreases nbrs@.len() - j,
        {
            let nb = nbrs[j];
            if !self.explored.contains_key(&nb) {
                let ghost before = *self;
                proof {
                    assert(nbrs@.contains(nb));
                    assert(g0.mult(nb, vertex_id) > 0);
                    lemma_unexplored_shrinks(
                        g0.vertices(),
                        g0.explored_set(),
                        self.explored_set(),
                        vertex_id,
                    );
                    lemma_wf_frame(g0, *self);
                }
                self.dfs_incoming(nb, start_vertex);
                proof {
                    let fb = before.finished_order@;
                    let fa = self.finished_order@;
                    let n0 = g0.finished_order@.len() as int;
                    let nb_len = fb.len() as int;
                    assert(fa.take(nb_len) == fb);
                    assert(fa.take(n0) =~= fb.take(n0));
                    assert(fa.skip(n0) =~= fb.skip(n0) + fa.skip(nb_len));
                    assert forall|x: u32| fb.skip(n0).contains(x) implies !fa.skip(nb_len).contains(x) by {
                        assert(before.explored_set().contains(x));
                        if fa.skip(nb_len).contains(x) {
                            assert(self.finished().skip(before.finished().len() as int).contains(x));
                        }
                    }
                    lemma_concat_no_duplicates(fb.skip(n0), fa.skip(nb_len));
                    assert forall|t: Set<u32>, x: u32|
                        #[trigger] in_closed(g0, t, g0.explored_set()) && t.contains(vertex_id)
                            && self.explored_set().contains(x) && !g0.explored_set().contains(x)
                            implies #[trigger] t.contains(x) by {
                        if !before.explored_set().contains(x) {
                            assert(t.contains(nb));
                            assert(in_closed(before, t, before.explored_set())) by {
                                assert forall|u: u32, b: u32|
                                    t.contains(u) && !before.explored_set().contains(u) && #[trigger] before.mult(b, u) > 0
                                    implies t.contains(b) || before.explored_set().contains(b) by {
                                    assert(g0.mult(b, u) > 0);
                                }
                            }
                        }
                    }
                    let gb = group_of(before.searches(), start_vertex);
                    let ga = group_of(self.searches(), start_vertex);
                    let g0g = group_of(g0.searches(), start_vertex);
                    lemma_extend_segment(
                        ga,
                        gb,
                        g0g.len() as int,
                        g0.explored_set(),
                        before.explored_set(),
                        self.explored_set(),
                    );
                    assert(ga.take(g0g.len() as int) =~= gb.take(g0g.len() as int));
                    assert(self.searches().remove(start_vertex) =~= g0.searches().remove(start_vertex));
                    assert forall|x: u32| #[trigger] fa.skip(n0).contains(x) <==> (
                        self.explored_set().contains(x) && !g0.explored_set().contains(x) && x != vertex_id) by {
                        if fa.skip(n0).contains(x) {
                            let t = choose|t: int| 0 <= t < fa.skip(n0).len() && fa.skip(n0)[t] == x;
                            if t < nb_len - n0 {
                                assert(fb.skip(n0)[t] == x);
                                assert(fb.skip(n0).contains(x));
                            } else {
                                assert(fa.skip(nb_len)[t - (nb_len - n0)] == x);
                                assert(self.finished().skip(before.finished().len() as int).contains(x));
                            }
                        }
                        if before.explored_set().contains(x) && !g0.explored_set().contains(x) && x != vertex_id {
                            assert(fb.skip(n0).contains(x));
                            let t = choose|t: int| 0 <= t < fb.skip(n0).len() && fb.skip(n0)[t] == x;
                            assert(fa.skip(n0)[t] == x);
                        } else if self.explored_set().contains(x) && !before.explored_set().contains(x) {
                            assert(self.finished().skip(before.finished().len() as int).contains(x));
                            let t = choose|t: int| 0 <= t < fa.skip(nb_len).len() && fa.skip(nb_len)[t] == x;
                            assert(fa.skip(n0)[t + (nb_len - n0)] == x);
                        }
                    }
                    assert forall|u: u32, b: u32|
                        self.explored_set().contains(u) && !g0.explored_set().contains(u) && u != vertex_id
                            && #[trigger] g0.mult(b, u) > 0 implies self.explored_set().contains(b) by {
                        assert(before.mult(b, u) == g0.mult(b, u));
                        if before.explored_set().contains(u) {
                            assert(before.explored_set().contains(b));
                        }
                    }
                }
            }
            j = j + 1;
        }
        let ghost f1 = self.finished_order@;
        self.finished_order.push(vertex_id);
        proof {
            lemma_wf_frame(g0, *self);
            let n0 = g0.finished_order@.len() as int;
            assert(self.finished_order@.skip(n0) =~= f1.skip(n0).push(vertex_id));
            assert(!f1.skip(n0).contains(vertex_id));
            assert(f1.skip(n0).push(vertex_id) =~= f1.skip(n0) + seq![vertex_id]);
            lemma_concat_no_duplicates(f1.skip(n0), seq![vertex_id]);
            assert(self.finished_order@.take(n0) =~= f1.take(n0));
            assert forall|x: u32| #[trigger] self.finished().skip(n0).contains(x) <==> (
                self.explored_set().contains(x) && !g0.explored_set().contains(x)) by {
                if f1.skip(n0).contains(x) {
                    let t = choose|t: int| 0 <= t < f1.skip(n0).len() && f1.skip(n0)[t] == x;
                    assert(self.finished_order@.skip(n0)[t] == x);
                }
                if x == vertex_id {
                    assert(self.finished_order@.skip(n0)[f1.skip(n0).len() as int] == x);
                }
                if self.finished_order@.skip(n0).contains(x) && x != vertex_id {
                    let t = choose|t: int| 0 <= t < self.finished_order@.skip(n0).len() && self.finished_order@.skip(n0)[t] == x;
                    assert(f1.skip(n0)[t] == x);
                }
            }
            assert forall|u: u32, b: u32|
                self.explored_set().contains(u) && !g0.explored_set().contains(u)
                    && #[trigger] g0.mult(b, u) > 0 implies self.explored_set().contains(b) by {
                if u == vertex_id {
                    assert(nbrs@.contains(b));
                    let t = choose|t: int| 0 <= t < nbrs@.len() && nbrs@[t] == b;
                }
            }
        }
    }

    /// Clears the search state, then runs a depth-first search along
    /// outgoing edges from each vertex of `list`, in order, that no earlier
    /// search has reached. Afterwards the explored vertices are exactly those
    /// reachable from `list` along outgoing edges: they include `list`, no
    /// outgoing edge leaves them, and they lie in every set with those two
    /// properties. Each is finished once, and each lies in exactly one
    /// search group, that of the search which reached it.
    pub fn dfs_loop_outgoing(&mut self, list: &Vec<u32>)
        requires
            old(self).wf(),
            forall|i: int| 0 <= i < list@.len() ==> old(self).vertices().contains(#[trigger] list@[i]),
        ensures
            final(self).wf(),
            final(self).vertex_view() == old(self).vertex_view(),
            final(self).vertices() == old(self).vertices(),
            forall|a: u32, b: u32| #[trigger] final(self).mult(a, b) == old(self).mult(a, b),
            forall|i: int| 0 <= i < list@.len() ==> final(self).explored_set().contains(#[trigger] list@[i]),
            final(self).explored_set().subset_of(final(self).vertices()),
            forall|x: u32| #[trigger] final(self).finished().contains(x) <==> final(self).explored_set().contains(x),
            final(self).finished().no_duplicates(),
            forall|t: Set<u32>, x: u32|
                #[trigger] out_closed(*old(self), t, Set::<u32>::empty()) && (forall|i: int|
                    0 <= i < list@.len() ==> t.contains(#[trigger] list@[i]))
                    && final(self).explored_set().contains(x) ==> #[trigger] t.contains(x),
            forall|v: u32| #[trigger] final(self).searches().contains_key(v) ==> final(self).explored_set().contains(v)
                    && group_of(final(self).searches(), v).contains(v),
            forall|v: u32, x: u32| #[trigger] group_of(final(self).searches(), v).contains(x) ==> final(self).explored_set().contains(x),
            forall|x: u32| #[trigger] final(self).explored_set().contains(x) ==> exists|v: u32| #[trigger] group_of(final(self).searches(), v).contains(x),
            forall|v: u32, w: u32, x: u32| v != w && #[trigger] group_of(final(self).searches(), v).contains(x) ==> !#[trigger] group_of(final(self).searches(), w).contains(x),
            forall|u: u32, b: u32|
                final(self).explored_set().contains(u) && #[trigger] final(self).mult(u, b) > 0
                    ==> final(self).explored_set().contains(b),
    {
        let ghost g0 = *self;
        self.finished_order = Vec::new();
        self.start_search = BTreeMap::new();
        self.explored = BTreeMap::new();
        self.top_search_cnts = BTreeMap::new();
        proof {
            lemma_wf_frame(g0, *self);
            assert(self.explored_set() =~= Set::<u32>::empty());
            assert(self.searches() =~= Map::<u32, Vec<u32>>::empty());
        }
        let mut i: usize = 0;
        while i < list.len()
            invariant
                g0.wf(),
                forall|t: int| 0 <= t < list@.len() ==> g0.vertices().contains(#[trigger] list@[t]),
                self.vertex_map@ == g0.vertex_map@,
                i <= list@.len(),
                forall|t: int| 0 <= t < i ==> self.explored_set().contains(#[trigger] list@[t]),
                self.explored_set().subset_of(g0.vertices()),
                forall|x: u32| #[trigger] self.finished_order@.contains(x) <==> self.explored_set().contains(x),
                self.finished_order@.no_duplicates(),
                g0 == *old(self),
                forall|t: Set<u32>, x: u32|
                    #[trigger] out_closed(g0, t, Set::<u32>::empty()) && (forall|i: int|
                        0 <= i < list@.len() ==> t.contains(#[trigger] list@[i]))
                        && self.explored_set().contains(x) ==> #[trigger] t.contains(x),
                forall|v: u32| #[trigger] self.searches().contains_key(v) ==> self.explored_set().contains(v)
                        && group_of(self.searches(), v).contains(v),
                forall|v: u32, x: u32| #[trigger] group_of(self.searches(), v).contains(x) ==> self.explored_set().contains(x),
                forall|x: u32| #[trigger] self.explored_set().contains(x) ==> exists|v: u32| #[trigger] group_of(self.searches(), v).contains(x),
                forall|v: u32, w: u32, x: u32| v != w && #[trigger] group_of(self.searches(), v).contains(x) ==> !#[trigger] group_of(self.searches(), w).contains(x),
                forall|u: u32, b: u32|
                    self.explored_set().contains(u) && #[trigger] g0.mult(u, b) > 0
                        ==> self.explored_set().contains(b),
            decreases list@.len() - i,
        {
            let v = list[i];
            if !self.explored.contains_key(&v) {
                let ghost before = *self;
                proof {
                    lemma_wf_frame(g0, *self);
                }
                self.dfs_outgoing(v, v);
                proof {
                    let fb = before.finished_order@;
                    let fa = self.finished_order@;
                    let n = fb.len() as int;
                    assert(fa =~= fa.take(n) + fa.skip(n));
                    assert(fa.take(n) == fb);
                    assert forall|x: u32| fb.contains(x) implies !fa.skip(n).contains(x) by {
                        if fa.skip(n).contains(x) {
                            assert(self.finished().skip(before.finished().len() as int).contains(x));
                        }
                    }
                    lemma_concat_no_duplicates(fb, fa.skip(n));
                    assert forall|t: Set<u32>, x: u32|
                        #[trigger] out_closed(g0, t, Set::<u32>::empty()) && (forall|i: int|
                            0 <= i < list@.len() ==> t.contains(#[trigger] list@[i]))
                            && self.explored_set().contains(x) implies #[trigger] t.contains(x) by {
                        if !before.explored_set().contains(x) {
                            assert(t.contains(list@[i as int]));
                            assert(out_closed(before, t, before.explored_set())) by {
                                assert forall|u: u32, b: u32|
                                    t.contains(u) && !before.explored_set().contains(u) && #[trigger] before.mult(u, b) > 0
                                    implies t.contains(b) || before.explored_set().contains(b) by {
                                    assert(g0.mult(u, b) > 0);
                                }
                            }
                        }
                    }
                    assert forall|x: u32| #[trigger] fa.contains(x) <==> self.explored_set().contains(x) by {
                        if fa.contains(x) {
                            let t = choose|t: int| 0 <= t < fa.len() && fa[t] == x;
                            if t < n {
                                assert(fb[t] == x);
                                assert(fb.contains(x));
                            } else {
                                assert(fa.skip(n)[t - n] == x);
                                assert(self.finished().skip(before.finished().len() as int).contains(x));
                            }
                        }
                        if before.explored_set().contains(x) {
                            assert(fb.contains(x));
                            let t = choose|t: int| 0 <= t < fb.len() && fb[t] == x;
                            assert(fa[t] == x);
                        } else if self.explored_set().contains(x) {
                            assert(self.finished().skip(before.finished().len() as int).contains(x));
                            let t = choose|t: int| 0 <= t < fa.skip(n).len() && fa.skip(n)[t] == x;
                            assert(fa[t + n] == x);
                        }
                    }
                    assert forall|u: u32, b: u32|
                        self.explored_set().contains(u) && #[trigger] g0.mult(u, b) > 0
                            implies self.explored_set().contains(b) by {
                        assert(before.mult(u, b) == g0.mult(u, b));
                        if before.explored_set().contains(u) {
                            assert(before.explored_set().contains(b));
                        }
                    }
                    assert(self.explored_set().subset_of(g0.vertices()));
                    let gv = group_of(self.searches(), v);
                    assert(!before.searches().contains_key(v));
                    assert(group_of(before.searches(), v) =~= Seq::<u32>::empty());
                    assert(gv.skip(0) =~= gv);
                    assert(gv.contains(v));
                    assert forall|w: u32| w != v implies #[trigger] group_of(self.searches(), w) == group_of(
                        before.searches(),
                        w,
                    ) by {
                        assert(self.searches().remove(v).contains_key(w) == self.searches().contains_key(w));
                        assert(before.searches().remove(v).contains_key(w) == before.searches().contains_key(w));
                        if self.searches().contains_key(w) {
                            assert(self.searches().remove(v)[w] == self.searches()[w]);
                            assert(before.searches().remove(v)[w] == before.searches()[w]);
                        }
                    }
                    assert forall|w: u32| #[trigger] self.searches().contains_key(w) implies self.explored_set().contains(w)
                        && group_of(self.searches(), w).contains(w) by {
                        if w != v {
                            assert(self.searches().remove(v).contains_key(w));
                            assert(before.searches().contains_key(w));
                        }
                    }
                    assert forall|w: u32, x: u32| #[trigger] group_of(self.searches(), w).contains(x) implies self.explored_set().contains(x) by {
                        if w != v {
                            assert(group_of(before.searches(), w).contains(x));
                        } else {
                            assert(gv.skip(0).contains(x));
                        }
                    }
                    assert forall|x: u32| #[trigger] self.explored_set().contains(x) implies exists|w: u32| #[trigger] group_of(self.searches(), w).contains(x) by {
                        if before.explored_set().contains(x) {
                            let w = choose|w: u32| #[trigger] group_of(before.searches(), w).contains(x);
                            if w == v {
                                assert(group_of(before.searches(), v).len() == 0);
                            }
                            assert(group_of(self.searches(), w).contains(x));
                        } else {
                            assert(gv.skip(0).contains(x));
                            assert(group_of(self.searches(), v).contains(x));
                        }
                    }
                    assert forall|w1: u32, w2: u32, x: u32| w1 != w2 && #[trigger] group_of(self.searches(), w1).contains(x) implies !#[trigger] group_of(self.searches(), w2).contains(x) by {
                        if w1 != v && w2 != v {
                            assert(group_of(before.searches(), w1).contains(x));
                            if group_of(self.searches(), w2).contains(x) {
                                assert(group_of(before.searches(), w2).contains(x));
                            }
                        } else if w1 == v {
                            assert(gv.skip(0).contains(x));
                            assert(!before.explored_set().contains(x));
                            if group_of(self.searches(), w2).contains(x) {
                                assert(group_of(before.searches(), w2).contains(x));
                            }
                        } else {
                            assert(group_of(before.searches(), w1).contains(x));
                            assert(before.explored_set().contains(x));
                            if group_of(self.searches(), w2).contains(x) {
                                assert(gv.skip(0).contains(x));
                            }
                        }
                    }
                }
            }
            i = i + 1;
        }
        proof {
            lemma_wf_frame(g0, *self);
        }
    }

    /// Clears the search state, then runs a depth-first search along
    /// incoming edges from each vertex of `list`, in order, that no earlier
    /// search has reached. Afterwards the explored vertices are exactly those
    /// reachable from `list` along incoming edges: they include `list`, no
    /// incoming edge enters them from outside, and they lie in every set with those two
    /// properties. Each is finished once, and each lies in exactly one
    /// search group, that of the search which reached it.
    pub fn dfs_loop_incoming(&mut self, list: &Vec<u32>)
        requires
            old(self).wf(),
            forall|i: int| 0 <= i < list@.len() ==> old(self).vertices().contains(#[trigger] list@[i]),
        ensures
            final(self).wf(),
            final(self).vertex_view() == old(self).vertex_view(),
            final(self).vertices() == old(self).vertices(),
            forall|a: u32, b: u32| #[trigger] final(self).mult(a, b) == old(self).mult(a, b),
            forall|i: int| 0 <= i < list@.len() ==> final(self).explored_set().contains(#[trigger] list@[i]),
            final(self).explored_set().subset_of(final(self).vertices()),
            forall|x: u32| #[trigger] final(self).finished().contains(x) <==> final(self).explored_set().contains(x),
            final(self).finished().no_duplicates(),
            forall|t: Set<u32>, x: u32|
                #[trigger] in_closed(*old(self), t, Set::<u32>::empty()) && (forall|i: int|
                    0 <= i < list@.len() ==> t.contains(#[trigger] list@[i]))
                    && final(self).explored_set().contains(x) ==> #[trigger] t.contains(x),
            forall|v: u32| #[trigger] final(self).searches().contains_key(v) ==> final(self).explored_set().contains(v)
                    && group_of(final(self).searches(), v).contains(v),
            forall|v: u32, x: u32| #[trigger] group_of(final(self).searches(), v).contains(x) ==> final(self).explored_set().contains(x),
            forall|x: u32| #[trigger] final(self).explored_set().contains(x) ==> exists|v: u32| #[trigger] group_of(final(self).searches(), v).contains(x),
            forall|v: u32, w: u32, x: u32| v != w && #[trigger] group_of(final(self).searches(), v).contains(x) ==> !#[trigger] group_of(final(self).searches(), w).contains(x),
            forall|u: u32, b: u32|
                final(self).explored_set().contains(u) && #[trigger] final(self).mult(b, u) > 0
                    ==> final(self).explored_set().contains(b),
    {
        let ghost g0 = *self;
        self.finished_order = Vec::new();
        self.start_search = BTreeMap::new();
        self.explored = BTreeMap::new();
        self.top_search_cnts = BTreeMap::new();
        proof {
            lemma_wf_frame(g0, *self);
            assert(self.explored_set() =~= Set::<u32>::empty());
            assert(self.searches() =~= Map::<u32, Vec<u32>>::empty());
        }
        let mut i: usize = 0;
        while i < list.len()
            invariant
                g0.wf(),
                forall|t: int| 0 <= t < list@.len() ==> g0.vertices().contains(#[trigger] list@[t]),
                self.vertex_map@ == g0.vertex_map@,
                i <= list@.len(),
                forall|t: int| 0 <= t < i ==> self.explored_set().contains(#[trigger] list@[t]),
                self.explored_set().subset_of(g0.vertices()),
                forall|x: u32| #[trigger] self.finished_order@.contains(x) <==> self.explored_set().contains(x),
                self.finished_order@.no_duplicates(),
                g0 == *old(self),
                forall|t: Set<u32>, x: u32|
                    #[trigger] in_closed(g0, t, Set::<u32>::empty()) && (forall|i: int|
                        0 <= i < list@.len() ==> t.contains(#[trigger] list@[i]))
                        && self.explored_set().contains(x) ==> #[trigger] t.contains(x),
                forall|v: u32| #[trigger] self.searches().contains_key(v) ==> self.explored_set().contains(v)
                        && group_of(self.searches(), v).contains(v),
                forall|v: u32, x: u32| #[trigger] group_of(self.searches(), v).contains(x) ==> self.explored_set().contains(x),
                forall|x: u32| #[trigger] self.explored_set().contains(x) ==> exists|v: u32| #[trigger] group_of(self.searches(), v).contains(x),
                forall|v: u32, w: u32, x: u32| v != w && #[trigger] group_of(self.searches(), v).contains(x) ==> !#[trigger] group_of(self.searches(), w).contains(x),
                forall|u: u32, b: u32|
                    self.explored_set().contains(u) && #[trigger] g0.mult(b, u) > 0
                        ==> self.explored_set().contains(b),
            decreases list@.len() - i,
        {
            let v = list[i];
            if !self.explored.contains_key(&v) {
                let ghost before = *self;
                proof {
                    lemma_wf_frame(g0, *self);
                }
                self.dfs_incoming(v, v);
                proof {
                    let fb = before.finished_order@;
                    let fa = self.finished_order@;
                    let n = fb.len() as int;
                    assert(fa =~= fa.take(n) + fa.skip(n));
                    assert(fa.take(n) == fb);
                    assert forall|x: u32| fb.contains(x) implies !fa.skip(n).contains(x) by {
                        if fa.skip(n).contains(x) {
                            assert(self.finished().skip(before.finished().len() as int).contains(x));
                        }
                    }
                    lemma_concat_no_duplicates(fb, fa.skip(n));
                    assert forall|t: Set<u32>, x: u32|
                        #[trigger] in_closed(g0, t, Set::<u32>::empty()) && (forall|i: int|
                            0 <= i < list@.len() ==> t.contains(#[trigger] list@[i]))
                            && self.explored_set().contains(x) implies #[trigger] t.contains(x) by {
                        if !before.explored_set().contains(x) {
                            assert(t.contains(list@[i as int]));
                            assert(in_closed(before, t, before.explored_set())) by {
                                assert forall|u: u32, b: u32|
                                    t.contains(u) && !before.explored_set().contains(u) && #[trigger] before.mult(b, u) > 0
                                    implies t.contains(b) || before.explored_set().contains(b) by {
                                    assert(g0.mult(b, u) > 0);
                                }
                            }
                        }
                    }
                    assert forall|x: u32| #[trigger] fa.contains(x) <==> self.explored_set().contains(x) by {
                        if fa.contains(x) {
                            let t = choose|t: int| 0 <= t < fa.len() && fa[t] == x;
                            if t < n {
                                assert(fb[t] == x);
                                assert(fb.contains(x));
                            } else {
                                assert(fa.skip(n)[t - n] == x);
                                assert(self.finished().skip(before.finished().len() as int).contains(x));
                            }
                        }
                        if before.explored_set().contains(x) {
                            assert(fb.contains(x));
                            let t = choose|t: int| 0 <= t < fb.len() && fb[t] == x;
                            assert(fa[t] == x);
                        } else if self.explored_set().contains(x) {
                            assert(self.finished().skip(before.finished().len() as int).contains(x));
                            let t = choose|t: int| 0 <= t < fa.skip(n).len() && fa.skip(n)[t] == x;
                            assert(fa[t + n] == x);
                        }
                    }
                    assert forall|u: u32, b: u32|
                        self.explored_set().contains(u) && #[trigger] g0.mult(b, u) > 0
                            implies self.explored_set().contains(b) by {
                        assert(before.mult(b, u) == g0.mult(b, u));
                        if before.explored_set().contains(u) {
                            assert(before.explored_set().contains(b));
                        }
                    }
                    assert(self.explored_set().subset_of(g0.vertices()));
                    let gv = group_of(self.searches(), v);
                    assert(!before.searches().contains_key(v));
                    assert(group_of(before.searches(), v) =~= Seq::<u32>::empty());
                    assert(gv.skip(0) =~= gv);
                    assert(gv.contains(v));
                    assert forall|w: u32| w != v implies #[trigger] group_of(self.searches(), w) == group_of(
                        before.searches(),
                        w,
                    ) by {
                        assert(self.searches().remove(v).contains_key(w) == self.searches().contains_key(w));
                        assert(before.searches().remove(v).contains_key(w) == before.searches().contains_key(w));
                        if self.searches().contains_key(w) {
                            assert(self.searches().remove(v)[w] == self.searches()[w]);
                            assert(before.searches().remove(v)[w] == before.searches()[w]);
                        }
                    }
                    assert forall|w: u32| #[trigger] self.searches().contains_key(w) implies self.explored_set().contains(w)
                        && group_of(self.searches(), w).contains(w) by {
                        if w != v {
                            assert(self.searches().remove(v).contains_key(w));
                            assert(before.searches().contains_key(w));
                        }
                    }
                    assert forall|w: u32, x: u32| #[trigger] group_of(self.searches(), w).contains(x) implies self.explored_set().contains(x) by {
                        if w != v {
                            assert(group_of(before.searches(), w).contains(x));
                        } else {
                            assert(gv.skip(0).contains(x));
                        }
                    }
                    assert forall|x: u32| #[trigger] self.explored_set().contains(x) implies exists|w: u32| #[trigger] group_of(self.searches(), w).contains(x) by {
                        if before.explored_set().contains(x) {
                            let w = choose|w: u32| #[trigger] group_of(before.searches(), w).contains(x);
                            if w == v {
                                assert(group_of(before.searches(), v).len() == 0);
                            }
                            assert(group_of(self.searches(), w).contains(x));
                        } else {
                            assert(gv.skip(0).contains(x));
                            assert(group_of(self.searches(), v).contains(x));
                        }
                    }
                    assert forall|w1: u32, w2: u32, x: u32| w1 != w2 && #[trigger] group_of(self.searches(), w1).contains(x) implies !#[trigger] group_of(self.searches(), w2).contains(x) by {
                        if w1 != v && w2 != v {
                            assert(group_of(before.searches(), w1).contains(x));
                            if group_of(self.searches(), w2).contains(x) {
                                assert(group_of(before.searches(), w2).contains(x));
                            }
                        } else if w1 == v {
                            assert(gv.skip(0).contains(x));
                            assert(!before.explored_set().contains(x));
                            if group_of(self.searches(), w2).contains(x) {
                                assert(group_of(before.searches(), w2).contains(x));
                            }
                        } else {
                            assert(group_of(before.searches(), w1).contains(x));
                            assert(before.explored_set().contains(x));
                            if group_of(self.searches(), w2).contains(x) {
                                assert(gv.skip(0).contains(x));
                            }
                        }
                    }
                }
            }
            i = i + 1;
        }
        proof {
            lemma_wf_frame(g0, *self);
        }
    }

    /// The kept search sizes as (starting vertex, size) pairs, by vertex.
    pub fn top_search_counts(&self) -> (r: Vec<(u32, usize)>)
        ensures
            forall|v: u32| #[trigger] self.top_searches().contains_key(v) <==> exists|i: int|
                0 <= i < r@.len() && r@[i].0 == v,
            forall|i: int|
                0 <= i < r@.len() ==> #[trigger] self.top_searches()[r@[i].0] == r@[i].1,
            forall|i: int, j: int| 0 <= i < j < r@.len() ==> r@[i].0 < r@[j].0,
    {
        let keys = sorted_keys(&self.top_search_cnts);
        let mut r: Vec<(u32, usize)> = Vec::new();
        let mut i: usize = 0;
        while i < keys.len()
            invariant
                i <= keys@.len(),
                keys@.to_set() == self.top_search_cnts@.dom(),
                strictly_increasing(keys@),
                r@.len() == i,
                forall|t: int| 0 <= t < i ==> #[trigger] r@[t].0 == keys@[t],
                forall|t: int| 0 <= t < i ==> self.top_search_cnts@[#[trigger] r@[t].0] == r@[t].1,
            decreases keys@.len() - i,
        {
            let k = keys[i];
            assert(keys@.to_set().contains(k)) by {
                assert(keys@.contains(k));
            }
            let c = *self.top_search_cnts.get(&k).unwrap();
            r.push((k, c));
            i = i + 1;
        }
        proof {
            assert forall|v: u32| #[trigger] self.top_searches().contains_key(v) <==> exists|i: int|
                0 <= i < r@.len() && r@[i].0 == v by {
                if self.top_searches().contains_key(v) {
                    assert(keys@.to_set().contains(v));
                    let t = choose|t: int| 0 <= t < keys@.len() && keys@[t] == v;
                    assert(r@[t].0 == v);
                }
                if exists|i: int| 0 <= i < r@.len() && r@[i].0 == v {
                    let t = choose|t: int| 0 <= t < r@.len() && r@[t].0 == v;
                    assert(keys@.contains(keys@[t]));
                    assert(keys@.to_set().contains(v));
                }
            }
        }
        r
    }

    /// The kept search sizes as (starting vertex, size) pairs, largest size
    /// first; equal sizes keep increasing vertex order.
    pub fn top_search_counts_by_size(&self) -> (r: Vec<(u32, usize)>)
        ensures
            forall|v: u32, c: usize| #[trigger] r@.contains((v, c)) <==> (self.top_searches().contains_key(v)
                && self.top_searches()[v] == c),
            r@.no_duplicates(),
            forall|i: int, j: int| 0 <= i < j < r@.len() ==> r@[i].1 >= r@[j].1,
    {
        broadcast use vstd::seq_lib::group_to_multiset_ensures;

        let bv = self.top_search_counts();
        let mut r: Vec<(u32, usize)> = Vec::new();
        let mut i: usize = 0;
        while i < bv.len()
            invariant
                i <= bv@.len(),
                r@.to_multiset() == bv@.take(i as int).to_multiset(),
                forall|a: int, b: int| 0 <= a < b < r@.len() ==> r@[a].1 >= r@[b].1,
            decreases bv@.len() - i,
        {
            let e = bv[i];
            let mut p: usize = 0;
            while p < r.len() && r[p].1 >= e.1
                invariant
                    p <= r@.len(),
                    forall|a: int| 0 <= a < p ==> r@[a].1 >= e.1,
                decreases r@.len() - p,
            {
                p = p + 1;
            }
            let ghost r0 = r@;
            r.insert(p, e);
            proof {
                assert(bv@.take(i + 1) =~= bv@.take(i as int).push(e));
                vstd::seq_lib::to_multiset_insert(r0, p as int, e);
                vstd::seq_lib::to_multiset_build(bv@.take(i as int), e);
                assert(r@.to_multiset() == r0.to_multiset().insert(e));
                assert forall|a: int, b: int| 0 <= a < b < r@.len() implies r@[a].1 >= r@[b].1 by {
                    if b == p {
                        assert(r@[a] == r0[a]);
                    } else if a == p {
                        assert(r@[b] == r0[b - 1]);
                        if p < r0.len() {
                            assert(r0[p as int].1 < e.1);
                            if b - 1 > p {
                                assert(r0[p as int].1 >= r0[b - 1].1);
                            }
                        }
                    } else {
                        let a0 = if a < p { a } else { a - 1 };
                        let b0 = if b < p { b } else { b - 1 };
                        assert(r@[a] == r0[a0]);
                        assert(r@[b] == r0[b0]);
                        if a < p && b > p {
                            assert(r0[a0].1 >= e.1);
                            if p < r0.len() {
                                assert(r0[p as int].1 < e.1);
                            }
                        }
                    }
                }
            }
            i = i + 1;
        }
        proof {
            assert(bv@.take(bv@.len() as int) =~= bv@);
            assert forall|v: u32, c: usize| #[trigger] r@.contains((v, c)) <==> (self.top_searches().contains_key(v)
                && self.top_searches()[v] == c) by {
                r@.to_multiset_ensures();
                bv@.to_multiset_ensures();
                assert(r@.to_multiset() == bv@.to_multiset());
                assert(r@.contains((v, c)) <==> r@.to_multiset().count((v, c)) > 0);
                assert(bv@.contains((v, c)) <==> bv@.to_multiset().count((v, c)) > 0);
                if bv@.contains((v, c)) {
                    let t = choose|t: int| 0 <= t < bv@.len() && bv@[t] == (v, c);
                    assert(bv@[t].0 == v);
                }
                if self.top_searches().contains_key(v) && self.top_searches()[v] == c {
                    let t = choose|t: int| 0 <= t < bv@.len() && bv@[t].0 == v;
                    assert(bv@[t] == (v, c));
                }
            }
            assert(bv@.no_duplicates()) by {
                assert forall|a: int, b: int| 0 <= a < b < bv@.len() implies bv@[a] != bv@[b] by {
                    assert(bv@[a].0 < bv@[b].0);
                }
            }
            bv@.lemma_multiset_has_no_duplicates();
            r@.lemma_multiset_has_no_duplicates_conv();
        }
        r
    }

    /// The targets of the edges leaving `vertex`, in increasing order, each
    /// with the number of parallel edges to it.
    pub fn get_outgoing_counts(&self, vertex: u32) -> (r: Vec<(u32, u32)>)
        requires
            self.wf(),
            self.vertices().contains(vertex),
        ensures
            forall|b: u32| self.mult(vertex, b) > 0 <==> exists|i: int| 0 <= i < r@.len() && r@[i].0 == b,
            forall|i: int| 0 <= i < r@.len() ==> #[trigger] r@[i].1 == self.mult(vertex, r@[i].0),
            forall|i: int, j: int| 0 <= i < j < r@.len() ==> r@[i].0 < r@[j].0,
    {
        let v = self.vertex_map.get(&vertex).unwrap();
        let keys = sorted_keys(&v.outgoing);
        let mut r: Vec<(u32, u32)> = Vec::new();
        let mut i: usize = 0;
        while i < keys.len()
            invariant
                i <= keys@.len(),
                *v == self.vertex_map@[vertex],
                self.vertex_map@.contains_key(vertex),
                keys@.to_set() == v.outgoing@.dom(),
                strictly_increasing(keys@),
                r@.len() == i,
                forall|t: int| 0 <= t < i ==> #[trigger] r@[t].0 == keys@[t],
                forall|t: int| 0 <= t < i ==> #[trigger] r@[t].1 == self.mult(vertex, r@[t].0),
            decreases keys@.len() - i,
        {
            let k = keys[i];
            assert(keys@.to_set().contains(k)) by {
                assert(keys@.contains(k));
            }
            let c = *v.outgoing.get(&k).unwrap();
            r.push((k, c));
            i = i + 1;
        }
        proof {
            assert forall|b: u32| self.mult(vertex, b) > 0 <==> exists|i: int|
                0 <= i < r@.len() && r@[i].0 == b by {
                if self.mult(vertex, b) > 0 {
                    assert(keys@.to_set().contains(b));
                    let t = choose|t: int| 0 <= t < keys@.len() && keys@[t] == b;
                    assert(r@[t].0 == b);
                }
                if exists|i: int| 0 <= i < r@.len() && r@[i].0 == b {
                    let t = choose|t: int| 0 <= t < r@.len() && r@[t].0 == b;
                    assert(keys@.contains(keys@[t]));
                    assert(keys@.to_set().contains(b));
                }
            }
        }
        r
    }

    /// The vertex ids, in increasing order.
    pub fn get_vertexes(&self) -> (r: Vec<u32>)
        ensures
            r@.to_set() == self.vertices(),
            strictly_increasing(r@),
    {
        sorted_keys(&self.vertex_map)
    }
}

/// Well-formedness, the vertex set and the edge multiplicities depend only
/// on the vertices' neighbour maps.
proof fn lemma_wf_frame(g0: Graph, g1: Graph)
    requires
        g0.wf(),
        g1.vertex_map@ == g0.vertex_map@,
    ensures
        g1.wf(),
        g1.vertices() == g0.vertices(),
        forall|a: u32, b: u32| #[trigger] g1.mult(a, b) == g0.mult(a, b),
        forall|a: u32, b: u32| #[trigger] g1.in_mult(a, b) == g0.in_mult(a, b),
{
    assert forall|a: u32, b: u32| #[trigger] g1.mult(a, b) == g1.in_mult(a, b) by {
        assert(g0.mult(a, b) == g0.in_mult(a, b));
    }
    assert forall|a: u32, b: u32| #[trigger] g1.mult(a, b) > 0 implies g1.vertex_map@.contains_key(b) by {
        assert(g0.mult(a, b) > 0 ==> g0.vertex_map@.contains_key(b));
    }
}

/// Every edge leaving a vertex of `t` outside `e` ends in `t` or in `e`.
pub open spec fn out_closed(g: Graph, t: Set<u32>, e: Set<u32>) -> bool {
    forall|u: u32, b: u32|
        t.contains(u) && !e.contains(u) && #[trigger] g.mult(u, b) > 0 ==> t.contains(b) || e.contains(b)
}

/// Every edge entering a vertex of `t` outside `e` starts in `t` or in `e`.
pub open spec fn in_closed(g: Graph, t: Set<u32>, e: Set<u32>) -> bool {
    forall|u: u32, b: u32|
        t.contains(u) && !e.contains(u) && #[trigger] g.mult(b, u) > 0 ==> t.contains(b) || e.contains(b)
}

/// The vertices recorded for the search started at `k` (empty when none).
pub open spec fn group_of(m: Map<u32, Vec<u32>>, k: u32) -> Seq<u32> {
    if m.contains_key(k) {
        m[k]@
    } else {
        Seq::<u32>::empty()
    }
}

/// A list that grew from `fb` to `fa` while a set grew from `eb` to `ea`,
/// with the growth listing exactly the new members: if the part of `fb`
/// after `n0` listed exactly the members of `eb` outside `e0`, the part of
/// `fa` after `n0` lists exactly the members of `ea` outside `e0`.
proof fn lemma_extend_segment(
    fa: Seq<u32>,
    fb: Seq<u32>,
    n0: int,
    e0: Set<u32>,
    eb: Set<u32>,
    ea: Set<u32>,
)
    requires
        0 <= n0 <= fb.len() <= fa.len(),
        fa.take(fb.len() as int) == fb,
        e0.subset_of(eb),
        eb.subset_of(ea),
        forall|x: u32| #[trigger] fb.skip(n0).contains(x) <==> eb.contains(x) && !e0.contains(x),
        forall|x: u32| #[trigger] fa.skip(fb.len() as int).contains(x) <==> ea.contains(x) && !eb.contains(x),
    ensures
        fa.take(n0) == fb.take(n0),
        forall|x: u32| #[trigger] fa.skip(n0).contains(x) <==> ea.contains(x) && !e0.contains(x),
{
    let nb = fb.len() as int;
    assert(fa.take(n0) =~= fb.take(n0));
    assert(fa.skip(n0) =~= fb.skip(n0) + fa.skip(nb));
    assert forall|x: u32| #[trigger] fa.skip(n0).contains(x) <==> ea.contains(x) && !e0.contains(x) by {
        if fa.skip(n0).contains(x) {
            let t = choose|t: int| 0 <= t < fa.skip(n0).len() && fa.skip(n0)[t] == x;
            if t < nb - n0 {
                assert(fb.skip(n0)[t] == x);
                assert(fb.skip(n0).contains(x));
            } else {
                assert(fa.skip(nb)[t - (nb - n0)] == x);
                assert(fa.skip(nb).contains(x));
            }
        }
        if eb.contains(x) && !e0.contains(x) {
            assert(fb.skip(n0).contains(x));
            let t = choose|t: int| 0 <= t < fb.skip(n0).len() && fb.skip(n0)[t] == x;
            assert(fa.skip(n0)[t] == x);
        } else if ea.contains(x) && !eb.contains(x) {
            assert(fa.skip(nb).contains(x));
            let t = choose|t: int| 0 <= t < fa.skip(nb).len() && fa.skip(nb)[t] == x;
            assert(fa.skip(n0)[t + (nb - n0)] == x);
        }
    }
}

/// Joining two lists without repeats that share no element gives a list
/// without repeats.
proof fn lemma_concat_no_duplicates(a: Seq<u32>, b: Seq<u32>)
    requires
        a.no_duplicates(),
        b.no_duplicates(),
        forall|x: u32| a.contains(x) ==> !b.contains(x),
    ensures
        (a + b).no_duplicates(),
{
    let c = a + b;
    assert forall|i: int, j: int| 0 <= i < j < c.len() implies c[i] != c[j] by {
        if i < a.len() && j >= a.len() {
            assert(a.contains(c[i]));
            assert(b[j - a.len()] == c[j]);
            assert(b.contains(c[j]));
        } else if i >= a.len() {
            assert(c[i] == b[i - a.len()]);
            assert(c[j] == b[j - a.len()]);
        }
    }
}

/// Exploring a vertex that was unexplored shrinks the set of unexplored vertices.
proof fn lemma_unexplored_shrinks(vs: Set<u32>, e0: Set<u32>, e: Set<u32>, v: u32)
    requires
        vs.finite(),
        vs.contains(v),
        !e0.contains(v),
        e0.insert(v).subset_of(e),
    ensures
        vs.difference(e).len() < vs.difference(e0).len(),
{
    let d0 = vs.difference(e0);
    assert(vs.difference(e).subset_of(d0.remove(v)));
    vstd::set_lib::lemma_len_subset(vs.difference(e), d0.remove(v));
    vstd::set::axiom_set_remove_len(d0, v);
    assert(d0.contains(v));
}

/// Whether a sequence of vertex ids is strictly increasing.
pub open spec fn strictly_increasing(s: Seq<u32>) -> bool {
    forall|i: int, j: int| 0 <= i < j < s.len() ==> s[i] < s[j]
}

/// The keys of a map, in increasing order.
fn sorted_keys<V>(m: &BTreeMap<u32, V>) -> (r: Vec<u32>)
    ensures
        r@.to_set() == m@.dom(),
        strictly_increasing(r@),
{
    let mut r: Vec<u32> = Vec::new();
    let ghost ks: Seq<&u32> = IteratorSpec::remaining(&spec_keys_iter(m));
    for k in it: m.keys()
        invariant
            it.seq() == ks,
            r@ == ks.take(it.index()).map_values(|x: &u32| *x),
    {
        r.push(*k);
    }
    proof {
        broadcast use vstd::laws_cmp::group_laws_cmp;

        assert(r@ =~= ks.unref());
        assert(obeys_cmp::<u32>());
        assert(increasing_seq(ks));
        assert(obeys_cmp::<&u32>());
        vstd::std_specs::btree::axiom_increasing_seq_meaning(ks);
        assert forall|i: int, j: int| 0 <= i < j < r@.len() implies r@[i] < r@[j] by {
            assert(<&u32 as OrdSpec>::cmp_spec(&ks[i], &ks[j]) is Less);
        }
        assert(ks.unref().to_set() == m@.dom());
    }
    r
}

} // verus!
