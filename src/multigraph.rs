use std::collections::BTreeMap;
use vstd::multiset::Multiset;
use vstd::prelude::*;

verus! {

broadcast use {
    vstd::std_specs::btree::group_btree_axioms,
    vstd::laws_cmp::group_laws_cmp,
    vstd::seq_lib::group_to_multiset_ensures,
    vstd::multiset::group_multiset_axioms,
};

/// The canonical key of the undirected edge between `a` and `b`: the smaller id first.
pub open spec fn spec_edge_key(a: u32, b: u32) -> (u32, u32) {
    if a <= b {
        (a, b)
    } else {
        (b, a)
    }
}

/// Whether exactly one endpoint of `e` lies in `s`.
pub open spec fn crosses(s: Set<u32>, e: (u32, u32)) -> bool {
    s.contains(e.0) != s.contains(e.1)
}

/// The test for edges that cross the cut around `s`.
pub open spec fn crossing(s: Set<u32>) -> spec_fn((u32, u32)) -> bool {
    |e: (u32, u32)| crosses(s, e)
}

/// Removing one occurrence of `k` from a multiset removes it from a filtered
/// copy exactly when `k` passes the filter.
proof fn lemma_filter_remove_len(m: Multiset<(u32, u32)>, k: (u32, u32), f: spec_fn((u32, u32)) -> bool)
    requires
        m.count(k) > 0,
    ensures
        m.remove(k).filter(f).len() == m.filter(f).len() - (if f(k) {
            1int
        } else {
            0int
        }),
{
    broadcast use vstd::multiset::group_multiset_properties;

    if f(k) {
        assert(m.remove(k).filter(f) =~= m.filter(f).remove(k));
        assert(Multiset::singleton(k).subset_of(m.filter(f)));
    } else {
        assert(m.remove(k).filter(f) =~= m.filter(f));
    }
}

/// Adding one occurrence of `k` to a multiset adds it to a filtered copy
/// exactly when `k` passes the filter.
proof fn lemma_filter_insert_len(m: Multiset<(u32, u32)>, k: (u32, u32), f: spec_fn((u32, u32)) -> bool)
    ensures
        m.insert(k).filter(f).len() == m.filter(f).len() + (if f(k) {
            1int
        } else {
            0int
        }),
{
    broadcast use vstd::multiset::group_multiset_properties;

    if f(k) {
        assert(m.insert(k).filter(f) =~= m.filter(f).insert(k));
    } else {
        assert(m.insert(k).filter(f) =~= m.filter(f));
    }
}

/// A filtered copy of a multiset is no larger than the multiset.
proof fn lemma_filter_len_le(m: Multiset<(u32, u32)>, f: spec_fn((u32, u32)) -> bool)
    ensures
        m.filter(f).len() <= m.len(),
{
    assert(m.filter(f).subset_of(m));
    assert(m.sub(m.filter(f)).len() == m.len() - m.filter(f).len());
}

/// The key of an edge does not depend on the order of its endpoints.
pub proof fn lemma_edge_key_symmetric(a: u32, b: u32)
    ensures
        spec_edge_key(a, b) == spec_edge_key(b, a),
        spec_edge_key(a, b).0 <= spec_edge_key(a, b).1,
{
}

/// The key of the undirected edge between `v1` and `v2`, the same in either order.
pub fn edge_key(v1: u32, v2: u32) -> (k: (u32, u32))
    ensures
        k == spec_edge_key(v1, v2),
{
    if v1 <= v2 {
        (v1, v2)
    } else {
        (v2, v1)
    }
}

/// The position of `x` in `v`.
fn find_index(v: &Vec<usize>, x: usize) -> (r: usize)
    requires
        v@.contains(x),
    ensures
        r < v@.len(),
        v@[r as int] == x,
{
    let mut j: usize = 0;
    while j < v.len()
        invariant
            j <= v@.len(),
            forall|t: int| 0 <= t < j ==> v@[t] != x,
        decreases v@.len() - j,
    {
        if v[j] == x {
            return j;
        }
        j = j + 1;
    }
    j
}

/// Swap-removing entry `a` of a list without repeats drops exactly that value.
proof fn lemma_swap_remove_position(p: Seq<usize>, a: int)
    requires
        p.no_duplicates(),
        0 <= a < p.len(),
    ensures
        p.update(a, p.last()).drop_last().no_duplicates(),
        p.update(a, p.last()).drop_last().len() == p.len() - 1,
        forall|x: usize| #[trigger]
            p.update(a, p.last()).drop_last().contains(x) <==> p.contains(x) && x != p[a],
{
    let q = p.update(a, p.last()).drop_last();
    assert forall|x: usize| #[trigger] q.contains(x) <==> p.contains(x) && x != p[a] by {
        if q.contains(x) {
            let b = choose|b: int| 0 <= b < q.len() && q[b] == x;
            if b == a {
                assert(p[p.len() - 1] == x);
            } else {
                assert(p[b] == x);
            }
        }
        if p.contains(x) && x != p[a] {
            let b = choose|b: int| 0 <= b < p.len() && p[b] == x;
            if b == p.len() - 1 {
                assert(q[a] == x);
            } else {
                assert(q[b] == x);
            }
        }
    }
    assert forall|b: int, c: int| 0 <= b < c < q.len() implies q[b] != q[c] by {
        let pb = if b == a { p.len() - 1 } else { b };
        let pc = if c == a { p.len() - 1 } else { c };
        assert(q[b] == p[pb]);
        assert(q[c] == p[pc]);
    }
}

/// Overwriting entry `a` of a list without repeats by a value it lacks
/// swaps one value for the other.
proof fn lemma_replace_position(p: Seq<usize>, a: int, v: usize)
    requires
        p.no_duplicates(),
        0 <= a < p.len(),
        !p.contains(v),
    ensures
        p.update(a, v).no_duplicates(),
        p.update(a, v).len() == p.len(),
        forall|x: usize| #[trigger]
            p.update(a, v).contains(x) <==> (p.contains(x) && x != p[a]) || x == v,
{
    let q = p.update(a, v);
    assert forall|x: usize| #[trigger] q.contains(x) <==> (p.contains(x) && x != p[a]) || x == v by {
        if q.contains(x) {
            let b = choose|b: int| 0 <= b < q.len() && q[b] == x;
            if b != a {
                assert(p[b] == x);
            }
        }
        if p.contains(x) && x != p[a] {
            let b = choose|b: int| 0 <= b < p.len() && p[b] == x;
            assert(q[b] == x);
        }
        if x == v {
            assert(q[a] == v);
        }
    }
    assert forall|b: int, c: int| 0 <= b < c < q.len() implies q[b] != q[c] by {
        if b != a && c != a {
            assert(q[b] == p[b]);
        } else if b == a {
            assert(p.contains(q[c]));
        } else {
            assert(p.contains(q[b]));
        }
    }
}

/// Why an operation on a [`MultiGraph`] was refused.
#[derive(Debug, Clone, Copy, PartialEq, Eq, Structural)]
pub enum GraphError {
    /// The vertex does not exist.
    UnknownVertex,
    /// No instance of the edge exists.
    NoSuchEdge,
    /// The adjacency list holds no such neighbour.
    NoSuchNeighbor,
    /// The position is past the end of the edge sequence.
    IndexOutOfRange,
}

/// The bookkeeping of one edge key: how many parallel instances it has and
/// where in the edge sequence they stand.
#[derive(Debug, Clone)]
pub struct EdgeRecord {
    pub count: usize,
    pub positions: Vec<usize>,
}

/// An undirected multigraph that supports contraction: a vertex table from
/// vertex to its neighbours (one entry per parallel edge), an edge registry
/// from edge key to its record, and a flat edge sequence holding one key per
/// edge instance, from which an instance can be removed by position in
/// constant time.
#[derive(Debug, Clone)]
pub struct MultiGraph {
    vertex_table: BTreeMap<u32, Vec<u32>>,
    registry: BTreeMap<(u32, u32), EdgeRecord>,
    sequence: Vec<(u32, u32)>,
}

impl MultiGraph {
    /// The vertex ids.
    pub closed spec fn vertices(&self) -> Set<u32> {
        self.vertex_table@.dom()
    }

    /// The edge sequence: one key per edge instance.
    pub closed spec fn edges(&self) -> Seq<(u32, u32)> {
        self.sequence@
    }

    /// The neighbours of `v`, one entry per parallel edge.
    pub closed spec fn adj(&self, v: u32) -> Seq<u32> {
        self.vertex_table@[v]@
    }

    /// How many instances of the edge with key `k` the graph holds.
    pub open spec fn mult(&self, k: (u32, u32)) -> nat {
        self.edges().to_multiset().count(k)
    }

    /// The number of edge instances with exactly one endpoint in `s`: the
    /// size of the cut between `s` and the other vertices.
    pub open spec fn cut_size(&self, s: Set<u32>) -> nat {
        self.edges().to_multiset().filter(crossing(s)).len()
    }

    /// No edge joins a vertex to itself.
    pub open spec fn no_self_loops(&self) -> bool {
        forall|v: u32| #[trigger] self.mult((v, v)) == 0
    }

    /// How many times `u` occurs among the neighbours of `v`.
    pub open spec fn adj_count(&self, v: u32, u: u32) -> nat {
        self.adj(v).to_multiset().count(u)
    }

    /// Whether the registry holds a record for key `k`.
    pub closed spec fn registered(&self, k: (u32, u32)) -> bool {
        self.registry@.contains_key(k)
    }

    /// The count stored in the record of `k` (0 when there is none).
    pub closed spec fn record_count(&self, k: (u32, u32)) -> nat {
        if self.registry@.contains_key(k) {
            self.registry@[k].count as nat
        } else {
            0
        }
    }

    /// The positions stored in the record of `k`.
    pub closed spec fn record_positions(&self, k: (u32, u32)) -> Seq<usize> {
        self.registry@[k].positions@
    }

    /// The registry entry of `k` agrees with the edge sequence.
    pub closed spec fn record_ok(&self, k: (u32, u32)) -> bool {
        let rec = self.registry@[k];
        &&& rec.count == self.mult(k)
        &&& rec.positions@.len() == self.mult(k)
        &&& rec.positions@.no_duplicates()
        &&& forall|x: usize| #[trigger]
            rec.positions@.contains(x) <==> x < self.sequence@.len() && self.sequence@[x as int] == k
    }

    /// The three structures agree: every registered key has a record that
    /// lists exactly the positions of the sequence that hold it, no record
    /// has count zero, every edge joins two existing vertices under its
    /// canonical key, and each adjacency list holds each neighbour exactly as
    /// often as the edge between them occurs.
    pub closed spec fn wf(&self) -> bool {
        &&& self.registry_wf()
        &&& self.adjacency_wf()
    }

    /// The registry and the edge sequence agree, and every edge joins two
    /// existing vertices under its canonical key.
    pub closed spec fn registry_wf(&self) -> bool {
        &&& forall|k: (u32, u32)| #[trigger]
            self.registry@.contains_key(k) ==> self.record_ok(k)
        &&& forall|k: (u32, u32)|
            #![trigger self.registry@.contains_key(k)]
            #![trigger self.mult(k)]
            self.registry@.contains_key(k) <==> self.mult(k) > 0
        &&& forall|k: (u32, u32)| #[trigger]
            self.mult(k) > 0 ==> k.0 <= k.1 && self.vertex_table@.contains_key(k.0)
                && self.vertex_table@.contains_key(k.1)
    }

    /// Each adjacency list holds each neighbour exactly as often as the edge
    /// between them occurs.
    pub closed spec fn adjacency_wf(&self) -> bool {
        &&& forall|v: u32, u: u32|
            self.vertex_table@.contains_key(v) ==> #[trigger] self.adj_count(v, u) == self.mult(
                spec_edge_key(v, u),
            )
    }

    /// The empty graph.
    pub fn new() -> (g: MultiGraph)
        ensures
            g.wf(),
            g.vertices() == Set::<u32>::empty(),
            g.edges() == Seq::<(u32, u32)>::empty(),
    {
        let g = MultiGraph {
            vertex_table: BTreeMap::new(),
            registry: BTreeMap::new(),
            sequence: Vec::new(),
        };
        proof {
            assert(g.vertices() =~= Set::<u32>::empty());
        }
        g
    }

    /// Adds vertex `id` with no neighbours unless it exists; returns whether it was added.
    pub fn create_vertex(&mut self, id: u32) -> (created: bool)
        requires
            old(self).wf(),
        ensures
            final(self).wf(),
            created == !old(self).vertices().contains(id),
            final(self).vertices() == old(self).vertices().insert(id),
            final(self).edges() == old(self).edges(),
            forall|v: u32| #[trigger]
                old(self).vertices().contains(v) ==> final(self).adj(v) == old(self).adj(v),
            final(self).adj(id) == (if created {
                Seq::<u32>::empty()
            } else {
                old(self).adj(id)
            }),
    {
        if self.vertex_table.contains_key(&id) {
            return false;
        }
        let ghost g0 = *self;
        self.vertex_table.insert(id, Vec::new());
        proof {
            assert(self.vertices() =~= g0.vertices().insert(id));
            Self::lemma_registry_wf_frame(g0, *self);
            assert forall|v: u32, u: u32| self.vertex_table@.contains_key(v) implies #[trigger] self.adj_count(v, u)
                == self.mult(spec_edge_key(v, u)) by {
                if v == id {
                    assert(self.adj(v) =~= Seq::<u32>::empty());
                    assert(g0.mult(spec_edge_key(v, u)) == 0);
                } else {
                    assert(g0.adj_count(v, u) == g0.mult(spec_edge_key(v, u)));
                }
            }
        }
        true
    }

    /// The neighbours of `id`, one entry per parallel edge.
    pub fn adjacency(&self, id: u32) -> (r: Result<Vec<u32>, GraphError>)
        ensures
            self.vertices().contains(id) ==> (r matches Ok(l) && l@ == self.adj(id)),
            !self.vertices().contains(id) ==> r == Err::<Vec<u32>, GraphError>(GraphError::UnknownVertex),
    {
        match self.vertex_table.get(&id) {
            Some(l) => {
                let mut c: Vec<u32> = Vec::new();
                let mut i: usize = 0;
                while i < l.len()
                    invariant
                        i <= l@.len(),
                        c@ == l@.take(i as int),
                    decreases l@.len() - i,
                {
                    c.push(l[i]);
                    i = i + 1;
                    assert(c@ =~= l@.take(i as int));
                }
                assert(c@ =~= l@);
                Ok(c)
            },
            None => Err(GraphError::UnknownVertex),
        }
    }

    /// Appends one occurrence of `other` to the neighbours of `id`.
    fn add_neighbor(&mut self, id: u32, other: u32)
        requires
            old(self).vertices().contains(id),
        ensures
            final(self).vertices() == old(self).vertices(),
            final(self).adj(id) == old(self).adj(id).push(other),
            forall|v: u32| v != id ==> #[trigger] final(self).adj(v) == old(self).adj(v),
            final(self).registry == old(self).registry,
            final(self).sequence == old(self).sequence,
    {
        let ghost g0 = *self;
        let mut l = self.vertex_table.remove(&id).unwrap();
        l.push(other);
        self.vertex_table.insert(id, l);
        assert(self.vertex_table@.dom() =~= g0.vertex_table@.dom());
    }

    /// Adds one instance of the edge between `v1` and `v2`, creating either
    /// vertex if absent; returns the new number of instances of that edge.
    pub fn add_edge(&mut self, v1: u32, v2: u32) -> (r: usize)
        requires
            old(self).wf(),
            old(self).edges().len() < usize::MAX,
        ensures
            final(self).wf(),
            final(self).vertices() == old(self).vertices().insert(v1).insert(v2),
            final(self).edges() == old(self).edges().push(spec_edge_key(v1, v2)),
            r == final(self).mult(spec_edge_key(v1, v2)),
            r == old(self).mult(spec_edge_key(v1, v2)) + 1,
    {
        let ghost gs = *self;
        self.create_vertex(v1);
        self.create_vertex(v2);
        let ghost g0 = *self;
        let key = edge_key(v1, v2);
        let n = self.sequence.len();
        self.sequence.push(key);
        let rec = match self.registry.remove(&key) {
            Some(old_rec) => {
                let mut r = old_rec;
                proof {
                    assert(g0.record_ok(key));
                    assert(r.count <= n) by {
                        assert(g0.edges().to_multiset().count(key) <= g0.edges().to_multiset().len());
                    }
                }
                r.count = r.count + 1;
                r.positions.push(n);
                r
            },
            None => EdgeRecord { count: 1, positions: vec![n] },
        };
        let cnt = rec.count;
        self.registry.insert(key, rec);
        self.add_neighbor(v1, v2);
        if v1 != v2 {
            self.add_neighbor(v2, v1);
        }
        proof {
            assert(self.vertices() =~= gs.vertices().insert(v1).insert(v2));
            assert forall|k: (u32, u32)| #[trigger] self.mult(k) == g0.mult(k) + (if k == key {
                1nat
            } else {
                0nat
            }) by {}
            assert forall|k: (u32, u32)| #[trigger] self.registry@.contains_key(k) implies self.record_ok(k) by {
                let ps = self.registry@[k].positions@;
                if k != key {
                    assert(g0.record_ok(k));
                    assert(self.registry@[k] == g0.registry@[k]);
                    assert forall|x: usize| #[trigger] ps.contains(x) <==> x < self.sequence@.len()
                        && self.sequence@[x as int] == k by {
                        if x < n {
                            assert(self.sequence@[x as int] == g0.sequence@[x as int]);
                        }
                    }
                } else if g0.registry@.contains_key(k) {
                    assert(g0.record_ok(k));
                    let ps0 = g0.registry@[k].positions@;
                    assert(ps =~= ps0.push(n));
                    assert forall|x: usize| #[trigger] ps.contains(x) <==> x < self.sequence@.len()
                        && self.sequence@[x as int] == k by {
                        if x < n {
                            assert(self.sequence@[x as int] == g0.sequence@[x as int]);
                        }
                        if x == n {
                            assert(ps[ps0.len() as int] == n);
                        }
                        if ps.contains(x) && x != n {
                            let a = choose|a: int| 0 <= a < ps.len() && ps[a] == x;
                            assert(ps0[a] == x);
                        }
                        if ps0.contains(x) {
                            let a = choose|a: int| 0 <= a < ps0.len() && ps0[a] == x;
                            assert(ps[a] == x);
                        }
                    }
                    assert(!ps0.contains(n));
                    assert forall|a: int, b: int| 0 <= a < b < ps.len() implies ps[a] != ps[b] by {
                        if b == ps0.len() {
                            assert(ps0.contains(ps0[a]));
                        }
                    }
                } else {
                    assert(ps =~= seq![n]);
                    assert forall|x: usize| #[trigger] ps.contains(x) <==> x < self.sequence@.len()
                        && self.sequence@[x as int] == k by {
                        if x < n {
                            assert(self.sequence@[x as int] == g0.sequence@[x as int]);
                            assert(g0.sequence@[x as int] != k) by {
                                if g0.sequence@[x as int] == k {
                                    assert(g0.sequence@.contains(k));
                                    assert(g0.mult(k) > 0);
                                }
                            }
                        }
                        if ps.contains(x) {
                            assert(ps[0] == x);
                        }
                    }
                }
            }
            assert forall|v: u32, u: u32| self.vertex_table@.contains_key(v) implies #[trigger] self.adj_count(v, u)
                == self.mult(spec_edge_key(v, u)) by {
                assert(g0.adj_count(v, u) == g0.mult(spec_edge_key(v, u)));
                assert(g0.mult(spec_edge_key(v, u)) == g0.mult(spec_edge_key(u, v)));
            }
        }
        cnt
    }

    /// Adds the edge between `v1` and `v2` unless some instance of it is
    /// already there (either vertex is created if absent); returns whether it
    /// was added.
    pub fn create_edge(&mut self, v1: u32, v2: u32) -> (added: bool)
        requires
            old(self).wf(),
            old(self).edges().len() < usize::MAX,
        ensures
            final(self).wf(),
            added == (old(self).mult(spec_edge_key(v1, v2)) == 0),
            added ==> final(self).vertices() == old(self).vertices().insert(v1).insert(v2)
                && final(self).edges() == old(self).edges().push(spec_edge_key(v1, v2)),
            !added ==> final(self).vertices() == old(self).vertices() && final(self).edges()
                == old(self).edges(),
    {
        if self.multiplicity(v1, v2) > 0 {
            false
        } else {
            self.add_edge(v1, v2);
            true
        }
    }

    /// Removes one occurrence of `other` from the neighbours of `id`.
    fn remove_one_neighbor_instance(&mut self, id: u32, other: u32) -> (r: Result<(), GraphError>)
        requires
            old(self).vertices().contains(id),
        ensures
            final(self).vertices() == old(self).vertices(),
            r is Ok <==> old(self).adj(id).contains(other),
            r is Ok ==> final(self).adj(id).to_multiset() == old(self).adj(id).to_multiset().remove(other),
            r is Err ==> final(self).adj(id) == old(self).adj(id),
            forall|v: u32| v != id ==> #[trigger] final(self).adj(v) == old(self).adj(v),
            final(self).registry == old(self).registry,
            final(self).sequence == old(self).sequence,
    {
        let ghost g0 = *self;
        let mut l = self.vertex_table.remove(&id).unwrap();
        let mut j: usize = 0;
        while j < l.len()
            invariant
                j <= l@.len(),
                l@ == g0.adj(id),
                forall|t: int| 0 <= t < j ==> l@[t] != other,
                self.vertex_table@ == g0.vertex_table@.remove(id),
                g0.vertex_table@.contains_key(id),
                g0 == *old(self),
                self.registry == g0.registry,
                self.sequence == g0.sequence,
            decreases l@.len() - j,
        {
            if l[j] == other {
                assert(g0.adj(id)[j as int] == other);
                assert(g0.adj(id).contains(other));
                let ghost before = l@;
                l.remove(j);
                assert(l@.to_multiset() == before.to_multiset().remove(other));
                self.vertex_table.insert(id, l);
                assert(self.vertex_table@.dom() =~= g0.vertex_table@.dom());
                assert(self.vertices() == g0.vertices());
                return Ok(());
            }
            j = j + 1;
        }
        self.vertex_table.insert(id, l);
        assert(self.vertex_table@.dom() =~= g0.vertex_table@.dom());
        Err(GraphError::NoSuchNeighbor)
    }

    /// Removes position `i` from the edge sequence by moving the last key
    /// into it, and keeps the registry in step: the moved key's record now
    /// lists `i` instead of the old last position, and the removed key's
    /// record loses `i` (and is dropped when no instance is left).
    fn detach_position(&mut self, i: usize) -> (key: (u32, u32))
        requires
            old(self).registry_wf(),
            i < old(self).edges().len(),
        ensures
            final(self).registry_wf(),
            key == old(self).edges()[i as int],
            final(self).edges() == old(self).edges().update(i as int, old(self).edges().last()).drop_last(),
            final(self).edges().to_multiset() == old(self).edges().to_multiset().remove(key),
            final(self).vertex_table == old(self).vertex_table,
    {
        let ghost g0 = *self;
        let key = self.sequence[i];
        let last = self.sequence.len() - 1;
        let ghost moved = g0.sequence@[last as int];
        assert(g0.sequence@.contains(key));
        assert(g0.record_ok(key));
        let mut rec = self.registry.remove(&key).unwrap();
        let ghost p0 = rec.positions@;
        let pi = find_index(&rec.positions, i);
        rec.positions.swap_remove(pi);
        proof {
            lemma_swap_remove_position(p0, pi as int);
        }
        rec.count = rec.count - 1;
        if i != last {
            let mv = self.sequence[last];
            if mv.0 == key.0 && mv.1 == key.1 {
                let pl = find_index(&rec.positions, last);
                let ghost p1 = rec.positions@;
                rec.positions[pl] = i;
                proof {
                    lemma_replace_position(p1, pl as int, i);
                }
            } else {
                assert(g0.sequence@.contains(mv));
                assert(g0.record_ok(mv));
                let mut mrec = self.registry.remove(&mv).unwrap();
                let pl = find_index(&mrec.positions, last);
                let ghost m0 = mrec.positions@;
                mrec.positions[pl] = i;
                proof {
                    lemma_replace_position(m0, pl as int, i);
                }
                self.registry.insert(mv, mrec);
            }
        }
        if rec.count > 0 {
            self.registry.insert(key, rec);
        }
        self.sequence.swap_remove(i);
        proof {
            let s0 = g0.sequence@;
            let s1 = self.sequence@;
            let t = s0.update(i as int, s0.last());
            assert(t.drop_last() =~= t.remove(last as int));
            assert(s1.to_multiset() =~= s0.to_multiset().remove(key));
            assert forall|k: (u32, u32)| #[trigger] self.mult(k) == g0.mult(k) - (if k == key {
                1int
            } else {
                0int
            }) by {}
            assert forall|x: usize| x < s1.len() && x != i implies #[trigger] s1[x as int] == s0[x as int] by {}
            assert forall|k: (u32, u32)| #[trigger] self.registry@.contains_key(k) implies self.record_ok(k) by {
                let ps = self.registry@[k].positions@;
                if k != key && (i == last || k != moved) {
                    assert(g0.registry@.contains_key(k));
                    assert(g0.record_ok(k));
                    assert(ps == g0.registry@[k].positions@);
                    assert forall|x: usize| #[trigger] ps.contains(x) <==> x < s1.len() && s1[x as int] == k by {
                        if x == i {
                            assert(s0[x as int] == key);
                        }
                        if x == last {
                            assert(s0[x as int] == moved);
                        }
                    }
                } else if k == key {
                    assert forall|x: usize| #[trigger] ps.contains(x) <==> x < s1.len() && s1[x as int] == k by {
                        if x == last {
                            assert(s0[x as int] == moved);
                        }
                    }
                } else {
                    assert(g0.record_ok(k));
                    assert forall|x: usize| #[trigger] ps.contains(x) <==> x < s1.len() && s1[x as int] == k by {
                        if x == i {
                            assert(s0[x as int] == key);
                        }
                    }
                }
            }
            assert forall|k: (u32, u32)| #[trigger] self.registry@.contains_key(k) <==> self.mult(k) > 0 by {
                assert(g0.registry@.contains_key(k) <==> g0.mult(k) > 0);
            }
            assert forall|k: (u32, u32)| #[trigger] self.mult(k) > 0 implies k.0 <= k.1
                && self.vertex_table@.contains_key(k.0) && self.vertex_table@.contains_key(k.1) by {
                assert(g0.mult(k) > 0);
            }
        }
        key
    }

    /// Removes the edge instance at position `i` of the edge sequence: the
    /// last instance moves into its place, and one matching neighbour entry
    /// goes from each endpoint's adjacency list.
    pub fn delete_instance_by_index(&mut self, i: usize) -> (r: Result<(), GraphError>)
        requires
            old(self).wf(),
        ensures
            final(self).wf(),
            final(self).vertices() == old(self).vertices(),
            i >= old(self).edges().len() ==> r == Err::<(), GraphError>(GraphError::IndexOutOfRange)
                && final(self).edges() == old(self).edges(),
            i < old(self).edges().len() ==> r is Ok && final(self).edges() == old(self).edges().update(
                i as int,
                old(self).edges().last(),
            ).drop_last(),
            i < old(self).edges().len() ==> final(self).edges().to_multiset() == old(
                self,
            ).edges().to_multiset().remove(old(self).edges()[i as int]),
    {
        if i >= self.sequence.len() {
            return Err(GraphError::IndexOutOfRange);
        }
        let ghost g0 = *self;
        let key = self.detach_position(i);
        let ghost g1 = *self;
        proof {
            assert(g0.sequence@.contains(key));
            assert(g0.mult(key) > 0);
            assert(g0.adj_count(key.0, key.1) == g0.mult(spec_edge_key(key.0, key.1)));
        }
        let r1 = self.remove_one_neighbor_instance(key.0, key.1);
        assert(r1 is Ok);
        if key.0 != key.1 {
            proof {
                assert(g0.adj_count(key.1, key.0) == g0.mult(spec_edge_key(key.1, key.0)));
            }
            let r2 = self.remove_one_neighbor_instance(key.1, key.0);
            assert(r2 is Ok);
        }
        proof {
            Self::lemma_registry_wf_frame(g1, *self);
            assert forall|v: u32, u: u32| self.vertex_table@.contains_key(v) implies #[trigger] self.adj_count(v, u)
                == self.mult(spec_edge_key(v, u)) by {
                assert(g0.adj_count(v, u) == g0.mult(spec_edge_key(v, u)));
            }
        }
        Ok(())
    }

    /// Removes one instance of the edge between `v1` and `v2`.
    pub fn delete_one_instance(&mut self, v1: u32, v2: u32) -> (r: Result<(), GraphError>)
        requires
            old(self).wf(),
        ensures
            final(self).wf(),
            final(self).vertices() == old(self).vertices(),
            r is Ok <==> old(self).mult(spec_edge_key(v1, v2)) > 0,
            r is Err ==> r == Err::<(), GraphError>(GraphError::NoSuchEdge) && final(self).edges()
                == old(self).edges(),
            r is Ok ==> final(self).edges().len() == old(self).edges().len() - 1,
            r is Ok ==> final(self).edges().to_multiset() == old(self).edges().to_multiset().remove(
                spec_edge_key(v1, v2),
            ),
    {
        let key = edge_key(v1, v2);
        let pos = match self.registry.get(&key) {
            None => {
                return Err(GraphError::NoSuchEdge);
            },
            Some(rec) => {
                assert(self.record_ok(key));
                assert(rec.positions@.len() > 0);
                assert(rec.positions@.contains(rec.positions@[rec.positions@.len() - 1]));
                rec.positions[rec.positions.len() - 1]
            },
        };
        let ghost s0 = self.sequence@;
        let r = self.delete_instance_by_index(pos);
        proof {
            let t = s0.update(pos as int, s0.last());
            assert(t.drop_last() =~= t.remove(s0.len() - 1));
        }
        r
    }

    /// Removes every instance of the edge between `v1` and `v2`.
    pub fn remove_all_instances(&mut self, v1: u32, v2: u32) -> (r: Result<(), GraphError>)
        requires
            old(self).wf(),
        ensures
            final(self).wf(),
            final(self).vertices() == old(self).vertices(),
            r is Ok <==> old(self).mult(spec_edge_key(v1, v2)) > 0,
            r is Err ==> r == Err::<(), GraphError>(GraphError::NoSuchEdge),
            forall|k: (u32, u32)| #[trigger]
                final(self).mult(k) == (if k == spec_edge_key(v1, v2) {
                    0
                } else {
                    old(self).mult(k)
                }),
            final(self).edges().len() == old(self).edges().len() - old(self).mult(
                spec_edge_key(v1, v2),
            ),
    {
        let ghost key = spec_edge_key(v1, v2);
        let ghost g0 = *self;
        let first = self.delete_one_instance(v1, v2);
        if first.is_err() {
            return first;
        }
        let mut more = true;
        while more
            invariant
                self.wf(),
                self.vertices() == g0.vertices(),
                key == spec_edge_key(v1, v2),
                !more ==> self.mult(key) == 0,
                forall|k: (u32, u32)| k != key ==> #[trigger] self.mult(k) == g0.mult(k),
                self.mult(key) < g0.mult(key),
                self.edges().len() == g0.edges().len() - (g0.mult(key) - self.mult(key)),
            decreases self.mult(key) + (if more { 1int } else { 0int }),
        {
            let ghost before = *self;
            let step = self.delete_one_instance(v1, v2);
            more = match step {
                Ok(()) => true,
                Err(_) => false,
            };
            proof {
                assert(before.mult(key) > 0 <==> more);
                if more {
                    assert(self.edges().to_multiset() == before.edges().to_multiset().remove(key));
                    assert forall|k: (u32, u32)| k != key implies #[trigger] self.mult(k) == g0.mult(k) by {
                        assert(before.mult(k) == g0.mult(k));
                    }
                } else {
                    assert(self.mult(key) == before.mult(key));
                    assert forall|k: (u32, u32)| k != key implies #[trigger] self.mult(k) == g0.mult(k) by {
                        assert(before.mult(k) == g0.mult(k));
                    }
                }
            }
        }
        Ok(())
    }

    /// The endpoint of `k` other than `v` (`v` itself for a self-loop).
    pub open spec fn other_end(k: (u32, u32), v: u32) -> u32 {
        if k.0 == v {
            k.1
        } else {
            k.0
        }
    }

    /// How many instances of key `k` remain once `merge` is merged into
    /// `keep`: keys that are not canonical and edges at `merge` have none,
    /// each edge from `merge` to a third vertex is added to the edge from
    /// `keep` to it, and the rest stay.
    pub open spec fn contracted_mult(&self, keep: u32, merge: u32, k: (u32, u32)) -> nat {
        if k.0 > k.1 || k.0 == merge || k.1 == merge {
            0
        } else if (k.0 == keep || k.1 == keep) && k != (keep, keep) {
            self.mult(k) + self.mult(spec_edge_key(merge, Self::other_end(k, keep)))
        } else {
            self.mult(k)
        }
    }

    /// Contracts the edge `key`: the vertex `key.1` is merged into `key.0`.
    /// Every edge between them goes, as do self-loops at `key.1`; every other
    /// edge at `key.1` is moved to `key.0` with its multiplicity; and `key.1`
    /// leaves the graph.
    pub fn collapse(&mut self, key: (u32, u32))
        requires
            old(self).wf(),
            old(self).mult(key) > 0,
            key.0 != key.1,
        ensures
            final(self).wf(),
            key.0 < key.1,
            old(self).vertices().contains(key.0),
            old(self).vertices().contains(key.1),
            final(self).vertices() == old(self).vertices().remove(key.1),
            final(self).vertices().len() == old(self).vertices().len() - 1,
            forall|k: (u32, u32)| #[trigger]
                final(self).mult(k) == old(self).contracted_mult(key.0, key.1, k),
            final(self).edges().len() == old(self).edges().len() - old(self).mult(key) - old(
                self,
            ).mult((key.1, key.1)),
            forall|s: Set<u32>|
                s.contains(key.0) == s.contains(key.1) ==> #[trigger] final(self).cut_size(s)
                    == old(self).cut_size(s),
    {
        let ghost g0 = *self;
        let keep = key.0;
        let merge = key.1;
        assert(key.0 <= key.1);
        assert(spec_edge_key(merge, keep) == key);
        assert(spec_edge_key(merge, merge) == (merge, merge));
        assert(g0.vertices().contains(keep));
        let snapshot = match self.adjacency(merge) {
            Ok(l) => l,
            Err(_) => {
                return;
            },
        };
        proof {
            assert forall|x: u32| #[trigger] self.mult(spec_edge_key(merge, x)) == snapshot@.subrange(
                0,
                snapshot@.len() as int,
            ).to_multiset().count(x) by {
                assert(snapshot@.subrange(0, snapshot@.len() as int) =~= snapshot@);
                assert(self.adj_count(merge, x) == self.mult(spec_edge_key(merge, x)));
            }
        }
        let mut j: usize = 0;
        while j < snapshot.len()
            invariant
                self.wf(),
                self.vertices() == g0.vertices(),
                keep == key.0,
                merge == key.1,
                keep < merge,
                g0.vertices().contains(keep),
                spec_edge_key(merge, keep) == key,
                j <= snapshot@.len(),
                forall|x: u32| #[trigger]
                    self.mult(spec_edge_key(merge, x)) == snapshot@.subrange(
                        j as int,
                        snapshot@.len() as int,
                    ).to_multiset().count(x),
                forall|x: u32| #[trigger]
                    self.mult(spec_edge_key(merge, x)) <= g0.mult(spec_edge_key(merge, x)),
                forall|k: (u32, u32)|
                    k.0 <= k.1 && k.0 != merge && k.1 != merge ==> #[trigger] self.mult(k) == g0.mult(k) + (if (k.0
                        == keep || k.1 == keep) && k != (keep, keep) {
                        g0.mult(spec_edge_key(merge, Self::other_end(k, keep))) - self.mult(
                            spec_edge_key(merge, Self::other_end(k, keep)),
                        )
                    } else {
                        0int
                    }),
                self.edges().len() == g0.edges().len() - (g0.mult(key) - self.mult(key)) - (g0.mult(
                    (merge, merge),
                ) - self.mult((merge, merge))),
                forall|s: Set<u32>|
                    s.contains(keep) == s.contains(merge) ==> #[trigger] self.cut_size(s)
                        == g0.cut_size(s),
            decreases snapshot@.len() - j,
        {
            let n = snapshot[j];
            let ghost before = *self;
            let ghost suffix = snapshot@.subrange(j as int, snapshot@.len() as int);
            proof {
                assert(suffix[0] == n);
                assert(suffix.drop_first() =~= snapshot@.subrange(j + 1, snapshot@.len() as int));
                assert(suffix.drop_first() =~= suffix.remove(0));
                assert(suffix.to_multiset().count(n) > 0) by {
                    assert(suffix.contains(n));
                }
            }
            // The length is a usize, so one deletion leaves room for one addition.
            let _len = self.edge_count();
            let r = self.delete_one_instance(merge, n);
            assert(r is Ok);
            let ghost mid = *self;
            proof {
                assert(before.mult(spec_edge_key(merge, n)) > 0);
                assert(before.vertices().contains(n));
            }
            if n != keep && n != merge {
                self.add_edge(keep, n);
                assert(self.vertices() =~= g0.vertices());
            }
            proof {
                let nk = spec_edge_key(merge, n);
                assert forall|s: Set<u32>|
                    s.contains(keep) == s.contains(merge) implies #[trigger] self.cut_size(s)
                        == g0.cut_size(s) by {
                    assert(before.cut_size(s) == g0.cut_size(s));
                    lemma_filter_remove_len(before.edges().to_multiset(), nk, crossing(s));
                    if n != keep && n != merge {
                        lemma_filter_insert_len(
                            mid.edges().to_multiset(),
                            spec_edge_key(keep, n),
                            crossing(s),
                        );
                        assert(self.edges().to_multiset() == mid.edges().to_multiset().insert(
                            spec_edge_key(keep, n),
                        ));
                    }
                }
                assert forall|k: (u32, u32)| #[trigger] mid.mult(k) == before.mult(k) - (if k == nk {
                    1int
                } else {
                    0int
                }) by {}
                assert forall|x: u32| #[trigger]
                    self.mult(spec_edge_key(merge, x)) == snapshot@.subrange(
                        j + 1,
                        snapshot@.len() as int,
                    ).to_multiset().count(x) by {
                    assert(before.mult(spec_edge_key(merge, x)) == suffix.to_multiset().count(x));
                    assert(mid.mult(spec_edge_key(merge, x)) == before.mult(spec_edge_key(merge, x)) - (
                    if spec_edge_key(merge, x) == nk {
                        1int
                    } else {
                        0int
                    }));
                }
                assert forall|x: u32| #[trigger]
                    self.mult(spec_edge_key(merge, x)) <= g0.mult(spec_edge_key(merge, x)) by {
                    assert(before.mult(spec_edge_key(merge, x)) <= g0.mult(spec_edge_key(merge, x)));
                    assert(mid.mult(spec_edge_key(merge, x)) <= before.mult(spec_edge_key(merge, x)));
                }
                assert forall|k: (u32, u32)|
                    k.0 <= k.1 && k.0 != merge && k.1 != merge implies #[trigger] self.mult(k) == g0.mult(k) + (if (k.0
                        == keep || k.1 == keep) && k != (keep, keep) {
                        g0.mult(spec_edge_key(merge, Self::other_end(k, keep))) - self.mult(
                            spec_edge_key(merge, Self::other_end(k, keep)),
                        )
                    } else {
                        0int
                    }) by {
                    assert(before.mult(k) == g0.mult(k) + (if (k.0 == keep || k.1 == keep) && k != (
                    keep, keep) {
                        g0.mult(spec_edge_key(merge, Self::other_end(k, keep))) - before.mult(
                            spec_edge_key(merge, Self::other_end(k, keep)),
                        )
                    } else {
                        0int
                    }));
                    assert(mid.mult(spec_edge_key(merge, Self::other_end(k, keep))) == before.mult(
                        spec_edge_key(merge, Self::other_end(k, keep)),
                    ) - (if spec_edge_key(merge, Self::other_end(k, keep)) == nk {
                        1int
                    } else {
                        0int
                    }));
                    assert(mid.mult(k) == before.mult(k));
                    assert(self.mult(k) == mid.mult(k) + (if n != keep && n != merge && k
                        == spec_edge_key(keep, n) {
                        1int
                    } else {
                        0int
                    }));
                    if (k.0 == keep || k.1 == keep) && k != (keep, keep) {
                        let o = Self::other_end(k, keep);
                        let mo = spec_edge_key(merge, o);
                        assert(o != merge);
                        assert(mo != spec_edge_key(keep, n));
                        assert(self.mult(mo) == mid.mult(mo) + (if n != keep && n != merge && mo
                            == spec_edge_key(keep, n) {
                            1int
                        } else {
                            0int
                        }));
                        assert(self.mult(mo) == mid.mult(mo));
                        assert(mo == nk <==> o == n);
                        if o == n {
                            assert(n != keep);
                            assert(k == spec_edge_key(keep, n));
                        }
                    } else {
                        assert(k != spec_edge_key(keep, n) || n == keep || n == merge);
                    }
                }
            }
            j = j + 1;
        }
        let ghost g2 = *self;
        self.vertex_table.remove(&merge);
        proof {
            assert forall|x: u32| #[trigger] g2.mult(spec_edge_key(merge, x)) == 0 by {
                assert(snapshot@.subrange(j as int, snapshot@.len() as int).len() == 0);
            }
            assert(self.vertices() =~= g0.vertices().remove(merge));
            assert forall|k: (u32, u32)| #[trigger] g2.mult(k) > 0 implies k.0 != merge && k.1 != merge by {
                assert(k.0 <= k.1);
                if k.0 == merge {
                    assert(k == spec_edge_key(merge, k.1));
                } else if k.1 == merge {
                    assert(k == spec_edge_key(merge, k.0));
                }
            }
            assert forall|k: (u32, u32)| #[trigger] self.registry@.contains_key(k) implies self.record_ok(k) by {
                assert(g2.record_ok(k));
            }
            assert forall|k: (u32, u32)| #[trigger] self.mult(k) > 0 implies k.0 <= k.1
                && self.vertex_table@.contains_key(k.0) && self.vertex_table@.contains_key(k.1) by {
                assert(g2.mult(k) > 0);
            }
            assert forall|k: (u32, u32)| #[trigger] self.registry@.contains_key(k) <==> self.mult(k) > 0 by {
                assert(g2.registry@.contains_key(k) <==> g2.mult(k) > 0);
            }
            assert forall|v: u32, u: u32| self.vertex_table@.contains_key(v) implies #[trigger] self.adj_count(v, u)
                == self.mult(spec_edge_key(v, u)) by {
                assert(g2.adj_count(v, u) == g2.mult(spec_edge_key(v, u)));
            }
            assert forall|k: (u32, u32)| #[trigger] self.mult(k) == g0.contracted_mult(keep, merge, k) by {
                if k.0 == merge || k.1 == merge {
                    assert(g2.mult(k) == 0);
                } else if k.0 > k.1 {
                    assert(g2.mult(k) == 0);
                } else {
                    assert(g2.mult(spec_edge_key(merge, Self::other_end(k, keep))) == 0);
                }
            }
            assert(g2.mult(key) == 0);
            assert(g2.mult((merge, merge)) == 0);
            assert(g0.vertices().contains(merge));
            vstd::set::axiom_set_remove_len(g0.vertices(), merge);
            assert(self.edges() == g2.edges());
            assert forall|s: Set<u32>|
                s.contains(keep) == s.contains(merge) implies #[trigger] self.cut_size(s)
                    == g0.cut_size(s) by {
                assert(g2.cut_size(s) == g0.cut_size(s));
            }
        }
    }

    /// A deep copy that shares nothing with `self`.
    pub fn duplicate(&self) -> (r: MultiGraph)
        requires
            self.wf(),
        ensures
            r.wf(),
            r.vertices() == self.vertices(),
            r.edges() == self.edges(),
            forall|v: u32| #[trigger] r.adj(v) == self.adj(v),
    {
        let vertex_table = self.vertex_table.clone();
        let registry = self.registry.clone();
        let mut sequence: Vec<(u32, u32)> = Vec::new();
        let mut i: usize = 0;
        while i < self.sequence.len()
            invariant
                i <= self.sequence@.len(),
                sequence@ == self.sequence@.take(i as int),
            decreases self.sequence@.len() - i,
        {
            sequence.push(self.sequence[i]);
            i = i + 1;
            assert(sequence@ =~= self.sequence@.take(i as int));
        }
        assert(sequence@ =~= self.sequence@);
        let r = MultiGraph { vertex_table, registry, sequence };
        proof {
            assert forall|k: (u32, u32)| #[trigger] r.registry@.contains_key(k) implies r.record_ok(k) by {
                assert(self.record_ok(k));
            }
            assert forall|k: (u32, u32)| #[trigger] r.registry@.contains_key(k) <==> r.mult(k) > 0 by {
                assert(self.registry@.contains_key(k) <==> self.mult(k) > 0);
            }
            assert forall|k: (u32, u32)| #[trigger] r.mult(k) > 0 implies k.0 <= k.1
                && r.vertex_table@.contains_key(k.0) && r.vertex_table@.contains_key(k.1) by {
                assert(self.mult(k) > 0);
            }
            assert forall|v: u32, u: u32| r.vertex_table@.contains_key(v) implies #[trigger] r.adj_count(v, u)
                == r.mult(spec_edge_key(v, u)) by {
                assert(self.adj_count(v, u) == self.mult(spec_edge_key(v, u)));
            }
        }
        r
    }

    /// The edge sequence, one key per edge instance.
    pub fn edge_sequence(&self) -> (r: Vec<(u32, u32)>)
        ensures
            r@ == self.edges(),
    {
        let mut out: Vec<(u32, u32)> = Vec::new();
        let mut i: usize = 0;
        while i < self.sequence.len()
            invariant
                i <= self.sequence@.len(),
                out@ == self.sequence@.take(i as int),
            decreases self.sequence@.len() - i,
        {
            out.push(self.sequence[i]);
            i = i + 1;
            assert(out@ =~= self.sequence@.take(i as int));
        }
        assert(out@ =~= self.sequence@);
        out
    }

    /// The key stored at position `i` of the edge sequence.
    pub fn edge_at(&self, i: usize) -> (k: (u32, u32))
        requires
            i < self.edges().len(),
        ensures
            k == self.edges()[i as int],
    {
        self.sequence[i]
    }

    /// How many instances of the edge between `v1` and `v2` the graph holds.
    pub fn multiplicity(&self, v1: u32, v2: u32) -> (n: usize)
        requires
            self.wf(),
        ensures
            n == self.mult(spec_edge_key(v1, v2)),
    {
        let key = edge_key(v1, v2);
        match self.registry.get(&key) {
            Some(rec) => {
                assert(self.record_ok(key));
                rec.count
            },
            None => 0,
        }
    }

    /// The positions of the edge sequence that hold the edge between `v1`
    /// and `v2`, as its registry record lists them (empty when there is none).
    pub fn positions_of(&self, v1: u32, v2: u32) -> (r: Vec<usize>)
        requires
            self.wf(),
        ensures
            r@.no_duplicates(),
            r@.len() == self.mult(spec_edge_key(v1, v2)),
            forall|x: usize| #[trigger]
                r@.contains(x) <==> x < self.edges().len() && self.edges()[x as int] == spec_edge_key(
                    v1,
                    v2,
                ),
    {
        let key = edge_key(v1, v2);
        match self.registry.get(&key) {
            Some(rec) => {
                assert(self.record_ok(key));
                let mut out: Vec<usize> = Vec::new();
                let mut i: usize = 0;
                while i < rec.positions.len()
                    invariant
                        i <= rec.positions@.len(),
                        out@ == rec.positions@.take(i as int),
                    decreases rec.positions@.len() - i,
                {
                    out.push(rec.positions[i]);
                    i = i + 1;
                    assert(out@ =~= rec.positions@.take(i as int));
                }
                assert(out@ =~= rec.positions@);
                out
            },
            None => {
                proof {
                    assert forall|x: usize| x < self.edges().len() implies self.edges()[x as int] != key by {
                        if self.edges()[x as int] == key {
                            assert(self.edges().contains(key));
                        }
                    }
                }
                Vec::new()
            },
        }
    }

    /// In a well-formed graph: no record has count zero; a key is
    /// registered exactly when it has instances; each record's count equals
    /// the number of instances of its key, so the counts add up to the length
    /// of the edge sequence; and each record lists, once each, exactly the
    /// positions that hold its key, so every position is listed in its key's
    /// record.
    pub proof fn lemma_registry_matches_sequence(g: MultiGraph)
        requires
            g.wf(),
        ensures
            forall|k: (u32, u32)| #[trigger] g.registered(k) ==> g.record_count(k) > 0,
            forall|k: (u32, u32)| #[trigger] g.registered(k) <==> g.mult(k) > 0,
            forall|k: (u32, u32)| #[trigger] g.record_count(k) == g.edges().to_multiset().count(k),
            g.edges().to_multiset().len() == g.edges().len(),
            forall|k: (u32, u32)| #[trigger]
                g.registered(k) ==> g.record_positions(k).len() == g.mult(k)
                    && g.record_positions(k).no_duplicates(),
            forall|k: (u32, u32), x: usize|
                g.registered(k) ==> (#[trigger] g.record_positions(k).contains(x) <==> x
                    < g.edges().len() && g.edges()[x as int] == k),
            forall|i: usize|
                i < g.edges().len() ==> g.registered(#[trigger] g.edges()[i as int])
                    && g.record_positions(g.edges()[i as int]).contains(i),
    {
        assert forall|k: (u32, u32)| #[trigger] g.registered(k) implies g.record_count(k) > 0 by {
            assert(g.record_ok(k));
        }
        assert forall|k: (u32, u32)| #[trigger] g.record_count(k) == g.edges().to_multiset().count(k) by {
            if g.registered(k) {
                assert(g.record_ok(k));
            }
        }
        assert forall|k: (u32, u32)| #[trigger]
            g.registered(k) implies g.record_positions(k).len() == g.mult(k)
                && g.record_positions(k).no_duplicates() by {
            assert(g.record_ok(k));
        }
        assert forall|k: (u32, u32), x: usize|
            g.registered(k) implies (#[trigger] g.record_positions(k).contains(x) <==> x
                < g.edges().len() && g.edges()[x as int] == k) by {
            assert(g.record_ok(k));
        }
        assert forall|i: usize|
            i < g.edges().len() implies g.registered(#[trigger] g.edges()[i as int])
                && g.record_positions(g.edges()[i as int]).contains(i) by {
            let k = g.edges()[i as int];
            assert(g.edges().contains(k));
            assert(g.mult(k) > 0);
            assert(g.record_ok(k));
        }
    }

    /// In a well-formed graph an edge `(a, b)` is stored under its canonical
    /// key, and both its endpoints exist, each holding the other in its
    /// adjacency list as many times as the edge occurs.
    pub proof fn lemma_adjacency_mirrors_registry(g: MultiGraph, a: u32, b: u32)
        requires
            g.wf(),
            g.mult((a, b)) > 0,
        ensures
            a <= b,
            g.vertices().contains(a),
            g.vertices().contains(b),
            g.adj_count(a, b) == g.mult((a, b)),
            g.adj_count(b, a) == g.mult((a, b)),
    {
        assert(spec_edge_key(a, b) == (a, b));
        assert(spec_edge_key(b, a) == (a, b));
    }

    /// Deleting the instance at position `i` and then adding an edge
    /// between the same two vertices gives every key its old multiplicity back.
    pub proof fn lemma_delete_then_readd(g0: MultiGraph, g1: MultiGraph, g2: MultiGraph, i: int)
        requires
            g0.wf(),
            0 <= i < g0.edges().len(),
            g1.edges() == g0.edges().update(i, g0.edges().last()).drop_last(),
            g2.edges() == g1.edges().push(spec_edge_key(g0.edges()[i].0, g0.edges()[i].1)),
        ensures
            forall|k: (u32, u32)| #[trigger] g2.mult(k) == g0.mult(k),
            g2.edges().len() == g0.edges().len(),
    {
        let s0 = g0.edges();
        let k0 = s0[i];
        assert(s0.contains(k0));
        assert(g0.mult(k0) > 0);
        assert(spec_edge_key(k0.0, k0.1) == k0);
        let t = s0.update(i, s0.last());
        assert(t.drop_last() =~= t.remove(s0.len() - 1));
        assert(g1.edges().to_multiset() =~= s0.to_multiset().remove(k0));
        assert(g2.edges().to_multiset() =~= s0.to_multiset());
    }

    /// Whether a vertex that no edge touches lies in `s` does not change
    /// the size of the cut around `s`.
    pub proof fn lemma_cut_ignores_absent_vertex(g: MultiGraph, s: Set<u32>, v: u32)
        requires
            g.wf(),
            !g.vertices().contains(v),
        ensures
            g.cut_size(s.insert(v)) == g.cut_size(s),
            g.cut_size(s.remove(v)) == g.cut_size(s),
    {
        let m = g.edges().to_multiset();
        assert forall|k: (u32, u32)| m.count(k) > 0 implies k.0 != v && k.1 != v by {
            assert(g.mult(k) > 0);
        }
        assert(m.filter(crossing(s.insert(v))) =~= m.filter(crossing(s)));
        assert(m.filter(crossing(s.remove(v))) =~= m.filter(crossing(s)));
    }

    /// Removing an instance of a key that does not cross the cut around `s`
    /// keeps the size of that cut.
    pub proof fn lemma_cut_after_removal(g0: MultiGraph, g1: MultiGraph, k: (u32, u32), s: Set<u32>)
        requires
            g0.mult(k) > 0,
            g1.edges().to_multiset() == g0.edges().to_multiset().remove(k),
            !crosses(s, k),
        ensures
            g1.cut_size(s) == g0.cut_size(s),
    {
        lemma_filter_remove_len(g0.edges().to_multiset(), k, crossing(s));
    }

    /// The vertex set is finite.
    pub proof fn lemma_vertices_finite(g: MultiGraph)
        ensures
            g.vertices().finite(),
    {
    }

    /// A cut that every edge instance crosses has the size of the edge sequence.
    pub proof fn lemma_cut_all_edges(g: MultiGraph, s: Set<u32>)
        requires
            forall|k: (u32, u32)| #[trigger] g.mult(k) > 0 ==> crosses(s, k),
        ensures
            g.cut_size(s) == g.edges().len(),
    {
        let m = g.edges().to_multiset();
        assert forall|k: (u32, u32)| #[trigger] m.filter(crossing(s)).count(k) == m.count(k) by {
            if m.count(k) > 0 {
                assert(g.mult(k) > 0);
                assert(crossing(s)(k));
            }
        }
        assert(m.filter(crossing(s)) =~= m);
    }

    /// In a well-formed graph every adjacency list holds each neighbour
    /// exactly as often as the edge between the two occurs (zero times for
    /// a vertex it has no edge to).
    pub proof fn lemma_adjacency_counts(g: MultiGraph, v: u32, u: u32)
        requires
            g.wf(),
            g.vertices().contains(v),
        ensures
            g.adj_count(v, u) == g.mult(spec_edge_key(v, u)),
    {
    }

    /// Contracting a graph without self-loops leaves none.
    pub proof fn lemma_contraction_keeps_no_self_loops(
        g0: MultiGraph,
        g1: MultiGraph,
        keep: u32,
        merge: u32,
    )
        requires
            g0.no_self_loops(),
            forall|k: (u32, u32)| #[trigger] g1.mult(k) == g0.contracted_mult(keep, merge, k),
        ensures
            g1.no_self_loops(),
    {
        assert forall|v: u32| #[trigger] g1.mult((v, v)) == 0 by {
            assert(g1.mult((v, v)) == g0.contracted_mult(keep, merge, (v, v)));
            assert(g0.mult((v, v)) == 0);
        }
    }

    /// A cut is no larger than the number of edge instances.
    pub proof fn lemma_cut_le_edges(g: MultiGraph, s: Set<u32>)
        ensures
            g.cut_size(s) <= g.edges().len(),
    {
        lemma_filter_len_le(g.edges().to_multiset(), crossing(s));
    }

    /// The registry invariant depends only on the registry, the sequence
    /// and which vertices exist; adding vertices keeps it.
    proof fn lemma_registry_wf_frame(g0: MultiGraph, g1: MultiGraph)
        requires
            g0.registry_wf(),
            g1.registry == g0.registry,
            g1.sequence == g0.sequence,
            g0.vertex_table@.dom().subset_of(g1.vertex_table@.dom()),
        ensures
            g1.registry_wf(),
    {
        assert forall|k: (u32, u32)| #[trigger] g1.registry@.contains_key(k) implies g1.record_ok(k) by {
            assert(g0.record_ok(k));
        }
        assert forall|k: (u32, u32)| #[trigger] g1.mult(k) > 0 implies k.0 <= k.1
            && g1.vertex_table@.contains_key(k.0) && g1.vertex_table@.contains_key(k.1) by {
            assert(g0.mult(k) > 0);
        }
        assert forall|k: (u32, u32)| #[trigger] g1.registry@.contains_key(k) <==> g1.mult(k) > 0 by {
            assert(g0.registry@.contains_key(k) <==> g0.mult(k) > 0);
        }
    }

    /// The number of vertices.
    pub fn vertex_count(&self) -> (n: usize)
        ensures
            n == self.vertices().len(),
    {
        self.vertex_table.len()
    }

    /// The number of edge instances.
    pub fn edge_count(&self) -> (n: usize)
        ensures
            n == self.edges().len(),
    {
        self.sequence.len()
    }
}

} // verus!
