use crate::multigraph::{MultiGraph, crosses, crossing};
use vstd::prelude::*;
use vstd::wrapping::u64_specs;

verus! {

broadcast use vstd::seq_lib::group_to_multiset_ensures;

/// Multiplier of the linear congruential generator that draws edges.
pub const LCG_MULTIPLIER: u64 = 6364136223846793005;

/// Increment of the linear congruential generator that draws edges.
pub const LCG_INCREMENT: u64 = 1442695040888963407;

/// The generator state that follows `s`.
pub open spec fn next_state(s: u64) -> u64 {
    u64_specs::wrapping_add(u64_specs::wrapping_mul(s, LCG_MULTIPLIER), LCG_INCREMENT)
}

/// The number drawn from state `s`: the high 32 bits of the next state.
pub open spec fn draw_of(s: u64) -> u64 {
    next_state(s) / 0x1_0000_0000u64
}

/// How many 64-bit draws an index may take before the last one is used as it is.
pub const MAX_DRAWS: u32 = 64;

/// A 64-bit number made of the draws from state `s` and from the state after it.
pub open spec fn wide_draw(s: u64) -> u64 {
    (draw_of(s) as int * 0x1_0000_0000int + draw_of(next_state(s)) as int) as u64
}

/// Draws below this bound are refused when drawing below `n`: it is
/// `2^64 mod n`, so the accepted range holds each remainder equally often.
pub open spec fn reject_below(n: u64) -> int {
    (0x1_0000_0000_0000_0000int - n as int) % n as int
}

/// The index drawn below `n` from state `s` with at most `tries` draws,
/// and the state after it.
pub open spec fn sample(s: u64, n: u64, tries: nat) -> (u64, u64)
    decreases tries,
{
    let x = wide_draw(s);
    let s2 = next_state(next_state(s));
    if x as int >= reject_below(n) || tries <= 1 {
        ((x as int % n as int) as u64, s2)
    } else {
        sample(s2, n, (tries - 1) as nat)
    }
}

/// The vertices of the uncontracted graph whose representative lies in `t`.
pub open spec fn lift(rep: Map<u32, u32>, t: Set<u32>) -> Set<u32> {
    Set::new(|x: u32| rep.contains_key(x) && t.contains(rep[x]))
}

/// Whether `s` splits the vertices of `g` into two non-empty sides.
pub open spec fn is_cut(g: MultiGraph, s: Set<u32>) -> bool {
    &&& s.subset_of(g.vertices())
    &&& exists|a: u32| s.contains(a)
    &&& exists|b: u32| g.vertices().contains(b) && !s.contains(b)
}

/// Whether `c` is at least the size of some cut of `g`.
pub open spec fn bounds_some_cut(g: MultiGraph, c: nat) -> bool {
    exists|s: Set<u32>| is_cut(g, s) && c >= #[trigger] g.cut_size(s)
}

/// Whether `c` is exactly the size of some cut of `g`.
pub open spec fn equals_some_cut(g: MultiGraph, c: nat) -> bool {
    exists|s: Set<u32>| is_cut(g, s) && c == #[trigger] g.cut_size(s)
}

/// What every trial's candidate satisfies: it is at most the number of
/// edge instances, at least the size of some cut, and, on a graph without
/// self-loops, exactly the size of some cut.
pub open spec fn trial_result_ok(g: MultiGraph, c: usize) -> bool {
    &&& c <= g.edges().len()
    &&& g.vertices().len() >= 2 ==> bounds_some_cut(g, c as nat)
    &&& g.vertices().len() >= 2 && g.no_self_loops() ==> equals_some_cut(g, c as nat)
}

/// The smallest element of a non-empty sequence.
pub open spec fn seq_min(s: Seq<usize>) -> usize
    recommends
        s.len() > 0,
    decreases s.len(),
{
    if s.len() <= 1 {
        s[0]
    } else {
        let m = seq_min(s.drop_last());
        if s.last() < m {
            s.last()
        } else {
            m
        }
    }
}

/// The smallest element of a non-empty sequence is one of its elements and
/// no element is below it.
pub proof fn lemma_seq_min(s: Seq<usize>)
    requires
        s.len() > 0,
    ensures
        s.contains(seq_min(s)),
        forall|i: int| 0 <= i < s.len() ==> seq_min(s) <= #[trigger] s[i],
    decreases s.len(),
{
    if s.len() > 1 {
        lemma_seq_min(s.drop_last());
        assert forall|i: int| 0 <= i < s.len() implies seq_min(s) <= #[trigger] s[i] by {
            if i < s.len() - 1 {
                assert(s.drop_last()[i] == s[i]);
            }
        }
        if s.last() >= seq_min(s.drop_last()) {
            let j = choose|j: int| 0 <= j < s.drop_last().len() && s.drop_last()[j] == seq_min(s.drop_last());
            assert(s[j] == seq_min(s));
        } else {
            assert(s[s.len() - 1] == seq_min(s));
        }
    } else {
        assert(s[0] == seq_min(s));
    }
}

/// The smallest value of `v`, or `None` when it is empty.
pub fn minimum(v: &Vec<usize>) -> (r: Option<usize>)
    ensures
        v@.len() == 0 ==> r is None,
        v@.len() > 0 ==> r == Some(seq_min(v@)),
{
    if v.len() == 0 {
        return None;
    }
    let mut best = v[0];
    let mut i: usize = 1;
    while i < v.len()
        invariant
            1 <= i <= v@.len(),
            best == seq_min(v@.take(i as int)),
        decreases v@.len() - i,
    {
        proof {
            assert(v@.take(i + 1).drop_last() =~= v@.take(i as int));
        }
        if v[i] < best {
            best = v[i];
        }
        i = i + 1;
    }
    assert(v@.take(v@.len() as int) =~= v@);
    Some(best)
}

/// One contraction step on the edge instance at position `index`: a
/// self-loop is dropped, any other edge is collapsed.
pub fn contract_step(g: &mut MultiGraph, index: usize)
    requires
        old(g).wf(),
        index < old(g).edges().len(),
    ensures
        final(g).wf(),
        ({
            let k = old(g).edges()[index as int];
            if k.0 == k.1 {
                &&& final(g).vertices() == old(g).vertices()
                &&& final(g).edges() == old(g).edges().update(
                    index as int,
                    old(g).edges().last(),
                ).drop_last()
                &&& forall|s: Set<u32>| #[trigger] final(g).cut_size(s) == old(g).cut_size(s)
            } else {
                &&& k.0 < k.1
                &&& old(g).vertices().contains(k.0)
                &&& old(g).vertices().contains(k.1)
                &&& forall|s: Set<u32>|
                    s.contains(k.0) == s.contains(k.1) ==> #[trigger] final(g).cut_size(s)
                        == old(g).cut_size(s)
                &&& final(g).vertices() == old(g).vertices().remove(k.1)
                &&& final(g).vertices().len() == old(g).vertices().len() - 1
                &&& forall|q: (u32, u32)| #[trigger]
                    final(g).mult(q) == old(g).contracted_mult(k.0, k.1, q)
                &&& final(g).edges().len() == old(g).edges().len() - old(g).mult(k) - old(g).mult(
                    (k.1, k.1),
                )
            }
        }),
{
    let k = g.edge_at(index);
    if k.0 == k.1 {
        let _ = g.delete_instance_by_index(index);
        proof {
            assert(old(g).edges().contains(k));
            assert forall|s: Set<u32>| #[trigger] g.cut_size(s) == old(g).cut_size(s) by {
                MultiGraph::lemma_cut_after_removal(*old(g), *g, k, s);
            }
        }
    } else {
        proof {
            assert(old(g).edges().contains(k));
        }
        g.collapse(k);
    }
}

/// Draws edges at random and contracts the graph until at most two
/// vertices, or no edges, remain.
pub struct MincutDriver {
    state: u64,
}

impl MincutDriver {
    /// The generator state.
    pub closed spec fn state(&self) -> u64 {
        self.state
    }

    /// A driver whose draws start from `seed`.
    pub fn new(seed: u64) -> (d: MincutDriver)
        ensures
            d.state() == seed,
    {
        MincutDriver { state: seed }
    }

    /// Advances the generator by one step and returns the high 32 bits of
    /// the new state.
    fn next_draw(&mut self) -> (d: u64)
        ensures
            final(self).state() == next_state(old(self).state()),
            d == draw_of(old(self).state()),
            d < 0x1_0000_0000u64,
    {
        let s1 = self.state.wrapping_mul(LCG_MULTIPLIER).wrapping_add(LCG_INCREMENT);
        self.state = s1;
        let d = s1 >> 32u64;
        proof {
            assert(s1 >> 32u64 == s1 / 0x1_0000_0000u64) by (bit_vector);
            assert(s1 >> 32u64 < 0x1_0000_0000u64) by (bit_vector);
            assert(s1 == next_state(old(self).state()));
        }
        d
    }

    /// Returns a number below `n`, drawn uniformly by rejection: 64-bit
    /// draws below `2^64 mod n` are refused, so every remainder is equally
    /// likely; after a bounded number of refusals the last draw is taken.
    pub fn next_index(&mut self, n: usize) -> (r: usize)
        requires
            n > 0,
        ensures
            (r as u64, final(self).state()) == sample(old(self).state(), n as u64, MAX_DRAWS as nat),
            r < n,
    {
        let n64 = n as u64;
        let threshold = 0u64.wrapping_sub(n64) % n64;
        let mut tries: u32 = MAX_DRAWS;
        loop
            invariant
                n64 == n as u64,
                n64 > 0,
                threshold as int == reject_below(n64),
                1 <= tries <= MAX_DRAWS,
                sample(self.state(), n64, tries as nat) == sample(old(self).state(), n64, MAX_DRAWS as nat),
            decreases tries,
        {
            let ghost s0 = self.state();
            let hi = self.next_draw();
            let lo = self.next_draw();
            let x = hi * 0x1_0000_0000u64 + lo;
            assert(x == wide_draw(s0));
            if x >= threshold || tries == 1 {
                proof {
                    assert(x % n64 < n64);
                }
                return (x % n64) as usize;
            }
            tries = tries - 1;
        }
    }
}

impl MincutDriver {
    /// One trial: contracts `g` on random draws until at most two vertices,
    /// or no edges, remain; returns the number of edge instances left, the
    /// trial's candidate cut size.
    pub fn contract(&mut self, g: &mut MultiGraph) -> (r: usize)
        requires
            old(g).wf(),
        ensures
            final(g).wf(),
            final(g).vertices().len() <= 2 || final(g).edges().len() == 0,
            final(g).vertices().subset_of(old(g).vertices()),
            final(g).edges().len() <= old(g).edges().len(),
            r == final(g).edges().len(),
            old(g).vertices().len() >= 2 ==> final(g).vertices().len() >= 2,
            old(g).vertices().len() >= 2 ==> bounds_some_cut(*old(g), r as nat),
            old(g).vertices().len() >= 2 && old(g).no_self_loops() ==> equals_some_cut(
                *old(g),
                r as nat,
            ),
    {
        let ghost g0 = *g;
        let ghost mut rep: Map<u32, u32> = Map::new(|x: u32| g0.vertices().contains(x), |x: u32| x);
        proof {
            assert forall|t: Set<u32>| #[trigger] g.cut_size(t) == g0.cut_size(lift(rep, t)) by {
                assert(lift(rep, t).subset_of(g0.vertices()));
                assert forall|e: (u32, u32)| g0.edges().to_multiset().count(e) > 0 implies crosses(
                    t,
                    e,
                ) == crosses(lift(rep, t), e) by {
                    assert(g0.mult(e) > 0);
                    MultiGraph::lemma_adjacency_mirrors_registry(g0, e.0, e.1);
                }
                assert(g0.edges().to_multiset().filter(crossing(t)) =~= g0.edges().to_multiset().filter(
                    crossing(lift(rep, t)),
                ));
            }
        }
        while g.vertex_count() > 2 && g.edge_count() > 0
            invariant
                g.wf(),
                g0 == *old(g),
                g.vertices().subset_of(old(g).vertices()),
                g.edges().len() <= old(g).edges().len(),
                rep.dom() == g0.vertices(),
                forall|x: u32| rep.contains_key(x) ==> g.vertices().contains(#[trigger] rep[x]),
                forall|v: u32| #[trigger] g.vertices().contains(v) ==> rep.contains_key(v) && rep[v] == v,
                forall|t: Set<u32>| #[trigger] g.cut_size(t) == g0.cut_size(lift(rep, t)),
                g0.vertices().len() >= 2 ==> g.vertices().len() >= 2,
                g0.no_self_loops() ==> g.no_self_loops(),
            decreases g.vertices().len() + g.edges().len(),
        {
            let n = g.edge_count();
            let i = self.next_index(n);
            let k = g.edge_at(i);
            let ghost before = *g;
            contract_step(g, i);
            proof {
                if k.0 != k.1 {
                    let keep = k.0;
                    let merge = k.1;
                    let rep0 = rep;
                    rep = Map::new(
                        |x: u32| rep0.contains_key(x),
                        |x: u32| if rep0[x] == merge { keep } else { rep0[x] },
                    );
                    assert(rep.dom() =~= g0.vertices());
                    assert forall|t: Set<u32>| #[trigger] g.cut_size(t) == g0.cut_size(lift(rep, t)) by {
                        let ts = if t.contains(keep) { t.insert(merge) } else { t.remove(merge) };
                        MultiGraph::lemma_cut_ignores_absent_vertex(*g, t, merge);
                        assert(g.cut_size(ts) == g.cut_size(t));
                        assert(ts.contains(keep) == ts.contains(merge));
                        assert(g.cut_size(ts) == before.cut_size(ts));
                        assert(before.cut_size(ts) == g0.cut_size(lift(rep0, ts)));
                        assert(lift(rep0, ts) =~= lift(rep, t));
                    }
                    if g0.no_self_loops() {
                        MultiGraph::lemma_contraction_keeps_no_self_loops(before, *g, keep, merge);
                    }
                } else {
                    assert forall|t: Set<u32>| #[trigger] g.cut_size(t) == g0.cut_size(lift(rep, t)) by {
                        assert(g.cut_size(t) == before.cut_size(t));
                    }
                }
            }
        }
        proof {
            if g0.vertices().len() >= 2 {
                MultiGraph::lemma_vertices_finite(*g);
                let vs = g.vertices();
                vstd::set::axiom_set_choose_len(vs);
                let a = vs.choose();
                vstd::set::axiom_set_remove_len(vs, a);
                vstd::set::axiom_set_choose_len(vs.remove(a));
                let b = vs.remove(a).choose();
                let s = lift(rep, set![a]);
                assert(s.contains(a));
                assert(g0.vertices().contains(b) && !s.contains(b));
                assert(is_cut(g0, s));
                MultiGraph::lemma_cut_le_edges(*g, set![a]);
                assert(g.cut_size(set![a]) == g0.cut_size(s));
                assert(bounds_some_cut(g0, g.edges().len()));
                if g0.no_self_loops() {
                    if g.edges().len() > 0 {
                        let rest = vs.remove(a).remove(b);
                        vstd::set::axiom_set_remove_len(vs.remove(a), b);
                        vstd::set_lib::lemma_set_empty_equivalency_len(rest);
                        assert forall|k: (u32, u32)| #[trigger] g.mult(k) > 0 implies crosses(set![a], k) by {
                            MultiGraph::lemma_adjacency_mirrors_registry(*g, k.0, k.1);
                            if k.0 == k.1 {
                                assert(g.mult((k.0, k.0)) == 0);
                            }
                            assert(!rest.contains(k.0));
                            assert(!rest.contains(k.1));
                        }
                        MultiGraph::lemma_cut_all_edges(*g, set![a]);
                    }
                    assert(equals_some_cut(g0, g.edges().len()));
                }
            }
        }
        g.edge_count()
    }

    /// Runs `trials` independent trials, each on its own copy of `graph`,
    /// and returns their candidate cut sizes in order.
    pub fn run_trials(&mut self, graph: &MultiGraph, trials: u32) -> (r: Vec<usize>)
        requires
            graph.wf(),
        ensures
            r@.len() == trials,
            forall|i: int| 0 <= i < r@.len() ==> trial_result_ok(*graph, #[trigger] r@[i]),
    {
        let mut results: Vec<usize> = Vec::new();
        let mut t: u32 = 0;
        while t < trials
            invariant
                graph.wf(),
                t <= trials,
                results@.len() == t,
                forall|i: int| 0 <= i < results@.len() ==> trial_result_ok(*graph, #[trigger] results@[i]),
            decreases trials - t,
        {
            let mut copy = graph.duplicate();
            let ghost copy0 = copy;
            let c = self.contract(&mut copy);
            proof {
                if graph.vertices().len() >= 2 {
                    let s = choose|s: Set<u32>| is_cut(copy0, s) && c as nat >= #[trigger] copy0.cut_size(s);
                    assert(is_cut(*graph, s) && c as nat >= graph.cut_size(s));
                    if graph.no_self_loops() {
                        assert forall|v: u32| #[trigger] copy0.mult((v, v)) == 0 by {
                            assert(graph.mult((v, v)) == 0);
                        }
                        let s2 = choose|s: Set<u32>| is_cut(copy0, s) && c as nat == #[trigger] copy0.cut_size(s);
                        assert(is_cut(*graph, s2) && c as nat == graph.cut_size(s2));
                    }
                }
                assert(trial_result_ok(*graph, c));
            }
            let ghost prev = results@;
            results.push(c);
            proof {
                assert forall|i: int| 0 <= i < results@.len() implies trial_result_ok(*graph, #[trigger] results@[i]) by {
                    if i < prev.len() {
                        assert(results@[i] == prev[i]);
                    }
                }
            }
            t = t + 1;
        }
        results
    }

    /// The smallest candidate cut size over `trials` trials, or `None` when
    /// `trials` is zero.
    pub fn run(&mut self, graph: &MultiGraph, trials: u32) -> (r: Option<usize>)
        requires
            graph.wf(),
        ensures
            r is None <==> trials == 0,
            exists|rs: Seq<usize>|
                {
                    &&& rs.len() == trials
                    &&& forall|i: int| 0 <= i < rs.len() ==> trial_result_ok(*graph, #[trigger] rs[i])
                    &&& trials > 0 ==> r == Some(seq_min(rs))
                },
            r matches Some(c) ==> c <= graph.edges().len(),
            graph.vertices().len() >= 2 ==> (r matches Some(c) ==> bounds_some_cut(*graph, c as nat)),
    {
        let results = self.run_trials(graph, trials);
        let r = minimum(&results);
        proof {
            if trials > 0 {
                lemma_seq_min(results@);
                let j = choose|j: int| 0 <= j < results@.len() && results@[j] == seq_min(results@);
                assert(trial_result_ok(*graph, results@[j]));
            }
        }
        r
    }
}

/// A result that bounds some cut of the graph from above is never below
/// the size of a minimum cut: the driver never under-counts.
pub proof fn lemma_never_undercounts(g: MultiGraph, c: nat, k: nat)
    requires
        bounds_some_cut(g, c),
        forall|s: Set<u32>| is_cut(g, s) ==> #[trigger] g.cut_size(s) >= k,
    ensures
        c >= k,
{
    let s = choose|s: Set<u32>| is_cut(g, s) && c >= #[trigger] g.cut_size(s);
}

} // verus!
