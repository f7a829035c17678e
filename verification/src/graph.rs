//! The rate graph: a directed graph of currencies whose edges carry exact
//! positive rational conversion rates, at most one live edge per ordered
//! pair. `upsert` writes a quoted rate together with its exact algebraic
//! inverse, atomically: both directions are stored or neither.

use vstd::prelude::*;
use crate::errors::EngineError;
use crate::price::Price;
use crate::symbol::str_eq;

verus! {

/// An edge by vertex index: one unit of vertex `from` converts into
/// `num/den` units of vertex `to`.
pub(crate) struct RawEdge {
    pub(crate) from: usize,
    pub(crate) to: usize,
    pub(crate) num: u64,
    pub(crate) den: u64,
}

/// A conversion edge as handed out by `snapshot_edges`.
#[derive(Clone, Debug, PartialEq, Eq)]
pub struct ConversionEdge {
    pub from: String,
    pub to: String,
    pub num: u64,
    pub den: u64,
}

pub struct RateGraph {
    pub(crate) names: Vec<String>,
    pub(crate) edges: Vec<RawEdge>,
}

impl RateGraph {
    /// Structural validity: currency names are distinct, every edge joins
    /// two distinct existing vertices with a positive rational rate, and
    /// no ordered pair carries two edges.
    pub closed spec fn wf(self) -> bool {
        &&& forall|i: int, j: int|
            0 <= i < j < self.names@.len() ==> self.names@[i]@ != self.names@[j]@
        &&& forall|k: int| 0 <= k < self.edges@.len() ==> #[trigger] self.edge_ok(k)
        &&& forall|k: int, l: int|
            0 <= k < l < self.edges@.len() ==> !(self.edges@[k].from == self.edges@[l].from
                && self.edges@[k].to == self.edges@[l].to)
    }

    pub(crate) open spec fn edge_ok(self, k: int) -> bool {
        &&& self.edges@[k].from < self.names@.len()
        &&& self.edges@[k].to < self.names@.len()
        &&& self.edges@[k].from != self.edges@[k].to
        &&& self.edges@[k].num >= 1
        &&& self.edges@[k].den >= 1
    }

    /// The ordered currency pair joined by edge `k`.
    pub(crate) open spec fn pair_at(self, k: int) -> (Seq<char>, Seq<char>) {
        (self.names@[self.edges@[k].from as int]@, self.names@[self.edges@[k].to as int]@)
    }

    /// Whether the graph holds a live edge from currency `a` to `b`.
    pub closed spec fn has_pair(self, a: Seq<char>, b: Seq<char>) -> bool {
        exists|k: int| 0 <= k < self.edges@.len() && #[trigger] self.pair_at(k) == (a, b)
    }

    /// The rate of the live edge from `a` to `b`, as the exact rational
    /// `num/den`, or `None` when there is no such edge.
    pub closed spec fn sym_rate(self, a: Seq<char>, b: Seq<char>) -> Option<(u64, u64)> {
        if self.has_pair(a, b) {
            let k = choose|k: int| 0 <= k < self.edges@.len() && #[trigger] self.pair_at(k) == (a, b);
            Some((self.edges@[k].num, self.edges@[k].den))
        } else {
            None
        }
    }

    /// Whether currency `a` is a vertex of the graph.
    pub closed spec fn has_vertex(self, a: Seq<char>) -> bool {
        exists|i: int| 0 <= i < self.names@.len() && #[trigger] self.names@[i]@ == a
    }

    pub closed spec fn spec_vertex_count(self) -> nat {
        self.names@.len()
    }

    pub closed spec fn spec_edge_count(self) -> nat {
        self.edges@.len()
    }

    /// The per-edge facts that well-formedness gives, for use outside
    /// this module.
    pub(crate) proof fn lemma_wf_props(self)
        requires
            self.wf(),
        ensures
            forall|k: int| 0 <= k < self.edges@.len() ==> #[trigger] self.edge_ok(k),
            self.spec_edge_count() == self.edges@.len(),
            self.spec_vertex_count() == self.names@.len(),
            forall|k: int, l: int|
                0 <= k < l < self.edges@.len() ==> !(self.edges@[k].from == self.edges@[l].from
                    && self.edges@[k].to == self.edges@[l].to),
    {
    }

    pub(crate) proof fn lemma_names_inj(self, x: int, y: int)
        requires
            self.wf(),
            0 <= x < self.names@.len(),
            0 <= y < self.names@.len(),
            self.names@[x]@ == self.names@[y]@,
        ensures
            x == y,
    {
        if x < y {
            assert(self.names@[x]@ != self.names@[y]@);
        } else if y < x {
            assert(self.names@[y]@ != self.names@[x]@);
        }
    }

    pub(crate) proof fn lemma_pair_unique(self, k: int, l: int)
        requires
            self.wf(),
            0 <= k < self.edges@.len(),
            0 <= l < self.edges@.len(),
            self.pair_at(k) == self.pair_at(l),
        ensures
            k == l,
    {
        assert(self.edge_ok(k));
        assert(self.edge_ok(l));
        self.lemma_names_inj(self.edges@[k].from as int, self.edges@[l].from as int);
        self.lemma_names_inj(self.edges@[k].to as int, self.edges@[l].to as int);
        if k < l {
            assert(!(self.edges@[k].from == self.edges@[l].from
                && self.edges@[k].to == self.edges@[l].to));
        } else if l < k {
            assert(!(self.edges@[l].from == self.edges@[k].from
                && self.edges@[l].to == self.edges@[k].to));
        }
    }

    /// A live rate's witnessing edge index, for reasoning outside this
    /// module: `sym_rate` is `Some` exactly of the edge at that index.
    pub(crate) proof fn lemma_pair_witness(self, a: Seq<char>, b: Seq<char>) -> (k: int)
        requires
            self.wf(),
            self.sym_rate(a, b) is Some,
        ensures
            0 <= k < self.edges@.len(),
            self.pair_at(k) == (a, b),
            self.sym_rate(a, b) == Some((self.edges@[k as int].num, self.edges@[k as int].den)),
    {
        let k = choose|k: int| 0 <= k < self.edges@.len() && #[trigger] self.pair_at(k) == (a, b);
        self.lemma_rate_at(k);
        k
    }

    /// Any edge index is the unique witness for its pair's rate.
    pub(crate) proof fn lemma_rate_at(self, k: int)
        requires
            self.wf(),
            0 <= k < self.edges@.len(),
        ensures
            self.sym_rate(self.pair_at(k).0, self.pair_at(k).1)
                == Some((self.edges@[k].num, self.edges@[k].den)),
    {
        let (a, b) = self.pair_at(k);
        assert(self.has_pair(a, b));
        let l = choose|l: int| 0 <= l < self.edges@.len() && #[trigger] self.pair_at(l) == (a, b);
        self.lemma_pair_unique(k, l);
    }

    /// An empty graph: no vertices, no edges.
    pub fn new() -> (g: RateGraph)
        ensures
            g.wf(),
            g.spec_vertex_count() == 0,
            g.spec_edge_count() == 0,
            forall|a: Seq<char>, b: Seq<char>| #[trigger] g.sym_rate(a, b) is None,
            forall|a: Seq<char>| !#[trigger] g.has_vertex(a),
    {
        let g = RateGraph { names: Vec::new(), edges: Vec::new() };
        proof {
            assert forall|a: Seq<char>, b: Seq<char>| #[trigger] g.sym_rate(a, b) is None by {
                assert(!g.has_pair(a, b));
            }
        }
        g
    }

    pub fn vertex_count(&self) -> (r: usize)
        ensures
            r == self.spec_vertex_count(),
    {
        self.names.len()
    }

    pub fn edge_count(&self) -> (r: usize)
        ensures
            r == self.spec_edge_count(),
    {
        self.edges.len()
    }

    /// The index of currency `a` among the vertices, if present.
    fn find_name(&self, a: &str) -> (r: Option<usize>)
        ensures
            match r {
                Some(i) => i < self.names@.len() && self.names@[i as int]@ == a@,
                None => !self.has_vertex(a@),
            },
    {
        let mut i: usize = 0;
        while i < self.names.len()
            invariant
                i <= self.names@.len(),
                forall|j: int| 0 <= j < i ==> self.names@[j]@ != a@,
            decreases self.names@.len() - i,
        {
            if str_eq(self.names[i].as_str(), a) {
                return Some(i);
            }
            i = i + 1;
        }
        None
    }

    /// The index of the live edge for the ordered index pair, if any.
    pub(crate) fn find_edge(&self, fi: usize, ti: usize) -> (r: Option<usize>)
        ensures
            match r {
                Some(k) => k < self.edges@.len() && self.edges@[k as int].from == fi
                    && self.edges@[k as int].to == ti,
                None => forall|k: int|
                    0 <= k < self.edges@.len() ==> !(self.edges@[k].from == fi
                        && self.edges@[k].to == ti),
            },
    {
        let mut k: usize = 0;
        while k < self.edges.len()
            invariant
                k <= self.edges@.len(),
                forall|j: int| 0 <= j < k ==> !(self.edges@[j].from == fi && self.edges@[j].to == ti),
            decreases self.edges@.len() - k,
        {
            if self.edges[k].from == fi && self.edges[k].to == ti {
                return Some(k);
            }
            k = k + 1;
        }
        None
    }

    /// Adds currency `a` as a vertex if it is new, and returns its index.
    fn ensure_vertex(&mut self, a: &str) -> (i: usize)
        requires
            old(self).wf(),
        ensures
            final(self).wf(),
            final(self).edges == old(self).edges,
            i < final(self).names@.len(),
            final(self).names@[i as int]@ == a@,
            old(self).names@.len() <= final(self).names@.len(),
            forall|j: int| 0 <= j < old(self).names@.len() ==> final(self).names@[j] == old(self).names@[j],
            forall|b: Seq<char>|
                #[trigger] final(self).has_vertex(b) <==> old(self).has_vertex(b) || b == a@,
            forall|b: Seq<char>, c: Seq<char>|
                #[trigger] final(self).sym_rate(b, c) == old(self).sym_rate(b, c),
            final(self).spec_vertex_count()
                == old(self).spec_vertex_count() + (if old(self).has_vertex(a@) { 0int } else { 1int }),
    {
        let r = self.find_name(a);
        match r {
            Some(i) => {
                proof {
                    lemma_same_pairs(*old(self), *self);
                }
                i
            },
            None => {
                let i = self.names.len();
                self.names.push(a.to_owned());
                proof {
                    assert forall|k: int| 0 <= k < self.edges@.len() implies #[trigger] self.edge_ok(k) by {
                        assert(old(self).edge_ok(k));
                    }
                    assert forall|b: Seq<char>|
                        #[trigger] self.has_vertex(b) <==> old(self).has_vertex(b) || b == a@ by {
                        if self.has_vertex(b) {
                            let j = choose|j: int|
                                0 <= j < self.names@.len() && #[trigger] self.names@[j]@ == b;
                            if j < old(self).names@.len() {
                                assert(old(self).has_vertex(b));
                            }
                        }
                        if old(self).has_vertex(b) {
                            let j = choose|j: int|
                                0 <= j < old(self).names@.len() && #[trigger] old(self).names@[j]@ == b;
                            assert(self.names@[j]@ == b);
                        }
                        if b == a@ {
                            assert(self.names@[i as int]@ == b);
                        }
                    }
                    lemma_same_pairs(*old(self), *self);
                }
                i
            },
        }
    }

    /// Writes rate `num/den` on the ordered pair `(fi, ti)`, overwriting a
    /// live edge or appending a new one; no other pair changes.
    fn set_edge(&mut self, fi: usize, ti: usize, num: u64, den: u64)
        requires
            old(self).wf(),
            fi < old(self).names@.len(),
            ti < old(self).names@.len(),
            fi != ti,
            num >= 1,
            den >= 1,
        ensures
            final(self).wf(),
            final(self).names == old(self).names,
            final(self).sym_rate(old(self).names@[fi as int]@, old(self).names@[ti as int]@)
                == Some((num, den)),
            forall|a: Seq<char>, b: Seq<char>|
                !(a == old(self).names@[fi as int]@ && b == old(self).names@[ti as int]@)
                    ==> #[trigger] final(self).sym_rate(a, b) == old(self).sym_rate(a, b),
            forall|b: Seq<char>| #[trigger] final(self).has_vertex(b) == old(self).has_vertex(b),
            final(self).spec_edge_count() == old(self).spec_edge_count()
                + (if old(self).sym_rate(old(self).names@[fi as int]@, old(self).names@[ti as int]@) is Some { 0int } else { 1int }),
    {
        let ghost ap = old(self).names@[fi as int]@;
        let ghost bp = old(self).names@[ti as int]@;
        let found = self.find_edge(fi, ti);
        match found {
            Some(k) => {
                proof {
                    old(self).lemma_rate_at(k as int);
                }
                let e = RawEdge { from: fi, to: ti, num, den };
                self.edges.set(k, e);
                proof {
                    assert forall|j: int| 0 <= j < self.edges@.len() implies #[trigger] self.edge_ok(j) by {
                        assert(old(self).edge_ok(j));
                    }
                    assert(self.wf());
                    assert(self.pair_at(k as int) == (ap, bp));
                    self.lemma_rate_at(k as int);
                    assert forall|a: Seq<char>, b: Seq<char>|
                        !(a == ap && b == bp)
                            implies #[trigger] self.sym_rate(a, b) == old(self).sym_rate(a, b) by {
                        assert forall|j: int| 0 <= j < self.edges@.len() implies
                            self.pair_at(j) == old(self).pair_at(j) by {}
                        if self.has_pair(a, b) {
                            let j = choose|j: int|
                                0 <= j < self.edges@.len() && #[trigger] self.pair_at(j) == (a, b);
                            assert(j != k as int);
                            assert(old(self).pair_at(j) == (a, b));
                            self.lemma_rate_at(j);
                            old(self).lemma_rate_at(j);
                        } else if old(self).has_pair(a, b) {
                            let j = choose|j: int|
                                0 <= j < old(self).edges@.len() && #[trigger] old(self).pair_at(j) == (a, b);
                            assert(self.pair_at(j) == (a, b));
                            assert(self.has_pair(a, b));
                        }
                    }
                }
            },
            None => {
                proof {
                    if old(self).has_pair(ap, bp) {
                        let j = choose|j: int|
                            0 <= j < old(self).edges@.len() && #[trigger] old(self).pair_at(j) == (ap, bp);
                        assert(old(self).edge_ok(j));
                        old(self).lemma_names_inj(old(self).edges@[j].from as int, fi as int);
                        old(self).lemma_names_inj(old(self).edges@[j].to as int, ti as int);
                    }
                }
                let ghost m = self.edges@.len() as int;
                let e = RawEdge { from: fi, to: ti, num, den };
                self.edges.push(e);
                proof {
                    assert forall|j: int| 0 <= j < self.edges@.len() implies #[trigger] self.edge_ok(j) by {
                        if j < m {
                            assert(old(self).edge_ok(j));
                        }
                    }
                    assert forall|k: int, l: int|
                        0 <= k < l < self.edges@.len() implies !(self.edges@[k].from == self.edges@[l].from
                            && self.edges@[k].to == self.edges@[l].to) by {
                        if l < m {
                        } else {
                            assert(l == m);
                            assert(!(self.edges@[k].from == fi && self.edges@[k].to == ti));
                        }
                    }
                    assert(self.wf());
                    assert(self.pair_at(m) == (ap, bp));
                    self.lemma_rate_at(m);
                    assert forall|a: Seq<char>, b: Seq<char>|
                        !(a == ap && b == bp)
                            implies #[trigger] self.sym_rate(a, b) == old(self).sym_rate(a, b) by {
                        if self.has_pair(a, b) {
                            let j = choose|j: int|
                                0 <= j < self.edges@.len() && #[trigger] self.pair_at(j) == (a, b);
                            assert(j != m);
                            assert(old(self).pair_at(j) == (a, b));
                            self.lemma_rate_at(j);
                            old(self).lemma_rate_at(j);
                        } else if old(self).has_pair(a, b) {
                            let j = choose|j: int|
                                0 <= j < old(self).edges@.len() && #[trigger] old(self).pair_at(j) == (a, b);
                            assert(self.pair_at(j) == (a, b));
                            assert(self.has_pair(a, b));
                        }
                    }
                    assert(!old(self).has_pair(ap, bp));
                }
            },
        }
    }

    /// Inserts or overwrites the conversion edge `from -> to` at rate
    /// `num/den` together with its exact inverse `to -> from` at `den/num`;
    /// rejects a negative, zero, or non-finite rate with `InvalidRate`,
    /// leaving the graph untouched.
    pub fn upsert(&mut self, from: &str, to: &str, rate: Price) -> (r: Result<(), EngineError>)
        requires
            old(self).wf(),
            from@ != to@,
        ensures
            final(self).wf(),
            match r {
                Err(e) => {
                    &&& e == EngineError::InvalidRate
                    &&& (rate.neg || rate.num == 0 || rate.den == 0)
                    &&& *final(self) == *old(self)
                },
                Ok(()) => {
                    &&& !rate.neg && rate.num >= 1 && rate.den >= 1
                    &&& final(self).sym_rate(from@, to@) == Some((rate.num, rate.den))
                    &&& final(self).sym_rate(to@, from@) == Some((rate.den, rate.num))
                    &&& forall|a: Seq<char>, b: Seq<char>|
                        !(a == from@ && b == to@) && !(a == to@ && b == from@)
                            ==> #[trigger] final(self).sym_rate(a, b) == old(self).sym_rate(a, b)
                    &&& forall|a: Seq<char>|
                        #[trigger] final(self).has_vertex(a) <==> old(self).has_vertex(a) || a == from@ || a == to@
                    &&& final(self).spec_edge_count() == old(self).spec_edge_count()
                        + (if old(self).sym_rate(from@, to@) is Some { 0int } else { 1int })
                        + (if old(self).sym_rate(to@, from@) is Some { 0int } else { 1int })
                    &&& final(self).spec_vertex_count() == old(self).spec_vertex_count()
                        + (if old(self).has_vertex(from@) { 0int } else { 1int })
                        + (if old(self).has_vertex(to@) { 0int } else { 1int })
                },
            },
    {
        if rate.neg || rate.num == 0 || rate.den == 0 {
            return Err(EngineError::InvalidRate);
        }
        let fi = self.ensure_vertex(from);
        let ti = self.ensure_vertex(to);
        proof {
            if fi == ti {
                self.lemma_names_inj(fi as int, ti as int);
            }
            assert(fi != ti);
        }
        self.set_edge(fi, ti, rate.num, rate.den);
        self.set_edge(ti, fi, rate.den, rate.num);
        Ok(())
    }

    /// A copy of the live edge set, for callers that inspect the graph;
    /// every returned edge is live and every live edge is returned.
    pub fn snapshot_edges(&self) -> (r: Vec<ConversionEdge>)
        requires
            self.wf(),
        ensures
            r@.len() == self.spec_edge_count(),
            forall|k: int| 0 <= k < r@.len()
                ==> #[trigger] self.sym_rate(r@[k].from@, r@[k].to@) == Some((r@[k].num, r@[k].den)),
            forall|a: Seq<char>, b: Seq<char>| #[trigger] self.sym_rate(a, b) is Some
                ==> exists|k: int| 0 <= k < r@.len() && (#[trigger] r@[k].from@) == a && r@[k].to@ == b,
    {
        let mut r: Vec<ConversionEdge> = Vec::new();
        let mut k: usize = 0;
        while k < self.edges.len()
            invariant
                self.wf(),
                k <= self.edges@.len(),
                r@.len() == k,
                forall|j: int| 0 <= j < k
                    ==> (#[trigger] r@[j]).from@ == self.pair_at(j).0
                        && r@[j].to@ == self.pair_at(j).1
                        && r@[j].num == self.edges@[j].num && r@[j].den == self.edges@[j].den,
            decreases self.edges@.len() - k,
        {
            proof {
                assert(self.edge_ok(k as int));
            }
            let e = &self.edges[k];
            r.push(ConversionEdge {
                from: self.names[e.from].clone(),
                to: self.names[e.to].clone(),
                num: e.num,
                den: e.den,
            });
            proof {
                assert(r@[k as int].from@ == self.pair_at(k as int).0);
                assert(r@[k as int].to@ == self.pair_at(k as int).1);
            }
            k = k + 1;
        }
        proof {
            assert forall|j: int| 0 <= j < r@.len()
                implies #[trigger] self.sym_rate(r@[j].from@, r@[j].to@) == Some((r@[j].num, r@[j].den)) by {
                self.lemma_rate_at(j);
            }
            assert forall|a: Seq<char>, b: Seq<char>| #[trigger] self.sym_rate(a, b) is Some
                implies exists|j: int| 0 <= j < r@.len() && (#[trigger] r@[j].from@) == a && r@[j].to@ == b by {
                let j = choose|j: int|
                    0 <= j < self.edges@.len() && #[trigger] self.pair_at(j) == (a, b);
                assert(r@[j].from@ == a && r@[j].to@ == b);
            }
        }
        r
    }

    /// The live rate from `from` to `to`, as `(num, den)`, if any.
    pub fn rate_of(&self, from: &str, to: &str) -> (r: Option<(u64, u64)>)
        requires
            self.wf(),
        ensures
            r == self.sym_rate(from@, to@),
    {
        let fi = match self.find_name(from) {
            Some(i) => i,
            None => {
                proof {
                    lemma_no_vertex_no_pair(*self, from@, to@);
                }
                return None;
            },
        };
        let ti = match self.find_name(to) {
            Some(i) => i,
            None => {
                proof {
                    lemma_no_vertex_no_pair_to(*self, from@, to@);
                }
                return None;
            },
        };
        match self.find_edge(fi, ti) {
            Some(k) => {
                proof {
                    self.lemma_rate_at(k as int);
                }
                Some((self.edges[k].num, self.edges[k].den))
            },
            None => {
                proof {
                    if self.has_pair(from@, to@) {
                        let j = choose|j: int|
                            0 <= j < self.edges@.len() && #[trigger] self.pair_at(j) == (from@, to@);
                        assert(self.edge_ok(j));
                        self.lemma_names_inj(self.edges@[j].from as int, fi as int);
                        self.lemma_names_inj(self.edges@[j].to as int, ti as int);
                    }
                }
                None
            },
        }
    }
}

/// Two graphs with equal names (on the old prefix) and equal edges agree on
/// every pair and rate.
proof fn lemma_same_pairs(g1: RateGraph, g2: RateGraph)
    requires
        g1.wf(),
        g1.edges == g2.edges,
        g1.names@.len() <= g2.names@.len(),
        forall|j: int| 0 <= j < g1.names@.len() ==> g2.names@[j] == g1.names@[j],
    ensures
        forall|a: Seq<char>, b: Seq<char>| #[trigger] g2.sym_rate(a, b) == g1.sym_rate(a, b),
{
    assert forall|k: int| 0 <= k < g1.edges@.len() implies g2.pair_at(k) == g1.pair_at(k) by {
        assert(g1.edge_ok(k));
    }
    assert forall|a: Seq<char>, b: Seq<char>| #[trigger] g2.sym_rate(a, b) == g1.sym_rate(a, b) by {
        if g1.has_pair(a, b) {
            let k = choose|k: int| 0 <= k < g1.edges@.len() && #[trigger] g1.pair_at(k) == (a, b);
            assert(g2.pair_at(k) == (a, b));
            assert(g2.has_pair(a, b));
            let l = choose|l: int| 0 <= l < g2.edges@.len() && #[trigger] g2.pair_at(l) == (a, b);
            assert(g1.pair_at(l) == (a, b));
            g1.lemma_pair_unique(k, l);
            g1.lemma_rate_at(k);
        } else if g2.has_pair(a, b) {
            let k = choose|k: int| 0 <= k < g2.edges@.len() && #[trigger] g2.pair_at(k) == (a, b);
            assert(g1.pair_at(k) == (a, b));
            assert(g1.has_pair(a, b));
        }
    }
}

/// Law: a live edge's endpoints are vertices of the graph, so a pair whose
/// both directions are already live adds no vertex when upserted again.
pub proof fn lemma_live_pair_vertices(g: RateGraph, a: Seq<char>, b: Seq<char>)
    requires
        g.wf(),
        g.sym_rate(a, b) is Some,
    ensures
        g.has_vertex(a),
        g.has_vertex(b),
{
    if !g.has_vertex(a) {
        lemma_no_vertex_no_pair(g, a, b);
    }
    if !g.has_vertex(b) {
        lemma_no_vertex_no_pair_to(g, a, b);
    }
}

proof fn lemma_no_vertex_no_pair(g: RateGraph, a: Seq<char>, b: Seq<char>)
    requires
        g.wf(),
        !g.has_vertex(a),
    ensures
        g.sym_rate(a, b) is None,
{
    if g.has_pair(a, b) {
        let k = choose|k: int| 0 <= k < g.edges@.len() && #[trigger] g.pair_at(k) == (a, b);
        assert(g.edge_ok(k));
        assert(g.names@[g.edges@[k].from as int]@ == a);
        assert(g.has_vertex(a));
    }
}

proof fn lemma_no_vertex_no_pair_to(g: RateGraph, a: Seq<char>, b: Seq<char>)
    requires
        g.wf(),
        !g.has_vertex(b),
    ensures
        g.sym_rate(a, b) is None,
{
    if g.has_pair(a, b) {
        let k = choose|k: int| 0 <= k < g.edges@.len() && #[trigger] g.pair_at(k) == (a, b);
        assert(g.edge_ok(k));
        assert(g.names@[g.edges@[k].to as int]@ == b);
        assert(g.has_vertex(b));
    }
}

} // verus!
