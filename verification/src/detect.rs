//! Negative-cycle detection over the rate graph.
//!
//! A conversion cycle is profitable exactly when the product of its edge
//! rates exceeds one. The search runs Bellman-Ford from a virtual source
//! (every distance starts at zero) over fixed-point approximations of the
//! edges' logarithmic weights; an edge that still relaxes after all rounds
//! points into a candidate cycle, which is reconstructed by a bounded walk
//! over the predecessor edges. The approximate weights only steer the
//! search: a candidate is reported only after an exact integer product
//! comparison, and the reported cycle's profitability is proved from that
//! comparison alone.

use vstd::prelude::*;
use vstd::arithmetic::div_mod::lemma_fundamental_div_mod;
use vstd::arithmetic::mul::lemma_mul_inequality;
use vstd::arithmetic::power2::pow2;
use vstd::arithmetic::power2::lemma2_to64;
use crate::graph::RateGraph;
use crate::graph::RawEdge;
use crate::symbol::code_views;

verus! {

/// One concrete arbitrage opportunity: currencies in conversion order,
/// first and last equal.
#[derive(Clone, Debug, PartialEq, Eq)]
pub struct ArbitrageCycle {
    pub currencies: Vec<String>,
}

/// The outcome of one detection pass.
#[derive(Clone, Debug, PartialEq, Eq)]
pub enum DetectionResult {
    Arbitrage(ArbitrageCycle),
    NoArbitrage,
}

/// Upper bound (exclusive) on the fixed-point log approximation, 2^39.
pub(crate) const LOG_BOUND: u64 = 0x8000000000;

/// Distances are clamped to this magnitude, 2^55, so that a relaxation
/// step can never overflow an `i64`.
pub(crate) const DIST_CAP: i64 = 0x80000000000000;

/// Every edge index names an edge between distinct vertices below `n`,
/// with a positive rational rate.
pub(crate) open spec fn edges_wf(edges: Seq<RawEdge>, n: nat) -> bool {
    forall|k: int| 0 <= k < edges.len()
        ==> (#[trigger] edges[k]).from < n && edges[k].to < n && edges[k].from != edges[k].to
            && edges[k].num >= 1 && edges[k].den >= 1
}

/// The edge indices of `c` form a path: each edge ends where the next begins.
pub(crate) open spec fn linked(edges: Seq<RawEdge>, c: Seq<usize>) -> bool {
    &&& forall|i: int| 0 <= i < c.len() ==> (#[trigger] c[i]) < edges.len()
    &&& forall|i: int| 0 <= i < c.len() - 1
        ==> edges[c[i] as int].to == edges[c[i + 1] as int].from
}

/// A non-empty linked path whose last edge returns to the first edge's tail.
pub(crate) open spec fn closed_chain(edges: Seq<RawEdge>, c: Seq<usize>) -> bool {
    &&& c.len() >= 1
    &&& linked(edges, c)
    &&& edges[c[c.len() - 1] as int].to == edges[c[0] as int].from
}

/// Product of the numerators of the edges listed in `c`.
pub(crate) open spec fn prod_num(edges: Seq<RawEdge>, c: Seq<usize>) -> nat
    decreases c.len(),
{
    if c.len() == 0 {
        1
    } else {
        (edges[c[0] as int].num as nat) * prod_num(edges, c.drop_first())
    }
}

/// Product of the denominators of the edges listed in `c`.
pub(crate) open spec fn prod_den(edges: Seq<RawEdge>, c: Seq<usize>) -> nat
    decreases c.len(),
{
    if c.len() == 0 {
        1
    } else {
        (edges[c[0] as int].den as nat) * prod_den(edges, c.drop_first())
    }
}

/// Every consecutive currency pair of `c` has a live edge in `g`.
pub open spec fn cycle_edges_live(g: RateGraph, c: Seq<Seq<char>>) -> bool {
    forall|i: int| 0 <= i < c.len() - 1 ==> (#[trigger] g.sym_rate(c[i], c[i + 1])) is Some
}

/// Product of the numerators of the live rates along the currency list `c`.
pub open spec fn cycle_num(g: RateGraph, c: Seq<Seq<char>>) -> nat
    decreases c.len(),
{
    if c.len() < 2 {
        1
    } else {
        (g.sym_rate(c[0], c[1])->Some_0.0 as nat) * cycle_num(g, c.drop_first())
    }
}

/// Product of the denominators of the live rates along the currency list `c`.
pub open spec fn cycle_den(g: RateGraph, c: Seq<Seq<char>>) -> nat
    decreases c.len(),
{
    if c.len() < 2 {
        1
    } else {
        (g.sym_rate(c[0], c[1])->Some_0.1 as nat) * cycle_den(g, c.drop_first())
    }
}

/// A currency list is a sound arbitrage report for `g`: it visits at least
/// three distinct currencies, it is a closed walk over live edges, and the
/// exact product of its rates exceeds one.
pub open spec fn sound_cycle(g: RateGraph, c: Seq<Seq<char>>) -> bool {
    &&& c.len() >= 3
    &&& c[0] == c[c.len() - 1]
    &&& exists|x: int, y: int, z: int|
        #![trigger c[x], c[y], c[z]]
        0 <= x < y < z < c.len() && c[x] != c[y] && c[x] != c[z] && c[y] != c[z]
    &&& cycle_edges_live(g, c)
    &&& cycle_num(g, c) > cycle_den(g, c)
}

/// Three live edges `a -> b -> c -> a` whose exact rate product exceeds
/// one and whose numerator and denominator products fit in 128 bits.
pub open spec fn profitable_triangle(g: RateGraph, a: Seq<char>, b: Seq<char>, c: Seq<char>) -> bool {
    &&& g.sym_rate(a, b) is Some
    &&& g.sym_rate(b, c) is Some
    &&& g.sym_rate(c, a) is Some
    &&& {
        let r1 = g.sym_rate(a, b)->Some_0;
        let r2 = g.sym_rate(b, c)->Some_0;
        let r3 = g.sym_rate(c, a)->Some_0;
        &&& (r1.0 as nat) * (r2.0 as nat) * (r3.0 as nat) > (r1.1 as nat) * (r2.1 as nat) * (r3.1 as nat)
        &&& (r1.0 as nat) * (r2.0 as nat) * (r3.0 as nat) <= u128::MAX
        &&& (r1.1 as nat) * (r2.1 as nat) * (r3.1 as nat) <= u128::MAX
    }
}

/// Whether the graph holds any profitable triangle with fitting products.
pub open spec fn some_profitable_triangle(g: RateGraph) -> bool {
    exists|a: Seq<char>, b: Seq<char>, c: Seq<char>| #[trigger] profitable_triangle(g, a, b, c)
}

/// The index-level shape of a profitable fitting triangle: edge `j` starts
/// where `i` ends, `k` closes the triangle back to `i`'s tail, and the
/// exact products compare and fit as in `profitable_triangle`.
pub(crate) open spec fn tri_profit_at(edges: Seq<RawEdge>, i: int, j: int, k: int) -> bool {
    &&& edges[j].from == edges[i].to
    &&& edges[k].from == edges[j].to
    &&& edges[k].to == edges[i].from
    &&& (edges[i].num as nat) * (edges[j].num as nat) * (edges[k].num as nat)
        > (edges[i].den as nat) * (edges[j].den as nat) * (edges[k].den as nat)
    &&& (edges[i].num as nat) * (edges[j].num as nat) * (edges[k].num as nat) <= u128::MAX
    &&& (edges[i].den as nat) * (edges[j].den as nat) * (edges[k].den as nat) <= u128::MAX
}

/// The chain visits at least three distinct vertices, witnessed by the
/// tail vertices of three of its edges.
pub(crate) open spec fn chain_froms_distinct3(edges: Seq<RawEdge>, c: Seq<usize>) -> bool {
    exists|x: int, y: int, z: int|
        #![trigger c[x], c[y], c[z]]
        0 <= x < y < z < c.len()
            && edges[c[x] as int].from != edges[c[y] as int].from
            && edges[c[x] as int].from != edges[c[z] as int].from
            && edges[c[y] as int].from != edges[c[z] as int].from
}

/// Law: a round trip over a quoted rate and its exact inverse multiplies a
/// balance by exactly one, so a pair written by a single upsert can never
/// by itself be a sound arbitrage report.
pub proof fn lemma_inverse_round_trip_even(g: RateGraph, a: Seq<char>, b: Seq<char>, n: u64, d: u64)
    requires
        g.sym_rate(a, b) == Some((n, d)),
        g.sym_rate(b, a) == Some((d, n)),
    ensures
        cycle_num(g, seq![a, b, a]) == cycle_den(g, seq![a, b, a]),
{
    let c = seq![a, b, a];
    assert(c.len() == 3 && c[0] == a && c[1] == b);
    let c2 = seq![b, a];
    assert(c2.len() == 2 && c2[0] == b && c2[1] == a);
    assert(c.drop_first() =~= c2);
    assert(c2.drop_first() =~= seq![a]);
    assert(cycle_num(g, seq![a]) == 1);
    assert(cycle_den(g, seq![a]) == 1);
    assert(cycle_num(g, c2) == d as nat * 1nat);
    assert(cycle_den(g, c2) == n as nat * 1nat);
    assert(cycle_num(g, c) == n as nat * (d as nat * 1nat));
    assert(cycle_den(g, c) == d as nat * (n as nat * 1nat));
    assert(n as int * (d as int * 1int) == d as int * (n as int * 1int)) by (nonlinear_arith);
}

/// A fixed-point approximation of the base-two logarithm of `x`, with 32
/// fractional bits. It only steers the cycle search; nothing relies on its
/// accuracy, only on its bound.
fn approx_log2(x: u64) -> (r: u64)
    requires
        x >= 1,
    ensures
        r < LOG_BOUND,
{
    let mut y: u64 = x;
    let mut p: u64 = 1;
    let mut acc: u64 = 0;
    let ghost mut k: nat = 0;
    proof {
        lemma2_to64();
    }
    while y >= 2
        invariant
            y >= 1,
            p >= 1,
            y as int * p as int <= x as int,
            (x as int) < (y as int + 1) * (p as int),
            p == pow2(k),
            acc == k * 0x100000000,
            k <= 63,
        decreases y,
    {
        proof {
            assert((y as int / 2) * (2 * p as int) <= y as int * p as int) by (nonlinear_arith);
            assert((x as int) < (y as int / 2 + 1) * (2 * p as int)) by (nonlinear_arith)
                requires
                    (x as int) < (y as int + 1) * (p as int),
                    y >= 2,
                    p >= 1,
            ;
            assert(2 * p as int == pow2(k + 1)) by {
                vstd::arithmetic::power2::lemma_pow2_unfold(k + 1);
            }
            if k + 1 > 63 {
                // then k == 63, so 2 * p == 2^64, yet y * p <= x < 2^64
                lemma2_to64();
                assert(pow2(k + 1) == 0x10000000000000000);
                assert(y as int * p as int >= 2 * p as int) by (nonlinear_arith)
                    requires
                        y >= 2,
                        p >= 1,
                ;
                assert(false);
            }
            assert(2 * (p as int) <= x as int) by (nonlinear_arith)
                requires
                    y >= 2,
                    p >= 1,
                    y as int * p as int <= x as int,
            ;
        }
        y = y / 2;
        p = p * 2;
        acc = acc + 0x100000000;
        proof {
            k = k + 1nat;
        }
    }
    // now p <= x < 2 * p; interpolate linearly between the two powers of two
    let q: u128 = (x as u128) * 0x100000000u128 / (p as u128);
    proof {
        assert(q >= 0x100000000) by (nonlinear_arith)
            requires
                q == (x as u128) as int * 0x100000000 / (p as u128) as int,
                p as int <= x as int,
                p >= 1,
        ;
        assert(q < 0x200000000) by (nonlinear_arith)
            requires
                q == (x as u128) as int * 0x100000000 / (p as u128) as int,
                (x as int) < 2 * (p as int),
                p >= 1,
        ;
    }
    acc + (q as u64 - 0x100000000)
}

/// Distances and predecessor edges after `n` rounds of relaxation over all
/// edges, starting from the virtual source (all distances zero). Every
/// recorded predecessor edge really ends at its vertex; distances stay
/// within `DIST_CAP`.
fn bellman_ford(n: usize, edges: &Vec<RawEdge>, ws: &Vec<i64>) -> (r: (Vec<i64>, Vec<Option<usize>>))
    requires
        edges_wf(edges@, n as nat),
        ws@.len() == edges@.len(),
        forall|j: int| 0 <= j < ws@.len() ==> -(LOG_BOUND as i64) <= #[trigger] ws@[j] <= LOG_BOUND as i64,
    ensures
        r.0@.len() == n,
        r.1@.len() == n,
        forall|v: int| 0 <= v < n ==> -DIST_CAP <= #[trigger] r.0@[v] <= DIST_CAP,
        forall|v: int| 0 <= v < n ==> match #[trigger] r.1@[v] {
            Some(e) => e < edges@.len() && edges@[e as int].to as int == v,
            None => true,
        },
{
    let m = edges.len();
    let mut dist: Vec<i64> = Vec::new();
    let mut pred: Vec<Option<usize>> = Vec::new();
    let mut i: usize = 0;
    while i < n
        invariant
            dist@.len() == i,
            pred@.len() == i,
            i <= n,
            forall|v: int| 0 <= v < i ==> #[trigger] dist@[v] == 0i64,
            forall|v: int| 0 <= v < i ==> #[trigger] pred@[v] is None,
        decreases n - i,
    {
        dist.push(0);
        pred.push(None);
        i = i + 1;
    }
    let mut round: usize = 0;
    while round < n
        invariant
            m == edges@.len(),
            dist@.len() == n,
            pred@.len() == n,
            edges_wf(edges@, n as nat),
            ws@.len() == edges@.len(),
            forall|j: int| 0 <= j < ws@.len() ==> -(LOG_BOUND as i64) <= #[trigger] ws@[j] <= LOG_BOUND as i64,
            forall|v: int| 0 <= v < n ==> -DIST_CAP <= #[trigger] dist@[v] <= DIST_CAP,
            forall|v: int| 0 <= v < n ==> match #[trigger] pred@[v] {
                Some(e) => e < edges@.len() && edges@[e as int].to as int == v,
                None => true,
            },
        decreases n - round,
    {
        let mut e: usize = 0;
        while e < m
            invariant
                m == edges@.len(),
                dist@.len() == n,
                pred@.len() == n,
                edges_wf(edges@, n as nat),
                ws@.len() == edges@.len(),
                forall|j: int| 0 <= j < ws@.len() ==> -(LOG_BOUND as i64) <= #[trigger] ws@[j] <= LOG_BOUND as i64,
                forall|v: int| 0 <= v < n ==> -DIST_CAP <= #[trigger] dist@[v] <= DIST_CAP,
                forall|v: int| 0 <= v < n ==> match #[trigger] pred@[v] {
                    Some(ei) => ei < edges@.len() && edges@[ei as int].to as int == v,
                    None => true,
                },
            decreases m - e,
        {
            proof {
                assert(edges@[e as int].from < n && edges@[e as int].to < n);
            }
            let u = edges[e].from;
            let v = edges[e].to;
            let nd = dist[u] + ws[e];
            if -DIST_CAP <= nd && nd <= DIST_CAP && nd < dist[v] {
                dist.set(v, nd);
                pred.set(v, Some(e));
            }
            e = e + 1;
        }
        round = round + 1;
    }
    (dist, pred)
}

/// The position of `x` in `v`, if present.
fn find_pos(v: &Vec<usize>, x: usize) -> (r: Option<usize>)
    ensures
        match r {
            Some(p) => p < v@.len() && v@[p as int] == x,
            None => forall|j: int| 0 <= j < v@.len() ==> v@[j] != x,
        },
{
    let mut j: usize = 0;
    while j < v.len()
        invariant
            j <= v@.len(),
            forall|t: int| 0 <= t < j ==> v@[t] != x,
        decreases v@.len() - j,
    {
        if v[j] == x {
            return Some(j);
        }
        j = j + 1;
    }
    None
}

/// Walks predecessor edges backward from `start` for at most `n` steps;
/// the first repeated vertex closes a cycle, returned as edge indices in
/// forward conversion order. `None` when the walk leaves the predecessor
/// record or no repeat appears within the bound.
fn walk_cycle(
    edges: &Vec<RawEdge>,
    pred: &Vec<Option<usize>>,
    n: usize,
    start: usize,
) -> (r: Option<Vec<usize>>)
    requires
        edges_wf(edges@, n as nat),
        pred@.len() == n,
        start < n,
        forall|v: int| 0 <= v < n ==> match #[trigger] pred@[v] {
            Some(e) => e < edges@.len() && edges@[e as int].to as int == v,
            None => true,
        },
    ensures
        match r {
            Some(c) => closed_chain(edges@, c@) && c@.len() >= 2,
            None => true,
        },
{
    let mut verts: Vec<usize> = Vec::new();
    verts.push(start);
    let mut path: Vec<usize> = Vec::new();
    let mut vcur = start;
    let mut steps: usize = 0;
    while steps < n
        invariant
            edges_wf(edges@, n as nat),
            pred@.len() == n,
            forall|v: int| 0 <= v < n ==> match #[trigger] pred@[v] {
                Some(e) => e < edges@.len() && edges@[e as int].to as int == v,
                None => true,
            },
            verts@.len() == path@.len() + 1,
            vcur == verts@[verts@.len() - 1],
            vcur < n,
            forall|t: int| 0 <= t < verts@.len() ==> (#[trigger] verts@[t]) < n,
            forall|t: int| 0 <= t < path@.len()
                ==> (#[trigger] path@[t]) < edges@.len()
                    && edges@[path@[t] as int].to == verts@[t]
                    && edges@[path@[t] as int].from == verts@[t + 1],
        decreases n - steps,
    {
        let pe = match pred[vcur] {
            Some(pe) => pe,
            None => {
                return None;
            },
        };
        let u = edges[pe].from;
        path.push(pe);
        let found = find_pos(&verts, u);
        match found {
            Some(pos) => {
                // the edges path[pos..] form the cycle, backward; reverse them
                let mut cyc: Vec<usize> = Vec::new();
                let mut t: usize = path.len();
                while t > pos
                    invariant
                        pos < verts@.len(),
                        verts@.len() == path@.len(),
                        pos <= t <= path@.len(),
                        cyc@.len() == path@.len() - t,
                        forall|i: int| 0 <= i < cyc@.len()
                            ==> #[trigger] cyc@[i] == path@[path@.len() - 1 - i],
                        forall|i: int| 0 <= i < path@.len()
                            ==> (#[trigger] path@[i]) < edges@.len(),
                    decreases t,
                {
                    t = t - 1;
                    cyc.push(path[t]);
                }
                proof {
                    let c = cyc@;
                    let p = path@;
                    let vs = verts@;
                    assert(c.len() == p.len() - pos);
                    assert(c.len() >= 1);
                    // links: edge c[i] is p[len - 1 - i]; its head is the
                    // vertex vs[len - 1 - i], the tail of p[len - 2 - i] = c[i + 1]
                    assert forall|i: int| 0 <= i < c.len() - 1 implies
                        edges@[c[i] as int].to == edges@[c[i + 1] as int].from by {
                        assert(c[i] == p[p.len() - 1 - i]);
                        assert(c[i + 1] == p[p.len() - 2 - i]);
                        if p.len() - 1 - i < p.len() - 1 {
                            assert(edges@[p[p.len() - 1 - i] as int].to == vs[p.len() - 1 - i]);
                            assert(edges@[p[p.len() - 2 - i] as int].from == vs[p.len() - 1 - i]);
                        } else {
                            // i == 0 and c[0] is the edge just pushed, ending at vcur
                            assert(edges@[p[p.len() - 1] as int].to == vs[p.len() - 1]);
                            assert(edges@[p[p.len() - 2] as int].from == vs[p.len() - 1]);
                        }
                    }
                    // closure: the last cycle edge is p[pos], ending at vs[pos] == u,
                    // and the first cycle edge is the just-pushed pe, starting at u
                    assert(c[c.len() - 1] == p[pos as int]);
                    assert(edges@[p[pos as int] as int].to == vs[pos as int]);
                    assert(edges@[c[c.len() - 1] as int].to == u);
                    assert(c[0] == p[p.len() - 1]);
                    assert(edges@[c[0] as int].from == u);
                    assert(closed_chain(edges@, c));
                    if c.len() == 1 {
                        assert(edges@[c[0] as int].to == edges@[c[0] as int].from);
                        assert(false);
                    }
                }
                return Some(cyc);
            },
            None => {
                verts.push(u);
                vcur = u;
            },
        }
        steps = steps + 1;
    }
    None
}

/// Exact profitability check: `true` only when the product of the cycle's
/// rate numerators strictly exceeds the product of its denominators. A
/// `false` may also mean the products grew past 128 bits.
fn check_profit(edges: &Vec<RawEdge>, cyc: &Vec<usize>) -> (r: bool)
    requires
        forall|i: int| 0 <= i < cyc@.len() ==> (#[trigger] cyc@[i]) < edges@.len(),
        forall|k: int| 0 <= k < edges@.len()
            ==> (#[trigger] edges@[k]).num >= 1 && edges@[k].den >= 1,
    ensures
        r ==> prod_num(edges@, cyc@) > prod_den(edges@, cyc@),
{
    let mut acc_n: u128 = 1;
    let mut acc_d: u128 = 1;
    let mut i: usize = 0;
    proof {
        assert(cyc@.subrange(0, cyc@.len() as int) =~= cyc@);
    }
    while i < cyc.len()
        invariant
            i <= cyc@.len(),
            forall|j: int| 0 <= j < cyc@.len() ==> (#[trigger] cyc@[j]) < edges@.len(),
            forall|k: int| 0 <= k < edges@.len()
                ==> (#[trigger] edges@[k]).num >= 1 && edges@[k].den >= 1,
            acc_n >= 1,
            acc_d >= 1,
            prod_num(edges@, cyc@) == acc_n * prod_num(edges@, cyc@.subrange(i as int, cyc@.len() as int)),
            prod_den(edges@, cyc@) == acc_d * prod_den(edges@, cyc@.subrange(i as int, cyc@.len() as int)),
        decreases cyc@.len() - i,
    {
        let ghost rest = cyc@.subrange(i as int, cyc@.len() as int);
        proof {
            assert(rest[0] == cyc@[i as int]);
            assert(rest.drop_first() =~= cyc@.subrange(i as int + 1, cyc@.len() as int));
        }
        let e = cyc[i];
        let en = edges[e].num as u128;
        let ed = edges[e].den as u128;
        if acc_n > u128::MAX / en || acc_d > u128::MAX / ed {
            return false;
        }
        proof {
            lemma_fundamental_div_mod(u128::MAX as int, en as int);
            lemma_mul_inequality(acc_n as int, (u128::MAX / en) as int, en as int);
            lemma_fundamental_div_mod(u128::MAX as int, ed as int);
            lemma_mul_inequality(acc_d as int, (u128::MAX / ed) as int, ed as int);
            assert(acc_n as int * en as int <= u128::MAX);
            assert(acc_d as int * ed as int <= u128::MAX);
            assert(acc_n as int * (en as int * prod_num(edges@, rest.drop_first()))
                == (acc_n as int * en as int) * prod_num(edges@, rest.drop_first())) by (nonlinear_arith);
            assert(acc_d as int * (ed as int * prod_den(edges@, rest.drop_first()))
                == (acc_d as int * ed as int) * prod_den(edges@, rest.drop_first())) by (nonlinear_arith);
        }
        proof {
            assert(acc_n as int * en as int >= 1) by (nonlinear_arith)
                requires
                    acc_n >= 1,
                    en >= 1,
            ;
            assert(acc_d as int * ed as int >= 1) by (nonlinear_arith)
                requires
                    acc_d >= 1,
                    ed >= 1,
            ;
        }
        acc_n = acc_n * en;
        acc_d = acc_d * ed;
        i = i + 1;
    }
    proof {
        assert(i == cyc@.len());
        assert(prod_num(edges@, cyc@)
            == acc_n * prod_num(edges@, cyc@.subrange(i as int, cyc@.len() as int)));
        assert(cyc@.subrange(cyc@.len() as int, cyc@.len() as int) =~= Seq::<usize>::empty());
        assert(prod_num(edges@, Seq::<usize>::empty()) == 1);
        assert(prod_den(edges@, Seq::<usize>::empty()) == 1);
        assert(cyc@.subrange(i as int, cyc@.len() as int) == Seq::<usize>::empty());
        assert(prod_num(edges@, cyc@.subrange(i as int, cyc@.len() as int)) == 1);
        assert(prod_num(edges@, cyc@) == acc_n as nat) by {
            assert(prod_num(edges@, cyc@)
                == acc_n * prod_num(edges@, cyc@.subrange(i as int, cyc@.len() as int)));
            assert(acc_n as int * 1int == acc_n as int) by (nonlinear_arith);
        }
        assert(prod_den(edges@, cyc@) == acc_d as nat) by {
            assert(prod_den(edges@, cyc@)
                == acc_d * prod_den(edges@, cyc@.subrange(i as int, cyc@.len() as int)));
            assert(prod_den(edges@, cyc@.subrange(i as int, cyc@.len() as int)) == 1);
            assert(acc_d as int * 1int == acc_d as int) by (nonlinear_arith);
        }
    }
    acc_n > acc_d
}

/// Whether the chain's tail vertices include three distinct ones; `true`
/// comes with the witnesses that `chain_froms_distinct3` asks for.
fn chain_three_distinct(edges: &Vec<RawEdge>, cyc: &Vec<usize>) -> (r: bool)
    requires
        cyc@.len() >= 1,
        forall|t: int| 0 <= t < cyc@.len() ==> (#[trigger] cyc@[t]) < edges@.len(),
    ensures
        r ==> chain_froms_distinct3(edges@, cyc@),
{
    let n = cyc.len();
    let f0 = edges[cyc[0]].from;
    let mut y: usize = 1;
    while y < n
        invariant
            n == cyc@.len(),
            1 <= y,
            f0 == edges@[cyc@[0] as int].from,
            forall|t: int| 0 <= t < cyc@.len() ==> (#[trigger] cyc@[t]) < edges@.len(),
        decreases n - y,
    {
        let fy = edges[cyc[y]].from;
        if fy != f0 {
            let mut z: usize = y + 1;
            while z < n
                invariant
                    n == cyc@.len(),
                    1 <= y < z,
                    f0 == edges@[cyc@[0] as int].from,
                    fy == edges@[cyc@[y as int] as int].from,
                    fy != f0,
                    forall|t: int| 0 <= t < cyc@.len() ==> (#[trigger] cyc@[t]) < edges@.len(),
                decreases n - z,
            {
                let fz = edges[cyc[z]].from;
                if fz != f0 && fz != fy {
                    proof {
                        assert(edges@[cyc@[0] as int].from != edges@[cyc@[y as int] as int].from
                            && edges@[cyc@[0] as int].from != edges@[cyc@[z as int] as int].from
                            && edges@[cyc@[y as int] as int].from != edges@[cyc@[z as int] as int].from);
                    }
                    return true;
                }
                z = z + 1;
            }
            return false;
        }
        y = y + 1;
    }
    false
}

/// If the exhaustive scan refuted every index triangle, no profitable
/// fitting triangle of currencies exists either.
proof fn lemma_no_triangles(g: RateGraph)
    requires
        g.wf(),
        forall|ii: int, jj: int, kk: int|
            0 <= ii < g.edges@.len() && 0 <= jj < g.edges@.len() && 0 <= kk < g.edges@.len()
                ==> !tri_profit_at(g.edges@, ii, jj, kk),
    ensures
        !some_profitable_triangle(g),
{
    if some_profitable_triangle(g) {
        let (a, b, c) = choose|a: Seq<char>, b: Seq<char>, c: Seq<char>|
            #[trigger] profitable_triangle(g, a, b, c);
        g.lemma_wf_props();
        let ii = g.lemma_pair_witness(a, b);
        let jj = g.lemma_pair_witness(b, c);
        let kk = g.lemma_pair_witness(c, a);
        assert(g.edge_ok(ii) && g.edge_ok(jj) && g.edge_ok(kk));
        g.lemma_names_inj(g.edges@[jj].from as int, g.edges@[ii].to as int);
        g.lemma_names_inj(g.edges@[kk].from as int, g.edges@[jj].to as int);
        g.lemma_names_inj(g.edges@[kk].to as int, g.edges@[ii].from as int);
        assert(tri_profit_at(g.edges@, ii, jj, kk));
        assert(false);
    }
}

/// Lifts a linked edge-index path to its currency names: each consecutive
/// pair of names has exactly that edge's rate live, and the products of the
/// named rates equal the products over the edge list.
proof fn lemma_lift_path(g: RateGraph, c: Seq<usize>, w: Seq<Seq<char>>)
    requires
        g.wf(),
        linked(g.edges@, c),
        c.len() >= 1,
        w.len() == c.len() + 1,
        forall|i: int| 0 <= i < c.len()
            ==> #[trigger] w[i] == g.names@[g.edges@[c[i] as int].from as int]@,
        w[c.len() as int] == g.names@[g.edges@[c[c.len() - 1] as int].to as int]@,
    ensures
        forall|i: int| 0 <= i < c.len()
            ==> #[trigger] g.sym_rate(w[i], w[i + 1])
                == Some((g.edges@[c[i] as int].num, g.edges@[c[i] as int].den)),
        cycle_num(g, w) == prod_num(g.edges@, c),
        cycle_den(g, w) == prod_den(g.edges@, c),
    decreases c.len(),
{
    g.lemma_wf_props();
    assert(g.edge_ok(c[0] as int));
    // the head pair is exactly edge c[0]
    assert(w[1] == g.names@[g.edges@[c[0] as int].to as int]@) by {
        if c.len() == 1 {
        } else {
            assert(w[1] == g.names@[g.edges@[c[1] as int].from as int]@);
            assert(g.edges@[c[0] as int].to == g.edges@[c[1] as int].from);
        }
    }
    assert(g.pair_at(c[0] as int) == (w[0], w[1]));
    g.lemma_rate_at(c[0] as int);
    if c.len() == 1 {
        assert(w.drop_first().len() == 1);
        assert(cycle_num(g, w.drop_first()) == 1);
        assert(cycle_den(g, w.drop_first()) == 1);
        assert(prod_num(g.edges@, c.drop_first()) == 1);
        assert(prod_den(g.edges@, c.drop_first()) == 1);
    } else {
        let c2 = c.drop_first();
        let w2 = w.drop_first();
        assert forall|i: int| 0 <= i < c2.len()
            implies #[trigger] w2[i] == g.names@[g.edges@[c2[i] as int].from as int]@ by {
            assert(c2[i] == c[i + 1]);
            assert(w2[i] == w[i + 1]);
        }
        assert(w2[c2.len() as int] == w[c.len() as int]);
        assert(c2[c2.len() - 1] == c[c.len() - 1]);
        lemma_lift_path(g, c2, w2);
        assert forall|i: int| 0 <= i < c.len()
            implies #[trigger] g.sym_rate(w[i], w[i + 1])
                == Some((g.edges@[c[i] as int].num, g.edges@[c[i] as int].den)) by {
            if i >= 1 {
                assert(g.sym_rate(w2[i - 1], w2[i]) == Some((
                    g.edges@[c2[i - 1] as int].num,
                    g.edges@[c2[i - 1] as int].den,
                )));
                assert(w2[i - 1] == w[i]);
                assert(w2[i] == w[i + 1]);
                assert(c2[i - 1] == c[i]);
            }
        }
    }
}

impl RateGraph {
    /// One detection pass over the current graph. A reported cycle is
    /// sound: its currencies are joined by live edges, it is closed, and
    /// the exact product of its conversion rates exceeds one, so following
    /// it multiplies a balance by more than one. `NoArbitrage` is complete
    /// over triangles: it is returned only when no three live edges form a
    /// profitable cycle whose exact products fit in 128 bits (longer or
    /// larger-product cycles are searched heuristically, with no promise).
    pub fn find_arbitrage(&self) -> (r: DetectionResult)
        requires
            self.wf(),
        ensures
            match r {
                DetectionResult::Arbitrage(cyc) => sound_cycle(*self, code_views(cyc.currencies@)),
                DetectionResult::NoArbitrage => !some_profitable_triangle(*self),
            },
            self.spec_edge_count() == 0 ==> r is NoArbitrage,
    {
        let n = self.names.len();
        let m = self.edges.len();
        proof {
            self.lemma_wf_props();
            assert forall|k: int| 0 <= k < self.edges@.len()
                implies (#[trigger] self.edges@[k]).from < n && self.edges@[k].to < n
                    && self.edges@[k].from != self.edges@[k].to
                    && self.edges@[k].num >= 1 && self.edges@[k].den >= 1 by {
                assert(self.edge_ok(k));
            }
        }
        // fixed-point log weights, one per edge
        let mut ws: Vec<i64> = Vec::new();
        let mut k: usize = 0;
        while k < m
            invariant
                m == self.edges@.len(),
                edges_wf(self.edges@, n as nat),
                ws@.len() == k,
                k <= m,
                forall|j: int| 0 <= j < k
                    ==> -(LOG_BOUND as i64) <= #[trigger] ws@[j] <= LOG_BOUND as i64,
            decreases m - k,
        {
            let wd = approx_log2(self.edges[k].den);
            let wn = approx_log2(self.edges[k].num);
            ws.push(wd as i64 - wn as i64);
            k = k + 1;
        }
        let (dist, pred) = bellman_ford(n, &self.edges, &ws);
        // an edge that still relaxes points into a candidate cycle
        let mut e: usize = 0;
        while e < m
            invariant
                m == self.edges@.len(),
                self.wf(),
                edges_wf(self.edges@, n as nat),
                ws@.len() == m,
                forall|j: int| 0 <= j < m
                    ==> -(LOG_BOUND as i64) <= #[trigger] ws@[j] <= LOG_BOUND as i64,
                dist@.len() == n,
                pred@.len() == n,
                forall|v: int| 0 <= v < n ==> -DIST_CAP <= #[trigger] dist@[v] <= DIST_CAP,
                forall|v: int| 0 <= v < n ==> match #[trigger] pred@[v] {
                    Some(ei) => ei < self.edges@.len() && self.edges@[ei as int].to as int == v,
                    None => true,
                },
            decreases m - e,
        {
            let u = self.edges[e].from;
            let v = self.edges[e].to;
            let nd = dist[u] + ws[e];
            if nd < dist[v] {
                let candidate = walk_cycle(&self.edges, &pred, n, v);
                if let Some(cyc) = candidate {
                    if check_profit(&self.edges, &cyc) && chain_three_distinct(&self.edges, &cyc) {
                        proof {
                            self.lemma_wf_props();
                        }
                        return DetectionResult::Arbitrage(self.cycle_names(&cyc));
                    }
                }
            }
            e = e + 1;
        }
        // the heuristic found nothing: decide triangles exactly
        match self.scan_triangles() {
            Some(cyc) => {
                proof {
                    self.lemma_wf_props();
                }
                DetectionResult::Arbitrage(self.cycle_names(&cyc))
            },
            None => {
                proof {
                    lemma_no_triangles(*self);
                }
                DetectionResult::NoArbitrage
            },
        }
    }

    /// An exhaustive exact pass over the triangles of the graph: `Some` is
    /// a profitable closed three-edge chain; `None` means no three live
    /// edges with fitting products compose to more than one.
    fn scan_triangles(&self) -> (r: Option<Vec<usize>>)
        requires
            self.wf(),
        ensures
            match r {
                Some(c) => {
                    &&& closed_chain(self.edges@, c@)
                    &&& c@.len() == 3
                    &&& prod_num(self.edges@, c@) > prod_den(self.edges@, c@)
                    &&& chain_froms_distinct3(self.edges@, c@)
                },
                None => forall|ii: int, jj: int, kk: int|
                    0 <= ii < self.edges@.len() && 0 <= jj < self.edges@.len()
                        && 0 <= kk < self.edges@.len()
                        ==> !tri_profit_at(self.edges@, ii, jj, kk),
            },
    {
        let m = self.edges.len();
        let mut i: usize = 0;
        while i < m
            invariant
                self.wf(),
                m == self.edges@.len(),
                i <= m,
                forall|ii: int, jj: int, kk: int| 0 <= ii < i && 0 <= jj < m && 0 <= kk < m
                    ==> !tri_profit_at(self.edges@, ii, jj, kk),
            decreases m - i,
        {
            let mut j: usize = 0;
            while j < m
                invariant
                    self.wf(),
                    m == self.edges@.len(),
                    i < m,
                    j <= m,
                    forall|ii: int, jj: int, kk: int| 0 <= ii < i && 0 <= jj < m && 0 <= kk < m
                        ==> !tri_profit_at(self.edges@, ii, jj, kk),
                    forall|jj: int, kk: int| 0 <= jj < j && 0 <= kk < m
                        ==> !tri_profit_at(self.edges@, i as int, jj, kk),
                decreases m - j,
            {
                proof {
                    self.lemma_wf_props();
                    assert(self.edge_ok(i as int));
                    assert(self.edge_ok(j as int));
                }
                if self.edges[j].from == self.edges[i].to {
                    match self.find_edge(self.edges[j].to, self.edges[i].from) {
                        Some(k) => {
                            proof {
                                assert(self.edge_ok(k as int));
                            }
                            let n1 = self.edges[i].num as u128;
                            let d1 = self.edges[i].den as u128;
                            let n2 = self.edges[j].num as u128;
                            let d2 = self.edges[j].den as u128;
                            let n3 = self.edges[k].num as u128;
                            let d3 = self.edges[k].den as u128;
                            proof {
                                assert(n1 * n2 <= u128::MAX && d1 * d2 <= u128::MAX) by (nonlinear_arith)
                                    requires
                                        n1 <= u64::MAX && n2 <= u64::MAX && d1 <= u64::MAX && d2 <= u64::MAX,
                                ;
                            }
                            let n12 = n1 * n2;
                            let d12 = d1 * d2;
                            if n12 <= u128::MAX / n3 && d12 <= u128::MAX / d3 {
                                proof {
                                    lemma_fundamental_div_mod(u128::MAX as int, n3 as int);
                                    lemma_mul_inequality(n12 as int, (u128::MAX / n3) as int, n3 as int);
                                    lemma_fundamental_div_mod(u128::MAX as int, d3 as int);
                                    lemma_mul_inequality(d12 as int, (u128::MAX / d3) as int, d3 as int);
                                    assert(n12 as int * n3 as int <= u128::MAX);
                                    assert(d12 as int * d3 as int <= u128::MAX);
                                }
                                let nt = n12 * n3;
                                let dt = d12 * d3;
                                if nt > dt {
                                    let c = vec![i, j, k];
                                    proof {
                                        assert(c@.len() == 3 && c@[0] == i && c@[1] == j && c@[2] == k);
                                        assert(closed_chain(self.edges@, c@));
                                        let e1 = self.edges@[i as int];
                                        let e2 = self.edges@[j as int];
                                        let e3 = self.edges@[k as int];
                                        assert(c@.drop_first() =~= seq![j, k]);
                                        assert(c@.drop_first().drop_first() =~= seq![k]);
                                        assert(seq![j, k][0] == j && seq![k][0] == k);
                                        assert(seq![j, k].drop_first() =~= seq![k]);
                                        assert(seq![k].drop_first() =~= Seq::<usize>::empty());
                                        assert(prod_num(self.edges@, Seq::<usize>::empty()) == 1);
                                        assert(prod_den(self.edges@, Seq::<usize>::empty()) == 1);
                                        assert(prod_num(self.edges@, seq![k]) == (e3.num as nat) * 1);
                                        assert(prod_den(self.edges@, seq![k]) == (e3.den as nat) * 1);
                                        assert(prod_num(self.edges@, seq![j, k])
                                            == (e2.num as nat) * ((e3.num as nat) * 1));
                                        assert(prod_den(self.edges@, seq![j, k])
                                            == (e2.den as nat) * ((e3.den as nat) * 1));
                                        assert(prod_num(self.edges@, c@)
                                            == (e1.num as nat) * ((e2.num as nat) * ((e3.num as nat) * 1)));
                                        assert(prod_den(self.edges@, c@)
                                            == (e1.den as nat) * ((e2.den as nat) * ((e3.den as nat) * 1)));
                                        assert((e1.num as int) * ((e2.num as int) * ((e3.num as int) * 1))
                                            == ((e1.num as int) * (e2.num as int)) * (e3.num as int)) by (nonlinear_arith);
                                        assert((e1.den as int) * ((e2.den as int) * ((e3.den as int) * 1))
                                            == ((e1.den as int) * (e2.den as int)) * (e3.den as int)) by (nonlinear_arith);
                                        // three distinct tail vertices, from the edges' own shape
                                        assert(e2.from != e1.from);
                                        assert(e3.from != e2.from);
                                        assert(e3.from != e1.from);
                                        assert(chain_froms_distinct3(self.edges@, c@)) by {
                                            assert(0 <= 0 < 1 < 2 < c@.len()
                                                && self.edges@[c@[0] as int].from != self.edges@[c@[1] as int].from
                                                && self.edges@[c@[0] as int].from != self.edges@[c@[2] as int].from
                                                && self.edges@[c@[1] as int].from != self.edges@[c@[2] as int].from);
                                        }
                                    }
                                    return Some(c);
                                }
                                proof {
                                    assert forall|kk: int| 0 <= kk < m
                                        implies !tri_profit_at(self.edges@, i as int, j as int, kk) by {
                                        if kk != k as int && self.edges@[kk].from == self.edges@[j as int].to
                                            && self.edges@[kk].to == self.edges@[i as int].from {
                                            assert(false);
                                        }
                                    }
                                }
                            } else {
                                proof {
                                    if n12 > u128::MAX / n3 {
                                        lemma_fundamental_div_mod(u128::MAX as int, n3 as int);
                                        vstd::arithmetic::div_mod::lemma_mod_bound(u128::MAX as int, n3 as int);
                                        assert(n12 as int * n3 as int > u128::MAX) by (nonlinear_arith)
                                            requires
                                                n12 as int >= (u128::MAX / n3) as int + 1,
                                                u128::MAX as int == n3 as int * ((u128::MAX / n3) as int)
                                                    + (u128::MAX as int % (n3 as int)),
                                                0 <= u128::MAX as int % (n3 as int) < n3 as int,
                                                n3 >= 1,
                                        ;
                                    } else {
                                        lemma_fundamental_div_mod(u128::MAX as int, d3 as int);
                                        vstd::arithmetic::div_mod::lemma_mod_bound(u128::MAX as int, d3 as int);
                                        assert(d12 as int * d3 as int > u128::MAX) by (nonlinear_arith)
                                            requires
                                                d12 as int >= (u128::MAX / d3) as int + 1,
                                                u128::MAX as int == d3 as int * ((u128::MAX / d3) as int)
                                                    + (u128::MAX as int % (d3 as int)),
                                                0 <= u128::MAX as int % (d3 as int) < d3 as int,
                                                d3 >= 1,
                                        ;
                                    }
                                    assert forall|kk: int| 0 <= kk < m
                                        implies !tri_profit_at(self.edges@, i as int, j as int, kk) by {
                                        if kk != k as int && self.edges@[kk].from == self.edges@[j as int].to
                                            && self.edges@[kk].to == self.edges@[i as int].from {
                                            assert(false);
                                        }
                                    }
                                }
                            }
                        },
                        None => {
                            proof {
                                assert forall|kk: int| 0 <= kk < m
                                    implies !tri_profit_at(self.edges@, i as int, j as int, kk) by {}
                            }
                        },
                    }
                } else {
                    proof {
                        assert forall|kk: int| 0 <= kk < m
                            implies !tri_profit_at(self.edges@, i as int, j as int, kk) by {}
                    }
                }
                j = j + 1;
            }
            i = i + 1;
        }
        None
    }

    /// Spells out a closed edge-index chain as its currency names, first
    /// currency repeated at the end.
    fn cycle_names(&self, cyc: &Vec<usize>) -> (r: ArbitrageCycle)
        requires
            self.wf(),
            closed_chain(self.edges@, cyc@),
            cyc@.len() >= 2,
            prod_num(self.edges@, cyc@) > prod_den(self.edges@, cyc@),
            chain_froms_distinct3(self.edges@, cyc@),
        ensures
            sound_cycle(*self, code_views(r.currencies@)),
    {
        let mut names: Vec<String> = Vec::new();
        proof {
            self.lemma_wf_props();
            assert(self.edge_ok(cyc@[0] as int));
        }
        names.push(self.names[self.edges[cyc[0]].from].clone());
        let mut i: usize = 0;
        while i < cyc.len()
            invariant
                self.wf(),
                closed_chain(self.edges@, cyc@),
                i <= cyc@.len(),
                names@.len() == i + 1,
                forall|j: int| 0 <= j < i
                    ==> (#[trigger] names@[j])@
                        == self.names@[self.edges@[cyc@[j] as int].from as int]@,
                i < cyc@.len() ==> names@[i as int]@
                    == self.names@[self.edges@[cyc@[i as int] as int].from as int]@,
                i == cyc@.len() ==> names@[i as int]@
                    == self.names@[self.edges@[cyc@[i as int - 1] as int].to as int]@,
            decreases cyc@.len() - i,
        {
            proof {
                self.lemma_wf_props();
                assert(self.edge_ok(cyc@[i as int] as int));
            }
            names.push(self.names[self.edges[cyc[i]].to].clone());
            proof {
                if i + 1 < cyc@.len() {
                    assert(self.edges@[cyc@[i as int] as int].to
                        == self.edges@[cyc@[i as int + 1] as int].from);
                }
            }
            i = i + 1;
        }
        let r = ArbitrageCycle { currencies: names };
        proof {
            let w = code_views(r.currencies@);
            let c = cyc@;
            assert(w.len() == c.len() + 1);
            assert forall|j: int| 0 <= j < c.len()
                implies #[trigger] w[j] == self.names@[self.edges@[c[j] as int].from as int]@ by {
                assert(w[j] == r.currencies@[j]@);
            }
            assert(w[c.len() as int] == self.names@[self.edges@[c[c.len() - 1] as int].to as int]@);
            self.lemma_wf_props();
            lemma_lift_path(*self, c, w);
            assert(self.edge_ok(c[0] as int));
            assert(self.edge_ok(c[c.len() - 1] as int));
            assert(w[0] == w[w.len() - 1]);
            assert forall|j: int| 0 <= j < w.len() - 1
                implies (#[trigger] self.sym_rate(w[j], w[j + 1])) is Some by {}
            let (x, y, z) = choose|x: int, y: int, z: int|
                #![trigger c[x], c[y], c[z]]
                0 <= x < y < z < c.len()
                    && self.edges@[c[x] as int].from != self.edges@[c[y] as int].from
                    && self.edges@[c[x] as int].from != self.edges@[c[z] as int].from
                    && self.edges@[c[y] as int].from != self.edges@[c[z] as int].from;
            assert(self.edge_ok(c[x] as int) && self.edge_ok(c[y] as int) && self.edge_ok(c[z] as int));
            assert(w[x] != w[y] && w[x] != w[z] && w[y] != w[z]) by {
                if w[x] == w[y] {
                    self.lemma_names_inj(self.edges@[c[x] as int].from as int, self.edges@[c[y] as int].from as int);
                }
                if w[x] == w[z] {
                    self.lemma_names_inj(self.edges@[c[x] as int].from as int, self.edges@[c[z] as int].from as int);
                }
                if w[y] == w[z] {
                    self.lemma_names_inj(self.edges@[c[y] as int].from as int, self.edges@[c[z] as int].from as int);
                }
            }
            assert(sound_cycle(*self, w));
        }
        r
    }
}

} // verus!
