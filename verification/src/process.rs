//! The update processor: applies a batch of raw ticks to the rate graph —
//! normalize the symbol, parse the price, upsert the edge pair — counting
//! and skipping invalid ticks, then runs one detection pass over the
//! resulting graph.

use vstd::prelude::*;
use crate::detect::DetectionResult;
use crate::detect::some_profitable_triangle;
use crate::detect::sound_cycle;
use crate::graph::RateGraph;
use crate::price::spec_parse_price;
use crate::price::parse_price;
use crate::symbol::code_views;
use crate::symbol::spec_normalize;
use crate::symbol::extract_currency_pair;

verus! {

/// One raw price update, as delivered by the ingestion collaborator.
#[derive(Clone, Debug, PartialEq, Eq)]
pub struct Tick {
    pub symbol: String,
    pub last_price: String,
}

/// How a single tick is treated: skipped for one of the three per-tick
/// errors, or applied to the graph.
pub enum TickClass {
    BadSymbol,
    BadPrice,
    BadRate,
    Good,
}

/// The character sequences of a list of ticks.
pub open spec fn tick_views(ts: Seq<Tick>) -> Seq<(Seq<char>, Seq<char>)> {
    ts.map(|i: int, t: Tick| (t.symbol@, t.last_price@))
}

/// The fate of one tick under quote set `qs`: symbols that do not
/// normalize are `BadSymbol`; prices outside the decimal grammar or past
/// 64 bits are `BadPrice`; non-positive rates are `BadRate`.
pub open spec fn classify(qs: Seq<Seq<char>>, sym: Seq<char>, price: Seq<char>) -> TickClass {
    if spec_normalize(sym, qs) is None {
        TickClass::BadSymbol
    } else {
        match spec_parse_price(price) {
            None => TickClass::BadPrice,
            Some(v) => if v.1 > u64::MAX || v.2 > u64::MAX {
                TickClass::BadPrice
            } else if v.0 || v.1 == 0 || v.2 == 0 {
                TickClass::BadRate
            } else {
                TickClass::Good
            },
        }
    }
}

/// How many ticks of `ts` fall in class `c`.
pub open spec fn count_class(qs: Seq<Seq<char>>, ts: Seq<(Seq<char>, Seq<char>)>, c: TickClass) -> nat
    decreases ts.len(),
{
    if ts.len() == 0 {
        0
    } else {
        count_class(qs, ts.drop_last(), c)
            + if classify(qs, ts.last().0, ts.last().1) == c { 1nat } else { 0nat }
    }
}

/// The rate a single tick leaves on the ordered currency pair `(a, b)`:
/// a good tick writes its rate on its pair and the exact inverse on the
/// reversed pair; anything else leaves `base`.
pub open spec fn step_rate(
    base: Option<(u64, u64)>,
    qs: Seq<Seq<char>>,
    sym: Seq<char>,
    price: Seq<char>,
    a: Seq<char>,
    b: Seq<char>,
) -> Option<(u64, u64)> {
    if classify(qs, sym, price) is Good {
        let p = spec_normalize(sym, qs)->Some_0;
        let v = spec_parse_price(price)->Some_0;
        if a == p.0 && b == p.1 {
            Some((v.1 as u64, v.2 as u64))
        } else if a == p.1 && b == p.0 {
            Some((v.2 as u64, v.1 as u64))
        } else {
            base
        }
    } else {
        base
    }
}

/// The rate left on `(a, b)` after a whole batch, starting from `base`:
/// the last tick that writes the pair wins.
pub open spec fn rate_after(
    base: Option<(u64, u64)>,
    qs: Seq<Seq<char>>,
    ts: Seq<(Seq<char>, Seq<char>)>,
    a: Seq<char>,
    b: Seq<char>,
) -> Option<(u64, u64)>
    decreases ts.len(),
{
    if ts.len() == 0 {
        base
    } else {
        step_rate(rate_after(base, qs, ts.drop_last(), a, b), qs, ts.last().0, ts.last().1, a, b)
    }
}

/// Whether currency `a` is a vertex after a whole batch, starting from
/// `base`: every good tick adds its base and quote currencies.
pub open spec fn vertex_after(
    base: bool,
    qs: Seq<Seq<char>>,
    ts: Seq<(Seq<char>, Seq<char>)>,
    a: Seq<char>,
) -> bool
    decreases ts.len(),
{
    if ts.len() == 0 {
        base
    } else {
        let prev = vertex_after(base, qs, ts.drop_last(), a);
        if classify(qs, ts.last().0, ts.last().1) is Good {
            let p = spec_normalize(ts.last().0, qs)->Some_0;
            prev || a == p.0 || a == p.1
        } else {
            prev
        }
    }
}

/// No class can count more ticks than the batch holds.
proof fn lemma_count_le(qs: Seq<Seq<char>>, ts: Seq<(Seq<char>, Seq<char>)>, c: TickClass)
    ensures
        count_class(qs, ts, c) <= ts.len(),
    decreases ts.len(),
{
    if ts.len() > 0 {
        lemma_count_le(qs, ts.drop_last(), c);
    }
}

/// Owns the rate graph for the process lifetime and applies batches to it
/// strictly sequentially; detection always reads the fully-applied graph.
pub struct UpdateProcessor {
    graph: RateGraph,
    quotes: Vec<String>,
    invalid_symbol: u64,
    invalid_price: u64,
    invalid_rate: u64,
}

impl UpdateProcessor {
    pub closed spec fn wf(self) -> bool {
        self.graph.wf()
    }

    pub closed spec fn spec_graph(self) -> RateGraph {
        self.graph
    }

    pub closed spec fn spec_quotes(self) -> Seq<Seq<char>> {
        code_views(self.quotes@)
    }

    pub closed spec fn spec_invalid_symbol(self) -> u64 {
        self.invalid_symbol
    }

    pub closed spec fn spec_invalid_price(self) -> u64 {
        self.invalid_price
    }

    pub closed spec fn spec_invalid_rate(self) -> u64 {
        self.invalid_rate
    }

    /// A fresh processor around an empty graph, with the configured quote
    /// currency set.
    pub fn new(quotes: Vec<String>) -> (r: UpdateProcessor)
        ensures
            r.wf(),
            r.spec_quotes() == code_views(quotes@),
            r.spec_invalid_symbol() == 0,
            r.spec_invalid_price() == 0,
            r.spec_invalid_rate() == 0,
            r.spec_graph().spec_vertex_count() == 0,
            r.spec_graph().spec_edge_count() == 0,
            forall|a: Seq<char>, b: Seq<char>| #[trigger] r.spec_graph().sym_rate(a, b) is None,
    {
        UpdateProcessor {
            graph: RateGraph::new(),
            quotes,
            invalid_symbol: 0,
            invalid_price: 0,
            invalid_rate: 0,
        }
    }

    /// The graph as it stands after the batches applied so far.
    pub fn graph(&self) -> (r: &RateGraph)
        ensures
            *r == self.spec_graph(),
    {
        &self.graph
    }

    pub fn invalid_symbol_count(&self) -> (r: u64)
        ensures
            r == self.spec_invalid_symbol(),
    {
        self.invalid_symbol
    }

    pub fn invalid_price_count(&self) -> (r: u64)
        ensures
            r == self.spec_invalid_price(),
    {
        self.invalid_price
    }

    pub fn invalid_rate_count(&self) -> (r: u64)
        ensures
            r == self.spec_invalid_rate(),
    {
        self.invalid_rate
    }

    /// Applies every tick of the batch in order — skipping and counting
    /// invalid ones — and then runs one detection pass against the
    /// resulting graph. The final rate of every ordered pair is pinned by
    /// `rate_after`; the error counters grow by exactly the number of
    /// ticks of each error class; a reported cycle is sound for the
    /// resulting graph, and a quiet pass means the resulting graph holds
    /// no profitable triangle with products within 128 bits.
    pub fn process_batch(&mut self, ticks: &Vec<Tick>) -> (r: DetectionResult)
        requires
            old(self).wf(),
            old(self).spec_invalid_symbol() + ticks@.len() <= u64::MAX,
            old(self).spec_invalid_price() + ticks@.len() <= u64::MAX,
            old(self).spec_invalid_rate() + ticks@.len() <= u64::MAX,
        ensures
            final(self).wf(),
            final(self).spec_quotes() == old(self).spec_quotes(),
            final(self).spec_invalid_symbol() == old(self).spec_invalid_symbol()
                + count_class(old(self).spec_quotes(), tick_views(ticks@), TickClass::BadSymbol),
            final(self).spec_invalid_price() == old(self).spec_invalid_price()
                + count_class(old(self).spec_quotes(), tick_views(ticks@), TickClass::BadPrice),
            final(self).spec_invalid_rate() == old(self).spec_invalid_rate()
                + count_class(old(self).spec_quotes(), tick_views(ticks@), TickClass::BadRate),
            forall|a: Seq<char>, b: Seq<char>|
                #[trigger] final(self).spec_graph().sym_rate(a, b) == rate_after(
                    old(self).spec_graph().sym_rate(a, b),
                    old(self).spec_quotes(),
                    tick_views(ticks@),
                    a,
                    b,
                ),
            forall|a: Seq<char>|
                #[trigger] final(self).spec_graph().has_vertex(a) == vertex_after(
                    old(self).spec_graph().has_vertex(a),
                    old(self).spec_quotes(),
                    tick_views(ticks@),
                    a,
                ),
            match r {
                DetectionResult::Arbitrage(cyc) =>
                    sound_cycle(final(self).spec_graph(), code_views(cyc.currencies@)),
                DetectionResult::NoArbitrage =>
                    !some_profitable_triangle(final(self).spec_graph()),
            },
    {
        let ghost qs = code_views(self.quotes@);
        let ghost tv = tick_views(ticks@);
        let ghost g0 = self.graph;
        let mut i: usize = 0;
        proof {
            assert(tv.subrange(0, 0) =~= Seq::<(Seq<char>, Seq<char>)>::empty());
        }
        while i < ticks.len()
            invariant
                self.graph.wf(),
                self.quotes == old(self).quotes,
                qs == code_views(self.quotes@),
                tv == tick_views(ticks@),
                tv.len() == ticks@.len(),
                g0 == old(self).spec_graph(),
                i <= ticks@.len(),
                old(self).spec_invalid_symbol() + ticks@.len() <= u64::MAX,
                old(self).spec_invalid_price() + ticks@.len() <= u64::MAX,
                old(self).spec_invalid_rate() + ticks@.len() <= u64::MAX,
                self.invalid_symbol as nat == old(self).spec_invalid_symbol()
                    + count_class(qs, tv.subrange(0, i as int), TickClass::BadSymbol),
                self.invalid_price as nat == old(self).spec_invalid_price()
                    + count_class(qs, tv.subrange(0, i as int), TickClass::BadPrice),
                self.invalid_rate as nat == old(self).spec_invalid_rate()
                    + count_class(qs, tv.subrange(0, i as int), TickClass::BadRate),
                forall|a: Seq<char>, b: Seq<char>|
                    #[trigger] self.graph.sym_rate(a, b)
                        == rate_after(g0.sym_rate(a, b), qs, tv.subrange(0, i as int), a, b),
                forall|a: Seq<char>|
                    #[trigger] self.graph.has_vertex(a)
                        == vertex_after(g0.has_vertex(a), qs, tv.subrange(0, i as int), a),
            decreases ticks@.len() - i,
        {
            let ghost pre = tv.subrange(0, i as int);
            let ghost cur = tv.subrange(0, i as int + 1);
            let ghost gpre = self.graph;
            proof {
                assert(cur.drop_last() =~= pre);
                assert(cur.last() == tv[i as int]);
                assert(tv[i as int] == (ticks@[i as int].symbol@, ticks@[i as int].last_price@));
                lemma_count_le(qs, pre, TickClass::BadSymbol);
                lemma_count_le(qs, pre, TickClass::BadPrice);
                lemma_count_le(qs, pre, TickClass::BadRate);
            }
            let ghost sym = cur.last().0;
            let ghost pri = cur.last().1;
            let t = &ticks[i];
            match extract_currency_pair(t.symbol.as_str(), &self.quotes) {
                Err(_) => {
                    self.invalid_symbol = self.invalid_symbol + 1;
                    proof {
                        assert(classify(qs, sym, pri) is BadSymbol);
                        assert forall|a: Seq<char>, b: Seq<char>|
                            #[trigger] self.graph.sym_rate(a, b)
                                == step_rate(gpre.sym_rate(a, b), qs, sym, pri, a, b) by {}
                    }
                },
                Ok(pair) => {
                    match parse_price(t.last_price.as_str()) {
                        Err(_) => {
                            self.invalid_price = self.invalid_price + 1;
                            proof {
                                assert(classify(qs, sym, pri) is BadPrice);
                                assert forall|a: Seq<char>, b: Seq<char>|
                                    #[trigger] self.graph.sym_rate(a, b)
                                        == step_rate(gpre.sym_rate(a, b), qs, sym, pri, a, b) by {}
                            }
                        },
                        Ok(p) => {
                            proof {
                                assert(spec_normalize(sym, qs) == Some((pair.0@, pair.1@)));
                                assert(pair.0@ != pair.1@);
                            }
                            match self.graph.upsert(pair.0.as_str(), pair.1.as_str(), p) {
                                Err(_) => {
                                    self.invalid_rate = self.invalid_rate + 1;
                                    proof {
                                        assert(classify(qs, sym, pri) is BadRate);
                                        assert forall|a: Seq<char>, b: Seq<char>|
                                            #[trigger] self.graph.sym_rate(a, b)
                                                == step_rate(gpre.sym_rate(a, b), qs, sym, pri, a, b) by {}
                                    }
                                },
                                Ok(()) => {
                                    proof {
                                        assert(classify(qs, sym, pri) is Good);
                                        let v = spec_parse_price(pri)->Some_0;
                                        assert(v.1 as u64 == p.num && v.2 as u64 == p.den);
                                        assert forall|a: Seq<char>, b: Seq<char>|
                                            #[trigger] self.graph.sym_rate(a, b)
                                                == step_rate(gpre.sym_rate(a, b), qs, sym, pri, a, b) by {
                                            if a == pair.0@ && b == pair.1@ {
                                                assert(self.graph.sym_rate(a, b) == Some((p.num, p.den)));
                                            } else if a == pair.1@ && b == pair.0@ {
                                                assert(self.graph.sym_rate(a, b) == Some((p.den, p.num)));
                                            } else {
                                                assert(self.graph.sym_rate(a, b) == gpre.sym_rate(a, b));
                                            }
                                        }
                                    }
                                },
                            }
                        },
                    }
                },
            }
            proof {
                assert(count_class(qs, cur, TickClass::BadSymbol)
                    == count_class(qs, pre, TickClass::BadSymbol)
                        + if classify(qs, sym, pri) is BadSymbol { 1nat } else { 0nat });
                assert forall|a: Seq<char>, b: Seq<char>|
                    #[trigger] self.graph.sym_rate(a, b)
                        == rate_after(g0.sym_rate(a, b), qs, cur, a, b) by {
                    assert(self.graph.sym_rate(a, b)
                        == step_rate(gpre.sym_rate(a, b), qs, sym, pri, a, b));
                    assert(gpre.sym_rate(a, b) == rate_after(g0.sym_rate(a, b), qs, pre, a, b));
                }
                assert forall|a: Seq<char>|
                    #[trigger] self.graph.has_vertex(a)
                        == vertex_after(g0.has_vertex(a), qs, cur, a) by {
                    assert(gpre.has_vertex(a) == vertex_after(g0.has_vertex(a), qs, pre, a));
                    if classify(qs, sym, pri) is Good {
                        let pv = spec_normalize(sym, qs)->Some_0;
                        assert(self.graph.has_vertex(a)
                            <==> gpre.has_vertex(a) || a == pv.0 || a == pv.1);
                    } else {
                        assert(self.graph == gpre);
                    }
                }
            }
            i = i + 1;
        }
        proof {
            assert(tv.subrange(0, ticks@.len() as int) =~= tv);
        }
        self.graph.find_arbitrage()
    }
}

} // verus!
