//! Cross-book scan: match races, split them into markets, and pick the best
//! odds per outcome. Whether a market is a surebet is decided on the prices
//! that this module picks.

use vstd::prelude::*;

use crate::matching::{
    canonical_race_key, first_occurrences, lemma_first_occurrences, normalize_runner, race_key,
    runner_key,
};
use crate::types::{binary64_gt, is_nan_bits, BestPrice, MarketKind, Outcome, Quote, RaceKey};

verus! {

/// The markets that are scanned: Win and Horse-vs-Field. Place and Show are
/// skipped.
pub open spec fn is_scannable(m: MarketKind) -> bool {
    m == MarketKind::Win || m == MarketKind::HorseVsField
}

/// Whether quotes of market `m` are scanned.
pub fn scannable(m: MarketKind) -> (b: bool)
    ensures
        b == is_scannable(m),
{
    matches!(m, MarketKind::Win | MarketKind::HorseVsField)
}

/// The normalized outcome name of a quote.
pub open spec fn outcome_key(q: Quote) -> Seq<char> {
    runner_key(q.outcome.name@)
}

/// The normalized outcome names of `qs`, in order.
pub open spec fn outcome_keys(qs: Seq<Quote>) -> Seq<Seq<char>> {
    qs.map_values(|q: Quote| outcome_key(q))
}

/// Index of the best quote for normalized outcome `k` among the first `n`
/// quotes of `qs`: the first of them, replaced by each later one whose odds
/// are higher (as binary64 `>` compares them) than those of the quote it
/// replaces; -1 when no quote among them has that outcome.
pub open spec fn best_index(qs: Seq<Quote>, k: Seq<char>, n: int) -> int
    decreases n,
{
    if n <= 0 {
        -1
    } else {
        let b = best_index(qs, k, n - 1);
        if outcome_key(qs[n - 1]) == k && (b < 0 || binary64_gt(qs[n - 1].odds@, qs[b].odds@)) {
            n - 1
        } else {
            b
        }
    }
}

/// `p` carries the outcome name, book and odds of quote `q`.
pub open spec fn is_price_of(p: BestPrice, q: Quote) -> bool {
    &&& p.outcome.name@ == q.outcome.name@
    &&& p.book@ == q.book@
    &&& p.odds == q.odds
}

/// `ps` holds, for each normalized outcome of `qs` in the order the outcomes
/// first appear, the price of the first quote with the highest odds for it.
pub open spec fn best_prices_of(qs: Seq<Quote>, ps: Seq<BestPrice>) -> bool {
    let keys = first_occurrences(outcome_keys(qs));
    &&& ps.len() == keys.len()
    &&& forall|j: int|
        0 <= j < ps.len() ==> is_price_of(#[trigger] ps[j], qs[best_index(qs, keys[j], qs.len() as int)])
}

proof fn lemma_best_index(qs: Seq<Quote>, k: Seq<char>, n: int)
    requires
        0 <= n <= qs.len(),
    ensures
        -1 <= best_index(qs, k, n) < n,
        best_index(qs, k, n) >= 0 ==> outcome_key(qs[best_index(qs, k, n)]) == k,
        best_index(qs, k, n) < 0 <==> (forall|i: int| 0 <= i < n ==> outcome_key(#[trigger] qs[i]) != k),
        forall|i: int|
            0 <= i < n && outcome_key(#[trigger] qs[i]) == k ==> !binary64_gt(
                qs[i].odds@,
                qs[best_index(qs, k, n)].odds@,
            ),
    decreases n,
{
    if n > 0 {
        lemma_best_index(qs, k, n - 1);
    }
}

proof fn lemma_keys_take(qs: Seq<Quote>, i: int)
    requires
        0 <= i < qs.len(),
    ensures
        outcome_keys(qs).take(i + 1).drop_last() == outcome_keys(qs).take(i),
        outcome_keys(qs).take(i + 1).last() == outcome_key(qs[i]),
        forall|x: Seq<char>| outcome_keys(qs).take(i).contains(x) <==> (exists|m: int| 0 <= m < i && outcome_key(#[trigger] qs[m]) == x),
{
    assert(outcome_keys(qs).take(i + 1).drop_last() =~= outcome_keys(qs).take(i));
    assert forall|x: Seq<char>| outcome_keys(qs).take(i).contains(x) <==> (exists|m: int| 0 <= m < i && outcome_key(#[trigger] qs[m]) == x) by {
        if outcome_keys(qs).take(i).contains(x) {
            let m = choose|m: int| 0 <= m < i && outcome_keys(qs).take(i)[m] == x;
            assert(outcome_key(qs[m]) == x);
        }
        if exists|m: int| 0 <= m < i && outcome_key(#[trigger] qs[m]) == x {
            let m = choose|m: int| 0 <= m < i && outcome_key(#[trigger] qs[m]) == x;
            assert(outcome_keys(qs).take(i)[m] == x);
        }
    }
}

/// The price that quote `q` offers.
fn price_of(q: &Quote) -> (p: BestPrice)
    ensures
        is_price_of(p, *q),
{
    BestPrice { outcome: Outcome::new(q.outcome.name.as_str()), book: q.book.clone(), odds: q.odds }
}

/// Best odds per normalized outcome among the quotes of one market. Quotes
/// whose outcome names normalize alike compete for one outcome; the first
/// quote with the highest odds supplies the outcome name, book and price.
pub fn best_prices(quotes: &[Quote]) -> (ps: Vec<BestPrice>)
    ensures
        best_prices_of(quotes@, ps@),
        forall|i: int|
            0 <= i < quotes@.len() ==> exists|j: int|
                0 <= j < ps@.len() && runner_key(#[trigger] ps@[j].outcome.name@) == outcome_key(
                    #[trigger] quotes@[i],
                ),
        forall|j: int, i: int|
            0 <= j < ps@.len() && 0 <= i < quotes@.len() && runner_key(ps@[j].outcome.name@)
                == outcome_key(quotes@[i]) ==> !binary64_gt(
                #[trigger] quotes@[i].odds@,
                #[trigger] ps@[j].odds@,
            ),
        forall|a: int, b: int|
            0 <= a < b < ps@.len() ==> runner_key(#[trigger] ps@[a].outcome.name@) != runner_key(
                #[trigger] ps@[b].outcome.name@,
            ),
{
    let ghost qs = quotes@;
    let n = quotes.len();
    let mut keys: Vec<String> = Vec::new();
    let mut prices: Vec<BestPrice> = Vec::new();
    let mut i: usize = 0;
    while i < n
        invariant
            i <= n,
            n == qs.len(),
            qs == quotes@,
            keys@.len() == first_occurrences(outcome_keys(qs).take(i as int)).len(),
            forall|j: int|
                0 <= j < keys@.len() ==> #[trigger] keys@[j]@ == first_occurrences(
                    outcome_keys(qs).take(i as int),
                )[j],
            prices@.len() == keys@.len(),
            forall|j: int|
                0 <= j < prices@.len() ==> is_price_of(
                    #[trigger] prices@[j],
                    qs[best_index(qs, first_occurrences(outcome_keys(qs).take(i as int))[j], i as int)],
                ),
        decreases n - i,
    {
        let ghost ks = first_occurrences(outcome_keys(qs).take(i as int));
        let q = &quotes[i];
        let key = normalize_runner(q.outcome.name.as_str());
        proof {
            lemma_keys_take(qs, i as int);
            lemma_first_occurrences(outcome_keys(qs).take(i as int));
        }
        let mut j: usize = 0;
        while j < keys.len() && !(keys[j] == key)
            invariant
                j <= keys@.len(),
                keys@.len() == ks.len(),
                forall|m: int| 0 <= m < keys@.len() ==> #[trigger] keys@[m]@ == ks[m],
                forall|m: int| 0 <= m < j ==> keys@[m]@ != key@,
            decreases keys.len() - j,
        {
            j = j + 1;
        }
        if j < keys.len() {
            let ghost k = ks[j as int];
            assert(keys@[j as int]@ == key@);
            assert(k == key@);
            assert(ks.contains(k));
            assert(first_occurrences(outcome_keys(qs).take(i + 1)) == ks);
            let ghost b = best_index(qs, k, i as int);
            proof {
                assert(outcome_keys(qs).take(i as int).contains(k));
                let m = choose|m: int| 0 <= m < i && outcome_key(#[trigger] qs[m]) == k;
                lemma_best_index(qs, k, i as int);
                assert(b >= 0);
            }
            if q.odds.is_better_than(prices[j].odds) {
                prices.set(j, price_of(q));
            }
            proof {
                assert forall|m: int| 0 <= m < prices@.len() implies is_price_of(
                    #[trigger] prices@[m],
                    qs[best_index(qs, first_occurrences(outcome_keys(qs).take(i + 1))[m], i + 1)],
                ) by {
                    if m != j {
                        assert(ks[m] != ks[j as int]);
                    }
                }
            }
        } else {
            proof {
                assert forall|m: int| 0 <= m < ks.len() implies #[trigger] ks[m] != key@ by {
                    assert(keys@[m]@ == ks[m]);
                }
                assert(!ks.contains(key@));
                assert(!outcome_keys(qs).take(i as int).contains(key@));
                assert forall|m: int| 0 <= m < i implies outcome_key(#[trigger] qs[m]) != key@ by {
                    if outcome_key(qs[m]) == key@ {
                        assert(outcome_keys(qs).take(i as int)[m] == key@);
                    }
                }
                lemma_best_index(qs, key@, i as int);
                assert(best_index(qs, key@, i as int) < 0);
                assert(outcome_key(qs[i as int]) == key@);
                assert(best_index(qs, key@, i + 1) == i);
            }
            keys.push(key);
            prices.push(price_of(q));
            proof {
                let ks2 = first_occurrences(outcome_keys(qs).take(i + 1));
                assert(ks2 == ks.push(key@));
                assert forall|m: int| 0 <= m < prices@.len() implies is_price_of(
                    #[trigger] prices@[m],
                    qs[best_index(qs, ks2[m], i + 1)],
                ) by {
                    if m < ks.len() {
                        assert(ks[m] != key@);
                        assert(ks2[m] == ks[m]);
                    }
                }
            }
        }
        i = i + 1;
    }
    proof {
        assert(outcome_keys(qs).take(n as int) =~= outcome_keys(qs));
        let ks = first_occurrences(outcome_keys(qs));
        lemma_first_occurrences(outcome_keys(qs));
        assert forall|j: int| 0 <= j < ks.len() implies {
            let b = best_index(qs, #[trigger] ks[j], n as int);
            0 <= b < n && outcome_key(qs[b]) == ks[j]
        } by {
            assert(ks.contains(ks[j]));
            assert(outcome_keys(qs).contains(ks[j]));
            let m = choose|m: int| 0 <= m < outcome_keys(qs).len() && outcome_keys(qs)[m] == ks[j];
            lemma_best_index(qs, ks[j], n as int);
            assert(outcome_key(qs[m]) == ks[j]);
        }
        assert forall|i: int| 0 <= i < quotes@.len() implies exists|j: int|
            0 <= j < prices@.len() && runner_key(#[trigger] prices@[j].outcome.name@)
                == outcome_key(#[trigger] quotes@[i]) by {
            assert(outcome_keys(qs)[i] == outcome_key(qs[i]));
            assert(outcome_keys(qs).contains(outcome_key(qs[i])));
            assert(ks.contains(outcome_key(qs[i])));
            let j = choose|j: int| 0 <= j < ks.len() && ks[j] == outcome_key(qs[i]);
            let b = best_index(qs, ks[j], n as int);
            assert(runner_key(prices@[j].outcome.name@) == outcome_key(qs[b]));
        }
        assert forall|j: int, i: int|
            0 <= j < prices@.len() && 0 <= i < quotes@.len() && runner_key(prices@[j].outcome.name@)
                == outcome_key(quotes@[i]) implies !binary64_gt(
                #[trigger] quotes@[i].odds@,
                #[trigger] prices@[j].odds@,
            ) by {
            let b = best_index(qs, ks[j], n as int);
            lemma_best_index(qs, ks[j], n as int);
            assert(outcome_key(qs[i]) == ks[j]);
        }
        assert forall|a: int, b: int| 0 <= a < b < prices@.len() implies runner_key(
            #[trigger] prices@[a].outcome.name@,
        ) != runner_key(#[trigger] prices@[b].outcome.name@) by {
            assert(ks[a] != ks[b]);
        }
    }
    prices
}

/// The quotes of `qs` in scanned markets, in order.
pub open spec fn scanned(qs: Seq<Quote>) -> Seq<Quote>
    decreases qs.len(),
{
    if qs.len() == 0 {
        Seq::empty()
    } else if is_scannable(qs.last().market) {
        scanned(qs.drop_last()).push(qs.last())
    } else {
        scanned(qs.drop_last())
    }
}

/// The race key and market a quote is grouped under.
pub open spec fn market_key(q: Quote) -> (Seq<char>, MarketKind) {
    (race_key(q.race), q.market)
}

/// The grouping keys of `qs`, in order.
pub open spec fn market_keys(qs: Seq<Quote>) -> Seq<(Seq<char>, MarketKind)> {
    qs.map_values(|q: Quote| market_key(q))
}

/// The quotes of `qs` under grouping key `g`, in order.
pub open spec fn quotes_under(qs: Seq<Quote>, g: (Seq<char>, MarketKind)) -> Seq<Quote>
    decreases qs.len(),
{
    if qs.len() == 0 {
        Seq::empty()
    } else if market_key(qs.last()) == g {
        quotes_under(qs.drop_last(), g).push(qs.last())
    } else {
        quotes_under(qs.drop_last(), g)
    }
}

/// Index of the first of the first `n` quotes of `qs` whose race has key `rk`,
/// or -1 when there is none.
pub open spec fn first_race_index(qs: Seq<Quote>, rk: Seq<char>, n: int) -> int
    decreases n,
{
    if n <= 0 {
        -1
    } else if first_race_index(qs, rk, n - 1) >= 0 {
        first_race_index(qs, rk, n - 1)
    } else if race_key(qs[n - 1].race) == rk {
        n - 1
    } else {
        -1
    }
}

/// The best prices of one market of one race.
#[derive(Debug)]
pub struct MarketPrices {
    /// The race, as the first scanned quote for it spells it.
    pub race: RaceKey,
    pub market: MarketKind,
    /// Best price per normalized outcome.
    pub prices: Vec<BestPrice>,
}

/// `ms` holds one entry per race and scanned market of `qs`, in the order the
/// pairs first appear: the race as its first scanned quote spells it, the
/// market, and the best prices among the quotes of that race and market.
pub open spec fn markets_of(qs: Seq<Quote>, ms: Seq<MarketPrices>) -> bool {
    let sq = scanned(qs);
    let gs = first_occurrences(market_keys(sq));
    &&& ms.len() == gs.len()
    &&& forall|j: int|
        0 <= j < ms.len() ==> {
            &&& (#[trigger] ms[j]).market == gs[j].1
            &&& race_key(ms[j].race) == gs[j].0
            &&& ms[j].race == sq[first_race_index(sq, gs[j].0, sq.len() as int)].race
            &&& best_prices_of(quotes_under(sq, gs[j]), ms[j].prices@)
        }
}

proof fn lemma_first_race_index(qs: Seq<Quote>, rk: Seq<char>, n: int)
    requires
        0 <= n <= qs.len(),
    ensures
        -1 <= first_race_index(qs, rk, n) < n,
        first_race_index(qs, rk, n) >= 0 ==> race_key(qs[first_race_index(qs, rk, n)].race) == rk,
        first_race_index(qs, rk, n) < 0 <==> (forall|i: int|
            0 <= i < n ==> race_key(#[trigger] qs[i].race) != rk),
    decreases n,
{
    if n > 0 {
        lemma_first_race_index(qs, rk, n - 1);
    }
}

proof fn lemma_market_keys_take(qs: Seq<Quote>, i: int)
    requires
        0 <= i < qs.len(),
    ensures
        market_keys(qs).take(i + 1).drop_last() == market_keys(qs).take(i),
        market_keys(qs).take(i + 1).last() == market_key(qs[i]),
{
    assert(market_keys(qs).take(i + 1).drop_last() =~= market_keys(qs).take(i));
}

/// Scan a flat quote list: keep the quotes of scanned markets, group them by
/// race (matched on the canonical race key) and market, and pick the best
/// price per normalized outcome in each group.
pub fn scan_markets(quotes: &[Quote]) -> (ms: Vec<MarketPrices>)
    ensures
        markets_of(quotes@, ms@),
        forall|j: int| 0 <= j < ms@.len() ==> is_scannable(#[trigger] ms@[j].market),
        forall|j: int|
            0 <= j < ms@.len() ==> (#[trigger] ms@[j]).market == MarketKind::Win || ms@[j].market
                == MarketKind::HorseVsField,
{
    let ghost qs = quotes@;
    // The scanned quotes and their race keys.
    let mut sq: Vec<Quote> = Vec::new();
    let mut rks: Vec<String> = Vec::new();
    let mut i: usize = 0;
    while i < quotes.len()
        invariant
            i <= qs.len(),
            qs == quotes@,
            sq@ == scanned(qs.take(i as int)),
            rks@.len() == sq@.len(),
            forall|k: int| 0 <= k < rks@.len() ==> (#[trigger] rks@[k])@ == race_key(sq@[k].race),
        decreases quotes.len() - i,
    {
        assert(qs.take(i + 1).drop_last() =~= qs.take(i as int));
        let q = &quotes[i];
        if scannable(q.market) {
            sq.push(q.clone());
            rks.push(canonical_race_key(&q.race));
        }
        i = i + 1;
    }
    assert(qs.take(qs.len() as int) =~= qs);
    let ghost s = sq@;
    let n = sq.len();
    // The grouping keys, in the order they first appear.
    let mut g_rk: Vec<String> = Vec::new();
    let mut g_m: Vec<MarketKind> = Vec::new();
    let mut k: usize = 0;
    while k < n
        invariant
            k <= n,
            n == s.len(),
            s == sq@,
            rks@.len() == n,
            forall|m: int| 0 <= m < rks@.len() ==> (#[trigger] rks@[m])@ == race_key(s[m].race),
            g_rk@.len() == first_occurrences(market_keys(s).take(k as int)).len(),
            g_m@.len() == g_rk@.len(),
            forall|j: int|
                0 <= j < g_rk@.len() ==> (#[trigger] g_rk@[j]@, g_m@[j]) == first_occurrences(
                    market_keys(s).take(k as int),
                )[j],
        decreases n - k,
    {
        let ghost gs = first_occurrences(market_keys(s).take(k as int));
        proof {
            lemma_market_keys_take(s, k as int);
            lemma_first_occurrences(market_keys(s).take(k as int));
        }
        let mut j: usize = 0;
        while j < g_rk.len() && !(g_rk[j] == rks[k] && g_m[j] == sq[k].market)
            invariant
                j <= g_rk@.len(),
                k < n,
                n == s.len(),
                s == sq@,
                rks@.len() == n,
                g_m@.len() == g_rk@.len(),
                forall|m: int| 0 <= m < j ==> (g_rk@[m]@, g_m@[m]) != (rks@[k as int]@, s[k as int].market),
            decreases g_rk.len() - j,
        {
            j = j + 1;
        }
        let ghost key = market_key(s[k as int]);
        assert(key == (rks@[k as int]@, s[k as int].market));
        if j == g_rk.len() {
            proof {
                assert forall|m: int| 0 <= m < gs.len() implies #[trigger] gs[m] != key by {
                    assert(gs[m] == (g_rk@[m]@, g_m@[m]));
                }
                assert(!gs.contains(key));
            }
            g_rk.push(rks[k].clone());
            g_m.push(sq[k].market);
            proof {
                assert(first_occurrences(market_keys(s).take(k + 1)) == gs.push(key));
            }
        } else {
            proof {
                assert(gs[j as int] == key);
                assert(gs.contains(key));
                assert(first_occurrences(market_keys(s).take(k + 1)) == gs);
            }
        }
        k = k + 1;
    }
    assert(market_keys(s).take(n as int) =~= market_keys(s));
    let ghost gs = first_occurrences(market_keys(s));
    // One entry per group.
    let mut ms: Vec<MarketPrices> = Vec::new();
    let mut j: usize = 0;
    while j < g_rk.len()
        invariant
            j <= g_rk@.len(),
            n == s.len(),
            s == sq@,
            s == scanned(qs),
            gs == first_occurrences(market_keys(s)),
            rks@.len() == n,
            forall|m: int| 0 <= m < rks@.len() ==> (#[trigger] rks@[m])@ == race_key(s[m].race),
            g_rk@.len() == gs.len(),
            g_m@.len() == g_rk@.len(),
            forall|m: int| 0 <= m < g_rk@.len() ==> (#[trigger] g_rk@[m]@, g_m@[m]) == gs[m],
            ms@.len() == j,
            forall|m: int|
                0 <= m < j ==> {
                    &&& (#[trigger] ms@[m]).market == gs[m].1
                    &&& race_key(ms@[m].race) == gs[m].0
                    &&& ms@[m].race == s[first_race_index(s, gs[m].0, s.len() as int)].race
                    &&& best_prices_of(quotes_under(s, gs[m]), ms@[m].prices@)
                },
        decreases g_rk.len() - j,
    {
        let ghost g = gs[j as int];
        assert(g == (g_rk@[j as int]@, g_m@[j as int]));
        // Quotes of this group, and the first quote of its race.
        let mut members: Vec<Quote> = Vec::new();
        let mut first: Option<usize> = None;
        let mut k: usize = 0;
        while k < n
            invariant
                k <= n,
                n == s.len(),
                s == sq@,
                rks@.len() == n,
                forall|m: int| 0 <= m < rks@.len() ==> (#[trigger] rks@[m])@ == race_key(s[m].race),
                j < g_rk@.len(),
                g_m@.len() == g_rk@.len(),
                g == (g_rk@[j as int]@, g_m@[j as int]),
                members@ == quotes_under(s.take(k as int), g),
                first matches Some(f) ==> f as int == first_race_index(s, g.0, k as int),
                first is None ==> first_race_index(s, g.0, k as int) < 0,
            decreases n - k,
        {
            assert(s.take(k + 1).drop_last() =~= s.take(k as int));
            if rks[k] == g_rk[j] {
                if first.is_none() {
                    first = Some(k);
                }
                if sq[k].market == g_m[j] {
                    members.push(sq[k].clone());
                }
            }
            k = k + 1;
        }
        assert(s.take(n as int) =~= s);
        proof {
            // The group exists because some scanned quote has its key.
            lemma_first_occurrences(market_keys(s));
            assert(gs.contains(g));
            assert(market_keys(s).contains(g));
            let w = choose|w: int| 0 <= w < market_keys(s).len() && market_keys(s)[w] == g;
            assert(race_key(s[w].race) == g.0);
            lemma_first_race_index(s, g.0, n as int);
        }
        let f = match first {
            Some(f) => f,
            None => 0,
        };
        let race = sq[f].race.clone();
        let prices = best_prices(members.as_slice());
        ms.push(MarketPrices { race, market: g_m[j], prices });
        j = j + 1;
    }
    proof {
        assert forall|m: int| 0 <= m < ms@.len() implies is_scannable(#[trigger] ms@[m].market) by {
            lemma_scanned_markets(qs);
            lemma_first_occurrences(market_keys(s));
            assert(gs.contains(gs[m]));
            assert(market_keys(s).contains(gs[m]));
            let w = choose|w: int| 0 <= w < market_keys(s).len() && market_keys(s)[w] == gs[m];
            assert(s[w].market == gs[m].1);
        }
    }
    ms
}

/// Under `best_prices_of`, each quote has a price for its normalized outcome
/// at odds not below its own.
proof fn lemma_best_prices_cover(us: Seq<Quote>, ps: Seq<BestPrice>)
    requires
        best_prices_of(us, ps),
    ensures
        forall|i: int|
            0 <= i < us.len() ==> exists|p: int|
                0 <= p < ps.len() && runner_key(ps[p].outcome.name@) == outcome_key(#[trigger] us[i])
                    && !binary64_gt(us[i].odds@, ps[p].odds@),
{
    let ks = first_occurrences(outcome_keys(us));
    let n = us.len() as int;
    lemma_first_occurrences(outcome_keys(us));
    assert forall|i: int| 0 <= i < us.len() implies exists|p: int|
        0 <= p < ps.len() && runner_key(ps[p].outcome.name@) == outcome_key(#[trigger] us[i])
            && !binary64_gt(us[i].odds@, ps[p].odds@) by {
        assert(outcome_keys(us)[i] == outcome_key(us[i]));
        assert(outcome_keys(us).contains(outcome_key(us[i])));
        assert(ks.contains(outcome_key(us[i])));
        let j = choose|j: int| 0 <= j < ks.len() && ks[j] == outcome_key(us[i]);
        let b = best_index(us, ks[j], n);
        lemma_best_index(us, ks[j], n);
        assert(runner_key(ps[j].outcome.name@) == outcome_key(us[b]));
    }
}

/// Under `best_prices_of`, each price is that of one of the quotes.
proof fn lemma_best_prices_from(us: Seq<Quote>, ps: Seq<BestPrice>)
    requires
        best_prices_of(us, ps),
    ensures
        forall|p: int|
            0 <= p < ps.len() ==> exists|i: int| 0 <= i < us.len() && is_price_of(#[trigger] ps[p], us[i]),
{
    let ks = first_occurrences(outcome_keys(us));
    let n = us.len() as int;
    lemma_first_occurrences(outcome_keys(us));
    assert forall|p: int| 0 <= p < ps.len() implies exists|i: int|
        0 <= i < us.len() && is_price_of(#[trigger] ps[p], us[i]) by {
        assert(ks.contains(ks[p]));
        assert(outcome_keys(us).contains(ks[p]));
        let m = choose|m: int| 0 <= m < outcome_keys(us).len() && outcome_keys(us)[m] == ks[p];
        lemma_best_index(us, ks[p], n);
        assert(outcome_key(us[m]) == ks[p]);
        let b = best_index(us, ks[p], n);
        assert(is_price_of(ps[p], us[b]));
    }
}

/// Under `best_prices_of`, no two prices share a normalized outcome.
proof fn lemma_best_prices_distinct(us: Seq<Quote>, ps: Seq<BestPrice>)
    requires
        best_prices_of(us, ps),
    ensures
        forall|a: int, b: int|
            0 <= a < b < ps.len() ==> runner_key((#[trigger] ps[a]).outcome.name@) != runner_key(
                (#[trigger] ps[b]).outcome.name@,
            ),
{
    let ks = first_occurrences(outcome_keys(us));
    let n = us.len() as int;
    lemma_first_occurrences(outcome_keys(us));
    assert forall|a: int, b: int| 0 <= a < b < ps.len() implies runner_key(
        (#[trigger] ps[a]).outcome.name@,
    ) != runner_key((#[trigger] ps[b]).outcome.name@) by {
        assert(ks[a] != ks[b]);
        assert(ks.contains(ks[a]));
        assert(ks.contains(ks[b]));
        assert(outcome_keys(us).contains(ks[a]));
        assert(outcome_keys(us).contains(ks[b]));
        let ma = choose|m: int| 0 <= m < outcome_keys(us).len() && outcome_keys(us)[m] == ks[a];
        let mb = choose|m: int| 0 <= m < outcome_keys(us).len() && outcome_keys(us)[m] == ks[b];
        lemma_best_index(us, ks[a], n);
        lemma_best_index(us, ks[b], n);
        assert(outcome_key(us[ma]) == ks[a]);
        assert(outcome_key(us[mb]) == ks[b]);
        let ba = best_index(us, ks[a], n);
        let bb = best_index(us, ks[b], n);
        assert(runner_key(ps[a].outcome.name@) == outcome_key(us[ba]));
        assert(runner_key(ps[b].outcome.name@) == outcome_key(us[bb]));
    }
}

/// The best quote for an outcome has odds above those of every earlier quote
/// for that outcome, leaving NaN prices aside.
proof fn lemma_best_index_earliest(qs: Seq<Quote>, k: Seq<char>, n: int)
    requires
        0 <= n <= qs.len(),
    ensures
        best_index(qs, k, n) >= 0 ==> forall|i: int|
            0 <= i < best_index(qs, k, n) && outcome_key(#[trigger] qs[i]) == k && !is_nan_bits(
                qs[i].odds@,
            ) ==> binary64_gt(qs[best_index(qs, k, n)].odds@, qs[i].odds@),
    decreases n,
{
    if n > 0 {
        lemma_best_index_earliest(qs, k, n - 1);
        lemma_best_index(qs, k, n - 1);
        let b = best_index(qs, k, n - 1);
        if best_index(qs, k, n) == n - 1 && b >= 0 {
            assert forall|i: int|
                0 <= i < n - 1 && outcome_key(#[trigger] qs[i]) == k && !is_nan_bits(
                    qs[i].odds@,
                ) implies binary64_gt(qs[n - 1].odds@, qs[i].odds@) by {
                assert(!binary64_gt(qs[i].odds@, qs[b].odds@));
            }
        }
    }
}

/// Whether `p` is the price of a quote of `us` for its normalized outcome
/// whose odds are above those of every earlier quote for that outcome (NaN
/// prices aside): of equally high quotes, the first.
pub open spec fn is_first_highest_price(us: Seq<Quote>, p: BestPrice) -> bool {
    exists|i: int|
        0 <= i < us.len() && is_price_of(p, #[trigger] us[i]) && forall|e: int|
            0 <= e < i && outcome_key(#[trigger] us[e]) == outcome_key(us[i]) && !is_nan_bits(
                us[e].odds@,
            ) ==> binary64_gt(us[i].odds@, us[e].odds@)
}

/// Each best price is that of the first quote with the highest odds for its
/// outcome: a later quote at equal odds does not displace it.
pub proof fn lemma_best_prices_first_highest(us: Seq<Quote>, ps: Seq<BestPrice>)
    requires
        best_prices_of(us, ps),
    ensures
        forall|p: int| 0 <= p < ps.len() ==> is_first_highest_price(us, #[trigger] ps[p]),
{
    let ks = first_occurrences(outcome_keys(us));
    let n = us.len() as int;
    lemma_first_occurrences(outcome_keys(us));
    assert forall|p: int| 0 <= p < ps.len() implies is_first_highest_price(us, #[trigger] ps[p]) by {
        assert(ks.contains(ks[p]));
        assert(outcome_keys(us).contains(ks[p]));
        let m = choose|m: int| 0 <= m < outcome_keys(us).len() && outcome_keys(us)[m] == ks[p];
        lemma_best_index(us, ks[p], n);
        lemma_best_index_earliest(us, ks[p], n);
        assert(outcome_key(us[m]) == ks[p]);
        let b = best_index(us, ks[p], n);
        assert(is_price_of(ps[p], us[b]));
    }
}

/// Each scanned quote is an input quote of a scanned market.
proof fn lemma_scanned_from(qs: Seq<Quote>)
    ensures
        forall|k: int|
            0 <= k < scanned(qs).len() ==> exists|i: int|
                0 <= i < qs.len() && #[trigger] scanned(qs)[k] == qs[i] && is_scannable(qs[i].market),
    decreases qs.len(),
{
    if qs.len() > 0 {
        let d = qs.drop_last();
        lemma_scanned_from(d);
        let p = scanned(d);
        let sc = scanned(qs);
        assert forall|k: int| 0 <= k < sc.len() implies exists|i: int|
            0 <= i < qs.len() && #[trigger] sc[k] == qs[i] && is_scannable(qs[i].market) by {
            if k < p.len() {
                assert(sc[k] == p[k]);
                let i = choose|i: int| 0 <= i < d.len() && p[k] == d[i] && is_scannable(d[i].market);
                assert(qs[i] == d[i]);
            } else {
                assert(sc[k] == qs[qs.len() - 1]);
            }
        }
    }
}

/// Each input quote of a scanned market is scanned.
proof fn lemma_scanned_has(qs: Seq<Quote>)
    ensures
        forall|i: int|
            0 <= i < qs.len() && is_scannable(#[trigger] qs[i].market) ==> exists|k: int|
                0 <= k < scanned(qs).len() && scanned(qs)[k] == qs[i],
    decreases qs.len(),
{
    if qs.len() > 0 {
        let d = qs.drop_last();
        lemma_scanned_has(d);
        let p = scanned(d);
        let sc = scanned(qs);
        assert forall|i: int| 0 <= i < qs.len() && is_scannable(#[trigger] qs[i].market) implies exists|k: int|
            0 <= k < sc.len() && sc[k] == qs[i] by {
            if i < qs.len() - 1 {
                assert(d[i] == qs[i]);
                assert(is_scannable(d[i].market));
                let k = choose|k: int| 0 <= k < p.len() && p[k] == d[i];
                assert(sc[k] == p[k]);
            } else {
                assert(sc[p.len() as int] == qs[i]);
            }
        }
    }
}

/// Each quote under a grouping key is a quote with that key.
proof fn lemma_quotes_under_from(s: Seq<Quote>, g: (Seq<char>, MarketKind))
    ensures
        forall|t: int|
            0 <= t < quotes_under(s, g).len() ==> exists|k: int|
                0 <= k < s.len() && #[trigger] quotes_under(s, g)[t] == s[k] && market_key(s[k]) == g,
    decreases s.len(),
{
    if s.len() > 0 {
        let d = s.drop_last();
        lemma_quotes_under_from(d, g);
        let p = quotes_under(d, g);
        let u = quotes_under(s, g);
        assert forall|t: int| 0 <= t < u.len() implies exists|k: int|
            0 <= k < s.len() && #[trigger] u[t] == s[k] && market_key(s[k]) == g by {
            if t < p.len() {
                assert(u[t] == p[t]);
                let k = choose|k: int| 0 <= k < d.len() && p[t] == d[k] && market_key(d[k]) == g;
                assert(s[k] == d[k]);
            } else {
                assert(u[t] == s[s.len() - 1]);
            }
        }
    }
}

/// Each quote with a grouping key is among the quotes under that key.
proof fn lemma_quotes_under_has(s: Seq<Quote>, g: (Seq<char>, MarketKind))
    ensures
        forall|k: int|
            0 <= k < s.len() && market_key(#[trigger] s[k]) == g ==> exists|t: int|
                0 <= t < quotes_under(s, g).len() && quotes_under(s, g)[t] == s[k],
    decreases s.len(),
{
    if s.len() > 0 {
        let d = s.drop_last();
        lemma_quotes_under_has(d, g);
        let p = quotes_under(d, g);
        let u = quotes_under(s, g);
        assert forall|k: int| 0 <= k < s.len() && market_key(#[trigger] s[k]) == g implies exists|t: int|
            0 <= t < u.len() && u[t] == s[k] by {
            if k < s.len() - 1 {
                assert(d[k] == s[k]);
                assert(market_key(d[k]) == g);
                let t = choose|t: int| 0 <= t < p.len() && p[t] == d[k];
                assert(u[t] == p[t]);
            } else {
                assert(u[p.len() as int] == s[k]);
            }
        }
    }
}

/// Each Win or Horse-vs-Field quote has an entry of its race and market.
pub proof fn lemma_scan_entry_exists(qs: Seq<Quote>, ms: Seq<MarketPrices>)
    requires
        markets_of(qs, ms),
    ensures
        forall|i: int|
            0 <= i < qs.len() && ((#[trigger] qs[i]).market == MarketKind::Win || qs[i].market
                == MarketKind::HorseVsField) ==> exists|j: int|
                0 <= j < ms.len() && ms[j].market == qs[i].market && race_key(ms[j].race) == race_key(
                    qs[i].race,
                ),
{
    let sq = scanned(qs);
    let gs = first_occurrences(market_keys(sq));
    lemma_first_occurrences(market_keys(sq));
    lemma_scanned_has(qs);
    assert forall|i: int|
        0 <= i < qs.len() && ((#[trigger] qs[i]).market == MarketKind::Win || qs[i].market
            == MarketKind::HorseVsField) implies exists|j: int|
        0 <= j < ms.len() && ms[j].market == qs[i].market && race_key(ms[j].race) == race_key(
            qs[i].race,
        ) by {
        assert(is_scannable(qs[i].market));
        let k = choose|k: int| 0 <= k < sq.len() && sq[k] == qs[i];
        assert(market_keys(sq)[k] == market_key(qs[i]));
        assert(market_keys(sq).contains(market_key(qs[i])));
        let j = choose|j: int| 0 <= j < gs.len() && gs[j] == market_key(qs[i]);
        assert(ms[j].market == gs[j].1);
    }
}

/// In that entry, a price for the quote's outcome is at odds not below its own.
pub proof fn lemma_scan_price_not_below(qs: Seq<Quote>, ms: Seq<MarketPrices>)
    requires
        markets_of(qs, ms),
    ensures
        forall|i: int, j: int|
            0 <= i < qs.len() && 0 <= j < ms.len() && is_scannable(qs[i].market) && (#[trigger] ms[j]).market
                == (#[trigger] qs[i]).market && race_key(ms[j].race) == race_key(qs[i].race)
                ==> exists|p: int|
                0 <= p < ms[j].prices@.len() && runner_key(ms[j].prices@[p].outcome.name@) == outcome_key(
                    qs[i],
                ) && !binary64_gt(qs[i].odds@, ms[j].prices@[p].odds@),
{
    let sq = scanned(qs);
    let gs = first_occurrences(market_keys(sq));
    lemma_first_occurrences(market_keys(sq));
    lemma_scanned_has(qs);
    assert forall|i: int, j: int|
        0 <= i < qs.len() && 0 <= j < ms.len() && is_scannable(qs[i].market) && (#[trigger] ms[j]).market
            == (#[trigger] qs[i]).market && race_key(ms[j].race) == race_key(qs[i].race) implies exists|p: int|
        0 <= p < ms[j].prices@.len() && runner_key(ms[j].prices@[p].outcome.name@) == outcome_key(qs[i])
            && !binary64_gt(qs[i].odds@, ms[j].prices@[p].odds@) by {
        let g = gs[j];
        assert(g == market_key(qs[i]));
        let k = choose|k: int| 0 <= k < sq.len() && sq[k] == qs[i];
        lemma_quotes_under_has(sq, g);
        let us = quotes_under(sq, g);
        let t = choose|t: int| 0 <= t < us.len() && us[t] == sq[k];
        lemma_best_prices_cover(us, ms[j].prices@);
        assert(us[t] == qs[i]);
    }
}

/// Whether `b` is the outcome name, book and odds of an input quote of a
/// scanned market whose race (by canonical key) and market are those of entry
/// `m`.
pub open spec fn is_quote_price(qs: Seq<Quote>, m: MarketPrices, b: BestPrice) -> bool {
    exists|i: int|
        0 <= i < qs.len() && is_scannable(qs[i].market) && qs[i].market == m.market && race_key(
            qs[i].race,
        ) == race_key(m.race) && is_price_of(b, #[trigger] qs[i])
}

/// Each price of an entry is that of a quote of the entry's race and market.
pub proof fn lemma_scan_price_of_quote(qs: Seq<Quote>, ms: Seq<MarketPrices>)
    requires
        markets_of(qs, ms),
    ensures
        forall|j: int, p: int|
            0 <= j < ms.len() && 0 <= p < ms[j].prices@.len() ==> is_quote_price(
                qs,
                ms[j],
                #[trigger] ms[j].prices@[p],
            ),
{
    let sq = scanned(qs);
    let gs = first_occurrences(market_keys(sq));
    lemma_first_occurrences(market_keys(sq));
    lemma_scanned_from(qs);
    assert forall|j: int, p: int| 0 <= j < ms.len() && 0 <= p < ms[j].prices@.len() implies is_quote_price(
        qs,
        ms[j],
        #[trigger] ms[j].prices@[p],
    ) by {
        let g = gs[j];
        lemma_quotes_under_from(sq, g);
        let us = quotes_under(sq, g);
        lemma_best_prices_from(us, ms[j].prices@);
        let t = choose|t: int| 0 <= t < us.len() && is_price_of(ms[j].prices@[p], us[t]);
        let k = choose|k: int| 0 <= k < sq.len() && us[t] == sq[k] && market_key(sq[k]) == g;
        let i = choose|i: int| 0 <= i < qs.len() && sq[k] == qs[i] && is_scannable(qs[i].market);
        assert(qs[i] == us[t]);
    }
}

/// No two entries share a race and market.
pub proof fn lemma_scan_entries_distinct(qs: Seq<Quote>, ms: Seq<MarketPrices>)
    requires
        markets_of(qs, ms),
    ensures
        forall|a: int, b: int|
            0 <= a < b < ms.len() ==> !((#[trigger] ms[a]).market == (#[trigger] ms[b]).market
                && race_key(ms[a].race) == race_key(ms[b].race)),
{
    let sq = scanned(qs);
    let gs = first_occurrences(market_keys(sq));
    lemma_first_occurrences(market_keys(sq));
    assert forall|a: int, b: int| 0 <= a < b < ms.len() implies !((#[trigger] ms[a]).market == (
    #[trigger] ms[b]).market && race_key(ms[a].race) == race_key(ms[b].race)) by {
        assert(gs[a] != gs[b]);
    }
}

/// No two prices of one entry share a normalized outcome.
pub proof fn lemma_scan_outcomes_distinct(qs: Seq<Quote>, ms: Seq<MarketPrices>)
    requires
        markets_of(qs, ms),
    ensures
        forall|j: int, a: int, b: int|
            0 <= j < ms.len() && 0 <= a < b < (#[trigger] ms[j]).prices@.len() ==> runner_key(
                (#[trigger] ms[j].prices@[a]).outcome.name@,
            ) != runner_key((#[trigger] ms[j].prices@[b]).outcome.name@),
{
    let sq = scanned(qs);
    let gs = first_occurrences(market_keys(sq));
    lemma_first_occurrences(market_keys(sq));
    assert forall|j: int, a: int, b: int|
        0 <= j < ms.len() && 0 <= a < b < (#[trigger] ms[j]).prices@.len() implies runner_key(
        (#[trigger] ms[j].prices@[a]).outcome.name@,
    ) != runner_key((#[trigger] ms[j].prices@[b]).outcome.name@) by {
        lemma_best_prices_distinct(quotes_under(sq, gs[j]), ms[j].prices@);
    }
}

/// `first_race_index` over the first `n` quotes ignores what comes after them.
proof fn lemma_first_race_prefix(s: Seq<Quote>, x: Quote, rk: Seq<char>, n: int)
    requires
        0 <= n <= s.len(),
    ensures
        first_race_index(s.push(x), rk, n) == first_race_index(s, rk, n),
    decreases n,
{
    if n > 0 {
        lemma_first_race_prefix(s, x, rk, n - 1);
        assert(s.push(x)[n - 1] == s[n - 1]);
    }
}

/// The first scanned quote of a race is the first input quote of a scanned
/// market with that race key.
proof fn lemma_first_race_scanned(qs: Seq<Quote>, rk: Seq<char>)
    ensures
        ({
            let s = scanned(qs);
            let f = first_race_index(s, rk, s.len() as int);
            f >= 0 ==> exists|i: int|
                0 <= i < qs.len() && s[f] == #[trigger] qs[i] && is_scannable(qs[i].market)
                    && forall|e: int|
                    0 <= e < i && is_scannable(#[trigger] qs[e].market) ==> race_key(qs[e].race) != rk
        }),
    decreases qs.len(),
{
    if qs.len() > 0 {
        let d = qs.drop_last();
        let x = qs.last();
        lemma_first_race_scanned(d, rk);
        let sd = scanned(d);
        let fd = first_race_index(sd, rk, sd.len() as int);
        let s = scanned(qs);
        let f = first_race_index(s, rk, s.len() as int);
        lemma_first_race_index(sd, rk, sd.len() as int);
        if is_scannable(x.market) {
            lemma_first_race_prefix(sd, x, rk, sd.len() as int);
            assert(s == sd.push(x));
            if fd >= 0 {
                assert(f == fd);
                assert(s[f] == sd[f]);
                let i = choose|i: int|
                    0 <= i < d.len() && sd[fd] == #[trigger] d[i] && is_scannable(d[i].market)
                        && forall|e: int|
                        0 <= e < i && is_scannable(#[trigger] d[e].market) ==> race_key(d[e].race)
                            != rk;
                assert(qs[i] == d[i]);
                assert forall|e: int| 0 <= e < i && is_scannable(#[trigger] qs[e].market) implies race_key(
                    qs[e].race,
                ) != rk by {
                    assert(qs[e] == d[e]);
                }
            } else if f >= 0 {
                let i = qs.len() - 1;
                assert(s[f] == qs[i]);
                lemma_scanned_has(d);
                assert forall|e: int| 0 <= e < i && is_scannable(#[trigger] qs[e].market) implies race_key(
                    qs[e].race,
                ) != rk by {
                    assert(qs[e] == d[e]);
                    assert(is_scannable(d[e].market));
                    let k = choose|k: int| 0 <= k < sd.len() && sd[k] == d[e];
                    assert(race_key(sd[k].race) != rk);
                }
            }
        } else {
            assert(s == sd);
            if fd >= 0 {
                let i = choose|i: int|
                    0 <= i < d.len() && sd[fd] == #[trigger] d[i] && is_scannable(d[i].market)
                        && forall|e: int|
                        0 <= e < i && is_scannable(#[trigger] d[e].market) ==> race_key(d[e].race)
                            != rk;
                assert(qs[i] == d[i]);
                assert forall|e: int| 0 <= e < i && is_scannable(#[trigger] qs[e].market) implies race_key(
                    qs[e].race,
                ) != rk by {
                    assert(qs[e] == d[e]);
                }
            }
        }
    }
}

/// Whether `r` is the race of the first input quote of a scanned market whose
/// race has `r`'s canonical key.
pub open spec fn is_first_spelling(qs: Seq<Quote>, r: RaceKey) -> bool {
    exists|i: int|
        0 <= i < qs.len() && is_scannable(qs[i].market) && (#[trigger] qs[i]).race == r && forall|e: int|
            0 <= e < i && is_scannable(#[trigger] qs[e].market) ==> race_key(qs[e].race) != race_key(r)
}

/// Each entry's race is spelled as the first scanned quote of that race (by
/// canonical key) spells it, whatever the market of that quote.
pub proof fn lemma_scan_race_spelling(qs: Seq<Quote>, ms: Seq<MarketPrices>)
    requires
        markets_of(qs, ms),
    ensures
        forall|j: int| 0 <= j < ms.len() ==> is_first_spelling(qs, (#[trigger] ms[j]).race),
{
    let sq = scanned(qs);
    let gs = first_occurrences(market_keys(sq));
    lemma_first_occurrences(market_keys(sq));
    assert forall|j: int| 0 <= j < ms.len() implies is_first_spelling(qs, (#[trigger] ms[j]).race) by {
        let g = gs[j];
        assert(gs.contains(g));
        assert(market_keys(sq).contains(g));
        let w = choose|w: int| 0 <= w < market_keys(sq).len() && market_keys(sq)[w] == g;
        assert(race_key(sq[w].race) == g.0);
        lemma_first_race_index(sq, g.0, sq.len() as int);
        lemma_first_race_scanned(qs, g.0);
        let f = first_race_index(sq, g.0, sq.len() as int);
        assert(ms[j].race == sq[f].race);
        assert(race_key(ms[j].race) == g.0);
    }
}


/// Every scanned quote is of a scanned market.
proof fn lemma_scanned_markets(qs: Seq<Quote>)
    ensures
        forall|i: int| 0 <= i < scanned(qs).len() ==> is_scannable(#[trigger] scanned(qs)[i].market),
    decreases qs.len(),
{
    if qs.len() > 0 {
        lemma_scanned_markets(qs.drop_last());
        let p = scanned(qs.drop_last());
        assert forall|i: int| 0 <= i < scanned(qs).len() implies is_scannable(
            #[trigger] scanned(qs)[i].market,
        ) by {
            if i < p.len() {
                assert(scanned(qs)[i] == p[i]);
            }
        }
    }
}

} // verus!
