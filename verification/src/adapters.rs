//! Odds sources. A JSON file adapter and the Xpressbet stub read local files
//! only; the mock books are synthetic and misprice on purpose so that the
//! demo finds surebets. No source here scrapes a live feed.

use vstd::prelude::*;

use crate::dates::RaceDate;
use crate::types::{valid_odds_bits, DecimalOdds, MarketKind, Outcome, Quote, RaceKey};

verus! {

/// Reads quotes from a local JSON file of the generic odds schema.
#[derive(Debug)]
pub struct JsonFileAdapter {
    path: String,
    label: String,
}

impl JsonFileAdapter {
    /// An adapter is named after its file: `JsonFile(<path>)`.
    #[verifier::type_invariant]
    spec fn named_after_path(&self) -> bool {
        self.label@ == "JsonFile("@ + self.path@ + ")"@
    }

    /// The path of the file this adapter reads.
    pub closed spec fn spec_path(&self) -> Seq<char> {
        self.path@
    }

    /// The name this adapter reports.
    pub closed spec fn spec_label(&self) -> Seq<char> {
        self.label@
    }

    /// An adapter for the file at `path`, named `JsonFile(<path>)`.
    pub fn new(path: &str) -> (r: JsonFileAdapter)
        ensures
            r.spec_path() == path@,
            r.spec_label() == "JsonFile("@ + path@ + ")"@,
    {
        let mut label = String::from_str("JsonFile(");
        label.append(path);
        label.append(")");
        JsonFileAdapter { path: String::from_str(path), label }
    }

    /// The name of this source.
    pub fn name(&self) -> (r: &str)
        ensures
            r@ == self.spec_label(),
            r@ == "JsonFile("@ + self.spec_path() + ")"@,
    {
        proof {
            use_type_invariant(self);
        }
        self.label.as_str()
    }

    /// The path of the file this adapter reads.
    pub fn path(&self) -> (r: &str)
        ensures
            r@ == self.spec_path(),
    {
        self.path.as_str()
    }
}

/// One record of an odds file in the generic schema, the price given as the
/// bit pattern of its binary64 value.
#[derive(Debug)]
pub struct QuoteRecord {
    pub book: String,
    pub track: String,
    pub date: RaceDate,
    pub race_number: u32,
    pub market: MarketKind,
    pub outcome: String,
    pub odds: u64,
}

/// A record whose price is not valid decimal odds: the outcome it priced, and
/// why the price was refused.
#[derive(Debug)]
pub struct InvalidOdds {
    pub outcome: String,
    pub detail: String,
}

/// Whether `q` is the quote that record `r` describes.
pub open spec fn is_record_quote(r: QuoteRecord, q: Quote) -> bool {
    &&& q.book@ == r.book@
    &&& q.race.track@ == r.track@
    &&& q.race.date == r.date
    &&& q.race.race_number == r.race_number
    &&& q.market == r.market
    &&& q.outcome.name@ == r.outcome@
    &&& q.odds@ == r.odds
}

/// Whether the first `n` records all carry valid prices.
pub open spec fn valid_prices_up_to(records: Seq<QuoteRecord>, n: int) -> bool {
    forall|j: int| 0 <= j < n ==> valid_odds_bits(#[trigger] records[j].odds)
}

/// Whether record `i` is the first with a price that is not valid.
pub open spec fn is_first_invalid(records: Seq<QuoteRecord>, i: int) -> bool {
    &&& 0 <= i < records.len()
    &&& !valid_odds_bits(records[i].odds)
    &&& valid_prices_up_to(records, i)
}

/// The quotes that the records describe, in order; or, at the first record
/// whose price is not finite and above 1.0, that record's outcome with the
/// reason the price was refused.
pub fn quotes_from_records(records: &[QuoteRecord]) -> (r: Result<Vec<Quote>, InvalidOdds>)
    ensures
        r is Ok <==> valid_prices_up_to(records@, records@.len() as int),
        r is Ok <==> forall|j: int|
            0 <= j < records@.len() ==> 0x3FF0_0000_0000_0000u64 < (#[trigger] records@[j]).odds
                && records@[j].odds < 0x7FF0_0000_0000_0000u64,
        r matches Ok(qs) ==> qs@.len() == records@.len() && forall|i: int|
            0 <= i < records@.len() ==> is_record_quote(#[trigger] records@[i], qs@[i]),
        r matches Err(e) ==> exists|i: int|
            is_first_invalid(records@, i) && e.outcome@ == records@[i].outcome@ && e.detail@
                == "decimal odds must be finite and > 1.0"@,
{
    let mut out: Vec<Quote> = Vec::new();
    let mut i: usize = 0;
    while i < records.len()
        invariant
            i <= records@.len(),
            out@.len() == i,
            valid_prices_up_to(records@, i as int),
            forall|k: int| 0 <= k < i ==> is_record_quote(#[trigger] records@[k], out@[k]),
        decreases records@.len() - i,
    {
        let rec = &records[i];
        match DecimalOdds::new(rec.odds) {
            Ok(odds) => {
                out.push(
                    Quote {
                        book: rec.book.clone(),
                        race: RaceKey::new(rec.track.as_str(), rec.date, rec.race_number),
                        market: rec.market,
                        outcome: Outcome::new(rec.outcome.as_str()),
                        odds,
                    },
                );
            },
            Err(e) => {
                let detail = String::from_str(e);
                assert(is_first_invalid(records@, i as int));
                return Err(InvalidOdds { outcome: rec.outcome.clone(), detail });
            },
        }
        i = i + 1;
    }
    Ok(out)
}

/// Xpressbet stub: reads a local JSON snapshot that the user exported, in the
/// generic schema. It does not scrape xpressbet.com or any live feed.
#[derive(Debug)]
pub struct XpressbetStub {
    inner: JsonFileAdapter,
    label: String,
}

impl XpressbetStub {
    /// The path of the snapshot this stub reads.
    pub closed spec fn spec_path(&self) -> Seq<char> {
        self.inner.spec_path()
    }

    /// The name this stub reports.
    pub closed spec fn spec_label(&self) -> Seq<char> {
        self.label@
    }

    /// A stub for the snapshot at `path`, named `XpressbetStub(<path>)`.
    pub fn from_local_json(path: &str) -> (r: XpressbetStub)
        ensures
            r.spec_path() == path@,
            r.spec_label() == "XpressbetStub("@ + path@ + ")"@,
    {
        let mut label = String::from_str("XpressbetStub(");
        label.append(path);
        label.append(")");
        XpressbetStub { inner: JsonFileAdapter::new(path), label }
    }

    /// Convenience for a bundled sample snapshot.
    pub fn sample(path: &str) -> (r: XpressbetStub)
        ensures
            r.spec_path() == path@,
            r.spec_label() == "XpressbetStub("@ + path@ + ")"@,
    {
        Self::from_local_json(path)
    }

    /// The name of this source.
    pub fn name(&self) -> (r: &str)
        ensures
            r@ == self.spec_label(),
    {
        self.label.as_str()
    }

    /// The JSON file adapter that reads the snapshot.
    pub fn inner(&self) -> (r: &JsonFileAdapter)
        ensures
            r.spec_path() == self.spec_path(),
            r.spec_label() == "JsonFile("@ + self.spec_path() + ")"@,
    {
        proof {
            use_type_invariant(&self.inner);
        }
        &self.inner
    }
}

/// Whether `q` is the demo quote of `book` on race 5 at SA on 2026-09-13 for
/// `outcome` in `market`, at the price with bit pattern `bits`.
pub open spec fn is_demo_quote(
    q: Quote,
    book: Seq<char>,
    market: MarketKind,
    outcome: Seq<char>,
    bits: u64,
) -> bool {
    &&& q.book@ == book
    &&& q.race.track@ == "SA"@
    &&& q.race.date@ == (2026int, 9int, 13int)
    &&& q.race.race_number == 5
    &&& q.market == market
    &&& q.outcome.name@ == outcome
    &&& q.odds@ == bits
}

/// The race that the mock books price: race 5 at SA on 2026-09-13.
fn demo_race() -> (r: RaceKey)
    ensures
        r.track@ == "SA"@,
        r.date@ == (2026int, 9int, 13int),
        r.race_number == 5,
{
    let date = RaceDate::from_ymd(2026, 9, 13).unwrap();
    RaceKey::new("SA", date, 5)
}

/// A demo quote of `book` for `outcome` in `market` at the price with bit
/// pattern `bits`.
fn demo_quote(book: &str, market: MarketKind, outcome: &str, bits: u64) -> (q: Quote)
    ensures
        is_demo_quote(q, book@, market, outcome@, bits),
{
    Quote {
        book: String::from_str(book),
        race: demo_race(),
        market,
        outcome: Outcome::new(outcome),
        odds: DecimalOdds::from_unchecked(bits),
    }
}

/// Mock Book A: long on Thunder Bay and Meadow Lark in the win market, and
/// generous on Thunder Bay against the field.
#[derive(Debug, Clone, Copy)]
pub struct MockBookA;

impl MockBookA {
    /// The name of this source.
    pub fn name(&self) -> (r: &'static str)
        ensures
            r@ == "MockBookA"@,
    {
        "MockBookA"
    }

    /// The book's prices: win 3.80 Thunder Bay, 2.40 Coastal Fog, 4.20 Meadow
    /// Lark; horse-vs-field 2.25 Thunder Bay, 1.85 Field.
    pub fn fetch_quotes(&self) -> (r: Vec<Quote>)
        ensures
            r@.len() == 5,
            is_demo_quote(r@[0], "MockBookA"@, MarketKind::Win, "Thunder Bay"@, 0x400E_6666_6666_6666),
            is_demo_quote(r@[1], "MockBookA"@, MarketKind::Win, "Coastal Fog"@, 0x4003_3333_3333_3333),
            is_demo_quote(r@[2], "MockBookA"@, MarketKind::Win, "Meadow Lark"@, 0x4010_CCCC_CCCC_CCCD),
            is_demo_quote(
                r@[3],
                "MockBookA"@,
                MarketKind::HorseVsField,
                "Thunder Bay"@,
                0x4002_0000_0000_0000,
            ),
            is_demo_quote(r@[4], "MockBookA"@, MarketKind::HorseVsField, "Field"@, 0x3FFD_9999_9999_999A),
    {
        let mut r: Vec<Quote> = Vec::new();
        r.push(demo_quote("MockBookA", MarketKind::Win, "Thunder Bay", 0x400E_6666_6666_6666));
        r.push(demo_quote("MockBookA", MarketKind::Win, "Coastal Fog", 0x4003_3333_3333_3333));
        r.push(demo_quote("MockBookA", MarketKind::Win, "Meadow Lark", 0x4010_CCCC_CCCC_CCCD));
        r.push(demo_quote("MockBookA", MarketKind::HorseVsField, "Thunder Bay", 0x4002_0000_0000_0000));
        r.push(demo_quote("MockBookA", MarketKind::HorseVsField, "Field", 0x3FFD_9999_9999_999A));
        r
    }
}

/// Mock Book B: long on Coastal Fog in the win market, and generous on the
/// field against Thunder Bay; together with Book A this yields surebets.
#[derive(Debug, Clone, Copy)]
pub struct MockBookB;

impl MockBookB {
    /// The name of this source.
    pub fn name(&self) -> (r: &'static str)
        ensures
            r@ == "MockBookB"@,
    {
        "MockBookB"
    }

    /// The book's prices: win 2.90 Thunder Bay, 3.60 Coastal Fog, 3.10 Meadow
    /// Lark; horse-vs-field 1.80 Thunder Bay, 2.20 Field.
    pub fn fetch_quotes(&self) -> (r: Vec<Quote>)
        ensures
            r@.len() == 5,
            is_demo_quote(r@[0], "MockBookB"@, MarketKind::Win, "Thunder Bay"@, 0x4007_3333_3333_3333),
            is_demo_quote(r@[1], "MockBookB"@, MarketKind::Win, "Coastal Fog"@, 0x400C_CCCC_CCCC_CCCD),
            is_demo_quote(r@[2], "MockBookB"@, MarketKind::Win, "Meadow Lark"@, 0x4008_CCCC_CCCC_CCCD),
            is_demo_quote(
                r@[3],
                "MockBookB"@,
                MarketKind::HorseVsField,
                "Thunder Bay"@,
                0x3FFC_CCCC_CCCC_CCCD,
            ),
            is_demo_quote(r@[4], "MockBookB"@, MarketKind::HorseVsField, "Field"@, 0x4001_9999_9999_999A),
    {
        let mut r: Vec<Quote> = Vec::new();
        r.push(demo_quote("MockBookB", MarketKind::Win, "Thunder Bay", 0x4007_3333_3333_3333));
        r.push(demo_quote("MockBookB", MarketKind::Win, "Coastal Fog", 0x400C_CCCC_CCCC_CCCD));
        r.push(demo_quote("MockBookB", MarketKind::Win, "Meadow Lark", 0x4008_CCCC_CCCC_CCCD));
        r.push(demo_quote("MockBookB", MarketKind::HorseVsField, "Thunder Bay", 0x3FFC_CCCC_CCCC_CCCD));
        r.push(demo_quote("MockBookB", MarketKind::HorseVsField, "Field", 0x4001_9999_9999_999A));
        r
    }
}

} // verus!
