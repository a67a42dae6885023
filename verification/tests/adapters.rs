use race_arb::{
    quotes_from_records, DecimalOdds, JsonFileAdapter, MarketKind, Outcome, Quote, QuoteRecord,
    RaceDate, RaceKey, XpressbetStub,
};

#[test]
fn json_adapter_is_named_after_its_file() {
    let a = JsonFileAdapter::new("fixtures/demo_odds.json");
    assert_eq!(a.name(), "JsonFile(fixtures/demo_odds.json)");
    assert_eq!(a.path(), "fixtures/demo_odds.json");
}

#[test]
fn xpressbet_stub_reads_through_a_json_adapter() {
    let x = XpressbetStub::from_local_json("snap.json");
    assert_eq!(x.name(), "XpressbetStub(snap.json)");
    assert_eq!(x.inner().path(), "snap.json");
    assert_eq!(x.inner().name(), "JsonFile(snap.json)");
    let s = XpressbetStub::sample("fixtures/xpressbet_sample.json");
    assert_eq!(s.name(), "XpressbetStub(fixtures/xpressbet_sample.json)");
}

fn record(outcome: &str, odds: f64) -> QuoteRecord {
    QuoteRecord {
        book: "SomeBook".to_string(),
        track: "SA".to_string(),
        date: RaceDate::from_ymd(2026, 9, 13).unwrap(),
        race_number: 5,
        market: MarketKind::Win,
        outcome: outcome.to_string(),
        odds: odds.to_bits(),
    }
}

#[test]
fn records_become_quotes_in_order() {
    let records = vec![record("Thunder Bay", 3.5), record("Coastal Fog", 2.0)];
    let quotes = quotes_from_records(&records).unwrap();
    let date = RaceDate::from_ymd(2026, 9, 13).unwrap();
    let expected = vec![
        Quote {
            book: "SomeBook".to_string(),
            race: RaceKey::new("SA", date, 5),
            market: MarketKind::Win,
            outcome: Outcome::new("Thunder Bay"),
            odds: DecimalOdds::new(3.5f64.to_bits()).unwrap(),
        },
        Quote {
            book: "SomeBook".to_string(),
            race: RaceKey::new("SA", date, 5),
            market: MarketKind::Win,
            outcome: Outcome::new("Coastal Fog"),
            odds: DecimalOdds::new(2.0f64.to_bits()).unwrap(),
        },
    ];
    assert!(quotes == expected);
    assert!(quotes_from_records(&[]).unwrap().is_empty());
}

#[test]
fn records_stop_at_the_first_invalid_price() {
    let records = vec![
        record("Thunder Bay", 3.5),
        record("Coastal Fog", 1.0),
        record("Meadow Lark", f64::NAN),
    ];
    let e = quotes_from_records(&records).unwrap_err();
    assert_eq!(e.outcome, "Coastal Fog");
    assert_eq!(e.detail, "decimal odds must be finite and > 1.0");
    let e = quotes_from_records(&[record("Field", f64::INFINITY)]).unwrap_err();
    assert_eq!(e.outcome, "Field");
}
