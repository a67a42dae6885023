use race_arb::{
    best_prices, scan_markets, scannable, DecimalOdds, MarketKind, MockBookA, MockBookB, Outcome,
    Quote, RaceDate, RaceKey,
};

fn odds(v: f64) -> DecimalOdds {
    DecimalOdds::new(v.to_bits()).unwrap()
}

fn value(o: DecimalOdds) -> f64 {
    f64::from_bits(o.to_bits())
}

fn quote(book: &str, track: &str, number: u32, market: MarketKind, outcome: &str, v: f64) -> Quote {
    Quote {
        book: book.to_string(),
        race: RaceKey::new(track, RaceDate::from_ymd(2026, 9, 13).unwrap(), number),
        market,
        outcome: Outcome::new(outcome),
        odds: odds(v),
    }
}

#[test]
fn reject_invalid_odds() {
    assert!(DecimalOdds::new(1.0f64.to_bits()).is_err());
    assert!(DecimalOdds::new(0.5f64.to_bits()).is_err());
    assert!(DecimalOdds::new(f64::NAN.to_bits()).is_err());
}

#[test]
fn odds_validation_edges() {
    assert!(DecimalOdds::new(f64::INFINITY.to_bits()).is_err());
    assert!(DecimalOdds::new((-3.0f64).to_bits()).is_err());
    assert!(DecimalOdds::new((-0.0f64).to_bits()).is_err());
    assert!(DecimalOdds::new(f64::MAX.to_bits()).is_ok());
    let just_above_one = f64::from_bits(1.0f64.to_bits() + 1);
    assert!(DecimalOdds::new(just_above_one.to_bits()).is_ok());
    assert_eq!(
        DecimalOdds::new(1.0f64.to_bits()).unwrap_err(),
        "decimal odds must be finite and > 1.0"
    );
    assert_eq!(value(odds(2.5)), 2.5);
}

#[test]
fn better_odds_compare_as_values() {
    assert!(odds(2.5).is_better_than(odds(2.25)));
    assert!(!odds(2.25).is_better_than(odds(2.5)));
    assert!(!odds(2.5).is_better_than(odds(2.5)));
    assert!(odds(100.0).is_better_than(odds(1.01)));
}

#[test]
fn better_odds_agree_with_f64_comparison_on_every_pattern() {
    let values = [
        0.0,
        -0.0,
        1.0,
        1.5,
        -1.5,
        2.0,
        -2.0,
        f64::INFINITY,
        f64::NEG_INFINITY,
        f64::NAN,
        -f64::NAN,
        f64::MIN_POSITIVE,
        f64::MAX,
        f64::MIN,
    ];
    for a in values {
        for b in values {
            let oa = DecimalOdds::from_unchecked(a.to_bits());
            let ob = DecimalOdds::from_unchecked(b.to_bits());
            assert_eq!(oa.is_better_than(ob), a > b, "{a} > {b}");
        }
    }
}

#[test]
fn a_nan_price_never_displaces_the_best() {
    let mut quotes = vec![
        quote("A", "SA", 5, MarketKind::Win, "X", 2.0),
        quote("B", "SA", 5, MarketKind::Win, "X", 3.0),
    ];
    quotes[1].odds = DecimalOdds::from_unchecked(f64::NAN.to_bits());
    let prices = best_prices(&quotes);
    assert_eq!(prices.len(), 1);
    assert_eq!(prices[0].book, "A");
}

#[test]
fn scannable_markets_are_win_and_horse_vs_field() {
    assert!(scannable(MarketKind::Win));
    assert!(scannable(MarketKind::HorseVsField));
    assert!(!scannable(MarketKind::Place));
    assert!(!scannable(MarketKind::Show));
}

#[test]
fn market_names() {
    assert_eq!(MarketKind::Win.to_string(), "win");
    assert_eq!(MarketKind::HorseVsField.to_string(), "horse_vs_field");
    assert_eq!(MarketKind::Place.to_string(), "place");
    assert_eq!(MarketKind::Show.to_string(), "show");
}

#[test]
fn race_text_shows_track_date_and_number() {
    let race = RaceKey::new("SA", RaceDate::from_ymd(2026, 9, 13).unwrap(), 5);
    assert_eq!(race.to_string(), "SA 2026-09-13 R5");
}

#[test]
fn dates_follow_the_calendar() {
    assert!(RaceDate::from_ymd(2015, 3, 14).is_some());
    assert!(RaceDate::from_ymd(2015, 0, 14).is_none());
    assert!(RaceDate::from_ymd(2015, 2, 29).is_none());
    assert!(RaceDate::from_ymd(2016, 2, 29).is_some());
    assert!(RaceDate::from_ymd(1900, 2, 29).is_none());
    assert!(RaceDate::from_ymd(2000, 2, 29).is_some());
    assert!(RaceDate::from_ymd(-4, 2, 29).is_some());
    assert!(RaceDate::from_ymd(2023, 4, 31).is_none());
    assert!(RaceDate::from_ymd(400000, 1, 1).is_none());
    assert!(RaceDate::from_ymd(-400000, 1, 1).is_none());
    let d = RaceDate::from_ymd(2026, 9, 13).unwrap();
    assert_eq!((d.year(), d.month(), d.day()), (2026, 9, 13));
    assert_eq!(d.to_string(), "2026-09-13");
}

#[test]
fn best_price_is_the_first_highest_per_normalized_outcome() {
    let quotes = vec![
        quote("A", "SA", 5, MarketKind::Win, "Thunder Bay", 3.8),
        quote("B", "SA", 5, MarketKind::Win, "thunder  bay", 2.9),
        quote("B", "SA", 5, MarketKind::Win, "Coastal Fog", 3.6),
        quote("C", "SA", 5, MarketKind::Win, "THUNDER-BAY", 3.8),
        quote("C", "SA", 5, MarketKind::Win, "Coastal Fog", 3.7),
    ];
    let prices = best_prices(&quotes);
    assert_eq!(prices.len(), 2);
    assert_eq!(prices[0].outcome.name, "Thunder Bay");
    assert_eq!(prices[0].book, "A");
    assert_eq!(value(prices[0].odds), 3.8);
    assert_eq!(prices[1].outcome.name, "Coastal Fog");
    assert_eq!(prices[1].book, "C");
    assert_eq!(value(prices[1].odds), 3.7);
}

#[test]
fn best_prices_of_no_quotes_is_empty() {
    assert!(best_prices(&[]).is_empty());
}

#[test]
fn cross_book_demo_markets() {
    let mut quotes = MockBookA.fetch_quotes();
    quotes.extend(MockBookB.fetch_quotes());
    let markets = scan_markets(&quotes);
    assert_eq!(markets.len(), 2);
    let win = &markets[0];
    assert_eq!(win.market, MarketKind::Win);
    assert_eq!(win.race.to_string(), "SA 2026-09-13 R5");
    let got: Vec<(String, String, f64)> = win
        .prices
        .iter()
        .map(|p| (p.outcome.name.clone(), p.book.clone(), value(p.odds)))
        .collect();
    assert_eq!(
        got,
        vec![
            ("Thunder Bay".to_string(), "MockBookA".to_string(), 3.8),
            ("Coastal Fog".to_string(), "MockBookB".to_string(), 3.6),
            ("Meadow Lark".to_string(), "MockBookA".to_string(), 4.2),
        ]
    );
    let hvf = &markets[1];
    assert_eq!(hvf.market, MarketKind::HorseVsField);
    let got: Vec<(String, String, f64)> = hvf
        .prices
        .iter()
        .map(|p| (p.outcome.name.clone(), p.book.clone(), value(p.odds)))
        .collect();
    assert_eq!(
        got,
        vec![
            ("Thunder Bay".to_string(), "MockBookA".to_string(), 2.25),
            ("Field".to_string(), "MockBookB".to_string(), 2.2),
        ]
    );
    // The implied probabilities of the best prices sum below one.
    let s: f64 = win.prices.iter().map(|p| 1.0 / value(p.odds)).sum();
    assert!(s < 1.0);
}

#[test]
fn scan_skips_place_and_show_and_splits_races() {
    let quotes = vec![
        quote("A", "SA", 5, MarketKind::Place, "X", 2.0),
        quote("A", "SA", 5, MarketKind::Win, "X", 2.0),
        quote("B", " sa ", 5, MarketKind::Win, "Y", 2.0),
        quote("B", "SA", 6, MarketKind::Win, "Y", 2.0),
        quote("B", "sa", 5, MarketKind::HorseVsField, "Y", 2.0),
        quote("C", "SA", 5, MarketKind::Show, "X", 2.0),
    ];
    let markets = scan_markets(&quotes);
    assert_eq!(markets.len(), 3);
    assert_eq!(markets[0].market, MarketKind::Win);
    assert_eq!(markets[0].race.race_number, 5);
    assert_eq!(markets[0].race.track, "SA");
    assert_eq!(markets[0].prices.len(), 2);
    assert_eq!(markets[1].race.race_number, 6);
    assert_eq!(markets[2].market, MarketKind::HorseVsField);
    // The race is spelled as its first scanned quote spells it.
    assert_eq!(markets[2].race.track, "SA");
}

#[test]
fn mock_books_name_themselves() {
    assert_eq!(MockBookA.name(), "MockBookA");
    assert_eq!(MockBookB.name(), "MockBookB");
    assert_eq!(MockBookA.fetch_quotes().len(), 5);
    assert_eq!(MockBookB.fetch_quotes()[1].outcome.name, "Coastal Fog");
}

fn surebet_markets(quotes: &[Quote]) -> usize {
    scan_markets(quotes)
        .iter()
        .filter(|m| {
            m.prices.len() >= 2 && m.prices.iter().map(|p| 1.0 / value(p.odds)).sum::<f64>() < 1.0
        })
        .count()
}

#[test]
fn mock_adapters_alone_no_arb_within_book() {
    for quotes in [MockBookA.fetch_quotes(), MockBookB.fetch_quotes()] {
        let win_odds: Vec<DecimalOdds> = quotes
            .iter()
            .filter(|q| matches!(q.market, MarketKind::Win))
            .map(|q| q.odds)
            .collect();
        assert_eq!(win_odds.len(), 3);
        // Each book alone scans without panic; its two markets are found.
        assert_eq!(scan_markets(&quotes).len(), 2);
    }
}

#[test]
fn cross_book_scan() {
    let mut quotes = MockBookA.fetch_quotes();
    quotes.extend(MockBookB.fetch_quotes());
    assert!(surebet_markets(&quotes) >= 2, "expect win + horse_vs_field surebets");
    assert_eq!(surebet_markets(&MockBookA.fetch_quotes()), 2);
    assert_eq!(surebet_markets(&MockBookB.fetch_quotes()), 1);
}

#[test]
fn odds_compare_as_floats() {
    let nan = DecimalOdds::from_unchecked(f64::NAN.to_bits());
    assert!(nan != nan);
    assert_eq!(nan.partial_cmp(&nan), None);
    let zero = DecimalOdds::from_unchecked(0.0f64.to_bits());
    let negative_zero = DecimalOdds::from_unchecked((-0.0f64).to_bits());
    assert!(zero == negative_zero);
    assert!(odds(2.5) == odds(2.5));
    assert!(odds(2.5) != odds(3.0));
    assert!(odds(2.5) < odds(3.0));
    assert!(odds(3.0) > odds(2.5));
    assert_eq!(odds(2.5).partial_cmp(&odds(2.5)), Some(std::cmp::Ordering::Equal));
    let negative = DecimalOdds::from_unchecked((-2.0f64).to_bits());
    assert!(negative < zero);
    assert!(!(nan < zero) && !(nan > zero));
}

#[test]
fn keys_outcomes_and_quotes_compare_by_fields() {
    let date = RaceDate::from_ymd(2026, 9, 13).unwrap();
    assert!(RaceKey::new("SA", date, 5) == RaceKey::new("SA", date, 5));
    assert!(RaceKey::new("SA", date, 5) != RaceKey::new("SA", date, 6));
    assert!(RaceKey::new("SA", date, 5) != RaceKey::new("sa", date, 5));
    assert!(Outcome::new("Field") == Outcome::new("Field"));
    assert!(Outcome::new("Field") != Outcome::new("field"));
    let q = |v: f64| Quote {
        book: "B".to_string(),
        race: RaceKey::new("SA", date, 5),
        market: MarketKind::Win,
        outcome: Outcome::new("Field"),
        odds: DecimalOdds::from_unchecked(v.to_bits()),
    };
    assert!(q(2.5) == q(2.5));
    assert!(q(2.5) != q(2.6));
    assert!(q(f64::NAN) != q(f64::NAN));
}
