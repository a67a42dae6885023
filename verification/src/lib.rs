//! `race_arb`: horse-race surebet / odds arbitrage scanning.
//!
//! Quotes from several books are matched by race (normalized track, date and
//! race number) and by runner (normalized name), and the best decimal odds
//! per outcome are picked for each scanned market. A market is a surebet when
//! the implied probabilities of those best prices sum below one. Alerts and
//! stake sizes only: nothing here places bets.

pub mod text;
pub mod dates;
pub mod types;
pub mod matching;
pub mod scan;
pub mod adapters;

pub use adapters::{
    quotes_from_records, InvalidOdds, JsonFileAdapter, MockBookA, MockBookB, QuoteRecord,
    XpressbetStub,
};
pub use dates::RaceDate;
pub use matching::{canonical_race_key, group_by_race, normalize_runner, normalize_track};
pub use scan::{best_prices, scan_markets, scannable, MarketPrices};
pub use types::{BestPrice, DecimalOdds, MarketKind, Outcome, Quote, RaceKey};
