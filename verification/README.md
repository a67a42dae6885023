# race_arb

Horse-race surebet / odds arbitrage scanner, as a Verus-verified library with
a small command line around it. Alerts and stake sizes only: it never places
bets.

- `src/` is the verified library:
  - `text.rs`: Unicode whitespace, trimming, upper-casing and decimal digits;
  - `dates.rs`: race-card dates, checked and written out by `chrono`;
  - `types.rs`: decimal odds (held as their binary64 bit patterns), markets,
    races, outcomes, quotes and best prices;
  - `matching.rs`: track and runner-name normalization, the canonical race key
    and grouping by race, with the laws they keep;
  - `scan.rs`: which markets are scanned, grouping of quotes by race and
    market, and the best price per normalized outcome;
  - `adapters.rs`: the JSON file adapter, turning parsed odds-file records into
    quotes, the Xpressbet snapshot stub and the two mock books of the demo.
- `app/` is the command line: reading and parsing odds files, the floating-point surebet
  arithmetic (implied sums, stakes, profits, edge), sorting and printing.
- `tests/` runs the library on concrete values.
