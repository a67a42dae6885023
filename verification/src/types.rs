//! Core domain types for horse-race odds and markets.

use vstd::prelude::*;

use std::cmp::Ordering;
use vstd::std_specs::cmp::{PartialEqSpecImpl, PartialOrdSpecImpl};

use crate::dates::{date_text, RaceDate};
use crate::text::{decimal, digits_value, is_digit_char, lemma_decimal_injective, lemma_decimal_value};

verus! {

/// Lowest bit pattern above that of the binary64 value 1.0 belongs to the
/// smallest valid price; `0x3FF0_0000_0000_0000` is the pattern of 1.0.
pub open spec fn one_bits() -> u64 {
    0x3FF0_0000_0000_0000
}

/// Bit pattern of binary64 positive infinity.
pub open spec fn infinity_bits() -> u64 {
    0x7FF0_0000_0000_0000
}

/// Whether a binary64 bit pattern holds a finite price above 1.0. Positive
/// binary64 values are ordered as their bit patterns are, the patterns of
/// negative values have the sign bit set, and every pattern above that of
/// positive infinity is a NaN; so the finite values above 1.0 are exactly the
/// patterns strictly between those of 1.0 and of infinity.
pub open spec fn valid_odds_bits(bits: u64) -> bool {
    one_bits() < bits < infinity_bits()
}

/// Bit pattern of the sign bit of a binary64 value.
pub open spec fn sign_bit() -> u64 {
    0x8000_0000_0000_0000
}

/// The magnitude bits of a binary64 bit pattern (all but the sign).
pub open spec fn magnitude_bits(bits: u64) -> int {
    if bits >= sign_bit() {
        bits - sign_bit()
    } else {
        bits as int
    }
}

/// Whether a binary64 bit pattern is a NaN.
pub open spec fn is_nan_bits(bits: u64) -> bool {
    magnitude_bits(bits) > infinity_bits()
}

/// For a binary64 value that is not a NaN, an integer that orders such values
/// as their values are ordered: the magnitude bits, negated for negative
/// values (both zeros map to 0).
pub open spec fn order_key(bits: u64) -> int {
    if bits >= sign_bit() {
        -magnitude_bits(bits)
    } else {
        magnitude_bits(bits)
    }
}

/// `a > b` on the binary64 values with bit patterns `a` and `b`: false when
/// either is a NaN, else the order of their values.
pub open spec fn binary64_gt(a: u64, b: u64) -> bool {
    !is_nan_bits(a) && !is_nan_bits(b) && order_key(a) > order_key(b)
}

/// `a == b` on the binary64 values with bit patterns `a` and `b`: false when
/// either is a NaN, else whether their values are equal (the two zeros are).
pub open spec fn binary64_eq(a: u64, b: u64) -> bool {
    !is_nan_bits(a) && !is_nan_bits(b) && order_key(a) == order_key(b)
}

/// `partial_cmp` on the binary64 values with bit patterns `a` and `b`: no
/// answer when either is a NaN, else the order of their values.
pub open spec fn binary64_partial_cmp(a: u64, b: u64) -> Option<Ordering> {
    if is_nan_bits(a) || is_nan_bits(b) {
        None
    } else if order_key(a) < order_key(b) {
        Some(Ordering::Less)
    } else if order_key(a) == order_key(b) {
        Some(Ordering::Equal)
    } else {
        Some(Ordering::Greater)
    }
}

/// A price is accepted exactly when its bit pattern lies strictly between
/// that of 1.0 and that of positive infinity; equally, exactly when its value
/// is not a NaN, not infinite, and compares above 1.0 as binary64 `>` does.
pub proof fn lemma_valid_odds_bits(bits: u64)
    ensures
        valid_odds_bits(bits) <==> (0x3FF0_0000_0000_0000u64 < bits && bits
            < 0x7FF0_0000_0000_0000u64),
        valid_odds_bits(bits) <==> (!is_nan_bits(bits) && magnitude_bits(bits)
            != 0x7FF0_0000_0000_0000 && binary64_gt(bits, 0x3FF0_0000_0000_0000u64)),
{
}

/// On valid prices, `binary64_gt` is the order of the bit patterns.
pub proof fn lemma_valid_odds_order(a: u64, b: u64)
    requires
        valid_odds_bits(a),
        valid_odds_bits(b),
    ensures
        binary64_gt(a, b) <==> a > b,
{
}

/// Decimal odds (European style): a price of 2.50 returns $2.50 per $1
/// staked, stake included. The price is held as its IEEE 754 binary64 bit
/// pattern, which for valid prices orders them as their values do.
#[derive(Clone, Copy, Debug)]
pub struct DecimalOdds {
    bits: u64,
}

impl View for DecimalOdds {
    type V = u64;

    closed spec fn view(&self) -> u64 {
        self.bits
    }
}

impl DecimalOdds {
    /// Checked construction from the bit pattern of a price: the price must be
    /// finite and above 1.0.
    pub fn new(bits: u64) -> (r: Result<DecimalOdds, &'static str>)
        ensures
            r is Ok <==> valid_odds_bits(bits),
            r is Ok <==> (0x3FF0_0000_0000_0000u64 < bits && bits < 0x7FF0_0000_0000_0000u64),
            r matches Ok(o) ==> o@ == bits,
            r matches Err(e) ==> e@ == "decimal odds must be finite and > 1.0"@,
    {
        if 0x3FF0_0000_0000_0000u64 < bits && bits < 0x7FF0_0000_0000_0000u64 {
            Ok(DecimalOdds { bits })
        } else {
            Err("decimal odds must be finite and > 1.0")
        }
    }

    /// Construction without validation (for fixtures, or after checks).
    pub fn from_unchecked(bits: u64) -> (r: DecimalOdds)
        ensures
            r@ == bits,
    {
        DecimalOdds { bits }
    }

    /// The bit pattern of the price.
    pub fn to_bits(self) -> (r: u64)
        ensures
            r == self@,
    {
        self.bits
    }

    /// Whether this price is higher than `other`, as `>` compares binary64
    /// values.
    pub fn is_better_than(self, other: DecimalOdds) -> (r: bool)
        ensures
            r == binary64_gt(self@, other@),
    {
        let sign = 0x8000_0000_0000_0000u64;
        let infinity = 0x7FF0_0000_0000_0000u64;
        let a_negative = self.bits >= sign;
        let b_negative = other.bits >= sign;
        let a_magnitude = if a_negative { self.bits - sign } else { self.bits };
        let b_magnitude = if b_negative { other.bits - sign } else { other.bits };
        if a_magnitude > infinity || b_magnitude > infinity {
            false
        } else if !a_negative && !b_negative {
            a_magnitude > b_magnitude
        } else if a_negative && b_negative {
            a_magnitude < b_magnitude
        } else if !a_negative {
            a_magnitude > 0 || b_magnitude > 0
        } else {
            false
        }
    }
}

impl DecimalOdds {
    /// Whether the price is a NaN.
    fn is_nan(self) -> (r: bool)
        ensures
            r == is_nan_bits(self@),
    {
        let sign = 0x8000_0000_0000_0000u64;
        let magnitude = if self.bits >= sign { self.bits - sign } else { self.bits };
        magnitude > 0x7FF0_0000_0000_0000u64
    }
}

/// Prices compare as `==` compares binary64 values: a NaN equals nothing, and
/// the two zeros are equal.
impl PartialEq for DecimalOdds {
    fn eq(&self, other: &DecimalOdds) -> (r: bool) {
        let sign = 0x8000_0000_0000_0000u64;
        let a_magnitude = if self.bits >= sign { self.bits - sign } else { self.bits };
        let b_magnitude = if other.bits >= sign { other.bits - sign } else { other.bits };
        if self.is_nan() || other.is_nan() {
            false
        } else if a_magnitude == 0 && b_magnitude == 0 {
            true
        } else {
            self.bits == other.bits
        }
    }
}

impl PartialEqSpecImpl for DecimalOdds {
    open spec fn obeys_eq_spec() -> bool {
        true
    }

    open spec fn eq_spec(&self, other: &DecimalOdds) -> bool {
        binary64_eq(self@, other@)
    }
}

/// Prices are ordered as binary64 values: a NaN is unordered.
impl PartialOrd for DecimalOdds {
    fn partial_cmp(&self, other: &DecimalOdds) -> (r: Option<Ordering>) {
        if self.is_nan() || other.is_nan() {
            None
        } else if other.is_better_than(*self) {
            Some(Ordering::Less)
        } else if self.is_better_than(*other) {
            Some(Ordering::Greater)
        } else {
            Some(Ordering::Equal)
        }
    }
}

impl PartialOrdSpecImpl for DecimalOdds {
    open spec fn obeys_partial_cmp_spec() -> bool {
        true
    }

    open spec fn partial_cmp_spec(&self, other: &DecimalOdds) -> Option<Ordering> {
        binary64_partial_cmp(self@, other@)
    }
}

/// Market kind. Place and Show are defined but not scanned yet.
#[derive(Clone, Copy, Debug, PartialEq, Eq, Structural, Hash)]
pub enum MarketKind {
    /// Win: full field, one winner among all runners.
    Win,
    /// Two-way: a named horse against the field.
    HorseVsField,
    /// Not scanned yet.
    Place,
    /// Not scanned yet.
    Show,
}

/// The name of a market kind, as written in odds files.
pub open spec fn market_text(m: MarketKind) -> Seq<char> {
    match m {
        MarketKind::Win => "win"@,
        MarketKind::HorseVsField => "horse_vs_field"@,
        MarketKind::Place => "place"@,
        MarketKind::Show => "show"@,
    }
}

impl MarketKind {
    /// The name of the market kind: `win`, `horse_vs_field`, `place` or `show`.
    pub fn to_string(&self) -> (r: String)
        ensures
            r@ == market_text(*self),
    {
        match self {
            MarketKind::Win => String::from_str("win"),
            MarketKind::HorseVsField => String::from_str("horse_vs_field"),
            MarketKind::Place => String::from_str("place"),
            MarketKind::Show => String::from_str("show"),
        }
    }
}

/// Identity of a race card entry.
#[derive(Debug, Eq, Hash)]
pub struct RaceKey {
    pub track: String,
    pub date: RaceDate,
    pub race_number: u32,
}

/// How a race is shown in alerts: track, date and `R` with the race number.
pub open spec fn race_text(r: RaceKey) -> Seq<char> {
    r.track@ + seq![' '] + date_text(r.date@) + seq![' ', 'R'] + decimal(r.race_number as nat, 1)
}

impl Clone for RaceKey {
    fn clone(&self) -> (r: Self)
        ensures
            r == *self,
    {
        RaceKey { track: self.track.clone(), date: self.date, race_number: self.race_number }
    }
}

/// Two races are equal when track, date and race number are.
impl PartialEq for RaceKey {
    fn eq(&self, other: &RaceKey) -> (r: bool) {
        self.track == other.track && self.date == other.date && self.race_number
            == other.race_number
    }
}

impl PartialEqSpecImpl for RaceKey {
    open spec fn obeys_eq_spec() -> bool {
        true
    }

    open spec fn eq_spec(&self, other: &RaceKey) -> bool {
        self.track@ == other.track@ && self.date == other.date && self.race_number
            == other.race_number
    }
}

impl RaceKey {
    /// The race at `track` on `date` with number `race_number`.
    pub fn new(track: &str, date: RaceDate, race_number: u32) -> (r: RaceKey)
        ensures
            r.track@ == track@,
            r.date == date,
            r.race_number == race_number,
    {
        RaceKey { track: String::from_str(track), date, race_number }
    }

    /// The race as shown in alerts, such as `SA 2026-09-13 R5`.
    pub fn to_string(&self) -> (r: String)
        ensures
            r@ == race_text(*self),
    {
        let mut s = self.track.clone();
        s.append(" ");
        let d = self.date.to_string();
        s.append(d.as_str());
        s.append(" R");
        let n = crate::text::decimal_text(self.race_number);
        s.append(n.as_str());
        proof {
            reveal_strlit(" ");
            reveal_strlit(" R");
        }
        s
    }
}

/// A race is shown as its track, a space, its date, ` R`, and then its race
/// number in decimal digits, without leading zeros, that spell the number.
pub proof fn lemma_race_text_shape(r: RaceKey)
    ensures
        ({
            let t = race_text(r);
            let start = (r.track@.len() + 1 + date_text(r.date@).len() + 2) as int;
            let d = t.subrange(start, t.len() as int);
            &&& start < t.len()
            &&& t.subrange(0, start) == r.track@ + seq![' '] + date_text(r.date@) + seq![' ', 'R']
            &&& digits_value(d) == r.race_number
            &&& forall|i: int| 0 <= i < d.len() ==> is_digit_char(#[trigger] d[i])
            &&& d[0] == '0' ==> d.len() == 1
        }),
{
    let t = race_text(r);
    let p = r.track@ + seq![' '] + date_text(r.date@) + seq![' ', 'R'];
    let d = decimal(r.race_number as nat, 1);
    lemma_decimal_value(r.race_number as nat, 1);
    assert(t == p + d);
    assert(t.subrange(0, p.len() as int) =~= p);
    assert(t.subrange(p.len() as int, t.len() as int) =~= d);
}

/// Two races at one track on one date are shown alike exactly when their race
/// numbers are equal.
pub proof fn lemma_race_text_numbers(a: RaceKey, b: RaceKey)
    requires
        a.track@ == b.track@,
        a.date == b.date,
    ensures
        race_text(a) == race_text(b) <==> a.race_number == b.race_number,
{
    if race_text(a) == race_text(b) {
        let p = a.track@ + seq![' '] + date_text(a.date@) + seq![' ', 'R'];
        let da = decimal(a.race_number as nat, 1);
        let db = decimal(b.race_number as nat, 1);
        assert(race_text(a) == p + da);
        assert(race_text(b) == p + db);
        assert(da =~= (p + da).subrange(p.len() as int, (p + da).len() as int));
        assert(db =~= (p + db).subrange(p.len() as int, (p + db).len() as int));
        lemma_decimal_injective(a.race_number as nat, b.race_number as nat, 1);
    }
}

/// A selectable outcome within a market (a runner name, or "Field").
#[derive(Debug, Eq, Hash)]
pub struct Outcome {
    pub name: String,
}

impl Clone for Outcome {
    fn clone(&self) -> (r: Self)
        ensures
            r == *self,
    {
        Outcome { name: self.name.clone() }
    }
}

/// Two outcomes are equal when their names are.
impl PartialEq for Outcome {
    fn eq(&self, other: &Outcome) -> (r: bool) {
        self.name == other.name
    }
}

impl PartialEqSpecImpl for Outcome {
    open spec fn obeys_eq_spec() -> bool {
        true
    }

    open spec fn eq_spec(&self, other: &Outcome) -> bool {
        self.name@ == other.name@
    }
}

impl Outcome {
    /// The outcome with the given name.
    pub fn new(name: &str) -> (r: Outcome)
        ensures
            r.name@ == name@,
    {
        Outcome { name: String::from_str(name) }
    }
}

/// One book's price for one outcome.
#[derive(Debug)]
pub struct Quote {
    pub book: String,
    pub race: RaceKey,
    pub market: MarketKind,
    pub outcome: Outcome,
    pub odds: DecimalOdds,
}

impl Clone for Quote {
    fn clone(&self) -> (r: Self)
        ensures
            r == *self,
    {
        Quote {
            book: self.book.clone(),
            race: self.race.clone(),
            market: self.market,
            outcome: self.outcome.clone(),
            odds: self.odds,
        }
    }
}

/// Two quotes are equal when book, race, market, outcome and price are, the
/// prices compared as binary64 values.
impl PartialEq for Quote {
    fn eq(&self, other: &Quote) -> (r: bool) {
        self.book == other.book && self.race == other.race && self.market == other.market
            && self.outcome == other.outcome && self.odds == other.odds
    }
}

impl PartialEqSpecImpl for Quote {
    open spec fn obeys_eq_spec() -> bool {
        true
    }

    open spec fn eq_spec(&self, other: &Quote) -> bool {
        &&& self.book@ == other.book@
        &&& self.race.track@ == other.race.track@
        &&& self.race.date == other.race.date
        &&& self.race.race_number == other.race.race_number
        &&& self.market == other.market
        &&& self.outcome.name@ == other.outcome.name@
        &&& binary64_eq(self.odds@, other.odds@)
    }
}

/// One outcome with its best available book price.
#[derive(Debug)]
pub struct BestPrice {
    pub outcome: Outcome,
    pub book: String,
    pub odds: DecimalOdds,
}

impl Clone for BestPrice {
    fn clone(&self) -> (r: Self)
        ensures
            r == *self,
    {
        BestPrice { outcome: self.outcome.clone(), book: self.book.clone(), odds: self.odds }
    }
}

} // verus!
