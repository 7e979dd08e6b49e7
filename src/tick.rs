//! Decimal prices and their conversion to integer ticks.
use vstd::prelude::*;
use crate::bytes_order::str_eq;
use std::str::FromStr;

verus! {

/// A decimal number `mantissa / 10^scale`.
#[derive(Debug, Clone, Copy, PartialEq, Eq, Structural)]
pub struct Decimal {
    pub mantissa: i128,
    pub scale: u32,
}

/// The bounds of a decimal: a 96-bit mantissa and a scale of at most 28.
pub open spec fn decimal_wf(d: Decimal) -> bool {
    &&& d.scale <= 28
    &&& -0x1_0000_0000_0000_0000_0000_0000 < d.mantissa < 0x1_0000_0000_0000_0000_0000_0000
}

/// What rust_decimal reads from a text: its mantissa and scale, or nothing.
pub uninterp spec fn decimal_text_value(s: Seq<char>) -> Option<(int, int)>;

/// Relies on rust_decimal's `Decimal::from_str`: the value read depends on the
/// text alone, and each value it gives has a 96-bit mantissa and a scale of at most 28.
#[verifier::external_body]
fn parse_decimal_text(s: &str) -> (r: Option<Decimal>)
    ensures
        r.is_some() == decimal_text_value(s@).is_some(),
        r matches Some(d) ==> decimal_text_value(s@) == Some((d.mantissa as int, d.scale as int))
            && decimal_wf(d),
{
    match rust_decimal::Decimal::from_str(s) {
        Ok(d) => Some(Decimal { mantissa: d.mantissa(), scale: d.scale() }),
        Err(_) => None,
    }
}

/// What rust_decimal gives for `price / tick` rounded half away from zero
/// at scale 0, as an `i64`: nothing when the quotient or the result does not
/// fit. Arguments are mantissas and scales.
pub uninterp spec fn decimal_ticks_of(price_mantissa: int, price_scale: int, tick_mantissa: int, tick_scale: int) -> Option<i64>;

/// Relies on rust_decimal's `checked_div`, `round_dp_with_strategy` with
/// `MidpointAwayFromZero` and `to_i64`: the result depends on the two
/// values alone.
#[verifier::external_body]
fn decimal_ticks(price: Decimal, tick: Decimal) -> (r: Option<i64>)
    requires
        decimal_wf(price),
        positive_tick(tick),
    ensures
        r == decimal_ticks_of(price.mantissa as int, price.scale as int, tick.mantissa as int, tick.scale as int),
{
    let p = rust_decimal::Decimal::from_i128_with_scale(price.mantissa, price.scale);
    let t = rust_decimal::Decimal::from_i128_with_scale(tick.mantissa, tick.scale);
    p.checked_div(t)
        .map(|q| q.round_dp_with_strategy(0, rust_decimal::RoundingStrategy::MidpointAwayFromZero))
        .and_then(|q| rust_decimal::prelude::ToPrimitive::to_i64(&q))
}

impl Decimal {
    /// The decimal `num / 10^scale`.
    pub fn new(num: i64, scale: u32) -> (r: Decimal)
        requires
            scale <= 28,
        ensures
            r.mantissa == num as int,
            r.scale == scale,
            decimal_wf(r),
    {
        Decimal { mantissa: num as i128, scale }
    }
}

#[derive(Debug, Clone)]
pub enum TickError {
    InvalidDecimal(String),
    NonPositiveTick,
    Overflow,
    ConfigParse(String),
}

/// A tick configuration as text: a default tick and per-symbol overrides.
#[derive(Debug, Clone)]
pub struct TickConfigFile {
    pub default_tick: String,
    pub symbols: Vec<(String, String)>,
}

/// Tick sizes: a default and per-symbol overrides, all positive.
#[derive(Debug, Clone)]
pub struct TickTable {
    default_tick: Decimal,
    symbols: Vec<(String, Decimal)>,
}

/// No symbol appears twice.
pub open spec fn distinct_symbols(keys: Seq<Seq<char>>) -> bool {
    forall|a: int, b: int| 0 <= a < b < keys.len() ==> keys[a] != keys[b]
}

/// The tick of the override for `sym`, else the default.
pub open spec fn lookup_tick(overrides: Seq<(Seq<char>, Decimal)>, sym: Seq<char>, default: Decimal) -> Decimal
    decreases overrides.len(),
{
    if overrides.len() == 0 {
        default
    } else if overrides[0].0 == sym {
        overrides[0].1
    } else {
        lookup_tick(overrides.drop_first(), sym, default)
    }
}

pub open spec fn positive_tick(d: Decimal) -> bool {
    decimal_wf(d) && d.mantissa > 0
}

/// The value a text gives as a tick, when it reads as a decimal.
pub open spec fn text_decimal(s: Seq<char>) -> Decimal {
    Decimal {
        mantissa: decimal_text_value(s).unwrap().0 as i128,
        scale: decimal_text_value(s).unwrap().1 as u32,
    }
}

/// A text that reads as a positive decimal.
pub open spec fn positive_text(s: Seq<char>) -> bool {
    decimal_text_value(s).is_some() && text_decimal(s).mantissa > 0
}

impl TickTable {
    pub closed spec fn default_spec(&self) -> Decimal {
        self.default_tick
    }

    pub closed spec fn overrides(&self) -> Seq<(Seq<char>, Decimal)> {
        self.symbols@.map_values(|e: (String, Decimal)| (e.0@, e.1))
    }

    /// The tick that applies to `sym`.
    pub open spec fn tick_spec(&self, sym: Seq<char>) -> Decimal {
        lookup_tick(self.overrides(), sym, self.default_spec())
    }

    /// Every tick in the table is a positive, bounded decimal.
    pub open spec fn wf(&self) -> bool {
        &&& positive_tick(self.default_spec())
        &&& forall|i: int| 0 <= i < self.overrides().len() ==> positive_tick(#[trigger] self.overrides()[i].1)
        &&& distinct_symbols(self.overrides().map_values(|e: (Seq<char>, Decimal)| e.0))
    }

    /// Builds a table from text ticks; fails on a text that is not a decimal
    /// or not positive, and on a symbol given twice.
    pub fn from_config(config: TickConfigFile) -> (r: Result<TickTable, TickError>)
        ensures
            r is Ok <==> positive_text(config.default_tick@) && (forall|i: int|
                0 <= i < config.symbols.len() ==> positive_text(#[trigger] config.symbols@[i].1@))
                && distinct_symbols(config.symbols@.map_values(|e: (String, String)| e.0@)),
            r matches Ok(t) ==> t.wf() && t.default_spec() == text_decimal(config.default_tick@)
                && t.overrides() == config.symbols@.map_values(
                |e: (String, String)| (e.0@, text_decimal(e.1@)),
            ),
            r matches Err(TickError::InvalidDecimal(s)) ==> decimal_text_value(s@) is None,
            r matches Err(e) ==> e is InvalidDecimal || e is NonPositiveTick || e is ConfigParse,
    {
        let ghost keys = config.symbols@.map_values(|e: (String, String)| e.0@);
        let default_tick = match parse_positive_decimal(config.default_tick.as_str()) {
            Ok(d) => d,
            Err(e) => return Err(e),
        };
        let mut symbols: Vec<(String, Decimal)> = Vec::new();
        let n = config.symbols.len();
        let mut i: usize = 0;
        while i < n
            invariant
                n == config.symbols.len(),
                i <= n,
                positive_tick(default_tick),
                default_tick == text_decimal(config.default_tick@),
                positive_text(config.default_tick@),
                symbols.len() == i,
                forall|k: int| 0 <= k < i ==> positive_text(#[trigger] config.symbols@[k].1@),
                forall|k: int| 0 <= k < i ==> (#[trigger] symbols@[k]).0@ == config.symbols@[k].0@
                    && symbols@[k].1 == text_decimal(config.symbols@[k].1@)
                    && positive_tick(symbols@[k].1),
                keys == config.symbols@.map_values(|e: (String, String)| e.0@),
                distinct_symbols(keys.subrange(0, i as int)),
            decreases n - i,
        {
            let entry = &config.symbols[i];
            let mut j: usize = 0;
            while j < i
                invariant
                    j <= i < n,
                    n == config.symbols.len(),
                    keys == config.symbols@.map_values(|e: (String, String)| e.0@),
                    forall|k: int| 0 <= k < j ==> keys[k] != keys[i as int],
                decreases i - j,
            {
                proof {
                    assert(keys[j as int] == config.symbols@[j as int].0@);
                    assert(keys[i as int] == config.symbols@[i as int].0@);
                }
                if str_eq(config.symbols[j].0.as_str(), config.symbols[i].0.as_str()) {
                    let mut msg = "duplicate symbol ".to_owned();
                    msg.append(config.symbols[i].0.as_str());
                    return Err(TickError::ConfigParse(msg));
                }
                j = j + 1;
            }
            proof {
                let ks = keys.subrange(0, i + 1);
                assert forall|a: int, b: int| 0 <= a < b < ks.len() implies ks[a] != ks[b] by {
                    if b == i {
                        assert(ks[a] == keys[a]);
                    } else {
                        assert(keys.subrange(0, i as int)[a] == ks[a]);
                        assert(keys.subrange(0, i as int)[b] == ks[b]);
                    }
                }
            }
            let tick = match parse_positive_decimal(entry.1.as_str()) {
                Ok(d) => d,
                Err(e) => return Err(e),
            };
            symbols.push((entry.0.clone(), tick));
            i = i + 1;
        }
        let t = TickTable { default_tick, symbols };
        proof {
            assert(t.overrides() =~= config.symbols@.map_values(
                |e: (String, String)| (e.0@, text_decimal(e.1@)),
            ));
            assert(keys.subrange(0, n as int) =~= keys);
            assert(t.overrides().map_values(|e: (Seq<char>, Decimal)| e.0) =~= keys);
        }
        Ok(t)
    }

    /// A table with one tick for every symbol.
    pub fn uniform(tick_size: Decimal) -> (r: Result<TickTable, TickError>)
        requires
            decimal_wf(tick_size),
        ensures
            r is Ok <==> tick_size.mantissa > 0,
            r matches Ok(t) ==> t.wf() && forall|s: Seq<char>| #[trigger] t.tick_spec(s) == tick_size,
            r matches Err(e) ==> e is NonPositiveTick,
    {
        if tick_size.mantissa <= 0 {
            return Err(TickError::NonPositiveTick);
        }
        let t = TickTable { default_tick: tick_size, symbols: Vec::new() };
        proof {
            assert(t.overrides() =~= Seq::<(Seq<char>, Decimal)>::empty());
        }
        Ok(t)
    }

    /// The tick that applies to `symbol`.
    pub fn tick_for(&self, symbol: &str) -> (r: Decimal)
        ensures
            r == self.tick_spec(symbol@),
    {
        let n = self.symbols.len();
        let mut i: usize = 0;
        proof {
            assert(self.overrides().subrange(0, n as int) =~= self.overrides());
        }
        while i < n
            invariant
                n == self.symbols.len(),
                n == self.overrides().len(),
                i <= n,
                self.tick_spec(symbol@) == lookup_tick(
                    self.overrides().subrange(i as int, n as int),
                    symbol@,
                    self.default_tick,
                ),
            decreases n - i,
        {
            proof {
                let rest = self.overrides().subrange(i as int, n as int);
                assert(rest.drop_first() =~= self.overrides().subrange(i + 1, n as int));
                assert(rest[0] == (self.symbols@[i as int].0@, self.symbols@[i as int].1));
            }
            if str_eq(self.symbols[i].0.as_str(), symbol) {
                return self.symbols[i].1;
            }
            i = i + 1;
        }
        self.default_tick
    }
}

impl TickTable {
    /// `price / tick(symbol)` rounded half away from zero at scale 0, as
    /// rust_decimal computes it; fails when the quotient or the result does
    /// not fit.
    pub fn price_to_ticks(&self, symbol: &str, price: Decimal) -> (r: Result<i64, TickError>)
        requires
            self.wf(),
            decimal_wf(price),
        ensures
            ({
                let t = self.tick_spec(symbol@);
                let v = decimal_ticks_of(price.mantissa as int, price.scale as int, t.mantissa as int, t.scale as int);
                &&& (r is Ok <==> v is Some)
                &&& (r matches Ok(x) ==> v == Some(x))
                &&& (r matches Err(e) ==> e is Overflow)
            }),
    {
        let tick = self.tick_for(symbol);
        proof {
            lemma_tick_spec_wf(self, symbol@);
        }
        match decimal_ticks(price, tick) {
            Some(v) => Ok(v),
            None => Err(TickError::Overflow),
        }
    }

    /// Reads `price` as a decimal and converts it to ticks.
    pub fn price_str_to_ticks(&self, symbol: &str, price: &str) -> (r: Result<i64, TickError>)
        requires
            self.wf(),
        ensures
            decimal_text_value(price@) is None ==> (r matches Err(TickError::InvalidDecimal(s))
                && s@ == price@),
            decimal_text_value(price@) is Some ==> {
                let t = self.tick_spec(symbol@);
                let p = text_decimal(price@);
                let v = decimal_ticks_of(p.mantissa as int, p.scale as int, t.mantissa as int, t.scale as int);
                &&& (r is Ok <==> v is Some)
                &&& (r matches Ok(x) ==> v == Some(x))
                &&& (r matches Err(e) ==> e is Overflow)
            },
    {
        match parse_decimal_text(price) {
            None => Err(TickError::InvalidDecimal(price.to_owned())),
            Some(px) => self.price_to_ticks(symbol, px),
        }
    }

    /// The price of `ticks` ticks of `symbol`.
    pub fn ticks_to_price(&self, symbol: &str, ticks: i64) -> (r: Decimal)
        requires
            self.wf(),
            -0x1_0000_0000_0000_0000_0000_0000 < ticks * self.tick_spec(symbol@).mantissa
                < 0x1_0000_0000_0000_0000_0000_0000,
        ensures
            r.mantissa == ticks * self.tick_spec(symbol@).mantissa,
            r.scale == self.tick_spec(symbol@).scale,
            decimal_wf(r),
    {
        let tick = self.tick_for(symbol);
        proof {
            lemma_tick_spec_wf(self, symbol@);
        }
        Decimal { mantissa: ticks as i128 * tick.mantissa, scale: tick.scale }
    }
}

proof fn lemma_lookup_wf(overrides: Seq<(Seq<char>, Decimal)>, sym: Seq<char>, default: Decimal)
    requires
        positive_tick(default),
        forall|i: int| 0 <= i < overrides.len() ==> positive_tick(#[trigger] overrides[i].1),
    ensures
        positive_tick(lookup_tick(overrides, sym, default)),
    decreases overrides.len(),
{
    if overrides.len() > 0 {
        let rest = overrides.drop_first();
        assert forall|i: int| 0 <= i < rest.len() implies positive_tick(#[trigger] rest[i].1) by {
            assert(rest[i] == overrides[i + 1]);
        }
        lemma_lookup_wf(rest, sym, default);
    }
}

proof fn lemma_tick_spec_wf(t: &TickTable, sym: Seq<char>)
    requires
        t.wf(),
    ensures
        positive_tick(t.tick_spec(sym)),
{
    lemma_lookup_wf(t.overrides(), sym, t.default_spec());
}

/// Reads a positive decimal from text.
fn parse_positive_decimal(input: &str) -> (r: Result<Decimal, TickError>)
    ensures
        r is Ok <==> positive_text(input@),
        r matches Ok(d) ==> d == text_decimal(input@) && positive_tick(d),
        r matches Err(TickError::InvalidDecimal(s)) ==> s@ == input@ && decimal_text_value(input@) is None,
        r matches Err(e) ==> e is InvalidDecimal || e is NonPositiveTick,
{
    match parse_decimal_text(input) {
        None => Err(TickError::InvalidDecimal(input.to_owned())),
        Some(d) => {
            if d.mantissa <= 0 {
                Err(TickError::NonPositiveTick)
            } else {
                Ok(d)
            }
        },
    }
}

} // verus!
