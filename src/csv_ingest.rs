//! The tabular sources: quotes (variant A), trades (variant B) and mixed
//! rows (variant C), each a header row naming the columns, then one row per
//! event.
use vstd::prelude::*;
use vstd::utf8::encode_utf8;
use crate::bytes_order::str_eq;
use crate::dashboard::{eq_ignore_ascii_case, bytes_eq_ignore_ascii_case};
use crate::event::{assign_sequences, sequenced_from, Event, Payload, PendingEvent};
use crate::numtext::{i64_text_value, parse_i64_text, parse_u64_text, u64_text_value};
use crate::tick::{decimal_text_value, decimal_ticks_of, text_decimal, TickError, TickTable};

verus! {

#[derive(Debug, Clone)]
pub enum IngestError {
    Csv(String),
    Time(String),
    Tick(TickError),
    Parse(String),
}

/// The kind of an ingest failure.
#[derive(Debug)]
pub enum IngestKind {
    Csv,
    Time,
    Tick,
    Parse,
}

pub open spec fn kind_of(e: IngestError) -> IngestKind {
    match e {
        IngestError::Csv(_) => IngestKind::Csv,
        IngestError::Time(_) => IngestKind::Time,
        IngestError::Tick(_) => IngestKind::Tick,
        IngestError::Parse(_) => IngestKind::Parse,
    }
}

/// The records that the csv crate reads from a text, every field trimmed.
pub uninterp spec fn csv_table_of(text: Seq<char>) -> Option<Seq<Seq<Seq<char>>>>;

pub open spec fn table_view(t: Seq<Vec<String>>) -> Seq<Seq<Seq<char>>> {
    t.map_values(|row: Vec<String>| row@.map_values(|f: String| f@))
}

/// Relies on the csv crate's reader, with whitespace trimmed from every
/// field and the first record kept as a row: the records depend on the
/// text alone.
#[verifier::external_body]
fn csv_table(text: &str) -> (r: Result<Vec<Vec<String>>, String>)
    ensures
        r is Ok <==> csv_table_of(text@) is Some,
        r matches Ok(t) ==> csv_table_of(text@) == Some(table_view(t@)),
{
    csv::ReaderBuilder::new()
        .trim(csv::Trim::All)
        .has_headers(false)
        .from_reader(text.as_bytes())
        .records()
        .map(|rec| rec.map(|r| r.iter().map(|f| f.to_string()).collect::<Vec<String>>()))
        .collect::<Result<Vec<Vec<String>>, csv::Error>>()
        .map_err(|e| e.to_string())
}

/// What chrono reads from an RFC 3339 timestamp: nothing when it does not
/// parse, else its nanoseconds since the epoch if they fit an `i64`.
pub uninterp spec fn rfc3339_nanos_of(s: Seq<char>) -> Option<Option<i64>>;

/// Relies on chrono's `DateTime::parse_from_rfc3339` and
/// `timestamp_nanos_opt`: the result depends on the text alone.
#[verifier::external_body]
fn rfc3339_nanos(s: &str) -> (r: Option<Option<i64>>)
    ensures
        r == rfc3339_nanos_of(s@),
{
    chrono::DateTime::parse_from_rfc3339(s).ok().map(|dt| dt.timestamp_nanos_opt())
}

/// What `str::trim` leaves of a text.
pub uninterp spec fn trimmed(s: Seq<char>) -> Seq<char>;

/// Relies on `str::trim`: leading and trailing whitespace removed, which
/// depends on the text alone; an empty text stays empty.
#[verifier::external_body]
fn trim_text(s: &str) -> (r: String)
    ensures
        r@ == trimmed(s@),
        s@.len() == 0 ==> r@.len() == 0,
{
    s.trim().to_string()
}

/// An RFC 3339 timestamp as nanoseconds since the epoch.
pub open spec fn rfc3339_spec(s: Seq<char>) -> Result<u64, IngestKind> {
    match rfc3339_nanos_of(s) {
        None => Err(IngestKind::Time),
        Some(None) => Err(IngestKind::Parse),
        Some(Some(n)) => if n < 0 {
            Err(IngestKind::Parse)
        } else {
            Ok(n as u64)
        },
    }
}

pub open spec fn result_matches(r: Result<u64, IngestError>, s: Result<u64, IngestKind>) -> bool {
    match s {
        Ok(v) => r == Ok::<u64, IngestError>(v),
        Err(k) => r matches Err(e) && kind_of(e) == k,
    }
}

pub open spec fn result_matches_i64(r: Result<i64, IngestError>, s: Result<i64, IngestKind>) -> bool {
    match s {
        Ok(v) => r == Ok::<i64, IngestError>(v),
        Err(k) => r matches Err(e) && kind_of(e) == k,
    }
}

fn with_text(prefix: &str, raw: &str) -> (r: String)
    ensures
        r@ == prefix@ + raw@,
{
    let mut s = String::from_str(prefix);
    s.append(raw);
    s
}

fn parse_rfc3339_ns(raw: &str) -> (r: Result<u64, IngestError>)
    ensures
        result_matches(r, rfc3339_spec(raw@)),
{
    match rfc3339_nanos(raw) {
        None => Err(IngestError::Time(with_text("invalid RFC 3339 timestamp: ", raw))),
        Some(None) => Err(IngestError::Parse(with_text("timestamp out of range: ", raw))),
        Some(Some(ns)) => {
            if ns < 0 {
                Err(IngestError::Parse(with_text("negative timestamp: ", raw)))
            } else {
                Ok(ns as u64)
            }
        },
    }
}

/// An RFC 3339 timestamp when the text holds a `T`, else milliseconds since
/// the epoch.
pub open spec fn mixed_ts_spec(s: Seq<char>) -> Result<u64, IngestKind> {
    if s.contains('T') {
        rfc3339_spec(s)
    } else {
        match u64_text_value(encode_utf8(s)) {
            None => Err(IngestKind::Parse),
            Some(ms) => if ms * 1_000_000 > u64::MAX {
                Err(IngestKind::Parse)
            } else {
                Ok((ms * 1_000_000) as u64)
            },
        }
    }
}

fn has_t(raw: &str) -> (r: bool)
    ensures
        r == raw@.contains('T'),
{
    proof {
        reveal_strlit("T");
    }
    let n = raw.unicode_len();
    let mut i: usize = 0;
    while i < n
        invariant
            i <= n,
            n == raw@.len(),
            forall|k: int| 0 <= k < i ==> raw@[k] != 'T',
        decreases n - i,
    {
        if raw.get_char(i) == 'T' {
            return true;
        }
        i = i + 1;
    }
    false
}

fn parse_mixed_ts_ns(raw: &str) -> (r: Result<u64, IngestError>)
    ensures
        result_matches(r, mixed_ts_spec(raw@)),
{
    if has_t(raw) {
        return parse_rfc3339_ns(raw);
    }
    match parse_u64_text(raw) {
        None => Err(IngestError::Parse(with_text("invalid timestamp: ", raw))),
        Some(ms) => match ms.checked_mul(1_000_000) {
            Some(v) => Ok(v),
            None => Err(IngestError::Parse(with_text("timestamp overflow: ", raw))),
        },
    }
}

/// An integer, or zero for a blank field.
pub open spec fn int_or_zero_spec(s: Seq<char>) -> Result<i64, IngestKind> {
    let t = trimmed(s);
    if t.len() == 0 {
        Ok(0)
    } else {
        match i64_text_value(encode_utf8(t)) {
            Some(v) => Ok(v),
            None => Err(IngestKind::Parse),
        }
    }
}

fn parse_i64_or_zero(raw: &str) -> (r: Result<i64, IngestError>)
    ensures
        result_matches_i64(r, int_or_zero_spec(raw@)),
{
    let v = trim_text(raw);
    if v.as_str().is_empty() {
        return Ok(0);
    }
    match parse_i64_text(v.as_str()) {
        Some(x) => Ok(x),
        None => Err(IngestError::Parse(with_text("invalid integer: ", raw))),
    }
}

/// A price in ticks of `symbol`.
pub open spec fn price_spec(t: TickTable, symbol: Seq<char>, s: Seq<char>) -> Result<i64, IngestKind> {
    if decimal_text_value(s) is None {
        Err(IngestKind::Tick)
    } else {
        let p = text_decimal(s);
        let k = t.tick_spec(symbol);
        match decimal_ticks_of(p.mantissa as int, p.scale as int, k.mantissa as int, k.scale as int) {
            Some(v) => Ok(v),
            None => Err(IngestKind::Tick),
        }
    }
}

fn price_ticks(ticks: &TickTable, symbol: &str, price: &str) -> (r: Result<i64, IngestError>)
    requires
        ticks.wf(),
    ensures
        result_matches_i64(r, price_spec(*ticks, symbol@, price@)),
{
    match ticks.price_str_to_ticks(symbol, price) {
        Ok(v) => Ok(v),
        Err(e) => Err(IngestError::Tick(e)),
    }
}

/// The first column named `name`.
pub open spec fn column_of(header: Seq<Seq<char>>, name: Seq<char>) -> Option<int>
    decreases header.len(),
{
    if header.len() == 0 {
        None
    } else if header.last() == name {
        match column_of(header.drop_last(), name) {
            Some(i) => Some(i),
            None => Some(header.len() - 1),
        }
    } else {
        column_of(header.drop_last(), name)
    }
}

fn find_column(header: &Vec<String>, name: &str) -> (r: Option<usize>)
    ensures
        ({
            let h = header@.map_values(|f: String| f@);
            &&& r matches Some(i) ==> column_of(h, name@) == Some(i as int)
            &&& r is None ==> column_of(h, name@) is None
        }),
{
    let ghost h = header@.map_values(|f: String| f@);
    let mut i: usize = 0;
    while i < header.len()
        invariant
            i <= header@.len(),
            h == header@.map_values(|f: String| f@),
            forall|k: int| 0 <= k < i ==> h[k] != name@,
        decreases header.len() - i,
    {
        if str_eq(header[i].as_str(), name) {
            proof {
                lemma_column_first(h, name@, i as int);
            }
            return Some(i);
        }
        i = i + 1;
    }
    proof {
        lemma_column_none(h, name@);
    }
    None
}

proof fn lemma_column_first(h: Seq<Seq<char>>, name: Seq<char>, i: int)
    requires
        0 <= i < h.len(),
        h[i] == name,
        forall|k: int| 0 <= k < i ==> h[k] != name,
    ensures
        column_of(h, name) == Some(i),
    decreases h.len(),
{
    if h.len() - 1 > i {
        lemma_column_first(h.drop_last(), name, i);
    } else {
        lemma_column_none(h.drop_last(), name);
    }
}

proof fn lemma_column_none(h: Seq<Seq<char>>, name: Seq<char>)
    requires
        forall|k: int| 0 <= k < h.len() ==> h[k] != name,
    ensures
        column_of(h, name) is None,
    decreases h.len(),
{
    if h.len() > 0 {
        lemma_column_none(h.drop_last(), name);
    }
}


/// A pending event with its strings as characters.
pub struct PendingView {
    pub timestamp_ns: u64,
    pub venue: Seq<char>,
    pub symbol: Seq<char>,
    pub payload: Payload,
    pub ingest_order: u64,
}

pub open spec fn pending_view(p: PendingEvent) -> PendingView {
    PendingView {
        timestamp_ns: p.timestamp_ns,
        venue: p.venue@,
        symbol: p.symbol@,
        payload: p.payload,
        ingest_order: p.ingest_order,
    }
}

/// The field of `row` in column `col`, if both exist.
pub open spec fn field_at(row: Seq<Seq<char>>, col: Option<int>) -> Option<Seq<char>> {
    match col {
        Some(c) => if 0 <= c < row.len() {
            Some(row[c])
        } else {
            None
        },
        None => None,
    }
}

pub open spec fn int_field_ok(f: Seq<char>) -> bool {
    i64_text_value(encode_utf8(f)) is Some
}

pub open spec fn int_field(f: Seq<char>) -> i64 {
    i64_text_value(encode_utf8(f)).unwrap()
}

/// Data row `k` of a variant-A table: a quote.
pub open spec fn row_a_spec(t: TickTable, h: Seq<Seq<char>>, row: Seq<Seq<char>>, k: int, venue: Seq<char>) -> Result<
    PendingView,
    IngestKind,
> {
    let ts = field_at(row, column_of(h, "timestamp"@));
    let sym = field_at(row, column_of(h, "symbol"@));
    let bp = field_at(row, column_of(h, "bid_px"@));
    let bs = field_at(row, column_of(h, "bid_sz"@));
    let ap = field_at(row, column_of(h, "ask_px"@));
    let az = field_at(row, column_of(h, "ask_sz"@));
    if ts is None || sym is None || bp is None || bs is None || ap is None || az is None {
        Err(IngestKind::Csv)
    } else if !int_field_ok(bs.unwrap()) || !int_field_ok(az.unwrap()) {
        Err(IngestKind::Csv)
    } else {
        match rfc3339_spec(ts.unwrap()) {
            Err(e) => Err(e),
            Ok(t_ns) => match price_spec(t, sym.unwrap(), bp.unwrap()) {
                Err(e) => Err(e),
                Ok(bid) => match price_spec(t, sym.unwrap(), ap.unwrap()) {
                    Err(e) => Err(e),
                    Ok(ask) => Ok(
                        PendingView {
                            timestamp_ns: t_ns,
                            venue,
                            symbol: sym.unwrap(),
                            payload: Payload::Quote {
                                bid_px: bid,
                                bid_sz: int_field(bs.unwrap()),
                                ask_px: ask,
                                ask_sz: int_field(az.unwrap()),
                            },
                            ingest_order: k as u64,
                        },
                    ),
                },
            },
        }
    }
}

/// The first `n` data rows of a variant-A table, or the first failure.
pub open spec fn rows_a(t: TickTable, tab: Seq<Seq<Seq<char>>>, venue: Seq<char>, n: nat) -> Result<
    Seq<PendingView>,
    IngestKind,
>
    decreases n,
{
    if n == 0 {
        Ok(Seq::empty())
    } else {
        match rows_a(t, tab, venue, (n - 1) as nat) {
            Err(e) => Err(e),
            Ok(prev) => match row_a_spec(t, tab[0], tab[n as int], n - 1, venue) {
                Ok(p) => Ok(prev.push(p)),
                Err(e) => Err(e),
            },
        }
    }
}

pub open spec fn csv_a_spec(t: TickTable, text: Seq<char>, venue: Seq<char>) -> Result<Seq<PendingView>, IngestKind> {
    match csv_table_of(text) {
        None => Err(IngestKind::Csv),
        Some(tab) => if tab.len() == 0 {
            Ok(Seq::empty())
        } else {
            rows_a(t, tab, venue, (tab.len() - 1) as nat)
        },
    }
}

pub open spec fn ingest_matches(r: Result<Vec<PendingEvent>, IngestError>, s: Result<Seq<PendingView>, IngestKind>) -> bool {
    match s {
        Ok(v) => r matches Ok(out) && out@.map_values(|p: PendingEvent| pending_view(p)) == v,
        Err(k) => r matches Err(e) && kind_of(e) == k,
    }
}

proof fn lemma_rows_a_err(t: TickTable, tab: Seq<Seq<Seq<char>>>, venue: Seq<char>, m: nat, n: nat)
    requires
        m <= n,
        rows_a(t, tab, venue, m) is Err,
    ensures
        rows_a(t, tab, venue, n) == rows_a(t, tab, venue, m),
    decreases n - m,
{
    if m < n {
        lemma_rows_a_err(t, tab, venue, m, (n - 1) as nat);
    }
}

fn field_of<'a>(row: &'a Vec<String>, col: Option<usize>) -> (r: Option<&'a String>)
    ensures
        ({
            let c = match col {
                Some(c) => Some(c as int),
                None => None,
            };
            &&& r is Some <==> field_at(row@.map_values(|f: String| f@), c) is Some
            &&& r matches Some(f) ==> field_at(row@.map_values(|f: String| f@), c) == Some(f@)
        }),
{
    match col {
        Some(c) => if c < row.len() {
            Some(&row[c])
        } else {
            None
        },
        None => None,
    }
}

fn missing_field() -> (r: IngestError)
    ensures
        kind_of(r) == IngestKind::Csv,
{
    IngestError::Csv(String::from_str("missing or malformed field"))
}

/// Parses variant A: `timestamp` (RFC 3339), `symbol`, `bid_px`, `bid_sz`,
/// `ask_px`, `ask_sz`; one quote per row, ingest order = row index.
pub fn parse_csv_a(text: &str, venue: &str, ticks: &TickTable) -> (r: Result<Vec<PendingEvent>, IngestError>)
    requires
        ticks.wf(),
    ensures
        ingest_matches(r, csv_a_spec(*ticks, text@, venue@)),
{
    let table = match csv_table(text) {
        Ok(t) => t,
        Err(msg) => return Err(IngestError::Csv(msg)),
    };
    let ghost tab = table_view(table@);
    let mut out: Vec<PendingEvent> = Vec::new();
    if table.len() == 0 {
        proof {
            assert(out@.map_values(|p: PendingEvent| pending_view(p)) =~= Seq::<PendingView>::empty());
        }
        return Ok(out);
    }
    let header = &table[0];
    proof {
        assert(tab[0] == header@.map_values(|f: String| f@));
    }
    let c_ts = find_column(header, "timestamp");
    let c_sym = find_column(header, "symbol");
    let c_bp = find_column(header, "bid_px");
    let c_bs = find_column(header, "bid_sz");
    let c_ap = find_column(header, "ask_px");
    let c_as = find_column(header, "ask_sz");
    let mut k: usize = 1;
    proof {
        assert(out@.map_values(|p: PendingEvent| pending_view(p)) =~= Seq::<PendingView>::empty());
    }
    while k < table.len()
        invariant
            1 <= k <= table@.len(),
            tab == table_view(table@),
            csv_table_of(text@) == Some(tab),
            ticks.wf(),
            tab[0] == table@[0]@.map_values(|f: String| f@),
            c_ts matches Some(c) ==> column_of(tab[0], "timestamp"@) == Some(c as int),
            c_ts is None ==> column_of(tab[0], "timestamp"@) is None,
            c_sym matches Some(c) ==> column_of(tab[0], "symbol"@) == Some(c as int),
            c_sym is None ==> column_of(tab[0], "symbol"@) is None,
            c_bp matches Some(c) ==> column_of(tab[0], "bid_px"@) == Some(c as int),
            c_bp is None ==> column_of(tab[0], "bid_px"@) is None,
            c_bs matches Some(c) ==> column_of(tab[0], "bid_sz"@) == Some(c as int),
            c_bs is None ==> column_of(tab[0], "bid_sz"@) is None,
            c_ap matches Some(c) ==> column_of(tab[0], "ask_px"@) == Some(c as int),
            c_ap is None ==> column_of(tab[0], "ask_px"@) is None,
            c_as matches Some(c) ==> column_of(tab[0], "ask_sz"@) == Some(c as int),
            c_as is None ==> column_of(tab[0], "ask_sz"@) is None,
            rows_a(*ticks, tab, venue@, (k - 1) as nat) == Ok::<Seq<PendingView>, IngestKind>(
                out@.map_values(|p: PendingEvent| pending_view(p)),
            ),
        decreases table.len() - k,
    {
        let row = &table[k];
        let ghost rv = row@.map_values(|f: String| f@);
        let ghost last = (tab.len() - 1) as nat;
        proof {
            assert(tab[k as int] == rv);
        }
        let ts = field_of(row, c_ts);
        let sym = field_of(row, c_sym);
        let bp = field_of(row, c_bp);
        let bs = field_of(row, c_bs);
        let ap = field_of(row, c_ap);
        let az = field_of(row, c_as);
        if ts.is_none() || sym.is_none() || bp.is_none() || bs.is_none() || ap.is_none() || az.is_none() {
            proof {
                lemma_rows_a_err(*ticks, tab, venue@, k as nat, last);
            }
            return Err(missing_field());
        }
        let ts = ts.unwrap();
        let sym = sym.unwrap();
        let bid_sz = match parse_i64_text(bs.unwrap().as_str()) {
            Some(v) => v,
            None => {
                proof {
                    lemma_rows_a_err(*ticks, tab, venue@, k as nat, last);
                }
                return Err(missing_field());
            },
        };
        let ask_sz = match parse_i64_text(az.unwrap().as_str()) {
            Some(v) => v,
            None => {
                proof {
                    lemma_rows_a_err(*ticks, tab, venue@, k as nat, last);
                }
                return Err(missing_field());
            },
        };
        let t_ns = match parse_rfc3339_ns(ts.as_str()) {
            Ok(v) => v,
            Err(e) => {
                proof {
                    lemma_rows_a_err(*ticks, tab, venue@, k as nat, last);
                }
                return Err(e);
            },
        };
        let bid_px = match price_ticks(ticks, sym.as_str(), bp.unwrap().as_str()) {
            Ok(v) => v,
            Err(e) => {
                proof {
                    lemma_rows_a_err(*ticks, tab, venue@, k as nat, last);
                }
                return Err(e);
            },
        };
        let ask_px = match price_ticks(ticks, sym.as_str(), ap.unwrap().as_str()) {
            Ok(v) => v,
            Err(e) => {
                proof {
                    lemma_rows_a_err(*ticks, tab, venue@, k as nat, last);
                }
                return Err(e);
            },
        };
        let ghost before = out@.map_values(|p: PendingEvent| pending_view(p));
        out.push(
            PendingEvent {
                timestamp_ns: t_ns,
                venue: venue.to_owned(),
                symbol: sym.clone(),
                payload: Payload::Quote { bid_px, bid_sz, ask_px, ask_sz },
                ingest_order: (k - 1) as u64,
            },
        );
        proof {
            assert(out@.map_values(|p: PendingEvent| pending_view(p)) =~= before.push(pending_view(out@.last())));
        }
        k = k + 1;
    }
    Ok(out)
}


/// Data row `k` of a variant-B table: a trade with a millisecond timestamp.
pub open spec fn row_b_spec(t: TickTable, h: Seq<Seq<char>>, row: Seq<Seq<char>>, k: int, venue: Seq<char>) -> Result<
    PendingView,
    IngestKind,
> {
    let ts = field_at(row, column_of(h, "timestamp_ms"@));
    let sym = field_at(row, column_of(h, "symbol"@));
    let px = field_at(row, column_of(h, "price"@));
    let sz = field_at(row, column_of(h, "size"@));
    if ts is None || sym is None || px is None || sz is None {
        Err(IngestKind::Csv)
    } else if u64_text_value(encode_utf8(ts.unwrap())) is None || !int_field_ok(sz.unwrap()) {
        Err(IngestKind::Csv)
    } else if u64_text_value(encode_utf8(ts.unwrap())).unwrap() * 1_000_000 > u64::MAX {
        Err(IngestKind::Parse)
    } else {
        match price_spec(t, sym.unwrap(), px.unwrap()) {
            Err(e) => Err(e),
            Ok(price) => Ok(
                PendingView {
                    timestamp_ns: (u64_text_value(encode_utf8(ts.unwrap())).unwrap() * 1_000_000) as u64,
                    venue,
                    symbol: sym.unwrap(),
                    payload: Payload::Trade { price_ticks: price, size: int_field(sz.unwrap()) },
                    ingest_order: k as u64,
                },
            ),
        }
    }
}

pub open spec fn rows_b(t: TickTable, tab: Seq<Seq<Seq<char>>>, venue: Seq<char>, n: nat) -> Result<
    Seq<PendingView>,
    IngestKind,
>
    decreases n,
{
    if n == 0 {
        Ok(Seq::empty())
    } else {
        match rows_b(t, tab, venue, (n - 1) as nat) {
            Err(e) => Err(e),
            Ok(prev) => match row_b_spec(t, tab[0], tab[n as int], n - 1, venue) {
                Ok(p) => Ok(prev.push(p)),
                Err(e) => Err(e),
            },
        }
    }
}

pub open spec fn csv_b_spec(t: TickTable, text: Seq<char>, venue: Seq<char>) -> Result<Seq<PendingView>, IngestKind> {
    match csv_table_of(text) {
        None => Err(IngestKind::Csv),
        Some(tab) => if tab.len() == 0 {
            Ok(Seq::empty())
        } else {
            rows_b(t, tab, venue, (tab.len() - 1) as nat)
        },
    }
}

proof fn lemma_rows_b_err(t: TickTable, tab: Seq<Seq<Seq<char>>>, venue: Seq<char>, m: nat, n: nat)
    requires
        m <= n,
        rows_b(t, tab, venue, m) is Err,
    ensures
        rows_b(t, tab, venue, n) == rows_b(t, tab, venue, m),
    decreases n - m,
{
    if m < n {
        lemma_rows_b_err(t, tab, venue, m, (n - 1) as nat);
    }
}

/// Parses variant B: `timestamp_ms`, `symbol`, `price`, `size`; one trade per
/// row, the timestamp scaled to nanoseconds with overflow detected.
pub fn parse_csv_b(text: &str, venue: &str, ticks: &TickTable) -> (r: Result<Vec<PendingEvent>, IngestError>)
    requires
        ticks.wf(),
    ensures
        ingest_matches(r, csv_b_spec(*ticks, text@, venue@)),
{
    let table = match csv_table(text) {
        Ok(t) => t,
        Err(msg) => return Err(IngestError::Csv(msg)),
    };
    let ghost tab = table_view(table@);
    let mut out: Vec<PendingEvent> = Vec::new();
    proof {
        assert(out@.map_values(|p: PendingEvent| pending_view(p)) =~= Seq::<PendingView>::empty());
    }
    if table.len() == 0 {
        return Ok(out);
    }
    let header = &table[0];
    let c_ts = find_column(header, "timestamp_ms");
    let c_sym = find_column(header, "symbol");
    let c_px = find_column(header, "price");
    let c_sz = find_column(header, "size");
    let mut k: usize = 1;
    while k < table.len()
        invariant
            1 <= k <= table@.len(),
            tab == table_view(table@),
            csv_table_of(text@) == Some(tab),
            ticks.wf(),
            tab[0] == table@[0]@.map_values(|f: String| f@),
            c_ts matches Some(c) ==> column_of(tab[0], "timestamp_ms"@) == Some(c as int),
            c_ts is None ==> column_of(tab[0], "timestamp_ms"@) is None,
            c_sym matches Some(c) ==> column_of(tab[0], "symbol"@) == Some(c as int),
            c_sym is None ==> column_of(tab[0], "symbol"@) is None,
            c_px matches Some(c) ==> column_of(tab[0], "price"@) == Some(c as int),
            c_px is None ==> column_of(tab[0], "price"@) is None,
            c_sz matches Some(c) ==> column_of(tab[0], "size"@) == Some(c as int),
            c_sz is None ==> column_of(tab[0], "size"@) is None,
            rows_b(*ticks, tab, venue@, (k - 1) as nat) == Ok::<Seq<PendingView>, IngestKind>(
                out@.map_values(|p: PendingEvent| pending_view(p)),
            ),
        decreases table.len() - k,
    {
        let row = &table[k];
        let ghost last = (tab.len() - 1) as nat;
        proof {
            assert(tab[k as int] == row@.map_values(|f: String| f@));
        }
        let ts = field_of(row, c_ts);
        let sym = field_of(row, c_sym);
        let px = field_of(row, c_px);
        let sz = field_of(row, c_sz);
        if ts.is_none() || sym.is_none() || px.is_none() || sz.is_none() {
            proof {
                lemma_rows_b_err(*ticks, tab, venue@, k as nat, last);
            }
            return Err(missing_field());
        }
        let sym = sym.unwrap();
        let ms = match parse_u64_text(ts.unwrap().as_str()) {
            Some(v) => v,
            None => {
                proof {
                    lemma_rows_b_err(*ticks, tab, venue@, k as nat, last);
                }
                return Err(missing_field());
            },
        };
        let size = match parse_i64_text(sz.unwrap().as_str()) {
            Some(v) => v,
            None => {
                proof {
                    lemma_rows_b_err(*ticks, tab, venue@, k as nat, last);
                }
                return Err(missing_field());
            },
        };
        let t_ns = match ms.checked_mul(1_000_000) {
            Some(v) => v,
            None => {
                proof {
                    lemma_rows_b_err(*ticks, tab, venue@, k as nat, last);
                }
                return Err(IngestError::Parse(String::from_str("timestamp overflow")));
            },
        };
        let price_ticks = match price_ticks(ticks, sym.as_str(), px.unwrap().as_str()) {
            Ok(v) => v,
            Err(e) => {
                proof {
                    lemma_rows_b_err(*ticks, tab, venue@, k as nat, last);
                }
                return Err(e);
            },
        };
        let ghost before = out@.map_values(|p: PendingEvent| pending_view(p));
        out.push(
            PendingEvent {
                timestamp_ns: t_ns,
                venue: venue.to_owned(),
                symbol: sym.clone(),
                payload: Payload::Trade { price_ticks, size },
                ingest_order: (k - 1) as u64,
            },
        );
        proof {
            assert(out@.map_values(|p: PendingEvent| pending_view(p)) =~= before.push(pending_view(out@.last())));
        }
        k = k + 1;
    }
    Ok(out)
}

pub open spec fn or_empty(f: Option<Seq<char>>) -> Seq<char> {
    match f {
        Some(x) => x,
        None => Seq::empty(),
    }
}

/// Data row `k` of a variant-C table: a trade or a quote by its `type`
/// (either word in any ASCII case), with blank sizes read as zero.
#[verifier::opaque]
pub open spec fn row_c_spec(t: TickTable, h: Seq<Seq<char>>, row: Seq<Seq<char>>, k: int, venue: Seq<char>) -> Result<
    PendingView,
    IngestKind,
> {
    let ts = field_at(row, column_of(h, "timestamp"@));
    let sym = field_at(row, column_of(h, "symbol"@));
    let ty = field_at(row, column_of(h, "type"@));
    if ts is None || sym is None || ty is None {
        Err(IngestKind::Csv)
    } else {
        let s = sym.unwrap();
        match mixed_ts_spec(ts.unwrap()) {
            Err(e) => Err(e),
            Ok(t_ns) => if eq_ignore_ascii_case(encode_utf8(ty.unwrap()), encode_utf8("trade"@)) {
                match price_spec(t, s, or_empty(field_at(row, column_of(h, "price"@)))) {
                    Err(e) => Err(e),
                    Ok(px) => match int_or_zero_spec(or_empty(field_at(row, column_of(h, "size"@)))) {
                        Err(e) => Err(e),
                        Ok(sz) => Ok(
                            PendingView {
                                timestamp_ns: t_ns,
                                venue,
                                symbol: s,
                                payload: Payload::Trade { price_ticks: px, size: sz },
                                ingest_order: k as u64,
                            },
                        ),
                    },
                }
            } else if eq_ignore_ascii_case(encode_utf8(ty.unwrap()), encode_utf8("quote"@)) {
                match price_spec(t, s, or_empty(field_at(row, column_of(h, "bid_px"@)))) {
                    Err(e) => Err(e),
                    Ok(bp) => match price_spec(t, s, or_empty(field_at(row, column_of(h, "ask_px"@)))) {
                        Err(e) => Err(e),
                        Ok(ap) => match int_or_zero_spec(or_empty(field_at(row, column_of(h, "bid_sz"@)))) {
                            Err(e) => Err(e),
                            Ok(bs) => match int_or_zero_spec(or_empty(field_at(row, column_of(h, "ask_sz"@)))) {
                                Err(e) => Err(e),
                                Ok(az) => Ok(
                                    PendingView {
                                        timestamp_ns: t_ns,
                                        venue,
                                        symbol: s,
                                        payload: Payload::Quote { bid_px: bp, bid_sz: bs, ask_px: ap, ask_sz: az },
                                        ingest_order: k as u64,
                                    },
                                ),
                            },
                        },
                    },
                }
            } else {
                Err(IngestKind::Parse)
            },
        }
    }
}

pub open spec fn rows_c(t: TickTable, tab: Seq<Seq<Seq<char>>>, venue: Seq<char>, n: nat) -> Result<
    Seq<PendingView>,
    IngestKind,
>
    decreases n,
{
    if n == 0 {
        Ok(Seq::empty())
    } else {
        match rows_c(t, tab, venue, (n - 1) as nat) {
            Err(e) => Err(e),
            Ok(prev) => match row_c_spec(t, tab[0], tab[n as int], n - 1, venue) {
                Ok(p) => Ok(prev.push(p)),
                Err(e) => Err(e),
            },
        }
    }
}

pub open spec fn csv_c_spec(t: TickTable, text: Seq<char>, venue: Seq<char>) -> Result<Seq<PendingView>, IngestKind> {
    match csv_table_of(text) {
        None => Err(IngestKind::Csv),
        Some(tab) => if tab.len() == 0 {
            Ok(Seq::empty())
        } else {
            rows_c(t, tab, venue, (tab.len() - 1) as nat)
        },
    }
}

proof fn lemma_rows_c_err(t: TickTable, tab: Seq<Seq<Seq<char>>>, venue: Seq<char>, m: nat, n: nat)
    requires
        m <= n,
        rows_c(t, tab, venue, m) is Err,
    ensures
        rows_c(t, tab, venue, n) == rows_c(t, tab, venue, m),
    decreases n - m,
{
    if m < n {
        lemma_rows_c_err(t, tab, venue, m, (n - 1) as nat);
    }
}

fn text_or_empty(f: Option<&String>) -> (r: &str)
    ensures
        r@ == match f {
            Some(s) => s@,
            None => Seq::<char>::empty(),
        },
{
    proof {
        reveal_strlit("");
    }
    match f {
        Some(s) => s.as_str(),
        None => "",
    }
}

/// The columns of a variant-C header.
struct ColumnsC {
    ts: Option<usize>,
    sym: Option<usize>,
    ty: Option<usize>,
    px: Option<usize>,
    sz: Option<usize>,
    bp: Option<usize>,
    bs: Option<usize>,
    ap: Option<usize>,
    az: Option<usize>,
}

spec fn col_ok(c: Option<usize>, h: Seq<Seq<char>>, name: Seq<char>) -> bool {
    &&& c matches Some(i) ==> column_of(h, name) == Some(i as int)
    &&& c is None ==> column_of(h, name) is None
}

spec fn columns_c_ok(c: ColumnsC, h: Seq<Seq<char>>) -> bool {
    &&& col_ok(c.ts, h, "timestamp"@)
    &&& col_ok(c.sym, h, "symbol"@)
    &&& col_ok(c.ty, h, "type"@)
    &&& col_ok(c.px, h, "price"@)
    &&& col_ok(c.sz, h, "size"@)
    &&& col_ok(c.bp, h, "bid_px"@)
    &&& col_ok(c.bs, h, "bid_sz"@)
    &&& col_ok(c.ap, h, "ask_px"@)
    &&& col_ok(c.az, h, "ask_sz"@)
}

spec fn row_matches(r: Result<PendingEvent, IngestError>, s: Result<PendingView, IngestKind>) -> bool {
    match s {
        Ok(v) => r matches Ok(p) && pending_view(p) == v,
        Err(k) => r matches Err(e) && kind_of(e) == k,
    }
}

fn parse_row_c(
    row: &Vec<String>,
    cols: &ColumnsC,
    h: Ghost<Seq<Seq<char>>>,
    k: usize,
    venue: &str,
    ticks: &TickTable,
) -> (r: Result<PendingEvent, IngestError>)
    requires
        ticks.wf(),
        columns_c_ok(*cols, h@),
    ensures
        row_matches(r, row_c_spec(*ticks, h@, row@.map_values(|f: String| f@), k as int, venue@)),
{
    proof {
        reveal(row_c_spec);
    }
    proof {
        reveal_strlit("trade");
        reveal_strlit("quote");
    }
    let ts = field_of(row, cols.ts);
    let sym = field_of(row, cols.sym);
    let ty = field_of(row, cols.ty);
    if ts.is_none() || sym.is_none() || ty.is_none() {
        return Err(missing_field());
    }
    let sym = sym.unwrap();
    let ty = ty.unwrap();
    let t_ns = match parse_mixed_ts_ns(ts.unwrap().as_str()) {
        Ok(v) => v,
        Err(e) => return Err(e),
    };
    let payload = if bytes_eq_ignore_ascii_case(ty.as_str().as_bytes(), "trade".as_bytes()) {
        let px = match price_ticks(ticks, sym.as_str(), text_or_empty(field_of(row, cols.px))) {
            Ok(v) => v,
            Err(e) => return Err(e),
        };
        let sz = match parse_i64_or_zero(text_or_empty(field_of(row, cols.sz))) {
            Ok(v) => v,
            Err(e) => return Err(e),
        };
        Payload::Trade { price_ticks: px, size: sz }
    } else if bytes_eq_ignore_ascii_case(ty.as_str().as_bytes(), "quote".as_bytes()) {
        let bp = match price_ticks(ticks, sym.as_str(), text_or_empty(field_of(row, cols.bp))) {
            Ok(v) => v,
            Err(e) => return Err(e),
        };
        let ap = match price_ticks(ticks, sym.as_str(), text_or_empty(field_of(row, cols.ap))) {
            Ok(v) => v,
            Err(e) => return Err(e),
        };
        let bs = match parse_i64_or_zero(text_or_empty(field_of(row, cols.bs))) {
            Ok(v) => v,
            Err(e) => return Err(e),
        };
        let az = match parse_i64_or_zero(text_or_empty(field_of(row, cols.az))) {
            Ok(v) => v,
            Err(e) => return Err(e),
        };
        Payload::Quote { bid_px: bp, bid_sz: bs, ask_px: ap, ask_sz: az }
    } else {
        let mut msg = String::from_str("unknown row type: ");
        msg.append(ty.as_str());
        return Err(IngestError::Parse(msg));
    };
    Ok(
        PendingEvent {
            timestamp_ns: t_ns,
            venue: venue.to_owned(),
            symbol: sym.clone(),
            payload,
            ingest_order: k as u64,
        },
    )
}

/// Parses variant C: `timestamp` (RFC 3339 when it holds a `T`, else
/// milliseconds), `symbol`, `type`, and the trade and quote columns, which
/// may be missing or blank.
pub fn parse_csv_c(text: &str, venue: &str, ticks: &TickTable) -> (r: Result<Vec<PendingEvent>, IngestError>)
    requires
        ticks.wf(),
    ensures
        ingest_matches(r, csv_c_spec(*ticks, text@, venue@)),
{
    let table = match csv_table(text) {
        Ok(t) => t,
        Err(msg) => return Err(IngestError::Csv(msg)),
    };
    let ghost tab = table_view(table@);
    let mut out: Vec<PendingEvent> = Vec::new();
    proof {
        assert(out@.map_values(|p: PendingEvent| pending_view(p)) =~= Seq::<PendingView>::empty());
    }
    if table.len() == 0 {
        return Ok(out);
    }
    let header = &table[0];
    let cols = ColumnsC {
        ts: find_column(header, "timestamp"),
        sym: find_column(header, "symbol"),
        ty: find_column(header, "type"),
        px: find_column(header, "price"),
        sz: find_column(header, "size"),
        bp: find_column(header, "bid_px"),
        bs: find_column(header, "bid_sz"),
        ap: find_column(header, "ask_px"),
        az: find_column(header, "ask_sz"),
    };
    let mut k: usize = 1;
    while k < table.len()
        invariant
            1 <= k <= table@.len(),
            tab == table_view(table@),
            csv_table_of(text@) == Some(tab),
            ticks.wf(),
            tab[0] == table@[0]@.map_values(|f: String| f@),
            columns_c_ok(cols, tab[0]),
            rows_c(*ticks, tab, venue@, (k - 1) as nat) == Ok::<Seq<PendingView>, IngestKind>(
                out@.map_values(|p: PendingEvent| pending_view(p)),
            ),
        decreases table.len() - k,
    {
        let row = &table[k];
        let ghost last = (tab.len() - 1) as nat;
        proof {
            assert(tab[k as int] == row@.map_values(|f: String| f@));
        }
        match parse_row_c(row, &cols, Ghost(tab[0]), k - 1, venue, ticks) {
            Ok(p) => {
                let ghost before = out@.map_values(|p: PendingEvent| pending_view(p));
                out.push(p);
                proof {
                    assert(out@.map_values(|p: PendingEvent| pending_view(p)) =~= before.push(pending_view(out@.last())));
                }
            },
            Err(e) => {
                proof {
                    lemma_rows_c_err(*ticks, tab, venue@, k as nat, last);
                }
                return Err(e);
            },
        }
        k = k + 1;
    }
    Ok(out)
}

/// The events of a successful parse, sequenced.
pub open spec fn ingested(r: Result<Vec<Event>, IngestError>, s: Result<Seq<PendingView>, IngestKind>) -> bool {
    match s {
        Ok(v) => r matches Ok(evs) && exists|p: Seq<PendingEvent>|
            p.map_values(|x: PendingEvent| pending_view(x)) == v && #[trigger] sequenced_from(p, evs@),
        Err(k) => r matches Err(e) && kind_of(e) == k,
    }
}

/// Parses variant A and sequences the events.
pub fn ingest_csv_a(text: &str, venue: &str, ticks: &TickTable) -> (r: Result<Vec<Event>, IngestError>)
    requires
        ticks.wf(),
    ensures
        ingested(r, csv_a_spec(*ticks, text@, venue@)),
{
    match parse_csv_a(text, venue, ticks) {
        Ok(pending) => {
            let ghost p = pending@;
            let evs = assign_sequences(pending);
            let r: Result<Vec<Event>, IngestError> = Ok(evs);
            proof {
                let v = csv_a_spec(*ticks, text@, venue@);
                assert(v is Ok);
                if let Ok(vv) = v {
                    assert(p.map_values(|x: PendingEvent| pending_view(x)) == vv);
                }
                assert(sequenced_from(p, r->Ok_0@));
            }
            r
        },
        Err(e) => Err(e),
    }
}

/// Parses variant B and sequences the events.
pub fn ingest_csv_b(text: &str, venue: &str, ticks: &TickTable) -> (r: Result<Vec<Event>, IngestError>)
    requires
        ticks.wf(),
    ensures
        ingested(r, csv_b_spec(*ticks, text@, venue@)),
{
    match parse_csv_b(text, venue, ticks) {
        Ok(pending) => {
            let ghost p = pending@;
            let evs = assign_sequences(pending);
            let r: Result<Vec<Event>, IngestError> = Ok(evs);
            proof {
                let v = csv_b_spec(*ticks, text@, venue@);
                assert(v is Ok);
                if let Ok(vv) = v {
                    assert(p.map_values(|x: PendingEvent| pending_view(x)) == vv);
                }
                assert(sequenced_from(p, r->Ok_0@));
            }
            r
        },
        Err(e) => Err(e),
    }
}

/// Parses variant C and sequences the events.
pub fn ingest_csv_c(text: &str, venue: &str, ticks: &TickTable) -> (r: Result<Vec<Event>, IngestError>)
    requires
        ticks.wf(),
    ensures
        ingested(r, csv_c_spec(*ticks, text@, venue@)),
{
    match parse_csv_c(text, venue, ticks) {
        Ok(pending) => {
            let ghost p = pending@;
            let evs = assign_sequences(pending);
            let r: Result<Vec<Event>, IngestError> = Ok(evs);
            proof {
                let v = csv_c_spec(*ticks, text@, venue@);
                assert(v is Ok);
                if let Ok(vv) = v {
                    assert(p.map_values(|x: PendingEvent| pending_view(x)) == vv);
                }
                assert(sequenced_from(p, r->Ok_0@));
            }
            r
        },
        Err(e) => Err(e),
    }
}

} // verus!
