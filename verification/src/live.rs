//! Public venue APIs → implied Yes probability (decimal string).
use vstd::prelude::*;

use crate::board::{board_rows, event_rows, lemma_event_quotes, prices_in_range, row_views};
use crate::map::{prob_error_for, ProbFailure};
use crate::spread::{
    lemma_read_prob_range, parse_prob, prob_overflows, quote_views, read_prob, CompareRow,
    ProbReading, Quote, QuoteView, SpreadError, PROB_SCALE,
};
use crate::text::{
    all_digits, all_digits_in, chars_of, idec, parse_i64, push_udec, read_i64, same_text,
};

verus! {

/// Why a venue's Yes price could not be had.
#[derive(Debug, PartialEq, Eq)]
pub enum LiveError {
    Http(String),
    Json(String),
    Venue(String),
    NoPrice(String),
}

/// The human-readable text of a live error.
pub open spec fn live_error_text(e: LiveError) -> Seq<char> {
    match e {
        LiveError::Http(s) => "http "@ + s@,
        LiveError::Json(s) => "json "@ + s@,
        LiveError::Venue(s) => "unknown venue "@ + s@,
        LiveError::NoPrice(s) => "no yes price on "@ + s@,
    }
}

impl LiveError {
    /// The error's message.
    pub fn message(&self) -> (m: String)
        ensures
            m@ == live_error_text(*self),
    {
        let (mut m, s) = match self {
            LiveError::Http(s) => (String::from_str("http "), s),
            LiveError::Json(s) => (String::from_str("json "), s),
            LiveError::Venue(s) => (String::from_str("unknown venue "), s),
            LiveError::NoPrice(s) => (String::from_str("no yes price on "), s),
        };
        m.append(s.as_str());
        m
    }
}

/// One row of the hand-kept market map: a venue's market and the event it is.
#[derive(Debug, Clone, PartialEq, Eq)]
pub struct MapRow {
    pub event_id: String,
    pub venue: String,
    pub market_id: String,
}

/// A market-map row as plain text.
pub struct MapRowView {
    pub event_id: Seq<char>,
    pub venue: Seq<char>,
    pub market_id: Seq<char>,
}

impl View for MapRow {
    type V = MapRowView;

    open spec fn view(&self) -> MapRowView {
        MapRowView { event_id: self.event_id@, venue: self.venue@, market_id: self.market_id@ }
    }
}


// ---------------------------------------------------------------------------
// Kalshi prices
// ---------------------------------------------------------------------------

/// Integer division rounding toward zero, as `/` on `i64` does.
pub open spec fn quot_toward_zero(c: int, d: int) -> int {
    if c >= 0 {
        c / d
    } else {
        -((-c) / d)
    }
}

/// The remainder that goes with `quot_toward_zero`, as `%` on `i64` gives it.
pub open spec fn rem_toward_zero(c: int, d: int) -> int {
    if c >= 0 {
        c % d
    } else {
        -((-c) % d)
    }
}

/// An integer printed with `{:02}`: zero-padded to two characters, sign included.
pub open spec fn two_wide(r: int) -> Seq<char> {
    if 0 <= r < 10 {
        "0"@ + idec(r)
    } else {
        idec(r)
    }
}

/// A count of cents written as dollars: whole part, `.`, two-wide remainder.
pub open spec fn cents_as_dollars(c: int) -> Seq<char> {
    idec(quot_toward_zero(c, 100)) + "."@ + two_wide(rem_toward_zero(c, 100))
}

/// A Kalshi price as a probability string: the `last_price` field, when it
/// holds no `.` and reads as an integer, counts cents (0–100) and is written as
/// dollars; any other field or text stands as it is.
pub open spec fn normalized_price(key: Seq<char>, s: Seq<char>) -> Seq<char> {
    if key == "last_price"@ && !s.contains('.') {
        match read_i64(s) {
            Some(c) => cents_as_dollars(c),
            None => s,
        }
    } else {
        s
    }
}

/// Appends the decimal rendering of `n` to `out`.
pub fn push_idec(n: i64, out: &mut String)
    ensures
        final(out)@ == old(out)@ + idec(n as int),
{
    if n < 0 {
        proof {
            reveal_strlit("-");
        }
        let ghost start = out@;
        out.append("-");
        let m: u64 = if n == i64::MIN {
            9223372036854775808u64
        } else {
            (-n) as u64
        };
        push_udec(m, out);
        assert(out@ =~= start + idec(n as int));
    } else {
        push_udec(n as u64, out);
    }
}

/// The decimal text of `n`, as `to_string` writes it.
pub fn i64_text(n: i64) -> (s: String)
    ensures
        s@ == idec(n as int),
{
    let mut s = String::new();
    push_idec(n, &mut s);
    assert(s@ =~= idec(n as int));
    s
}

fn has_dot(cs: &Vec<char>) -> (b: bool)
    ensures
        b == cs@.contains('.'),
{
    let mut i: usize = 0;
    while i < cs.len()
        invariant
            i <= cs@.len(),
            forall|j: int| 0 <= j < i ==> cs@[j] != '.',
        decreases cs@.len() - i,
    {
        if cs[i] == '.' {
            assert(cs@[i as int] == '.');
            return true;
        }
        i = i + 1;
    }
    false
}

/// Writes a Kalshi price field as a probability string (see `normalized_price`).
pub fn normalize_kalshi_price(key: &str, s: &str) -> (r: String)
    ensures
        r@ == normalized_price(key@, s@),
{
    let cs = chars_of(s);
    if same_text(key, "last_price") && !has_dot(&cs) {
        match parse_i64(&cs) {
            Some(c) => {
                let (q, rem): (i64, i64) = if c >= 0 {
                    (c / 100, c % 100)
                } else {
                    let m: u64 = if c == i64::MIN {
                        9223372036854775808u64
                    } else {
                        (-c) as u64
                    };
                    (-((m / 100) as i64), -((m % 100) as i64))
                };
                let mut out = String::new();
                push_idec(q, &mut out);
                out.append(".");
                if 0 <= rem && rem < 10 {
                    out.append("0");
                }
                push_idec(rem, &mut out);
                proof {
                    assert(out@ =~= cents_as_dollars(c as int));
                }
                return out;
            },
            None => {},
        }
    }
    String::from_str(s)
}

/// What the logic reads of one JSON field: its text when it is a string, its
/// value when it is an integer that fits an `i64`, nothing otherwise (also
/// when the field is missing).
pub enum JsonScalar {
    Text(String),
    Integer(i64),
    Other,
}

/// The four Kalshi price fields, in the order in which they are tried.
pub struct KalshiFields {
    pub last_price_dollars: JsonScalar,
    pub yes_ask_dollars: JsonScalar,
    pub yes_bid_dollars: JsonScalar,
    pub last_price: JsonScalar,
}

/// A Kalshi market reply: the fields of its `market` member when it has one,
/// and the fields at its top level.
pub struct KalshiReply {
    pub market: Option<KalshiFields>,
    pub top: KalshiFields,
}

/// The price that one field gives, if any: a non-empty string (but for the
/// placeholder `"0.0000"` in `last_price_dollars`) or an integer, normalized.
pub open spec fn field_price(key: Seq<char>, v: JsonScalar) -> Option<Seq<char>> {
    match v {
        JsonScalar::Text(s) => if s@.len() > 0 && !(key == "last_price_dollars"@ && s@
            == "0.0000"@) {
            Some(normalized_price(key, s@))
        } else {
            None
        },
        JsonScalar::Integer(n) => Some(normalized_price(key, idec(n as int))),
        JsonScalar::Other => None,
    }
}

/// The first price that the fields give, in the order
/// `last_price_dollars`, `yes_ask_dollars`, `yes_bid_dollars`, `last_price`.
pub open spec fn kalshi_price(f: KalshiFields) -> Option<Seq<char>> {
    match field_price("last_price_dollars"@, f.last_price_dollars) {
        Some(p) => Some(p),
        None => match field_price("yes_ask_dollars"@, f.yes_ask_dollars) {
            Some(p) => Some(p),
            None => match field_price("yes_bid_dollars"@, f.yes_bid_dollars) {
                Some(p) => Some(p),
                None => field_price("last_price"@, f.last_price),
            },
        },
    }
}

/// The fields that a reply's price is read from: its `market` member when
/// present, else its top level.
pub open spec fn kalshi_fields(r: KalshiReply) -> KalshiFields {
    match r.market {
        Some(m) => m,
        None => r.top,
    }
}

fn field_price_of(key: &str, v: &JsonScalar) -> (r: Option<String>)
    ensures
        match field_price(key@, *v) {
            Some(p) => r matches Some(s) && s@ == p,
            None => r is None,
        },
{
    match v {
        JsonScalar::Text(s) => {
            if !s.as_str().is_empty() {
                if same_text(key, "last_price_dollars") && same_text(s.as_str(), "0.0000") {
                    return None;
                }
                return Some(normalize_kalshi_price(key, s.as_str()));
            }
            None
        },
        JsonScalar::Integer(n) => {
            let t = i64_text(*n);
            Some(normalize_kalshi_price(key, t.as_str()))
        },
        JsonScalar::Other => None,
    }
}

/// The Yes price in a Kalshi market reply, as a probability string.
pub fn kalshi_yes(ticker: &str, reply: &KalshiReply) -> (r: Result<String, LiveError>)
    ensures
        match kalshi_price(kalshi_fields(*reply)) {
            Some(p) => r matches Ok(s) && s@ == p,
            None => r matches Err(LiveError::NoPrice(t)) && t@ == ticker@,
        },
{
    let f = match &reply.market {
        Some(m) => m,
        None => &reply.top,
    };
    if let Some(p) = field_price_of("last_price_dollars", &f.last_price_dollars) {
        return Ok(p);
    }
    if let Some(p) = field_price_of("yes_ask_dollars", &f.yes_ask_dollars) {
        return Ok(p);
    }
    if let Some(p) = field_price_of("yes_bid_dollars", &f.yes_bid_dollars) {
        return Ok(p);
    }
    if let Some(p) = field_price_of("last_price", &f.last_price) {
        return Ok(p);
    }
    Err(LiveError::NoPrice(String::from_str(ticker)))
}

// ---------------------------------------------------------------------------
// Polymarket prices
// ---------------------------------------------------------------------------

/// What `serde_json::from_str::<Vec<String>>` gives for a text: the strings of
/// a JSON array of strings, or the text of the error.
pub uninterp spec fn decoded_string_list(text: Seq<char>) -> Result<Seq<Seq<char>>, Seq<char>>;

/// Calls `serde_json::from_str::<Vec<String>>`; the contract claims that the
/// result, strings and error text alike, is `decoded_string_list` of the text.
#[verifier::external_body]
fn decode_string_list(text: &str) -> (r: Result<Vec<String>, String>)
    ensures
        match r {
            Ok(v) => decoded_string_list(text@) == Ok::<Seq<Seq<char>>, Seq<char>>(
                v@.map_values(|s: String| s@),
            ),
            Err(m) => decoded_string_list(text@) == Err::<Seq<Seq<char>>, Seq<char>>(m@),
        },
{
    match serde_json::from_str::<Vec<String>>(text) {
        Ok(v) => Ok(v),
        Err(e) => Err(e.to_string()),
    }
}

/// A Polymarket reply: a list of markets or a single market, each given by
/// its `outcomePrices` field.
pub enum PolymarketReply {
    List(Vec<JsonScalar>),
    Single(JsonScalar),
}

/// The `outcomePrices` text of the reply's market (the first, for a list).
pub open spec fn outcome_prices(r: PolymarketReply) -> Option<Seq<char>> {
    let f = match r {
        PolymarketReply::List(v) => if v@.len() > 0 {
            v@[0]
        } else {
            JsonScalar::Other
        },
        PolymarketReply::Single(s) => s,
    };
    match f {
        JsonScalar::Text(s) => Some(s@),
        _ => None,
    }
}

/// The first outcome price of a decoded `outcomePrices` list.
pub fn first_price(id: &str, decoded: Result<Vec<String>, String>) -> (r: Result<
    String,
    LiveError,
>)
    ensures
        match decoded {
            Err(m) => r matches Err(LiveError::Json(e)) && e@ == m@,
            Ok(v) => if v@.len() > 0 {
                r matches Ok(s) && s@ == v@[0]@
            } else {
                r matches Err(LiveError::NoPrice(t)) && t@ == id@
            },
        },
{
    match decoded {
        Err(m) => Err(LiveError::Json(m)),
        Ok(v) => {
            if v.len() > 0 {
                Ok(v[0].clone())
            } else {
                Err(LiveError::NoPrice(String::from_str(id)))
            }
        },
    }
}

/// The Yes price in a Polymarket reply: the first entry of the JSON array held,
/// as a string, in `outcomePrices`.
pub fn polymarket_yes(id: &str, reply: &PolymarketReply) -> (r: Result<String, LiveError>)
    ensures
        match outcome_prices(*reply) {
            None => r matches Err(LiveError::NoPrice(t)) && t@ == id@,
            Some(p) => match decoded_string_list(p) {
                Err(m) => r matches Err(LiveError::Json(e)) && e@ == m,
                Ok(list) => if list.len() > 0 {
                    r matches Ok(s) && s@ == list[0]
                } else {
                    r matches Err(LiveError::NoPrice(t)) && t@ == id@
                },
            },
        },
{
    let field = match reply {
        PolymarketReply::List(v) => {
            if v.len() > 0 {
                &v[0]
            } else {
                return Err(LiveError::NoPrice(String::from_str(id)));
            }
        },
        PolymarketReply::Single(s) => s,
    };
    match field {
        JsonScalar::Text(p) => {
            let decoded = decode_string_list(p.as_str());
            first_price(id, decoded)
        },
        _ => Err(LiveError::NoPrice(String::from_str(id))),
    }
}

// ---------------------------------------------------------------------------
// Where to ask
// ---------------------------------------------------------------------------

/// The Polymarket address of a market: by number when the id is all digits,
/// else by slug.
pub open spec fn polymarket_url_text(id: Seq<char>) -> Seq<char> {
    if all_digits(id) {
        "https://gamma-api.polymarket.com/markets/"@ + id
    } else {
        "https://gamma-api.polymarket.com/markets?slug="@ + id
    }
}

/// The Kalshi address of a market.
pub open spec fn kalshi_url_text(ticker: Seq<char>) -> Seq<char> {
    "https://api.elections.kalshi.com/trade-api/v2/markets/"@ + ticker
}

/// The Polymarket address of a market.
pub fn polymarket_url(id: &str) -> (u: String)
    ensures
        u@ == polymarket_url_text(id@),
{
    let cs = chars_of(id);
    let mut u = if all_digits_in(&cs, 0, cs.len()) {
        String::from_str("https://gamma-api.polymarket.com/markets/")
    } else {
        String::from_str("https://gamma-api.polymarket.com/markets?slug=")
    };
    assert(cs@.subrange(0, cs@.len() as int) =~= cs@);
    u.append(id);
    u
}

/// The Kalshi address of a market.
pub fn kalshi_url(ticker: &str) -> (u: String)
    ensures
        u@ == kalshi_url_text(ticker@),
{
    let mut u = String::from_str("https://api.elections.kalshi.com/trade-api/v2/markets/");
    u.append(ticker);
    u
}

/// Which venue API to ask, and where.
pub enum VenueRequest {
    Polymarket(String),
    Kalshi(String),
}

/// The request that fetches a venue's market: Polymarket and Kalshi are known;
/// any other venue is refused.
pub fn venue_request(venue: &str, market_id: &str) -> (r: Result<VenueRequest, LiveError>)
    ensures
        venue@ == "polymarket"@ ==> (r matches Ok(VenueRequest::Polymarket(u)) && u@
            == polymarket_url_text(market_id@)),
        venue@ == "kalshi"@ ==> (r matches Ok(VenueRequest::Kalshi(u)) && u@ == kalshi_url_text(
            market_id@,
        )),
        venue@ != "polymarket"@ && venue@ != "kalshi"@ ==> (r matches Err(LiveError::Venue(v))
            && v@ == venue@),
{
    proof {
        reveal_strlit("polymarket");
        reveal_strlit("kalshi");
        assert("kalshi"@.len() != "polymarket"@.len());
    }
    if same_text(venue, "polymarket") {
        Ok(VenueRequest::Polymarket(polymarket_url(market_id)))
    } else if same_text(venue, "kalshi") {
        Ok(VenueRequest::Kalshi(kalshi_url(market_id)))
    } else {
        Err(LiveError::Venue(String::from_str(venue)))
    }
}

// ---------------------------------------------------------------------------
// Comparing live quotes
// ---------------------------------------------------------------------------

/// The quotes that the fetched prices of the first `n` map rows give, in map
/// order: rows whose fetch failed are passed over; the first fetched price
/// that does not read as a probability stops everything.
pub open spec fn live_quotes(m: Seq<MapRowView>, f: Seq<Result<String, LiveError>>, n: nat) -> Result<
    Seq<QuoteView>,
    ProbFailure,
>
    decreases n,
{
    if n == 0 {
        Ok(Seq::empty())
    } else {
        match live_quotes(m, f, (n - 1) as nat) {
            Err(e) => Err(e),
            Ok(qs) => match f[n - 1] {
                Err(_) => Ok(qs),
                Ok(text) => match read_prob(text@) {
                    ProbReading::Millionths(v) => Ok(
                        qs.push(
                            QuoteView {
                                event_id: m[n - 1].event_id,
                                venue: m[n - 1].venue,
                                market_id: m[n - 1].market_id,
                                yes: v as i64,
                            },
                        ),
                    ),
                    r => Err(ProbFailure { text: text@, reading: r }),
                },
            },
        }
    }
}

/// No fetched price that gets read runs past the range of `i64`.
pub open spec fn live_overflow_free(
    m: Seq<MapRowView>,
    f: Seq<Result<String, LiveError>>,
    n: nat,
) -> bool
    decreases n,
{
    if n == 0 {
        true
    } else {
        &&& live_overflow_free(m, f, (n - 1) as nat)
        &&& (live_quotes(m, f, (n - 1) as nat) is Ok && f[n - 1] is Ok) ==> !(read_prob(
            f[n - 1]->Ok_0@,
        ) is Overflow)
    }
}

/// One line per failed fetch among the first `n` rows: venue, market, error.
pub open spec fn fetch_failures(
    m: Seq<MapRowView>,
    f: Seq<Result<String, LiveError>>,
    n: nat,
) -> Seq<Seq<char>>
    decreases n,
{
    if n == 0 {
        Seq::empty()
    } else {
        let r = fetch_failures(m, f, (n - 1) as nat);
        match f[n - 1] {
            Err(e) => r.push(
                m[n - 1].venue + " "@ + m[n - 1].market_id + ": "@ + live_error_text(e),
            ),
            Ok(_) => r,
        }
    }
}

/// The parts joined with `sep` between each two.
pub open spec fn joined(parts: Seq<Seq<char>>, sep: Seq<char>) -> Seq<char>
    decreases parts.len(),
{
    if parts.len() == 0 {
        Seq::empty()
    } else if parts.len() == 1 {
        parts[0]
    } else {
        joined(parts.drop_last(), sep) + sep + parts.last()
    }
}

/// Joins texts with `sep` between each two.
pub fn join_texts(parts: &Vec<String>, sep: &str) -> (r: String)
    ensures
        r@ == joined(parts@.map_values(|s: String| s@), sep@),
{
    let ghost v = parts@.map_values(|s: String| s@);
    let mut r = String::new();
    let mut i: usize = 0;
    assert(r@ =~= joined(v.take(0), sep@));
    while i < parts.len()
        invariant
            i <= parts@.len(),
            v == parts@.map_values(|s: String| s@),
            r@ == joined(v.take(i as int), sep@),
        decreases parts@.len() - i,
    {
        assert(v.take(i + 1).drop_last() =~= v.take(i as int));
        assert(v.take(i + 1).last() == parts@[i as int]@);
        if i > 0 {
            r.append(sep);
        }
        r.append(parts[i].as_str());
        proof {
            if i == 0 {
                assert(r@ =~= joined(v.take(1), sep@));
            }
        }
        i = i + 1;
    }
    assert(v.take(parts@.len() as int) =~= v);
    r
}

/// Why the live comparison gave no table.
#[derive(Debug, PartialEq, Eq)]
pub enum LiveFailure {
    /// A fetched price did not read as a probability.
    Price(SpreadError),
    /// No fetch succeeded; the failures, joined with `"; "`.
    NoQuotes(String),
}

/// The human-readable text of a live-comparison failure.
pub open spec fn live_failure_text(e: LiveFailure) -> Seq<char> {
    match e {
        LiveFailure::Price(p) => crate::spread::spread_error_text(p),
        LiveFailure::NoQuotes(s) => s@,
    }
}

impl LiveFailure {
    /// The failure's message.
    pub fn message(&self) -> (m: String)
        ensures
            m@ == live_failure_text(*self),
    {
        match self {
            LiveFailure::Price(p) => p.message(),
            LiveFailure::NoQuotes(s) => s.clone(),
        }
    }
}

proof fn lemma_live_free_prefix(
    m: Seq<MapRowView>,
    f: Seq<Result<String, LiveError>>,
    n: nat,
    i: nat,
)
    requires
        live_overflow_free(m, f, n),
        i <= n,
    ensures
        live_overflow_free(m, f, i),
    decreases n - i,
{
    if i < n {
        lemma_live_free_prefix(m, f, (n - 1) as nat, i);
    }
}

proof fn lemma_live_failure_persists(
    m: Seq<MapRowView>,
    f: Seq<Result<String, LiveError>>,
    n: nat,
    i: nat,
)
    requires
        i <= n,
        live_quotes(m, f, i) is Err,
    ensures
        live_quotes(m, f, n) == live_quotes(m, f, i),
    decreases n - i,
{
    if i < n {
        lemma_live_failure_persists(m, f, (n - 1) as nat, i);
    }
}

proof fn lemma_live_prices(m: Seq<MapRowView>, f: Seq<Result<String, LiveError>>, n: nat)
    ensures
        live_quotes(m, f, n) matches Ok(qs) ==> prices_in_range(qs),
    decreases n,
{
    if n > 0 {
        lemma_live_prices(m, f, (n - 1) as nat);
        if let Ok(qs) = live_quotes(m, f, n) {
            let p = live_quotes(m, f, (n - 1) as nat)->Ok_0;
            if let Ok(text) = f[n - 1] {
                lemma_read_prob_range(text@);
            }
            assert forall|i: int| 0 <= i < qs.len() implies 0 <= #[trigger] qs[i].yes
                <= PROB_SCALE by {
                if i < p.len() {
                    assert(qs[i] == p[i]);
                }
            }
        }
    }
}

/// Whether reading the fetched prices, in map order, runs past the range of
/// `i64` before any of them fails to read.
pub fn live_overflow(map: &[MapRow], fetched: &[Result<String, LiveError>]) -> (b: bool)
    requires
        map@.len() == fetched@.len(),
    ensures
        b == !live_overflow_free(
            crate::map::map_row_views(map@),
            fetched@,
            fetched@.len() as nat,
        ),
{
    let ghost m = crate::map::map_row_views(map@);
    let n = fetched.len();
    let mut i: usize = 0;
    while i < n
        invariant
            i <= n == fetched@.len(),
            m == crate::map::map_row_views(map@),
            live_overflow_free(m, fetched@, i as nat),
            live_quotes(m, fetched@, i as nat) is Ok,
        decreases n - i,
    {
        match &fetched[i] {
            Err(_) => {},
            Ok(yes) => {
                if prob_overflows(yes.as_str()) {
                    proof {
                        if live_overflow_free(m, fetched@, n as nat) {
                            lemma_live_free_prefix(m, fetched@, n as nat, (i + 1) as nat);
                        }
                    }
                    return true;
                }
                match parse_prob(yes.as_str()) {
                    Ok(_) => {},
                    Err(_) => {
                        proof {
                            lemma_live_failure_persists(m, fetched@, n as nat, (i + 1) as nat);
                            lemma_live_free_after_failure(m, fetched@, n as nat, (i + 1) as nat);
                        }
                        return false;
                    },
                }
            },
        }
        i = i + 1;
    }
    false
}

proof fn lemma_live_free_after_failure(
    m: Seq<MapRowView>,
    f: Seq<Result<String, LiveError>>,
    n: nat,
    i: nat,
)
    requires
        i <= n,
        live_overflow_free(m, f, i),
        live_quotes(m, f, i) is Err,
    ensures
        live_overflow_free(m, f, n),
    decreases n - i,
{
    if i < n {
        lemma_live_free_after_failure(m, f, (n - 1) as nat, i);
        lemma_live_failure_persists(m, f, (n - 1) as nat, i);
    }
}

/// Compares the fetched Yes prices of the market map's rows (`fetched[i]` is
/// what fetching `map[i]` gave). Each event gets one row, in increasing event
/// order: its comparison when two or more venues quoted it, a `"quote"` row
/// when one did. The first fetched price that does not read as a probability
/// is the error; when every fetch failed, the error lists the failures.
pub fn compare_live(map: &[MapRow], fetched: &[Result<String, LiveError>], threshold: i64) -> (r:
    Result<Vec<CompareRow>, LiveFailure>)
    requires
        map@.len() == fetched@.len(),
        live_overflow_free(crate::map::map_row_views(map@), fetched@, fetched@.len() as nat),
    ensures
        ({
            let m = crate::map::map_row_views(map@);
            let n = fetched@.len() as nat;
            match live_quotes(m, fetched@, n) {
                Err(pf) => r matches Err(LiveFailure::Price(e)) && prob_error_for(e, pf),
                Ok(qs) => if qs.len() == 0 && fetch_failures(m, fetched@, n).len() > 0 {
                    r matches Err(LiveFailure::NoQuotes(msg)) && msg@ == joined(
                        fetch_failures(m, fetched@, n),
                        "; "@,
                    )
                } else {
                    r matches Ok(rows) && board_rows(row_views(rows@), qs, threshold, true)
                },
            }
        }),
{
    let ghost m = crate::map::map_row_views(map@);
    let n = fetched.len();
    let mut found: Vec<Quote> = Vec::new();
    let mut failures: Vec<String> = Vec::new();
    let mut i: usize = 0;
    assert(quote_views(found@) =~= Seq::<QuoteView>::empty());
    assert(failures@.map_values(|s: String| s@) =~= Seq::<Seq<char>>::empty());
    while i < n
        invariant
            i <= n == fetched@.len() == map@.len(),
            m == crate::map::map_row_views(map@),
            live_overflow_free(m, fetched@, n as nat),
            live_quotes(m, fetched@, i as nat) == Ok::<Seq<QuoteView>, ProbFailure>(
                quote_views(found@),
            ),
            failures@.map_values(|s: String| s@) == fetch_failures(m, fetched@, i as nat),
        decreases n - i,
    {
        proof {
            lemma_live_free_prefix(m, fetched@, n as nat, (i + 1) as nat);
        }
        let row = &map[i];
        assert(m[i as int] == row@);
        match &fetched[i] {
            Ok(yes) => {
                match parse_prob(yes.as_str()) {
                    Ok(v) => {
                        let ghost before = found@;
                        found.push(
                            Quote {
                                event_id: row.event_id.clone(),
                                venue: row.venue.clone(),
                                market_id: row.market_id.clone(),
                                yes: v,
                            },
                        );
                        assert(quote_views(found@) =~= quote_views(before).push(
                            found@[found@.len() - 1]@,
                        ));
                    },
                    Err(e) => {
                        proof {
                            lemma_live_failure_persists(m, fetched@, n as nat, (i + 1) as nat);
                        }
                        return Err(LiveFailure::Price(e));
                    },
                }
            },
            Err(e) => {
                let ghost before = failures@;
                let mut line = row.venue.clone();
                line.append(" ");
                line.append(row.market_id.as_str());
                line.append(": ");
                let msg = e.message();
                line.append(msg.as_str());
                failures.push(line);
                assert(failures@.map_values(|s: String| s@) =~= before.map_values(
                    |s: String| s@,
                ).push(failures@[failures@.len() - 1]@));
            },
        }
        i = i + 1;
    }
    proof {
        lemma_live_prices(m, fetched@, n as nat);
    }
    let ghost qs = quote_views(found@);
    let rows = event_rows(found.as_slice(), threshold, true);
    proof {
        let rv = row_views(rows@);
        if qs.len() > 0 {
            let k = qs[0].event_id;
            lemma_event_quotes(qs, k);
            assert(crate::board::shown(crate::board::event_quotes(qs, k), true));
        } else if rv.len() > 0 {
            let k = rv[0].event_id;
            lemma_event_quotes(qs, k);
        }
    }
    if rows.len() == 0 && failures.len() > 0 {
        return Err(LiveFailure::NoQuotes(join_texts(&failures, "; ")));
    }
    Ok(rows)
}

} // verus!
