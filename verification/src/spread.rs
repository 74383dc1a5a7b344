//! Implied-probability spread. Millionths integer scale (1_000_000 = 100%).
use vstd::prelude::*;

use crate::table::{table_map, KeyedTable};
use crate::text::{
    all_digits, all_digits_in, chars_of, digits_value, find_dot, first_dot,
    is_digit, lemma_digits_nonneg, parse_digits, trim, trim_bounds,
};

verus! {

/// One whole probability, in millionths.
pub const PROB_SCALE: i64 = 1_000_000;

/// The alert threshold when the config names none: 5%, in millionths.
pub const DEFAULT_THRESHOLD_MILLIONTHS: i64 = 50_000;

/// One venue's Yes price for an event.
#[derive(Debug, Clone, PartialEq, Eq)]
pub struct Quote {
    pub event_id: String,
    pub venue: String,
    pub market_id: String,
    pub yes: i64,
}

/// A quote as plain text and numbers.
pub struct QuoteView {
    pub event_id: Seq<char>,
    pub venue: Seq<char>,
    pub market_id: Seq<char>,
    pub yes: i64,
}

impl View for Quote {
    type V = QuoteView;

    open spec fn view(&self) -> QuoteView {
        QuoteView {
            event_id: self.event_id@,
            venue: self.venue@,
            market_id: self.market_id@,
            yes: self.yes,
        }
    }
}

/// The views of a sequence of quotes.
pub open spec fn quote_views(s: Seq<Quote>) -> Seq<QuoteView> {
    s.map_values(|q: Quote| q@)
}

/// Why a probability or a spread could not be computed.
#[derive(Debug, PartialEq, Eq)]
pub enum SpreadError {
    NeedTwoVenues,
    MixedEvents,
    BadProb(String),
    OutOfRange(String),
}

/// The human-readable text of a spread error.
pub open spec fn spread_error_text(e: SpreadError) -> Seq<char> {
    match e {
        SpreadError::NeedTwoVenues => "need at least two venue quotes"@,
        SpreadError::MixedEvents => "quotes must share event_id"@,
        SpreadError::BadProb(s) => "bad prob: "@ + s@,
        SpreadError::OutOfRange(s) => "prob out of range: "@ + s@,
    }
}

impl SpreadError {
    /// The error's message.
    pub fn message(&self) -> (m: String)
        ensures
            m@ == spread_error_text(*self),
    {
        match self {
            SpreadError::NeedTwoVenues => String::from_str("need at least two venue quotes"),
            SpreadError::MixedEvents => String::from_str("quotes must share event_id"),
            SpreadError::BadProb(s) => {
                let mut m = String::from_str("bad prob: ");
                m.append(s.as_str());
                m
            },
            SpreadError::OutOfRange(s) => {
                let mut m = String::from_str("prob out of range: ");
                m.append(s.as_str());
                m
            },
        }
    }
}

// ---------------------------------------------------------------------------
// Reading a probability
// ---------------------------------------------------------------------------

/// How a probability text reads.
pub enum ProbReading {
    /// A probability, in millionths, within `0..=PROB_SCALE`.
    Millionths(int),
    /// Not a number in either accepted form.
    Malformed,
    /// A number outside `0..=PROB_SCALE`.
    OutOfRange,
    /// A decimal whose millionths do not fit in an `i64`.
    Overflow,
}

/// The first six fraction digits, padded on the right with zeros.
pub open spec fn pad6(frac: Seq<char>) -> Seq<char> {
    if frac.len() >= 6 {
        frac.take(6)
    } else {
        frac + Seq::new((6 - frac.len()) as nat, |i: int| '0')
    }
}

/// The reading of a probability text. Surrounding whitespace is ignored. A
/// decimal `whole.frac` (either part may be empty; digits past the sixth are
/// cut off) is a fraction of one; a plain integer is a whole probability when
/// it is 0 or 1 and a count of millionths otherwise.
pub open spec fn read_prob(text: Seq<char>) -> ProbReading {
    let t = trim(text);
    let d = first_dot(t);
    if t.len() == 0 {
        ProbReading::Malformed
    } else if d >= 0 {
        let whole = t.take(d);
        let frac = t.skip(d + 1);
        if !all_digits(whole) || !all_digits(frac) {
            ProbReading::Malformed
        } else if digits_value(whole) > i64::MAX {
            ProbReading::Malformed
        } else {
            let v = digits_value(whole) * 1_000_000 + digits_value(pad6(frac));
            if v > i64::MAX {
                ProbReading::Overflow
            } else if v > 1_000_000 {
                ProbReading::OutOfRange
            } else {
                ProbReading::Millionths(v)
            }
        }
    } else if !all_digits(t) {
        ProbReading::Malformed
    } else if digits_value(t) > i64::MAX {
        ProbReading::Malformed
    } else {
        let n = digits_value(t);
        if n <= 1 {
            ProbReading::Millionths(n * 1_000_000)
        } else if n > 1_000_000 {
            ProbReading::OutOfRange
        } else {
            ProbReading::Millionths(n)
        }
    }
}

/// A reading that succeeds is a probability: between 0 and one whole, in millionths.
pub proof fn lemma_read_prob_range(text: Seq<char>)
    ensures
        read_prob(text) matches ProbReading::Millionths(v) ==> 0 <= v <= PROB_SCALE,
{
    let t = trim(text);
    let d = first_dot(t);
    if t.len() > 0 && d >= 0 {
        let whole = t.take(d);
        let frac = t.skip(d + 1);
        if all_digits(whole) && all_digits(frac) {
            lemma_digits_nonneg(whole);
            let p = pad6(frac);
            assert forall|i: int| 0 <= i < p.len() implies #[trigger] is_digit(p[i]) by {
                if i < frac.len() {
                    assert(is_digit(frac[i]));
                }
            }
            lemma_digits_nonneg(p);
        }
    } else if t.len() > 0 && all_digits(t) {
        lemma_digits_nonneg(t);
    }
}

/// Ten to the power `n`.
pub open spec fn pow10(n: nat) -> nat
    decreases n,
{
    if n == 0 {
        1
    } else {
        10 * pow10((n - 1) as nat)
    }
}

proof fn lemma_pow10_small(k: nat)
    requires
        k <= 6,
    ensures
        pow10(k) <= 1_000_000,
        k < 6 ==> pow10(k) <= 100_000,
        k == 6 ==> pow10(k) == 1_000_000,
{
    reveal_with_fuel(pow10, 7);
}

/// The value of the first six fraction digits of `cs[lo..hi]`, padded with zeros.
fn frac_millionths(cs: &Vec<char>, lo: usize, hi: usize) -> (f: u64)
    requires
        lo <= hi <= cs@.len(),
        all_digits(cs@.subrange(lo as int, hi as int)),
    ensures
        f == digits_value(pad6(cs@.subrange(lo as int, hi as int))),
        f < 1_000_000,
{
    let ghost frac = cs@.subrange(lo as int, hi as int);
    let ghost p = pad6(frac);
    assert(p.len() == 6);
    let mut f: u64 = 0;
    let mut k: usize = 0;
    assert(p.take(0) =~= Seq::<char>::empty());
    while k < 6
        invariant
            k <= 6,
            lo <= hi <= cs@.len(),
            frac == cs@.subrange(lo as int, hi as int),
            all_digits(frac),
            p == pad6(frac),
            p.len() == 6,
            f == digits_value(p.take(k as int)),
            f < pow10(k as nat),
        decreases 6 - k,
    {
        proof {
            lemma_pow10_small(k as nat);
        }
        let c = if k < hi - lo {
            cs[lo + k]
        } else {
            '0'
        };
        assert(p[k as int] == c) by {
            if k < frac.len() {
                assert(frac[k as int] == cs@[lo + k]);
            }
        };
        if k < hi - lo {
            assert(is_digit(frac[k as int]));
        }
        let d: u64 = ((c as u32) - 48) as u64;
        assert(p.take(k + 1).drop_last() =~= p.take(k as int));
        f = f * 10 + d;
        k = k + 1;
    }
    proof {
        lemma_pow10_small(6);
        assert(p.take(6) =~= p);
    }
    f
}

/// Whether reading `text` as a probability runs past the range of `i64`.
pub fn prob_overflows(text: &str) -> (b: bool)
    ensures
        b == (read_prob(text@) is Overflow),
{
    let cs = chars_of(text);
    let (lo, hi) = trim_bounds(&cs);
    let ghost t = cs@.subrange(lo as int, hi as int);
    if lo == hi {
        return false;
    }
    match find_dot(&cs, lo, hi) {
        None => false,
        Some(d) => {
            assert(t.take(d - lo) =~= cs@.subrange(lo as int, d as int));
            assert(t.skip(d - lo + 1) =~= cs@.subrange(d + 1, hi as int));
            if !all_digits_in(&cs, lo, d) || !all_digits_in(&cs, d + 1, hi) {
                return false;
            }
            match parse_digits(&cs, lo, d) {
                None => false,
                Some(w) => {
                    if w > 9223372036854775807u64 {
                        return false;
                    }
                    let f = frac_millionths(&cs, d + 1, hi);
                    match w.checked_mul(1_000_000) {
                        None => true,
                        Some(m) => match m.checked_add(f) {
                            None => true,
                            Some(v) => v > 9223372036854775807u64,
                        },
                    }
                },
            }
        },
    }
}

/// Reads an implied Yes probability as millionths. Accepts a decimal fraction
/// of one (`"0.62"`, `".5"`, `"1."`; digits past the sixth are dropped), or a
/// plain integer that is a whole probability when it is `0` or `1` and a count
/// of millionths otherwise. Surrounding whitespace is ignored.
pub fn parse_prob(text: &str) -> (r: Result<i64, SpreadError>)
    requires
        !(read_prob(text@) is Overflow),
    ensures
        match read_prob(text@) {
            ProbReading::Millionths(v) => r == Ok::<i64, SpreadError>(v as i64),
            ProbReading::Malformed => r matches Err(SpreadError::BadProb(s)) && s@ == text@,
            ProbReading::OutOfRange => r matches Err(SpreadError::OutOfRange(s)) && s@ == text@,
            ProbReading::Overflow => false,
        },
        r matches Ok(v) ==> 0 <= v <= PROB_SCALE,
{
    let cs = chars_of(text);
    let (lo, hi) = trim_bounds(&cs);
    let ghost t = cs@.subrange(lo as int, hi as int);
    if lo == hi {
        return Err(SpreadError::BadProb(String::from_str(text)));
    }
    let val: u64 = match find_dot(&cs, lo, hi) {
        Some(d) => {
            assert(t.take(d - lo) =~= cs@.subrange(lo as int, d as int));
            assert(t.skip(d - lo + 1) =~= cs@.subrange(d + 1, hi as int));
            if !all_digits_in(&cs, lo, d) || !all_digits_in(&cs, d + 1, hi) {
                return Err(SpreadError::BadProb(String::from_str(text)));
            }
            let w = match parse_digits(&cs, lo, d) {
                None => {
                    return Err(SpreadError::BadProb(String::from_str(text)));
                },
                Some(w) => w,
            };
            if w > 9223372036854775807u64 {
                return Err(SpreadError::BadProb(String::from_str(text)));
            }
            let f = frac_millionths(&cs, d + 1, hi);
            assert(w * 1_000_000 + f <= 9223372036854775807u64);
            w * 1_000_000 + f
        },
        None => {
            if !all_digits_in(&cs, lo, hi) {
                return Err(SpreadError::BadProb(String::from_str(text)));
            }
            let n = match parse_digits(&cs, lo, hi) {
                None => {
                    return Err(SpreadError::BadProb(String::from_str(text)));
                },
                Some(n) => n,
            };
            if n > 9223372036854775807u64 {
                return Err(SpreadError::BadProb(String::from_str(text)));
            }
            if n <= 1 {
                n * 1_000_000
            } else {
                n
            }
        },
    };
    if val > 1_000_000 {
        return Err(SpreadError::OutOfRange(String::from_str(text)));
    }
    Ok(val as i64)
}

// ---------------------------------------------------------------------------
// Spread
// ---------------------------------------------------------------------------

/// The highest Yes price among non-empty quotes.
pub open spec fn max_yes(s: Seq<QuoteView>) -> int
    decreases s.len(),
{
    if s.len() <= 1 {
        s[0].yes as int
    } else {
        let m = max_yes(s.drop_last());
        if s.last().yes > m {
            s.last().yes as int
        } else {
            m
        }
    }
}

/// The lowest Yes price among non-empty quotes.
pub open spec fn min_yes(s: Seq<QuoteView>) -> int
    decreases s.len(),
{
    if s.len() <= 1 {
        s[0].yes as int
    } else {
        let m = min_yes(s.drop_last());
        if s.last().yes < m {
            s.last().yes as int
        } else {
            m
        }
    }
}

/// The spread of non-empty quotes: highest minus lowest Yes price.
pub open spec fn spread_of(s: Seq<QuoteView>) -> int {
    max_yes(s) - min_yes(s)
}

/// Every Yes price lies between the lowest and the highest, and both are
/// attained by some quote.
pub proof fn lemma_extremes(s: Seq<QuoteView>)
    requires
        s.len() >= 1,
    ensures
        forall|i: int| 0 <= i < s.len() ==> min_yes(s) <= #[trigger] s[i].yes <= max_yes(s),
        exists|i: int| 0 <= i < s.len() && #[trigger] s[i].yes == max_yes(s),
        exists|i: int| 0 <= i < s.len() && #[trigger] s[i].yes == min_yes(s),
    decreases s.len(),
{
    if s.len() > 1 {
        let t = s.drop_last();
        lemma_extremes(t);
        assert forall|i: int| 0 <= i < s.len() implies min_yes(s) <= #[trigger] s[i].yes
            <= max_yes(s) by {
            if i < s.len() - 1 {
                assert(s[i] == t[i]);
            }
        }
        let a = choose|i: int| 0 <= i < t.len() && #[trigger] t[i].yes == max_yes(t);
        let b = choose|i: int| 0 <= i < t.len() && #[trigger] t[i].yes == min_yes(t);
        assert(s[a] == t[a]);
        assert(s[b] == t[b]);
        let n = s.len() - 1;
        assert(s[n] == s.last());
        if s.last().yes > max_yes(t) {
            assert(s[n].yes == max_yes(s));
        } else {
            assert(s[a].yes == max_yes(s));
        }
        if s.last().yes < min_yes(t) {
            assert(s[n].yes == min_yes(s));
        } else {
            assert(s[b].yes == min_yes(s));
        }
    } else {
        assert(s[0].yes == max_yes(s));
    }
}

/// The spread fits in an `i64`.
pub open spec fn spread_fits(s: Seq<QuoteView>) -> bool {
    s.len() >= 2 ==> spread_of(s) <= i64::MAX
}

/// The spread between the highest and lowest Yes price, in millionths.
pub fn spread_millionths(quotes: &[Quote]) -> (r: Result<i64, SpreadError>)
    requires
        spread_fits(quote_views(quotes@)),
    ensures
        quotes@.len() < 2 ==> r matches Err(SpreadError::NeedTwoVenues),
        quotes@.len() >= 2 ==> r == Ok::<i64, SpreadError>(
            spread_of(quote_views(quotes@)) as i64,
        ),
{
    if quotes.len() < 2 {
        return Err(SpreadError::NeedTwoVenues);
    }
    let ghost s = quote_views(quotes@);
    let mut hi: i64 = quotes[0].yes;
    let mut lo: i64 = quotes[0].yes;
    let mut i: usize = 1;
    assert(s.take(1).len() == 1);
    while i < quotes.len()
        invariant
            1 <= i <= quotes@.len(),
            s == quote_views(quotes@),
            hi == max_yes(s.take(i as int)),
            lo == min_yes(s.take(i as int)),
        decreases quotes@.len() - i,
    {
        let y = quotes[i].yes;
        assert(s.take(i + 1).drop_last() =~= s.take(i as int));
        assert(s.take(i + 1).last() == s[i as int]);
        if y > hi {
            hi = y;
        }
        if y < lo {
            lo = y;
        }
        i = i + 1;
    }
    assert(s.take(quotes@.len() as int) =~= s);
    proof {
        lemma_extremes(s);
    }
    Ok(hi - lo)
}

// ---------------------------------------------------------------------------
// Comparing the venues of one event
// ---------------------------------------------------------------------------

/// Each venue's Yes price; where a venue repeats, its last quote counts.
pub open spec fn venue_prices(s: Seq<QuoteView>) -> Map<Seq<char>, i64>
    decreases s.len(),
{
    if s.len() == 0 {
        Map::empty()
    } else {
        venue_prices(s.drop_last()).insert(s.last().venue, s.last().yes)
    }
}

/// One line of the comparison table.
#[derive(Debug, PartialEq, Eq)]
pub struct CompareRow {
    /// `"spread"` when the spread exceeds the threshold, `"ok"` when it does
    /// not, `"quote"` for an event seen on one venue only.
    pub kind: String,
    pub event_id: String,
    pub spread_millionths: i64,
    pub threshold_millionths: i64,
    /// Each venue's Yes price, in increasing venue order.
    pub venues: KeyedTable<i64>,
}

/// A comparison row as plain text, numbers and a map.
pub struct RowView {
    pub kind: Seq<char>,
    pub event_id: Seq<char>,
    pub spread: i64,
    pub threshold: i64,
    pub venues: Map<Seq<char>, i64>,
}

impl View for CompareRow {
    type V = RowView;

    open spec fn view(&self) -> RowView {
        RowView {
            kind: self.kind@,
            event_id: self.event_id@,
            spread: self.spread_millionths,
            threshold: self.threshold_millionths,
            venues: table_map(self.venues@),
        }
    }
}

/// All quotes name the same event as the first.
pub open spec fn same_event(s: Seq<QuoteView>) -> bool {
    forall|i: int| 0 <= i < s.len() ==> #[trigger] s[i].event_id == s[0].event_id
}

/// The comparison row of quotes for one event: `"spread"` exactly when the
/// spread exceeds the threshold.
pub open spec fn compare_row_view(s: Seq<QuoteView>, threshold: i64) -> RowView {
    RowView {
        kind: if spread_of(s) > threshold {
            "spread"@
        } else {
            "ok"@
        },
        event_id: s[0].event_id,
        spread: spread_of(s) as i64,
        threshold: threshold,
        venues: venue_prices(s),
    }
}

/// Builds the map of each venue's Yes price.
fn venue_table(quotes: &[Quote]) -> (t: KeyedTable<i64>)
    ensures
        table_map(t@) == venue_prices(quote_views(quotes@)),
{
    let ghost s = quote_views(quotes@);
    let mut t: KeyedTable<i64> = KeyedTable::new();
    let mut i: usize = 0;
    assert(s.take(0) =~= Seq::<QuoteView>::empty());
    assert(table_map(t@) =~= Map::<Seq<char>, i64>::empty());
    while i < quotes.len()
        invariant
            i <= quotes@.len(),
            s == quote_views(quotes@),
            table_map(t@) == venue_prices(s.take(i as int)),
        decreases quotes@.len() - i,
    {
        assert(s.take(i + 1).drop_last() =~= s.take(i as int));
        assert(s.take(i + 1).last() == s[i as int]);
        t.insert(quotes[i].venue.clone(), quotes[i].yes);
        i = i + 1;
    }
    assert(s.take(quotes@.len() as int) =~= s);
    t
}

/// Compares the venues' Yes prices for one event: the spread is the highest
/// minus the lowest price, and the row's kind is `"spread"` when it exceeds
/// `threshold`, `"ok"` otherwise.
pub fn compare_event(quotes: &[Quote], threshold: i64) -> (r: Result<CompareRow, SpreadError>)
    requires
        same_event(quote_views(quotes@)) ==> spread_fits(quote_views(quotes@)),
    ensures
        quotes@.len() == 0 ==> r matches Err(SpreadError::NeedTwoVenues),
        quotes@.len() > 0 && !same_event(quote_views(quotes@)) ==> r matches Err(
            SpreadError::MixedEvents,
        ),
        quotes@.len() == 1 ==> r matches Err(SpreadError::NeedTwoVenues),
        quotes@.len() >= 2 && same_event(quote_views(quotes@)) ==> (r matches Ok(row) && row@
            == compare_row_view(quote_views(quotes@), threshold)),
{
    let ghost s = quote_views(quotes@);
    if quotes.len() == 0 {
        return Err(SpreadError::NeedTwoVenues);
    }
    let event_id = &quotes[0].event_id;
    let mut i: usize = 0;
    while i < quotes.len()
        invariant
            i <= quotes@.len(),
            s == quote_views(quotes@),
            s.len() > 0,
            event_id@ == s[0].event_id,
            forall|j: int| 0 <= j < i ==> #[trigger] s[j].event_id == s[0].event_id,
        decreases quotes@.len() - i,
    {
        if !(quotes[i].event_id == *event_id) {
            assert(s[i as int].event_id != s[0].event_id);
            return Err(SpreadError::MixedEvents);
        }
        i = i + 1;
    }
    let spr = match spread_millionths(quotes) {
        Ok(v) => v,
        Err(e) => {
            return Err(e);
        },
    };
    let venues = venue_table(quotes);
    let kind = if spr > threshold {
        String::from_str("spread")
    } else {
        String::from_str("ok")
    };
    let row = CompareRow {
        kind,
        event_id: event_id.clone(),
        spread_millionths: spr,
        threshold_millionths: threshold,
        venues,
    };
    assert(row@ =~= compare_row_view(s, threshold));
    Ok(row)
}

} // verus!
