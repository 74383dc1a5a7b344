//! Compares recorded quotes, joined to events through the hand-kept market map.
use vstd::prelude::*;

use crate::board::{board_rows, event_rows, prices_in_range, row_views};
use crate::live::{MapRow, MapRowView};
use crate::spread::{
    parse_prob, prob_overflows, quote_views, read_prob, CompareRow, ProbReading, Quote,
    QuoteView, SpreadError,
};
use crate::text::same_text;

verus! {

/// One recorded quote: a venue's market and its Yes price as text.
pub struct QuoteRow {
    pub venue: String,
    pub market_id: String,
    pub yes: String,
}

/// A recorded quote as plain text.
pub struct QuoteRowView {
    pub venue: Seq<char>,
    pub market_id: Seq<char>,
    pub yes: Seq<char>,
}

impl View for QuoteRow {
    type V = QuoteRowView;

    open spec fn view(&self) -> QuoteRowView {
        QuoteRowView { venue: self.venue@, market_id: self.market_id@, yes: self.yes@ }
    }
}

/// The views of a sequence of recorded quotes.
pub open spec fn quote_row_views(s: Seq<QuoteRow>) -> Seq<QuoteRowView> {
    s.map_values(|q: QuoteRow| q@)
}

/// The views of a sequence of market-map rows.
pub open spec fn map_row_views(s: Seq<MapRow>) -> Seq<MapRowView> {
    s.map_values(|r: MapRow| r@)
}

/// The event that the map gives a venue's market; where the map lists the
/// market more than once, its last row counts.
pub open spec fn lookup_event(m: Seq<MapRowView>, venue: Seq<char>, market_id: Seq<char>) -> Option<
    Seq<char>,
>
    decreases m.len(),
{
    if m.len() == 0 {
        None
    } else if m.last().venue == venue && m.last().market_id == market_id {
        Some(m.last().event_id)
    } else {
        lookup_event(m.drop_last(), venue, market_id)
    }
}

/// A price text that did not read as a probability.
pub struct ProbFailure {
    pub text: Seq<char>,
    pub reading: ProbReading,
}

/// `e` is the error that reading `f.text` gives.
pub open spec fn prob_error_for(e: SpreadError, f: ProbFailure) -> bool {
    match f.reading {
        ProbReading::Malformed => e matches SpreadError::BadProb(s) && s@ == f.text,
        ProbReading::OutOfRange => e matches SpreadError::OutOfRange(s) && s@ == f.text,
        _ => false,
    }
}

/// The quotes that the recorded rows give, in their order: rows of markets
/// that the map does not list are passed over; the first mapped row whose
/// price does not read as a probability stops everything.
pub open spec fn mapped_quotes(m: Seq<MapRowView>, q: Seq<QuoteRowView>) -> Result<
    Seq<QuoteView>,
    ProbFailure,
>
    decreases q.len(),
{
    if q.len() == 0 {
        Ok(Seq::empty())
    } else {
        match mapped_quotes(m, q.drop_last()) {
            Err(f) => Err(f),
            Ok(qs) => match lookup_event(m, q.last().venue, q.last().market_id) {
                None => Ok(qs),
                Some(ev) => match read_prob(q.last().yes) {
                    ProbReading::Millionths(v) => Ok(
                        qs.push(
                            QuoteView {
                                event_id: ev,
                                venue: q.last().venue,
                                market_id: q.last().market_id,
                                yes: v as i64,
                            },
                        ),
                    ),
                    r => Err(ProbFailure { text: q.last().yes, reading: r }),
                },
            },
        }
    }
}

/// No mapped price that gets read runs past the range of `i64`.
pub open spec fn mapped_overflow_free(m: Seq<MapRowView>, q: Seq<QuoteRowView>) -> bool
    decreases q.len(),
{
    if q.len() == 0 {
        true
    } else {
        &&& mapped_overflow_free(m, q.drop_last())
        &&& (mapped_quotes(m, q.drop_last()) is Ok && lookup_event(
            m,
            q.last().venue,
            q.last().market_id,
        ) is Some) ==> !(read_prob(q.last().yes) is Overflow)
    }
}

proof fn lemma_overflow_free_prefix(m: Seq<MapRowView>, q: Seq<QuoteRowView>, i: int)
    requires
        mapped_overflow_free(m, q),
        0 <= i <= q.len(),
    ensures
        mapped_overflow_free(m, q.take(i)),
    decreases q.len() - i,
{
    if i == q.len() {
        assert(q.take(i) =~= q);
    } else {
        lemma_overflow_free_prefix(m, q, i + 1);
        assert(q.take(i + 1).drop_last() =~= q.take(i));
    }
}

/// Mapped quotes carry probabilities.
pub proof fn lemma_mapped_prices(m: Seq<MapRowView>, q: Seq<QuoteRowView>)
    ensures
        mapped_quotes(m, q) matches Ok(qs) ==> prices_in_range(qs),
    decreases q.len(),
{
    if q.len() > 0 {
        lemma_mapped_prices(m, q.drop_last());
        if let Ok(qs) = mapped_quotes(m, q) {
            let p = mapped_quotes(m, q.drop_last())->Ok_0;
            crate::spread::lemma_read_prob_range(q.last().yes);
            assert forall|i: int| 0 <= i < qs.len() implies 0 <= #[trigger] qs[i].yes
                <= crate::spread::PROB_SCALE by {
                if i < p.len() {
                    assert(qs[i] == p[i]);
                }
            }
        }
    }
}

/// The event that the map gives a venue's market.
pub fn event_for(map: &[MapRow], venue: &str, market_id: &str) -> (r: Option<String>)
    ensures
        match lookup_event(map_row_views(map@), venue@, market_id@) {
            Some(e) => r matches Some(s) && s@ == e,
            None => r is None,
        },
{
    let ghost m = map_row_views(map@);
    let mut j: usize = map.len();
    assert(m.take(m.len() as int) =~= m);
    while j > 0
        invariant
            j <= map@.len(),
            m == map_row_views(map@),
            lookup_event(m, venue@, market_id@) == lookup_event(m.take(j as int), venue@, market_id@),
        decreases j,
    {
        let row = &map[j - 1];
        assert(m.take(j as int).last() == row@);
        assert(m.take(j as int).drop_last() =~= m.take(j - 1));
        if same_text(row.venue.as_str(), venue) && same_text(row.market_id.as_str(), market_id) {
            return Some(row.event_id.clone());
        }
        j = j - 1;
    }
    None
}

/// Whether reading the mapped prices, in order, runs past the range of `i64`
/// before any of them fails to read.
pub fn mapped_overflow(map: &[MapRow], quotes: &[QuoteRow]) -> (b: bool)
    ensures
        b == !mapped_overflow_free(map_row_views(map@), quote_row_views(quotes@)),
{
    let ghost m = map_row_views(map@);
    let ghost q = quote_row_views(quotes@);
    let mut i: usize = 0;
    assert(q.take(0) =~= Seq::<QuoteRowView>::empty());
    while i < quotes.len()
        invariant
            i <= quotes@.len(),
            m == map_row_views(map@),
            q == quote_row_views(quotes@),
            mapped_overflow_free(m, q.take(i as int)),
            mapped_quotes(m, q.take(i as int)) is Ok,
        decreases quotes@.len() - i,
    {
        let ghost n = q.take(i + 1);
        assert(n.drop_last() =~= q.take(i as int));
        assert(n.last() == quotes@[i as int]@);
        let row = &quotes[i];
        match event_for(map, row.venue.as_str(), row.market_id.as_str()) {
            None => {},
            Some(_) => {
                if prob_overflows(row.yes.as_str()) {
                    proof {
                        lemma_not_free_extends(m, q, i as int);
                    }
                    return true;
                }
                match parse_prob(row.yes.as_str()) {
                    Ok(_) => {},
                    Err(_) => {
                        proof {
                            lemma_free_after_failure(m, q, i as int);
                        }
                        return false;
                    },
                }
            },
        }
        i = i + 1;
    }
    assert(q.take(quotes@.len() as int) =~= q);
    false
}

proof fn lemma_not_free_extends(m: Seq<MapRowView>, q: Seq<QuoteRowView>, i: int)
    requires
        0 <= i < q.len(),
        !mapped_overflow_free(m, q.take(i + 1)),
    ensures
        !mapped_overflow_free(m, q),
{
    if mapped_overflow_free(m, q) {
        lemma_overflow_free_prefix(m, q, i + 1);
    }
}

proof fn lemma_failure_persists(m: Seq<MapRowView>, q: Seq<QuoteRowView>, i: int)
    requires
        0 <= i <= q.len(),
        mapped_quotes(m, q.take(i)) is Err,
    ensures
        mapped_quotes(m, q) is Err,
        mapped_quotes(m, q) == mapped_quotes(m, q.take(i)),
        mapped_overflow_free(m, q.take(i)) ==> mapped_overflow_free(m, q),
    decreases q.len() - i,
{
    if i == q.len() {
        assert(q.take(i) =~= q);
    } else {
        assert(q.take(i + 1).drop_last() =~= q.take(i));
        lemma_failure_persists(m, q, i + 1);
    }
}

proof fn lemma_free_after_failure(m: Seq<MapRowView>, q: Seq<QuoteRowView>, i: int)
    requires
        0 <= i < q.len(),
        mapped_overflow_free(m, q.take(i + 1)),
        mapped_quotes(m, q.take(i + 1)) is Err,
    ensures
        mapped_overflow_free(m, q),
{
    lemma_failure_persists(m, q, i + 1);
}

/// Joins recorded quotes to events through the market map. Each event gets
/// one row, in increasing event order: its comparison when two or more venues
/// quoted it, a `"quote"` row when one did, so that a quiet run still shows
/// what it read. The first mapped price that does not read as a probability is
/// the error.
pub fn compare_mapped(map: &[MapRow], quotes: &[QuoteRow], threshold: i64) -> (r: Result<
    Vec<CompareRow>,
    SpreadError,
>)
    requires
        mapped_overflow_free(map_row_views(map@), quote_row_views(quotes@)),
    ensures
        match mapped_quotes(map_row_views(map@), quote_row_views(quotes@)) {
            Ok(qs) => r matches Ok(rows) && board_rows(row_views(rows@), qs, threshold, true),
            Err(f) => r matches Err(e) && prob_error_for(e, f),
        },
{
    let ghost m = map_row_views(map@);
    let ghost q = quote_row_views(quotes@);
    let mut found: Vec<Quote> = Vec::new();
    let mut i: usize = 0;
    assert(q.take(0) =~= Seq::<QuoteRowView>::empty());
    assert(quote_views(found@) =~= Seq::<QuoteView>::empty());
    while i < quotes.len()
        invariant
            i <= quotes@.len(),
            m == map_row_views(map@),
            q == quote_row_views(quotes@),
            mapped_overflow_free(m, q),
            mapped_quotes(m, q.take(i as int)) == Ok::<Seq<QuoteView>, ProbFailure>(
                quote_views(found@),
            ),
        decreases quotes@.len() - i,
    {
        let ghost n = q.take(i + 1);
        assert(n.drop_last() =~= q.take(i as int));
        assert(n.last() == quotes@[i as int]@);
        proof {
            lemma_overflow_free_prefix(m, q, i + 1);
        }
        let row = &quotes[i];
        match event_for(map, row.venue.as_str(), row.market_id.as_str()) {
            None => {},
            Some(event_id) => {
                match parse_prob(row.yes.as_str()) {
                    Ok(yes) => {
                        let ghost before = found@;
                        found.push(
                            Quote {
                                event_id,
                                venue: row.venue.clone(),
                                market_id: row.market_id.clone(),
                                yes,
                            },
                        );
                        assert(quote_views(found@) =~= quote_views(before).push(
                            found@[found@.len() - 1]@,
                        ));
                    },
                    Err(e) => {
                        proof {
                            lemma_failure_persists(m, q, i + 1);
                        }
                        return Err(e);
                    },
                }
            },
        }
        i = i + 1;
    }
    assert(q.take(quotes@.len() as int) =~= q);
    proof {
        lemma_mapped_prices(m, q);
    }
    Ok(event_rows(found.as_slice(), threshold, true))
}

} // verus!
