//! Groups quotes by event and compares each event's venues, event by event in
//! increasing event order.
use vstd::prelude::*;

use crate::spread::{
    compare_event, compare_row_view, quote_views, same_event, spread_fits,
    lemma_extremes, CompareRow, Quote, QuoteView, RowView, PROB_SCALE,
};
use crate::table::{keys_sorted, lemma_table_map_entry, table_map, KeyedTable};
use crate::text::text_lt;

verus! {

/// The quotes of `s` for event `k`, in their order in `s`.
pub open spec fn event_quotes(s: Seq<QuoteView>, k: Seq<char>) -> Seq<QuoteView>
    decreases s.len(),
{
    if s.len() == 0 {
        Seq::empty()
    } else {
        let r = event_quotes(s.drop_last(), k);
        if s.last().event_id == k {
            r.push(s.last())
        } else {
            r
        }
    }
}

/// Some quote of `s` is for event `k`.
pub open spec fn has_event(s: Seq<QuoteView>, k: Seq<char>) -> bool {
    exists|i: int| 0 <= i < s.len() && #[trigger] s[i].event_id == k
}

/// Every Yes price is a probability in millionths.
pub open spec fn prices_in_range(s: Seq<QuoteView>) -> bool {
    forall|i: int| 0 <= i < s.len() ==> 0 <= #[trigger] s[i].yes <= PROB_SCALE
}

/// An event's quotes all name it, keep the prices' range, and are there
/// exactly when the event occurs.
pub proof fn lemma_event_quotes(s: Seq<QuoteView>, k: Seq<char>)
    ensures
        forall|i: int|
            0 <= i < event_quotes(s, k).len() ==> #[trigger] event_quotes(s, k)[i].event_id == k,
        prices_in_range(s) ==> prices_in_range(event_quotes(s, k)),
        has_event(s, k) <==> event_quotes(s, k).len() > 0,
        event_quotes(s, k).len() <= s.len(),
    decreases s.len(),
{
    if s.len() > 0 {
        let t = s.drop_last();
        lemma_event_quotes(t, k);
        let r = event_quotes(t, k);
        if prices_in_range(s) {
            assert forall|i: int| 0 <= i < t.len() implies 0 <= #[trigger] t[i].yes
                <= PROB_SCALE by {
                assert(t[i] == s[i]);
            }
            assert(s[s.len() - 1] == s.last());
        }
        if has_event(s, k) {
            let i = choose|i: int| 0 <= i < s.len() && #[trigger] s[i].event_id == k;
            if i < s.len() - 1 {
                assert(t[i] == s[i]);
            } else {
                assert(s[i] == s.last());
            }
        }
        if has_event(t, k) {
            let i = choose|i: int| 0 <= i < t.len() && #[trigger] t[i].event_id == k;
            assert(s[i] == t[i]);
        }
        if s.last().event_id == k {
            assert(s[s.len() - 1] == s.last());
        }
    }
}

/// The row of a venue seen alone for an event: its price, no spread.
pub open spec fn single_row_view(q: QuoteView, threshold: i64) -> RowView {
    RowView {
        kind: "quote"@,
        event_id: q.event_id,
        spread: 0,
        threshold: threshold,
        venues: Map::empty().insert(q.venue, q.yes),
    }
}

/// Whether an event with these quotes gets a row.
pub open spec fn shown(g: Seq<QuoteView>, single_rows: bool) -> bool {
    g.len() >= 2 || (single_rows && g.len() == 1)
}

/// The row of an event with these quotes.
pub open spec fn event_row_view(g: Seq<QuoteView>, threshold: i64) -> RowView {
    if g.len() == 1 {
        single_row_view(g[0], threshold)
    } else {
        compare_row_view(g, threshold)
    }
}

/// The rows of events: one per shown event, each event's own row, in
/// strictly increasing event order, and no shown event left out.
pub open spec fn board_rows(
    rows: Seq<RowView>,
    s: Seq<QuoteView>,
    threshold: i64,
    single_rows: bool,
) -> bool {
    &&& forall|i: int, j: int|
        0 <= i < j < rows.len() ==> text_lt(
            #[trigger] rows[i].event_id,
            #[trigger] rows[j].event_id,
        )
    &&& forall|i: int|
        0 <= i < rows.len() ==> shown(event_quotes(s, #[trigger] rows[i].event_id), single_rows)
            && rows[i] == event_row_view(event_quotes(s, rows[i].event_id), threshold)
    &&& forall|k: Seq<char>|
        #[trigger] shown(event_quotes(s, k), single_rows) ==> exists|i: int|
            0 <= i < rows.len() && #[trigger] rows[i].event_id == k
}

/// The views of a sequence of rows.
pub open spec fn row_views(rows: Seq<CompareRow>) -> Seq<RowView> {
    rows.map_values(|r: CompareRow| r@)
}

fn copy_quote(q: &Quote) -> (c: Quote)
    ensures
        c@ == q@,
{
    Quote {
        event_id: q.event_id.clone(),
        venue: q.venue.clone(),
        market_id: q.market_id.clone(),
        yes: q.yes,
    }
}

/// Sorts quotes into one group per event, each keeping the quotes' order.
pub fn group_by_event(quotes: &[Quote]) -> (t: KeyedTable<Vec<Quote>>)
    ensures
        keys_sorted(t@),
        forall|k: Seq<char>| #[trigger] table_map(t@).dom().contains(k) <==> has_event(
            quote_views(quotes@),
            k,
        ),
        forall|k: Seq<char>| #[trigger]
            table_map(t@).dom().contains(k) ==> quote_views(table_map(t@)[k]@) == event_quotes(
                quote_views(quotes@),
                k,
            ),
{
    let ghost s = quote_views(quotes@);
    let mut t: KeyedTable<Vec<Quote>> = KeyedTable::new();
    let mut i: usize = 0;
    assert(s.take(0) =~= Seq::<QuoteView>::empty());
    while i < quotes.len()
        invariant
            i <= quotes@.len(),
            s == quote_views(quotes@),
            forall|k: Seq<char>| #[trigger] table_map(t@).dom().contains(k) <==> has_event(
                s.take(i as int),
                k,
            ),
            forall|k: Seq<char>| #[trigger]
                table_map(t@).dom().contains(k) ==> quote_views(table_map(t@)[k]@)
                    == event_quotes(s.take(i as int), k),
        decreases quotes@.len() - i,
    {
        let ghost old_map = table_map(t@);
        let ghost p = s.take(i as int);
        let ghost n = s.take(i + 1);
        assert(n.drop_last() =~= p);
        assert(n.last() == s[i as int]);
        let q = copy_quote(&quotes[i]);
        let ghost key = q.event_id@;
        let taken = t.remove(q.event_id.as_str());
        let mut g: Vec<Quote> = match taken {
            Some(g) => g,
            None => Vec::new(),
        };
        proof {
            if !old_map.dom().contains(key) {
                assert(!has_event(p, key));
                lemma_event_quotes(p, key);
                assert(quote_views(g@) =~= event_quotes(p, key));
            }
        }
        let ghost before = g@;
        g.push(q);
        assert(quote_views(g@) =~= quote_views(before).push(q@));
        let k2 = quotes[i].event_id.clone();
        t.insert(k2, g);
        proof {
            assert forall|k: Seq<char>| #[trigger] has_event(n, k) implies table_map(
                t@,
            ).dom().contains(k) by {
                if k != key {
                    let j = choose|j: int| 0 <= j < n.len() && #[trigger] n[j].event_id == k;
                    assert(j < i);
                    assert(p[j] == n[j]);
                    assert(has_event(p, k));
                }
            }
            assert forall|k: Seq<char>| #[trigger]
                table_map(t@).dom().contains(k) implies has_event(n, k) by {
                if k == key {
                    assert(n[i as int].event_id == k);
                } else {
                    assert(has_event(p, k));
                    let j = choose|j: int| 0 <= j < p.len() && #[trigger] p[j].event_id == k;
                    assert(n[j] == p[j]);
                }
            }
        }
        i = i + 1;
    }
    assert(s.take(quotes@.len() as int) =~= s);
    let _ = t.len();
    t
}

fn single_row(q: &Quote, threshold: i64) -> (r: CompareRow)
    ensures
        r@ == single_row_view(q@, threshold),
{
    let mut venues: KeyedTable<i64> = KeyedTable::new();
    venues.insert(q.venue.clone(), q.yes);
    assert(table_map(Seq::<(Seq<char>, i64)>::empty()) =~= Map::<Seq<char>, i64>::empty());
    let r = CompareRow {
        kind: String::from_str("quote"),
        event_id: q.event_id.clone(),
        spread_millionths: 0,
        threshold_millionths: threshold,
        venues,
    };
    assert(r@ =~= single_row_view(q@, threshold));
    r
}

/// One row per event of `quotes`, in increasing event order: an event seen on
/// two or more venues gets its comparison row; one seen on a single venue gets
/// a `"quote"` row when `single_rows` is set and no row otherwise.
pub fn event_rows(quotes: &[Quote], threshold: i64, single_rows: bool) -> (rows: Vec<
    CompareRow,
>)
    requires
        prices_in_range(quote_views(quotes@)),
    ensures
        board_rows(row_views(rows@), quote_views(quotes@), threshold, single_rows),
{
    let ghost s = quote_views(quotes@);
    let groups = group_by_event(quotes);
    let n = groups.len();
    let ghost e = groups@;
    let mut rows: Vec<CompareRow> = Vec::new();
    let mut i: usize = 0;
    while i < n
        invariant
            i <= n == e.len(),
            e == groups@,
            keys_sorted(e),
            s == quote_views(quotes@),
            prices_in_range(s),
            forall|k: Seq<char>| #[trigger] table_map(e).dom().contains(k) <==> has_event(s, k),
            forall|k: Seq<char>| #[trigger]
                table_map(e).dom().contains(k) ==> quote_views(table_map(e)[k]@)
                    == event_quotes(s, k),
            forall|r: int|
                0 <= r < rows@.len() ==> exists|j: int|
                    0 <= j < i && #[trigger] e[j].0 == (#[trigger] rows@[r])@.event_id,
            forall|a: int, b: int|
                0 <= a < b < rows@.len() ==> text_lt(
                    (#[trigger] rows@[a])@.event_id,
                    (#[trigger] rows@[b])@.event_id,
                ),
            forall|r: int|
                0 <= r < rows@.len() ==> shown(
                    event_quotes(s, (#[trigger] rows@[r])@.event_id),
                    single_rows,
                ) && rows@[r]@ == event_row_view(event_quotes(s, rows@[r]@.event_id), threshold),
            forall|j: int|
                0 <= j < i && #[trigger] shown(event_quotes(s, e[j].0), single_rows)
                    ==> exists|r: int|
                    0 <= r < rows@.len() && #[trigger] rows@[r]@.event_id == e[j].0,
        decreases n - i,
    {
        let group = groups.value_at(i);
        let ghost k = e[i as int].0;
        let ghost g = event_quotes(s, k);
        proof {
            lemma_table_map_entry(e, i as int);
            lemma_event_quotes(s, k);
        }
        assert(quote_views(group@) == g);
        let ghost before = rows@;
        if group.len() >= 2 {
            proof {
                assert(same_event(g));
                lemma_extremes(g);
                assert(spread_fits(g));
            }
            match compare_event(group.as_slice(), threshold) {
                Ok(row) => {
                    rows.push(row);
                },
                Err(_) => {
                    proof {
                        assert(false);
                    }
                },
            }
        } else if single_rows && group.len() == 1 {
            let row = single_row(&group[0], threshold);
            assert(group@[0]@ == g[0]);
            rows.push(row);
        }
        proof {
            assert forall|r: int| 0 <= r < rows@.len() implies exists|j: int|
                0 <= j < i + 1 && #[trigger] e[j].0 == (#[trigger] rows@[r])@.event_id by {
                if r < before.len() {
                    assert(rows@[r] == before[r]);
                    let j = choose|j: int| 0 <= j < i && #[trigger] e[j].0 == before[r]@.event_id;
                    assert(e[j].0 == rows@[r]@.event_id);
                } else {
                    assert(e[i as int].0 == rows@[r]@.event_id);
                }
            }
            assert forall|a: int, b: int| 0 <= a < b < rows@.len() implies text_lt(
                (#[trigger] rows@[a])@.event_id,
                (#[trigger] rows@[b])@.event_id,
            ) by {
                if b < before.len() {
                    assert(rows@[a] == before[a]);
                    assert(rows@[b] == before[b]);
                } else {
                    assert(rows@[a] == before[a]);
                    let j = choose|j: int| 0 <= j < i && #[trigger] e[j].0 == before[a]@.event_id;
                    assert(text_lt(e[j].0, e[i as int].0));
                }
            }
            assert forall|r: int| 0 <= r < rows@.len() implies shown(
                event_quotes(s, (#[trigger] rows@[r])@.event_id),
                single_rows,
            ) && rows@[r]@ == event_row_view(event_quotes(s, rows@[r]@.event_id), threshold) by {
                if r < before.len() {
                    assert(rows@[r] == before[r]);
                }
            }
            assert forall|j: int|
                0 <= j < i + 1 && #[trigger] shown(event_quotes(s, e[j].0), single_rows)
                    implies exists|r: int|
                    0 <= r < rows@.len() && #[trigger] rows@[r]@.event_id == e[j].0 by {
                if j < i {
                    let r = choose|r: int|
                        0 <= r < before.len() && #[trigger] before[r]@.event_id == e[j].0;
                    assert(rows@[r] == before[r]);
                } else {
                    assert(rows@[rows@.len() - 1]@.event_id == e[j].0);
                }
            }
        }
        i = i + 1;
    }
    proof {
        let rv = row_views(rows@);
        assert forall|a: int, b: int| 0 <= a < b < rv.len() implies text_lt(
            #[trigger] rv[a].event_id,
            #[trigger] rv[b].event_id,
        ) by {
            assert(rv[a] == rows@[a]@);
            assert(rv[b] == rows@[b]@);
        }
        assert forall|r: int| 0 <= r < rv.len() implies shown(
            event_quotes(s, #[trigger] rv[r].event_id),
            single_rows,
        ) && rv[r] == event_row_view(event_quotes(s, rv[r].event_id), threshold) by {
            assert(rv[r] == rows@[r]@);
        }
        assert forall|k: Seq<char>| #[trigger] shown(event_quotes(s, k), single_rows) implies exists|
            r: int,
        | 0 <= r < rv.len() && #[trigger] rv[r].event_id == k by {
            lemma_event_quotes(s, k);
            assert(table_map(e).dom().contains(k));
            let j = crate::table::key_pos(e, k);
            assert(0 <= j < e.len() && e[j].0 == k);
            let r = choose|r: int| 0 <= r < rows@.len() && #[trigger] rows@[r]@.event_id == e[j].0;
            assert(rv[r] == rows@[r]@);
        }
    }
    rows
}

} // verus!
