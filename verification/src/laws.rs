//! Properties that tie the library's functions together.
use vstd::prelude::*;

use vstd::arithmetic::power::pow;

use crate::live::{
    cents_as_dollars, normalized_price, quot_toward_zero, rem_toward_zero, two_wide, MapRowView,
};
use crate::board::event_quotes;
use crate::config::{configured_threshold, lower_text, names_credential, has_infix, ConfigTree};
use crate::live::{kalshi_price, polymarket_url_text, JsonScalar, KalshiFields};
use crate::map::{lookup_event, mapped_overflow_free, mapped_quotes, QuoteRowView};
use crate::spread::{
    compare_row_view, lemma_extremes, DEFAULT_THRESHOLD_MILLIONTHS, max_yes, min_yes, pad6, read_prob, spread_of, venue_prices,
    ProbReading, QuoteView,
};
use crate::text::{
    all_digits, digit_char, digit_value, digits_value, first_dot, idec, is_digit, is_ws, read_i64,
    trim, trim_end, trim_start, udec,
};

verus! {

proof fn lemma_digit_char(d: nat)
    requires
        d < 10,
    ensures
        is_digit(digit_char(d)),
        digit_value(digit_char(d)) == d,
        !is_ws(digit_char(d)),
        digit_char(d) != '.',
        digit_char(d) != '-',
        digit_char(d) != '+',
{
}

/// The decimal rendering of a natural number is a non-empty digit string
/// whose value is the number.
pub proof fn lemma_udec(n: nat)
    ensures
        udec(n).len() >= 1,
        all_digits(udec(n)),
        digits_value(udec(n)) == n,
    decreases n,
{
    if n < 10 {
        lemma_digit_char(n);
        assert(udec(n).drop_last() =~= Seq::<char>::empty());
        assert(digits_value(Seq::<char>::empty()) == 0);
        assert(udec(n).last() == digit_char(n));
    } else {
        lemma_udec(n / 10);
        lemma_digit_char(n % 10);
        let s = udec(n);
        assert(s.drop_last() =~= udec(n / 10));
        assert(s.last() == digit_char(n % 10));
        assert(digits_value(s) == digits_value(udec(n / 10)) * 10 + digit_value(s.last()));
        assert((n / 10) * 10 + n % 10 == n);
        assert forall|i: int| 0 <= i < s.len() implies #[trigger] is_digit(s[i]) by {
            if i < s.len() - 1 {
                assert(s[i] == udec(n / 10)[i]);
            }
        }
    }
}

proof fn lemma_no_dot_in_digits(s: Seq<char>)
    requires
        all_digits(s),
    ensures
        !s.contains('.'),
        first_dot(s) == -1,
        forall|i: int| 0 <= i < s.len() ==> !is_ws(#[trigger] s[i]),
    decreases s.len(),
{
    if s.len() > 0 {
        assert(is_digit(s[0]));
        let t = s.drop_first();
        assert forall|i: int| 0 <= i < t.len() implies #[trigger] is_digit(t[i]) by {
            assert(t[i] == s[i + 1]);
        }
        lemma_no_dot_in_digits(t);
        assert forall|i: int| 0 <= i < s.len() implies !is_ws(#[trigger] s[i]) by {
            assert(is_digit(s[i]));
        }
        if s.contains('.') {
            let i = choose|i: int| 0 <= i < s.len() && s[i] == '.';
            assert(is_digit(s[i]));
        }
    }
}

/// Text that starts and ends with a non-blank character is its own trim.
proof fn lemma_trim_unchanged(s: Seq<char>)
    requires
        s.len() > 0,
        !is_ws(s[0]),
        !is_ws(s.last()),
    ensures
        trim(s) == s,
{
}

proof fn lemma_digits_append(a: Seq<char>, b: Seq<char>)
    ensures
        digits_value(a + b) == digits_value(a) * pow(10, b.len())
            + digits_value(b),
    decreases b.len(),
{
    if b.len() == 0 {
        assert(a + b =~= a);
        assert(pow(10, 0) == 1) by {
            vstd::arithmetic::power::lemma_pow0(10);
        }
    } else {
        let c = b.drop_last();
        lemma_digits_append(a, c);
        assert((a + b).drop_last() =~= a + c);
        assert((a + b).last() == b.last());
        vstd::arithmetic::power::lemma_pow_adds(10, c.len(), 1);
        vstd::arithmetic::power::lemma_pow1(10);
        let p = pow(10, c.len());
        assert(digits_value(a + b) == (digits_value(a) * p + digits_value(c)) * 10 + digit_value(
            b.last(),
        ));
        assert(pow(10, b.len()) == p * 10);
        assert((digits_value(a) * p + digits_value(c)) * 10 == digits_value(a) * (p * 10)
            + digits_value(c) * 10) by (nonlinear_arith);
    }
}

proof fn lemma_two_wide(r: int)
    requires
        0 <= r < 100,
    ensures
        two_wide(r).len() == 2,
        all_digits(two_wide(r)),
        digits_value(two_wide(r)) == r,
{
    reveal_strlit("0");
    let t = two_wide(r);
    if r < 10 {
        lemma_udec(r as nat);
        lemma_digit_char(r as nat);
        assert(udec(r as nat) == seq![digit_char(r as nat)]);
        assert(t =~= seq!['0', digit_char(r as nat)]);
        assert(t.drop_last() =~= seq!['0']);
        assert(t.drop_last().drop_last() =~= Seq::<char>::empty());
        assert(digits_value(Seq::<char>::empty()) == 0);
        assert(digits_value(seq!['0']) == 0);
        assert(digits_value(t) == digit_value(digit_char(r as nat)));
    } else {
        lemma_udec(r as nat);
        assert(udec(r as nat) == udec((r / 10) as nat).push(digit_char((r % 10) as nat)));
        assert(udec((r / 10) as nat) == seq![digit_char((r / 10) as nat)]);
    }
}

/// What a reading of `v` millionths is: a probability when it is at most one
/// whole, out of range above that, an overflow past the range of `i64`.
pub open spec fn classify_millionths(v: int) -> ProbReading {
    if v > i64::MAX {
        ProbReading::Overflow
    } else if v > 1_000_000 {
        ProbReading::OutOfRange
    } else {
        ProbReading::Millionths(v)
    }
}

/// Kalshi cents and decimal prices land on the same scale: a whole number
/// of cents `c` in `last_price`, once normalized, reads as `c * 10_000`
/// millionths (so 0..=100 cents is a probability, more is out of range).
pub proof fn law_kalshi_cents_read_as_millionths(c: i64)
    requires
        0 <= c,
    ensures
        read_prob(normalized_price("last_price"@, idec(c as int))) == classify_millionths(
            c * 10_000,
        ),
{
    reveal_strlit(".");
    let ci = c as int;
    let s = idec(ci);
    lemma_udec(c as nat);
    lemma_no_dot_in_digits(s);
    let d0 = udec(c as nat)[0];
    assert(is_digit(d0));
    assert(read_i64(s) == Some(ci));
    let q = ci / 100;
    let r = ci % 100;
    assert(quot_toward_zero(ci, 100) == q);
    assert(rem_toward_zero(ci, 100) == r);
    let whole = udec(q as nat);
    let frac = two_wide(r);
    lemma_udec(q as nat);
    lemma_two_wide(r);
    let t = cents_as_dollars(ci);
    assert(normalized_price("last_price"@, s) == t);
    assert(t == whole + "."@ + frac);
    assert("."@ == seq!['.']);
    let k = whole.len() as int;
    assert(t[k] == '.');
    lemma_no_dot_in_digits(whole);
    lemma_no_dot_in_digits(frac);
    assert(t[0] == whole[0]);
    assert(t.last() == frac[1]);
    lemma_trim_unchanged(t);
    assert forall|j: int| 0 <= j < k implies #[trigger] t[j] != '.' by {
        assert(t[j] == whole[j]);
    }
    crate::text::lemma_first_dot_at(t, k);
    assert(t.take(k) =~= whole);
    assert(t.skip(k + 1) =~= frac);
    let p = pad6(frac);
    assert(p =~= frac + seq!['0', '0', '0', '0']);
    let z = seq!['0', '0', '0', '0'];
    assert(digits_value(z) == 0) by {
        reveal_with_fuel(digits_value, 5);
        assert(z.drop_last() =~= seq!['0', '0', '0']);
        assert(z.drop_last().drop_last() =~= seq!['0', '0']);
        assert(z.drop_last().drop_last().drop_last() =~= seq!['0']);
        assert(z.drop_last().drop_last().drop_last().drop_last() =~= Seq::<char>::empty());
    }
    lemma_digits_append(frac, z);
    assert(pow(10, 4) == 10000) by {
        reveal_with_fuel(vstd::arithmetic::power::pow, 5);
    }
    assert(digits_value(p) == r * 10000);
    assert(q * 1_000_000 + r * 10000 == ci * 10_000);
}

/// The spread is the widest gap between two venues' Yes prices: no two
/// quotes differ by more, and some two differ by exactly that much.
pub proof fn law_spread_is_widest_gap(s: Seq<QuoteView>)
    requires
        s.len() >= 1,
    ensures
        spread_of(s) >= 0,
        forall|i: int, j: int|
            0 <= i < s.len() && 0 <= j < s.len() ==> #[trigger] s[i].yes - #[trigger] s[j].yes
                <= spread_of(s),
        exists|i: int, j: int|
            0 <= i < s.len() && 0 <= j < s.len() && #[trigger] s[i].yes - #[trigger] s[j].yes
                == spread_of(s),
{
    lemma_extremes(s);
    let a = choose|i: int| 0 <= i < s.len() && #[trigger] s[i].yes == max_yes(s);
    let b = choose|i: int| 0 <= i < s.len() && #[trigger] s[i].yes == min_yes(s);
    assert(s[a].yes - s[b].yes == spread_of(s));
    assert(min_yes(s) <= s[0].yes <= max_yes(s));
}

/// An event is flagged `"spread"` exactly when its spread exceeds the
/// threshold, and is `"ok"` otherwise.
pub proof fn law_alert_exactly_above_threshold(s: Seq<QuoteView>, threshold: i64)
    requires
        s.len() >= 1,
    ensures
        compare_row_view(s, threshold).kind == "spread"@ <==> spread_of(s) > threshold,
        compare_row_view(s, threshold).kind == "ok"@ <==> spread_of(s) <= threshold,
{
    reveal_strlit("spread");
    reveal_strlit("ok");
    assert("spread"@.len() != "ok"@.len());
}

/// Each venue quoted for an event appears in its row's prices, no other
/// venue does, and a venue quoted more than once shows its last price.
pub proof fn law_venue_prices(s: Seq<QuoteView>)
    ensures
        forall|k: Seq<char>| #[trigger]
            venue_prices(s).dom().contains(k) <==> exists|i: int|
                0 <= i < s.len() && #[trigger] s[i].venue == k,
        forall|i: int|
            0 <= i < s.len() && (forall|j: int| i < j < s.len() ==> #[trigger] s[j].venue
                != s[i].venue) ==> venue_prices(s)[#[trigger] s[i].venue] == s[i].yes,
    decreases s.len(),
{
    if s.len() > 0 {
        let t = s.drop_last();
        law_venue_prices(t);
        let n = s.len() - 1;
        assert(s[n] == s.last());
        assert forall|k: Seq<char>| #[trigger] venue_prices(s).dom().contains(k) implies exists|
            i: int,
        | 0 <= i < s.len() && #[trigger] s[i].venue == k by {
            if k != s.last().venue {
                assert(venue_prices(t).dom().contains(k));
                let i = choose|i: int| 0 <= i < t.len() && #[trigger] t[i].venue == k;
                assert(s[i] == t[i]);
            } else {
                assert(s[n].venue == k);
            }
        }
        assert forall|k: Seq<char>|
            (exists|i: int| 0 <= i < s.len() && #[trigger] s[i].venue == k) implies #[trigger]
            venue_prices(s).dom().contains(k) by {
            let i = choose|i: int| 0 <= i < s.len() && #[trigger] s[i].venue == k;
            if i < n {
                assert(t[i] == s[i]);
                assert(t[i].venue == k);
                assert(venue_prices(t).dom().contains(k));
            } else {
                assert(k == s.last().venue);
            }
        }
        assert forall|i: int|
            0 <= i < s.len() && (forall|j: int| i < j < s.len() ==> #[trigger] s[j].venue
                != s[i].venue) implies venue_prices(s)[#[trigger] s[i].venue] == s[i].yes by {
            if i < n {
                assert(t[i] == s[i]);
                assert(s[n].venue != s[i].venue);
                assert forall|j: int| i < j < t.len() implies #[trigger] t[j].venue != t[i].venue by {
                    assert(t[j] == s[j]);
                }
            }
        }
    }
}

proof fn lemma_trim_start_shape(s: Seq<char>)
    ensures
        trim_start(s).len() == 0 || !is_ws(trim_start(s)[0]),
    decreases s.len(),
{
    if s.len() > 0 && is_ws(s[0]) {
        lemma_trim_start_shape(s.drop_first());
    }
}

proof fn lemma_trim_end_shape(x: Seq<char>)
    ensures
        trim_end(x).len() == 0 || (!is_ws(trim_end(x).last()) && trim_end(x)[0] == x[0]),
    decreases x.len(),
{
    if x.len() > 0 && is_ws(x.last()) {
        let y = x.drop_last();
        lemma_trim_end_shape(y);
        if trim_end(y).len() > 0 {
            assert(y[0] == x[0]);
        }
    }
}

/// Surrounding whitespace does not change how a probability text reads.
pub proof fn law_surrounding_whitespace_ignored(text: Seq<char>)
    ensures
        read_prob(text) == read_prob(trim(text)),
{
    let ts = trim_start(text);
    let t = trim(text);
    lemma_trim_start_shape(text);
    lemma_trim_end_shape(ts);
    if t.len() > 0 {
        lemma_trim_unchanged(t);
    } else {
        assert(t =~= Seq::<char>::empty());
        assert(trim(t) =~= Seq::<char>::empty());
    }
}

/// The spread depends only on which Yes prices occur, not on the order or
/// repetition of the quotes: two non-empty quote lists with the same prices
/// have the same spread.
pub proof fn law_spread_ignores_quote_order(s: Seq<QuoteView>, t: Seq<QuoteView>)
    requires
        s.len() >= 1,
        t.len() >= 1,
        forall|i: int|
            0 <= i < s.len() ==> exists|j: int|
                0 <= j < t.len() && #[trigger] t[j].yes == #[trigger] s[i].yes,
        forall|j: int|
            0 <= j < t.len() ==> exists|i: int|
                0 <= i < s.len() && #[trigger] s[i].yes == #[trigger] t[j].yes,
    ensures
        max_yes(s) == max_yes(t),
        min_yes(s) == min_yes(t),
        spread_of(s) == spread_of(t),
{
    lemma_extremes(s);
    lemma_extremes(t);
    let a = choose|i: int| 0 <= i < s.len() && #[trigger] s[i].yes == max_yes(s);
    let b = choose|j: int| 0 <= j < t.len() && #[trigger] t[j].yes == max_yes(t);
    let c = choose|i: int| 0 <= i < s.len() && #[trigger] s[i].yes == min_yes(s);
    let d = choose|j: int| 0 <= j < t.len() && #[trigger] t[j].yes == min_yes(t);
    let a2 = choose|j: int| 0 <= j < t.len() && #[trigger] t[j].yes == s[a].yes;
    let b2 = choose|i: int| 0 <= i < s.len() && #[trigger] s[i].yes == t[b].yes;
    let c2 = choose|j: int| 0 <= j < t.len() && #[trigger] t[j].yes == s[c].yes;
    let d2 = choose|i: int| 0 <= i < s.len() && #[trigger] s[i].yes == t[d].yes;
    assert(t[a2].yes <= max_yes(t));
    assert(s[b2].yes <= max_yes(s));
    assert(t[c2].yes >= min_yes(t));
    assert(s[d2].yes >= min_yes(s));
}

proof fn lemma_first_dot_props(s: Seq<char>)
    ensures
        first_dot(s) >= 0 ==> first_dot(s) < s.len() && s[first_dot(s)] == '.' && forall|j: int|
            0 <= j < first_dot(s) ==> #[trigger] s[j] != '.',
        first_dot(s) < 0 ==> forall|j: int| 0 <= j < s.len() ==> #[trigger] s[j] != '.',
    decreases s.len(),
{
    if s.len() > 0 && s[0] != '.' {
        let t = s.drop_first();
        lemma_first_dot_props(t);
        assert forall|j: int| 0 < j < s.len() implies s[j] == t[j - 1] by {}
    }
}

/// A `0` written after the decimal part changes nothing: `"0.62"` and
/// `"0.620"` read alike, whatever the surrounding whitespace.
pub proof fn law_trailing_zero_after_point(text: Seq<char>)
    requires
        first_dot(trim(text)) >= 0,
    ensures
        read_prob(trim(text) + seq!['0']) == read_prob(text),
{
    let t = trim(text);
    let ts = trim_start(text);
    lemma_trim_start_shape(text);
    lemma_trim_end_shape(ts);
    law_surrounding_whitespace_ignored(text);
    lemma_first_dot_props(t);
    let d = first_dot(t);
    assert(t.len() > 0);
    lemma_trim_unchanged(t);
    let u = t + seq!['0'];
    assert(u[0] == t[0]);
    assert(u.last() == '0');
    lemma_digit_char(0);
    assert(digit_char(0) == '0');
    lemma_trim_unchanged(u);
    assert forall|j: int| 0 <= j < d implies #[trigger] u[j] != '.' by {
        assert(u[j] == t[j]);
    }
    assert(u[d] == t[d]);
    crate::text::lemma_first_dot_at(u, d);
    let whole = t.take(d);
    let frac = t.skip(d + 1);
    assert(u.take(d) =~= whole);
    assert(u.skip(d + 1) =~= frac + seq!['0']);
    let f2 = frac + seq!['0'];
    assert(all_digits(f2) == all_digits(frac)) by {
        if all_digits(frac) {
            assert forall|i: int| 0 <= i < f2.len() implies #[trigger] is_digit(f2[i]) by {
                if i < frac.len() {
                    assert(f2[i] == frac[i]);
                    assert(is_digit(frac[i]));
                }
            }
        }
        if all_digits(f2) {
            assert forall|i: int| 0 <= i < frac.len() implies #[trigger] is_digit(frac[i]) by {
                assert(f2[i] == frac[i]);
                assert(is_digit(f2[i]));
            }
        }
    }
    if frac.len() >= 6 {
        assert(f2.take(6) =~= frac.take(6));
    } else {
        assert(f2 + Seq::new((6 - f2.len()) as nat, |i: int| '0') =~= frac + Seq::new(
            (6 - frac.len()) as nat,
            |i: int| '0',
        ));
    }
    assert(pad6(f2) == pad6(frac));
}

/// Lowering the threshold never drops an alert, and changes nothing of an
/// event's row but the threshold and, perhaps, the kind.
pub proof fn law_lower_threshold_keeps_alerts(s: Seq<QuoteView>, t1: i64, t2: i64)
    requires
        s.len() >= 1,
        t2 <= t1,
    ensures
        compare_row_view(s, t2).event_id == compare_row_view(s, t1).event_id,
        compare_row_view(s, t2).spread == compare_row_view(s, t1).spread,
        compare_row_view(s, t2).venues == compare_row_view(s, t1).venues,
        compare_row_view(s, t1).kind == "spread"@ ==> compare_row_view(s, t2).kind == "spread"@,
{
    law_alert_exactly_above_threshold(s, t1);
    law_alert_exactly_above_threshold(s, t2);
}

/// Recorded quotes of markets that the map does not list are passed over
/// unread: adding one anywhere leaves the quotes that the comparison works on
/// (and so `compare_mapped`'s result) and its overflow condition unchanged.
pub proof fn law_unmapped_quotes_ignored(
    m: Seq<MapRowView>,
    q: Seq<QuoteRowView>,
    p: int,
    u: QuoteRowView,
)
    requires
        0 <= p <= q.len(),
        lookup_event(m, u.venue, u.market_id) is None,
    ensures
        mapped_quotes(m, q.insert(p, u)) == mapped_quotes(m, q),
        mapped_overflow_free(m, q.insert(p, u)) == mapped_overflow_free(m, q),
    decreases q.len(),
{
    let q2 = q.insert(p, u);
    if p == q.len() {
        assert(q2.drop_last() =~= q);
        assert(q2.last() == u);
    } else {
        let r = q.drop_last();
        law_unmapped_quotes_ignored(m, r, p, u);
        assert(q2.drop_last() =~= r.insert(p, u));
        assert(q2.last() == q.last());
    }
}

// ---------------------------------------------------------------------------
// Events, venues, configs
// ---------------------------------------------------------------------------

/// An event's group is every quote that names it, in input order and nothing
/// else: exactly the quotes kept by filtering the input on the event.
pub proof fn law_event_group_is_all_its_quotes(s: Seq<QuoteView>, k: Seq<char>)
    ensures
        event_quotes(s, k) == s.filter(|q: QuoteView| q.event_id == k),
    decreases s.len(),
{
    reveal_with_fuel(Seq::<_>::filter, 1);
    if s.len() > 0 {
        law_event_group_is_all_its_quotes(s.drop_last(), k);
    }
}

/// An event's row spreads over all of the event's quotes: no two quotes that
/// name the event differ by more than its spread, and two of them differ by
/// exactly that much.
pub proof fn law_event_spread_covers_all_its_quotes(s: Seq<QuoteView>, k: Seq<char>, i: int)
    requires
        0 <= i < s.len(),
        s[i].event_id == k,
    ensures
        forall|a: int, b: int|
            0 <= a < s.len() && 0 <= b < s.len() && s[a].event_id == k && s[b].event_id == k
                ==> #[trigger] s[a].yes - #[trigger] s[b].yes <= spread_of(event_quotes(s, k)),
        exists|a: int, b: int|
            0 <= a < s.len() && 0 <= b < s.len() && s[a].event_id == k && s[b].event_id == k
                && #[trigger] s[a].yes - #[trigger] s[b].yes == spread_of(event_quotes(s, k)),
{
    let pred = |q: QuoteView| q.event_id == k;
    law_event_group_is_all_its_quotes(s, k);
    let g = event_quotes(s, k);
    s.lemma_filter_contains(pred, i);
    assert(g.len() >= 1);
    lemma_extremes(g);
    assert forall|a: int, b: int|
        0 <= a < s.len() && 0 <= b < s.len() && s[a].event_id == k && s[b].event_id == k
            implies #[trigger] s[a].yes - #[trigger] s[b].yes <= spread_of(g) by {
        s.lemma_filter_contains(pred, a);
        s.lemma_filter_contains(pred, b);
        let x = choose|x: int| 0 <= x < g.len() && g[x] == s[a];
        let y = choose|y: int| 0 <= y < g.len() && g[y] == s[b];
        assert(min_yes(g) <= g[x].yes <= max_yes(g));
        assert(min_yes(g) <= g[y].yes <= max_yes(g));
    }
    let x = choose|x: int| 0 <= x < g.len() && #[trigger] g[x].yes == max_yes(g);
    let y = choose|y: int| 0 <= y < g.len() && #[trigger] g[y].yes == min_yes(g);
    assert(g.contains(g[x]));
    assert(g.contains(g[y]));
    s.lemma_filter_contains_rev(pred, g[x]);
    s.lemma_filter_contains_rev(pred, g[y]);
    s.lemma_filter_pred(pred, x);
    s.lemma_filter_pred(pred, y);
    let a = choose|a: int| 0 <= a < s.len() && s[a] == g[x];
    let b = choose|b: int| 0 <= b < s.len() && s[b] == g[y];
    assert(s[a].yes - s[b].yes == spread_of(g));
}

/// With no trade yet (`last_price_dollars` missing, empty or `"0.0000"`),
/// Kalshi's price is the yes ask whenever there is one, whatever the bid.
pub proof fn law_kalshi_no_trade_takes_the_ask(f: KalshiFields)
    requires
        match f.last_price_dollars {
            JsonScalar::Text(t) => t@.len() == 0 || t@ == "0.0000"@,
            JsonScalar::Integer(_) => false,
            JsonScalar::Other => true,
        },
    ensures
        (f.yes_ask_dollars is Text && f.yes_ask_dollars->Text_0@.len() > 0) ==> kalshi_price(f)
            == Some(f.yes_ask_dollars->Text_0@),
        f.yes_ask_dollars is Integer ==> kalshi_price(f) == Some(
            idec(f.yes_ask_dollars->Integer_0 as int),
        ),
{
    reveal_strlit("yes_ask_dollars");
    reveal_strlit("last_price");
    reveal_strlit("last_price_dollars");
    assert("yes_ask_dollars"@.len() != "last_price"@.len());
    assert("yes_ask_dollars"@.len() != "last_price_dollars"@.len());
}

/// A Kalshi price actually traded (`last_price_dollars` a non-empty string
/// other than `"0.0000"`) comes before the ask and the bid.
pub proof fn law_kalshi_trade_first(f: KalshiFields)
    requires
        f.last_price_dollars matches JsonScalar::Text(t) && t@.len() > 0 && t@ != "0.0000"@,
    ensures
        kalshi_price(f) == Some(f.last_price_dollars->Text_0@),
{
    reveal_strlit("last_price_dollars");
    reveal_strlit("last_price");
    assert("last_price_dollars"@.len() != "last_price"@.len());
}

/// Only an id made wholly of ASCII digits is asked for by number; any other
/// id is asked for by slug.
pub proof fn law_polymarket_slug_unless_numeric(id: Seq<char>)
    ensures
        (exists|i: int| 0 <= i < id.len() && !(48 <= (#[trigger] id[i] as u32) <= 57))
            ==> polymarket_url_text(id) == "https://gamma-api.polymarket.com/markets?slug="@ + id,
        (forall|i: int| 0 <= i < id.len() ==> 48 <= (#[trigger] id[i] as u32) <= 57)
            ==> polymarket_url_text(id) == "https://gamma-api.polymarket.com/markets/"@ + id,
{
    if exists|i: int| 0 <= i < id.len() && !(48 <= (#[trigger] id[i] as u32) <= 57) {
        let i = choose|i: int| 0 <= i < id.len() && !(48 <= (#[trigger] id[i] as u32) <= 57);
        assert(!is_digit(id[i]));
    }
}

/// A config's threshold is the integer in its top-level `threshold_millionths`
/// entry, wherever that entry stands among the keys (the first such entry).
pub proof fn law_threshold_found_anywhere(t: ConfigTree, j: int, n: i64)
    requires
        t is Object,
        0 <= j < t->Object_0@.len(),
        t->Object_0@[j].0@ == "threshold_millionths"@,
        t->Object_0@[j].1 == ConfigTree::Integer(n),
        forall|i: int| 0 <= i < j ==> (#[trigger] t->Object_0@[i].0)@ != "threshold_millionths"@,
    ensures
        configured_threshold(t) == n,
{
    lemma_threshold_at(t->Object_0@, j, n);
}

proof fn lemma_threshold_at(es: Seq<(String, ConfigTree)>, j: int, n: i64)
    requires
        0 <= j < es.len(),
        es[j].0@ == "threshold_millionths"@,
        es[j].1 == ConfigTree::Integer(n),
        forall|i: int| 0 <= i < j ==> (#[trigger] es[i].0)@ != "threshold_millionths"@,
    ensures
        crate::config::threshold_in(es) == n,
    decreases j,
{
    if j > 0 {
        let r = es.drop_first();
        assert(r[j - 1] == es[j]);
        assert forall|i: int| 0 <= i < j - 1 implies (#[trigger] r[i].0)@
            != "threshold_millionths"@ by {
            assert(r[i] == es[i + 1]);
        }
        lemma_threshold_at(r, j - 1, n);
        assert(es[0].0@ != "threshold_millionths"@);
        lemma_threshold_in_skips(es);
    }
}

proof fn lemma_threshold_in_skips(es: Seq<(String, ConfigTree)>)
    requires
        es.len() > 0,
        es[0].0@ != "threshold_millionths"@,
    ensures
        crate::config::threshold_in(es) == crate::config::threshold_in(es.drop_first()),
{
}

/// A config with no top-level `threshold_millionths` entry gets the default.
pub proof fn law_threshold_default(t: ConfigTree)
    requires
        t is Object ==> forall|i: int|
            0 <= i < t->Object_0@.len() ==> (#[trigger] t->Object_0@[i].0)@ != "threshold_millionths"@,
    ensures
        configured_threshold(t) == DEFAULT_THRESHOLD_MILLIONTHS,
{
    if t is Object {
        lemma_no_threshold(t->Object_0@);
    }
}

proof fn lemma_no_threshold(es: Seq<(String, ConfigTree)>)
    requires
        forall|i: int| 0 <= i < es.len() ==> (#[trigger] es[i].0)@ != "threshold_millionths"@,
    ensures
        crate::config::threshold_in(es) == DEFAULT_THRESHOLD_MILLIONTHS,
    decreases es.len(),
{
    if es.len() > 0 {
        let r = es.drop_first();
        assert forall|i: int| 0 <= i < r.len() implies (#[trigger] r[i].0)@
            != "threshold_millionths"@ by {
            assert(r[i] == es[i + 1]);
        }
        lemma_no_threshold(r);
    }
}

/// Two keys that differ only in the ASCII case of their letters.
pub open spec fn same_but_ascii_case(a: Seq<char>, b: Seq<char>) -> bool {
    &&& a.len() == b.len()
    &&& forall|i: int|
        0 <= i < a.len() ==> {
            ||| a[i] == b[i]
            ||| (65 <= (a[i] as u32) <= 90 && (b[i] as u32) == (a[i] as u32) + 32)
            ||| (65 <= (b[i] as u32) <= 90 && (a[i] as u32) == (b[i] as u32) + 32)
        }
}

proof fn lemma_lower_char_case(x: char, y: char)
    requires
        65 <= (x as u32) <= 90,
        (y as u32) == (x as u32) + 32,
    ensures
        crate::config::lower_char(x) == crate::config::lower_char(y),
{
    let z = ((x as u32) + 32) as char;
    assert(z as u32 == y as u32);
    crate::text::lemma_char_code_injective(z, y);
}

/// Credential detection ignores ASCII case: keys that differ only in the
/// case of their letters are flagged alike.
pub proof fn law_credential_names_ignore_case(a: Seq<char>, b: Seq<char>)
    requires
        same_but_ascii_case(a, b),
    ensures
        names_credential(a) == names_credential(b),
{
    assert forall|i: int| 0 <= i < a.len() implies lower_text(a)[i] == lower_text(b)[i] by {
        if a[i] != b[i] {
            if 65 <= (a[i] as u32) <= 90 && (b[i] as u32) == (a[i] as u32) + 32 {
                lemma_lower_char_case(a[i], b[i]);
            } else {
                lemma_lower_char_case(b[i], a[i]);
            }
        }
    }
    assert(lower_text(a) =~= lower_text(b));
}

/// A key that holds a credential word as written (in lower case) is flagged,
/// and so, by the law above, is every case variant of it.
pub proof fn law_credential_word_flags_key(k: Seq<char>)
    ensures
        has_infix(k, "private_key"@) ==> names_credential(k),
        has_infix(k, "privatekey"@) ==> names_credential(k),
        has_infix(k, "secret"@) ==> names_credential(k),
        has_infix(k, "seed"@) ==> names_credential(k),
        has_infix(k, "mnemonic"@) ==> names_credential(k),
        has_infix(k, "password"@) ==> names_credential(k),
        has_infix(k, "passphrase"@) ==> names_credential(k),
{
    reveal_strlit("private_key");
    reveal_strlit("privatekey");
    reveal_strlit("secret");
    reveal_strlit("seed");
    reveal_strlit("mnemonic");
    reveal_strlit("password");
    reveal_strlit("passphrase");
    lemma_lowering_keeps_lower_infix(k, "private_key"@);
    lemma_lowering_keeps_lower_infix(k, "privatekey"@);
    lemma_lowering_keeps_lower_infix(k, "secret"@);
    lemma_lowering_keeps_lower_infix(k, "seed"@);
    lemma_lowering_keeps_lower_infix(k, "mnemonic"@);
    lemma_lowering_keeps_lower_infix(k, "password"@);
    lemma_lowering_keeps_lower_infix(k, "passphrase"@);
}

proof fn lemma_lowering_keeps_lower_infix(k: Seq<char>, w: Seq<char>)
    requires
        forall|i: int| 0 <= i < w.len() ==> !(65 <= (#[trigger] w[i] as u32) <= 90),
    ensures
        has_infix(k, w) ==> has_infix(lower_text(k), w),
{
    if has_infix(k, w) {
        let j = choose|j: int| 0 <= j && j + w.len() <= k.len() && #[trigger] k.subrange(j, j + w.len()) == w;
        let l = lower_text(k);
        assert forall|i: int| 0 <= i < w.len() implies l.subrange(j, j + w.len())[i] == w[i] by {
            assert(k.subrange(j, j + w.len())[i] == k[j + i]);
            assert(l[j + i] == crate::config::lower_char(k[j + i]));
        }
        assert(l.subrange(j, j + w.len()) =~= w);
    }
}

} // verus!
