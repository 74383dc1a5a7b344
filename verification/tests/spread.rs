use oddsradar::spread::{
    compare_event, parse_prob, prob_overflows, spread_millionths, CompareRow, Quote, SpreadError,
    PROB_SCALE,
};

fn q(venue: &str, yes: &str) -> Quote {
    Quote {
        event_id: "e".into(),
        venue: venue.into(),
        market_id: venue.into(),
        yes: parse_prob(yes).unwrap(),
    }
}

fn quote(event: &str, venue: &str, yes: i64) -> Quote {
    Quote {
        event_id: event.into(),
        venue: venue.into(),
        market_id: venue.into(),
        yes,
    }
}

fn venues(row: &CompareRow) -> Vec<(String, i64)> {
    let mut out = Vec::new();
    for i in 0..row.venues.len() {
        out.push((row.venues.key_at(i).clone(), *row.venues.value_at(i)));
    }
    out
}

#[test]
fn parse_and_spread() {
    assert_eq!(parse_prob("0.62").unwrap(), 620_000);
    let a = q("pm", "0.62");
    let b = q("kx", "0.50");
    assert_eq!(spread_millionths(&[a.clone(), b.clone()]).unwrap(), 120_000);
    let wide = compare_event(&[a, b], 50_000).unwrap();
    assert_eq!(wide.kind, "spread");
    let tight = compare_event(&[q("pm", "0.619"), q("kx", "0.618")], 50_000).unwrap();
    assert_eq!(tight.kind, "ok");
}

#[test]
fn one_quote_rejected() {
    assert_eq!(spread_millionths(&[q("pm", "0.5")]), Err(SpreadError::NeedTwoVenues));
}

#[test]
fn decimal_fractions_read_as_millionths() {
    assert_eq!(parse_prob("0.5"), Ok(500_000));
    assert_eq!(parse_prob(".5"), Ok(500_000));
    assert_eq!(parse_prob("1."), Ok(1_000_000));
    assert_eq!(parse_prob("."), Ok(0));
    assert_eq!(parse_prob("0.0445"), Ok(44_500));
    assert_eq!(parse_prob("0.1234567"), Ok(123_456));
    assert_eq!(parse_prob("1.000000"), Ok(PROB_SCALE));
    assert_eq!(parse_prob("00.25"), Ok(250_000));
}

#[test]
fn whole_numbers_zero_and_one_are_whole_probabilities() {
    assert_eq!(parse_prob("0"), Ok(0));
    assert_eq!(parse_prob("1"), Ok(1_000_000));
    assert_eq!(parse_prob("2"), Ok(2));
    assert_eq!(parse_prob("620000"), Ok(620_000));
    assert_eq!(parse_prob("1000000"), Ok(1_000_000));
}

#[test]
fn surrounding_whitespace_is_ignored() {
    assert_eq!(parse_prob("  0.62\t"), Ok(620_000));
    assert_eq!(parse_prob("\u{3000}0.3\n"), Ok(300_000));
    assert_eq!(parse_prob(" 1 "), Ok(1_000_000));
}

#[test]
fn malformed_probabilities_are_bad() {
    for text in ["", "   ", "abc", "-0.5", "0.5.1", "1e3", "+1", "0,5", "0.-5", "99999999999999999999"] {
        assert_eq!(parse_prob(text), Err(SpreadError::BadProb(text.to_string())), "{text:?}");
    }
}

#[test]
fn probabilities_above_one_are_out_of_range() {
    assert_eq!(parse_prob("1.5"), Err(SpreadError::OutOfRange("1.5".to_string())));
    assert_eq!(parse_prob("1.000001"), Err(SpreadError::OutOfRange("1.000001".to_string())));
    assert_eq!(parse_prob("2000000"), Err(SpreadError::OutOfRange("2000000".to_string())));
    assert_eq!(parse_prob(" 7.25 "), Err(SpreadError::OutOfRange(" 7.25 ".to_string())));
}

#[test]
fn overflowing_decimals_are_detected() {
    assert!(prob_overflows("99999999999999.5"));
    assert!(prob_overflows("9223372036855.0"));
    assert!(prob_overflows("9223372036854.775808"));
    assert!(!prob_overflows("9223372036854.775807"));
    assert!(!prob_overflows("9223372036855"));
    assert!(!prob_overflows("0.5"));
    assert!(!prob_overflows("abc"));
    assert!(!prob_overflows("99999999999999999999"));
    assert_eq!(
        parse_prob("9223372036854.775807"),
        Err(SpreadError::OutOfRange("9223372036854.775807".to_string()))
    );
    assert_eq!(
        parse_prob("9223372036855"),
        Err(SpreadError::OutOfRange("9223372036855".to_string()))
    );
}

#[test]
fn spread_is_highest_minus_lowest() {
    let qs = [quote("e", "a", 300_000), quote("e", "b", 700_000), quote("e", "c", 450_000)];
    assert_eq!(spread_millionths(&qs), Ok(400_000));
    assert_eq!(spread_millionths(&[]), Err(SpreadError::NeedTwoVenues));
    assert_eq!(
        spread_millionths(&[quote("e", "a", 5), quote("e", "b", 5)]),
        Ok(0)
    );
}

#[test]
fn compare_event_rejects_empty_single_and_mixed() {
    assert_eq!(compare_event(&[], 10), Err(SpreadError::NeedTwoVenues));
    assert_eq!(
        compare_event(&[quote("e", "a", 1)], 10),
        Err(SpreadError::NeedTwoVenues)
    );
    assert_eq!(
        compare_event(&[quote("e", "a", 1), quote("f", "b", 2)], 10),
        Err(SpreadError::MixedEvents)
    );
    assert_eq!(compare_event(&[quote("f", "b", 2)], 10), Err(SpreadError::NeedTwoVenues));
}

#[test]
fn spread_equal_to_threshold_is_ok() {
    let row = compare_event(&[quote("e", "a", 100_000), quote("e", "b", 150_000)], 50_000).unwrap();
    assert_eq!(row.kind, "ok");
    assert_eq!(row.spread_millionths, 50_000);
    assert_eq!(row.threshold_millionths, 50_000);
    let row = compare_event(&[quote("e", "a", 100_000), quote("e", "b", 150_001)], 50_000).unwrap();
    assert_eq!(row.kind, "spread");
}

#[test]
fn compare_event_lists_venues_in_order_last_price_winning() {
    let row = compare_event(
        &[
            quote("btc", "polymarket", 620_000),
            quote("btc", "kalshi", 500_000),
            quote("btc", "polymarket", 610_000),
        ],
        50_000,
    )
    .unwrap();
    assert_eq!(row.event_id, "btc");
    assert_eq!(row.spread_millionths, 120_000);
    assert_eq!(
        venues(&row),
        vec![("kalshi".to_string(), 500_000), ("polymarket".to_string(), 610_000)]
    );
}

#[test]
fn spread_error_messages() {
    assert_eq!(SpreadError::NeedTwoVenues.message(), "need at least two venue quotes");
    assert_eq!(SpreadError::MixedEvents.message(), "quotes must share event_id");
    assert_eq!(SpreadError::BadProb("x".into()).message(), "bad prob: x");
    assert_eq!(SpreadError::OutOfRange("2.5".into()).message(), "prob out of range: 2.5");
}

#[test]
fn cli_name_is_oddsradar() {
    assert_eq!(oddsradar::cli_name(), "oddsradar");
}

#[test]
fn spread_ignores_quote_order() {
    let a = [quote("e", "a", 300_000), quote("e", "b", 700_000), quote("e", "c", 450_000)];
    let b = [quote("e", "c", 450_000), quote("e", "a", 300_000), quote("e", "b", 700_000), quote("e", "d", 700_000)];
    assert_eq!(spread_millionths(&a), spread_millionths(&b));
    assert_eq!(compare_event(&a, 0).unwrap().spread_millionths, 400_000);
}

#[test]
fn trailing_zero_after_point_changes_nothing() {
    for t in ["0.62", " .5", "1.", "0.1234567", "1.5", "0.x"] {
        let with_zero = format!("{}0", t.trim());
        let a = parse_prob(t);
        let b = parse_prob(&with_zero);
        match (a, b) {
            (Ok(x), Ok(y)) => assert_eq!(x, y, "{t:?}"),
            (Err(SpreadError::BadProb(_)), Err(SpreadError::BadProb(_))) => {}
            (Err(SpreadError::OutOfRange(_)), Err(SpreadError::OutOfRange(_))) => {}
            other => panic!("{t:?}: {other:?}"),
        }
    }
}

#[test]
fn lowering_the_threshold_keeps_alerts() {
    let qs = [quote("e", "a", 300_000), quote("e", "b", 360_000)];
    let high = compare_event(&qs, 50_000).unwrap();
    let low = compare_event(&qs, 10_000).unwrap();
    assert_eq!(high.kind, "spread");
    assert_eq!(low.kind, "spread");
    assert_eq!(low.spread_millionths, high.spread_millionths);
    assert_eq!(low.event_id, high.event_id);
    assert_eq!(low.venues, high.venues);
    let top = compare_event(&qs, 70_000).unwrap();
    assert_eq!(top.kind, "ok");
}
