use oddsradar::live::{
    compare_live, first_price, kalshi_url, kalshi_yes, live_overflow, normalize_kalshi_price,
    polymarket_url, polymarket_yes, venue_request, JsonScalar, KalshiFields, KalshiReply,
    LiveError, LiveFailure, MapRow, PolymarketReply, VenueRequest,
};
use oddsradar::spread::{parse_prob, SpreadError};

fn text(s: &str) -> JsonScalar {
    JsonScalar::Text(s.to_string())
}

fn fields(
    last_price_dollars: JsonScalar,
    yes_ask_dollars: JsonScalar,
    yes_bid_dollars: JsonScalar,
    last_price: JsonScalar,
) -> KalshiFields {
    KalshiFields { last_price_dollars, yes_ask_dollars, yes_bid_dollars, last_price }
}

fn none_fields() -> KalshiFields {
    fields(JsonScalar::Other, JsonScalar::Other, JsonScalar::Other, JsonScalar::Other)
}

fn row(event: &str, venue: &str, market: &str) -> MapRow {
    MapRow { event_id: event.into(), venue: venue.into(), market_id: market.into() }
}

#[test]
fn kalshi_cents_to_prob_string() {
    assert_eq!(normalize_kalshi_price("last_price", "62"), "0.62");
    assert_eq!(normalize_kalshi_price("yes_ask_dollars", "0.4100"), "0.4100");
}

#[test]
fn kalshi_cents_formatting_edges() {
    assert_eq!(normalize_kalshi_price("last_price", "5"), "0.05");
    assert_eq!(normalize_kalshi_price("last_price", "0"), "0.00");
    assert_eq!(normalize_kalshi_price("last_price", "100"), "1.00");
    assert_eq!(normalize_kalshi_price("last_price", "+7"), "0.07");
    assert_eq!(normalize_kalshi_price("last_price", "1234"), "12.34");
    assert_eq!(normalize_kalshi_price("last_price", "-5"), "0.-5");
    assert_eq!(normalize_kalshi_price("last_price", "-105"), "-1.-5");
    assert_eq!(normalize_kalshi_price("last_price", "-9223372036854775808"), "-92233720368547758.-8");
    assert_eq!(normalize_kalshi_price("last_price", "0.62"), "0.62");
    assert_eq!(normalize_kalshi_price("last_price", "abc"), "abc");
    assert_eq!(normalize_kalshi_price("last_price", "99999999999999999999"), "99999999999999999999");
    assert_eq!(normalize_kalshi_price("yes_bid_dollars", "62"), "62");
}

#[test]
fn kalshi_cents_and_decimals_share_one_scale() {
    for c in 0..=100i64 {
        let s = normalize_kalshi_price("last_price", &c.to_string());
        assert_eq!(parse_prob(&s), Ok(c * 10_000), "{c}");
    }
    let s = normalize_kalshi_price("last_price", "150");
    assert_eq!(parse_prob(&s), Err(SpreadError::OutOfRange("1.50".to_string())));
}

#[test]
fn kalshi_skips_placeholder_and_empty_prices() {
    let reply = KalshiReply {
        market: Some(fields(text("0.0000"), text(""), text("0.4100"), JsonScalar::Integer(62))),
        top: none_fields(),
    };
    assert_eq!(kalshi_yes("T", &reply), Ok("0.4100".to_string()));
}

#[test]
fn kalshi_reads_integer_cents_from_last_price() {
    let reply = KalshiReply {
        market: Some(fields(JsonScalar::Other, JsonScalar::Other, JsonScalar::Other, JsonScalar::Integer(62))),
        top: none_fields(),
    };
    assert_eq!(kalshi_yes("T", &reply), Ok("0.62".to_string()));
    let reply = KalshiReply {
        market: None,
        top: fields(JsonScalar::Other, JsonScalar::Integer(41), JsonScalar::Other, JsonScalar::Other),
    };
    assert_eq!(kalshi_yes("T", &reply), Ok("41".to_string()));
}

#[test]
fn kalshi_prefers_market_member_and_reports_missing_price() {
    let reply = KalshiReply {
        market: Some(none_fields()),
        top: fields(text("0.55"), JsonScalar::Other, JsonScalar::Other, JsonScalar::Other),
    };
    assert_eq!(kalshi_yes("KX-1", &reply), Err(LiveError::NoPrice("KX-1".to_string())));
    let reply = KalshiReply { market: None, top: fields(text("0.55"), JsonScalar::Other, JsonScalar::Other, JsonScalar::Other) };
    assert_eq!(kalshi_yes("KX-1", &reply), Ok("0.55".to_string()));
}

#[test]
fn polymarket_outcome_prices_are_json_in_a_string() {
    let reply = PolymarketReply::Single(text("[\"0.0445\",\"0.9555\"]"));
    assert_eq!(polymarket_yes("516", &reply), Ok("0.0445".to_string()));
    let reply = PolymarketReply::List(vec![text("[\"0.62\",\"0.38\"]"), text("[\"0.1\"]")]);
    assert_eq!(polymarket_yes("slug", &reply), Ok("0.62".to_string()));
    assert_eq!(parse_prob(&polymarket_yes("516", &PolymarketReply::Single(text("[\"0.0445\"]"))).unwrap()), Ok(44_500));
}

#[test]
fn polymarket_missing_or_bad_prices() {
    assert_eq!(
        polymarket_yes("slug", &PolymarketReply::List(vec![])),
        Err(LiveError::NoPrice("slug".to_string()))
    );
    assert_eq!(
        polymarket_yes("slug", &PolymarketReply::Single(JsonScalar::Integer(3))),
        Err(LiveError::NoPrice("slug".to_string()))
    );
    assert_eq!(
        polymarket_yes("slug", &PolymarketReply::Single(text("[]"))),
        Err(LiveError::NoPrice("slug".to_string()))
    );
    match polymarket_yes("slug", &PolymarketReply::Single(text("not json"))) {
        Err(LiveError::Json(m)) => assert!(!m.is_empty()),
        other => panic!("unexpected {other:?}"),
    }
}

#[test]
fn first_price_of_decoded_list() {
    assert_eq!(first_price("x", Ok(vec!["0.3".to_string()])), Ok("0.3".to_string()));
    assert_eq!(first_price("x", Ok(vec![])), Err(LiveError::NoPrice("x".to_string())));
    assert_eq!(first_price("x", Err("eof".to_string())), Err(LiveError::Json("eof".to_string())));
}

#[test]
fn venue_urls() {
    assert_eq!(polymarket_url("12345"), "https://gamma-api.polymarket.com/markets/12345");
    assert_eq!(polymarket_url("will-btc-hit-100k"), "https://gamma-api.polymarket.com/markets?slug=will-btc-hit-100k");
    assert_eq!(kalshi_url("KXBTC"), "https://api.elections.kalshi.com/trade-api/v2/markets/KXBTC");
    match venue_request("kalshi", "KXBTC") {
        Ok(VenueRequest::Kalshi(u)) => assert_eq!(u, "https://api.elections.kalshi.com/trade-api/v2/markets/KXBTC"),
        _ => panic!("kalshi"),
    }
    match venue_request("polymarket", "7") {
        Ok(VenueRequest::Polymarket(u)) => assert_eq!(u, "https://gamma-api.polymarket.com/markets/7"),
        _ => panic!("polymarket"),
    }
    match venue_request("betfair", "7") {
        Err(e) => assert_eq!(e, LiveError::Venue("betfair".to_string())),
        _ => panic!("betfair"),
    }
}

#[test]
fn live_error_messages() {
    assert_eq!(LiveError::Http("404".into()).message(), "http 404");
    assert_eq!(LiveError::Json("eof".into()).message(), "json eof");
    assert_eq!(LiveError::Venue("x".into()).message(), "unknown venue x");
    assert_eq!(LiveError::NoPrice("m".into()).message(), "no yes price on m");
}

#[test]
fn live_single_venue_events_get_quote_rows() {
    let map = vec![
        row("xi-2027", "polymarket", "p1"),
        row("btc-100k", "polymarket", "p2"),
        row("btc-100k", "kalshi", "k2"),
        row("fed-cut", "kalshi", "k3"),
    ];
    let fetched = vec![
        Ok("0.0445".to_string()),
        Ok("0.62".to_string()),
        Ok("0.50".to_string()),
        Err(LiveError::Http("timeout".to_string())),
    ];
    assert!(!live_overflow(&map, &fetched));
    let rows = compare_live(&map, &fetched, 50_000).unwrap();
    assert_eq!(rows.len(), 2);
    assert_eq!(rows[0].event_id, "btc-100k");
    assert_eq!(rows[0].kind, "spread");
    assert_eq!(rows[0].spread_millionths, 120_000);
    assert_eq!(rows[1].event_id, "xi-2027");
    assert_eq!(rows[1].kind, "quote");
    assert_eq!(rows[1].spread_millionths, 0);
    assert_eq!(rows[1].threshold_millionths, 50_000);
    assert_eq!(rows[1].venues.len(), 1);
    assert_eq!(rows[1].venues.key_at(0), "polymarket");
    assert_eq!(*rows[1].venues.value_at(0), 44_500);
}

#[test]
fn live_all_fetches_failed_lists_failures() {
    let map = vec![row("a", "polymarket", "p1"), row("b", "betfair", "x9")];
    let fetched = vec![
        Err(LiveError::Http("timeout".to_string())),
        Err(LiveError::Venue("betfair".to_string())),
    ];
    assert_eq!(
        compare_live(&map, &fetched, 50_000),
        Err(LiveFailure::NoQuotes(
            "polymarket p1: http timeout; betfair x9: unknown venue betfair".to_string()
        ))
    );
    assert_eq!(compare_live(&[], &[], 50_000), Ok(vec![]));
}

#[test]
fn live_bad_price_is_an_error() {
    let map = vec![row("a", "polymarket", "p1"), row("a", "kalshi", "k1")];
    let fetched = vec![Ok("0.5".to_string()), Ok("n/a".to_string())];
    assert_eq!(
        compare_live(&map, &fetched, 50_000),
        Err(LiveFailure::Price(SpreadError::BadProb("n/a".to_string())))
    );
    assert_eq!(
        LiveFailure::Price(SpreadError::BadProb("n/a".to_string())).message(),
        "bad prob: n/a"
    );
    let fetched = vec![Ok("99999999999999.5".to_string()), Ok("0.5".to_string())];
    assert!(live_overflow(&map, &fetched));
    let fetched = vec![Ok("x".to_string()), Ok("99999999999999.5".to_string())];
    assert!(!live_overflow(&map, &fetched));
}

#[test]
fn parse_polymarket_recorded() {
    let recorded = r#"{"id":"516710","slug":"will-xi-jinping-leave-office-in-2027","outcomes":"[\"Yes\", \"No\"]","outcomePrices":"[\"0.0445\", \"0.9555\"]"}"#;
    let v: serde_json::Value = serde_json::from_str(recorded).unwrap();
    let prices = v["outcomePrices"].as_str().unwrap();
    let reply = PolymarketReply::Single(JsonScalar::Text(prices.to_string()));
    let first = polymarket_yes("516710", &reply).unwrap();
    assert_eq!(first, "0.0445");
    assert_eq!(parse_prob(&first).unwrap(), 44_500);
}
