use oddsradar::live::MapRow;
use oddsradar::map::{compare_mapped, event_for, mapped_overflow, QuoteRow};
use oddsradar::spread::SpreadError;
use oddsradar::table::KeyedTable;

fn row(event: &str, venue: &str, market: &str) -> MapRow {
    MapRow { event_id: event.into(), venue: venue.into(), market_id: market.into() }
}

fn quote(venue: &str, market: &str, yes: &str) -> QuoteRow {
    QuoteRow { venue: venue.into(), market_id: market.into(), yes: yes.into() }
}

fn market_map() -> Vec<MapRow> {
    vec![
        row("btc-100k", "polymarket", "pm-btc"),
        row("btc-100k", "kalshi", "KXBTC"),
        row("fed-cut", "polymarket", "pm-fed"),
        row("fed-cut", "kalshi", "KXFED"),
        row("xi-2027", "polymarket", "pm-xi"),
    ]
}

#[test]
fn wide_spread_alerts_and_tight_does_not() {
    let quotes = vec![
        quote("polymarket", "pm-btc", "0.62"),
        quote("kalshi", "KXBTC", "0.50"),
        quote("polymarket", "pm-fed", "0.30"),
        quote("kalshi", "KXFED", "0.31"),
        quote("polymarket", "pm-xi", "0.04"),
        quote("betfair", "unknown", "garbage"),
    ];
    let map = market_map();
    assert!(!mapped_overflow(&map, &quotes));
    let rows = compare_mapped(&map, &quotes, 50_000).unwrap();
    assert_eq!(rows.len(), 3);
    assert_eq!(rows[0].event_id, "btc-100k");
    assert_eq!(rows[0].kind, "spread");
    assert_eq!(rows[1].event_id, "fed-cut");
    assert_eq!(rows[1].kind, "ok");
    assert_eq!(rows[1].spread_millionths, 10_000);
    assert_eq!(rows[2].event_id, "xi-2027");
    assert_eq!(rows[2].kind, "quote");
}

#[test]
fn single_venue_event_gets_a_quote_row() {
    let quotes = vec![
        quote("polymarket", "pm-btc", "0.62"),
        quote("kalshi", "KXBTC", "0.50"),
        quote("polymarket", "pm-xi", "0.0445"),
    ];
    let rows = compare_mapped(&market_map(), &quotes, 50_000).unwrap();
    assert_eq!(rows.len(), 2);
    assert_eq!(rows[1].event_id, "xi-2027");
    assert_eq!(rows[1].kind, "quote");
    assert_eq!(rows[1].spread_millionths, 0);
    assert_eq!(rows[1].threshold_millionths, 50_000);
    assert_eq!(rows[1].venues.len(), 1);
    assert_eq!(rows[1].venues.key_at(0), "polymarket");
    assert_eq!(*rows[1].venues.value_at(0), 44_500);
}

#[test]
fn unmapped_quotes_change_nothing() {
    let quotes = vec![quote("polymarket", "pm-btc", "0.62"), quote("kalshi", "KXBTC", "0.50")];
    let more = vec![
        quote("betfair", "x", "not a price"),
        quote("polymarket", "pm-btc", "0.62"),
        quote("kalshi", "nope", "7.5"),
        quote("kalshi", "KXBTC", "0.50"),
    ];
    assert_eq!(compare_mapped(&market_map(), &quotes, 50_000), compare_mapped(&market_map(), &more, 50_000));
}

#[test]
fn later_map_rows_win() {
    let map = vec![row("old", "kalshi", "K"), row("new", "kalshi", "K")];
    assert_eq!(event_for(&map, "kalshi", "K"), Some("new".to_string()));
    assert_eq!(event_for(&map, "kalshi", "Z"), None);
    assert_eq!(event_for(&map, "polymarket", "K"), None);
}

#[test]
fn first_bad_mapped_price_is_the_error() {
    let map = market_map();
    let quotes = vec![
        quote("betfair", "unknown", "garbage"),
        quote("polymarket", "pm-btc", "1.5"),
        quote("kalshi", "KXBTC", "oops"),
    ];
    assert_eq!(
        compare_mapped(&map, &quotes, 50_000),
        Err(SpreadError::OutOfRange("1.5".to_string()))
    );
}

#[test]
fn overflow_is_reported_only_where_reached() {
    let map = market_map();
    let quotes = vec![quote("polymarket", "pm-btc", "99999999999999.5")];
    assert!(mapped_overflow(&map, &quotes));
    let quotes = vec![quote("betfair", "unknown", "99999999999999.5")];
    assert!(!mapped_overflow(&map, &quotes));
    let quotes = vec![quote("kalshi", "KXBTC", "bad"), quote("polymarket", "pm-btc", "99999999999999.5")];
    assert!(!mapped_overflow(&map, &quotes));
}

#[test]
fn no_quotes_no_rows() {
    assert_eq!(compare_mapped(&market_map(), &[], 50_000), Ok(vec![]));
}

#[test]
fn keyed_table_keeps_keys_sorted_and_unique() {
    let mut t: KeyedTable<i64> = KeyedTable::new();
    t.insert("b".to_string(), 2);
    t.insert("a".to_string(), 1);
    t.insert("c".to_string(), 3);
    t.insert("b".to_string(), 20);
    assert_eq!(t.len(), 3);
    assert_eq!(t.key_at(0), "a");
    assert_eq!(t.key_at(1), "b");
    assert_eq!(*t.value_at(1), 20);
    assert_eq!(t.key_at(2), "c");
    assert_eq!(t.remove("b"), Some(20));
    assert_eq!(t.remove("b"), None);
    assert_eq!(t.len(), 2);
    assert_eq!(t.key_at(1), "c");
}
