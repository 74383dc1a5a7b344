# oddsradar

A read-only cross-venue prediction-market spread radar. It watches the same
event on several venues (Polymarket, Kalshi), reads each venue's implied Yes
probability as integer millionths, and flags an event when the highest minus
the lowest price exceeds a threshold. It never bets or trades.

The library under `src/` is verified with Verus:

- `text` — digits, whitespace trimming, decimal rendering, string order;
- `table` — a text-keyed map kept in increasing key order;
- `spread` — reading probabilities, the spread, one event's comparison row;
- `board` — grouping quotes by event and building the table of rows;
- `map` — joining recorded quotes to events through the market map;
- `config` — the config check: no credentials, the alert threshold;
- `live` — venue requests, reading venue replies, comparing fetched prices;
- `laws` — properties that tie these together.

`app/` is the command-line program: argument handling, files, HTTP and JSON.
