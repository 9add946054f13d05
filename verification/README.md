# adblock-rust-compat-checker

Finds the rules of a filter list that relate to a set of domains and reports which
ones adblock-rust supports. The library under `src/` is verified with Verus; `app/`
is the command-line front end (arguments, fetching, printing).

- `text.rs`: whitespace, trimming, splitting at a separator, prefixes.
- `sources.rs`: `--list` presets and URLs, and the tokens of `--list` values.
- `rules.rs`: which lines are rules; the de-duplicated rules of a text.
- `filter.rs`: parsing one rule with adblock-rust; the support verdict.
- `order.rs`: the string order and a stable merge sort of report positions.
- `report.rs`: the per-rule report and the pieces reports are printed with.
- `render.rs`, `markdown.rs`: the text and markdown reports, line by line.
- `laws.rs`, `report_laws.rs`: properties of the library as a whole.
