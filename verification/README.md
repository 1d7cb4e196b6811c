# gtrends

A web API for Google Trends that compares any number of keywords, with its
logic verified in Verus.

Upstream compares at most five keywords per request and scales each request
to its own peak. The query cuts the keywords into groups, finds the strongest
keyword of each group, plays those against each other until one is left, and
requests every group again together with it, so that all values share one scale.

- `src/` — the verified library:
  - `text.rs`: quote trimming, splitting, searching, replacing, decimal parsing;
  - `trend.rs`: trend lines, the strongest trend, the zipped answer;
  - `chunks.rs`: keyword groups;
  - `timing.rs`: the shared, sorted timing table;
  - `request.rs`: the upstream URLs and what is read from the replies;
  - `query.rs`: the query as a state machine, with its laws;
  - `handler.rs`: routing, API parameters, keyword checks, chart pages;
  - `chart.rs`: the data behind a chart.
- `app/` — the server: HTTP (hyper, reqwest), files, and drawing (plotters).
- `tests/` — tests of the library on concrete values.
