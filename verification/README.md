# reposcope

Renders repository insight visuals — a star-history chart and a contributors
wall — as self-contained, deterministic SVG files, and prints the README
snippet that references them.

## Layout

- `src/` — the verified library (Verus):
  - `star_history.rs`: UTC-day bucketing (an ordered map from day to count)
    with cumulative counts, even subsampling, and the page-by-page state of the stargazers walk;
  - `contributors.rs`: the contributors pager, bot filtering, avatar URLs,
    avatar normalisation to PNG and `data:` URIs;
  - `github.rs`: the request/retry decisions for the REST and GraphQL APIs
    (status codes and transport failures), the error texts, and the decoding of
    their replies into pages;
  - `svg.rs`: the contributors wall, the chart frame, x-axis ticks, compact
    count labels and XML escaping;
  - `cli.rs`: repository and token resolution, output paths, the README
    snippet and SVG validation;
  - `text.rs`, `timefmt.rs`: decimal text, string helpers and the date calls.
- `app/` — the command-line program: argument parsing, HTTP transport, the
  fetch loops, the chart geometry (floating point) and file output.
- `tests/` — tests of the library.
