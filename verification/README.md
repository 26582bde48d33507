# news_ticker

A command-line news ticker: it reads a list of feed URLs, downloads the
feeds, keeps their entries in a table with a current position, shows the
current entry (on a terminal or as a Waybar JSON object) and moves forwards
and backwards through the entries, wrapping around at both ends. An optional
content filter asks a language model served by Ollama whether a title is
distressing and marks such titles with `[TW] `.

Layout:

- `src/` is the library, verified with Verus.
  - `db.rs`: entries, the entry table (ids, unique links, the current
    position), navigation, insertion, purging, marking, and the laws that
    relate them.
  - `feed.rs`: feed items, the feeds-file reader, feed parsing (through
    `feed-rs`), and the refresh that adds fetched items to the table.
  - `filter.rs`: classifications, the classification prompt, reading the
    model's reply, the health-check address, and the filter that names the
    model and the Ollama client.
  - `guard.rs`: a byte-level check that refuses feed documents holding a
    duration (`itunes:duration`, Media RSS `start`/`end`/`time`) that the feed
    parser could not read without failing.
  - `text.rs`: whitespace trimming, JSON string escaping and substring search.
- `app/` is the program: arguments, the SQLite file that keeps the table
  between runs, HTTP downloads and the calls to Ollama.
- `tests/` runs the library on concrete values.
