# tv_quotes

A TradingView quote-stream client whose protocol logic is verified with Verus.

- `src/` — the verified library:
  - `text`: character helpers and decimal rendering;
  - `messages`: the `~m~<len>~m~<payload>` framing and the JSON commands;
  - `incoming`: splitting a socket text block into messages, classifying
    them, interpreting the `qsd` quote-data command, and what a run of
    messages hands on;
  - `json`: the JSON tree the library reads, and the decoding of JSON text
    (through serde_json);
  - `keyed`: a list of items with at most one item per key, viewed as a
    map. The open sessions and the quote book are kept in it. A
    `HashMap<String, _>` would be the plain choice, but Verus proves little
    of a `HashMap` keyed by `String`, so a `Vec` whose keys stay distinct
    (a type invariant) stands in its place;
  - `quotes`: quote sessions, merging of data updates, quotes, freshness;
  - `processor`: the open sessions and what each request does to them;
  - `book`: the latest quote of each symbol;
  - `laws`: proofs of properties that span several operations (framing and
    splitting undo each other, replaying an update changes nothing, ...).
- `app/` — the program around it: the websocket connection, the async
  tasks and the egui window.
- `tests/` — tests of the library on concrete values.
