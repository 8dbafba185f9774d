# netlens

The logic of a network monitor for Linux hosts: what is collected and when, how counters
become series, how routes, sockets, queueing disciplines and packet filters are shown, and
how evidence becomes a report. Every function of the library carries a contract that Verus
proves.

## Layout

- `src/` is the verified library.
  - Values: `model`, `catalog`, `evidence`, `report`, `provider`, `diagnostics`.
  - Collection: `collector`, `cycles`, `schedule`, `configuration`, `translate`, `nic`, `netfilter`,
    `qdisc`, `attachment`, `rows`, `interleave`, `order`.
  - Monitor state: `series`, `engine`, `sample_order`, `sessions`.
  - Pages: `network_route`, `route_changes`, `route_lookup`, `addresses`, `sockets`,
    `socket_table`, `owners`.
  - Reports: `normalize`, `output`, `kinds`, `arrival`.
  - Groundwork: `text`, `seqs`, `ordering`.
- `app/` is ordinary Rust around it: threads, clocks, random numbers, floating-point rates,
  JSON through serde, and the traits through which a host is read.
- `tests/` holds the tests.

## Reading the contracts

A type that holds text is generic over it: `T<String>` runs, and `T<Seq<char>>`, its deep
view, is what contracts speak of. Where a function returns or changes a value, its contract
equates the deep view with a spec function of the arguments. Properties that span several
functions are public proof functions without a `lemma_` prefix.

Three calls are believed and not proved: `String::push` and the debug form of a text, both of
the standard library, in `text`, and `serde_json::to_string` on the attachment of a queueing
discipline, in `attachment`.

Whether a document is valid is decided outside the library. Functions that write a document
take the outcome as an argument, and their contracts say what is refused.
