# live_index

Finds the newest generation of chunks in the rotating real-time NEXRAD
Level II bucket, where volume directories 1 through 999 are reused in a ring
and old directories can outlive their trip around it.

- `src/` is the verified library: the arithmetic of the ring (`ring`),
  instants and the live test (`time`), chunks and generations (`chunk`),
  reading S3 listings from their XML events (`listing`), the listing
  requests (`request`), and the decisions of a search between listing waves
  (`search`).
- `app/` runs the search over the network: HTTP requests, concurrent probe
  waves, and conversion of results to nexrad-data identifiers.
- `tests/` exercises the library on concrete listings and chunk names.
