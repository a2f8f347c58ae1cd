# escapade

A Quarto engine: it solves the game tree depth by depth into tablebases
(minimal-perfect-hash files mapping every canonical position to its outcome)
and answers analysis requests from them.

- `src/` is the verified library. Positions are bitboards (`board`, `node`,
  `record`); `transform` and `canonicalization` reduce a position to its
  canonical form under the board's symmetries and attribute relabeling;
  `evaluate` is negamax with alpha-beta pruning, proved to return what the
  plain search (over the moves that reach distinct canonical positions)
  returns; `solve` enumerates the canonical positions of a depth and routes
  their records to shards; `index` builds the hash-and-displace index of a
  shard and `tablebase` reads such files back; `analyze`, `parsing` and
  `commands` serve the engine's requests.
- `app/` is the command line around it: file and network I/O, threads, the
  HTTP server and JSON.
- `tests/` runs the library on concrete positions.
