# zeusi

A distributed sorting benchmark. A server sends the same random array to every
connected worker; each worker sorts it with its algorithm (bubble, insertion or
merge sort), counts its comparisons and times the run; the server broadcasts
the statistics, and a dashboard ranks the workers by time.

- `src/` — the library, verified with Verus:
  - `types.rs`: messages and statistics, with their mathematical models;
  - `sorting.rs`: the three sorts, their comparison counts, the `Sorter` trait;
  - `text.rs`: splitting at a separator, trimming, decimal numbers;
  - `protocol.rs`: reading and writing protocol lines, and the proof that a
    written line reads back as its message;
  - `ranking.rs`: the dashboard's stable ranking by time;
  - `server.rs`: the array generator and the bookkeeping of connected workers;
  - `worker.rs`: a worker's answer to a line from the server.
- `app/` — the programs around it (network, threads, window):
  `zeusi server <port> <array_size>`, `zeusi worker <name> <algorithm> <port>`,
  `zeusi dashboard <port>`.
- `tests/` — tests of the library.

Protocol lines are newline-terminated, with `|` between fields:

```
CONNECT|<name>|<BUBBLE|MERGE|INSERTION>
TAB|<v1>|<v2>|...|<vn>
RESULT|<time_µs>|<comparisons>
STAT|<name>|<algo>|<time>|<count>|...
```
