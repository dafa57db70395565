# fastwarc_grpc

The core of a gRPC service that parses WARC archives, verified with Verus, and
the programs around it.

A client streams an archive, or names a file on the server, and receives the
archive's records as a stream of events: a start, the payload in chunks, an end,
or an error. The unary call collects whole records within a budget.

## Layout

`src/` is the verified library.

| Module | What it holds |
| --- | --- |
| `wire`, `grpc_frame` | Varints, gRPC messages, the splitter for request bodies, the prefix of a chunk |
| `message`, `status`, `config` | Messages and statuses as plain values, limits on options |
| `paths`, `server` | Confinement of archive paths to a directory, addresses and settings of the server |
| `warc_service`, `raw_service`, `request_body` | Decisions of the calls: what a request stream may hold, what is told to the client |
| `channel_reader`, `batch`, `grouping`, `parser_run`, `record_events` | From chunks to the parser, and from its events to response messages |
| `archive` | Assembly of the unary response within its budget |
| `benchmark`, `ladder`, `output`, `splitcheck` | Counting, wire lengths and batching of the benchmarks, the search for gzip members |
| `buffers`, `channel` | Byte buffers and channels of other crates, with the contracts that are believed of them |
| `text` | Decimal numbers and prefixes |

`tests/` runs the library on concrete values, with the other crates linked.

`app/` holds the programs: the server (no arguments), and `bench`, `compare` and
`splitcheck`, each with the path of an archive. Sockets, files, tasks, timing and
the protobuf derives live there.

## Settings of the server

| Variable | Meaning |
| --- | --- |
| `FASTWARC_GRPC_ADDR` | TCP address, `unix:` address or absolute socket path; `[::]:50061` if unset |
| `FASTWARC_GRPC_ALLOW_LOCAL_FILES` | `1`, `true` or `TRUE` to serve files of the server |
| `FASTWARC_GRPC_LOCAL_FILE_ROOT` | The directory that such files are confined to |
