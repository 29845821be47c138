# proxy

The core of an HTTP-aware TCP reverse proxy and load balancer, verified with Verus.

`src/` is the verified library:

- `scan` — searching byte buffers for `\r\n` and `\r\n\r\n`.
- `text` — ASCII case folding, whitespace trimming, and unsigned decimal/hexadecimal
  numbers as `usize::from_str_radix` reads them.
- `head` — `HeadParser`, the incremental parser of request heads, and `parse_request_meta`.
- `request_laws` — what each field of the request metadata is, line by line, and when a
  head is refused.
- `parser_laws` — the head parser over many calls: the bytes before its cursor are what it
  reported, reading a growing buffer in pieces reports what reading it at once reports, and a
  head ends just past its first `\r\n\r\n`.
- `response` — the length and `Connection: close` flag of a response head, and whether a
  health-check answer has status 200.
- `chunked` — where a chunked request body (chunks, the last chunk, optional trailer lines)
  ends.
- `lb` — `BackendPool`, round robin over the healthy backends with passive health marks, and
  the pool of idle backend connections, by backend address (`BackendAddr`).
- `connection` — the per-connection state machine: for each event (bytes read, backend
  picked, idle connection found or not, connected or not, backend marked, bytes sent, ...) it
  decides the next I/O to perform. A request is forwarded with exactly the body it announces;
  what the client sent after it starts the next request (pipelining); a response is relayed
  up to the length it announces. These are proved for whole runs of events, not only step by
  step.
- `check_valid`, `config` — small helpers and configuration defaults.

Each module states its functions' behaviour over spec functions, and proves the laws that
tie them together (incremental parsing equals parsing at once, heads and chunked bodies
read back what was written, round robin is fair and skips unhealthy backends, requests are
forwarded verbatim, responses are relayed exactly, the keep-alive decision).

`app/` is the program around it: the Tokio listener, the socket I/O that drives each
`Connection`, the async locks around the two pools, the periodic active health checks, and
the TOML configuration.
