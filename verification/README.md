# starknet_lb

A pending-block-aware JSON-RPC load balancer for Starknet nodes. Requests go
only to the upstream nodes whose chain head is the newest one known, where a
pending block counts by the height it will be confirmed at and by the
transactions it already holds.

## Layout

- `src/` — the library, verified with Verus:
  - `head.rs`, `head_order.rs`: chain heads, their order and equality, and the
    laws of that order.
  - `cli.rs`: parsing of `--upstream` specifications (`<url>` or
    `dns:<host>[:<port>][/<path>]`, with port 9545 by default).
  - `endpoint.rs`: upstream ids, keyed by the serialization of their URL.
  - `resolver.rs`: one round of resolution, from specifications and DNS
    lookups to the additions and removals since the previous round.
  - `routing.rs`: which upstreams a request may go to.
  - `store.rs`: the published upstream list, the random choice of an upstream,
    and the manager that applies resolutions and holds the trackers' handles.
  - `handles.rs`: the map from endpoints to tracker handles.
  - `tracker.rs`: what a node's answers about its pending block mean as a head.
  - `shared.rs`: the shared cells (`arc_swap`) between the background tasks
    and the request path.
- `app/` — the program: command line, HTTP server, background tasks (DNS
  lookups, repeated every second; polling the nodes; shutdown), which run the
  library's decisions and publish what they decide.
- `tests/` — tests of the library.
