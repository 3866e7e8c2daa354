# dns-rs

An ad-blocking DNS resolver that speaks only encrypted DNS: DNS-over-TLS (DoT) and
DNS-over-HTTPS (DoH). Its logic is a library verified with Verus; the program around it
reads, writes and waits.

## Layout

- `src/` is the verified library.
  - `dns/handler.rs` decides how a query is answered: static hosts first, then the
    response cache, then the blocklist, then an upstream. `dns/handler_laws.rs` states
    what holds of every query.
  - `dns/cache.rs` is the response cache: a byte budget, times to live, and eviction of
    the least recently used, on top of the allocator in `dns/arena.rs`.
    `dns/cache_laws.rs` states what holds whatever is stored and evicted.
  - `dns/dot.rs` and `dns/dot_pool.rs` match responses to queries on multiplexed
    upstream connections; `dns/upstream.rs` says which upstream is asked when;
    `dns/inflight.rs` coalesces identical queries.
  - `dns/message.rs` is the boundary to the DNS wire format.
  - `blocklist.rs` parses and merges lists of domains; `config.rs`, `env.rs`,
    `cgroup.rs` and `memlimit.rs` are the configuration; `tls.rs` and `server/` belong
    to the listeners; `supervisor.rs` says what starts, reloads and ends the resolver.
  - `text.rs`, `octets.rs`, `ip.rs` and `util.rs` are what the rest is written with.
- `tests/` runs the library with the real outside crates.
- `app/` is the program: sockets, files, timers and the environment.

## What is trusted

Calls into outside crates stand in small functions marked `external_body`, each with a
contract and a comment that names the call. Where the result has no short statement it
goes by a name, and the function next to it takes the result as an argument.
