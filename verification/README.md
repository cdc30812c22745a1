# resolver

The logic of a small caching DNS resolver, verified with Verus.

- `src/dns/parser.rs` reads a client's header and question.
- `src/dns_packet.rs` reads, classifies and rewrites DNS messages (answer
  records, referral glue, TTLs, IDs) and builds queries, SERVFAIL and
  CNAME-chain responses; `src/readback.rs` shows that the CNAME-chain
  responses read back as the chain they were built from.
- `src/name.rs` reads names (following compression pointers) and writes them
  from dotted text; `src/text.rs` turns label bytes into text.
- `src/cache.rs` holds cache keys and entries and decides what is cached for
  how long.
- `src/resolver.rs` is the resolution of one request as a state machine:
  delegation through trusted glue, CNAME chains of bounded length, SERVFAIL
  when anything fails; it also decides how often an upstream exchange is
  tried.
- `app/` is the UDP server: sockets, threads, the shared cache and the driver
  that performs the exchanges the state machine asks for.
