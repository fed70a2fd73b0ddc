# dnsmasq_dns

The DNS side of a small forwarding name server, verified with Verus: reading and
writing messages, name compression, the record cache and answers out of it, answers
for configured zones, EDNS0 options, synthetic host names, the forwarding of queries,
and DNSSEC.

- `src/` is the library. Every function states its result over mathematical models:
  messages are sequences of bytes, names are sequences of characters, the cache and
  the forwarder have models of their own. Functions named `law_..` state what holds
  of several operations together. Calls into other crates go through small wrappers
  whose doc comments say what is taken on trust.
- `tests/` runs the library.
- `app/` performs what the library asks for: sockets, files, clocks, shared state.

Times are handed to the library as numbers: nanoseconds of a steady clock for the
cache and the forwarder, nanoseconds or seconds since 1970 for DNSSEC. The forwarder
and the set-up of the timestamp file are state machines: they tell the next action
and are told what came of it.
