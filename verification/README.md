# derp_rs

A DERP relay server: nodes connect, prove their key, and have packets relayed by node key. The
library is written in Verus. Each function states in its contract what it returns or changes.
The contracts are proved, but for those of the thin wrappers around other crates. These are
believed; each says above it what it claims of which function.

## Layout

- `src/` is the library.
  - `protocol`: the DERP v2 frames, their encoding and decoding, and what round trips.
  - `crypto`: node keys, key pairs, sealed messages, key files.
  - `relay`: who is connected and where packets go. `relay/model` is the relay as mathematics,
    `relay/upkeep` shows that its invariant is kept, `relay/laws` states what holds of it whatever
    is done, `relay/counts` how many there are, `relay/reports` how often senders are told that a
    node is not here. `relay/routing` and `relay/notices` are the operations on packets and on
    connections.
  - `server`: what a client's frames do, and what is written to it. `server/conversation` is the
    order of a connection: the handshake, joining and leaving.
  - `mesh`: another server of the region. `mesh/link` is the order of the connection to it.
  - `http`: requests, pages, upgrades.
  - `stun`: binding responses.
  - `limiter`, `metrics`, `config`: rate limits, counters, settings.
  - `index`, `queue`, `wire`, `text`, `endpoint`: maps, queues, bytes, text and addresses; what the
    rest relies on of `dashmap`, `tokio`, `bytes`, `hex` and `std` is stated there.
- `app/` is the program around it: sockets, files, TLS, timers, JSON and the command line.
- `tests/` runs the library with the real crates behind it.

## Time and chance

The library reads no clock: where time matters, the caller passes nanoseconds. Whether a queue takes
a frame is decided by its reader, so operations are stated with the offers that they make, each with
its outcome.
