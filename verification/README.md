# atproxy

Per-app transparent TCP proxy for Android. Connections of chosen user IDs, or of
a package, are redirected to a local listener by `iptables` rules and tunneled
through an upstream HTTP CONNECT proxy. Destinations on the exclude list are
reached directly.

    atproxy [OPTIONS] [TARGET] [PROXY]

- `src/` is the library, written and verified with Verus. It decides; it opens no
  socket and runs no command.
  - `cli`: the arguments and the plan that follows from them
  - `resolve`: targets to user IDs, lookup results to the proxy address
  - `iptables`: the rules that are applied and cleaned up
  - `exclude`: the addresses and blocks that bypass the proxy
  - `relay`: where a connection goes, and the CONNECT handshake
  - `stats`: connection and byte counters
  - `addr`, `number`, `text`, `bytes`: addresses, numbers and text underneath
- `app/` is the program around it: sockets, signals, commands, logging.
- `tests/` runs the library on concrete values.

Functions named `law_*` are proofs of what holds across functions. Three facts
about the standard library are taken on trust, each stated where it is used:
`String::push` in `text`, `str::from_utf8` and `String::from_utf8_lossy` in
`bytes`.
