# vhrn

The decisions of an egress proxy that denies by default, written in Verus.

The proxy stands between a container and the network. It takes HTTP/1 requests, reads what they ask
for, looks the destination up in the policy, and forwards or tunnels what the policy allows. A local
destination is reached through a broker that the container authenticates to.

- `src/` holds the library. Each function states in its contract what it returns, and the proof
  functions beside them state what holds across functions: that what is written reads back, that
  octets may arrive in any parts, that a body goes on whole and within its buffer, that only a
  recorded and allowed request is routed, that only globally routable addresses are dialled.
- `app/` holds the program: sockets, files, signals, timers and TLS around the library.
- `tests/` runs the library.

## What is trusted

Verus proves the library from the contracts of a few outside functions: `String::push` and
`String::from_utf8` of std, the header map of the `http` crate, its parsers for URIs and
authorities, and the server names of `rustls`. Each of them is declared once, with a comment that
says what is believed of it. Where an outside grammar decides, its result has a name and the
contracts speak of that name.
