# p2p_ft

A verified library for a rendezvous-based peer-to-peer file transfer, and the
command-line program around it.

- `src/` holds the library, written in Verus: the registry of the rendezvous
  server, the text formats that travel between server and peers (`address:port`
  endpoints, peer listings, registrations, file metadata) and the decisions of
  the peers. Every function carries a contract, and the properties that relate
  several functions (reading back what was written, each of two peers being told
  about the other, a lost connection undoing a registration) are proved as
  proof functions next to the specifications.
- `app/` holds the program: argument parsing, sockets, threads, files and the
  progress bar.
- `tests/` runs the library on concrete values.

## Building

The program needs no feature flag: on Unix targets (but Solaris and illumos,
where `net2` offers no such option) it always sets `SO_REUSEPORT` beside
`SO_REUSEADDR` on its sockets, which the hole punching relies on; on other
targets it sets `SO_REUSEADDR` alone.
