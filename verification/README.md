# autodpi

Automatic DPI bypass strategy finder and transparent forwarder, with its
decision logic verified by Verus.

- `src/` — the verified library:
  - `clienthello.rs`: the probe TLS ClientHello builder and the locator of the
    SNI split offset, with their byte-level specifications and the laws that
    tie them together (the offset lies inside the host name of a built hello).
  - `strategy.rs`: the segmentation strategies as plans of writes and pauses;
    every plan delivers the payload unchanged; the default catalogue and
    lookup by name.
  - `probe.rs`: verdicts and the classification of a probe attempt.
  - `tuner.rs`: the sweep bookkeeping, the stable ranking (proved sorted and a
    permutation) and the recommendation (proved to have the best pass rate).
  - `cli.rs`: the command-line grammar, specified over the argument strings.
  - `config.rs`: the configuration model and the resolution of listeners
    into forwarding jobs.
  - `logging.rs`: verbosity to log level.
- `app/` — the binary: sockets, threads, files, JSON and terminal output.
- `tests/` — tests of the library.
