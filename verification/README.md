# rmap

A network scanner: ICMP host discovery, TCP connect scans with service and
version detection, and an interactive browser for the results.

- `src/` is the verified library. `echo` builds and recognises ICMP echo
  packets; `tcp` reads a port's state off a connection attempt; `scan` keeps
  the results of a scan and reports them in order; `probe_file` parses the
  service-probe file; `pattern` holds the regular expressions of its match
  rules; `service` matches answers against the probes and decides each step of
  the detection dialogue; `browse` and `look` are the state and the lines of
  the result browser; `text` holds string helpers.
- `app/` runs the sockets, the async scheduling, progress bars, the terminal
  and JSON output around the library.
- `tests/` exercises the library on concrete values.
