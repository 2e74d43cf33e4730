# edt-down-for-me

A small desktop watcher that shows, with a coloured dot per site, whether a
list of hosts and IP addresses answers: ICMP echo first, then TCP connects,
then an HTTP `HEAD`.

The crate is a Verus library with the logic of the program, proved against
its contracts, and a thin program around it.

- `src/text.rs`: character classes, searching, splitting and numerals.
- `src/ip.rs`: IPv4 and IPv6 addresses as text: reading, canonical writing,
  and their order.
- `src/host.rs`: what a typed or pasted entry names (`parse_target`).
- `src/canonical.rs`: proofs that a canonical name reads back as the same
  target, and that a pasted URL names its host.
- `src/status.rs`: the grey / green / yellow / red status of a site.
- `src/config.rs`: the saved list, as it is read back and its defaults.
- `src/watch.rs`: the watch list and the operations of the window on it.
- `src/probe.rs`: which probes to run for a target, and how an HTTP answer
  is recognised.
- `src/cli.rs`: the command line.
- `app/`: the program: configuration file, window, timers and the probe
  loop, which call the library for every decision.
