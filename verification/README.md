# dping

Pings every hop between this machine and the internet at once and shows,
live, where packet loss and latency begin: at the gateway, somewhere
upstream in the ISP's network, or only at a public anchor.

## Layout

- `src/` — the library, verified with Verus:
  - `stats` — per-target figures (rolling window, session loss, mean and
    standard deviation of the round-trip time), kept exact as integers;
  - `analyzer` — the end-of-run summary table and the plain-English
    diagnosis;
  - `platform` — the `ping` / `traceroute` / `tracert` command lines for
    Linux, macOS and Windows and the parsers of their output, and the
    gateway fallback parsers for `ip route`, `route -n get default` and
    `route print`;
  - `ip` — IP address parsing and display;
  - `target` — building the deduplicated list of targets to ping;
  - `ui` — table rows, sparklines, colour classes and key handling;
  - `aggregator` — the state shared by the ping tasks and the display;
  - `text`, `scan`, `numeric` — decimal text, character scanning and the
    integer square root they rest on.
- `app/` — the program around it: argument parsing, spawning `ping`,
  gateway discovery, the CSV log, the terminal dashboard and the plain
  output.
- `tests/` — tests of the library.
