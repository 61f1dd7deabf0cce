# ferroscan

A fast, safety-first TCP connect scanner for **authorized** defensive
assessments. It detects and reports; it never exploits. Every resolved target
is checked against an authorized scope allowlist before any packet is sent,
target expansion is capped, and gentle profiles throttle concurrency and rate.

The scanner's logic is a library whose behaviour is stated in `requires` /
`ensures` contracts and proved with Verus; a thin binary performs the network
and file work around it.

## Layout

```
src/                      the verified library
  cli.rs                  command-line options as plain data; timing/safety profiles
  config/
    mod.rs                validation of targets and ports, profile defaults, list files
    ports.rs              port lists, ranges, top-ports, all ports
    target.rs             IP / CIDR / range / hostname parsing, capped de-duplicating expansion
    scope.rs              the authorized allowlist and its enforcement
  net.rs                  addresses and networks as numbers; address text grammar
  net_text.rs             address text as std writes it
  discovery.rs            TCP-ping liveness decisions
  scanner/
    mod.rs                probe decisions, retry policy, probe order, window size
    batch.rs              file-descriptor budget → concurrency plan
    tally.rs              scan bookkeeping: next move, sliding window, results
  runner.rs               the decisions between the pipeline's stages
  report.rs               report assembly: state rollup, findings grouped by host
  render.rs               the human-readable summary
  text.rs                 character-level helpers (trim, split, decimal text)
tests/                    tests of the library on concrete values
app/                      the binary: CLI parsing, DNS, sockets, rate limiter,
                          progress bar, JSON serialization, output files
```

## What is proved

Among the properties the library states and proves:

- nothing outside the authorized scope is ever handed to the scan, with or
  without discovery;
- expansion lists each address once and never more than `--max-targets`;
  a target's host estimate bounds its expansion;
- port selections are strictly ascending and never include port 0; the parts
  of a port list may be reordered or repeated without changing it, and
  `--top-ports N` selects exactly `N` ports (at most 100);
- only a timed-out attempt is retried, and a probe makes at most `retries + 1`
  attempts;
- the sliding window never holds more probes than the concurrency, and a
  finished scan accounts for every `(host, port)` probe;
- the concurrency plan stays within the file-descriptor budget, when that
  budget is at least 1, and within the profile's cap;
- report findings are grouped per host in address order with ports ascending,
  and the state counts add up to the probes made;
- printed addresses parse back to the same address.
