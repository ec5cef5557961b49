# dabping

Network latency monitoring: rounds of pings per target, stored with their full
distribution, watched by alert patterns, and shown on a status page.

- `src/` is the library, verified with Verus. It holds the rules: the
  configuration and its target tree, the probes as machines that are told what
  happened on the wire, the round-robin series and their consolidation, the
  alert patterns and their edge-triggered states, components and incidents, the
  formats of the emitters, the agents' protocol and the answers of the web API.
  Doubles are computed in integers there (`double`, `decimal`), so that what is
  stored and printed is stated to the last digit.
- `app/` is the program around it: sockets, files, signals, HTTP.
- `tests/` runs the library on concrete values.

Laws that span several functions are public proof functions, next to what they
speak of. What the library takes on trust from other crates stands in small
wrappers whose comments say what is believed.
