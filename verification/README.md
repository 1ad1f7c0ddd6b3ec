# ot-turbolaser

A headless ICS/OT pcap replay appliance: it replays industrial captures onto an
isolated segment, remapped into a fabricated plant, and forges variants of a
capture. The library under `src/` is verified with Verus: each function states
what it returns, and the proofs are checked with the code.

## Layout

- `src/proto/`: frames, the remap of addresses, the protocol mutators.
- `src/reload/`: forging rounds of a capture, their manifests and names.
- `src/simulate/`: the fabricated plant, its announcements, captures in the plan.
- `src/scenario/`: playbooks, pinned plants, attack bursts, the pack registry.
- `src/config/`: the configuration, its overlay and its validation.
- `src/run/`: the decisions of the replay loop, the watchdog, the status.
- `src/ledger.rs`, `src/oui.rs`, `src/vuln.rs`: the session and the databases.
- `src/control.rs`, `src/netinfo.rs`, `src/readout.rs`, `src/pewpew.rs`: the
  datapath's health and the operator's readouts.
- `app/`: the binary: files and the documents in them, processes, signals, the
  clock and sampling in floating point.
- `tests/`: scenarios with concrete values.

Functions named `law_*` are theorems about several functions taken together.
Functions marked `external_body` and items marked `assume_specification` state
what an outside crate or the standard library does; their doc comments say what
is believed of it.
