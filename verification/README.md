# cadence_mini

A simulation-first model of Cadence, a multiple-concurrent-proposer BFT consensus protocol,
written in Verus: the protocol logic carries contracts and proofs, checked by the verifier.

## Layout

- `src/sim/` — a seeded discrete-event simulator: an event queue ordered by (tick, sequence
  number), per-link delay models, deterministic random streams, and a trace of every send,
  delivery and timer.
- `src/certifier.rs` — vote tallies and threshold certificates, with the quorum laws
  (a 2f+1 certificate is unique; two 2f+1 quorums out of 3f+1 share a voter).
- `src/chorus/` — per-slot consensus: dissemination, round-1 votes, the fast meta-block with
  speculative finality, fast votes, and the fallback path with equivocation proofs. Every
  callback of a validator is proved to keep its decisions and to justify each new one by a
  quorum.
- `src/pipeline.rs` — the pipelining orchestrator: one Chorus instance per open slot,
  windows of `W` slots, and the throttle that keeps at most `2W - p` slots underway.
- `src/mcp.rs`, `src/types.rs` — proposer rotation, meta-blocks and the merge rule.
- `src/speculative.rs` — speculative-versus-final outcomes and the proof that justifies a
  revert.
- `src/adversary/` — equivocating and censoring proposers, offline validators, a healing
  partition and a five-region delay matrix.
- `tests/` — scenario tests over many seeds, and exact-value tests.
- `app/` — the latency experiment, which writes `REPORT.md`, and the JSON form of a trace.
