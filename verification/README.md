# nf_feed

A verified A/B feed arbitrator for NASDAQ ITCH 5.0 over MoldUDP64, with its test and
replay tooling. Two redundant multicast feeds (A and B) deliver the same numbered
messages with loss, duplication and reordering; the sequencer merges them into one
contiguous, exactly-once stream, detects gaps, issues recovery intents and tracks
session changes.

The library in `src/` is written in Verus and every function in it is verified but one:
`keep_alive` (in `engine::tail_study`) is a trusted wrapper around `std::hint::black_box`,
which keeps page-touching reads from being optimised away and promises nothing else.
The modules:

- `protocol`: MoldUDP64 frames and requests, ITCH 5.0 message lengths, frame
  validation and the performance gate verdicts.
- `arbitrator`: the sequencer (window, gap, session and intent logic) with its model
  (`transition`), the stream grammar and watermark laws (`conformance`) and the fidelity law
  (`fidelity`: when frames carry true payloads, every emitted message is the true
  payload of its number), the generation law (`gen_law`: every message carries the
  generation the sequencer holds after its frame), the window laws (`window_law`: what
  Clear-on-Advance empties and what a drain emits), and the intent law (`intent_law`:
  every recovery intent starts at the watermark and asks for a nonempty range of at most
  one wire request).
- `transport`: frame batches, the schedule event order, the pre-rendered and the
  on-demand replay transports with their rendering laws, and AF_XDP ring arithmetic.
- `recovery`: the recovery client state, command payloads and retry accounting.
- `engine`: the latency histogram, the ITCH stream audit, the tail study and the replay
  configuration file reader.
- `testkit`: the golden hash, sinks, the deterministic chaos scheduler, the reference
  arbitrator and the verdict against it, and the answers of the fake and grammar-only
  retransmission servers.

`app/` holds what the verifier does not take: clocks and TSC reads, the counting
allocator, sockets, threads and atomics, AF_XDP memory maps, floating-point statistics,
and the command-line programs (audit, replay, benchmarks, harnesses, servers).

`tests/` runs the library on concrete inputs.
