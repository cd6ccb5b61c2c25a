# nicompiler_backend

Compiles timed output instructions for National Instruments (NI) DAQ devices into
continuous per-channel instruction streams, merges digital lines into port values, and
plans the chunked streaming of the result. The library in `src/` is verified with Verus;
`app/` holds what surrounds it: floating-point times and values, the NI-DAQmx driver,
worker threads and the Python module.

## Layout

- `src/instruction.rs` — instructions (constant, sine) and instruction books placed on the
  clock grid.
- `src/stream.rs` — compiled streams: segment ends and instructions, canonical form,
  uniqueness.
- `src/channel.rs` — a channel's edit cache (sorted, non-overlapping) and its compilation;
  the closing-edge and reset laws; the buffer plan of a sampling window.
- `src/device.rs` — a device's channels and settings, compilation to a common stop
  (with the extra closing-edge sample) and the DO port merge.
- `src/ports.rs` — sorted unions of segment ends, port sums and the bit law of port values.
- `src/experiment.rs` — the registry of an experiment's devices.
- `src/worker.rs` — the command broadcast protocol, start-trigger roles, worker errors.
- `src/utils.rs` — channel-name parsing, the stream counter and the semaphore count.
- `src/value.rs` — binary64 bit patterns of digital levels and small integers.
- `src/maps.rs` — the contracts of the `indexmap` and `regex` calls.

Sample values are kept as binary64 bit patterns (`u64`); times are clock ticks (`usize`).
