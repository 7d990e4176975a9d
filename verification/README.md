# csound_plugin

The verified core of an audio plugin that hosts a Csound orchestra.

- `src/ring.rs` — the power-of-two ring buffer of `bit_mask_ring_buf`, seen
  through the sequence of `u64` sample words it holds.
- `src/buffer.rs` — `ProcessorBuffers`: the input and output rings with their
  cursors, and the laws that make them queues.
- `src/csd_info.rs` — finding the orchestra text of a CSD document (with
  `quick-xml`) and reading `nchnls` / `nchnls_i` from its header.
- `src/processor.rs` — cutting a host buffer into blocks around timed events,
  routing by input channel count, and interleaving samples into the rings.
- `app/` — the plugin glue: the Csound engine, host buffers and events,
  floating-point scaling, parameters and the editor.

Samples travel through the library as the bit patterns of `f64` values; the
application converts them with `f64::to_bits` and `f64::from_bits`.
