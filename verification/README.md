# oporus

A fixed-point CELT decoder, the encoder of its band shapes, and the command-line
tools around them, with contracts that Verus proves.

- `src/range_decoder.rs`, `src/range_encoder.rs`: the range coder. `src/coder_laws.rs`
  proves that whatever symbols fit a packet are read back.
- `src/pvq.rs`, `src/pvq_encode.rs`: the pyramid vector quantiser; `src/pvq_counts.rs`
  counts its vectors in closed form.
- `src/mode.rs`, `src/mode_tables.rs`: modes and the tables of the canonical one,
  which `src/mode_laws.rs` proves to be well formed.
- `src/theta.rs`, `src/band_decode.rs`, `src/band_tf.rs`, `src/band_stereo.rs`,
  `src/all_bands.rs`: decoding of band shapes; `src/analysis.rs`,
  `src/band_encode.rs`, `src/stereo_encode.rs`, `src/bands_encode.rs`: encoding.
  `src/band_laws.rs` and `src/shape_laws.rs` prove that the decoder reconstructs
  what the encoder reconstructed.
- `src/energy.rs`, `src/allocation.rs`, `src/header.rs`, `src/frame.rs`: the head
  of a frame.
- `src/mdct.rs`, `src/synthesis.rs`, `src/memory.rs`, `src/comb.rs`,
  `src/collapse.rs`, `src/spectrum.rs`: from shapes to samples.
  `src/spectrum_laws.rs` and `src/division_laws.rs` state what normalising does to
  a spectrum, and how closely.
- `src/lpc.rs`, `src/pitch.rs`, `src/plc.rs`, `src/concealment.rs`: concealment of
  lost frames.
- `src/decoder.rs`, `src/decode.rs`, `src/laws.rs`: the decoder, its settings and
  what holds of it over any sequence of packets.
- `src/bench_args.rs`, `src/corpus.rs`, `src/vectors.rs`, `src/text.rs`: arguments
  and file formats of the tools in `app/`.
