# hevc_engine

The engine of an HEVC encoder, written in Verus: every executable function is proved
against a mathematical statement of what it computes.

* `src/` is the library.
  * Bits and bytes: `bits`, `bitwriter`, `bitreader`, `nal`, `hvcc`, `hrd`,
    `parameter_sets`.
  * Entropy coding: `cabac`, `cabac_encoder`, `cabac_decoder`, `bins`, `scan`, `residual`,
    `modes`, `slice`.
  * Numerics: `arith`, `matrix`, `transform`, `quant`, `quant_simd`, `inverse`,
    `coded_block`, `colorconv`, `recon_simd`, `rdcost`, `simd`.
  * Pictures: `picture`, `intra`, `partition`, `recon`, `deblock`, `sao`, `sao_search`.
  * Decisions: `rdo`, `decision`, `ratecontrol`.
  * Writers: `pcm` codes a picture losslessly, `lossy` with quantized residual.
  * The read side, as mathematics alone: `fields`, `parameter_reader`, `bin_source`,
    `residual_decoder`, `slice_decoder`, `picture_decoder`, `pcm_decoder`,
    `segment_decoder`, `tile_decoder` and `pcm_stream` say what a decoder makes of a
    stream, and prove that it is what was coded.
  * Laws, which relate several functions: `cabac_laws`, `forks`, `residual_laws`,
    `slice_laws`, `rebuild`, `lossy_laws`, `pcm_laws`, `sao_laws`, `picture_laws`,
    `transform_laws`, `quant_laws`, `orthogonality`,
    `round_trip_laws`, and those that stand beside what they speak of.
* `tests/` runs the library on concrete values; `tests/lossy.rs`, `tests/pcm.rs` and
  `tests/residual.rs` hold a small decoder of their own.
* `app/` is what surrounds the library: it probes the machine, judges sample-adaptive
  offsets in floating point, and gives errors a display.
