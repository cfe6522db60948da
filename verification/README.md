# sglang_mm_core

Image preprocessing for vision-language models, verified with Verus: from decoded
pixels to normalized patches, token layouts, M-RoPE positions and packed requests.

## Layout

- `src/qwen_vl/`: the Qwen VL family. `smart_resize` chooses an image's target size, and
  `block_rounding` bounds what rounding to whole blocks does to its pixels.
- `src/glm_vl/`: the GLM VL family. `geometry` chooses canvas and content, `padding`
  puts the content on the canvas, `decode` and `alpha` turn encoded bytes into an
  upright, opaque image.
- `src/common/`: what the families share. `grid` normalizes and flattens images,
  `token_layout` expands prompts, `mrope` and `placement` number the tokens, `resize`
  says what a resampler has to do.
- `src/grid_packing.rs`, `src/pipeline.rs`: packed requests, and the types that travel
  between the steps.
- `src/binary32.rs`, `src/binary64.rs`: IEEE arithmetic on integers, rounded to
  nearest, with ties to even. `src/rounding_slack.rs` bounds what rounding does to a
  pixel budget, and `src/text.rs` writes decimals.
- `tests/`: tests, many of them against the machine's own floating point.
- `app/`: Python bindings, parameters as JSON, and the services of the embedding
  process.

## What is proved

Sizes are stated over real numbers and their rounding to binary64, so the target sizes
are those of double-precision code, bit for bit, on every accepted input. The same holds of
normalized values in binary32. Proof functions named `law_*` state what holds across
functions: that target sizes keep to their budget, that every pixel appears in the
flattened image and blocks only reorder its patches, that an expanded prompt always has
positions, and so on.

## What is trusted

Decoding, turning an image upright and converting grey to colours are calls into the
`image` crate. Their contracts stand at the wrappers in `src/glm_vl/decode.rs`.
Resampling is done by a function that the caller hands in.
