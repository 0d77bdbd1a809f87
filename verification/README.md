# image_processor

A command line image processor with two filters, a box blur and a mirror,
whose pixel logic is a Verus-verified library.

- `src/raster.rs`: layout of a row-major RGBA buffer and the index lemmas.
- `src/blur.rs`: the box blur, its specification (`rounds`, `blurred`,
  `blur_fails`) and its laws (channel ranges are kept, uniform images are
  fixed points, channels are independent, rounds compose, small windows
  never overflow).
- `src/mirror.rs`: the mirror, its specification (`mirrored`) and its laws
  (each flip undoes itself, the flips commute, mirroring twice restores).
- `src/symmetry.rs`: blurring and mirroring commute.
- `src/plugin.rs`: status codes and the framing of the textual parameters.
- `app/`: the command line program and the filters' C entry points; JSON
  parameters are read there with serde.
