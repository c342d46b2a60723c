# dehaze

Image and video dehazing with the dark channel prior.

- `src/` is the library, checked with Verus. Binary32 samples are handled as
  their bit patterns, so that everything that compares, ranks or selects
  samples is proved: the sliding-window minimum and the dark channel (with
  binary32 `<=` as the comparison, so the result is stated for NaN samples
  too), the ranking of airlight candidates and the choice of the best one,
  the block layout and offset choice of motion estimation, clamping, the
  command-line settings, the frame selection of the evaluation commands, the
  frame counter and blending decision of the temporal processor, metrics
  bookkeeping, image-file recognition and scene grouping, and the downscaling
  of decoded frames through the `image` crate.
- `app/` is the command-line program: file and video I/O (`image`, `ffmpeg`),
  the Python neural backend, argument parsing (`clap`) and the floating-point
  arithmetic of the pipeline (transmission, guided filter, recovery, metrics),
  which calls the library for the parts above.
- `tests/` exercises the library on concrete values.
