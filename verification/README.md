# bitmapflow-cli

Generates inbetween frames for sprite animations with optical flow: a
spritesheet is cut into frames, inbetweens are warped along the flow between
neighbouring frames, and the frames are laid out on a new spritesheet.

- `src/` is the verified library (Verus):
  - `raster.rs`: the mathematical model of an RGBA image and its grid arithmetic;
  - `frame.rs`: the frame type (packed RGBA bytes) and the calls into the
    `image` crate that crop and overlay images;
  - `spritesheet.rs`: cutting a sheet into frames, laying frames out on a
    sheet, and the proof that cutting an assembled sheet gives the frames back;
  - `interpolation.rs`: the schedule of output frames, the BGR view handed to
    the flow solver, and the warp of a frame by per-pixel sample positions;
  - `algorithm.rs`: choosing the flow algorithm by name.
- `app/` is the command-line program: argument parsing, PNG reading and
  writing, the OpenCV flow solvers, the floating-point sample positions, and
  JSON output.
- `tests/` exercises the library.
