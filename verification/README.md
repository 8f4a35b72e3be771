# stegsolve-rs

Steganography analysis of images, verified with Verus.

## Layout

- `src/analysis/` — the analysis itself
  - `pixels.rs`: `RgbaImage`, an RGBA8 image held as plain bytes, and its value `ImageView`
  - `extract.rs`: extraction of the bits selected by a 32-bit mask, packed into bytes
  - `full_channel.rs`: a mask that selects a whole channel gives back that channel's bytes
  - `filters.rs`: the cycle of 37 filter modes, per-pixel filters, the mask overlay and its blend
  - `rounding.rs`: binary32 rounding on fixed-point integers, used by the grayscale filter and the blend
  - `loader.rs`: decoding of image files into frames through the `image` crate
- `src/presentation/` — hex, ASCII and binary renderings of data, the stereo view, string helpers
- `src/ui/` — the session state (`AppState`) and what the interface displays and copies
- `tests/` — tests of the library, including exhaustive comparisons of the grayscale and
  blend arithmetic with single-precision floats
- `app/` — a command-line front end: file reading, PNG export, output to the terminal and
  persistence of the colour scheme with `confy`

Each public function of `src/` states its result in its `ensures` clause over spec
functions on `ImageView`, `Seq<u8>` and `Seq<char>`. Calls into the `image` crate are
made through a few trusted wrappers in `loader.rs`, whose decoded results are named by
uninterpreted spec functions.
