# oxideav-image-filter

Pixel-level image filters for 8-bit video frames (Gray8, packed RGB/RGBA,
planar YUV), with the integer kernels written and proved in Verus.

- `src/` — the verified library. Each filter states its output exactly
  (`*_pixels`, `*_frame`, `*_plane` spec functions) and is proved to
  produce it: negate, posterize (uniform and per channel), quantize,
  pixelate, Prewitt edges, the paint (oil) filter, Otsu's threshold,
  auto-levels (histogram, cut points, stretch) and the edge-clamped box
  sums behind Niblack's threshold. Public proof functions state the
  library's laws (negating twice is the identity, 256 posterize levels
  change nothing, the palette keeps black and white, a flat picture has
  no Prewitt edges, Otsu splits two modes between them, …).
- `tests/` — executable tests of the library.
- `app/` — runtime integration: conversions to and from `oxideav_core`
  frames, the `ImageFilter` interface, the floating-point filters
  (Reinhard tone mapping, Niblack, the auto-levels driver, perspective
  homography) and the filter-registry factories.
