# lau_computer_vision

Computer vision fundamentals with a formally verified discrete core.

`src/` is the verified library (Verus):

- `image` — `GrayImage<P>`, a row-major pixel grid with checked access (`get`, `set`,
  zero-padded and clamped reads), construction from vectors and bytes, `map`, `zip_with`,
  window folds under a constant or clamp-to-edge border (the traversal behind convolution,
  local means and grayscale morphology), the 8-bit histogram, and convolution-kernel shape
  checking; `ImageError`.
- `morphology` — structuring elements (square, cross, custom).
- `segmentation` — 4-connected component labeling of a binary mask, and marker flooding
  (the watershed rounds) over marker kinds.
- `filter` — hysteresis thresholding of classified edge pixels (the last stage of Canny).
- `transform` — the Hough accumulator: voting and peak extraction with non-maximum
  suppression.

`app/` holds the floating-point operations on `GrayImage<f64>` built on that core: blurs,
Sobel/Canny, grayscale morphology, Harris and blob features, affine transforms, Hough line
geometry, thresholding, stereo (with `nalgebra`) and Lucas–Kanade optical flow, plus the
serde form of images and displayable errors.

`tests/` exercises the library.
