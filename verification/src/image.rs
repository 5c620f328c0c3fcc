//! Image basics: a row-major grid of pixels with checked access.

use vstd::prelude::*;
use crate::grid::{flat, at, clamp_int, count_of, seq_sum, lemma_flat_bounds, lemma_flat_injective,
    lemma_index_coords, lemma_count_of_take, lemma_seq_sum_update, lemma_seq_sum_zeros};

verus! {

/// Error type for image operations.
#[derive(Debug, Clone, PartialEq, Eq, Structural)]
pub enum ImageError {
    OutOfBounds { x: usize, y: usize, width: usize, height: usize },
    EmptyImage,
    InvalidDimensions,
    DimensionMismatch,
    InvalidKernel,
}

/// The rows of a kernel.
pub open spec fn kernel_rows<K>(kernel: Seq<Vec<K>>) -> Seq<Seq<K>> {
    kernel.map_values(|r: Vec<K>| r@)
}

/// The width of a kernel: the length of its first row (0 without rows).
pub open spec fn kernel_width<K>(kernel: Seq<Vec<K>>) -> int {
    if kernel.len() > 0 {
        kernel[0]@.len() as int
    } else {
        0
    }
}

/// Folding `f` over `items` from `acc` can give `r`: each step is a possible result of `f`.
pub open spec fn folds<A, K, P, F: Fn(A, K, P) -> A>(f: F, acc: A, items: Seq<(K, P)>, r: A) -> bool
    decreases items.len(),
{
    if items.len() == 0 {
        r == acc
    } else {
        exists|a: A| #[trigger] call_ensures(f, (acc, items[0].0, items[0].1), a) && folds(f, a, items.drop_first(), r)
    }
}


/// Folding a single item is one call of `f`.
pub proof fn lemma_folds_single<A, K, P, F: Fn(A, K, P) -> A>(f: F, acc: A, item: (K, P), r: A)
    ensures
        folds(f, acc, seq![item], r) <==> call_ensures(f, (acc, item.0, item.1), r),
{
    let s = seq![item];
    assert(s[0] == item);
    assert(s.drop_first() =~= Seq::<(K, P)>::empty());
    if call_ensures(f, (acc, item.0, item.1), r) {
        assert(call_ensures(f, (acc, s[0].0, s[0].1), r));
        assert(folds(f, r, s.drop_first(), r));
    }
    if folds(f, acc, s, r) {
        let a = choose|a: A| #[trigger] call_ensures(f, (acc, s[0].0, s[0].1), a) && folds(f, a, s.drop_first(), r);
        assert(folds(f, a, s.drop_first(), r));
        assert(a == r);
    }
}

/// Folds run front to back: folding `s1 + s2` folds `s1` first, then continues over `s2` from
/// where `s1` left off.
pub proof fn lemma_folds_append<A, K, P, F: Fn(A, K, P) -> A>(f: F, acc: A, s1: Seq<(K, P)>, s2: Seq<(K, P)>, r: A)
    ensures
        folds(f, acc, s1 + s2, r) <==> exists|mid: A| #[trigger] folds(f, acc, s1, mid) && folds(f, mid, s2, r),
    decreases s1.len(),
{
    if s1.len() == 0 {
        assert(s1 + s2 =~= s2);
        if folds(f, acc, s1 + s2, r) {
            assert(folds(f, acc, s1, acc));
        }
    } else {
        let s = s1 + s2;
        assert(s[0] == s1[0]);
        assert(s.drop_first() =~= s1.drop_first() + s2);
        if folds(f, acc, s, r) {
            let a = choose|a: A| #[trigger] call_ensures(f, (acc, s[0].0, s[0].1), a) && folds(f, a, s.drop_first(), r);
            lemma_folds_append(f, a, s1.drop_first(), s2, r);
            let mid = choose|mid: A| #[trigger] folds(f, a, s1.drop_first(), mid) && folds(f, mid, s2, r);
            assert(folds(f, acc, s1, mid));
        }
        if exists|mid: A| #[trigger] folds(f, acc, s1, mid) && folds(f, mid, s2, r) {
            let mid = choose|mid: A| #[trigger] folds(f, acc, s1, mid) && folds(f, mid, s2, r);
            let a = choose|a: A| #[trigger] call_ensures(f, (acc, s1[0].0, s1[0].1), a) && folds(f, a, s1.drop_first(), mid);
            lemma_folds_append(f, a, s1.drop_first(), s2, r);
            assert(folds(f, a, s.drop_first(), r));
        }
    }
}

/// The shape (rows, columns) of a convolution kernel: it must have at least one row, a non-empty
/// first row, and all rows of the same length; otherwise the kernel is invalid.
pub fn kernel_shape<K>(kernel: &[Vec<K>]) -> (r: Result<(usize, usize), ImageError>)
    ensures
        r is Ok <==> (kernel@.len() > 0 && kernel@[0]@.len() > 0 && forall|i: int|
            0 <= i < kernel@.len() ==> (#[trigger] kernel@[i])@.len() == kernel@[0]@.len()),
        r matches Ok(shape) ==> shape.0 == kernel@.len() && shape.1 == kernel@[0]@.len(),
        r matches Err(e) ==> e == ImageError::InvalidKernel,
{
    let kh = kernel.len();
    if kh == 0 {
        return Err(ImageError::InvalidKernel);
    }
    let kw = kernel[0].len();
    if kw == 0 {
        return Err(ImageError::InvalidKernel);
    }
    let mut i: usize = 0;
    while i < kh
        invariant
            kh == kernel@.len(),
            kw == kernel@[0]@.len(),
            0 <= i <= kh,
            forall|j: int| 0 <= j < i ==> (#[trigger] kernel@[j])@.len() == kw,
        decreases kh - i,
    {
        if kernel[i].len() != kw {
            return Err(ImageError::InvalidKernel);
        }
        i += 1;
    }
    Ok((kh, kw))
}

/// How a window reads positions outside the image.
#[derive(Debug, Clone, Copy)]
pub enum Border<P> {
    /// Every position outside the image reads as this value.
    Constant(P),
    /// A position outside the image reads the nearest pixel on the image's edge.
    Clamp,
}

/// A grayscale image: `width` x `height` pixels stored row-major in `data`.
#[derive(Debug, Clone, PartialEq)]
pub struct GrayImage<P> {
    width: usize,
    height: usize,
    pub data: Vec<P>,
}

impl<P> GrayImage<P> {
    /// The image width.
    pub closed spec fn spec_width(&self) -> usize {
        self.width
    }

    /// The image height.
    pub closed spec fn spec_height(&self) -> usize {
        self.height
    }

    /// The pixels, row-major.
    pub closed spec fn pixels(&self) -> Seq<P> {
        self.data@
    }

    /// The backing data holds exactly one pixel per position.
    pub open spec fn wf(&self) -> bool {
        self.pixels().len() == self.spec_width() * self.spec_height()
    }

    /// Whether (x, y) is a position of the image.
    pub open spec fn in_bounds(&self, x: int, y: int) -> bool {
        0 <= x < self.spec_width() && 0 <= y < self.spec_height()
    }

    /// The pixel at (x, y).
    pub open spec fn pixel(&self, x: int, y: int) -> P {
        self.pixels()[flat(self.spec_width() as int, x, y)]
    }

    /// The pixel at (x, y), or `pad` outside the image.
    pub open spec fn padded(&self, pad: P, x: int, y: int) -> P {
        if self.in_bounds(x, y) {
            self.pixel(x, y)
        } else {
            pad
        }
    }

    /// The pixel read at (x, y) under a border rule: the pixel itself inside the image, and
    /// outside it the constant, or the pixel at the nearest position of the image.
    pub open spec fn bordered(&self, border: Border<P>, x: int, y: int) -> P {
        match border {
            Border::Constant(pad) => self.padded(pad, x, y),
            Border::Clamp => self.pixel(
                clamp_int(x, 0, self.spec_width() - 1),
                clamp_int(y, 0, self.spec_height() - 1),
            ),
        }
    }

    /// The cells of a `kw`-wide kernel, row-major, each paired with the pixel it covers when the
    /// kernel is centred on (x, y): cell (kx, ky) covers (x + kx - kw / 2, y + ky - kh / 2).
    pub open spec fn window_items<K>(&self, rows: Seq<Seq<K>>, kw: int, border: Border<P>, x: int, y: int) -> Seq<(K, P)> {
        Seq::new((rows.len() * kw) as nat, |j: int| (rows[j / kw][j % kw],
            self.bordered(border, x + j % kw - kw / 2, y + j / kw - rows.len() / 2)))
    }

    /// The window of pixel (x, y) lists the kernel cells row by row, each row left to right:
    /// entry `ky * kw + kx` pairs kernel cell (kx, ky) with the pixel read at
    /// (x + kx - kw / 2, y + ky - kh / 2), so cell (0, 0) of a 3 x 3 kernel weighs the pixel
    /// up and to the left of (x, y).
    pub proof fn lemma_window_cell<K>(&self, rows: Seq<Seq<K>>, kw: int, border: Border<P>, x: int, y: int, kx: int, ky: int)
        requires
            0 <= ky < rows.len(),
            0 <= kx < kw,
        ensures
            self.window_items(rows, kw, border, x, y).len() == rows.len() * kw,
            0 <= ky * kw + kx < rows.len() * kw,
            self.window_items(rows, kw, border, x, y)[ky * kw + kx] == (rows[ky][kx],
                self.bordered(border, x + kx - kw / 2, y + ky - rows.len() / 2)),
    {
        lemma_flat_bounds(kw, rows.len() as int, kx, ky);
        lemma_index_coords(kw, rows.len() as int, kx, ky);
        assert(rows.len() * kw >= 0) by (nonlinear_arith)
            requires
                rows.len() >= 0,
                kw >= 0,
        ;
        assert(kw * rows.len() == rows.len() * kw) by (nonlinear_arith);
    }

    pub fn width(&self) -> (w: usize)
        ensures
            w == self.spec_width(),
    {
        self.width
    }

    pub fn height(&self) -> (h: usize)
        ensures
            h == self.spec_height(),
    {
        self.height
    }

    /// Create an image from raw row-major data.
    pub fn from_vec(width: usize, height: usize, data: Vec<P>) -> (r: Result<Self, ImageError>)
        requires
            width * height <= usize::MAX,
        ensures
            r is Ok <==> (width > 0 && height > 0 && data@.len() == width * height),
            r matches Ok(img) ==> {
                &&& img.wf()
                &&& img.spec_width() == width
                &&& img.spec_height() == height
                &&& img.pixels() == data@
            },
            r == Err::<Self, ImageError>(ImageError::InvalidDimensions) <==> (width == 0 || height
                == 0),
            r == Err::<Self, ImageError>(ImageError::DimensionMismatch) <==> (width > 0 && height
                > 0 && data@.len() != width * height),
    {
        if width == 0 || height == 0 {
            return Err(ImageError::InvalidDimensions);
        }
        if data.len() != width * height {
            return Err(ImageError::DimensionMismatch);
        }
        Ok(GrayImage { width, height, data })
    }

    /// Assemble an image from its dimensions and matching row-major data.
    pub(crate) fn from_parts(width: usize, height: usize, data: Vec<P>) -> (img: Self)
        requires
            data@.len() == width * height,
        ensures
            img.wf(),
            img.spec_width() == width,
            img.spec_height() == height,
            img.pixels() == data@,
    {
        GrayImage { width, height, data }
    }

    /// Get mutable access to the raw data.
    pub fn data_mut(&mut self) -> (d: &mut Vec<P>)
        ensures
            d@ == old(self).pixels(),
            final(self).pixels() == final(d)@,
            final(self).spec_width() == old(self).spec_width(),
            final(self).spec_height() == old(self).spec_height(),
    {
        &mut self.data
    }

    /// Get the raw data slice.
    pub fn data(&self) -> (d: &[P])
        ensures
            d@ == self.pixels(),
    {
        self.data.as_slice()
    }
}

impl<P: Copy> GrayImage<P> {
    /// Get pixel value at (x, y).
    pub fn get(&self, x: usize, y: usize) -> (r: Result<P, ImageError>)
        requires
            self.wf(),
        ensures
            self.in_bounds(x as int, y as int) ==> r == Ok::<P, ImageError>(
                self.pixel(x as int, y as int),
            ),
            !self.in_bounds(x as int, y as int) ==> r == Err::<P, ImageError>(
                ImageError::OutOfBounds {
                    x,
                    y,
                    width: self.spec_width(),
                    height: self.spec_height(),
                },
            ),
    {
        if x >= self.width || y >= self.height {
            Err(ImageError::OutOfBounds { x, y, width: self.width, height: self.height })
        } else {
            let _len = self.data.len();
            proof {
                lemma_flat_bounds(self.width as int, self.height as int, x as int, y as int);
            }
            Ok(self.data[y * self.width + x])
        }
    }

    /// Set pixel value at (x, y).
    pub fn set(&mut self, x: usize, y: usize, val: P) -> (r: Result<(), ImageError>)
        requires
            old(self).wf(),
        ensures
            final(self).wf(),
            final(self).spec_width() == old(self).spec_width(),
            final(self).spec_height() == old(self).spec_height(),
            old(self).in_bounds(x as int, y as int) ==> {
                &&& r == Ok::<(), ImageError>(())
                &&& final(self).pixels() == old(self).pixels().update(
                    flat(old(self).spec_width() as int, x as int, y as int),
                    val,
                )
                &&& final(self).pixel(x as int, y as int) == val
                &&& forall|a: int, b: int|
                    old(self).in_bounds(a, b) && !(a == x && b == y) ==> #[trigger] final(self).pixel(a, b)
                        == old(self).pixel(a, b)
            },
            !old(self).in_bounds(x as int, y as int) ==> {
                &&& r == Err::<(), ImageError>(
                    ImageError::OutOfBounds {
                        x,
                        y,
                        width: old(self).spec_width(),
                        height: old(self).spec_height(),
                    },
                )
                &&& final(self).pixels() == old(self).pixels()
            },
    {
        if x >= self.width || y >= self.height {
            Err(ImageError::OutOfBounds { x, y, width: self.width, height: self.height })
        } else {
            let _len = self.data.len();
            proof {
                lemma_flat_bounds(self.width as int, self.height as int, x as int, y as int);
            }
            self.data.set(y * self.width + x, val);
            proof {
                assert forall|a: int, b: int|
                    old(self).in_bounds(a, b) && !(a == x && b == y) implies #[trigger] self.pixel(a, b)
                        == old(self).pixel(a, b) by {
                    lemma_flat_bounds(self.width as int, self.height as int, a, b);
                    if flat(self.width as int, a, b) == flat(self.width as int, x as int, y as int) {
                        lemma_flat_injective(self.width as int, a, b, x as int, y as int);
                    }
                }
            }
            Ok(())
        }
    }

    /// Get pixel with clamp-to-edge boundary handling.
    pub fn get_clamped(&self, x: isize, y: isize) -> (r: P)
        requires
            self.wf(),
            0 < self.spec_width(),
            0 < self.spec_height(),
            self.spec_width() - 1 <= isize::MAX,
            self.spec_height() - 1 <= isize::MAX,
        ensures
            r == self.pixel(
                clamp_int(x as int, 0, self.spec_width() - 1),
                clamp_int(y as int, 0, self.spec_height() - 1),
            ),
    {
        let wm = (self.width - 1) as isize;
        let hm = (self.height - 1) as isize;
        let cx: usize = if x < 0 {
            0
        } else if x > wm {
            wm as usize
        } else {
            x as usize
        };
        let cy: usize = if y < 0 {
            0
        } else if y > hm {
            hm as usize
        } else {
            y as usize
        };
        let _len = self.data.len();
        proof {
            lemma_flat_bounds(self.width as int, self.height as int, cx as int, cy as int);
        }
        self.data[cy * self.width + cx]
    }

    /// Fold `f` over the kernel window of every pixel: for pixel (x, y), starting from `init`,
    /// visit the kernel cells row-major, each with the pixel it covers (read under `border`
    /// outside the image), and combine them with `f`. Convolution, the passes of a separable
    /// convolution, local means, and grayscale erosion and dilation are such folds.
    pub fn fold_windows<A: Copy, K: Copy, F: Fn(A, K, P) -> A>(&self, kernel: &[Vec<K>], border: Border<P>, init: A, f: F) -> (out: GrayImage<A>)
        requires
            self.wf(),
            forall|i: int| 0 <= i < kernel@.len() ==> (#[trigger] kernel@[i])@.len() == kernel_width(kernel@),
            self.spec_width() + kernel_width(kernel@) <= isize::MAX,
            self.spec_height() + kernel@.len() <= isize::MAX,
            forall|a: A, k: K, p: P| call_requires(f, (a, k, p)),
        ensures
            out.wf(),
            out.spec_width() == self.spec_width(),
            out.spec_height() == self.spec_height(),
            forall|x: int, y: int| #[trigger] out.in_bounds(x, y) ==> folds(f, init,
                self.window_items(kernel_rows(kernel@), kernel_width(kernel@), border, x, y), out.pixel(x, y)),
            // The items folded into pixel (x, y): kernel cell (kx, ky), in row-major position
            // ky * kw + kx, with the pixel read at (x + kx - kw / 2, y + ky - kh / 2).
            forall|x: int, y: int, kx: int, ky: int| #![trigger out.pixel(x, y), kernel@[ky]@[kx]]
                out.in_bounds(x, y) && 0 <= ky < kernel@.len() && 0 <= kx < kernel_width(kernel@) ==> {
                    &&& self.window_items(kernel_rows(kernel@), kernel_width(kernel@), border, x, y).len()
                        == kernel@.len() * kernel_width(kernel@)
                    &&& self.window_items(kernel_rows(kernel@), kernel_width(kernel@), border, x, y)[ky
                        * kernel_width(kernel@) + kx] == (kernel@[ky]@[kx], self.bordered(border, x + kx
                        - kernel_width(kernel@) / 2, y + ky - kernel@.len() / 2))
                },
    {
        let w = self.width;
        let h = self.height;
        let kh = kernel.len();
        let kw = if kh > 0 {
            kernel[0].len()
        } else {
            0
        };
        let ghost W = w as int;
        let ghost H = h as int;
        let ghost KW = kw as int;
        let ghost rows = kernel_rows(kernel@);
        let n = self.data.len();
        let cx = (kw / 2) as isize;
        let cy = (kh / 2) as isize;
        let mut data: Vec<A> = Vec::new();
        let mut y: usize = 0;
        while y < h
            invariant
                self.wf(),
                n == self.data@.len(),
                w == self.spec_width(),
                h == self.spec_height(),
                W == w,
                H == h,
                KW == kernel_width(kernel@),
                kh == kernel@.len(),
                kw == KW,
                rows == kernel_rows(kernel@),
                cx == KW / 2,
                cy == kh / 2,
                w + kw <= isize::MAX,
                h + kh <= isize::MAX,
                forall|i: int| 0 <= i < kernel@.len() ==> (#[trigger] kernel@[i])@.len() == kw,
                forall|a: A, k: K, p: P| call_requires(f, (a, k, p)),
                0 <= y <= h,
                data@.len() == y * W,
                forall|a: int, b: int| #![trigger at(data@, W, a, b)] self.in_bounds(a, b) && flat(W, a, b) < data@.len()
                    ==> folds(f, init, self.window_items(rows, KW, border, a, b), at(data@, W, a, b)),
            decreases h - y,
        {
            let mut x: usize = 0;
            while x < w
                invariant
                    self.wf(),
                    n == self.data@.len(),
                    w == self.spec_width(),
                    h == self.spec_height(),
                    W == w,
                    H == h,
                    KW == kernel_width(kernel@),
                    kh == kernel@.len(),
                    kw == KW,
                    rows == kernel_rows(kernel@),
                    cx == KW / 2,
                    cy == kh / 2,
                    w + kw <= isize::MAX,
                    h + kh <= isize::MAX,
                    forall|i: int| 0 <= i < kernel@.len() ==> (#[trigger] kernel@[i])@.len() == kw,
                    forall|a: A, k: K, p: P| call_requires(f, (a, k, p)),
                    0 <= y < h,
                    0 <= x <= w,
                    data@.len() == y * W + x,
                    forall|a: int, b: int| #![trigger at(data@, W, a, b)] self.in_bounds(a, b) && flat(W, a, b) < data@.len()
                        ==> folds(f, init, self.window_items(rows, KW, border, a, b), at(data@, W, a, b)),
                decreases w - x,
            {
                let ghost items = self.window_items(rows, KW, border, x as int, y as int);
                let mut acc = init;
                proof {
                    assert(items.skip(0) =~= items);
                }
                let mut ky: usize = 0;
                while ky < kh
                    invariant
                        self.wf(),
                        n == self.data@.len(),
                        w == self.spec_width(),
                        h == self.spec_height(),
                        W == w,
                        H == h,
                        KW == kernel_width(kernel@),
                        kh == kernel@.len(),
                        kw == KW,
                        rows == kernel_rows(kernel@),
                        cx == KW / 2,
                        cy == kh / 2,
                        w + kw <= isize::MAX,
                        h + kh <= isize::MAX,
                        x < w,
                        y < h,
                        forall|i: int| 0 <= i < kernel@.len() ==> (#[trigger] kernel@[i])@.len() == kw,
                        forall|a: A, k: K, p: P| call_requires(f, (a, k, p)),
                        items == self.window_items(rows, KW, border, x as int, y as int),
                        0 <= ky <= kh,
                        forall|r: A| #[trigger] folds(f, acc, items.skip(ky * KW), r) ==> folds(f, init, items, r),
                    decreases kh - ky,
                {
                    let mut kx: usize = 0;
                    while kx < kw
                        invariant
                            self.wf(),
                            n == self.data@.len(),
                            w == self.spec_width(),
                            h == self.spec_height(),
                            W == w,
                            H == h,
                            KW == kernel_width(kernel@),
                            kh == kernel@.len(),
                            kw == KW,
                            rows == kernel_rows(kernel@),
                            cx == KW / 2,
                            cy == kh / 2,
                            w + kw <= isize::MAX,
                            h + kh <= isize::MAX,
                            x < w,
                            y < h,
                            ky < kh,
                            forall|i: int| 0 <= i < kernel@.len() ==> (#[trigger] kernel@[i])@.len() == kw,
                            forall|a: A, k: K, p: P| call_requires(f, (a, k, p)),
                            items == self.window_items(rows, KW, border, x as int, y as int),
                            0 <= kx <= kw,
                            forall|r: A| #[trigger] folds(f, acc, items.skip(ky * KW + kx), r) ==> folds(f, init, items, r),
                        decreases kw - kx,
                    {
                        let ix = x as isize + kx as isize - cx;
                        let iy = y as isize + ky as isize - cy;
                        let v = match border {
                            Border::Constant(pad) => if ix >= 0 && iy >= 0 && (ix as usize) < w && (iy as usize) < h {
                                proof {
                                    lemma_flat_bounds(W, H, ix as int, iy as int);
                                }
                                self.data[iy as usize * w + ix as usize]
                            } else {
                                pad
                            },
                            Border::Clamp => self.get_clamped(ix, iy),
                        };
                        let cell = kernel[ky][kx];
                        let ghost j = ky * KW + kx;
                        proof {
                            lemma_flat_bounds(KW, kh as int, kx as int, ky as int);
                            lemma_index_coords(KW, kh as int, kx as int, ky as int);
                            assert(j < items.len()) by (nonlinear_arith)
                                requires
                                    j == ky * KW + kx,
                                    items.len() == kh * KW,
                                    0 <= kx < KW,
                                    0 <= ky < kh,
                            ;
                            assert(items[j] == (cell, v));
                        }
                        let acc2 = f(acc, cell, v);
                        proof {
                            let rest = items.skip(j);
                            assert(rest[0] == (cell, v));
                            assert(rest.drop_first() =~= items.skip(j + 1));
                            assert forall|r: A| #[trigger] folds(f, acc2, items.skip(ky * KW + kx + 1), r) implies folds(f, init, items, r) by {
                                assert(call_ensures(f, (acc, rest[0].0, rest[0].1), acc2));
                                assert(folds(f, acc, rest, r));
                            }
                        }
                        acc = acc2;
                        kx += 1;
                    }
                    proof {
                        assert((ky + 1) * KW == ky * KW + KW) by (nonlinear_arith);
                    }
                    ky += 1;
                }
                proof {
                    assert(items.len() == kh * KW);
                    assert(items.skip(kh * KW).len() == 0);
                    assert(folds(f, acc, items.skip(kh * KW), acc));
                }
                let ghost D0 = data@;
                data.push(acc);
                proof {
                    lemma_flat_bounds(W, H, x as int, y as int);
                    assert forall|a: int, b: int| #![trigger at(data@, W, a, b)] self.in_bounds(a, b) && flat(W, a, b) < data@.len()
                        implies folds(f, init, self.window_items(rows, KW, border, a, b), at(data@, W, a, b)) by {
                        if flat(W, a, b) < D0.len() {
                            assert(at(data@, W, a, b) == at(D0, W, a, b));
                        } else {
                            lemma_flat_injective(W, a, b, x as int, y as int);
                        }
                    }
                }
                x += 1;
            }
            proof {
                assert((y + 1) * W == y * W + W) by (nonlinear_arith);
            }
            y += 1;
        }
        proof {
            assert(H * W == W * H) by (nonlinear_arith);
        }
        let out = GrayImage { width: w, height: h, data };
        proof {
            assert forall|a: int, b: int, kx: int, ky: int| #![trigger out.pixel(a, b), kernel@[ky]@[kx]]
                out.in_bounds(a, b) && 0 <= ky < kernel@.len() && 0 <= kx < KW implies {
                    &&& self.window_items(rows, KW, border, a, b).len() == kernel@.len() * KW
                    &&& self.window_items(rows, KW, border, a, b)[ky * KW + kx] == (kernel@[ky]@[kx],
                        self.bordered(border, a + kx - KW / 2, b + ky - kernel@.len() / 2))
                } by {
                self.lemma_window_cell(rows, KW, border, a, b, kx, ky);
                assert(rows[ky] == kernel@[ky]@);
            }
            assert forall|a: int, b: int| #[trigger] out.in_bounds(a, b) implies folds(f, init,
                self.window_items(rows, KW, border, a, b), out.pixel(a, b)) by {
                lemma_flat_bounds(W, H, a, b);
                assert(at(data@, W, a, b) == out.pixel(a, b));
            }
        }
        out
    }

    /// Map every pixel through a function.
    pub fn map<Q, F: Fn(P) -> Q>(&self, f: F) -> (out: GrayImage<Q>)
        requires
            self.wf(),
            forall|i: int| 0 <= i < self.pixels().len() ==> call_requires(f, (self.pixels()[i],)),
        ensures
            out.wf(),
            out.spec_width() == self.spec_width(),
            out.spec_height() == self.spec_height(),
            forall|i: int|
                0 <= i < self.pixels().len() ==> call_ensures(
                    f,
                    (self.pixels()[i],),
                    #[trigger] out.pixels()[i],
                ),
    {
        let n = self.data.len();
        let mut data: Vec<Q> = Vec::new();
        let mut i: usize = 0;
        while i < n
            invariant
                n == self.pixels().len(),
                self.pixels() == self.data@,
                0 <= i <= n,
                data@.len() == i,
                forall|k: int| 0 <= k < n ==> call_requires(f, (self.pixels()[k],)),
                forall|k: int|
                    0 <= k < i ==> call_ensures(f, (self.pixels()[k],), #[trigger] data@[k]),
            decreases n - i,
        {
            let v = f(self.data[i]);
            data.push(v);
            i += 1;
        }
        GrayImage { width: self.width, height: self.height, data }
    }

    /// Element-wise combination of two images of the same dimensions.
    pub fn zip_with<Q: Copy, R, F: Fn(P, Q) -> R>(&self, other: &GrayImage<Q>, f: F) -> (r: Result<
        GrayImage<R>,
        ImageError,
    >)
        requires
            self.wf(),
            other.wf(),
            forall|i: int|
                0 <= i < self.pixels().len() && i < other.pixels().len() ==> call_requires(
                    f,
                    (self.pixels()[i], other.pixels()[i]),
                ),
        ensures
            r is Err <==> (self.spec_width() != other.spec_width() || self.spec_height()
                != other.spec_height()),
            r matches Err(e) ==> e == ImageError::DimensionMismatch,
            r matches Ok(out) ==> {
                &&& out.wf()
                &&& out.spec_width() == self.spec_width()
                &&& out.spec_height() == self.spec_height()
                &&& forall|i: int|
                    0 <= i < self.pixels().len() ==> call_ensures(
                        f,
                        (self.pixels()[i], other.pixels()[i]),
                        #[trigger] out.pixels()[i],
                    )
            },
    {
        if self.width != other.width || self.height != other.height {
            return Err(ImageError::DimensionMismatch);
        }
        let n = self.data.len();
        let mut data: Vec<R> = Vec::new();
        let mut i: usize = 0;
        while i < n
            invariant
                n == self.pixels().len(),
                n == other.pixels().len(),
                self.pixels() == self.data@,
                other.pixels() == other.data@,
                0 <= i <= n,
                data@.len() == i,
                forall|k: int|
                    0 <= k < n ==> call_requires(f, (self.pixels()[k], other.pixels()[k])),
                forall|k: int|
                    0 <= k < i ==> call_ensures(
                        f,
                        (self.pixels()[k], other.pixels()[k]),
                        #[trigger] data@[k],
                    ),
            decreases n - i,
        {
            let v = f(self.data[i], other.data[i]);
            data.push(v);
            i += 1;
        }
        Ok(GrayImage { width: self.width, height: self.height, data })
    }
}

impl<P: Copy + Default> GrayImage<P> {
    /// Create a new blank image: every pixel holds the pixel type's default value
    /// (zero for numeric pixels).
    pub fn new(width: usize, height: usize) -> (img: Self)
        requires
            width * height <= usize::MAX,
        ensures
            img.wf(),
            img.spec_width() == width,
            img.spec_height() == height,
            forall|i: int|
                0 <= i < img.pixels().len() ==> call_ensures(P::default, (), #[trigger] img.pixels()[i]),
            forall|i: int| 0 <= i < img.pixels().len() ==> #[trigger] img.pixels()[i] == img.pixels()[0],
    {
        let z = P::default();
        let n = width * height;
        let mut data: Vec<P> = Vec::new();
        let mut i: usize = 0;
        while i < n
            invariant
                0 <= i <= n,
                data@.len() == i,
                call_ensures(P::default, (), z),
                forall|k: int| 0 <= k < i ==> #[trigger] data@[k] == z,
            decreases n - i,
        {
            data.push(z);
            i += 1;
        }
        GrayImage { width, height, data }
    }

    /// Get pixel with zero-padding boundary handling: outside the image the
    /// pixel type's default value is read.
    pub fn get_padded(&self, x: isize, y: isize) -> (r: P)
        requires
            self.wf(),
        ensures
            self.in_bounds(x as int, y as int) ==> r == self.pixel(x as int, y as int),
            !self.in_bounds(x as int, y as int) ==> call_ensures(P::default, (), r),
    {
        if x < 0 || y < 0 || x as usize >= self.width || y as usize >= self.height {
            P::default()
        } else {
            let _len = self.data.len();
            proof {
                lemma_flat_bounds(self.width as int, self.height as int, x as int, y as int);
            }
            self.data[y as usize * self.width + x as usize]
        }
    }
}

impl<P: From<u8>> GrayImage<P> {
    /// Create from u8 pixel data, converting each byte to a pixel.
    pub fn from_u8(width: usize, height: usize, data: &[u8]) -> (r: Result<Self, ImageError>)
        requires
            width * height <= usize::MAX,
        ensures
            r is Ok <==> (width > 0 && height > 0 && data@.len() == width * height),
            r matches Ok(img) ==> {
                &&& img.wf()
                &&& img.spec_width() == width
                &&& img.spec_height() == height
                &&& forall|i: int|
                    0 <= i < data@.len() ==> call_ensures(
                        P::from,
                        (data@[i],),
                        #[trigger] img.pixels()[i],
                    )
            },
            r == Err::<Self, ImageError>(ImageError::InvalidDimensions) <==> (width == 0 || height
                == 0),
            r == Err::<Self, ImageError>(ImageError::DimensionMismatch) <==> (width > 0 && height
                > 0 && data@.len() != width * height),
    {
        if width == 0 || height == 0 {
            return Err(ImageError::InvalidDimensions);
        }
        if data.len() != width * height {
            return Err(ImageError::DimensionMismatch);
        }
        let n = data.len();
        let mut out: Vec<P> = Vec::new();
        let mut i: usize = 0;
        while i < n
            invariant
                n == data@.len(),
                0 <= i <= n,
                out@.len() == i,
                forall|k: int| 0 <= k < i ==> call_ensures(P::from, (data@[k],), #[trigger] out@[k]),
            decreases n - i,
        {
            out.push(P::from(data[i]));
            i += 1;
        }
        Ok(GrayImage { width, height, data: out })
    }
}

impl GrayImage<u8> {
    /// Compute the histogram (256 bins) of an 8-bit image: bin `b` counts the pixels of value `b`.
    pub fn histogram(&self) -> (hist: [usize; 256])
        requires
            self.wf(),
        ensures
            forall|b: int| 0 <= b < 256 ==> #[trigger] hist@[b] == count_of(self.pixels(), b as u8),
            seq_sum(hist@) == self.pixels().len(),
    {
        let mut hist = [0usize; 256];
        proof {
            lemma_seq_sum_zeros(hist@);
        }
        let n = self.data.len();
        let mut i: usize = 0;
        while i < n
            invariant
                n == self.data@.len(),
                0 <= i <= n,
                hist@.len() == 256,
                forall|b: int| 0 <= b < 256 ==> #[trigger] hist@[b] == count_of(self.data@.take(i as int), b as u8),
                seq_sum(hist@) == i,
            decreases n - i,
        {
            let v = self.data[i];
            proof {
                assert forall|b: int| 0 <= b < 256 implies #[trigger] count_of(self.data@.take(i + 1), b as u8)
                    == count_of(self.data@.take(i as int), b as u8) + if self.data@[i as int] == b as u8 { 1nat } else { 0nat } by {
                    lemma_count_of_take(self.data@, i as int, b as u8);
                }
                lemma_count_of_take(self.data@, i as int, v);
            }
            let c = hist[v as usize];
            proof {
                lemma_seq_sum_update(hist@, v as int, (c + 1) as usize);
            }
            hist.set(v as usize, c + 1);
            proof {
                assert forall|b: int| 0 <= b < 256 implies #[trigger] hist@[b] == count_of(self.data@.take(i + 1), b as u8) by {
                    if b != v as int {
                        assert(b as u8 != v);
                    }
                }
            }
            i += 1;
        }
        proof {
            assert(self.data@.take(n as int) =~= self.data@);
        }
        hist
    }
}

} // verus!
