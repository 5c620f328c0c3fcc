//! Row-major grids: positions, indices, and counting over sequences.

use vstd::prelude::*;

verus! {

/// Row-major position of pixel (x, y) in an image of the given width.
pub open spec fn flat(width: int, x: int, y: int) -> int {
    y * width + x
}

/// A pixel position inside a `width` x `height` grid lies inside the backing sequence.
pub proof fn lemma_flat_bounds(width: int, height: int, x: int, y: int)
    requires
        0 <= x < width,
        0 <= y < height,
    ensures
        0 <= flat(width, x, y) < width * height,
        flat(width, x, y) + 1 <= width * height,
        flat(width, x, y) - x == y * width,
{
    assert(0 <= y * width) by (nonlinear_arith)
        requires
            0 <= y,
            0 <= width,
    ;
    assert((y + 1) * width <= height * width) by (nonlinear_arith)
        requires
            y + 1 <= height,
            0 <= width,
    ;
    assert((y + 1) * width == y * width + width) by (nonlinear_arith);
    assert(height * width == width * height) by (nonlinear_arith);
}

/// Distinct in-bounds positions have distinct row-major indices.
pub proof fn lemma_flat_injective(width: int, x1: int, y1: int, x2: int, y2: int)
    requires
        0 <= x1 < width,
        0 <= x2 < width,
        0 <= y1,
        0 <= y2,
        flat(width, x1, y1) == flat(width, x2, y2),
    ensures
        x1 == x2,
        y1 == y2,
{
    if y1 < y2 {
        assert(y1 * width + width <= y2 * width) by (nonlinear_arith)
            requires
                y1 + 1 <= y2,
                0 <= width,
        ;
    } else if y2 < y1 {
        assert(y2 * width + width <= y1 * width) by (nonlinear_arith)
            requires
                y2 + 1 <= y1,
                0 <= width,
        ;
    }
}

/// Number of entries of `s` equal to `v`.
pub open spec fn count_of<T>(s: Seq<T>, v: T) -> nat
    decreases s.len(),
{
    if s.len() == 0 {
        0
    } else {
        count_of(s.drop_last(), v) + if s.last() == v {
            1nat
        } else {
            0nat
        }
    }
}

/// Overwriting one entry equal to `v` with another value lowers the count of `v` by one.
pub proof fn lemma_count_of_update<T>(s: Seq<T>, i: int, v: T, u: T)
    requires
        0 <= i < s.len(),
        s[i] == v,
        u != v,
    ensures
        count_of(s.update(i, u), v) + 1 == count_of(s, v),
    decreases s.len(),
{
    let t = s.update(i, u);
    if i == s.len() - 1 {
        assert(t.drop_last() =~= s.drop_last());
    } else {
        assert(t.drop_last() =~= s.drop_last().update(i, u));
        lemma_count_of_update(s.drop_last(), i, v, u);
    }
}

/// Counting over a growing prefix.
pub proof fn lemma_count_of_take<T>(s: Seq<T>, i: int, v: T)
    requires
        0 <= i < s.len(),
    ensures
        count_of(s.take(i + 1), v) == count_of(s.take(i), v) + if s[i] == v {
            1nat
        } else {
            0nat
        },
        count_of(s.take(i), v) <= i,
    decreases i,
{
    assert(s.take(i + 1).drop_last() =~= s.take(i));
    if i > 0 {
        lemma_count_of_take(s, i - 1, v);
    } else {
        assert(s.take(0).len() == 0);
    }
}

/// Sum of a sequence of counts.
pub open spec fn seq_sum(s: Seq<usize>) -> int
    decreases s.len(),
{
    if s.len() == 0 {
        0
    } else {
        seq_sum(s.drop_last()) + s.last()
    }
}

/// Replacing one entry changes the sum by the difference.
pub proof fn lemma_seq_sum_update(s: Seq<usize>, i: int, v: usize)
    requires
        0 <= i < s.len(),
    ensures
        seq_sum(s.update(i, v)) == seq_sum(s) - s[i] + v,
    decreases s.len(),
{
    let t = s.update(i, v);
    if i == s.len() - 1 {
        assert(t.drop_last() =~= s.drop_last());
    } else {
        assert(t.drop_last() =~= s.drop_last().update(i, v));
        lemma_seq_sum_update(s.drop_last(), i, v);
    }
}

/// A sequence of zeros sums to zero.
pub proof fn lemma_seq_sum_zeros(s: Seq<usize>)
    requires
        forall|i: int| 0 <= i < s.len() ==> #[trigger] s[i] == 0,
    ensures
        seq_sum(s) == 0,
    decreases s.len(),
{
    if s.len() > 0 {
        lemma_seq_sum_zeros(s.drop_last());
    }
}

/// (x, y) is a position of a `w` x `h` grid.
pub open spec fn in_grid(w: int, h: int, x: int, y: int) -> bool {
    0 <= x < w && 0 <= y < h
}

/// Entry (x, y) of a row-major sequence.
pub open spec fn at<T>(s: Seq<T>, w: int, x: int, y: int) -> T {
    s[flat(w, x, y)]
}

/// The grid position of a row-major index.
pub proof fn lemma_coords(w: int, h: int, i: int) -> (p: (int, int))
    requires
        0 <= w,
        0 <= h,
        0 <= i < w * h,
    ensures
        in_grid(w, h, p.0, p.1),
        flat(w, p.0, p.1) == i,
        p.0 == i % w,
        p.1 == i / w,
{
    assert(w > 0) by (nonlinear_arith)
        requires
            0 <= w,
            0 <= h,
            0 <= i < w * h,
    ;
    assert(h > 0) by (nonlinear_arith)
        requires
            0 <= w,
            0 <= h,
            0 <= i < w * h,
    ;
    vstd::arithmetic::div_mod::lemma_fundamental_div_mod(i, w);
    vstd::arithmetic::div_mod::lemma_mod_pos_bound(i, w);
    vstd::arithmetic::div_mod::lemma_div_pos_is_pos(i, w);
    vstd::arithmetic::div_mod::lemma_multiply_divide_lt(i, w, h);
    assert(w * (i / w) == (i / w) * w) by (nonlinear_arith);
    (i % w, i / w)
}

/// The row-major index of an in-grid position gives back the position.
pub proof fn lemma_index_coords(w: int, h: int, x: int, y: int)
    requires
        in_grid(w, h, x, y),
    ensures
        flat(w, x, y) % w == x,
        flat(w, x, y) / w == y,
{
    vstd::arithmetic::div_mod::lemma_fundamental_div_mod_converse(flat(w, x, y), w, y, x);
}

/// The value `v` limited to the closed range `[lo, hi]`.
pub open spec fn clamp_int(v: int, lo: int, hi: int) -> int {
    if v < lo {
        lo
    } else if v > hi {
        hi
    } else {
        v
    }
}

} // verus!
