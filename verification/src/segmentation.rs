//! Segmentation: connected components of a binary mask, and marker flooding.

use vstd::prelude::*;
use crate::image::GrayImage;
use crate::grid::{flat, in_grid, at, lemma_coords, lemma_index_coords, lemma_flat_bounds, lemma_flat_injective, count_of,
    lemma_count_of_update};

verus! {

/// (x, y) is a foreground pixel of the row-major mask `fg` of a `w` x `h` grid.
pub open spec fn is_fg(fg: Seq<bool>, w: int, h: int, x: int, y: int) -> bool {
    in_grid(w, h, x, y) && fg[flat(w, x, y)]
}

/// If (x, y) is a foreground member of `s`, so is each of its foreground 4-neighbours.
pub open spec fn closed4_at(fg: Seq<bool>, w: int, h: int, s: Set<(int, int)>, x: int, y: int) -> bool {
    (s.contains((x, y)) && is_fg(fg, w, h, x, y)) ==> {
        &&& (is_fg(fg, w, h, x - 1, y) ==> s.contains((x - 1, y)))
        &&& (is_fg(fg, w, h, x + 1, y) ==> s.contains((x + 1, y)))
        &&& (is_fg(fg, w, h, x, y - 1) ==> s.contains((x, y - 1)))
        &&& (is_fg(fg, w, h, x, y + 1) ==> s.contains((x, y + 1)))
    }
}

/// `s` is closed under 4-adjacency between foreground pixels.
pub open spec fn closed4(fg: Seq<bool>, w: int, h: int, s: Set<(int, int)>) -> bool {
    forall|x: int, y: int| #[trigger] closed4_at(fg, w, h, s, x, y)
}

/// (x, y) is 4-connected to (sx, sy) through foreground pixels: it belongs to every
/// adjacency-closed set that contains (sx, sy).
pub open spec fn connected4(fg: Seq<bool>, w: int, h: int, sx: int, sy: int, x: int, y: int) -> bool {
    forall|s: Set<(int, int)>| #[trigger] closed4(fg, w, h, s) && s.contains((sx, sy)) ==> s.contains((x, y))
}

/// A foreground 4-neighbour of a pixel connected to the seed is connected to the seed.
pub proof fn lemma_connected4_step(fg: Seq<bool>, w: int, h: int, sx: int, sy: int, x: int, y: int, nx: int, ny: int)
    requires
        connected4(fg, w, h, sx, sy, x, y),
        is_fg(fg, w, h, x, y),
        is_fg(fg, w, h, nx, ny),
        (nx == x && (ny == y - 1 || ny == y + 1)) || (ny == y && (nx == x - 1 || nx == x + 1)),
    ensures
        connected4(fg, w, h, sx, sy, nx, ny),
{
    assert forall|s: Set<(int, int)>| #[trigger] closed4(fg, w, h, s) && s.contains((sx, sy)) implies s.contains((nx, ny)) by {
        assert(closed4_at(fg, w, h, s, x, y));
    }
}

/// The label of pixel (x, y).
spec fn lab(labels: Seq<usize>, w: int, x: int, y: int) -> usize {
    labels[flat(w, x, y)]
}

/// Every foreground 4-neighbour of (x, y) carries a label.
spec fn nbrs_labeled(fg: Seq<bool>, labels: Seq<usize>, w: int, h: int, x: int, y: int) -> bool {
    &&& (is_fg(fg, w, h, x - 1, y) ==> lab(labels, w, x - 1, y) != 0)
    &&& (is_fg(fg, w, h, x + 1, y) ==> lab(labels, w, x + 1, y) != 0)
    &&& (is_fg(fg, w, h, x, y - 1) ==> lab(labels, w, x, y - 1) != 0)
    &&& (is_fg(fg, w, h, x, y + 1) ==> lab(labels, w, x, y + 1) != 0)
}

/// If (x, y) carries label `k`, so does each of its foreground 4-neighbours.
spec fn label_closed_at(fg: Seq<bool>, labels: Seq<usize>, w: int, h: int, k: usize, x: int, y: int) -> bool {
    (in_grid(w, h, x, y) && lab(labels, w, x, y) == k) ==> {
        &&& (is_fg(fg, w, h, x - 1, y) ==> lab(labels, w, x - 1, y) == k)
        &&& (is_fg(fg, w, h, x + 1, y) ==> lab(labels, w, x + 1, y) == k)
        &&& (is_fg(fg, w, h, x, y - 1) ==> lab(labels, w, x, y - 1) == k)
        &&& (is_fg(fg, w, h, x, y + 1) ==> lab(labels, w, x, y + 1) == k)
    }
}

/// The pixels carrying label `k` are closed under foreground 4-adjacency.
spec fn label_closed(fg: Seq<bool>, labels: Seq<usize>, w: int, h: int, k: usize) -> bool {
    forall|x: int, y: int| #[trigger] label_closed_at(fg, labels, w, h, k, x, y)
}

/// A pixel carrying label `k` is connected to (sx, sy).
spec fn label_sound_at(fg: Seq<bool>, labels: Seq<usize>, w: int, h: int, k: usize, sx: int, sy: int, x: int, y: int) -> bool {
    (in_grid(w, h, x, y) && lab(labels, w, x, y) == k) ==> connected4(fg, w, h, sx, sy, x, y)
}

/// The pixel (x, y) occurs in the list.
pub open spec fn has_pixel(pixels: Seq<(usize, usize)>, x: int, y: int) -> bool {
    exists|i: int| 0 <= i < pixels.len() && (#[trigger] pixels[i]).0 == x && pixels[i].1 == y
}

/// A pixel carrying label `k` is still to be expanded, or all its foreground neighbours are labelled.
spec fn frontier_at(fg: Seq<bool>, labels: Seq<usize>, stack: Seq<(usize, usize)>, w: int, h: int, k: usize, x: int, y: int) -> bool {
    (in_grid(w, h, x, y) && lab(labels, w, x, y) == k) ==> (has_pixel(stack, x, y) || nbrs_labeled(fg, labels, w, h, x, y))
}

/// Label (x, y) with `label` and push it, when it is an unlabelled foreground pixel.
fn visit(
    fg: &[bool],
    w: usize,
    h: usize,
    labels: &mut Vec<usize>,
    stack: &mut Vec<(usize, usize)>,
    x: usize,
    y: usize,
    label: usize,
)
    requires
        x < w,
        y < h,
        fg@.len() == w * h,
        old(labels)@.len() == w * h,
    ensures
        final(labels)@.len() == w * h,
        (fg@[flat(w as int, x as int, y as int)] && old(labels)@[flat(w as int, x as int, y as int)] == 0) ==> {
            &&& final(labels)@ == old(labels)@.update(flat(w as int, x as int, y as int), label)
            &&& final(stack)@ == old(stack)@.push((x, y))
        },
        !(fg@[flat(w as int, x as int, y as int)] && old(labels)@[flat(w as int, x as int, y as int)] == 0) ==> {
            &&& final(labels)@ == old(labels)@
            &&& final(stack)@ == old(stack)@
        },
{
    let _n = fg.len();
    proof {
        lemma_flat_bounds(w as int, h as int, x as int, y as int);
    }
    let j = y * w + x;
    if fg[j] && labels[j] == 0 {
        labels.set(j, label);
        stack.push((x, y));
    }
}


/// Progress of the flood from seed (sx, sy): labels only grow from 0 to `label` on foreground
/// pixels, the seed is labelled, the stack holds labelled pixels, every labelled pixel is
/// connected to the seed, and every labelled pixel other than (px, py) is on the stack or has
/// all its foreground neighbours labelled.
spec fn flood_ok(
    fg: Seq<bool>,
    l0: Seq<usize>,
    labels: Seq<usize>,
    stack: Seq<(usize, usize)>,
    w: int,
    h: int,
    label: usize,
    sx: int,
    sy: int,
    px: int,
    py: int,
) -> bool {
    &&& labels.len() == w * h
    &&& forall|i: int| 0 <= i < w * h ==> #[trigger] labels[i] == l0[i] || (l0[i] == 0
        && labels[i] == label && fg[i])
    &&& labels[flat(w, sx, sy)] == label
    &&& forall|i: int| 0 <= i < stack.len() ==> in_grid(w, h, (#[trigger] stack[i]).0 as int, stack[i].1 as int)
        && lab(labels, w, stack[i].0 as int, stack[i].1 as int) == label
    &&& forall|x: int, y: int| #[trigger] label_sound_at(fg, labels, w, h, label, sx, sy, x, y)
    &&& forall|x: int, y: int| #[trigger] frontier_at(fg, labels, stack, w, h, label, x, y) || (x == px && y == py)
}

/// Visiting a 4-neighbour (nx, ny) of the labelled pixel (px, py) keeps the flood state,
/// leaves (nx, ny) labelled when it is foreground, and does not raise the progress measure.
proof fn lemma_visit(
    fg: Seq<bool>,
    l0: Seq<usize>,
    labels: Seq<usize>,
    stack: Seq<(usize, usize)>,
    labels2: Seq<usize>,
    stack2: Seq<(usize, usize)>,
    w: int,
    h: int,
    label: usize,
    sx: int,
    sy: int,
    px: int,
    py: int,
    nx: int,
    ny: int,
)
    requires
        fg.len() == w * h,
        w <= usize::MAX,
        h <= usize::MAX,
        label > 0,
        forall|i: int| 0 <= i < w * h ==> #[trigger] l0[i] < label,
        in_grid(w, h, sx, sy),
        flood_ok(fg, l0, labels, stack, w, h, label, sx, sy, px, py),
        in_grid(w, h, px, py),
        lab(labels, w, px, py) == label,
        in_grid(w, h, nx, ny),
        (nx == px && (ny == py - 1 || ny == py + 1)) || (ny == py && (nx == px - 1 || nx == px + 1)),
        (fg[flat(w, nx, ny)] && labels[flat(w, nx, ny)] == 0) ==> {
            &&& labels2 == labels.update(flat(w, nx, ny), label)
            &&& stack2 == stack.push((nx as usize, ny as usize))
        },
        !(fg[flat(w, nx, ny)] && labels[flat(w, nx, ny)] == 0) ==> {
            &&& labels2 == labels
            &&& stack2 == stack
        },
    ensures
        flood_ok(fg, l0, labels2, stack2, w, h, label, sx, sy, px, py),
        fg[flat(w, nx, ny)] ==> lab(labels2, w, nx, ny) != 0,
        forall|i: int| 0 <= i < w * h && labels[i] != 0 ==> #[trigger] labels2[i] == labels[i],
        5 * count_of(labels2, 0usize) + stack2.len() <= 5 * count_of(labels, 0usize) + stack.len(),
{
    lemma_flat_bounds(w, h, nx, ny);
    lemma_flat_bounds(w, h, px, py);
    lemma_flat_bounds(w, h, sx, sy);
    let j = flat(w, nx, ny);
    let pj = flat(w, px, py);
    assert(labels[pj] == l0[pj] || (l0[pj] == 0 && labels[pj] == label && fg[pj]));
    assert(l0[pj] < label);
    if fg[j] && labels[j] == 0 {
        lemma_count_of_update(labels, j, 0usize, label);
        assert(labels[j] == l0[j] || (l0[j] == 0 && labels[j] == label && fg[j]));
        assert forall|i: int| 0 <= i < w * h implies #[trigger] labels2[i] == l0[i] || (l0[i] == 0
            && labels2[i] == label && fg[i]) by {
            assert(labels[i] == l0[i] || (l0[i] == 0 && labels[i] == label && fg[i]));
        }
        assert forall|i: int| 0 <= i < stack2.len() implies in_grid(w, h, (#[trigger] stack2[i]).0 as int, stack2[i].1 as int)
            && lab(labels2, w, stack2[i].0 as int, stack2[i].1 as int) == label by {
            if i < stack.len() {
                assert(stack2[i] == stack[i]);
                assert(in_grid(w, h, stack[i].0 as int, stack[i].1 as int)
                    && lab(labels, w, stack[i].0 as int, stack[i].1 as int) == label);
                lemma_flat_bounds(w, h, stack[i].0 as int, stack[i].1 as int);
            } else {
                assert(stack2[i] == (nx as usize, ny as usize));
            }
        }
        assert forall|x: int, y: int| #[trigger] label_sound_at(fg, labels2, w, h, label, sx, sy, x, y) by {
            if in_grid(w, h, x, y) && lab(labels2, w, x, y) == label {
                lemma_flat_bounds(w, h, x, y);
                if flat(w, x, y) == j {
                    lemma_flat_injective(w, x, y, nx, ny);
                    assert(label_sound_at(fg, labels, w, h, label, sx, sy, px, py));
                    lemma_connected4_step(fg, w, h, sx, sy, px, py, nx, ny);
                } else {
                    assert(label_sound_at(fg, labels, w, h, label, sx, sy, x, y));
                }
            }
        }
        assert forall|x: int, y: int| #[trigger] frontier_at(fg, labels2, stack2, w, h, label, x, y) || (x == px && y == py) by {
            if in_grid(w, h, x, y) && lab(labels2, w, x, y) == label && !(x == px && y == py) {
                lemma_flat_bounds(w, h, x, y);
                if flat(w, x, y) == j {
                    lemma_flat_injective(w, x, y, nx, ny);
                    assert(stack2[stack.len() as int] == (nx as usize, ny as usize));
                } else {
                    assert(frontier_at(fg, labels, stack, w, h, label, x, y));
                    if has_pixel(stack, x, y) {
                        let k = choose|k: int| 0 <= k < stack.len() && (#[trigger] stack[k]).0 == x && stack[k].1 == y;
                        assert(stack2[k] == stack[k]);
                    } else {
                        if is_fg(fg, w, h, x - 1, y) { lemma_flat_bounds(w, h, x - 1, y); }
                        if is_fg(fg, w, h, x + 1, y) { lemma_flat_bounds(w, h, x + 1, y); }
                        if is_fg(fg, w, h, x, y - 1) { lemma_flat_bounds(w, h, x, y - 1); }
                        if is_fg(fg, w, h, x, y + 1) { lemma_flat_bounds(w, h, x, y + 1); }
                    }
                }
            }
        }
    } else {
    }
}


/// A labelled foreground 4-neighbour of a pixel given the new label `label` carries `label` too,
/// when the labels existing before the flood were each closed.
proof fn lemma_neighbour_same_label(
    fg: Seq<bool>,
    l0: Seq<usize>,
    labels: Seq<usize>,
    w: int,
    h: int,
    label: usize,
    px: int,
    py: int,
    nx: int,
    ny: int,
)
    requires
        labels.len() == w * h,
        forall|i: int| 0 <= i < w * h ==> #[trigger] l0[i] < label,
        forall|k: usize| 0 < k < label ==> #[trigger] label_closed(fg, l0, w, h, k),
        forall|i: int| 0 <= i < w * h ==> #[trigger] labels[i] == l0[i] || (l0[i] == 0
            && labels[i] == label && fg[i]),
        in_grid(w, h, px, py),
        lab(labels, w, px, py) == label,
        is_fg(fg, w, h, nx, ny),
        (nx == px && (ny == py - 1 || ny == py + 1)) || (ny == py && (nx == px - 1 || nx == px + 1)),
        lab(labels, w, nx, ny) != 0,
    ensures
        lab(labels, w, nx, ny) == label,
{
    lemma_flat_bounds(w, h, px, py);
    lemma_flat_bounds(w, h, nx, ny);
    let pi = flat(w, px, py);
    let ni = flat(w, nx, ny);
    assert(labels[pi] == l0[pi] || (l0[pi] == 0 && labels[pi] == label && fg[pi]));
    assert(l0[pi] < label);
    assert(labels[ni] == l0[ni] || (l0[ni] == 0 && labels[ni] == label && fg[ni]));
    if labels[ni] != label {
        let k = l0[ni];
        assert(0 < k < label);
        assert(label_closed(fg, l0, w, h, k));
        assert(label_closed_at(fg, l0, w, h, k, nx, ny));
        assert(is_fg(fg, w, h, px, py));
    }
}

/// Label every pixel 4-connected to the seed (sx, sy) with `label`.
fn flood(fg: &[bool], w: usize, h: usize, labels: &mut Vec<usize>, sx: usize, sy: usize, label: usize)
    requires
        fg@.len() == w * h,
        old(labels)@.len() == w * h,
        sx < w,
        sy < h,
        fg@[flat(w as int, sx as int, sy as int)],
        old(labels)@[flat(w as int, sx as int, sy as int)] == 0,
        label > 0,
        forall|i: int| 0 <= i < w * h ==> #[trigger] old(labels)@[i] < label,
        forall|k: usize| 0 < k < label ==> #[trigger] label_closed(fg@, old(labels)@, w as int, h as int, k),
    ensures
        final(labels)@.len() == w * h,
        forall|i: int| 0 <= i < w * h ==> #[trigger] final(labels)@[i] == old(labels)@[i] || (old(labels)@[i] == 0
            && final(labels)@[i] == label && fg@[i]),
        final(labels)@[flat(w as int, sx as int, sy as int)] == label,
        forall|x: int, y: int| #[trigger] label_sound_at(fg@, final(labels)@, w as int, h as int, label, sx as int, sy as int, x, y),
        label_closed(fg@, final(labels)@, w as int, h as int, label),
{
    let ghost W = w as int;
    let ghost H = h as int;
    let ghost F = fg@;
    let ghost L0 = labels@;
    let _n = fg.len();
    proof {
        lemma_flat_bounds(W, H, sx as int, sy as int);
    }
    let s_idx = sy * w + sx;
    let mut stack: Vec<(usize, usize)> = Vec::new();
    labels.set(s_idx, label);
    stack.push((sx, sy));
    proof {
        assert forall|x: int, y: int| #[trigger] label_sound_at(F, labels@, W, H, label, sx as int, sy as int, x, y) by {
            if in_grid(W, H, x, y) && lab(labels@, W, x, y) == label {
                lemma_flat_bounds(W, H, x, y);
                if flat(W, x, y) != flat(W, sx as int, sy as int) {
                    assert(labels@[flat(W, x, y)] == L0[flat(W, x, y)]);
                    assert(false);
                }
                lemma_flat_injective(W, x, y, sx as int, sy as int);
            }
        }
        assert forall|x: int, y: int| #[trigger] frontier_at(F, labels@, stack@, W, H, label, x, y) by {
            if in_grid(W, H, x, y) && lab(labels@, W, x, y) == label {
                lemma_flat_bounds(W, H, x, y);
                if flat(W, x, y) != flat(W, sx as int, sy as int) {
                    assert(labels@[flat(W, x, y)] == L0[flat(W, x, y)]);
                    assert(false);
                }
                lemma_flat_injective(W, x, y, sx as int, sy as int);
                assert(stack@[0] == (sx, sy));
            }
        }
        assert forall|x: int, y: int| #[trigger] frontier_at(F, labels@, stack@, W, H, label, x, y) || (x == -1 && y == -1) by {
        }
        assert(flood_ok(F, L0, labels@, stack@, W, H, label, sx as int, sy as int, -1, -1));
    }
    while stack.len() > 0
        invariant
            fg@ == F,
            F.len() == W * H,
            W == w,
            H == h,
            L0.len() == W * H,
            sx < w,
            sy < h,
            label > 0,
            forall|i: int| 0 <= i < W * H ==> #[trigger] L0[i] < label,
            forall|k: usize| 0 < k < label ==> #[trigger] label_closed(F, L0, W, H, k),
            flood_ok(F, L0, labels@, stack@, W, H, label, sx as int, sy as int, -1, -1),
        decreases 5 * count_of(labels@, 0usize) + stack@.len(),
    {
        let ghost L1 = labels@;
        let ghost S0 = stack@;
        let (x, y) = stack.pop().unwrap();
        let ghost S1 = stack@;
        proof {
            assert(S0 == S1.push((x, y)));
            assert(S0[S0.len() - 1] == (x, y));
            assert(in_grid(W, H, x as int, y as int) && lab(L1, W, x as int, y as int) == label);
            assert forall|i: int| 0 <= i < S1.len() implies in_grid(W, H, (#[trigger] S1[i]).0 as int, S1[i].1 as int)
                && lab(L1, W, S1[i].0 as int, S1[i].1 as int) == label by {
                assert(S1[i] == S0[i]);
            }
            assert forall|a: int, b: int| #[trigger] frontier_at(F, L1, S1, W, H, label, a, b) || (a == x && b == y) by {
                assert(frontier_at(F, L1, S0, W, H, label, a, b) || (a == -1 && b == -1));
                if in_grid(W, H, a, b) && lab(L1, W, a, b) == label && !(a == x && b == y) {
                    if has_pixel(S0, a, b) {
                        let k = choose|k: int| 0 <= k < S0.len() && (#[trigger] S0[k]).0 == a && S0[k].1 == b;
                        if k < S1.len() {
                            assert(S1[k] == S0[k]);
                        }
                    }
                }
            }
            assert(flood_ok(F, L0, L1, S1, W, H, label, sx as int, sy as int, x as int, y as int));
        }
        let ghost La = labels@;
        let ghost Sa = stack@;
        if x > 0 {
            visit(fg, w, h, labels, &mut stack, x - 1, y, label);
            proof {
                lemma_visit(F, L0, La, Sa, labels@, stack@, W, H, label, sx as int, sy as int, x as int, y as int, x - 1, y as int);
                lemma_flat_bounds(W, H, x as int, y as int);
                assert(labels@[flat(W, x as int, y as int)] == La[flat(W, x as int, y as int)]);
            }
        }
        let ghost Lb = labels@;
        let ghost Sb = stack@;
        if x + 1 < w {
            visit(fg, w, h, labels, &mut stack, x + 1, y, label);
            proof {
                lemma_visit(F, L0, Lb, Sb, labels@, stack@, W, H, label, sx as int, sy as int, x as int, y as int, x + 1, y as int);
                lemma_flat_bounds(W, H, x as int, y as int);
                assert(labels@[flat(W, x as int, y as int)] == Lb[flat(W, x as int, y as int)]);
            }
        }
        let ghost Lc = labels@;
        let ghost Sc = stack@;
        if y > 0 {
            visit(fg, w, h, labels, &mut stack, x, y - 1, label);
            proof {
                lemma_visit(F, L0, Lc, Sc, labels@, stack@, W, H, label, sx as int, sy as int, x as int, y as int, x as int, y - 1);
                lemma_flat_bounds(W, H, x as int, y as int);
                assert(labels@[flat(W, x as int, y as int)] == Lc[flat(W, x as int, y as int)]);
            }
        }
        let ghost Ld = labels@;
        let ghost Sd = stack@;
        if y + 1 < h {
            visit(fg, w, h, labels, &mut stack, x, y + 1, label);
            proof {
                lemma_visit(F, L0, Ld, Sd, labels@, stack@, W, H, label, sx as int, sy as int, x as int, y as int, x as int, y + 1);
                lemma_flat_bounds(W, H, x as int, y as int);
                assert(labels@[flat(W, x as int, y as int)] == Ld[flat(W, x as int, y as int)]);
            }
        }
        proof {
            let Le = labels@;
            let Se = stack@;
            let xi = x as int;
            let yi = y as int;
            if is_fg(F, W, H, xi - 1, yi) {
                lemma_flat_bounds(W, H, xi - 1, yi);
                let t = flat(W, xi - 1, yi);
                assert(Lb[t] != 0);
                assert(Lc[t] == Lb[t]);
                assert(Ld[t] == Lc[t]);
                assert(Le[t] == Ld[t]);
            }
            if is_fg(F, W, H, xi + 1, yi) {
                lemma_flat_bounds(W, H, xi + 1, yi);
                let t = flat(W, xi + 1, yi);
                assert(Lc[t] != 0);
                assert(Ld[t] == Lc[t]);
                assert(Le[t] == Ld[t]);
            }
            if is_fg(F, W, H, xi, yi - 1) {
                lemma_flat_bounds(W, H, xi, yi - 1);
                let t = flat(W, xi, yi - 1);
                assert(Ld[t] != 0);
                assert(Le[t] == Ld[t]);
            }
            assert(nbrs_labeled(F, Le, W, H, xi, yi));
            assert forall|a: int, b: int| #[trigger] frontier_at(F, Le, Se, W, H, label, a, b) || (a == -1 && b == -1) by {
                assert(frontier_at(F, Le, Se, W, H, label, a, b) || (a == xi && b == yi));
            }
        }
    }
    proof {
        let L = labels@;
        assert forall|a: int, b: int| #[trigger] label_closed_at(F, L, W, H, label, a, b) by {
            if in_grid(W, H, a, b) && lab(L, W, a, b) == label {
                assert(frontier_at(F, L, stack@, W, H, label, a, b) || (a == -1 && b == -1));
                assert(!has_pixel(stack@, a, b));
                if is_fg(F, W, H, a - 1, b) {
                    lemma_neighbour_same_label(F, L0, L, W, H, label, a, b, a - 1, b);
                }
                if is_fg(F, W, H, a + 1, b) {
                    lemma_neighbour_same_label(F, L0, L, W, H, label, a, b, a + 1, b);
                }
                if is_fg(F, W, H, a, b - 1) {
                    lemma_neighbour_same_label(F, L0, L, W, H, label, a, b, a, b - 1);
                }
                if is_fg(F, W, H, a, b + 1) {
                    lemma_neighbour_same_label(F, L0, L, W, H, label, a, b, a, b + 1);
                }
            }
        }
    }
}

/// The labelled pixels of label `l` are connected to the seed of `l`.
spec fn seed_sound_at(fg: Seq<bool>, labels: Seq<usize>, w: int, h: int, seeds: Seq<(usize, usize)>, l: usize, x: int, y: int) -> bool {
    label_sound_at(fg, labels, w, h, l, seeds[l - 1].0 as int, seeds[l - 1].1 as int, x, y)
}

/// No pixel of label `l` comes before the seed of `l` in raster order.
spec fn seed_first_at(labels: Seq<usize>, w: int, h: int, seeds: Seq<(usize, usize)>, l: usize, x: int, y: int) -> bool {
    (in_grid(w, h, x, y) && lab(labels, w, x, y) == l) ==> flat(w, seeds[l - 1].0 as int, seeds[l - 1].1 as int) <= flat(w, x, y)
}

/// Row-major rank of a pixel.
pub open spec fn rank(w: int, p: (usize, usize)) -> int {
    flat(w, p.0 as int, p.1 as int)
}

/// A labelling of the foreground with labels 1..=count, where label `l` has seed `seeds[l - 1]`:
/// each label class is closed under foreground 4-adjacency, connected to its seed, and starts at
/// its seed; seeds are in raster order; the foreground pixels before raster position `upto`
/// are all labelled.
spec fn labeling_ok(fg: Seq<bool>, labels: Seq<usize>, w: int, h: int, count: int, seeds: Seq<(usize, usize)>, upto: int) -> bool {
    &&& labels.len() == w * h
    &&& seeds.len() == count
    &&& forall|i: int| 0 <= i < w * h ==> #[trigger] labels[i] <= count
    &&& forall|i: int| 0 <= i < w * h && labels[i] != 0 ==> #[trigger] fg[i]
    &&& forall|i: int| 0 <= i < w * h && i < upto && fg[i] ==> #[trigger] labels[i] != 0
    &&& forall|k: int| 0 <= k < count ==> in_grid(w, h, (#[trigger] seeds[k]).0 as int, seeds[k].1 as int)
        && lab(labels, w, seeds[k].0 as int, seeds[k].1 as int) == k + 1
        && rank(w, seeds[k]) < upto
    &&& forall|j: int, k: int| 0 <= j < k < count ==> rank(w, #[trigger] seeds[j]) < rank(w, #[trigger] seeds[k])
    &&& forall|l: usize| 0 < l <= count ==> #[trigger] label_closed(fg, labels, w, h, l)
    &&& forall|l: usize, x: int, y: int| 0 < l <= count ==> #[trigger] seed_sound_at(fg, labels, w, h, seeds, l, x, y)
    &&& forall|l: usize, x: int, y: int| 0 < l <= count ==> #[trigger] seed_first_at(labels, w, h, seeds, l, x, y)
}

/// Flooding a fresh label from the first unlabelled foreground pixel keeps the labelling.
proof fn lemma_labeling_flood(
    fg: Seq<bool>,
    l0: Seq<usize>,
    l1: Seq<usize>,
    w: int,
    h: int,
    count: int,
    seeds: Seq<(usize, usize)>,
    sx: int,
    sy: int,
)
    requires
        w <= usize::MAX,
        h <= usize::MAX,
        fg.len() == w * h,
        labeling_ok(fg, l0, w, h, count, seeds, flat(w, sx, sy)),
        in_grid(w, h, sx, sy),
        count + 1 <= usize::MAX,
        l1.len() == w * h,
        forall|i: int| 0 <= i < w * h ==> #[trigger] l1[i] == l0[i] || (l0[i] == 0
            && l1[i] == count + 1 && fg[i]),
        l1[flat(w, sx, sy)] == count + 1,
        forall|x: int, y: int| #[trigger] label_sound_at(fg, l1, w, h, (count + 1) as usize, sx, sy, x, y),
        label_closed(fg, l1, w, h, (count + 1) as usize),
    ensures
        labeling_ok(fg, l1, w, h, count + 1, seeds.push((sx as usize, sy as usize)), flat(w, sx, sy) + 1),
{
    let c1 = (count + 1) as usize;
    let s1 = seeds.push((sx as usize, sy as usize));
    lemma_flat_bounds(w, h, sx, sy);
    let cur = flat(w, sx, sy);
    assert forall|i: int| 0 <= i < w * h implies #[trigger] l1[i] <= count + 1 by {
        assert(l0[i] <= count);
    }
    assert forall|i: int| 0 <= i < w * h && l1[i] != 0 implies #[trigger] fg[i] by {
        assert(l0[i] <= count);
        if l0[i] != 0 { assert(fg[i]); }
    }
    assert forall|i: int| 0 <= i < w * h && i < cur + 1 && fg[i] implies #[trigger] l1[i] != 0 by {
        if i < cur { assert(l0[i] != 0); }
    }
    assert forall|k: int| 0 <= k < count + 1 implies in_grid(w, h, (#[trigger] s1[k]).0 as int, s1[k].1 as int)
        && lab(l1, w, s1[k].0 as int, s1[k].1 as int) == k + 1
        && rank(w, s1[k]) < cur + 1 by {
        if k < count {
            assert(s1[k] == seeds[k]);
            lemma_flat_bounds(w, h, seeds[k].0 as int, seeds[k].1 as int);
            let t = rank(w, seeds[k]);
            assert(l0[t] == k + 1);
        }
    }
    assert forall|j: int, k: int| 0 <= j < k < count + 1 implies rank(w, #[trigger] s1[j]) < rank(w, #[trigger] s1[k]) by {
        assert(s1[j] == seeds[j]);
        if k < count {
            assert(s1[k] == seeds[k]);
        }
    }
    assert forall|l: usize| 0 < l <= count + 1 implies #[trigger] label_closed(fg, l1, w, h, l) by {
        if l <= count {
            assert(label_closed(fg, l0, w, h, l));
            assert forall|x: int, y: int| #[trigger] label_closed_at(fg, l1, w, h, l, x, y) by {
                if in_grid(w, h, x, y) && lab(l1, w, x, y) == l {
                    lemma_flat_bounds(w, h, x, y);
                    assert(l0[flat(w, x, y)] == l);
                    assert(label_closed_at(fg, l0, w, h, l, x, y));
                    if is_fg(fg, w, h, x - 1, y) { lemma_flat_bounds(w, h, x - 1, y); }
                    if is_fg(fg, w, h, x + 1, y) { lemma_flat_bounds(w, h, x + 1, y); }
                    if is_fg(fg, w, h, x, y - 1) { lemma_flat_bounds(w, h, x, y - 1); }
                    if is_fg(fg, w, h, x, y + 1) { lemma_flat_bounds(w, h, x, y + 1); }
                }
            }
        }
    }
    assert forall|l: usize, x: int, y: int| 0 < l <= count + 1 implies #[trigger] seed_sound_at(fg, l1, w, h, s1, l, x, y) by {
        if in_grid(w, h, x, y) && lab(l1, w, x, y) == l {
            lemma_flat_bounds(w, h, x, y);
            if l <= count {
                assert(s1[l - 1] == seeds[l - 1]);
                assert(l0[flat(w, x, y)] == l);
                assert(seed_sound_at(fg, l0, w, h, seeds, l, x, y));
            } else {
                assert(s1[l - 1] == (sx as usize, sy as usize));
                assert(label_sound_at(fg, l1, w, h, (count + 1) as usize, sx, sy, x, y));
            }
        }
    }
    assert forall|l: usize, x: int, y: int| 0 < l <= count + 1 implies #[trigger] seed_first_at(l1, w, h, s1, l, x, y) by {
        if in_grid(w, h, x, y) && lab(l1, w, x, y) == l {
            lemma_flat_bounds(w, h, x, y);
            let t = flat(w, x, y);
            if l <= count {
                assert(s1[l - 1] == seeds[l - 1]);
                assert(l0[t] == l);
                assert(seed_first_at(l0, w, h, seeds, l, x, y));
            } else {
                assert(s1[l - 1] == (sx as usize, sy as usize));
                assert(l0[t] == 0);
                assert(fg[t]);
                if t < cur {
                    assert(l0[t] != 0);
                }
            }
        }
    }
}

/// Label the 4-connected components of the foreground in raster order of their first pixel.
fn label_pixels(fg: &[bool], w: usize, h: usize) -> (r: (Vec<usize>, usize, Ghost<Seq<(usize, usize)>>))
    requires
        fg@.len() == w * h,
    ensures
        labeling_ok(fg@, r.0@, w as int, h as int, r.1 as int, r.2@, w * h),
{
    let ghost W = w as int;
    let ghost H = h as int;
    let ghost F = fg@;
    let n = fg.len();
    let mut labels: Vec<usize> = Vec::new();
    let mut i: usize = 0;
    while i < n
        invariant
            0 <= i <= n,
            labels@.len() == i,
            forall|k: int| 0 <= k < i ==> #[trigger] labels@[k] == 0,
        decreases n - i,
    {
        labels.push(0);
        i += 1;
    }
    let mut count: usize = 0;
    let ghost mut seeds: Seq<(usize, usize)> = Seq::empty();
    proof {
        assert forall|l: usize| 0 < l <= count implies #[trigger] label_closed(F, labels@, W, H, l) by {}
        assert(labeling_ok(F, labels@, W, H, 0, seeds, 0));
    }
    let mut y: usize = 0;
    while y < h
        invariant
            fg@ == F,
            F.len() == W * H,
            W == w,
            H == h,
            n == W * H,
            0 <= y <= h,
            count <= y * w,
            labeling_ok(F, labels@, W, H, count as int, seeds, y * W),
        decreases h - y,
    {
        let mut x: usize = 0;
        while x < w
            invariant
                fg@ == F,
                F.len() == W * H,
                W == w,
                H == h,
                n == W * H,
                0 <= y < h,
                0 <= x <= w,
                count <= y * w + x,
                labeling_ok(F, labels@, W, H, count as int, seeds, y * W + x),
            decreases w - x,
        {
            proof {
                lemma_flat_bounds(W, H, x as int, y as int);
            }
            let idx = y * w + x;
            if fg[idx] && labels[idx] == 0 {
                let ghost L0 = labels@;
                proof {
                    assert forall|i: int| 0 <= i < W * H implies #[trigger] L0[i] < count + 1 by {
                        assert(L0[i] <= count);
                    }
                    assert forall|k: usize| 0 < k < count + 1 implies #[trigger] label_closed(F, L0, W, H, k) by {
                        assert(label_closed(F, L0, W, H, k));
                    }
                }
                flood(fg, w, h, &mut labels, x, y, count + 1);
                proof {
                    lemma_labeling_flood(F, L0, labels@, W, H, count as int, seeds, x as int, y as int);
                    seeds = seeds.push((x, y));
                }
                count = count + 1;
            } else {
                proof {
                    let L = labels@;
                    assert forall|i: int| 0 <= i < W * H && i < idx + 1 && F[i] implies #[trigger] L[i] != 0 by {
                    }
                    assert forall|k: int| 0 <= k < count implies in_grid(W, H, (#[trigger] seeds[k]).0 as int, seeds[k].1 as int)
                        && lab(L, W, seeds[k].0 as int, seeds[k].1 as int) == k + 1
                        && rank(W, seeds[k]) < idx + 1 by {
                    }
                }
            }
            x = x + 1;
        }
        proof {
            assert((y + 1) * W == y * W + W) by (nonlinear_arith);
        }
        y = y + 1;
    }
    proof {
        assert(H * W == W * H) by (nonlinear_arith);
    }
    (labels, count, Ghost(seeds))
}

/// `g` lists, in raster order, exactly the pixels before raster position `upto` that carry
/// label `k + 1`.
spec fn group_ok(labels: Seq<usize>, w: int, h: int, g: Seq<(usize, usize)>, k: int, upto: int) -> bool {
    &&& forall|i: int, j: int| 0 <= i < j < g.len() ==> rank(w, #[trigger] g[i]) < rank(w, #[trigger] g[j])
    &&& forall|i: int| 0 <= i < g.len() ==> in_grid(w, h, (#[trigger] g[i]).0 as int, g[i].1 as int)
        && lab(labels, w, g[i].0 as int, g[i].1 as int) == k + 1 && rank(w, g[i]) < upto
    &&& forall|x: int, y: int| in_grid(w, h, x, y) && flat(w, x, y) < upto && #[trigger] lab(labels, w, x, y) == k + 1
        ==> has_pixel(g, x, y)
}

/// Collect the pixels of each label 1..=count, in raster order.
fn group_pixels(labels: &Vec<usize>, w: usize, h: usize, count: usize) -> (groups: Vec<Vec<(usize, usize)>>)
    requires
        labels@.len() == w * h,
        forall|i: int| 0 <= i < w * h ==> #[trigger] labels@[i] <= count,
    ensures
        groups@.len() == count,
        forall|k: int| 0 <= k < count ==> #[trigger] group_ok(labels@, w as int, h as int, groups@[k]@, k, w * h),
{
    let ghost W = w as int;
    let ghost H = h as int;
    let n = labels.len();
    let mut groups: Vec<Vec<(usize, usize)>> = Vec::new();
    let mut k: usize = 0;
    while k < count
        invariant
            0 <= k <= count,
            groups@.len() == k,
            forall|j: int| 0 <= j < k ==> (#[trigger] groups@[j])@.len() == 0,
        decreases count - k,
    {
        groups.push(Vec::new());
        k += 1;
    }
    proof {
        assert forall|j: int| 0 <= j < count implies #[trigger] group_ok(labels@, W, H, groups@[j]@, j, 0) by {
            assert(groups@[j]@.len() == 0);
            assert forall|x: int, y: int| in_grid(W, H, x, y) && flat(W, x, y) < 0 && #[trigger] lab(labels@, W, x, y) == j + 1
                implies has_pixel(groups@[j]@, x, y) by {
                lemma_flat_bounds(W, H, x, y);
            }
        }
    }
    let mut y: usize = 0;
    while y < h
        invariant
            labels@.len() == W * H,
            n == W * H,
            W == w,
            H == h,
            0 <= y <= h,
            forall|i: int| 0 <= i < W * H ==> #[trigger] labels@[i] <= count,
            groups@.len() == count,
            forall|j: int| 0 <= j < count ==> #[trigger] group_ok(labels@, W, H, groups@[j]@, j, y * W),
        decreases h - y,
    {
        let mut x: usize = 0;
        while x < w
            invariant
                labels@.len() == W * H,
                n == W * H,
                W == w,
                H == h,
                0 <= y < h,
                0 <= x <= w,
                forall|i: int| 0 <= i < W * H ==> #[trigger] labels@[i] <= count,
                groups@.len() == count,
                forall|j: int| 0 <= j < count ==> #[trigger] group_ok(labels@, W, H, groups@[j]@, j, y * W + x),
            decreases w - x,
        {
            proof {
                lemma_flat_bounds(W, H, x as int, y as int);
            }
            let idx = y * w + x;
            let l = labels[idx];
            let ghost G0 = groups@;
            let ghost cur = idx as int;
            if l > 0 {
                groups[l - 1].push((x, y));
                proof {
                    assert forall|j: int| 0 <= j < count implies #[trigger] group_ok(labels@, W, H, groups@[j]@, j, cur + 1) by {
                        assert(group_ok(labels@, W, H, G0[j]@, j, cur));
                        let g0 = G0[j]@;
                        let g = groups@[j]@;
                        if j == l - 1 {
                            assert(g == g0.push((x, y)));
                            assert forall|i: int, i2: int| 0 <= i < i2 < g.len() implies rank(W, #[trigger] g[i]) < rank(W, #[trigger] g[i2]) by {
                                if i2 < g0.len() {
                                    assert(g[i] == g0[i]);
                                    assert(g[i2] == g0[i2]);
                                } else {
                                    assert(g[i] == g0[i]);
                                }
                            }
                            assert forall|i: int| 0 <= i < g.len() implies in_grid(W, H, (#[trigger] g[i]).0 as int, g[i].1 as int)
                                && lab(labels@, W, g[i].0 as int, g[i].1 as int) == j + 1 && rank(W, g[i]) < cur + 1 by {
                                if i < g0.len() {
                                    assert(g[i] == g0[i]);
                                }
                            }
                            assert forall|a: int, b: int| in_grid(W, H, a, b) && flat(W, a, b) < cur + 1 && #[trigger] lab(labels@, W, a, b) == j + 1
                                implies has_pixel(g, a, b) by {
                                if flat(W, a, b) < cur {
                                    assert(has_pixel(g0, a, b));
                                    let t = choose|t: int| 0 <= t < g0.len() && (#[trigger] g0[t]).0 == a && g0[t].1 == b;
                                    assert(g[t] == g0[t]);
                                } else {
                                    lemma_flat_injective(W, a, b, x as int, y as int);
                                    assert(g[g0.len() as int] == (x, y));
                                }
                            }
                        } else {
                            assert(g == g0);
                            assert forall|a: int, b: int| in_grid(W, H, a, b) && flat(W, a, b) < cur + 1 && #[trigger] lab(labels@, W, a, b) == j + 1
                                implies has_pixel(g, a, b) by {
                                if flat(W, a, b) == cur {
                                    lemma_flat_injective(W, a, b, x as int, y as int);
                                }
                            }
                        }
                    }
                }
            } else {
                proof {
                    assert forall|j: int| 0 <= j < count implies #[trigger] group_ok(labels@, W, H, groups@[j]@, j, cur + 1) by {
                        assert(group_ok(labels@, W, H, G0[j]@, j, cur));
                        assert forall|a: int, b: int| in_grid(W, H, a, b) && flat(W, a, b) < cur + 1 && #[trigger] lab(labels@, W, a, b) == j + 1
                            implies has_pixel(groups@[j]@, a, b) by {
                            if flat(W, a, b) == cur {
                                lemma_flat_injective(W, a, b, x as int, y as int);
                            }
                        }
                    }
                }
            }
            x = x + 1;
        }
        proof {
            assert((y + 1) * W == y * W + W) by (nonlinear_arith);
        }
        y = y + 1;
    }
    proof {
        assert(H * W == W * H) by (nonlinear_arith);
    }
    groups
}

/// A labelled connected component: its label, its pixels (x, y) in raster order, its area and
/// its bounding box (min_x, min_y, max_x, max_y).
#[derive(Debug)]
pub struct Component {
    pub label: usize,
    pub pixels: Vec<(usize, usize)>,
    pub area: usize,
    pub bounding_box: (usize, usize, usize, usize),
}

/// The pixels of a list, as a set of positions.
pub open spec fn pixel_set(pixels: Seq<(usize, usize)>) -> Set<(int, int)> {
    Set::new(|p: (int, int)| has_pixel(pixels, p.0, p.1))
}

/// `b` is (min x, min y, max x, max y) over the pixels.
pub open spec fn bounding_box_of(pixels: Seq<(usize, usize)>, b: (usize, usize, usize, usize)) -> bool {
    &&& forall|i: int| 0 <= i < pixels.len() ==> b.0 <= (#[trigger] pixels[i]).0 <= b.2 && b.1 <= pixels[i].1 <= b.3
    &&& exists|i: int| 0 <= i < pixels.len() && (#[trigger] pixels[i]).0 == b.0
    &&& exists|i: int| 0 <= i < pixels.len() && (#[trigger] pixels[i]).1 == b.1
    &&& exists|i: int| 0 <= i < pixels.len() && (#[trigger] pixels[i]).0 == b.2
    &&& exists|i: int| 0 <= i < pixels.len() && (#[trigger] pixels[i]).1 == b.3
}

/// `c` is the `k`-th (0-based) component of the foreground of a `w` x `h` mask: label `k + 1`,
/// a non-empty raster-ordered list of foreground pixels that is closed under foreground
/// 4-adjacency and 4-connected to its first pixel, with its area and bounding box.
pub open spec fn component_ok(fg: Seq<bool>, w: int, h: int, c: Component, k: int) -> bool {
    &&& c.label == k + 1
    &&& c.pixels@.len() > 0
    &&& c.area == c.pixels@.len()
    &&& forall|i: int, j: int| 0 <= i < j < c.pixels@.len() ==> rank(w, #[trigger] c.pixels@[i]) < rank(w, #[trigger] c.pixels@[j])
    &&& forall|i: int| 0 <= i < c.pixels@.len() ==> is_fg(fg, w, h, (#[trigger] c.pixels@[i]).0 as int, c.pixels@[i].1 as int)
    &&& closed4(fg, w, h, pixel_set(c.pixels@))
    &&& forall|i: int| 0 <= i < c.pixels@.len() ==> connected4(fg, w, h, c.pixels@[0].0 as int, c.pixels@[0].1 as int,
        (#[trigger] c.pixels@[i]).0 as int, c.pixels@[i].1 as int)
    &&& bounding_box_of(c.pixels@, c.bounding_box)
}

/// A component consists exactly of the foreground pixels 4-connected to its first pixel.
pub proof fn lemma_component_is_connectivity_class(fg: Seq<bool>, w: int, h: int, c: Component, k: int, x: int, y: int)
    requires
        component_ok(fg, w, h, c, k),
    ensures
        has_pixel(c.pixels@, x, y) <==> (is_fg(fg, w, h, x, y) && connected4(fg, w, h, c.pixels@[0].0 as int,
            c.pixels@[0].1 as int, x, y)),
{
    let g = c.pixels@;
    if has_pixel(g, x, y) {
        let i = choose|i: int| 0 <= i < g.len() && (#[trigger] g[i]).0 == x && g[i].1 == y;
        assert(is_fg(fg, w, h, g[i].0 as int, g[i].1 as int));
        assert(connected4(fg, w, h, g[0].0 as int, g[0].1 as int, g[i].0 as int, g[i].1 as int));
    }
    if is_fg(fg, w, h, x, y) && connected4(fg, w, h, g[0].0 as int, g[0].1 as int, x, y) {
        let ps = pixel_set(g);
        assert(closed4(fg, w, h, ps));
        assert(has_pixel(g, g[0].0 as int, g[0].1 as int));
        assert(ps.contains((g[0].0 as int, g[0].1 as int)));
        assert(ps.contains((x, y)));
    }
}

/// The bounding box of a non-empty pixel list.
fn bounding_box(pixels: &Vec<(usize, usize)>) -> (b: (usize, usize, usize, usize))
    requires
        pixels@.len() > 0,
    ensures
        bounding_box_of(pixels@, b),
{
    let mut min_x = pixels[0].0;
    let mut min_y = pixels[0].1;
    let mut max_x = pixels[0].0;
    let mut max_y = pixels[0].1;
    let mut i: usize = 1;
    while i < pixels.len()
        invariant
            1 <= i <= pixels@.len(),
            forall|j: int| 0 <= j < i ==> min_x <= (#[trigger] pixels@[j]).0 <= max_x && min_y <= pixels@[j].1 <= max_y,
            exists|j: int| 0 <= j < i && (#[trigger] pixels@[j]).0 == min_x,
            exists|j: int| 0 <= j < i && (#[trigger] pixels@[j]).1 == min_y,
            exists|j: int| 0 <= j < i && (#[trigger] pixels@[j]).0 == max_x,
            exists|j: int| 0 <= j < i && (#[trigger] pixels@[j]).1 == max_y,
        decreases pixels@.len() - i,
    {
        let (px, py) = pixels[i];
        if px < min_x {
            min_x = px;
        }
        if py < min_y {
            min_y = py;
        }
        if px > max_x {
            max_x = px;
        }
        if py > max_y {
            max_y = py;
        }
        i += 1;
    }
    (min_x, min_y, max_x, max_y)
}

/// The `k`-th group of a complete labelling, with its bounding box, is the `k`-th component.
proof fn lemma_component(
    fg: Seq<bool>,
    labels: Seq<usize>,
    w: int,
    h: int,
    count: int,
    seeds: Seq<(usize, usize)>,
    c: Component,
    k: int,
)
    requires
        w <= usize::MAX,
        h <= usize::MAX,
        fg.len() == w * h,
        labeling_ok(fg, labels, w, h, count, seeds, w * h),
        0 <= k < count,
        group_ok(labels, w, h, c.pixels@, k, w * h),
        c.label == k + 1,
        c.area == c.pixels@.len(),
        bounding_box_of(c.pixels@, c.bounding_box),
    ensures
        component_ok(fg, w, h, c, k),
        c.pixels@[0] == seeds[k],
{
    let g = c.pixels@;
    let s = seeds[k];
    lemma_flat_bounds(w, h, s.0 as int, s.1 as int);
    assert(lab(labels, w, s.0 as int, s.1 as int) == k + 1);
    assert(has_pixel(g, s.0 as int, s.1 as int));
    let t = choose|t: int| 0 <= t < g.len() && (#[trigger] g[t]).0 == s.0 && g[t].1 == s.1;
    assert(g[t] == s);
    let l = (k + 1) as usize;
    if t > 0 {
        assert(rank(w, g[0]) < rank(w, g[t]));
        assert(seed_first_at(labels, w, h, seeds, l, g[0].0 as int, g[0].1 as int));
    }
    assert(g[0] == s);
    assert forall|i: int| 0 <= i < g.len() implies is_fg(fg, w, h, (#[trigger] g[i]).0 as int, g[i].1 as int) by {
        lemma_flat_bounds(w, h, g[i].0 as int, g[i].1 as int);
        assert(labels[flat(w, g[i].0 as int, g[i].1 as int)] != 0);
    }
    assert forall|i: int| 0 <= i < g.len() implies connected4(fg, w, h, g[0].0 as int, g[0].1 as int,
        (#[trigger] g[i]).0 as int, g[i].1 as int) by {
        assert(seed_sound_at(fg, labels, w, h, seeds, l, g[i].0 as int, g[i].1 as int));
    }
    let ps = pixel_set(g);
    assert forall|x: int, y: int| #[trigger] closed4_at(fg, w, h, ps, x, y) by {
        if ps.contains((x, y)) && is_fg(fg, w, h, x, y) {
            assert(has_pixel(g, x, y));
            let u = choose|u: int| 0 <= u < g.len() && (#[trigger] g[u]).0 == x && g[u].1 == y;
            assert(lab(labels, w, x, y) == l);
            assert(label_closed(fg, labels, w, h, l));
            assert(label_closed_at(fg, labels, w, h, l, x, y));
            if is_fg(fg, w, h, x - 1, y) { lemma_flat_bounds(w, h, x - 1, y); assert(has_pixel(g, x - 1, y)); }
            if is_fg(fg, w, h, x + 1, y) { lemma_flat_bounds(w, h, x + 1, y); assert(has_pixel(g, x + 1, y)); }
            if is_fg(fg, w, h, x, y - 1) { lemma_flat_bounds(w, h, x, y - 1); assert(has_pixel(g, x, y - 1)); }
            if is_fg(fg, w, h, x, y + 1) { lemma_flat_bounds(w, h, x, y + 1); assert(has_pixel(g, x, y + 1)); }
        }
    }
}

/// Connected component labeling (4-connected) of a binary mask (`true` = foreground).
/// Components are listed in raster order of their first pixel and labelled 1, 2, ...;
/// each lists its pixels in raster order.
pub fn connected_components(binary: &GrayImage<bool>) -> (comps: Vec<Component>)
    requires
        binary.wf(),
    ensures
        forall|k: int| 0 <= k < comps@.len() ==> #[trigger] component_ok(binary.pixels(),
            binary.spec_width() as int, binary.spec_height() as int, comps@[k], k),
        forall|j: int, k: int| 0 <= j < k < comps@.len() ==> rank(binary.spec_width() as int,
            (#[trigger] comps@[j]).pixels@[0]) < rank(binary.spec_width() as int, (#[trigger] comps@[k]).pixels@[0]),
        forall|j: int, k: int, x: int, y: int|
            0 <= j < comps@.len() && 0 <= k < comps@.len() && j != k && #[trigger] has_pixel(comps@[j].pixels@, x, y)
                ==> !#[trigger] has_pixel(comps@[k].pixels@, x, y),
        forall|x: int, y: int| is_fg(binary.pixels(), binary.spec_width() as int, binary.spec_height() as int, x, y)
            ==> exists|k: int| 0 <= k < comps@.len() && #[trigger] has_pixel(comps@[k].pixels@, x, y),
{
    let w = binary.width();
    let h = binary.height();
    let fg = binary.data();
    let ghost W = w as int;
    let ghost H = h as int;
    let ghost F = fg@;
    let (labels, count, Ghost(seeds)) = label_pixels(fg, w, h);
    let mut groups = group_pixels(&labels, w, h, count);
    let ghost G = groups@;
    let mut comps: Vec<Component> = Vec::new();
    let mut k: usize = 0;
    while k < count
        invariant
            F.len() == W * H,
            W == w,
            H == h,
            labeling_ok(F, labels@, W, H, count as int, seeds, W * H),
            groups@.len() == count,
            G.len() == count,
            forall|j: int| k <= j < count ==> groups@[j] == G[j],
            forall|j: int| 0 <= j < count ==> #[trigger] group_ok(labels@, W, H, G[j]@, j, W * H),
            0 <= k <= count,
            comps@.len() == k,
            forall|j: int| 0 <= j < k ==> #[trigger] component_ok(F, W, H, comps@[j], j) && comps@[j].pixels@ == G[j]@
                && comps@[j].pixels@[0] == seeds[j],
        decreases count - k,
    {
        let mut pixels: Vec<(usize, usize)> = Vec::new();
        std::mem::swap(&mut pixels, &mut groups[k]);
        proof {
            assert(pixels@ == G[k as int]@);
            assert(group_ok(labels@, W, H, G[k as int]@, k as int, W * H));
            let s = seeds[k as int];
            lemma_flat_bounds(W, H, s.0 as int, s.1 as int);
            assert(has_pixel(pixels@, s.0 as int, s.1 as int));
        }
        let bbox = bounding_box(&pixels);
        let area = pixels.len();
        let c = Component { label: k + 1, pixels, area, bounding_box: bbox };
        proof {
            lemma_component(F, labels@, W, H, count as int, seeds, c, k as int);
        }
        comps.push(c);
        k += 1;
    }
    proof {
        assert forall|j: int, k2: int| 0 <= j < k2 < comps@.len() implies rank(W, (#[trigger] comps@[j]).pixels@[0])
            < rank(W, (#[trigger] comps@[k2]).pixels@[0]) by {
            assert(comps@.len() == count);
            assert(component_ok(F, W, H, comps@[j], j));
            assert(comps@[j].pixels@[0] == seeds[j]);
            assert(component_ok(F, W, H, comps@[k2], k2));
            assert(comps@[k2].pixels@[0] == seeds[k2]);
            assert(rank(W, seeds[j]) < rank(W, seeds[k2]));
        }
        assert forall|j: int, k2: int, x: int, y: int|
            0 <= j < comps@.len() && 0 <= k2 < comps@.len() && j != k2 && #[trigger] has_pixel(comps@[j].pixels@, x, y)
                implies !#[trigger] has_pixel(comps@[k2].pixels@, x, y) by {
            assert(comps@.len() == count);
            assert(component_ok(F, W, H, comps@[j], j));
            assert(comps@[j].pixels@ == G[j]@);
            assert(component_ok(F, W, H, comps@[k2], k2));
            assert(comps@[k2].pixels@ == G[k2]@);
            assert(group_ok(labels@, W, H, G[j]@, j, W * H));
            assert(group_ok(labels@, W, H, G[k2]@, k2, W * H));
            let gj = G[j]@;
            let a = choose|a: int| 0 <= a < gj.len() && (#[trigger] gj[a]).0 == x && gj[a].1 == y;
            if has_pixel(comps@[k2].pixels@, x, y) {
                let gk = G[k2]@;
                let b = choose|b: int| 0 <= b < gk.len() && (#[trigger] gk[b]).0 == x && gk[b].1 == y;
                assert(lab(labels@, W, x, y) == j + 1);
                assert(lab(labels@, W, x, y) == k2 + 1);
            }
        }
        assert forall|x: int, y: int| is_fg(F, W, H, x, y) implies exists|k2: int| 0 <= k2 < comps@.len()
            && #[trigger] has_pixel(comps@[k2].pixels@, x, y) by {
            lemma_flat_bounds(W, H, x, y);
            let t = flat(W, x, y);
            assert(labels@[t] != 0);
            assert(labels@[t] <= count);
            let j = labels@[t] - 1;
            assert(group_ok(labels@, W, H, G[j]@, j, W * H));
            assert(lab(labels@, W, x, y) == j + 1);
            assert(has_pixel(G[j]@, x, y));
            assert(component_ok(F, W, H, comps@[j], j) && comps@[j].pixels@ == G[j]@);
            assert(has_pixel(comps@[j].pixels@, x, y));
        }
    }
    comps
}

/// What marker flooding reads of a marker value: zero (unlabelled), positive (a label), or
/// anything else (negative or not a number), which is neither.
#[derive(Debug, Clone, Copy, PartialEq, Eq, Structural)]
pub enum MarkerKind {
    Zero,
    Positive,
    Other,
}

/// The kind of the marker value that pixel (x, y) currently carries, where `src` gives for each
/// pixel the position of the marker whose value it carries.
pub open spec fn kind_at(kinds: Seq<MarkerKind>, src: Seq<usize>, w: int, x: int, y: int) -> MarkerKind {
    kinds[at(src, w, x, y) as int]
}

/// One flooding round at (x, y): an interior pixel carrying a zero marker whose gradient is
/// passable takes the value of its first positive 4-neighbour, in the order left, right, up,
/// down; every other pixel keeps its value.
pub open spec fn flood_value(kinds: Seq<MarkerKind>, passable: Seq<bool>, w: int, h: int, src: Seq<usize>, x: int, y: int) -> usize {
    if 1 <= x < w - 1 && 1 <= y < h - 1 && kind_at(kinds, src, w, x, y) == MarkerKind::Zero && at(passable, w, x, y) {
        if kind_at(kinds, src, w, x - 1, y) == MarkerKind::Positive {
            at(src, w, x - 1, y)
        } else if kind_at(kinds, src, w, x + 1, y) == MarkerKind::Positive {
            at(src, w, x + 1, y)
        } else if kind_at(kinds, src, w, x, y - 1) == MarkerKind::Positive {
            at(src, w, x, y - 1)
        } else if kind_at(kinds, src, w, x, y + 1) == MarkerKind::Positive {
            at(src, w, x, y + 1)
        } else {
            at(src, w, x, y)
        }
    } else {
        at(src, w, x, y)
    }
}

/// One flooding round over the whole image, every pixel computed from the previous round.
pub open spec fn flood_step(kinds: Seq<MarkerKind>, passable: Seq<bool>, w: int, h: int, src: Seq<usize>) -> Seq<usize> {
    Seq::new(src.len(), |i: int| flood_value(kinds, passable, w, h, src, i % w, i / w))
}

/// `n` flooding rounds.
pub open spec fn flood_iter(kinds: Seq<MarkerKind>, passable: Seq<bool>, w: int, h: int, src: Seq<usize>, n: nat) -> Seq<usize>
    decreases n,
{
    if n == 0 {
        src
    } else {
        flood_iter(kinds, passable, w, h, flood_step(kinds, passable, w, h, src), (n - 1) as nat)
    }
}

/// Every pixel carrying its own marker.
pub open spec fn own_markers(n: nat) -> Seq<usize> {
    Seq::new(n, |i: int| i as usize)
}

/// The number of flooding rounds: the larger of `w + h` and 50.
pub open spec fn flood_rounds(w: int, h: int) -> nat {
    if w + h > 50 {
        (w + h) as nat
    } else {
        50
    }
}

/// Rounds compose.
proof fn lemma_flood_iter_add(kinds: Seq<MarkerKind>, passable: Seq<bool>, w: int, h: int, src: Seq<usize>, a: nat, b: nat)
    ensures
        flood_iter(kinds, passable, w, h, src, a + b) == flood_iter(kinds, passable, w, h, flood_iter(kinds, passable, w, h, src, a), b),
    decreases a,
{
    if a > 0 {
        lemma_flood_iter_add(kinds, passable, w, h, flood_step(kinds, passable, w, h, src), (a - 1) as nat, b);
        assert((a + b - 1) as nat == ((a - 1) as nat + b) as nat);
    }
}

/// A fixpoint of a round stays put.
proof fn lemma_flood_iter_fixpoint(kinds: Seq<MarkerKind>, passable: Seq<bool>, w: int, h: int, src: Seq<usize>, n: nat)
    requires
        flood_step(kinds, passable, w, h, src) == src,
    ensures
        flood_iter(kinds, passable, w, h, src, n) == src,
    decreases n,
{
    if n > 0 {
        lemma_flood_iter_fixpoint(kinds, passable, w, h, src, (n - 1) as nat);
    }
}

/// One source per pixel, each a valid marker position.
spec fn sources_ok(src: Seq<usize>, n: int) -> bool {
    &&& src.len() == n
    &&& forall|i: int| 0 <= i < n ==> #[trigger] src[i] < n
}

/// Invariant of a flooding sweep over rows 1..h-1: processed interior pixels hold their new
/// value, all others their previous one.
spec fn sweep_at(kinds: Seq<MarkerKind>, passable: Seq<bool>, w: int, h: int, prev: Seq<usize>, cur: Seq<usize>, y0: int, x0: int, x: int, y: int) -> bool {
    in_grid(w, h, x, y) ==> at(cur, w, x, y) == if !(1 <= x < w - 1 && 1 <= y < h - 1) || y < y0 || (y == y0 && x < x0) {
        flood_value(kinds, passable, w, h, prev, x, y)
    } else {
        at(prev, w, x, y)
    }
}


/// Flooding facts: every pixel carries its own marker or a positive one, a pixel whose own marker
/// is not zero carries its own marker, and border pixels carry their own marker.
pub open spec fn flood_facts(kinds: Seq<MarkerKind>, w: int, h: int, src: Seq<usize>) -> bool {
    &&& src.len() == w * h
    &&& forall|i: int| 0 <= i < w * h ==> #[trigger] src[i] < w * h && (src[i] == i || kinds[src[i] as int] == MarkerKind::Positive)
    &&& forall|i: int| 0 <= i < w * h && kinds[i] != MarkerKind::Zero ==> #[trigger] src[i] == i
    &&& forall|x: int, y: int| in_grid(w, h, x, y) && !(1 <= x < w - 1 && 1 <= y < h - 1) ==> #[trigger] at(src, w, x, y) == flat(w, x, y)
}

/// A flooding round keeps the flooding facts.
proof fn lemma_flood_step_facts(kinds: Seq<MarkerKind>, passable: Seq<bool>, w: int, h: int, src: Seq<usize>)
    requires
        0 <= w,
        0 <= h,
        kinds.len() == w * h,
        flood_facts(kinds, w, h, src),
    ensures
        flood_facts(kinds, w, h, flood_step(kinds, passable, w, h, src)),
{
    let next = flood_step(kinds, passable, w, h, src);
    assert forall|i: int| 0 <= i < w * h implies #[trigger] next[i] < w * h && (next[i] == i || kinds[next[i] as int] == MarkerKind::Positive) by {
        let p = lemma_coords(w, h, i);
        let (x, y) = p;
        if 1 <= x < w - 1 && 1 <= y < h - 1 {
            lemma_flat_bounds(w, h, x - 1, y);
            lemma_flat_bounds(w, h, x + 1, y);
            lemma_flat_bounds(w, h, x, y - 1);
            lemma_flat_bounds(w, h, x, y + 1);
        }
        assert(src[i] < w * h);
    }
    assert forall|i: int| 0 <= i < w * h && kinds[i] != MarkerKind::Zero implies #[trigger] next[i] == i by {
        let p = lemma_coords(w, h, i);
        assert(src[i] == i);
    }
    assert forall|x: int, y: int| in_grid(w, h, x, y) && !(1 <= x < w - 1 && 1 <= y < h - 1) implies #[trigger] at(next, w, x, y) == flat(w, x, y) by {
        lemma_flat_bounds(w, h, x, y);
        lemma_index_coords(w, h, x, y);
        assert(at(src, w, x, y) == flat(w, x, y));
    }
}

/// Any number of flooding rounds keeps the flooding facts.
pub proof fn lemma_flood_iter_facts(kinds: Seq<MarkerKind>, passable: Seq<bool>, w: int, h: int, src: Seq<usize>, n: nat)
    requires
        0 <= w,
        0 <= h,
        kinds.len() == w * h,
        flood_facts(kinds, w, h, src),
    ensures
        flood_facts(kinds, w, h, flood_iter(kinds, passable, w, h, src, n)),
    decreases n,
{
    if n > 0 {
        lemma_flood_step_facts(kinds, passable, w, h, src);
        lemma_flood_iter_facts(kinds, passable, w, h, flood_step(kinds, passable, w, h, src), (n - 1) as nat);
    }
}

/// Before any round every pixel carries its own marker.
proof fn lemma_own_markers_facts(kinds: Seq<MarkerKind>, w: int, h: int)
    requires
        0 <= w,
        0 <= h,
        w * h <= usize::MAX,
        kinds.len() == w * h,
    ensures
        flood_facts(kinds, w, h, own_markers((w * h) as nat)),
{
    let src = own_markers((w * h) as nat);
    assert forall|x: int, y: int| in_grid(w, h, x, y) && !(1 <= x < w - 1 && 1 <= y < h - 1) implies #[trigger] at(src, w, x, y) == flat(w, x, y) by {
        lemma_flat_bounds(w, h, x, y);
    }
}

/// Every pixel admits flooding and every marker is zero or positive.
pub open spec fn flood_open(kinds: Seq<MarkerKind>, passable: Seq<bool>, n: int) -> bool {
    &&& forall|i: int| 0 <= i < n ==> #[trigger] passable[i]
    &&& forall|i: int| 0 <= i < n ==> #[trigger] kinds[i] != MarkerKind::Other
}

/// Interior pixel (x, y) carries a positive marker of its own or has a 4-neighbour that does.
pub open spec fn flood_source(kinds: Seq<MarkerKind>, w: int, h: int, x: int, y: int) -> bool {
    &&& 1 <= x < w - 1
    &&& 1 <= y < h - 1
    &&& {
        ||| at(kinds, w, x, y) == MarkerKind::Positive
        ||| at(kinds, w, x - 1, y) == MarkerKind::Positive
        ||| at(kinds, w, x + 1, y) == MarkerKind::Positive
        ||| at(kinds, w, x, y - 1) == MarkerKind::Positive
        ||| at(kinds, w, x, y + 1) == MarkerKind::Positive
    }
}

/// The city-block distance between two positions.
pub open spec fn grid_distance(x: int, y: int, qx: int, qy: int) -> int {
    (if x >= qx { x - qx } else { qx - x }) + (if y >= qy { y - qy } else { qy - y })
}

/// One more round after `k` rounds.
proof fn lemma_flood_iter_last(kinds: Seq<MarkerKind>, passable: Seq<bool>, w: int, h: int, src: Seq<usize>, k: nat)
    requires
        k > 0,
    ensures
        flood_iter(kinds, passable, w, h, src, k) == flood_step(kinds, passable, w, h,
            flood_iter(kinds, passable, w, h, src, (k - 1) as nat)),
{
    lemma_flood_iter_add(kinds, passable, w, h, src, (k - 1) as nat, 1);
    assert(((k - 1) as nat + 1) as nat == k);
    let prev = flood_iter(kinds, passable, w, h, src, (k - 1) as nat);
    assert(flood_iter(kinds, passable, w, h, prev, 1) == flood_iter(kinds, passable, w, h,
        flood_step(kinds, passable, w, h, prev), 0));
}

/// Reading a round at an in-grid position gives the flooding value there.
proof fn lemma_flood_step_at(kinds: Seq<MarkerKind>, passable: Seq<bool>, w: int, h: int, src: Seq<usize>, x: int, y: int)
    requires
        in_grid(w, h, x, y),
        src.len() == w * h,
    ensures
        at(flood_step(kinds, passable, w, h, src), w, x, y) == flood_value(kinds, passable, w, h, src, x, y),
{
    lemma_flat_bounds(w, h, x, y);
    lemma_index_coords(w, h, x, y);
}

/// Flooding spreads one step per round through an open field: after `k` rounds, every interior
/// pixel within distance `k` of an interior pixel carrying a positive marker carries one too.
proof fn lemma_flood_reach(kinds: Seq<MarkerKind>, passable: Seq<bool>, w: int, h: int, src: Seq<usize>,
    qx: int, qy: int, x: int, y: int, k: nat)
    requires
        0 <= w,
        0 <= h,
        kinds.len() == w * h,
        flood_open(kinds, passable, w * h),
        flood_facts(kinds, w, h, src),
        1 <= qx < w - 1,
        1 <= qy < h - 1,
        1 <= x < w - 1,
        1 <= y < h - 1,
        kind_at(kinds, src, w, qx, qy) == MarkerKind::Positive,
        grid_distance(x, y, qx, qy) <= k,
    ensures
        kind_at(kinds, flood_iter(kinds, passable, w, h, src, k), w, x, y) == MarkerKind::Positive,
    decreases k,
{
    if k > 0 {
        let prev = flood_iter(kinds, passable, w, h, src, (k - 1) as nat);
        lemma_flood_iter_last(kinds, passable, w, h, src, k);
        lemma_flood_iter_facts(kinds, passable, w, h, src, (k - 1) as nat);
        lemma_flood_step_at(kinds, passable, w, h, prev, x, y);
        lemma_flat_bounds(w, h, x, y);
        lemma_flat_bounds(w, h, x - 1, y);
        lemma_flat_bounds(w, h, x + 1, y);
        lemma_flat_bounds(w, h, x, y - 1);
        lemma_flat_bounds(w, h, x, y + 1);
        let i = flat(w, x, y);
        assert(prev[i] < w * h);
        assert(kinds[prev[i] as int] != MarkerKind::Other);
        if grid_distance(x, y, qx, qy) <= k - 1 {
            lemma_flood_reach(kinds, passable, w, h, src, qx, qy, x, y, (k - 1) as nat);
        } else {
            assert(passable[i]);
            if x > qx {
                lemma_flood_reach(kinds, passable, w, h, src, qx, qy, x - 1, y, (k - 1) as nat);
            } else if x < qx {
                lemma_flood_reach(kinds, passable, w, h, src, qx, qy, x + 1, y, (k - 1) as nat);
            } else if y > qy {
                lemma_flood_reach(kinds, passable, w, h, src, qx, qy, x, y - 1, (k - 1) as nat);
            } else {
                lemma_flood_reach(kinds, passable, w, h, src, qx, qy, x, y + 1, (k - 1) as nat);
            }
        }
    }
}

/// In an open field, a flooding source carries a positive marker after the first round.
proof fn lemma_flood_source_first_round(kinds: Seq<MarkerKind>, passable: Seq<bool>, w: int, h: int, x: int, y: int)
    requires
        0 <= w,
        0 <= h,
        w * h <= usize::MAX,
        kinds.len() == w * h,
        flood_open(kinds, passable, w * h),
        flood_source(kinds, w, h, x, y),
    ensures
        kind_at(kinds, flood_iter(kinds, passable, w, h, own_markers((w * h) as nat), 1), w, x, y) == MarkerKind::Positive,
{
    let own = own_markers((w * h) as nat);
    lemma_flood_iter_last(kinds, passable, w, h, own, 1);
    lemma_flood_step_at(kinds, passable, w, h, own, x, y);
    lemma_flat_bounds(w, h, x, y);
    lemma_flat_bounds(w, h, x - 1, y);
    lemma_flat_bounds(w, h, x + 1, y);
    lemma_flat_bounds(w, h, x, y - 1);
    lemma_flat_bounds(w, h, x, y + 1);
    let i = flat(w, x, y);
    assert(own[i] == i);
    assert(passable[i]);
    assert(kinds[i] != MarkerKind::Other);
    assert(own[flat(w, x - 1, y)] == flat(w, x - 1, y));
    assert(own[flat(w, x + 1, y)] == flat(w, x + 1, y));
    assert(own[flat(w, x, y - 1)] == flat(w, x, y - 1));
    assert(own[flat(w, x, y + 1)] == flat(w, x, y + 1));
}

/// A pixel moves off its own marker only once some flooding source exists.
proof fn lemma_flood_moves_need_source(kinds: Seq<MarkerKind>, passable: Seq<bool>, w: int, h: int, n: nat)
    requires
        0 <= w,
        0 <= h,
        w * h <= usize::MAX,
        kinds.len() == w * h,
    ensures
        forall|i: int| 0 <= i < w * h && #[trigger] flood_iter(kinds, passable, w, h, own_markers((w * h) as nat), n)[i] != i
            ==> exists|qx: int, qy: int| flood_source(kinds, w, h, qx, qy),
    decreases n,
{
    let own = own_markers((w * h) as nat);
    if n > 0 {
        lemma_flood_moves_need_source(kinds, passable, w, h, (n - 1) as nat);
        lemma_flood_iter_last(kinds, passable, w, h, own, n);
        lemma_own_markers_facts(kinds, w, h);
        lemma_flood_iter_facts(kinds, passable, w, h, own, (n - 1) as nat);
        let prev = flood_iter(kinds, passable, w, h, own, (n - 1) as nat);
        let next = flood_iter(kinds, passable, w, h, own, n);
        assert forall|i: int| 0 <= i < w * h && #[trigger] next[i] != i
            implies exists|qx: int, qy: int| flood_source(kinds, w, h, qx, qy) by {
            let p = lemma_coords(w, h, i);
            let x = p.0;
            let y = p.1;
            lemma_flood_step_at(kinds, passable, w, h, prev, x, y);
            if prev[i] == i {
                if 1 <= x < w - 1 && 1 <= y < h - 1 {
                    lemma_flat_bounds(w, h, x - 1, y);
                    lemma_flat_bounds(w, h, x + 1, y);
                    lemma_flat_bounds(w, h, x, y - 1);
                    lemma_flat_bounds(w, h, x, y + 1);
                    let l = flat(w, x - 1, y);
                    let r = flat(w, x + 1, y);
                    let u = flat(w, x, y - 1);
                    let d = flat(w, x, y + 1);
                    if prev[l] != l || prev[r] != r || prev[u] != u || prev[d] != d {
                    } else {
                        assert(flood_source(kinds, w, h, x, y));
                    }
                }
            }
        }
    }
}

/// In an open field every interior pixel is flooded once some flooding source exists.
proof fn lemma_flood_fills(kinds: Seq<MarkerKind>, passable: Seq<bool>, w: int, h: int, qx: int, qy: int, x: int, y: int)
    requires
        0 <= w,
        0 <= h,
        w * h <= usize::MAX,
        kinds.len() == w * h,
        flood_open(kinds, passable, w * h),
        flood_source(kinds, w, h, qx, qy),
        1 <= x < w - 1,
        1 <= y < h - 1,
    ensures
        kind_at(kinds, flood_iter(kinds, passable, w, h, own_markers((w * h) as nat), flood_rounds(w, h)), w, x, y)
            == MarkerKind::Positive,
{
    let own = own_markers((w * h) as nat);
    let r = flood_rounds(w, h);
    lemma_flood_source_first_round(kinds, passable, w, h, qx, qy);
    lemma_own_markers_facts(kinds, w, h);
    lemma_flood_iter_facts(kinds, passable, w, h, own, 1);
    let first = flood_iter(kinds, passable, w, h, own, 1);
    lemma_flood_iter_add(kinds, passable, w, h, own, 1, (r - 1) as nat);
    assert((1 + (r - 1) as nat) as nat == r);
    lemma_flood_reach(kinds, passable, w, h, first, qx, qy, x, y, (r - 1) as nat);
}

/// The result of the rounds at one interior pixel carrying a zero marker: no 4-neighbour
/// carries a positive marker.
proof fn lemma_settled_at(kinds: Seq<MarkerKind>, passable: Seq<bool>, w: int, h: int, out: Seq<usize>, x: int, y: int)
    requires
        0 <= w,
        0 <= h,
        w * h <= usize::MAX,
        kinds.len() == w * h,
        flood_open(kinds, passable, w * h),
        out == flood_iter(kinds, passable, w, h, own_markers((w * h) as nat), flood_rounds(w, h)),
        1 <= x < w - 1,
        1 <= y < h - 1,
        kinds[at(out, w, x, y) as int] == MarkerKind::Zero,
    ensures
        kinds[at(out, w, x - 1, y) as int] != MarkerKind::Positive,
        kinds[at(out, w, x + 1, y) as int] != MarkerKind::Positive,
        kinds[at(out, w, x, y - 1) as int] != MarkerKind::Positive,
        kinds[at(out, w, x, y + 1) as int] != MarkerKind::Positive,
{
    lemma_flood_moves_need_source(kinds, passable, w, h, flood_rounds(w, h));
    lemma_flat_bounds(w, h, x - 1, y);
    lemma_flat_bounds(w, h, x + 1, y);
    lemma_flat_bounds(w, h, x, y - 1);
    lemma_flat_bounds(w, h, x, y + 1);
    let l = flat(w, x - 1, y);
    let r = flat(w, x + 1, y);
    let u = flat(w, x, y - 1);
    let d = flat(w, x, y + 1);
    if out[l] != l || out[r] != r || out[u] != u || out[d] != d {
        let q = choose|qx: int, qy: int| flood_source(kinds, w, h, qx, qy);
        lemma_flood_fills(kinds, passable, w, h, q.0, q.1, x, y);
    } else if flood_source(kinds, w, h, x, y) {
        lemma_flood_fills(kinds, passable, w, h, x, y, x, y);
    }
}

/// Some 4-neighbour of (x, y) carries a positive marker in `src`.
pub open spec fn next_to_positive(kinds: Seq<MarkerKind>, src: Seq<usize>, w: int, x: int, y: int) -> bool {
    ||| kinds[at(src, w, x - 1, y) as int] == MarkerKind::Positive
    ||| kinds[at(src, w, x + 1, y) as int] == MarkerKind::Positive
    ||| kinds[at(src, w, x, y - 1) as int] == MarkerKind::Positive
    ||| kinds[at(src, w, x, y + 1) as int] == MarkerKind::Positive
}

/// An interior positive marker floods every interior pixel.
proof fn lemma_seed_fills(kinds: Seq<MarkerKind>, passable: Seq<bool>, w: int, h: int, out: Seq<usize>, qx: int, qy: int, x: int, y: int)
    requires
        0 <= w,
        0 <= h,
        w * h <= usize::MAX,
        kinds.len() == w * h,
        flood_open(kinds, passable, w * h),
        out == flood_iter(kinds, passable, w, h, own_markers((w * h) as nat), flood_rounds(w, h)),
        1 <= x < w - 1,
        1 <= y < h - 1,
        1 <= qx < w - 1,
        1 <= qy < h - 1,
        at(kinds, w, qx, qy) == MarkerKind::Positive,
    ensures
        kinds[at(out, w, x, y) as int] == MarkerKind::Positive,
{
    assert(flood_source(kinds, w, h, qx, qy));
    lemma_flood_fills(kinds, passable, w, h, qx, qy, x, y);
}

/// Watershed flooding settles in an open field. When every pixel admits flooding and every
/// marker is zero or positive, the result of `watershed`'s rounds is final: no interior pixel
/// still carrying a zero marker has a 4-neighbour carrying a positive one. And once any interior
/// pixel is a positive marker, every interior pixel ends up carrying a positive marker, however
/// far from it.
pub proof fn lemma_watershed_settles(kinds: Seq<MarkerKind>, passable: Seq<bool>, w: int, h: int, out: Seq<usize>)
    requires
        0 <= w,
        0 <= h,
        w * h <= usize::MAX,
        kinds.len() == w * h,
        flood_open(kinds, passable, w * h),
        out == flood_iter(kinds, passable, w, h, own_markers((w * h) as nat), flood_rounds(w, h)),
    ensures
        forall|x: int, y: int| 1 <= x < w - 1 && 1 <= y < h - 1 && kinds[at(out, w, x, y) as int] == MarkerKind::Zero
            ==> !#[trigger] next_to_positive(kinds, out, w, x, y),
        forall|x: int, y: int, qx: int, qy: int| #![trigger at(out, w, x, y), at(kinds, w, qx, qy)]
            1 <= x < w - 1 && 1 <= y < h - 1 && 1 <= qx < w - 1 && 1 <= qy < h - 1
            && at(kinds, w, qx, qy) == MarkerKind::Positive ==> kinds[at(out, w, x, y) as int] == MarkerKind::Positive,
{
    assert forall|x: int, y: int| 1 <= x < w - 1 && 1 <= y < h - 1 && kinds[at(out, w, x, y) as int] == MarkerKind::Zero
        implies !#[trigger] next_to_positive(kinds, out, w, x, y) by {
        lemma_settled_at(kinds, passable, w, h, out, x, y);
    }
    assert forall|x: int, y: int, qx: int, qy: int| #![trigger at(out, w, x, y), at(kinds, w, qx, qy)]
        1 <= x < w - 1 && 1 <= y < h - 1 && 1 <= qx < w - 1 && 1 <= qy < h - 1
            && at(kinds, w, qx, qy) == MarkerKind::Positive implies kinds[at(out, w, x, y) as int] == MarkerKind::Positive by {
        lemma_seed_fills(kinds, passable, w, h, out, qx, qy, x, y);
    }
}

/// Flood labelled markers into the zero-marked region by repeated rounds (at most
/// `flood_rounds(w, h)`, stopping early once a round changes nothing). `markers` gives the
/// kind of each marker value and `passable` whether each pixel's gradient admits flooding.
/// The result gives, for each pixel, the position of the marker whose value it ends up carrying.
pub fn watershed(markers: &GrayImage<MarkerKind>, passable: &[bool]) -> (out: GrayImage<usize>)
    requires
        markers.wf(),
        passable@.len() == markers.pixels().len(),
        markers.spec_width() + markers.spec_height() <= usize::MAX,
    ensures
        out.wf(),
        out.spec_width() == markers.spec_width(),
        out.spec_height() == markers.spec_height(),
        out.pixels() == flood_iter(markers.pixels(), passable@, markers.spec_width() as int,
            markers.spec_height() as int, own_markers(markers.pixels().len()),
            flood_rounds(markers.spec_width() as int, markers.spec_height() as int)),
        flood_facts(markers.pixels(), markers.spec_width() as int, markers.spec_height() as int, out.pixels()),
        // With every pixel passable and every marker zero or positive, the flooding has run to the
        // end: no interior pixel still carrying a zero marker is next to a positive one, and a
        // single interior positive marker reaches every interior pixel.
        flood_open(markers.pixels(), passable@, markers.pixels().len() as int) ==> forall|x: int, y: int|
            1 <= x < markers.spec_width() - 1 && 1 <= y < markers.spec_height() - 1
            && markers.pixels()[out.pixel(x, y) as int] == MarkerKind::Zero
            ==> !#[trigger] next_to_positive(markers.pixels(), out.pixels(), markers.spec_width() as int, x, y),
        flood_open(markers.pixels(), passable@, markers.pixels().len() as int) ==> forall|x: int, y: int, qx: int, qy: int|
            #![trigger out.pixel(x, y), markers.pixel(qx, qy)]
            1 <= x < markers.spec_width() - 1 && 1 <= y < markers.spec_height() - 1
            && 1 <= qx < markers.spec_width() - 1 && 1 <= qy < markers.spec_height() - 1
            && markers.pixel(qx, qy) == MarkerKind::Positive
            ==> markers.pixels()[out.pixel(x, y) as int] == MarkerKind::Positive,
{
    let w = markers.width();
    let h = markers.height();
    let kinds = markers.data();
    let n = kinds.len();
    let ghost W = w as int;
    let ghost H = h as int;
    let ghost K = kinds@;
    let ghost PS = passable@;
    let mut cur: Vec<usize> = Vec::new();
    let mut i: usize = 0;
    while i < n
        invariant
            0 <= i <= n,
            cur@.len() == i,
            forall|k: int| 0 <= k < i ==> #[trigger] cur@[k] == k,
        decreases n - i,
    {
        cur.push(i);
        i += 1;
    }
    let ghost init = cur@;
    proof {
        assert(init =~= own_markers(n as nat));
    }
    let rounds = if w + h > 50 {
        w + h
    } else {
        50
    };
    let mut it: usize = 0;
    let mut settled = false;
    while it < rounds && !settled
        invariant
            n == W * H,
            K.len() == n,
            PS.len() == n,
            kinds@ == K,
            passable@ == PS,
            W == w,
            H == h,
            rounds == flood_rounds(W, H),
            0 <= it <= rounds,
            init == own_markers(n as nat),
            sources_ok(init, W * H),
            cur@ == flood_iter(K, PS, W, H, init, it as nat),
            sources_ok(cur@, W * H),
            settled ==> flood_step(K, PS, W, H, cur@) == cur@,
        decreases rounds - it,
    {
        let prev = cur.clone();
        let ghost PV = cur@;
        proof {
            assert(prev@ =~= PV);
        }
        let mut changed = false;
        let mut y: usize = 1;
        while y + 1 < h
            invariant
                n == W * H,
                K.len() == n,
                PS.len() == n,
                kinds@ == K,
                passable@ == PS,
                W == w,
                H == h,
                prev@ == PV,
                sources_ok(PV, W * H),
                sources_ok(cur@, W * H),
                1 <= y < usize::MAX,
                y <= h || h < 2,
                forall|a: int, b: int| #[trigger] sweep_at(K, PS, W, H, PV, cur@, y as int, 1, a, b),
                !changed ==> cur@ == PV,
            decreases h - y,
        {
            let mut x: usize = 1;
            while x + 1 < w
                invariant
                    n == W * H,
                    K.len() == n,
                    PS.len() == n,
                    kinds@ == K,
                    passable@ == PS,
                    W == w,
                    H == h,
                    prev@ == PV,
                    sources_ok(PV, W * H),
                    sources_ok(cur@, W * H),
                    1 <= y,
                    y + 1 < h,
                    1 <= x < usize::MAX,
                    x <= w || w < 2,
                    forall|a: int, b: int| #[trigger] sweep_at(K, PS, W, H, PV, cur@, y as int, x as int, a, b),
                    !changed ==> cur@ == PV,
                decreases w - x,
            {
                let ghost C0 = cur@;
                proof {
                    lemma_flat_bounds(W, H, x as int, y as int);
                    lemma_flat_bounds(W, H, x - 1, y as int);
                    lemma_flat_bounds(W, H, x + 1, y as int);
                    lemma_flat_bounds(W, H, x as int, y - 1);
                    lemma_flat_bounds(W, H, x as int, y + 1);
                    assert(flat(W, x as int, y - 1) == flat(W, x as int, y as int) - W) by (nonlinear_arith);
                    assert(flat(W, x as int, y + 1) == flat(W, x as int, y as int) + W) by (nonlinear_arith);
                }
                let idx = y * w + x;
                let s = prev[idx];
                let mut newv = s;
                if kinds[s] == MarkerKind::Zero && passable[idx] {
                    let l = prev[idx - 1];
                    if kinds[l] == MarkerKind::Positive {
                        newv = l;
                    } else {
                        let r = prev[idx + 1];
                        if kinds[r] == MarkerKind::Positive {
                            newv = r;
                        } else {
                            let u = prev[idx - w];
                            if kinds[u] == MarkerKind::Positive {
                                newv = u;
                            } else {
                                let d = prev[idx + w];
                                if kinds[d] == MarkerKind::Positive {
                                    newv = d;
                                }
                            }
                        }
                    }
                }
                proof {
                    assert(newv == flood_value(K, PS, W, H, PV, x as int, y as int));
                }
                if newv != s {
                    cur.set(idx, newv);
                    changed = true;
                }
                proof {
                    assert forall|a: int, b: int| #[trigger] sweep_at(K, PS, W, H, PV, cur@, y as int, x + 1, a, b) by {
                        assert(sweep_at(K, PS, W, H, PV, C0, y as int, x as int, a, b));
                        if in_grid(W, H, a, b) {
                            lemma_flat_bounds(W, H, a, b);
                            if a == x && b == y {
                            } else {
                                if flat(W, a, b) == idx {
                                    lemma_flat_injective(W, a, b, x as int, y as int);
                                }
                            }
                        }
                    }
                    assert forall|k: int| 0 <= k < n implies #[trigger] cur@[k] < W * H by {
                        assert(C0[k] < W * H);
                    }
                    if !changed {
                        assert(cur@ == PV);
                    }
                }
                x = x + 1;
            }
            proof {
                assert forall|a: int, b: int| #[trigger] sweep_at(K, PS, W, H, PV, cur@, y + 1, 1, a, b) by {
                    assert(sweep_at(K, PS, W, H, PV, cur@, y as int, x as int, a, b));
                }
            }
            y = y + 1;
        }
        proof {
            let next = flood_step(K, PS, W, H, PV);
            assert forall|k: int| 0 <= k < n implies #[trigger] cur@[k] == next[k] by {
                let p = lemma_coords(W, H, k);
                assert(sweep_at(K, PS, W, H, PV, cur@, y as int, 1, p.0, p.1));
            }
            assert(cur@ =~= next);
            lemma_flood_iter_add(K, PS, W, H, init, it as nat, 1);
            assert(flood_iter(K, PS, W, H, PV, 1) == flood_iter(K, PS, W, H, next, 0));
            if !changed {
                assert(flood_step(K, PS, W, H, cur@) == cur@);
            }
        }
        it = it + 1;
        if !changed {
            settled = true;
        }
    }
    proof {
        let r = flood_rounds(W, H);
        lemma_flood_iter_add(K, PS, W, H, init, it as nat, (r - it) as nat);
        if it < r {
            lemma_flood_iter_fixpoint(K, PS, W, H, cur@, (r - it) as nat);
        }
        assert((it + (r - it)) as nat == r);
        lemma_own_markers_facts(K, W, H);
        lemma_flood_iter_facts(K, PS, W, H, init, r);
        if flood_open(K, PS, n as int) {
            lemma_watershed_settles(K, PS, W, H, cur@);
        }
    }
    let out = GrayImage::from_parts(w, h, cur);
    proof {
        if flood_open(K, PS, n as int) {
            assert forall|x: int, y: int, qx: int, qy: int| #![trigger out.pixel(x, y), markers.pixel(qx, qy)]
                1 <= x < W - 1 && 1 <= y < H - 1 && 1 <= qx < W - 1 && 1 <= qy < H - 1
                && markers.pixel(qx, qy) == MarkerKind::Positive implies K[out.pixel(x, y) as int] == MarkerKind::Positive by {
                assert(out.pixel(x, y) == at(out.pixels(), W, x, y));
                assert(markers.pixel(qx, qy) == at(K, W, qx, qy));
            }
        }
    }
    out
}

} // verus!
