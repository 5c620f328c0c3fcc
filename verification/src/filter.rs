//! Edge detection: hysteresis thresholding of classified edge pixels.

use vstd::prelude::*;
use crate::image::GrayImage;
use crate::grid::{flat, in_grid, at, lemma_flat_bounds, lemma_flat_injective, count_of, lemma_count_of_update};

verus! {

/// Double-threshold class of an edge pixel: below the low threshold, between the thresholds,
/// or at or above the high threshold.
#[derive(Debug, Clone, Copy, PartialEq, Eq, Structural)]
pub enum EdgeClass {
    Suppressed,
    Weak,
    Strong,
}

/// (x, y) is an interior pixel (not on the border) of a `w` x `h` grid.
pub open spec fn interior(w: int, h: int, x: int, y: int) -> bool {
    1 <= x < w - 1 && 1 <= y < h - 1
}

/// Some 8-neighbour of (x, y) belongs to `s`.
pub open spec fn touches(s: Set<(int, int)>, x: int, y: int) -> bool {
    ||| s.contains((x - 1, y - 1))
    ||| s.contains((x, y - 1))
    ||| s.contains((x + 1, y - 1))
    ||| s.contains((x - 1, y))
    ||| s.contains((x + 1, y))
    ||| s.contains((x - 1, y + 1))
    ||| s.contains((x, y + 1))
    ||| s.contains((x + 1, y + 1))
}

/// Hysteresis closure of `s` at (x, y): a strong pixel belongs to `s`, and an interior weak
/// pixel with an 8-neighbour in `s` belongs to `s`.
pub open spec fn admissible_at(e: Seq<EdgeClass>, w: int, h: int, s: Set<(int, int)>, x: int, y: int) -> bool {
    &&& (in_grid(w, h, x, y) && at(e, w, x, y) == EdgeClass::Strong) ==> s.contains((x, y))
    &&& (interior(w, h, x, y) && at(e, w, x, y) == EdgeClass::Weak && touches(s, x, y)) ==> s.contains((x, y))
}

/// `s` contains the strong pixels and is closed under promotion of interior weak pixels
/// touching it.
pub open spec fn admissible(e: Seq<EdgeClass>, w: int, h: int, s: Set<(int, int)>) -> bool {
    forall|x: int, y: int| #[trigger] admissible_at(e, w, h, s, x, y)
}

/// (x, y) belongs to every admissible set: it is an edge of the hysteresis result.
pub open spec fn forced_edge(e: Seq<EdgeClass>, w: int, h: int, x: int, y: int) -> bool {
    forall|s: Set<(int, int)>| #[trigger] admissible(e, w, h, s) ==> s.contains((x, y))
}

/// Pixel (x, y) of the current classes has a strong 8-neighbour.
spec fn strong_neighbour(c: Seq<EdgeClass>, w: int, x: int, y: int) -> bool {
    ||| at(c, w, x - 1, y - 1) == EdgeClass::Strong
    ||| at(c, w, x, y - 1) == EdgeClass::Strong
    ||| at(c, w, x + 1, y - 1) == EdgeClass::Strong
    ||| at(c, w, x - 1, y) == EdgeClass::Strong
    ||| at(c, w, x + 1, y) == EdgeClass::Strong
    ||| at(c, w, x - 1, y + 1) == EdgeClass::Strong
    ||| at(c, w, x, y + 1) == EdgeClass::Strong
    ||| at(c, w, x + 1, y + 1) == EdgeClass::Strong
}

/// The classes evolve from the initial ones only by promoting interior weak pixels, and every
/// strong pixel is forced.
spec fn evolved_at(e: Seq<EdgeClass>, c: Seq<EdgeClass>, w: int, h: int, x: int, y: int) -> bool {
    in_grid(w, h, x, y) ==> {
        &&& (at(c, w, x, y) == at(e, w, x, y) || (at(e, w, x, y) == EdgeClass::Weak && at(c, w, x, y)
            == EdgeClass::Strong && interior(w, h, x, y)))
        &&& at(c, w, x, y) == EdgeClass::Strong ==> forced_edge(e, w, h, x, y)
    }
}

/// Row-major position shifted by (dx, dy).
proof fn lemma_flat_shift(w: int, x: int, y: int, dx: int, dy: int)
    requires
        -1 <= dy <= 1,
    ensures
        flat(w, x + dx, y + dy) == flat(w, x, y) + dy * w + dx,
{
    assert((y + dy) * w == y * w + dy * w) by (nonlinear_arith);
}

/// A strong pixel forced into every admissible set forces each interior weak 8-neighbour.
proof fn lemma_forced_step(e: Seq<EdgeClass>, w: int, h: int, x: int, y: int, c: Seq<EdgeClass>)
    requires
        interior(w, h, x, y),
        at(e, w, x, y) == EdgeClass::Weak,
        strong_neighbour(c, w, x, y),
        forall|a: int, b: int| #[trigger] evolved_at(e, c, w, h, a, b),
    ensures
        forced_edge(e, w, h, x, y),
{
    assert forall|s: Set<(int, int)>| #[trigger] admissible(e, w, h, s) implies s.contains((x, y)) by {
        assert(admissible_at(e, w, h, s, x, y));
        if at(c, w, x - 1, y - 1) == EdgeClass::Strong {
            assert(evolved_at(e, c, w, h, x - 1, y - 1));
        } else if at(c, w, x, y - 1) == EdgeClass::Strong {
            assert(evolved_at(e, c, w, h, x, y - 1));
        } else if at(c, w, x + 1, y - 1) == EdgeClass::Strong {
            assert(evolved_at(e, c, w, h, x + 1, y - 1));
        } else if at(c, w, x - 1, y) == EdgeClass::Strong {
            assert(evolved_at(e, c, w, h, x - 1, y));
        } else if at(c, w, x + 1, y) == EdgeClass::Strong {
            assert(evolved_at(e, c, w, h, x + 1, y));
        } else if at(c, w, x - 1, y + 1) == EdgeClass::Strong {
            assert(evolved_at(e, c, w, h, x - 1, y + 1));
        } else if at(c, w, x, y + 1) == EdgeClass::Strong {
            assert(evolved_at(e, c, w, h, x, y + 1));
        } else {
            assert(evolved_at(e, c, w, h, x + 1, y + 1));
        }
    }
}

/// A hysteresis edge is a strong pixel or an interior weak pixel.
pub proof fn lemma_forced_edge_class(e: Seq<EdgeClass>, w: int, h: int, x: int, y: int)
    requires
        forced_edge(e, w, h, x, y),
    ensures
        in_grid(w, h, x, y),
        at(e, w, x, y) == EdgeClass::Strong || (interior(w, h, x, y) && at(e, w, x, y) == EdgeClass::Weak),
{
    let s = Set::new(|p: (int, int)| in_grid(w, h, p.0, p.1) && (at(e, w, p.0, p.1) == EdgeClass::Strong
        || (interior(w, h, p.0, p.1) && at(e, w, p.0, p.1) == EdgeClass::Weak)));
    assert forall|a: int, b: int| #[trigger] admissible_at(e, w, h, s, a, b) by {}
    assert(admissible(e, w, h, s));
    assert(s.contains((x, y)));
}

/// The strength order of the classes: suppressed below weak below strong.
pub open spec fn class_rank(c: EdgeClass) -> int {
    match c {
        EdgeClass::Suppressed => 0,
        EdgeClass::Weak => 1,
        EdgeClass::Strong => 2,
    }
}

/// Hysteresis is monotone in the classes: when no pixel of `weaker` has a stronger class than
/// in `stronger` (as when either threshold is raised), every hysteresis edge of `weaker` is also
/// one of `stronger`. Raising the thresholds never adds an edge.
pub proof fn lemma_forced_edge_monotone(stronger: Seq<EdgeClass>, weaker: Seq<EdgeClass>, w: int, h: int, x: int, y: int)
    requires
        forall|a: int, b: int| in_grid(w, h, a, b) ==> class_rank(#[trigger] at(weaker, w, a, b))
            <= class_rank(at(stronger, w, a, b)),
        forced_edge(weaker, w, h, x, y),
    ensures
        forced_edge(stronger, w, h, x, y),
{
    assert forall|s: Set<(int, int)>| #[trigger] admissible(stronger, w, h, s) implies s.contains((x, y)) by {
        assert forall|a: int, b: int| #[trigger] admissible_at(weaker, w, h, s, a, b) by {
            assert(admissible_at(stronger, w, h, s, a, b));
            if in_grid(w, h, a, b) {
                assert(class_rank(at(weaker, w, a, b)) <= class_rank(at(stronger, w, a, b)));
            }
        }
        assert(admissible(weaker, w, h, s));
    }
}

/// Interior pixels processed in the current sweep (rows before `y0`, or row `y0` before `x0`)
/// that are still weak have no strong neighbour.
spec fn quiet_at(c: Seq<EdgeClass>, w: int, h: int, y0: int, x0: int, x: int, y: int) -> bool {
    (interior(w, h, x, y) && (y < y0 || (y == y0 && x < x0)) && at(c, w, x, y) == EdgeClass::Weak)
        ==> !strong_neighbour(c, w, x, y)
}

/// Hysteresis: repeatedly promote interior weak pixels that have a strong 8-neighbour until
/// nothing changes; the result marks the strong pixels. It is the least set of pixels that
/// contains the strong pixels and every interior weak pixel touching it.
pub fn hysteresis(edges: &GrayImage<EdgeClass>) -> (out: GrayImage<bool>)
    requires
        edges.wf(),
    ensures
        out.wf(),
        out.spec_width() == edges.spec_width(),
        out.spec_height() == edges.spec_height(),
        forall|x: int, y: int| #[trigger] out.in_bounds(x, y) ==> {
            &&& out.pixel(x, y) <==> forced_edge(edges.pixels(), edges.spec_width() as int, edges.spec_height() as int, x, y)
            &&& out.pixel(x, y) ==> (at(edges.pixels(), edges.spec_width() as int, x, y) == EdgeClass::Strong
                || (interior(edges.spec_width() as int, edges.spec_height() as int, x, y)
                && at(edges.pixels(), edges.spec_width() as int, x, y) == EdgeClass::Weak))
            &&& at(edges.pixels(), edges.spec_width() as int, x, y) == EdgeClass::Strong ==> out.pixel(x, y)
            &&& (interior(edges.spec_width() as int, edges.spec_height() as int, x, y)
                && at(edges.pixels(), edges.spec_width() as int, x, y) == EdgeClass::Weak
                && touches(Set::new(|p: (int, int)| out.in_bounds(p.0, p.1) && out.pixel(p.0, p.1)), x, y))
                ==> out.pixel(x, y)
        },
{
    let w = edges.width();
    let h = edges.height();
    let e = edges.data();
    let n = e.len();
    let ghost W = w as int;
    let ghost H = h as int;
    let ghost E = e@;
    let mut cur: Vec<EdgeClass> = Vec::new();
    let mut i: usize = 0;
    while i < n
        invariant
            0 <= i <= n,
            e@ == E,
            n == E.len(),
            cur@.len() == i,
            forall|k: int| 0 <= k < i ==> #[trigger] cur@[k] == E[k],
        decreases n - i,
    {
        cur.push(e[i]);
        i += 1;
    }
    proof {
        assert(cur@ =~= E);
        assert forall|a: int, b: int| #[trigger] evolved_at(E, cur@, W, H, a, b) by {
            if in_grid(W, H, a, b) && at(cur@, W, a, b) == EdgeClass::Strong {
                assert forall|s: Set<(int, int)>| #[trigger] admissible(E, W, H, s) implies s.contains((a, b)) by {
                    assert(admissible_at(E, W, H, s, a, b));
                }
            }
        }
    }
    loop
        invariant
            n == W * H,
            E.len() == n,
            W == w,
            H == h,
            cur@.len() == n,
            forall|a: int, b: int| #[trigger] evolved_at(E, cur@, W, H, a, b),
        ensures
            cur@.len() == n,
            forall|a: int, b: int| #[trigger] evolved_at(E, cur@, W, H, a, b),
            forall|a: int, b: int| #[trigger] quiet_at(cur@, W, H, H, 0, a, b),
        decreases count_of(cur@, EdgeClass::Weak),
    {
        let ghost START = cur@;
        let mut changed = false;
        let mut y: usize = 1;
        while y + 1 < h
            invariant
                n == W * H,
                E.len() == n,
                W == w,
                H == h,
                cur@.len() == n,
                1 <= y < usize::MAX,
                y <= h || h < 2,
                forall|a: int, b: int| #[trigger] evolved_at(E, cur@, W, H, a, b),
                !changed ==> cur@ == START,
                !changed ==> forall|a: int, b: int| #[trigger] quiet_at(cur@, W, H, y as int, 1, a, b),
                changed ==> count_of(cur@, EdgeClass::Weak) < count_of(START, EdgeClass::Weak),
            decreases h - y,
        {
            let mut x: usize = 1;
            while x + 1 < w
                invariant
                    n == W * H,
                    E.len() == n,
                    W == w,
                    H == h,
                    cur@.len() == n,
                    1 <= y,
                    y + 1 < h,
                    1 <= x < usize::MAX,
                    x <= w || w < 2,
                    forall|a: int, b: int| #[trigger] evolved_at(E, cur@, W, H, a, b),
                    !changed ==> cur@ == START,
                    !changed ==> forall|a: int, b: int| #[trigger] quiet_at(cur@, W, H, y as int, x as int, a, b),
                    changed ==> count_of(cur@, EdgeClass::Weak) < count_of(START, EdgeClass::Weak),
                decreases w - x,
            {
                let ghost C0 = cur@;
                proof {
                    lemma_flat_bounds(W, H, x as int, y as int);
                    lemma_flat_bounds(W, H, x - 1, y - 1);
                    lemma_flat_bounds(W, H, x + 1, y + 1);
                    lemma_flat_shift(W, x as int, y as int, -1, -1);
                    lemma_flat_shift(W, x as int, y as int, 0, -1);
                    lemma_flat_shift(W, x as int, y as int, 1, -1);
                    lemma_flat_shift(W, x as int, y as int, -1, 0);
                    lemma_flat_shift(W, x as int, y as int, 1, 0);
                    lemma_flat_shift(W, x as int, y as int, -1, 1);
                    lemma_flat_shift(W, x as int, y as int, 0, 1);
                    lemma_flat_shift(W, x as int, y as int, 1, 1);
                }
                let idx = y * w + x;
                if cur[idx] == EdgeClass::Weak {
                    let up = idx - w;
                    let down = idx + w;
                    let promote = cur[up - 1] == EdgeClass::Strong || cur[up] == EdgeClass::Strong
                        || cur[up + 1] == EdgeClass::Strong || cur[idx - 1] == EdgeClass::Strong
                        || cur[idx + 1] == EdgeClass::Strong || cur[down - 1] == EdgeClass::Strong
                        || cur[down] == EdgeClass::Strong || cur[down + 1] == EdgeClass::Strong;
                    if promote {
                        proof {
                            assert(strong_neighbour(C0, W, x as int, y as int));
                            assert(evolved_at(E, C0, W, H, x as int, y as int));
                            lemma_forced_step(E, W, H, x as int, y as int, C0);
                            lemma_count_of_update(C0, idx as int, EdgeClass::Weak, EdgeClass::Strong);
                        }
                        cur.set(idx, EdgeClass::Strong);
                        changed = true;
                        proof {
                            assert forall|a: int, b: int| #[trigger] evolved_at(E, cur@, W, H, a, b) by {
                                assert(evolved_at(E, C0, W, H, a, b));
                                if in_grid(W, H, a, b) {
                                    lemma_flat_bounds(W, H, a, b);
                                    if flat(W, a, b) == idx {
                                        lemma_flat_injective(W, a, b, x as int, y as int);
                                    }
                                }
                            }
                        }
                    } else {
                        proof {
                            if !changed {
                                assert forall|a: int, b: int| #[trigger] quiet_at(cur@, W, H, y as int, x + 1, a, b) by {
                                    assert(quiet_at(cur@, W, H, y as int, x as int, a, b));
                                }
                            }
                        }
                    }
                } else {
                    proof {
                        if !changed {
                            assert forall|a: int, b: int| #[trigger] quiet_at(cur@, W, H, y as int, x + 1, a, b) by {
                                assert(quiet_at(cur@, W, H, y as int, x as int, a, b));
                                if a == x && b == y {
                                    lemma_flat_bounds(W, H, a, b);
                                }
                            }
                        }
                    }
                }
                x = x + 1;
            }
            proof {
                if !changed {
                    assert forall|a: int, b: int| #[trigger] quiet_at(cur@, W, H, y + 1, 1, a, b) by {
                        assert(quiet_at(cur@, W, H, y as int, x as int, a, b));
                    }
                }
            }
            y = y + 1;
        }
        if !changed {
            proof {
                assert forall|a: int, b: int| #[trigger] quiet_at(cur@, W, H, H, 0, a, b) by {
                    assert(quiet_at(cur@, W, H, y as int, 1, a, b));
                }
            }
            break;
        }
    }
    let mut out: Vec<bool> = Vec::new();
    let mut k: usize = 0;
    while k < n
        invariant
            0 <= k <= n,
            cur@.len() == n,
            out@.len() == k,
            forall|j: int| 0 <= j < k ==> #[trigger] out@[j] == (cur@[j] == EdgeClass::Strong),
        decreases n - k,
    {
        out.push(cur[k] == EdgeClass::Strong);
        k += 1;
    }
    let result = GrayImage::from_parts(w, h, out);
    proof {
        let C = cur@;
        let O = out@;
        let ss = Set::new(|p: (int, int)| result.in_bounds(p.0, p.1) && result.pixel(p.0, p.1));
        assert forall|x: int, y: int| #[trigger] admissible_at(E, W, H, ss, x, y) by {
            if in_grid(W, H, x, y) {
                lemma_flat_bounds(W, H, x, y);
                assert(evolved_at(E, C, W, H, x, y));
                assert(result.pixel(x, y) == (at(C, W, x, y) == EdgeClass::Strong));
                if interior(W, H, x, y) && at(E, W, x, y) == EdgeClass::Weak && touches(ss, x, y) && at(C, W, x, y) != EdgeClass::Strong {
                    assert(quiet_at(C, W, H, H, 0, x, y));
                    if ss.contains((x - 1, y - 1)) { lemma_flat_bounds(W, H, x - 1, y - 1); }
                    if ss.contains((x, y - 1)) { lemma_flat_bounds(W, H, x, y - 1); }
                    if ss.contains((x + 1, y - 1)) { lemma_flat_bounds(W, H, x + 1, y - 1); }
                    if ss.contains((x - 1, y)) { lemma_flat_bounds(W, H, x - 1, y); }
                    if ss.contains((x + 1, y)) { lemma_flat_bounds(W, H, x + 1, y); }
                    if ss.contains((x - 1, y + 1)) { lemma_flat_bounds(W, H, x - 1, y + 1); }
                    if ss.contains((x, y + 1)) { lemma_flat_bounds(W, H, x, y + 1); }
                    if ss.contains((x + 1, y + 1)) { lemma_flat_bounds(W, H, x + 1, y + 1); }
                }
            }
        }
        assert(admissible(E, W, H, ss));
        assert forall|x: int, y: int| #[trigger] result.in_bounds(x, y) implies {
            &&& result.pixel(x, y) <==> forced_edge(E, W, H, x, y)
            &&& result.pixel(x, y) ==> (at(E, W, x, y) == EdgeClass::Strong
                || (interior(W, H, x, y) && at(E, W, x, y) == EdgeClass::Weak))
            &&& at(E, W, x, y) == EdgeClass::Strong ==> result.pixel(x, y)
            &&& (interior(W, H, x, y) && at(E, W, x, y) == EdgeClass::Weak
                && touches(Set::new(|p: (int, int)| result.in_bounds(p.0, p.1) && result.pixel(p.0, p.1)), x, y))
                ==> result.pixel(x, y)
        } by {
            lemma_flat_bounds(W, H, x, y);
            assert(evolved_at(E, C, W, H, x, y));
            assert(result.pixel(x, y) == (at(C, W, x, y) == EdgeClass::Strong));
            if result.pixel(x, y) {
                lemma_forced_edge_class(E, W, H, x, y);
            }
            if forced_edge(E, W, H, x, y) {
                assert(ss.contains((x, y)));
            }
            let ss = Set::new(|p: (int, int)| result.in_bounds(p.0, p.1) && result.pixel(p.0, p.1));
            if interior(W, H, x, y) && at(E, W, x, y) == EdgeClass::Weak && touches(ss, x, y) {
                if at(C, W, x, y) != EdgeClass::Strong {
                    assert(at(C, W, x, y) == EdgeClass::Weak);
                    assert(quiet_at(C, W, H, H, 0, x, y));
                    if ss.contains((x - 1, y - 1)) { lemma_flat_bounds(W, H, x - 1, y - 1); }
                    if ss.contains((x, y - 1)) { lemma_flat_bounds(W, H, x, y - 1); }
                    if ss.contains((x + 1, y - 1)) { lemma_flat_bounds(W, H, x + 1, y - 1); }
                    if ss.contains((x - 1, y)) { lemma_flat_bounds(W, H, x - 1, y); }
                    if ss.contains((x + 1, y)) { lemma_flat_bounds(W, H, x + 1, y); }
                    if ss.contains((x - 1, y + 1)) { lemma_flat_bounds(W, H, x - 1, y + 1); }
                    if ss.contains((x, y + 1)) { lemma_flat_bounds(W, H, x, y + 1); }
                    if ss.contains((x + 1, y + 1)) { lemma_flat_bounds(W, H, x + 1, y + 1); }
                }
            }
        }
    }
    result
}

} // verus!
