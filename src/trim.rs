//! Trimming: the tight bounding box of the non-transparent pixels of a buffer,
//! and the copy of the buffer cut down to it.

use vstd::prelude::*;

use crate::raster::{bitmap_crop, bitmap_dimensions, bitmap_pixel, blank_bitmap, Bitmap, Raster};

verus! {

/// A rectangle `(x, y, width, height)` in pixel coordinates.
pub type Rect = (int, int, int, int);

/// Every non-transparent pixel of `p` lies in `b`.
pub open spec fn encloses(p: Raster, b: Rect) -> bool {
    forall|i: int, j: int|
        0 <= i < p.width && 0 <= j < p.height() && #[trigger] p.visible(i, j) ==> b.0 <= i < b.0 + b.2
            && b.1 <= j < b.1 + b.3
}

/// `b` is the tight bounding box of the non-transparent pixels of `p`: it
/// holds them all, and each of its four edges touches one of them.
pub open spec fn tight(p: Raster, b: Rect) -> bool {
    &&& 0 < b.2 && 0 < b.3
    &&& p.holds_rect(b.0, b.1, b.2, b.3)
    &&& encloses(p, b)
    &&& exists|j: int| 0 <= j < p.height() && #[trigger] p.visible(b.0, j)
    &&& exists|j: int| 0 <= j < p.height() && #[trigger] p.visible(b.0 + b.2 - 1, j)
    &&& exists|i: int| 0 <= i < p.width && #[trigger] p.visible(i, b.1)
    &&& exists|i: int| 0 <= i < p.width && #[trigger] p.visible(i, b.1 + b.3 - 1)
}

pub open spec fn has_tight_box(p: Raster) -> bool {
    exists|b: Rect| tight(p, b)
}

/// The part of `p` that trimming keeps: its tight box, or, where every pixel is
/// transparent, the empty rectangle at the origin.
pub open spec fn trim_window(p: Raster) -> Rect {
    if has_tight_box(p) {
        choose|b: Rect| tight(p, b)
    } else {
        (0, 0, 0, 0)
    }
}

/// What trimming makes of `p`: its tight box, or, where every pixel is
/// transparent, a single transparent pixel.
pub open spec fn trimmed(p: Raster) -> Raster {
    if has_tight_box(p) {
        let b = trim_window(p);
        p.region(b.0, b.1, b.2, b.3)
    } else {
        Raster::transparent(1, 1)
    }
}

/// A box that holds every visible pixel of `p`, among them `(x0, y0)`, can
/// be narrowed edge by edge to a tight box.
proof fn lemma_narrow(p: Raster, b: Rect, x0: int, y0: int)
    requires
        p.wf(),
        p.holds_rect(b.0, b.1, b.2, b.3),
        encloses(p, b),
        0 <= x0 < p.width,
        0 <= y0 < p.height(),
        p.visible(x0, y0),
    ensures
        has_tight_box(p),
    decreases b.2 + b.3,
{
    assert(b.0 <= x0 < b.0 + b.2 && b.1 <= y0 < b.1 + b.3);
    if !(exists|j: int| 0 <= j < p.height() && #[trigger] p.visible(b.0, j)) {
        let c = (b.0 + 1, b.1, b.2 - 1, b.3);
        assert(p.visible(x0, y0));
        assert(x0 != b.0);
        lemma_narrow(p, c, x0, y0);
    } else if !(exists|j: int| 0 <= j < p.height() && #[trigger] p.visible(b.0 + b.2 - 1, j)) {
        let c = (b.0, b.1, b.2 - 1, b.3);
        assert(x0 != b.0 + b.2 - 1);
        lemma_narrow(p, c, x0, y0);
    } else if !(exists|i: int| 0 <= i < p.width && #[trigger] p.visible(i, b.1)) {
        let c = (b.0, b.1 + 1, b.2, b.3 - 1);
        assert(y0 != b.1);
        lemma_narrow(p, c, x0, y0);
    } else if !(exists|i: int| 0 <= i < p.width && #[trigger] p.visible(i, b.1 + b.3 - 1)) {
        let c = (b.0, b.1, b.2, b.3 - 1);
        assert(y0 != b.1 + b.3 - 1);
        lemma_narrow(p, c, x0, y0);
    } else {
        assert(tight(p, b));
    }
}

/// A buffer with a visible pixel has a tight box.
pub proof fn lemma_visible_has_box(p: Raster, x0: int, y0: int)
    requires
        p.wf(),
        0 <= x0 < p.width,
        0 <= y0 < p.height(),
        p.visible(x0, y0),
    ensures
        has_tight_box(p),
{
    lemma_narrow(p, (0, 0, p.width as int, p.height() as int), x0, y0);
}

/// A buffer has one tight box at most.
pub proof fn lemma_tight_unique(p: Raster, a: Rect, b: Rect)
    requires
        tight(p, a),
        tight(p, b),
    ensures
        a == b,
{
    let j1 = choose|j: int| 0 <= j < p.height() && #[trigger] p.visible(a.0, j);
    let j2 = choose|j: int| 0 <= j < p.height() && #[trigger] p.visible(b.0, j);
    let j3 = choose|j: int| 0 <= j < p.height() && #[trigger] p.visible(a.0 + a.2 - 1, j);
    let j4 = choose|j: int| 0 <= j < p.height() && #[trigger] p.visible(b.0 + b.2 - 1, j);
    let i1 = choose|i: int| 0 <= i < p.width && #[trigger] p.visible(i, a.1);
    let i2 = choose|i: int| 0 <= i < p.width && #[trigger] p.visible(i, b.1);
    let i3 = choose|i: int| 0 <= i < p.width && #[trigger] p.visible(i, a.1 + a.3 - 1);
    let i4 = choose|i: int| 0 <= i < p.width && #[trigger] p.visible(i, b.1 + b.3 - 1);
    assert(p.visible(a.0, j1));
    assert(p.visible(b.0, j2));
    assert(p.visible(a.0 + a.2 - 1, j3));
    assert(p.visible(b.0 + b.2 - 1, j4));
    assert(p.visible(i1, a.1));
    assert(p.visible(i2, b.1));
    assert(p.visible(i3, a.1 + a.3 - 1));
    assert(p.visible(i4, b.1 + b.3 - 1));
}

/// The trimmed copy of a buffer is its own tight box, unless it is the single
/// transparent pixel.
proof fn lemma_trimmed_is_tight(p: Raster)
    requires
        p.wf(),
        has_tight_box(p),
    ensures
        tight(trimmed(p), (0, 0, trimmed(p).width as int, trimmed(p).height() as int)),
        trimmed(p).wf(),
{
    let b = trim_window(p);
    let q = trimmed(p);
    assert(tight(p, b));
    assert forall|i: int, j: int| 0 <= i < q.width && 0 <= j < q.height() implies q.visible(i, j)
        == p.visible(b.0 + i, b.1 + j) by {}
    let j1 = choose|j: int| 0 <= j < p.height() && #[trigger] p.visible(b.0, j);
    let j3 = choose|j: int| 0 <= j < p.height() && #[trigger] p.visible(b.0 + b.2 - 1, j);
    let i1 = choose|i: int| 0 <= i < p.width && #[trigger] p.visible(i, b.1);
    let i3 = choose|i: int| 0 <= i < p.width && #[trigger] p.visible(i, b.1 + b.3 - 1);
    assert(p.visible(b.0, j1) && p.visible(b.0 + b.2 - 1, j3));
    assert(p.visible(i1, b.1) && p.visible(i3, b.1 + b.3 - 1));
    assert(q.visible(0, j1 - b.1));
    assert(q.visible(b.2 - 1, j3 - b.1));
    assert(q.visible(i1 - b.0, 0));
    assert(q.visible(i3 - b.0, b.3 - 1));
    assert(q.wf());
    assert(encloses(q, (0, 0, q.width as int, q.height() as int)));
}

/// Each edge row and edge column of `q` holds a visible pixel.
pub open spec fn edges_visible(q: Raster) -> bool {
    &&& 0 < q.width && 0 < q.height()
    &&& exists|j: int| 0 <= j < q.height() && #[trigger] q.visible(0, j)
    &&& exists|j: int| 0 <= j < q.height() && #[trigger] q.visible(q.width - 1, j)
    &&& exists|i: int| 0 <= i < q.width && #[trigger] q.visible(i, 0)
    &&& exists|i: int| 0 <= i < q.width && #[trigger] q.visible(i, q.height() - 1)
}

/// No edge row or edge column of a trimmed buffer is wholly transparent; the
/// one exception is the single transparent pixel left of a buffer that had no
/// visible pixel.
pub proof fn lemma_trim_minimal(p: Raster)
    requires
        p.wf(),
    ensures
        trimmed(p).wf(),
        trimmed(p) == Raster::transparent(1, 1) || edges_visible(trimmed(p)),
{
    if has_tight_box(p) {
        lemma_trimmed_is_tight(p);
    }
}

/// Trimming a buffer that was trimmed already changes nothing.
pub proof fn lemma_trim_idempotent(p: Raster)
    requires
        p.wf(),
    ensures
        trimmed(trimmed(p)) == trimmed(p),
{
    let q = trimmed(p);
    if has_tight_box(p) {
        lemma_trimmed_is_tight(p);
        let full = (0, 0, q.width as int, q.height() as int);
        assert(has_tight_box(q));
        lemma_tight_unique(q, trim_window(q), full);
        assert(q.region(0, 0, q.width as int, q.height() as int).rows =~~= q.rows);
    } else {
        if has_tight_box(q) {
            let b = choose|b: Rect| tight(q, b);
            let j = choose|j: int| 0 <= j < q.height() && #[trigger] q.visible(b.0, j);
            assert(q.visible(b.0, j));
        }
    }
}

/// Pixel `(i, j)` comes before pixel `(x, y)` in row-major order.
pub open spec fn seen(p: Raster, y: int, x: int, i: int, j: int) -> bool {
    0 <= i < p.width && 0 <= j && (j < y || (j == y && i < x))
}

/// What a row-major scan of `p` knows once it has reached pixel `(x, y)`:
/// whether it met a visible pixel, and the least box around those it met,
/// with a visible pixel on each edge (`wl`, `wr` are rows, `wt`, `wb` columns).
pub open spec fn scan_inv(
    p: Raster,
    y: int,
    x: int,
    found: bool,
    bx: (u32, u32, u32, u32),
    wl: int,
    wr: int,
    wt: int,
    wb: int,
) -> bool {
    let (min_x, max_x, min_y, max_y) = bx;
    &&& found <==> exists|i: int, j: int| seen(p, y, x, i, j) && #[trigger] p.visible(i, j)
    &&& found ==> {
        &&& forall|i: int, j: int|
            seen(p, y, x, i, j) && #[trigger] p.visible(i, j) ==> min_x <= i <= max_x && min_y <= j
                <= max_y
        &&& seen(p, y, x, min_x as int, wl) && p.visible(min_x as int, wl)
        &&& seen(p, y, x, max_x as int, wr) && p.visible(max_x as int, wr)
        &&& seen(p, y, x, wt, min_y as int) && p.visible(wt, min_y as int)
        &&& seen(p, y, x, wb, max_y as int) && p.visible(wb, max_y as int)
    }
}

/// The tight box of the visible pixels of `b`, as `(x, y, width, height)`;
/// `None` where every pixel is transparent.
pub fn visible_bounds(b: &Bitmap) -> (r: Option<(u32, u32, u32, u32)>)
    ensures
        r is Some <==> has_tight_box(b@),
        r matches Some(t) ==> trim_window(b@) == (t.0 as int, t.1 as int, t.2 as int, t.3 as int),
{
    let (w, h) = bitmap_dimensions(b);
    let ghost p = b@;
    let mut found = false;
    let mut bx: (u32, u32, u32, u32) = (0, 0, 0, 0);
    let ghost mut wl: int = 0;
    let ghost mut wr: int = 0;
    let ghost mut wt: int = 0;
    let ghost mut wb: int = 0;
    let mut y: u32 = 0;
    while y < h
        invariant
            p == b@,
            p.wf(),
            w == p.width,
            h == p.height(),
            y <= h,
            scan_inv(p, y as int, 0, found, bx, wl, wr, wt, wb),
        decreases h - y,
    {
        let mut x: u32 = 0;
        assert forall|i: int, j: int| seen(p, y as int, 0, i, j) == seen(p, y as int, x as int, i, j) by {}
        while x < w
            invariant
                p == b@,
                p.wf(),
                w == p.width,
                h == p.height(),
                y < h,
                x <= w,
                scan_inv(p, y as int, x as int, found, bx, wl, wr, wt, wb),
            decreases w - x,
        {
            let px = bitmap_pixel(b, x, y);
            let ghost old_found = found;
            let ghost old_bx = bx;
            if px.3 > 0 {
                if !found {
                    bx = (x, x, y, y);
                    proof {
                        wl = y as int;
                        wr = y as int;
                        wt = x as int;
                        wb = x as int;
                    }
                } else {
                    if x < bx.0 {
                        bx.0 = x;
                        proof {
                            wl = y as int;
                        }
                    }
                    if x > bx.1 {
                        bx.1 = x;
                        proof {
                            wr = y as int;
                        }
                    }
                    if y > bx.3 {
                        bx.3 = y;
                        proof {
                            wb = x as int;
                        }
                    }
                }
                found = true;
            }
            proof {
                assert(p.visible(x as int, y as int) == (px.3 > 0));
                assert forall|i: int, j: int| seen(p, y as int, x + 1, i, j) == (seen(p, y as int, x as int, i, j) || (i == x && j == y)) by {}
                if px.3 > 0 {
                    assert(seen(p, y as int, x + 1, x as int, y as int) && p.visible(x as int, y as int));
                }
            }
            x = x + 1;
        }
        proof {
            assert forall|i: int, j: int| seen(p, y as int, x as int, i, j) == seen(p, y + 1, 0, i, j) by {}
        }
        y = y + 1;
    }
    proof {
        assert forall|i: int, j: int| 0 <= i < p.width && 0 <= j < p.height() implies seen(p, y as int, 0, i, j) by {}
    }
    if found {
        let r = (bx.0, bx.2, bx.1 - bx.0 + 1, bx.3 - bx.2 + 1);
        proof {
            let t = (r.0 as int, r.1 as int, r.2 as int, r.3 as int);
            assert(p.visible(bx.0 as int, wl));
            assert(p.visible(bx.1 as int, wr));
            assert(p.visible(wt, bx.2 as int));
            assert(p.visible(wb, bx.3 as int));
            assert(encloses(p, t));
            assert(0 <= wl < p.height() && p.visible(t.0, wl));
            assert(0 <= wr < p.height() && p.visible(t.0 + t.2 - 1, wr));
            assert(0 <= wt < p.width && p.visible(wt, t.1));
            assert(0 <= wb < p.width && p.visible(wb, t.1 + t.3 - 1));
            assert(tight(p, t));
            lemma_tight_unique(p, t, trim_window(p));
        }
        Some(r)
    } else {
        proof {
            if has_tight_box(p) {
                let t = choose|t: Rect| tight(p, t);
                let j = choose|j: int| 0 <= j < p.height() && #[trigger] p.visible(t.0, j);
                assert(seen(p, y as int, 0, t.0, j) && p.visible(t.0, j));
            }
        }
        None
    }
}

/// The copy of `b` cut down to the tight box of its visible pixels, and the
/// position of that box in `b`; a single transparent pixel at the origin where
/// `b` has no visible pixel.
pub fn trim(b: &Bitmap) -> (r: (Bitmap, u32, u32))
    ensures
        r.0@ == trimmed(b@),
        r.1 as int == trim_window(b@).0,
        r.2 as int == trim_window(b@).1,
{
    let (img, x, y, _w, _h) = trim_with_window(b);
    (img, x, y)
}

/// The trimmed copy of `b` and the window of `b` that it shows.
pub(crate) fn trim_with_window(b: &Bitmap) -> (r: (Bitmap, u32, u32, u32, u32))
    ensures
        r.0@ == trimmed(b@),
        trim_window(b@) == (r.1 as int, r.2 as int, r.3 as int, r.4 as int),
        r.1 + r.3 <= b@.width,
        r.2 + r.4 <= b@.height(),
{
    match visible_bounds(b) {
        Some((x, y, w, h)) => {
            proof {
                assert(tight(b@, trim_window(b@)));
            }
            (bitmap_crop(b, x, y, w, h), x, y, w, h)
        },
        None => (blank_bitmap(1, 1), 0, 0, 0, 0),
    }
}

} // verus!
