//! Shelf packing as a mathematical function: where each image goes, which
//! images share a sheet, and what each sheet's canvas holds before trimming.

use vstd::prelude::*;

use crate::raster::Raster;
use crate::trim::Rect;

verus! {

/// The packer's state between two images: the groups of image indices already
/// flushed as sheets, the group on the open canvas, and the cursor.
pub ghost struct Shelf {
    pub done: Seq<Seq<int>>,
    pub open: Seq<int>,
    pub x: int,
    pub y: int,
    pub row: int,
}

pub open spec fn shelf_start() -> Shelf {
    Shelf { done: Seq::empty(), open: Seq::empty(), x: 0, y: 0, row: 0 }
}

/// The cursor `(x, y, row height)` once an image of width `w` comes: on the
/// same row where it fits, else at the start of the next row.
pub open spec fn wrapped(s: Shelf, w: int, mw: int) -> (int, int, int) {
    if s.x + w > mw {
        (0, s.y + s.row, 0)
    } else {
        (s.x, s.y, s.row)
    }
}

/// An image of size `w` by `h` does not fit under the cursor: the canvas is full.
pub open spec fn overflows(s: Shelf, w: int, h: int, mw: int, mh: int) -> bool {
    wrapped(s, w, mw).1 + h > mh
}

/// Where an image of size `w` by `h` is placed.
pub open spec fn spot(s: Shelf, w: int, h: int, mw: int, mh: int) -> (int, int) {
    if overflows(s, w, h, mw, mh) {
        (0, 0)
    } else {
        (wrapped(s, w, mw).0, wrapped(s, w, mw).1)
    }
}

/// The state after image `i`, of size `w` by `h`, is placed.
pub open spec fn step(s: Shelf, i: int, w: int, h: int, mw: int, mh: int) -> Shelf {
    let (x, y, row) = wrapped(s, w, mw);
    if y + h > mh {
        Shelf {
            done: if s.open.len() > 0 { s.done.push(s.open) } else { s.done },
            open: seq![i],
            x: w,
            y: 0,
            row: h,
        }
    } else {
        Shelf { done: s.done, open: s.open.push(i), x: x + w, y, row: if row >= h { row } else { h } }
    }
}

/// The state after the first `n` images of sizes `sizes` are placed.
pub open spec fn shelf_after(sizes: Seq<(int, int)>, mw: int, mh: int, n: nat) -> Shelf
    decreases n,
{
    if n == 0 {
        shelf_start()
    } else {
        step(
            shelf_after(sizes, mw, mh, (n - 1) as nat),
            n - 1,
            sizes[n - 1].0,
            sizes[n - 1].1,
            mw,
            mh,
        )
    }
}

/// The position of each image on its canvas.
pub open spec fn positions(sizes: Seq<(int, int)>, mw: int, mh: int) -> Seq<(int, int)> {
    Seq::new(
        sizes.len(),
        |i: int| spot(shelf_after(sizes, mw, mh, i as nat), sizes[i].0, sizes[i].1, mw, mh),
    )
}

/// The rectangle that image `i` occupies on its canvas.
pub open spec fn placed(sizes: Seq<(int, int)>, mw: int, mh: int, i: int) -> Rect {
    let p = positions(sizes, mw, mh)[i];
    (p.0, p.1, sizes[i].0, sizes[i].1)
}

/// The images of each sheet, as indices into the input, in input order.
pub open spec fn groups(sizes: Seq<(int, int)>, mw: int, mh: int) -> Seq<Seq<int>> {
    let s = shelf_after(sizes, mw, mh, sizes.len());
    if s.open.len() > 0 {
        s.done.push(s.open)
    } else {
        s.done
    }
}

/// Two rectangles share no pixel.
pub open spec fn disjoint(a: Rect, b: Rect) -> bool {
    a.0 + a.2 <= b.0 || b.0 + b.2 <= a.0 || a.1 + a.3 <= b.1 || b.1 + b.3 <= a.1
}

/// The images of group `g` occupy pairwise disjoint rectangles.
pub open spec fn group_disjoint(sizes: Seq<(int, int)>, mw: int, mh: int, g: Seq<int>) -> bool {
    forall|a: int, b: int|
        0 <= a < g.len() && 0 <= b < g.len() && a != b ==> disjoint(
            #[trigger] placed(sizes, mw, mh, g[a]),
            #[trigger] placed(sizes, mw, mh, g[b]),
        )
}

pub open spec fn sizes_valid(sizes: Seq<(int, int)>) -> bool {
    forall|i: int| 0 <= i < sizes.len() ==> 0 <= #[trigger] sizes[i].0 && 0 <= sizes[i].1
}

/// Every image fits a canvas of `mw` by `mh` pixels.
pub open spec fn sizes_fit(sizes: Seq<(int, int)>, mw: int, mh: int) -> bool {
    forall|i: int| 0 <= i < sizes.len() ==> #[trigger] sizes[i].0 <= mw && sizes[i].1 <= mh
}

/// What holds of the state after the first `n` images.
pub open spec fn shelf_ok(sizes: Seq<(int, int)>, mw: int, mh: int, n: nat) -> bool {
    let s = shelf_after(sizes, mw, mh, n);
    &&& s.done.flatten_alt() + s.open == Seq::new(n, |i: int| i)
    &&& n > 0 ==> s.open.len() > 0
    &&& forall|k: int| 0 <= k < s.done.len() ==> #[trigger] s.done[k].len() > 0
    &&& 0 <= s.x && 0 <= s.y && 0 <= s.row
    &&& sizes_fit(sizes, mw, mh) ==> s.x <= mw && s.y <= mh && s.row <= mh
    &&& forall|k: int, t: int|
        0 <= k < s.done.len() && 0 <= t < s.done[k].len() ==> 0 <= #[trigger] s.done[k][t] < n
    &&& forall|t: int| 0 <= t < s.open.len() ==> 0 <= #[trigger] s.open[t] < n
    &&& forall|t: int|
        0 <= t < s.open.len() ==> {
            let r = #[trigger] placed(sizes, mw, mh, s.open[t]);
            r.1 + r.3 <= s.y || (r.1 == s.y && r.3 <= s.row && r.0 + r.2 <= s.x)
        }
    &&& forall|k: int| 0 <= k < s.done.len() ==> group_disjoint(sizes, mw, mh, #[trigger] s.done[k])
    &&& group_disjoint(sizes, mw, mh, s.open)
    &&& forall|i: int|
        0 <= i < n ==> {
            let r = #[trigger] placed(sizes, mw, mh, i);
            0 <= r.0 && 0 <= r.1 && (sizes_fit(sizes, mw, mh) ==> r.0 + r.2 <= mw && r.1 + r.3 <= mh)
        }
}

pub proof fn lemma_shelf(sizes: Seq<(int, int)>, mw: int, mh: int, n: nat)
    requires
        0 <= mw,
        0 <= mh,
        n <= sizes.len(),
        sizes_valid(sizes),
    ensures
        shelf_ok(sizes, mw, mh, n),
    decreases n,
{
    if n == 0 {
        let s = shelf_after(sizes, mw, mh, n);
        assert(s.done.flatten_alt() + s.open =~= Seq::new(n, |i: int| i));
    } else {
        let m = (n - 1) as nat;
        lemma_shelf(sizes, mw, mh, m);
        let s = shelf_after(sizes, mw, mh, m);
        let s2 = shelf_after(sizes, mw, mh, n);
        let (w, h) = sizes[m as int];
        assert(0 <= w && 0 <= h);
        let (x, y, row) = wrapped(s, w, mw);
        let r = placed(sizes, mw, mh, m as int);
        assert(positions(sizes, mw, mh)[m as int] == spot(s, w, h, mw, mh));
        if y + h > mh {
            assert(r == (0int, 0int, w, h));
            if s.open.len() > 0 {
                assert(s2.done.drop_last() =~= s.done);
                assert(s2.done.flatten_alt() =~= s.done.flatten_alt() + s.open);
            }
            assert(s2.done.flatten_alt() + s2.open =~= Seq::new(n, |i: int| i));
            assert(s2.open[0] == m);
            assert forall|k: int| 0 <= k < s2.done.len() implies group_disjoint(
                sizes,
                mw,
                mh,
                #[trigger] s2.done[k],
            ) by {
                if k < s.done.len() {
                    assert(s2.done[k] == s.done[k]);
                }
            }
            assert forall|k: int| 0 <= k < s2.done.len() implies #[trigger] s2.done[k].len() > 0 by {
                if k < s.done.len() {
                    assert(s2.done[k] == s.done[k]);
                }
            }
            assert forall|k: int, t: int|
                0 <= k < s2.done.len() && 0 <= t < s2.done[k].len() implies 0 <= #[trigger] s2.done[k][t]
                < n by {
                if k < s.done.len() {
                    assert(s2.done[k] == s.done[k]);
                }
            }
            if sizes_fit(sizes, mw, mh) {
                assert(sizes[m as int].0 <= mw);
            }
        } else {
            assert(r == (x, y, w, h));
            assert(s2.open == s.open.push(m as int));
            assert(s2.done.flatten_alt() + s2.open =~= Seq::new(n, |i: int| i)) by {
                assert(s.done.flatten_alt() + s.open =~= Seq::new(m, |i: int| i));
                assert(s.done.flatten_alt() + s.open.push(m as int) =~= (s.done.flatten_alt() + s.open).push(
                    m as int,
                ));
                assert(Seq::new(m, |i: int| i).push(m as int) =~= Seq::new(n, |i: int| i));
            }
            assert forall|t: int| 0 <= t < s.open.len() implies {
                let q = #[trigger] placed(sizes, mw, mh, s.open[t]);
                (q.1 + q.3 <= y || q.0 + q.2 <= x) && (q.1 + q.3 <= y || (q.1 == y && q.3 <= s2.row
                    && q.0 + q.2 <= s2.x))
            } by {
                let q = placed(sizes, mw, mh, s.open[t]);
                assert(q.1 + q.3 <= s.y || (q.1 == s.y && q.3 <= s.row && q.0 + q.2 <= s.x));
            }
            if sizes_fit(sizes, mw, mh) {
                assert(sizes[m as int].0 <= mw);
            }
            assert forall|t: int| 0 <= t < s2.open.len() implies 0 <= #[trigger] s2.open[t] < n by {
                if t < s.open.len() {
                    assert(s2.open[t] == s.open[t]);
                }
            }
            assert forall|t: int| 0 <= t < s2.open.len() implies {
                let q = #[trigger] placed(sizes, mw, mh, s2.open[t]);
                q.1 + q.3 <= s2.y || (q.1 == s2.y && q.3 <= s2.row && q.0 + q.2 <= s2.x)
            } by {
                if t < s.open.len() {
                    assert(s2.open[t] == s.open[t]);
                }
            }
            assert forall|a: int, b: int|
                0 <= a < s2.open.len() && 0 <= b < s2.open.len() && a != b implies disjoint(
                #[trigger] placed(sizes, mw, mh, s2.open[a]),
                #[trigger] placed(sizes, mw, mh, s2.open[b]),
            ) by {
                if a < s.open.len() {
                    assert(s2.open[a] == s.open[a]);
                }
                if b < s.open.len() {
                    assert(s2.open[b] == s.open[b]);
                }
                if a < s.open.len() && b < s.open.len() {
                    assert(disjoint(placed(sizes, mw, mh, s.open[a]), placed(sizes, mw, mh, s.open[b])));
                }
            }
        }
        assert forall|i: int| 0 <= i < n implies {
            let q = #[trigger] placed(sizes, mw, mh, i);
            0 <= q.0 && 0 <= q.1 && (sizes_fit(sizes, mw, mh) ==> q.0 + q.2 <= mw && q.1 + q.3 <= mh)
        } by {
            if i < m {
                let q = placed(sizes, mw, mh, i);
                assert(0 <= q.0 && 0 <= q.1 && (sizes_fit(sizes, mw, mh) ==> q.0 + q.2 <= mw && q.1 + q.3
                    <= mh));
            } else {
                if sizes_fit(sizes, mw, mh) {
                    assert(sizes[m as int].0 <= mw);
                }
            }
        }
    }
}

/// Taken sheet after sheet, the groups list every image once, in input order.
pub proof fn lemma_groups_in_order(sizes: Seq<(int, int)>, mw: int, mh: int)
    requires
        0 <= mw,
        0 <= mh,
        sizes_valid(sizes),
    ensures
        groups(sizes, mw, mh).flatten() == Seq::new(sizes.len(), |i: int| i),
{
    let n = sizes.len();
    lemma_shelf(sizes, mw, mh, n);
    let s = shelf_after(sizes, mw, mh, n);
    let g = groups(sizes, mw, mh);
    g.lemma_flatten_and_flatten_alt_are_equivalent();
    if s.open.len() > 0 {
        assert(g.drop_last() =~= s.done);
    } else {
        assert(s.done.flatten_alt() + s.open =~= s.done.flatten_alt());
    }
}

/// The sizes of a sequence of buffers, as `(width, height)`.
pub open spec fn sizes_of(srcs: Seq<Raster>) -> Seq<(int, int)> {
    srcs.map_values(|r: Raster| (r.width as int, r.height() as int))
}

/// The canvas of `mw` by `mh` pixels after the images of group `g` are copied
/// onto it, in order, each at its position.
pub open spec fn render(srcs: Seq<Raster>, mw: int, mh: int, g: Seq<int>) -> Raster
    decreases g.len(),
{
    if g.len() == 0 {
        Raster::transparent(mw as nat, mh as nat)
    } else {
        let i = g.last();
        let p = positions(sizes_of(srcs), mw, mh)[i];
        render(srcs, mw, mh, g.drop_last()).paste(srcs[i], p.0, p.1)
    }
}

pub open spec fn all_wf(srcs: Seq<Raster>) -> bool {
    forall|i: int| 0 <= i < srcs.len() ==> (#[trigger] srcs[i]).wf()
}

/// The images of `g` are indices into `srcs`, lie inside the canvas and do
/// not overlap.
pub open spec fn group_ok(srcs: Seq<Raster>, mw: int, mh: int, g: Seq<int>) -> bool {
    &&& forall|t: int| 0 <= t < g.len() ==> 0 <= #[trigger] g[t] < srcs.len()
    &&& forall|t: int|
        0 <= t < g.len() ==> {
            let r = #[trigger] placed(sizes_of(srcs), mw, mh, g[t]);
            0 <= r.0 && 0 <= r.1 && r.0 + r.2 <= mw && r.1 + r.3 <= mh
        }
    &&& group_disjoint(sizes_of(srcs), mw, mh, g)
}

/// Each image of a group can be read back from the canvas at its rectangle.
pub proof fn lemma_render(srcs: Seq<Raster>, mw: int, mh: int, g: Seq<int>)
    requires
        0 <= mw,
        0 <= mh,
        all_wf(srcs),
        group_ok(srcs, mw, mh, g),
    ensures
        render(srcs, mw, mh, g).width == mw,
        render(srcs, mw, mh, g).height() == mh,
        render(srcs, mw, mh, g).wf(),
        forall|t: int, c: int, r: int|
            0 <= t < g.len() && 0 <= c < srcs[g[t]].width && 0 <= r < srcs[g[t]].height() ==> render(
                srcs,
                mw,
                mh,
                g,
            ).px(placed(sizes_of(srcs), mw, mh, g[t]).0 + c, placed(sizes_of(srcs), mw, mh, g[t]).1 + r)
                == #[trigger] srcs[g[t]].px(c, r),
    decreases g.len(),
{
    let sizes = sizes_of(srcs);
    if g.len() > 0 {
        let h = g.drop_last();
        assert(group_ok(srcs, mw, mh, h)) by {
            assert forall|a: int, b: int|
                0 <= a < h.len() && 0 <= b < h.len() && a != b implies disjoint(
                #[trigger] placed(sizes, mw, mh, h[a]),
                #[trigger] placed(sizes, mw, mh, h[b]),
            ) by {
                assert(h[a] == g[a] && h[b] == g[b]);
                assert(disjoint(placed(sizes, mw, mh, g[a]), placed(sizes, mw, mh, g[b])));
            }
            assert forall|t: int| 0 <= t < h.len() implies {
                let r = #[trigger] placed(sizes, mw, mh, h[t]);
                0 <= r.0 && 0 <= r.1 && r.0 + r.2 <= mw && r.1 + r.3 <= mh
            } by {
                assert(h[t] == g[t]);
                assert(placed(sizes, mw, mh, g[t]) == placed(sizes, mw, mh, h[t]));
            }
            assert forall|t: int| 0 <= t < h.len() implies 0 <= #[trigger] h[t] < srcs.len() by {
                assert(h[t] == g[t]);
            }
        }
        lemma_render(srcs, mw, mh, h);
        let last = g.len() - 1;
        let i = g[last];
        let src = srcs[i];
        assert(src.wf());
        let rl = placed(sizes, mw, mh, i);
        assert(rl.2 == src.width && rl.3 == src.height());
        let prev = render(srcs, mw, mh, h);
        let cur = render(srcs, mw, mh, g);
        assert(cur == prev.paste(src, rl.0, rl.1));
        assert forall|t: int, c: int, r: int|
            0 <= t < g.len() && 0 <= c < srcs[g[t]].width && 0 <= r < srcs[g[t]].height() implies cur.px(
            placed(sizes, mw, mh, g[t]).0 + c,
            placed(sizes, mw, mh, g[t]).1 + r,
        ) == #[trigger] srcs[g[t]].px(c, r) by {
            let q = placed(sizes, mw, mh, g[t]);
            assert(q.2 == srcs[g[t]].width && q.3 == srcs[g[t]].height());
            assert(0 <= q.0 && 0 <= q.1 && q.0 + q.2 <= mw && q.1 + q.3 <= mh);
            if t < last {
                assert(h[t] == g[t]);
                assert(disjoint(placed(sizes, mw, mh, g[t]), placed(sizes, mw, mh, g[last])));
                assert(prev.px(q.0 + c, q.1 + r) == srcs[h[t]].px(c, r));
            }
        }
        assert(cur.wf());
    }
}

/// `v` held within `[lo, hi]`.
pub open spec fn clamp(v: int, lo: int, hi: int) -> int {
    if v < lo {
        lo
    } else if v > hi {
        hi
    } else {
        v
    }
}

/// The part of `r` inside the window `win`, in the window's coordinates.
pub open spec fn clip(r: Rect, win: Rect) -> Rect {
    let x0 = clamp(r.0, win.0, win.0 + win.2);
    let x1 = clamp(r.0 + r.2, win.0, win.0 + win.2);
    let y0 = clamp(r.1, win.1, win.1 + win.3);
    let y1 = clamp(r.1 + r.3, win.1, win.1 + win.3);
    (x0 - win.0, y0 - win.1, x1 - x0, y1 - y0)
}

/// Where the part of `r` inside `win` starts, in the coordinates of `r`.
pub open spec fn clip_offset(r: Rect, win: Rect) -> (int, int) {
    (clamp(r.0, win.0, win.0 + win.2) - r.0, clamp(r.1, win.1, win.1 + win.3) - r.1)
}

} // verus!
