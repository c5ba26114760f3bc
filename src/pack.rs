//! The sheets that packing emits: each canvas trimmed, with its frames moved
//! into the trimmed buffer's coordinates.

use vstd::prelude::*;

use crate::layout::{
    all_wf, clamp, clip, clip_offset, disjoint, group_ok, groups, lemma_render, lemma_shelf, placed,
    positions, render, shelf_after, shelf_ok, sizes_fit, sizes_of, sizes_valid, Shelf,
};
use crate::raster::{bitmap_copy_from, bitmap_dimensions, blank_bitmap, fits_memory, Bitmap, Raster};
use crate::sprite::{SheetView, Sprite};
use crate::trim::{
    edges_visible, has_tight_box, lemma_visible_has_box, tight, trim_window, trim_with_window, trimmed,
    Rect,
};

verus! {

/// The frames of the images of group `g`: each image's rectangle on the canvas,
/// clipped to the trimmed part and moved to its origin. Where trimming cuts
/// into an image's transparent margin, its frame is clipped with it and is
/// smaller than the image; a frame is never shifted outside the sheet.
pub open spec fn frame_rects(srcs: Seq<Raster>, mw: int, mh: int, g: Seq<int>) -> Seq<Rect> {
    let win = trim_window(render(srcs, mw, mh, g));
    g.map_values(|i: int| clip(placed(sizes_of(srcs), mw, mh, i), win))
}

/// The sheet that the canvas of group `g` becomes.
pub open spec fn expected_sheet(srcs: Seq<Raster>, mw: int, mh: int, g: Seq<int>) -> SheetView {
    SheetView { image: trimmed(render(srcs, mw, mh, g)), frames: frame_rects(srcs, mw, mh, g) }
}

/// A frame lies inside its sheet's buffer.
pub open spec fn frame_inside(v: SheetView, f: Rect) -> bool {
    0 <= f.0 && 0 <= f.1 && 0 <= f.2 && 0 <= f.3 && f.0 + f.2 <= v.image.width && f.1 + f.3
        <= v.image.height()
}

/// Each pixel of the frame is the pixel of `src` at the same place, counted
/// from the offset `off` in `src` (the part of `src` that trimming cut away).
pub open spec fn frame_shows(v: SheetView, f: Rect, src: Raster, off: (int, int)) -> bool {
    forall|c: int, r: int|
        0 <= c < f.2 && 0 <= r < f.3 ==> #[trigger] v.image.px(f.0 + c, f.1 + r) == src.px(
            off.0 + c,
            off.1 + r,
        )
}

/// A sheet's frames lie inside its buffer, do not overlap, and show the pixels
/// of their images.
pub proof fn lemma_sheet(srcs: Seq<Raster>, mw: int, mh: int, g: Seq<int>)
    requires
        0 <= mw,
        0 <= mh,
        all_wf(srcs),
        group_ok(srcs, mw, mh, g),
    ensures
        expected_sheet(srcs, mw, mh, g).image.wf(),
        expected_sheet(srcs, mw, mh, g).frames.len() == g.len(),
        1 <= mw && 1 <= mh ==> expected_sheet(srcs, mw, mh, g).image.width <= mw
            && expected_sheet(srcs, mw, mh, g).image.height() <= mh,
        forall|a: int|
            0 <= a < g.len() ==> frame_inside(
                expected_sheet(srcs, mw, mh, g),
                #[trigger] expected_sheet(srcs, mw, mh, g).frames[a],
            ),
        forall|a: int, b: int|
            0 <= a < g.len() && 0 <= b < g.len() && a != b ==> disjoint(
                #[trigger] expected_sheet(srcs, mw, mh, g).frames[a],
                #[trigger] expected_sheet(srcs, mw, mh, g).frames[b],
            ),
        forall|a: int|
            0 <= a < g.len() ==> frame_shows(
                expected_sheet(srcs, mw, mh, g),
                #[trigger] expected_sheet(srcs, mw, mh, g).frames[a],
                srcs[g[a]],
                clip_offset(placed(sizes_of(srcs), mw, mh, g[a]), trim_window(render(srcs, mw, mh, g))),
            ),
{
    let sizes = sizes_of(srcs);
    let canvas = render(srcs, mw, mh, g);
    let win = trim_window(canvas);
    let v = expected_sheet(srcs, mw, mh, g);
    lemma_render(srcs, mw, mh, g);
    if has_tight_box(canvas) {
        assert(tight(canvas, win));
    }
    assert(0 <= win.0 && 0 <= win.1 && 0 <= win.2 && 0 <= win.3);
    assert(v.image.wf());
    assert forall|a: int| 0 <= a < g.len() implies frame_inside(v, #[trigger] v.frames[a]) by {
        let q = placed(sizes, mw, mh, g[a]);
        assert(0 <= q.2 && 0 <= q.3);
    }
    assert forall|a: int, b: int| 0 <= a < g.len() && 0 <= b < g.len() && a != b implies disjoint(
        #[trigger] v.frames[a],
        #[trigger] v.frames[b],
    ) by {
        assert(disjoint(placed(sizes, mw, mh, g[a]), placed(sizes, mw, mh, g[b])));
        let qa = placed(sizes, mw, mh, g[a]);
        let qb = placed(sizes, mw, mh, g[b]);
        assert(0 <= qa.2 && 0 <= qa.3 && 0 <= qb.2 && 0 <= qb.3);
    }
    assert forall|a: int| 0 <= a < g.len() implies frame_shows(
        v,
        #[trigger] v.frames[a],
        srcs[g[a]],
        clip_offset(placed(sizes, mw, mh, g[a]), win),
    ) by {
        let q = placed(sizes, mw, mh, g[a]);
        let f = v.frames[a];
        let off = clip_offset(q, win);
        assert(0 <= q.2 && 0 <= q.3);
        assert(q.2 == srcs[g[a]].width && q.3 == srcs[g[a]].height());
        assert forall|c: int, r: int| 0 <= c < f.2 && 0 <= r < f.3 implies #[trigger] v.image.px(
            f.0 + c,
            f.1 + r,
        ) == srcs[g[a]].px(off.0 + c, off.1 + r) by {
            assert(has_tight_box(canvas));
            assert(srcs[g[a]].px(off.0 + c, off.1 + r) == canvas.px(q.0 + off.0 + c, q.1 + off.1 + r));
        }
    }
}

/// Where the trimmed part of the canvas holds an image's whole rectangle, the
/// image's frame has the image's size and the sheet's pixels under the frame
/// are the image's pixels, one for one.
pub proof fn lemma_frame_whole(srcs: Seq<Raster>, mw: int, mh: int, g: Seq<int>, a: int)
    requires
        0 <= mw,
        0 <= mh,
        all_wf(srcs),
        group_ok(srcs, mw, mh, g),
        0 <= a < g.len(),
        ({
            let win = trim_window(render(srcs, mw, mh, g));
            let q = placed(sizes_of(srcs), mw, mh, g[a]);
            win.0 <= q.0 && q.0 + q.2 <= win.0 + win.2 && win.1 <= q.1 && q.1 + q.3 <= win.1 + win.3
        }),
    ensures
        ({
            let v = expected_sheet(srcs, mw, mh, g);
            let f = v.frames[a];
            &&& f.2 == srcs[g[a]].width && f.3 == srcs[g[a]].height()
            &&& v.image.region(f.0, f.1, f.2, f.3) == srcs[g[a]]
        }),
{
    let sizes = sizes_of(srcs);
    let v = expected_sheet(srcs, mw, mh, g);
    let f = v.frames[a];
    let src = srcs[g[a]];
    let q = placed(sizes, mw, mh, g[a]);
    lemma_sheet(srcs, mw, mh, g);
    assert(src.wf());
    assert(q.2 == src.width && q.3 == src.height());
    assert(clip_offset(q, trim_window(render(srcs, mw, mh, g))) == (0int, 0int));
    assert(frame_shows(v, f, src, (0int, 0int)));
    let reg = v.image.region(f.0, f.1, f.2, f.3);
    assert forall|j: int| 0 <= j < reg.rows.len() implies #[trigger] reg.rows[j] =~= src.rows[j] by {
        assert forall|i: int| 0 <= i < f.2 implies reg.rows[j][i] == src.rows[j][i] by {
            assert(v.image.px(f.0 + i, f.1 + j) == src.px(0 + i, 0 + j));
        }
    }
    assert(reg.rows =~= src.rows);
}

/// An image with a visible pixel on each of its four edges lies wholly inside
/// the trimmed part of its canvas, so its frame is never cut.
pub proof fn lemma_visible_edges_keep_frame(srcs: Seq<Raster>, mw: int, mh: int, g: Seq<int>, a: int)
    requires
        0 <= mw,
        0 <= mh,
        all_wf(srcs),
        group_ok(srcs, mw, mh, g),
        0 <= a < g.len(),
        edges_visible(srcs[g[a]]),
    ensures
        ({
            let win = trim_window(render(srcs, mw, mh, g));
            let q = placed(sizes_of(srcs), mw, mh, g[a]);
            win.0 <= q.0 && q.0 + q.2 <= win.0 + win.2 && win.1 <= q.1 && q.1 + q.3 <= win.1 + win.3
        }),
{
    let sizes = sizes_of(srcs);
    let canvas = render(srcs, mw, mh, g);
    let src = srcs[g[a]];
    let q = placed(sizes, mw, mh, g[a]);
    lemma_render(srcs, mw, mh, g);
    assert(q.2 == src.width && q.3 == src.height());
    let jl = choose|j: int| 0 <= j < src.height() && #[trigger] src.visible(0, j);
    let jr = choose|j: int| 0 <= j < src.height() && #[trigger] src.visible(src.width - 1, j);
    let it = choose|i: int| 0 <= i < src.width && #[trigger] src.visible(i, 0);
    let ib = choose|i: int| 0 <= i < src.width && #[trigger] src.visible(i, src.height() - 1);
    assert(src.px(0, jl) == canvas.px(q.0, q.1 + jl));
    assert(src.px(src.width - 1, jr) == canvas.px(q.0 + src.width - 1, q.1 + jr));
    assert(src.px(it, 0) == canvas.px(q.0 + it, q.1));
    assert(src.px(ib, src.height() - 1) == canvas.px(q.0 + ib, q.1 + src.height() - 1));
    assert(canvas.visible(q.0, q.1 + jl));
    lemma_visible_has_box(canvas, q.0, q.1 + jl);
    let win = trim_window(canvas);
    assert(tight(canvas, win));
    assert(canvas.visible(q.0 + src.width - 1, q.1 + jr));
    assert(canvas.visible(q.0 + it, q.1));
    assert(canvas.visible(q.0 + ib, q.1 + src.height() - 1));
}

/// Every group of a packing of images that fit the canvas is a valid group,
/// and holds at least one image.
pub proof fn lemma_groups_ok(srcs: Seq<Raster>, mw: int, mh: int)
    requires
        0 <= mw,
        0 <= mh,
        all_wf(srcs),
        sizes_fit(sizes_of(srcs), mw, mh),
    ensures
        forall|k: int|
            0 <= k < groups(sizes_of(srcs), mw, mh).len() ==> group_ok(
                srcs,
                mw,
                mh,
                #[trigger] groups(sizes_of(srcs), mw, mh)[k],
            ) && groups(sizes_of(srcs), mw, mh)[k].len() > 0,
{
    let sizes = sizes_of(srcs);
    let n = sizes.len();
    assert(sizes_valid(sizes));
    lemma_shelf(sizes, mw, mh, n);
    let s = shelf_after(sizes, mw, mh, n);
    let gs = groups(sizes, mw, mh);
    assert forall|k: int| 0 <= k < gs.len() implies group_ok(srcs, mw, mh, #[trigger] gs[k]) && gs[k].len()
        > 0 by {
        let g = gs[k];
        if k < s.done.len() {
            assert(g == s.done[k]);
            assert forall|t: int| 0 <= t < g.len() implies 0 <= #[trigger] g[t] < srcs.len() by {
                assert(0 <= s.done[k][t] < n);
            }
        } else {
            assert(g == s.open);
        }
        assert forall|t: int| 0 <= t < g.len() implies {
            let r = #[trigger] placed(sizes, mw, mh, g[t]);
            0 <= r.0 && 0 <= r.1 && r.0 + r.2 <= mw && r.1 + r.3 <= mh
        } by {
            if k < s.done.len() {
                assert(0 <= s.done[k][t] < n);
            }
        }
    }
}

/// The rectangle that a tuple `(x, y, width, height)` stands for.
pub open spec fn rect_of(p: (u32, u32, u32, u32)) -> Rect {
    (p.0 as int, p.1 as int, p.2 as int, p.3 as int)
}

/// The models of a sequence of bitmaps.
pub open spec fn views(s: Seq<Bitmap>) -> Seq<Raster> {
    s.map_values(|b: Bitmap| b@)
}

fn clamp_u64(v: u64, lo: u64, hi: u64) -> (r: u64)
    requires
        lo <= hi,
    ensures
        r == clamp(v as int, lo as int, hi as int),
{
    if v < lo {
        lo
    } else if v > hi {
        hi
    } else {
        v
    }
}

/// The part of `p` inside the window `win`, in the window's coordinates.
fn clip_rect(p: (u32, u32, u32, u32), win: (u32, u32, u32, u32)) -> (r: (u32, u32, u32, u32))
    requires
        win.0 + win.2 <= u32::MAX,
        win.1 + win.3 <= u32::MAX,
    ensures
        rect_of(r) == clip(rect_of(p), rect_of(win)),
{
    let x_end = win.0 as u64 + win.2 as u64;
    let y_end = win.1 as u64 + win.3 as u64;
    let x0 = clamp_u64(p.0 as u64, win.0 as u64, x_end);
    let x1 = clamp_u64(p.0 as u64 + p.2 as u64, win.0 as u64, x_end);
    let y0 = clamp_u64(p.1 as u64, win.1 as u64, y_end);
    let y1 = clamp_u64(p.1 as u64 + p.3 as u64, win.1 as u64, y_end);
    ((x0 - win.0 as u64) as u32, (y0 - win.1 as u64) as u32, (x1 - x0) as u32, (y1 - y0) as u32)
}

/// The sheet that a full canvas becomes: the canvas trimmed, with each pending
/// placement cut to the trimmed part and moved to its origin.
fn emit_sheet(canvas: &Bitmap, pending: &Vec<(u32, u32, u32, u32)>) -> (r: Sprite)
    ensures
        r@.image == trimmed(canvas@),
        r@.frames == pending@.map_values(|p: (u32, u32, u32, u32)| clip(rect_of(p), trim_window(canvas@))),
{
    let (_w, _h) = bitmap_dimensions(canvas);
    let (img, wx, wy, ww, wh) = trim_with_window(canvas);
    let ghost win = trim_window(canvas@);
    let mut sheet = Sprite::new(img);
    let mut j: usize = 0;
    while j < pending.len()
        invariant
            j <= pending@.len(),
            win == trim_window(canvas@),
            win == rect_of((wx, wy, ww, wh)),
            wx + ww <= u32::MAX,
            wy + wh <= u32::MAX,
            sheet@.image == trimmed(canvas@),
            sheet@.frames == pending@.take(j as int).map_values(
                |p: (u32, u32, u32, u32)| clip(rect_of(p), win),
            ),
        decreases pending@.len() - j,
    {
        let f = clip_rect(pending[j], (wx, wy, ww, wh));
        proof {
            if has_tight_box(canvas@) {
                assert(tight(canvas@, win));
            }
            assert(0 <= pending@[j as int].2);
        }
        sheet.add_frame(f.0, f.1, f.2, f.3);
        proof {
            assert(pending@.take(j + 1) =~= pending@.take(j as int).push(pending@[j as int]));
            assert(sheet@.frames =~= pending@.take(j + 1).map_values(
                |p: (u32, u32, u32, u32)| clip(rect_of(p), win),
            ));
        }
        j = j + 1;
    }
    proof {
        assert(pending@.take(j as int) =~= pending@);
    }
    sheet
}

/// What the packing loop holds after its first `i` images: the cursor, the
/// pending placements and the canvas of the open group, and the sheets of
/// the groups already flushed.
pub open spec fn pack_inv(
    srcs: Seq<Raster>,
    mw: int,
    mh: int,
    i: nat,
    cx: u32,
    cy: u32,
    row: u32,
    pending: Seq<(u32, u32, u32, u32)>,
    canvas: Raster,
    sheets: Seq<Sprite>,
) -> bool {
    let s = shelf_after(sizes_of(srcs), mw, mh, i);
    &&& cx == s.x && cy == s.y && row == s.row
    &&& pending.len() == s.open.len()
    &&& forall|t: int|
        0 <= t < pending.len() ==> rect_of(#[trigger] pending[t]) == placed(sizes_of(srcs), mw, mh, s.open[t])
    &&& canvas == render(srcs, mw, mh, s.open)
    &&& sheets.len() == s.done.len()
    &&& forall|k: int| 0 <= k < sheets.len() ==> (#[trigger] sheets[k])@ == expected_sheet(srcs, mw, mh, s.done[k])
}

/// Packs images that each fit the canvas: one sheet for each group of
/// `groups`, as `expected_sheet` describes it.
pub fn pack_fitting(images: &Vec<Bitmap>, mw: u32, mh: u32) -> (r: Vec<Sprite>)
    requires
        fits_memory(mw as int, mh as int),
        all_wf(views(images@)),
        sizes_fit(sizes_of(views(images@)), mw as int, mh as int),
    ensures
        r@.len() == groups(sizes_of(views(images@)), mw as int, mh as int).len(),
        forall|k: int|
            0 <= k < r@.len() ==> (#[trigger] r@[k])@ == expected_sheet(
                views(images@),
                mw as int,
                mh as int,
                groups(sizes_of(views(images@)), mw as int, mh as int)[k],
            ),
{
    let ghost srcs = views(images@);
    let ghost sizes = sizes_of(srcs);
    let ghost imw = mw as int;
    let ghost imh = mh as int;
    let mut sheets: Vec<Sprite> = Vec::new();
    let mut canvas = blank_bitmap(mw, mh);
    let mut pending: Vec<(u32, u32, u32, u32)> = Vec::new();
    let mut cx: u32 = 0;
    let mut cy: u32 = 0;
    let mut row: u32 = 0;
    let mut i: usize = 0;
    proof {
        lemma_shelf(sizes, imw, imh, 0);
        assert(pending@.len() == 0);
    }
    while i < images.len()
        invariant
            i <= images@.len(),
            srcs == views(images@),
            sizes == sizes_of(srcs),
            imw == mw as int,
            imh == mh as int,
            all_wf(srcs),
            sizes_fit(sizes, imw, imh),
            fits_memory(imw, imh),
            sizes.len() == images@.len(),
            shelf_ok(sizes, imw, imh, i as nat),
            pack_inv(srcs, imw, imh, i as nat, cx, cy, row, pending@, canvas@, sheets@),
        decreases images@.len() - i,
    {
        let ghost s: Shelf = shelf_after(sizes, imw, imh, i as nat);
        proof {
            lemma_shelf(sizes, imw, imh, (i + 1) as nat);
        }
        let img = &images[i];
        let (w, h) = bitmap_dimensions(img);
        assert(sizes[i as int] == (w as int, h as int));
        let mut x: u64 = cx as u64;
        let mut y: u64 = cy as u64;
        let mut rh: u64 = row as u64;
        if x + w as u64 > mw as u64 {
            x = 0;
            y = cy as u64 + row as u64;
            rh = 0;
        }
        let ghost flushed = y + h > mh;
        if y + h as u64 > mh as u64 {
            if pending.len() > 0 {
                let sheet = emit_sheet(&canvas, &pending);
                proof {
                    assert(sheet@.frames =~= expected_sheet(srcs, imw, imh, s.open).frames);
                }
                let ghost before = sheets@;
                sheets.push(sheet);
                proof {
                    assert forall|k: int| 0 <= k < sheets@.len() implies (#[trigger] sheets@[k])@
                        == expected_sheet(srcs, imw, imh, shelf_after(sizes, imw, imh, (i + 1) as nat).done[k]) by {
                        if k < s.done.len() {
                            assert(sheets@[k] == before[k]);
                        }
                    }
                }
            }
            canvas = blank_bitmap(mw, mh);
            pending = Vec::new();
            x = 0;
            y = 0;
            rh = 0;
        }
        let ghost s2: Shelf = shelf_after(sizes, imw, imh, (i + 1) as nat);
        proof {
            assert(placed(sizes, imw, imh, i as int) == (x as int, y as int, w as int, h as int));
            assert(s2.open.last() == i);
            assert(srcs[i as int] == img@);
            assert(positions(sizes, imw, imh)[i as int] == (x as int, y as int));
            assert(group_ok(srcs, imw, imh, s.open));
            lemma_render(srcs, imw, imh, s.open);
            if flushed {
                assert(s2.open.drop_last() =~= Seq::<int>::empty());
                assert(canvas@ == render(srcs, imw, imh, s2.open.drop_last()));
            } else {
                assert(s2.open.drop_last() =~= s.open);
                assert(canvas@ == render(srcs, imw, imh, s2.open.drop_last()));
            }
            assert(render(srcs, imw, imh, s2.open) == render(srcs, imw, imh, s2.open.drop_last()).paste(
                srcs[i as int],
                x as int,
                y as int,
            ));
        }
        let copied = bitmap_copy_from(&mut canvas, img, x as u32, y as u32);
        proof {
            assert(copied is Ok);
        }
        pending.push((x as u32, y as u32, w, h));
        cx = (x + w as u64) as u32;
        cy = y as u32;
        row = if rh >= h as u64 {
            rh as u32
        } else {
            h
        };
        proof {
            assert(canvas@ == render(srcs, imw, imh, s2.open));
            assert forall|t: int| 0 <= t < pending@.len() implies rect_of(#[trigger] pending@[t]) == placed(
                sizes,
                imw,
                imh,
                s2.open[t],
            ) by {
                if t < pending@.len() - 1 {
                    assert(s2.open[t] == s.open[t]);
                }
            }
        }
        i = i + 1;
    }
    if pending.len() > 0 {
        let ghost s: Shelf = shelf_after(sizes, imw, imh, i as nat);
        let sheet = emit_sheet(&canvas, &pending);
        proof {
            assert(sheet@.frames =~= expected_sheet(srcs, imw, imh, s.open).frames);
        }
        sheets.push(sheet);
    }
    sheets
}

} // verus!
