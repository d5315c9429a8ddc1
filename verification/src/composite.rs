//! Burning bitmap subtitles into pictures of two planes: full-size luma, and half-size interleaved
//! chroma.

use vstd::prelude::*;

use crate::decode_video::{
    copy_plane, holds_rows, lemma_place_of, lemma_place_split, lemma_within, with_rows,
};

verus! {

/// A pixel of a subtitle: its luma and chroma, and how opaque it is.
#[derive(Clone, Copy, Debug, PartialEq, Eq, Structural)]
pub struct Pixel {
    pub luma: u8,
    pub cb: u8,
    pub cr: u8,
    pub alpha: u8,
}

/// A bitmap subtitle: where it stands, how large it is, and its pixels, row by row.
#[derive(Debug, Clone)]
pub struct BitmapSubtitle {
    pub x: u32,
    pub y: u32,
    pub w: u32,
    pub h: u32,
    pub pixels: Vec<Pixel>,
}

impl BitmapSubtitle {
    /// Whether there are as many pixels as the size says, and its far corner can be reckoned.
    pub open spec fn wf(self) -> bool {
        &&& self.pixels.len() == self.w * self.h
        &&& self.w * self.h <= u32::MAX
        &&& self.x + self.w <= u32::MAX
        &&& self.y + self.h <= u32::MAX
    }

    /// The pixel at a row and a column of the picture.
    pub open spec fn at(self, row: int, column: int) -> Pixel {
        self.pixels@[(row - self.y) * self.w + (column - self.x)]
    }

    /// Whether the subtitle covers a row and a column of the picture.
    pub open spec fn covers(self, row: int, column: int) -> bool {
        self.y <= row < self.y + self.h && self.x <= column < self.x + self.w
    }
}

/// A value of which `alpha` parts in 255 are `over` and the rest `under`, rounded.
pub open spec fn mixed(under: u8, over: u8, alpha: u8) -> u8 {
    ((over * alpha + under * (255 - alpha) + 128) / 255) as u8
}

/// What is fully opaque replaces what is under it, and what is fully transparent leaves it.
pub proof fn lemma_mixed_extremes(under: u8, over: u8)
    ensures
        mixed(under, over, 255) == over,
        mixed(under, over, 0) == under,
{
}

fn mix(under: u8, over: u8, alpha: u8) -> (r: u8)
    ensures
        r == mixed(under, over, alpha),
{
    let a: u32 = alpha as u32;
    let o: u32 = over as u32;
    let u: u32 = under as u32;
    assert(0 <= o * a + u * (255 - a) <= 255 * 255) by (nonlinear_arith)
        requires
            0 <= o <= 255,
            0 <= u <= 255,
            0 <= a <= 255,
    ;
    assert(0 <= o * a) by (nonlinear_arith)
        requires
            0 <= o,
            0 <= a,
    ;
    assert(0 <= u * (255 - a)) by (nonlinear_arith)
        requires
            0 <= u,
            0 <= a <= 255,
    ;
    ((o * a + u * (255 - a) + 128) / 255) as u8
}

/// The luma at place `p` of a plane once the first `rows` rows of a subtitle are blended in, and
/// `columns` columns of the next.
pub open spec fn luma_at(
    plane: Seq<u8>,
    stride: int,
    video_w: int,
    video_h: int,
    sub: BitmapSubtitle,
    rows: int,
    columns: int,
    p: int,
) -> u8 {
    let row = p / stride;
    let column = p % stride;
    let done = row < sub.y + rows || (row == sub.y + rows && column < sub.x + columns);
    if row < video_h && column < video_w && sub.covers(row, column) && done {
        mixed(plane[p], sub.at(row, column).luma, sub.at(row, column).alpha)
    } else {
        plane[p]
    }
}

/// A luma plane with a subtitle blended in.
pub open spec fn blended_luma(
    plane: Seq<u8>,
    stride: int,
    video_w: int,
    video_h: int,
    sub: BitmapSubtitle,
) -> Seq<u8> {
    Seq::new(
        plane.len(),
        |p: int| luma_at(plane, stride, video_w, video_h, sub, sub.h as int, 0, p),
    )
}

/// The index of a pixel lies within the pixels.
proof fn lemma_pixel_index(sub: BitmapSubtitle, row: int, column: int)
    requires
        sub.wf(),
        0 <= row < sub.h,
        0 <= column < sub.w,
    ensures
        0 <= row * sub.w + column < sub.w * sub.h,
        0 <= row * sub.w,
{
    assert(0 <= row * sub.w + column < sub.w * sub.h && 0 <= row * sub.w) by (nonlinear_arith)
        requires
            0 <= row < sub.h,
            0 <= column < sub.w,
    ;
}

/// Blends a subtitle into the luma plane.
pub fn blend_y_plane(
    plane: &mut Vec<u8>,
    stride: usize,
    video_w: u32,
    video_h: u32,
    sub: &BitmapSubtitle,
)
    requires
        sub.wf(),
        holds_rows(old(plane).len() as int, stride as int, video_w as int, video_h as int),
    ensures
        final(plane)@ == blended_luma(
            old(plane)@,
            stride as int,
            video_w as int,
            video_h as int,
            *sub,
        ),
{
    let ghost before = plane@;
    let ghost step = stride as int;
    let mut row: u32 = 0;
    while row < sub.h && row < video_h && sub.y < video_h - row
        invariant
            row <= sub.h,
            sub.wf(),
            step == stride,
            row > 0 ==> sub.y + row <= video_h,
            holds_rows(plane.len() as int, step, video_w as int, video_h as int),
            plane.len() == before.len(),
            forall|p: int|
                0 <= p < before.len() ==> #[trigger] plane@[p] == luma_at(
                    before,
                    step,
                    video_w as int,
                    video_h as int,
                    *sub,
                    row as int,
                    0,
                    p,
                ),
        decreases sub.h - row,
    {
        let dst_row: u32 = sub.y + row;
        let mut col: u32 = 0;
        while col < sub.w && col < video_w && sub.x < video_w - col
            invariant
                col <= sub.w,
                row < sub.h,
                dst_row == sub.y + row,
                dst_row < video_h,
                    col > 0 ==> sub.x + col <= video_w,
                sub.wf(),
                step == stride,
                holds_rows(plane.len() as int, step, video_w as int, video_h as int),
                plane.len() == before.len(),
                forall|p: int|
                    0 <= p < before.len() ==> #[trigger] plane@[p] == luma_at(
                        before,
                        step,
                        video_w as int,
                        video_h as int,
                        *sub,
                        row as int,
                        col as int,
                        p,
                    ),
            decreases sub.w - col,
        {
            let dst_col: u32 = sub.x + col;
            proof {
                lemma_pixel_index(*sub, row as int, col as int);
                lemma_within(
                    plane.len() as int,
                    step,
                    video_w as int,
                    video_h as int,
                    dst_row as int,
                    dst_col as int,
                );
                lemma_place_of(dst_row as int, dst_col as int, step);
            }
            let pixel: Pixel = sub.pixels[(row * sub.w + col) as usize];
            let at: usize = dst_row as usize * stride + dst_col as usize;
            let ghost now = plane@;
            let under: u8 = plane[at];
            plane.set(at, mix(under, pixel.luma, pixel.alpha));
            proof {
                assert forall|p: int| 0 <= p < before.len() implies #[trigger] plane@[p] == luma_at(
                    before,
                    step,
                    video_w as int,
                    video_h as int,
                    *sub,
                    row as int,
                    col + 1,
                    p,
                ) by {
                    lemma_place_split(p, step);
                    assert(now[p] == luma_at(
                        before,
                        step,
                        video_w as int,
                        video_h as int,
                        *sub,
                        row as int,
                        col as int,
                        p,
                    ));
                    if p != at {
                        assert(!(p / step == dst_row && p % step == dst_col));
                    }
                }
            }
            col = col + 1;
        }
        proof {
            assert forall|p: int| 0 <= p < before.len() implies #[trigger] plane@[p] == luma_at(
                before,
                step,
                video_w as int,
                video_h as int,
                *sub,
                row + 1,
                0,
                p,
            ) by {
                if step > 0 {
                    lemma_place_split(p, step);
                }
                assert(plane@[p] == luma_at(
                    before,
                    step,
                    video_w as int,
                    video_h as int,
                    *sub,
                    row as int,
                    col as int,
                    p,
                ));
            }
        }
        row = row + 1;
    }
    proof {
        assert forall|p: int| 0 <= p < before.len() implies #[trigger] plane@[p] == luma_at(
            before,
            step,
            video_w as int,
            video_h as int,
            *sub,
            sub.h as int,
            0,
            p,
        ) by {
            if step > 0 {
                lemma_place_split(p, step);
            }
            assert(plane@[p] == luma_at(
                before,
                step,
                video_w as int,
                video_h as int,
                *sub,
                row as int,
                0,
                p,
            ));
        }
        assert(plane@ =~= blended_luma(before, step, video_w as int, video_h as int, *sub));
    }
}

/// The row of the picture that the chroma at place `p` is taken from: every other row of the
/// subtitle is.
pub open spec fn chroma_row(stride: int, sub: BitmapSubtitle, p: int) -> int {
    p / stride * 2 + sub.y as int % 2
}

/// The column of the picture that the chroma at place `p` is taken from.
pub open spec fn chroma_column(stride: int, sub: BitmapSubtitle, p: int) -> int {
    p % stride / 2 * 2 + sub.x as int % 2
}

/// The chroma at place `p` of a plane once the first `rows` rows of a subtitle are blended in, and
/// `columns` columns of the next. Even columns hold the blue difference, odd ones the red.
pub open spec fn chroma_at(
    plane: Seq<u8>,
    stride: int,
    video_w: int,
    video_h: int,
    sub: BitmapSubtitle,
    rows: int,
    columns: int,
    p: int,
) -> u8 {
    let row = chroma_row(stride, sub, p);
    let column = chroma_column(stride, sub, p);
    let done = row < sub.y + rows || (row == sub.y + rows && column < sub.x + columns);
    if row < video_h && column < video_w && sub.covers(row, column) && done {
        let pixel = sub.at(row, column);
        mixed(
            plane[p],
            if p % stride % 2 == 0 {
                pixel.cb
            } else {
                pixel.cr
            },
            pixel.alpha,
        )
    } else {
        plane[p]
    }
}

/// A chroma plane with a subtitle blended in.
pub open spec fn blended_chroma(
    plane: Seq<u8>,
    stride: int,
    video_w: int,
    video_h: int,
    sub: BitmapSubtitle,
) -> Seq<u8> {
    Seq::new(
        plane.len(),
        |p: int| chroma_at(plane, stride, video_w, video_h, sub, sub.h as int, 0, p),
    )
}

/// Whether a plane holds the chroma of a picture: a pair of bytes for every two columns, and a row
/// for every two rows.
pub open spec fn holds_chroma(len: int, stride: int, video_w: int, video_h: int) -> bool {
    holds_rows(len, stride, (video_w + 1) / 2 * 2, (video_h + 1) / 2)
}

/// Blends a subtitle into the chroma plane.
pub fn blend_uv_plane(
    plane: &mut Vec<u8>,
    stride: usize,
    video_w: u32,
    video_h: u32,
    sub: &BitmapSubtitle,
)
    requires
        sub.wf(),
        holds_chroma(old(plane).len() as int, stride as int, video_w as int, video_h as int),
    ensures
        final(plane)@ == blended_chroma(
            old(plane)@,
            stride as int,
            video_w as int,
            video_h as int,
            *sub,
        ),
{
    let ghost before = plane@;
    let ghost step = stride as int;
    let ghost width = video_w as int;
    let ghost height = video_h as int;
    let mut row: u64 = 0;
    while row < sub.h as u64 && sub.y as u64 + row < video_h as u64
        invariant
            row <= sub.h + 1,
            row % 2 == 0,
            sub.wf(),
            step == stride,
            width == video_w,
            height == video_h,
            row > 0 ==> sub.y + row <= video_h + 1,
            holds_chroma(plane.len() as int, step, width, height),
            plane.len() == before.len(),
            forall|p: int|
                0 <= p < before.len() ==> #[trigger] plane@[p] == chroma_at(
                    before,
                    step,
                    width,
                    height,
                    *sub,
                    row as int,
                    0,
                    p,
                ),
        decreases sub.h + 2 - row,
    {
        let dst_row: u64 = sub.y as u64 + row;
        let mut col: u64 = 0;
        while col < sub.w as u64 && sub.x as u64 + col < video_w as u64
            invariant
                col <= sub.w + 1,
                col % 2 == 0,
                row % 2 == 0,
                row < sub.h,
                dst_row == sub.y + row,
                dst_row < video_h,
                sub.wf(),
                step == stride,
                width == video_w,
                height == video_h,
                holds_chroma(plane.len() as int, step, width, height),
                plane.len() == before.len(),
                forall|p: int|
                    0 <= p < before.len() ==> #[trigger] plane@[p] == chroma_at(
                        before,
                        step,
                        width,
                        height,
                        *sub,
                        row as int,
                        col as int,
                        p,
                    ),
            decreases sub.w + 2 - col,
        {
            let dst_col: u64 = sub.x as u64 + col;
            let pair: u64 = dst_col / 2 * 2;
            let ghost place = dst_row as int / 2 * step + pair;
            proof {
                lemma_pixel_index(*sub, row as int, col as int);
                lemma_within(
                    plane.len() as int,
                    step,
                    (width + 1) / 2 * 2,
                    (height + 1) / 2,
                    dst_row as int / 2,
                    pair + 1,
                );
                lemma_place_of(dst_row as int / 2, pair as int, step);
                lemma_place_of(dst_row as int / 2, pair + 1, step);
            }
            let pixel: Pixel = sub.pixels[(row * sub.w as u64 + col) as usize];
            let at: usize = (dst_row / 2) as usize * stride + pair as usize;
            let ghost now = plane@;
            let under_cb: u8 = plane[at];
            let under_cr: u8 = plane[at + 1];
            plane.set(at, mix(under_cb, pixel.cb, pixel.alpha));
            plane.set(at + 1, mix(under_cr, pixel.cr, pixel.alpha));
            proof {
                assert(sub.at(dst_row as int, dst_col as int) == pixel);
                assert forall|p: int|
                    0 <= p < before.len() implies #[trigger] plane@[p] == chroma_at(
                    before,
                    step,
                    width,
                    height,
                    *sub,
                    row as int,
                    col + 2,
                    p,
                ) by {
                    lemma_place_split(p, step);
                    assert(now[p] == chroma_at(
                        before,
                        step,
                        width,
                        height,
                        *sub,
                        row as int,
                        col as int,
                        p,
                    ));
                    if p != at && p != at + 1 {
                        assert(!(p / step == dst_row as int / 2 && p % step / 2 * 2 == pair));
                        assert(!(chroma_row(step, *sub, p) == dst_row && chroma_column(
                            step,
                            *sub,
                            p,
                        ) == dst_col));
                    } else {
                        assert(chroma_row(step, *sub, p) == dst_row);
                        assert(chroma_column(step, *sub, p) == dst_col);
                    }
                }
            }
            col = col + 2;
        }
        proof {
            assert forall|p: int|
                0 <= p < before.len() implies #[trigger] plane@[p] == chroma_at(
                before,
                step,
                width,
                height,
                *sub,
                row + 2,
                0,
                p,
            ) by {
                if step > 0 {
                    lemma_place_split(p, step);
                }
                assert(plane@[p] == chroma_at(
                    before,
                    step,
                    width,
                    height,
                    *sub,
                    row as int,
                    col as int,
                    p,
                ));
            }
        }
        row = row + 2;
    }
    proof {
        assert forall|p: int| 0 <= p < before.len() implies #[trigger] plane@[p] == chroma_at(
            before,
            step,
            width,
            height,
            *sub,
            sub.h as int,
            0,
            p,
        ) by {
            if step > 0 {
                lemma_place_split(p, step);
            }
            assert(plane@[p] == chroma_at(before, step, width, height, *sub, row as int, 0, p));
        }
        assert(plane@ =~= blended_chroma(before, step, width, height, *sub));
    }
}

/// A picture: its size, and its planes with the distance between their rows.
#[derive(Debug, Clone)]
pub struct Picture {
    pub width: u32,
    pub height: u32,
    pub luma: Vec<u8>,
    pub luma_stride: usize,
    pub chroma: Vec<u8>,
    pub chroma_stride: usize,
}

impl Picture {
    /// The number of rows of chroma.
    pub open spec fn chroma_rows(self) -> int {
        (self.height + 1) / 2
    }

    /// Whether the planes hold whole rows, wide enough for the picture, as many as it has.
    pub open spec fn wf(self) -> bool {
        &&& self.width <= self.luma_stride
        &&& (self.width + 1) / 2 * 2 <= self.chroma_stride
        &&& self.height * self.luma_stride <= self.luma.len()
        &&& self.chroma_rows() * self.chroma_stride <= self.chroma.len()
    }
}

/// The smaller of two distances between rows.
pub open spec fn narrower(a: usize, b: usize) -> int {
    if a <= b {
        a as int
    } else {
        b as int
    }
}

/// A luma plane with the first `n` of some subtitles blended in, one over the other.
pub open spec fn burned_luma(
    plane: Seq<u8>,
    stride: int,
    video_w: int,
    video_h: int,
    subs: Seq<BitmapSubtitle>,
    n: int,
) -> Seq<u8>
    decreases n,
{
    if n <= 0 {
        plane
    } else {
        blended_luma(
            burned_luma(plane, stride, video_w, video_h, subs, n - 1),
            stride,
            video_w,
            video_h,
            subs[n - 1],
        )
    }
}

/// A chroma plane with the first `n` of some subtitles blended in, one over the other.
pub open spec fn burned_chroma(
    plane: Seq<u8>,
    stride: int,
    video_w: int,
    video_h: int,
    subs: Seq<BitmapSubtitle>,
    n: int,
) -> Seq<u8>
    decreases n,
{
    if n <= 0 {
        plane
    } else {
        blended_chroma(
            burned_chroma(plane, stride, video_w, video_h, subs, n - 1),
            stride,
            video_w,
            video_h,
            subs[n - 1],
        )
    }
}

/// The luma of a picture copied into a fresh one.
pub open spec fn copied_luma(src: Picture, fresh: Picture) -> Seq<u8> {
    with_rows(
        fresh.luma@,
        fresh.luma_stride as int,
        src.luma@,
        src.luma_stride as int,
        narrower(src.luma_stride, fresh.luma_stride),
        src.height as int,
    )
}

/// The chroma of a picture copied into a fresh one.
pub open spec fn copied_chroma(src: Picture, fresh: Picture) -> Seq<u8> {
    with_rows(
        fresh.chroma@,
        fresh.chroma_stride as int,
        src.chroma@,
        src.chroma_stride as int,
        narrower(src.chroma_stride, fresh.chroma_stride),
        src.chroma_rows(),
    )
}

/// Whole rows of a plane hold any part of them.
proof fn lemma_whole_rows(len: int, stride: int, width: int, height: int)
    requires
        0 <= width <= stride,
        0 <= height,
        height * stride <= len,
    ensures
        holds_rows(len, stride, width, height),
{
    assert((height - 1) * stride + stride == height * stride) by (nonlinear_arith);
}

fn smaller(a: usize, b: usize) -> (r: usize)
    ensures
        r == narrower(a, b),
{
    if a <= b {
        a
    } else {
        b
    }
}

/// Burns subtitles into a copy of a picture, made in `fresh`, a picture of the same size. There is
/// none where there are no subtitles, or no fresh picture could be had.
pub fn composite_subtitles(src: &Picture, fresh: Option<Picture>, subs: &Vec<BitmapSubtitle>) -> (r:
    Option<Picture>)
    requires
        src.wf(),
        fresh is Some ==> fresh->0.wf() && fresh->0.width == src.width && fresh->0.height
            == src.height,
        forall|i: int| 0 <= i < subs.len() ==> (#[trigger] subs@[i]).wf(),
    ensures
        r is Some <==> subs.len() > 0 && fresh is Some,
        r is Some ==> {
            let (picture, blank) = (r->0, fresh->0);
            &&& picture.wf()
            &&& picture.width == src.width
            &&& picture.height == src.height
            &&& picture.luma_stride == blank.luma_stride
            &&& picture.chroma_stride == blank.chroma_stride
            &&& picture.luma@ == burned_luma(
                copied_luma(*src, blank),
                blank.luma_stride as int,
                src.width as int,
                src.height as int,
                subs@,
                subs.len() as int,
            )
            &&& picture.chroma@ == burned_chroma(
                copied_chroma(*src, blank),
                blank.chroma_stride as int,
                src.width as int,
                src.height as int,
                subs@,
                subs.len() as int,
            )
        },
{
    if subs.len() == 0 {
        return None;
    }
    match fresh {
        None => None,
        Some(blank) => {
            let ghost start = blank;
            let mut picture: Picture = blank;
            let luma_row: usize = smaller(src.luma_stride, picture.luma_stride);
            let chroma_row: usize = smaller(src.chroma_stride, picture.chroma_stride);
            let luma_rows: usize = src.height as usize;
            let chroma_rows: usize = luma_rows / 2 + luma_rows % 2;
            let ghost width = src.width as int;
            let ghost height = src.height as int;
            proof {
                let (from, to) = (src.luma.len() as int, start.luma.len() as int);
                lemma_whole_rows(from, src.luma_stride as int, luma_row as int, height);
                lemma_whole_rows(to, start.luma_stride as int, luma_row as int, height);
                lemma_whole_rows(to, start.luma_stride as int, width, height);
                let (from, to) = (src.chroma.len() as int, start.chroma.len() as int);
                let rows = chroma_rows as int;
                lemma_whole_rows(from, src.chroma_stride as int, chroma_row as int, rows);
                lemma_whole_rows(to, start.chroma_stride as int, chroma_row as int, rows);
                lemma_whole_rows(to, start.chroma_stride as int, (width + 1) / 2 * 2, rows);
            }
            copy_plane(
                &src.luma,
                src.luma_stride,
                &mut picture.luma,
                picture.luma_stride,
                luma_row,
                luma_rows,
            );
            copy_plane(
                &src.chroma,
                src.chroma_stride,
                &mut picture.chroma,
                picture.chroma_stride,
                chroma_row,
                chroma_rows,
            );
            let mut i: usize = 0;
            while i < subs.len()
                invariant
                    i <= subs.len(),
                    forall|k: int| 0 <= k < subs.len() ==> (#[trigger] subs@[k]).wf(),
                    width == src.width,
                    height == src.height,
                    picture.width == start.width,
                    picture.height == start.height,
                    picture.luma_stride == start.luma_stride,
                    picture.chroma_stride == start.chroma_stride,
                    picture.luma.len() == start.luma.len(),
                    picture.chroma.len() == start.chroma.len(),
                    holds_rows(
                        start.luma.len() as int,
                        start.luma_stride as int,
                        width,
                        height,
                    ),
                    holds_chroma(
                        start.chroma.len() as int,
                        start.chroma_stride as int,
                        width,
                        height,
                    ),
                    picture.luma@ == burned_luma(
                        copied_luma(*src, start),
                        start.luma_stride as int,
                        width,
                        height,
                        subs@,
                        i as int,
                    ),
                    picture.chroma@ == burned_chroma(
                        copied_chroma(*src, start),
                        start.chroma_stride as int,
                        width,
                        height,
                        subs@,
                        i as int,
                    ),
                decreases subs.len() - i,
            {
                blend_y_plane(
                    &mut picture.luma,
                    picture.luma_stride,
                    src.width,
                    src.height,
                    &subs[i],
                );
                blend_uv_plane(
                    &mut picture.chroma,
                    picture.chroma_stride,
                    src.width,
                    src.height,
                    &subs[i],
                );
                i = i + 1;
            }
            Some(picture)
        },
    }
}

/// Where no subtitle covers the picture, compositing leaves the luma and chroma as they were.
pub proof fn lemma_uncovered_is_kept(
    plane: Seq<u8>,
    stride: int,
    video_w: int,
    video_h: int,
    sub: BitmapSubtitle,
    p: int,
)
    requires
        0 <= p < plane.len(),
    ensures
        !sub.covers(p / stride, p % stride) ==> blended_luma(
            plane,
            stride,
            video_w,
            video_h,
            sub,
        )[p] == plane[p],
        !sub.covers(chroma_row(stride, sub, p), chroma_column(stride, sub, p)) ==> blended_chroma(
            plane,
            stride,
            video_w,
            video_h,
            sub,
        )[p] == plane[p],
{
}

/// A blend is rounded to the nearest value, and lies between what is under it and what is over it.
pub proof fn lemma_mixed_is_between(under: u8, over: u8, alpha: u8)
    ensures
        255 * mixed(under, over, alpha) <= over * alpha + under * (255 - alpha) + 128,
        over * alpha + under * (255 - alpha) + 128 < 255 * (mixed(under, over, alpha) + 1),
        under <= over ==> under <= mixed(under, over, alpha) <= over,
        over <= under ==> over <= mixed(under, over, alpha) <= under,
{
    let (o, u, a) = (over as int, under as int, alpha as int);
    let s = o * a + u * (255 - a);
    assert(0 <= s <= 255 * 255 && (u <= o ==> 255 * u <= s <= 255 * o) && (o <= u ==> 255 * o <= s
        <= 255 * u)) by (nonlinear_arith)
        requires
            0 <= o <= 255,
            0 <= u <= 255,
            0 <= a <= 255,
            s == o * a + u * (255 - a),
    ;
}

/// The pixel at row `i` and column `j` of a subtitle is blended into the luma at its place in the
/// picture, as far as that lies within the picture.
pub proof fn lemma_luma_of_a_pixel(
    plane: Seq<u8>,
    stride: int,
    video_w: int,
    video_h: int,
    sub: BitmapSubtitle,
    i: int,
    j: int,
)
    requires
        sub.wf(),
        holds_rows(plane.len() as int, stride, video_w, video_h),
        0 <= i < sub.h,
        0 <= j < sub.w,
        sub.y + i < video_h,
        sub.x + j < video_w,
    ensures
        ({
            let p = (sub.y + i) * stride + sub.x + j;
            let pixel = sub.pixels@[i * sub.w + j];
            &&& 0 <= p < plane.len()
            &&& blended_luma(plane, stride, video_w, video_h, sub).len() == plane.len()
            &&& blended_luma(plane, stride, video_w, video_h, sub)[p] == (pixel.luma * pixel.alpha
                + plane[p] * (255 - pixel.alpha) + 128) / 255
        }),
{
    let (row, column) = (sub.y + i, sub.x + j);
    lemma_within(plane.len() as int, stride, video_w, video_h, row, column);
    lemma_place_of(row, column, stride);
    let p = row * stride + column;
    let pixel = sub.pixels@[i * sub.w + j];
    assert(sub.at(row, column) == pixel);
    lemma_mixed_is_between(plane[p], pixel.luma, pixel.alpha);
    let (o, u, a) = (pixel.luma as int, plane[p] as int, pixel.alpha as int);
    assert(0 <= o * a + u * (255 - a) <= 255 * 255) by (nonlinear_arith)
        requires
            0 <= o <= 255,
            0 <= u <= 255,
            0 <= a <= 255,
    ;
}

/// The luma outside a subtitle, or outside the picture, stays as it was.
pub proof fn lemma_luma_beside_the_subtitle(
    plane: Seq<u8>,
    stride: int,
    video_w: int,
    video_h: int,
    sub: BitmapSubtitle,
    row: int,
    column: int,
)
    requires
        0 <= row,
        0 <= column < stride,
        row * stride + column < plane.len(),
        row < sub.y || row >= sub.y + sub.h || column < sub.x || column >= sub.x + sub.w || row
            >= video_h || column >= video_w,
    ensures
        blended_luma(plane, stride, video_w, video_h, sub)[row * stride + column] == plane[row
            * stride + column],
{
    lemma_place_of(row, column, stride);
    assert(0 <= row * stride) by (nonlinear_arith)
        requires
            0 <= row,
            0 < stride,
    ;
}

/// Every other pixel of every other row of a subtitle is blended into the pair of chroma bytes at
/// half its place in the picture: the blue difference first, the red one behind it.
pub proof fn lemma_chroma_of_a_pixel(
    plane: Seq<u8>,
    stride: int,
    video_w: int,
    video_h: int,
    sub: BitmapSubtitle,
    i: int,
    j: int,
)
    requires
        sub.wf(),
        holds_chroma(plane.len() as int, stride, video_w, video_h),
        0 <= i < sub.h,
        0 <= j < sub.w,
        i % 2 == 0,
        j % 2 == 0,
        sub.y + i < video_h,
        sub.x + j < video_w,
    ensures
        ({
            let p = (sub.y + i) / 2 * stride + (sub.x + j) / 2 * 2;
            let pixel = sub.pixels@[i * sub.w + j];
            let after = blended_chroma(plane, stride, video_w, video_h, sub);
            &&& 0 <= p
            &&& p + 1 < plane.len()
            &&& after.len() == plane.len()
            &&& after[p] == (pixel.cb * pixel.alpha + plane[p] * (255 - pixel.alpha) + 128) / 255
            &&& after[p + 1] == (pixel.cr * pixel.alpha + plane[p + 1] * (255 - pixel.alpha) + 128)
                / 255
        }),
{
    let (row, column) = (sub.y + i, sub.x + j);
    let pair = column / 2 * 2;
    let (wide, high) = ((video_w + 1) / 2 * 2, (video_h + 1) / 2);
    lemma_within(plane.len() as int, stride, wide, high, row / 2, pair);
    lemma_within(plane.len() as int, stride, wide, high, row / 2, pair + 1);
    lemma_place_of(row / 2, pair, stride);
    lemma_place_of(row / 2, pair + 1, stride);
    let p = row / 2 * stride + pair;
    let pixel = sub.pixels@[i * sub.w + j];
    assert(chroma_row(stride, sub, p) == row && chroma_column(stride, sub, p) == column);
    assert(chroma_row(stride, sub, p + 1) == row && chroma_column(stride, sub, p + 1) == column);
    assert(sub.at(row, column) == pixel);
    let (b, r, a) = (pixel.cb as int, pixel.cr as int, pixel.alpha as int);
    let (u, v) = (plane[p] as int, plane[p + 1] as int);
    assert(0 <= b * a + u * (255 - a) <= 255 * 255 && 0 <= r * a + v * (255 - a) <= 255 * 255)
        by (nonlinear_arith)
        requires
            0 <= b <= 255,
            0 <= r <= 255,
            0 <= u <= 255,
            0 <= v <= 255,
            0 <= a <= 255,
    ;
}

/// A pair of chroma bytes stays as it was where none of the pixels that are taken from a subtitle
/// falls on it.
pub proof fn lemma_chroma_beside_the_subtitle(
    plane: Seq<u8>,
    stride: int,
    video_w: int,
    video_h: int,
    sub: BitmapSubtitle,
    row: int,
    column: int,
)
    requires
        0 <= row,
        0 <= column < stride,
        row * stride + column < plane.len(),
        forall|i: int, j: int|
            #![trigger sub.covers(sub.y + i, sub.x + j)]
            0 <= i < sub.h && 0 <= j < sub.w && i % 2 == 0 && j % 2 == 0 && sub.y + i < video_h
                && sub.x + j < video_w ==> (sub.y + i) / 2 != row || (sub.x + j) / 2 != column / 2,
    ensures
        blended_chroma(plane, stride, video_w, video_h, sub)[row * stride + column] == plane[row
            * stride + column],
{
    lemma_place_of(row, column, stride);
    assert(0 <= row * stride) by (nonlinear_arith)
        requires
            0 <= row,
            0 < stride,
    ;
    let p = row * stride + column;
    let (r, c) = (chroma_row(stride, sub, p), chroma_column(stride, sub, p));
    if r < video_h && c < video_w && sub.covers(r, c) {
        assert(sub.covers(sub.y + (r - sub.y), sub.x + (c - sub.x)));
    }
}

/// Subtitles are blended in one after the other: one more goes over what those before it left.
pub proof fn lemma_subtitles_go_one_over_the_other(
    plane: Seq<u8>,
    stride: int,
    video_w: int,
    video_h: int,
    subs: Seq<BitmapSubtitle>,
    sub: BitmapSubtitle,
)
    ensures
        burned_luma(plane, stride, video_w, video_h, Seq::empty(), 0) == plane,
        burned_chroma(plane, stride, video_w, video_h, Seq::empty(), 0) == plane,
        burned_luma(plane, stride, video_w, video_h, subs.push(sub), (subs.len() + 1) as int)
            == blended_luma(
            burned_luma(plane, stride, video_w, video_h, subs, subs.len() as int),
            stride,
            video_w,
            video_h,
            sub,
        ),
        burned_chroma(plane, stride, video_w, video_h, subs.push(sub), (subs.len() + 1) as int)
            == blended_chroma(
            burned_chroma(plane, stride, video_w, video_h, subs, subs.len() as int),
            stride,
            video_w,
            video_h,
            sub,
        ),
{
    lemma_burned_first(plane, stride, video_w, video_h, subs, sub, subs.len() as int);
}

/// A subtitle behind the first `n` has no part in what they leave.
proof fn lemma_burned_first(
    plane: Seq<u8>,
    stride: int,
    video_w: int,
    video_h: int,
    subs: Seq<BitmapSubtitle>,
    sub: BitmapSubtitle,
    n: int,
)
    requires
        0 <= n <= subs.len(),
    ensures
        burned_luma(plane, stride, video_w, video_h, subs.push(sub), n) == burned_luma(
            plane,
            stride,
            video_w,
            video_h,
            subs,
            n,
        ),
        burned_chroma(plane, stride, video_w, video_h, subs.push(sub), n) == burned_chroma(
            plane,
            stride,
            video_w,
            video_h,
            subs,
            n,
        ),
    decreases n,
{
    if n > 0 {
        lemma_burned_first(plane, stride, video_w, video_h, subs, sub, n - 1);
    }
}

/// A copy holds every pixel of the picture at its place: the luma of each row, and the chroma of
/// every two.
pub proof fn lemma_picture_is_copied(src: Picture, fresh: Picture, row: int, column: int)
    requires
        src.wf(),
        fresh.wf(),
        src.width == fresh.width,
        src.height == fresh.height,
        0 <= row,
        0 <= column,
    ensures
        row < src.height && column < src.width ==> copied_luma(src, fresh)[row * fresh.luma_stride
            + column] == src.luma@[row * src.luma_stride + column],
        row < (src.height + 1) / 2 && column < (src.width + 1) / 2 * 2 ==> copied_chroma(
            src,
            fresh,
        )[row * fresh.chroma_stride + column] == src.chroma@[row * src.chroma_stride + column],
{
    if row < src.height && column < src.width {
        let stride = fresh.luma_stride as int;
        lemma_whole_rows(fresh.luma.len() as int, stride, src.width as int, src.height as int);
        lemma_within(
            fresh.luma.len() as int,
            stride,
            src.width as int,
            src.height as int,
            row,
            column,
        );
        lemma_place_of(row, column, stride);
    }
    if row < (src.height + 1) / 2 && column < (src.width + 1) / 2 * 2 {
        let stride = fresh.chroma_stride as int;
        let wide = (src.width + 1) / 2 * 2;
        lemma_whole_rows(fresh.chroma.len() as int, stride, wide, src.chroma_rows());
        lemma_within(fresh.chroma.len() as int, stride, wide, src.chroma_rows(), row, column);
        lemma_place_of(row, column, stride);
    }
}

} // verus!
