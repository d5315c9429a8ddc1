//! Decoded video: frames from what the decoder gives, and the copying of picture planes.

use vstd::prelude::*;

use crate::cmd::VideoFrame;
use crate::time::{pts_to_us, stamp_us, Rational};

verus! {

/// A frame from a decoded picture, with its times in units of its stream.
pub fn decoded_frame<B>(buffer: B, pts: i64, duration: i64, time_base: Rational) -> (r: VideoFrame<B>)
    ensures
        r == (VideoFrame {
            pixel_buffer: Some(buffer),
            pts_us: stamp_us(pts as int, time_base) as i64,
            duration_us: stamp_us(duration as int, time_base) as i64,
            seek_flush: false,
        }),
{
    VideoFrame {
        pixel_buffer: Some(buffer),
        pts_us: pts_to_us(pts, time_base),
        duration_us: pts_to_us(duration, time_base),
        seek_flush: false,
    }
}

/// Picks the format to decode to: the wanted one where the decoder offers it, else the first.
pub fn pick_format(offered: &Vec<i32>, wanted: i32) -> (r: i32)
    requires
        offered.len() > 0,
    ensures
        r == if offered@.contains(wanted) {
            wanted
        } else {
            offered@[0]
        },
{
    let mut i: usize = 0;
    while i < offered.len()
        invariant
            i <= offered.len(),
            forall|k: int| 0 <= k < i ==> offered@[k] != wanted,
        decreases offered.len() - i,
    {
        if offered[i] == wanted {
            assert(offered@.contains(wanted));
            return wanted;
        }
        i = i + 1;
    }
    assert(!offered@.contains(wanted));
    offered[0]
}

/// Whether `height` rows of `width` bytes lie within a plane of `len` bytes, rows `stride` apart.
pub open spec fn holds_rows(len: int, stride: int, width: int, height: int) -> bool {
    width <= stride && (height > 0 ==> (height - 1) * stride + width <= len)
}

/// Whether a place of a plane lies in the first `height` rows, among the first `width` bytes of its
/// row.
pub open spec fn in_rows(p: int, stride: int, width: int, height: int) -> bool {
    stride > 0 && 0 <= p / stride < height && p % stride < width
}

/// A plane with `height` rows of `width` bytes copied from another.
pub open spec fn with_rows(
    dst: Seq<u8>,
    dst_stride: int,
    src: Seq<u8>,
    src_stride: int,
    width: int,
    height: int,
) -> Seq<u8> {
    Seq::new(
        dst.len(),
        |p: int|
            if in_rows(p, dst_stride, width, height) {
                src[p / dst_stride * src_stride + p % dst_stride]
            } else {
                dst[p]
            },
    )
}

/// A place is that of its row and column.
pub proof fn lemma_place_of(row: int, column: int, stride: int)
    requires
        0 <= column < stride,
        0 <= row,
    ensures
        (row * stride + column) / stride == row,
        (row * stride + column) % stride == column,
{
    vstd::arithmetic::div_mod::lemma_fundamental_div_mod_converse(
        row * stride + column,
        stride,
        row,
        column,
    );
}

/// Places are told apart by their rows and columns.
pub proof fn lemma_place_split(p: int, stride: int)
    requires
        stride > 0,
        p >= 0,
    ensures
        p == p / stride * stride + p % stride,
        0 <= p % stride < stride,
        p / stride >= 0,
{
    vstd::arithmetic::div_mod::lemma_fundamental_div_mod(p, stride);
    vstd::arithmetic::div_mod::lemma_mod_bound(p, stride);
    vstd::arithmetic::div_mod::lemma_div_pos_is_pos(p, stride);
    assert(stride * (p / stride) == p / stride * stride) by (nonlinear_arith);
}

/// The place of a byte in a row that is held lies within the plane.
pub proof fn lemma_within(len: int, stride: int, width: int, height: int, row: int, column: int)
    requires
        holds_rows(len, stride, width, height),
        0 <= row < height,
        0 <= column < width,
    ensures
        0 <= row * stride + column < len,
        0 <= row * stride,
{
    assert(row * stride + column <= (height - 1) * stride + (width - 1)) by (nonlinear_arith)
        requires
            0 <= row <= height - 1,
            column <= width - 1,
            stride >= 0,
    ;
    assert(row * stride >= 0) by (nonlinear_arith)
        requires
            row >= 0,
            stride >= 0,
    ;
}

/// Copies `height` rows of `width` bytes from one plane to another, each with its own distance
/// between rows.
pub fn copy_plane(
    src: &Vec<u8>,
    src_stride: usize,
    dst: &mut Vec<u8>,
    dst_stride: usize,
    width: usize,
    height: usize,
)
    requires
        holds_rows(src.len() as int, src_stride as int, width as int, height as int),
        holds_rows(old(dst).len() as int, dst_stride as int, width as int, height as int),
    ensures
        final(dst)@ == with_rows(
            old(dst)@,
            dst_stride as int,
            src@,
            src_stride as int,
            width as int,
            height as int,
        ),
{
    let ghost before = dst@;
    let mut row: usize = 0;
    if width == 0 {
        assert(dst@ =~= with_rows(
            before,
            dst_stride as int,
            src@,
            src_stride as int,
            width as int,
            height as int,
        ));
        return;
    }
    assert(dst@ =~= with_rows(
        before,
        dst_stride as int,
        src@,
        src_stride as int,
        width as int,
        0,
    )) by {
        assert forall|p: int| 0 <= p < before.len() implies !in_rows(
            p,
            dst_stride as int,
            width as int,
            0,
        ) by {}
    }
    while row < height
        invariant
            row <= height,
            width > 0,
            holds_rows(src.len() as int, src_stride as int, width as int, height as int),
            holds_rows(dst.len() as int, dst_stride as int, width as int, height as int),
            dst.len() == before.len(),
            dst@ == with_rows(
                before,
                dst_stride as int,
                src@,
                src_stride as int,
                width as int,
                row as int,
            ),
        decreases height - row,
    {
        copy_row(src, src_stride, dst, dst_stride, width, Ghost(height as int), row, Ghost(before));
        row = row + 1;
    }
}

/// Copies one row.
fn copy_row(
    src: &Vec<u8>,
    src_stride: usize,
    dst: &mut Vec<u8>,
    dst_stride: usize,
    width: usize,
    Ghost(height): Ghost<int>,
    row: usize,
    Ghost(before): Ghost<Seq<u8>>,
)
    requires
        width > 0,
        row < height,
        holds_rows(src.len() as int, src_stride as int, width as int, height),
        holds_rows(old(dst).len() as int, dst_stride as int, width as int, height),
        old(dst).len() == before.len(),
        old(dst)@ == with_rows(
            before,
            dst_stride as int,
            src@,
            src_stride as int,
            width as int,
            row as int,
        ),
    ensures
        final(dst)@ == with_rows(
            before,
            dst_stride as int,
            src@,
            src_stride as int,
            width as int,
            row + 1,
        ),
{
    let ghost now = dst@;
    proof {
        lemma_within(src.len() as int, src_stride as int, width as int, height, row as int, 0);
        lemma_within(dst.len() as int, dst_stride as int, width as int, height, row as int, 0);
    }
    let src_start: usize = row * src_stride;
    let dst_start: usize = row * dst_stride;
    let mut column: usize = 0;
    while column < width
        invariant
            column <= width,
            width > 0,
            0 <= row < height,
            src_start == row * src_stride,
            dst_start == row * dst_stride,
            holds_rows(src.len() as int, src_stride as int, width as int, height),
            holds_rows(dst.len() as int, dst_stride as int, width as int, height),
            dst.len() == now.len(),
            forall|p: int|
                0 <= p < now.len() ==> #[trigger] dst@[p] == if dst_start <= p < dst_start
                    + column {
                    src@[src_start + (p - dst_start)]
                } else {
                    now[p]
                },
        decreases width - column,
    {
        proof {
            lemma_within(
                src.len() as int,
                src_stride as int,
                width as int,
                height,
                row as int,
                column as int,
            );
            lemma_within(
                dst.len() as int,
                dst_stride as int,
                width as int,
                height,
                row as int,
                column as int,
            );
        }
        dst.set(dst_start + column, src[src_start + column]);
        column = column + 1;
    }
    proof {
        let stride = dst_stride as int;
        let want = with_rows(
            before,
            stride,
            src@,
            src_stride as int,
            width as int,
            row + 1,
        );
        assert forall|p: int| 0 <= p < now.len() implies #[trigger] dst@[p] == want[p] by {
            lemma_place_split(p, stride);
            if dst_start <= p < dst_start + width {
                lemma_place_of(row as int, p - dst_start, stride);
            } else if p / stride == row && p % stride < width {
                assert(p == row * stride + p % stride);
            }
        }
        assert(dst@ =~= want);
    }
}

/// Copying takes over each byte of the rows, at its row and column, and leaves the bytes beside
/// the rows and below them as they were.
pub proof fn lemma_rows_are_copied(
    dst: Seq<u8>,
    dst_stride: int,
    src: Seq<u8>,
    src_stride: int,
    width: int,
    height: int,
    row: int,
    column: int,
)
    requires
        0 <= row,
        0 <= column < dst_stride,
        row * dst_stride + column < dst.len(),
    ensures
        with_rows(dst, dst_stride, src, src_stride, width, height).len() == dst.len(),
        with_rows(dst, dst_stride, src, src_stride, width, height)[row * dst_stride + column]
            == if row < height && column < width {
            src[row * src_stride + column]
        } else {
            dst[row * dst_stride + column]
        },
{
    lemma_place_of(row, column, dst_stride);
    assert(0 <= row * dst_stride) by (nonlinear_arith)
        requires
            0 <= row,
            0 < dst_stride,
    ;
}

} // verus!
