use play::composite::{
    blend_uv_plane, blend_y_plane, composite_subtitles, BitmapSubtitle, Picture, Pixel,
};
use play::decode_video::{copy_plane, decoded_frame, pick_format};
use play::time::Rational;

fn pixel(luma: u8, cb: u8, cr: u8, alpha: u8) -> Pixel {
    Pixel { luma, cb, cr, alpha }
}

#[test]
fn frames_take_their_times_from_the_stream() {
    let frame = decoded_frame("picture", 90, 3, Rational::new(1, 30));
    assert_eq!(frame.pixel_buffer, Some("picture"));
    assert_eq!((frame.pts_us, frame.duration_us, frame.seek_flush), (3_000_000, 100_000, false));
}

#[test]
fn wanted_format_is_picked() {
    assert_eq!(pick_format(&vec![3, 9, 7], 7), 7);
    assert_eq!(pick_format(&vec![3, 9], 7), 3);
}

#[test]
fn planes_are_copied_by_rows() {
    let src = vec![1, 2, 3, 0, 4, 5, 6];
    let mut dst = vec![9; 10];
    copy_plane(&src, 4, &mut dst, 5, 3, 2);
    assert_eq!(dst, vec![1, 2, 3, 9, 9, 4, 5, 6, 9, 9]);
}

#[test]
fn luma_is_blended_by_opacity() {
    let sub = BitmapSubtitle {
        x: 1,
        y: 0,
        w: 3,
        h: 2,
        pixels: vec![
            pixel(200, 0, 0, 255),
            pixel(200, 0, 0, 0),
            pixel(200, 0, 0, 255),
            pixel(200, 0, 0, 128),
            pixel(0, 0, 0, 64),
            pixel(1, 0, 0, 255),
        ],
    };
    let mut plane = vec![100; 8];
    blend_y_plane(&mut plane, 4, 3, 2, &sub);
    // The last column lies outside a picture three columns wide.
    assert_eq!(plane, vec![100, 200, 100, 100, 100, 150, 75, 100]);
    let mut plane = vec![100; 8];
    blend_y_plane(&mut plane, 4, 4, 1, &sub);
    assert_eq!(plane, vec![100, 200, 100, 200, 100, 100, 100, 100]);
}

#[test]
fn chroma_is_blended_in_pairs() {
    let mut pixels = vec![pixel(0, 10, 20, 255); 6];
    pixels[2] = pixel(0, 30, 40, 255);
    let sub = BitmapSubtitle { x: 1, y: 1, w: 3, h: 2, pixels };
    let mut plane = vec![128; 12];
    blend_uv_plane(&mut plane, 6, 6, 4, &sub);
    assert_eq!(plane, vec![10, 20, 30, 40, 128, 128, 128, 128, 128, 128, 128, 128]);
}

#[test]
fn subtitles_are_burned_into_a_copy() {
    let picture = |luma_stride: usize, value: u8| Picture {
        width: 2,
        height: 2,
        luma: vec![value; 2 * luma_stride],
        luma_stride,
        chroma: vec![value; luma_stride],
        chroma_stride: luma_stride,
    };
    let first = BitmapSubtitle { x: 0, y: 0, w: 1, h: 1, pixels: vec![pixel(9, 8, 7, 255)] };
    let second = BitmapSubtitle { x: 0, y: 0, w: 2, h: 1, pixels: vec![pixel(5, 5, 5, 0), pixel(4, 0, 0, 255)] };
    let src = picture(2, 50);
    let out = composite_subtitles(&src, Some(picture(3, 0)), &vec![first.clone(), second]).unwrap();
    assert_eq!(out.luma, vec![9, 4, 0, 50, 50, 0]);
    assert_eq!(out.chroma, vec![8, 7, 0]);
    assert_eq!(src.luma, vec![50; 4]);
    assert!(composite_subtitles(&src, Some(picture(3, 0)), &vec![]).is_none());
    assert!(composite_subtitles(&src, None, &vec![first]).is_none());
}
