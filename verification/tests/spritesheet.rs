use bitmapflow_cli::frame::Frame;
use bitmapflow_cli::raster::Rgba;
use bitmapflow_cli::spritesheet::{assemble_spritesheet, split_spritesheet, SpritesheetError};

/// A frame whose pixel `(x, y)` has red `tag`, green `x`, blue `y`, alpha 255.
fn tagged(width: u32, height: u32, tag: u8) -> Frame {
    let mut data = Vec::new();
    for y in 0..height {
        for x in 0..width {
            data.extend_from_slice(&[tag, x as u8, y as u8, 255]);
        }
    }
    Frame::new(width, height, data).unwrap()
}

#[test]
fn assemble_lays_frames_out_in_a_grid() {
    let frames: Vec<Frame> = (0..5).map(|i| tagged(2, 3, 10 + i)).collect();
    let sheet = assemble_spritesheet(&frames, 2).unwrap();
    assert_eq!(sheet.width, 4);
    assert_eq!(sheet.height, 9);
    // frame 3 is in column 1, row 1
    assert_eq!(sheet.pixel(2 + 1, 3 + 2), Rgba { r: 13, g: 1, b: 2, a: 255 });
    // frame 4 is in column 0, row 2
    assert_eq!(sheet.pixel(0, 6), Rgba { r: 14, g: 0, b: 0, a: 255 });
    // the cell after the last frame stays transparent
    assert_eq!(sheet.pixel(3, 8), Rgba { r: 0, g: 0, b: 0, a: 0 });
}

#[test]
fn assemble_clamps_columns_to_frame_count() {
    let frames: Vec<Frame> = (0..3).map(|i| tagged(4, 2, i)).collect();
    let sheet = assemble_spritesheet(&frames, 10).unwrap();
    assert_eq!((sheet.width, sheet.height), (12, 2));
    assert_eq!(sheet.pixel(8, 1), Rgba { r: 2, g: 0, b: 1, a: 255 });
}

#[test]
fn assemble_without_frames_fails() {
    let frames: Vec<Frame> = Vec::new();
    assert_eq!(assemble_spritesheet(&frames, 3), Err(SpritesheetError::NoFrames));
}

#[test]
fn assemble_draws_later_frames_over_earlier_ones() {
    // the first frame sets the cell size; a larger second frame spills over
    let frames = vec![tagged(1, 1, 1), tagged(2, 1, 2)];
    let sheet = assemble_spritesheet(&frames, 1).unwrap();
    assert_eq!((sheet.width, sheet.height), (1, 2));
    assert_eq!(sheet.pixel(0, 0).r, 1);
    assert_eq!(sheet.pixel(0, 1).r, 2);
}

#[test]
fn split_cuts_frames_left_to_right_top_to_bottom() {
    let sheet = tagged(6, 4, 7);
    let frames = split_spritesheet(&sheet, 3, 2, 4).unwrap();
    assert_eq!(frames.len(), 4);
    for f in &frames {
        assert_eq!((f.width, f.height), (3, 2));
    }
    // frame 1 starts at (3, 0), frame 2 at (0, 2), frame 3 at (3, 2)
    assert_eq!(frames[1].pixel(0, 0), Rgba { r: 7, g: 3, b: 0, a: 255 });
    assert_eq!(frames[2].pixel(1, 1), Rgba { r: 7, g: 1, b: 3, a: 255 });
    assert_eq!(frames[3].pixel(2, 1), Rgba { r: 7, g: 5, b: 3, a: 255 });
}

#[test]
fn split_ignores_columns_that_do_not_fit_whole() {
    // 7 pixels wide with frames 3 wide: two columns, the last pixel unused
    let sheet = tagged(7, 2, 1);
    let frames = split_spritesheet(&sheet, 3, 1, 4).unwrap();
    assert_eq!(frames[2].pixel(0, 0), Rgba { r: 1, g: 0, b: 1, a: 255 });
}

#[test]
fn split_reports_the_first_frame_outside_the_sheet() {
    let sheet = tagged(4, 3, 0);
    let res = split_spritesheet(&sheet, 2, 2, 5);
    assert_eq!(
        res,
        Err(SpritesheetError::FrameOutOfBounds { index: 2, x: 0, y: 2, sheet_width: 4, sheet_height: 3 })
    );
}

#[test]
fn split_of_no_frames_is_empty() {
    let sheet = tagged(4, 3, 0);
    assert_eq!(split_spritesheet(&sheet, 2, 2, 0), Ok(Vec::new()));
}

#[test]
fn split_after_assemble_gives_the_frames_back() {
    let frames: Vec<Frame> = (0..7).map(|i| tagged(3, 2, 40 + i)).collect();
    for columns in 1..9 {
        let sheet = assemble_spritesheet(&frames, columns).unwrap();
        let back = split_spritesheet(&sheet, 3, 2, frames.len()).unwrap();
        assert_eq!(back, frames);
    }
}

#[test]
fn as_many_columns_as_frames_gives_one_row() {
    let frames: Vec<Frame> = (0..4).map(|i| tagged(2, 3, i)).collect();
    let sheet = assemble_spritesheet(&frames, frames.len()).unwrap();
    assert_eq!((sheet.width, sheet.height), (8, 3));
}
