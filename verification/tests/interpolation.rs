use bitmapflow_cli::frame::Frame;
use bitmapflow_cli::interpolation::{
    apply_flow, frame_to_bgr, plan_interpolation, InterpolationError, InterpolationStep,
};

fn step(source: usize, target: usize, numerator: usize, denominator: usize) -> InterpolationStep {
    InterpolationStep { source, target, numerator, denominator }
}

#[test]
fn looping_plan_of_five_frames_with_one_inbetween_has_ten_frames() {
    let steps = plan_interpolation(5, 1, true).unwrap();
    assert_eq!(steps.len(), 10);
    assert_eq!(steps[0], step(0, 1, 0, 2));
    assert_eq!(steps[1], step(0, 1, 1, 2));
    assert_eq!(steps[8], step(4, 0, 0, 2));
    assert_eq!(steps[9], step(4, 0, 1, 2));
}

#[test]
fn non_looping_plan_moves_the_last_frame_towards_itself() {
    let steps = plan_interpolation(3, 2, false).unwrap();
    assert_eq!(
        steps,
        vec![
            step(0, 1, 0, 3),
            step(0, 1, 1, 3),
            step(0, 1, 2, 3),
            step(1, 2, 0, 3),
            step(1, 2, 1, 3),
            step(1, 2, 2, 3),
            step(2, 2, 0, 3),
            step(2, 2, 1, 3),
            step(2, 2, 2, 3),
        ]
    );
}

#[test]
fn plan_without_inbetweens_keeps_the_frames() {
    let steps = plan_interpolation(4, 0, true).unwrap();
    assert_eq!(steps.len(), 4);
    for (i, s) in steps.iter().enumerate() {
        assert_eq!((s.source, s.numerator, s.denominator), (i, 0, 1));
    }
}

#[test]
fn keyframes_come_first_in_every_pair() {
    let inbetweens = 3;
    let steps = plan_interpolation(6, inbetweens, true).unwrap();
    for i in 0..6 {
        let s = steps[i * (inbetweens + 1)];
        assert_eq!((s.source, s.numerator), (i, 0));
    }
}

#[test]
fn plan_needs_two_frames() {
    assert_eq!(plan_interpolation(1, 1, true), Err(InterpolationError::NotEnoughFrames { got: 1 }));
    assert_eq!(plan_interpolation(0, 5, false), Err(InterpolationError::NotEnoughFrames { got: 0 }));
}

#[test]
fn bgr_drops_alpha_and_blackens_transparent_pixels() {
    let frame = Frame::new(3, 1, vec![10, 20, 30, 255, 1, 2, 3, 29, 4, 5, 6, 30]).unwrap();
    assert_eq!(frame_to_bgr(&frame), vec![30, 20, 10, 0, 0, 0, 6, 5, 4]);
}

fn numbered(width: u32, height: u32) -> Frame {
    let mut data = Vec::new();
    for i in 0..(width * height) {
        data.extend_from_slice(&[i as u8, 0, 0, 255]);
    }
    Frame::new(width, height, data).unwrap()
}

#[test]
fn flow_samples_clamped_positions() {
    let frame = numbered(3, 2);
    let sources = vec![(2, 1), (-5, 0), (9, 9), (1, -1), (0, 1), (1, 0)];
    let out = apply_flow(&frame, &sources);
    assert_eq!((out.width, out.height), (3, 2));
    let reds: Vec<u8> = (0..6).map(|i| out.data[4 * i]).collect();
    assert_eq!(reds, vec![5, 0, 5, 1, 3, 1]);
}

#[test]
fn identity_flow_keeps_the_frame() {
    let frame = numbered(4, 3);
    let sources: Vec<(i32, i32)> = (0..12).map(|i| (i % 4, i / 4)).collect();
    assert_eq!(apply_flow(&frame, &sources), frame);
}
