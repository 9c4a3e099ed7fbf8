use flea_watch::codec::convert_frame_to_luma32f;
use flea_watch::detect::{detect_captcha, is_captcha_score, judge_match, CaptchaError};
use flea_watch::frame::FrameData;
use flea_watch::raster::Image;
use flea_watch::score::Score;
use std::cell::Cell;
use std::time::Instant;

fn score(value: f32) -> Score {
    Score::from_bits(value.to_bits())
}

fn map(values: &[f32]) -> Image {
    Image::new(values.iter().map(|v| score(*v)).collect(), values.len() as u32, 1).unwrap()
}

fn frame(bytes: usize) -> FrameData {
    FrameData::from_pixels(vec![200; bytes], 2, 2, 8, Instant::now()).unwrap()
}

#[test]
fn score_below_the_threshold_is_a_captcha() {
    assert!(is_captcha_score(score(24.999998)));
    assert!(!is_captcha_score(score(25.0)));
    assert!(!is_captcha_score(score(f32::NAN)));
    assert!(is_captcha_score(score(-1.0)));
}

#[test]
fn match_result_is_judged_by_its_minimum() {
    assert_eq!(judge_match(Some(map(&[90.0, 24.0, 60.0]))), Ok(true));
    assert_eq!(judge_match(Some(map(&[90.0, 25.0, 60.0]))), Ok(false));
    assert_eq!(judge_match(Some(map(&[]))), Ok(false));
    assert_eq!(judge_match(Some(map(&[f32::NAN, 3.0]))), Ok(true));
    assert_eq!(judge_match(None), Err(CaptchaError::NoMatchResult));
}

#[test]
fn matcher_gets_the_grey_frame_and_the_template() {
    let frame = frame(16);
    let luma = convert_frame_to_luma32f(&frame).unwrap();
    let template = map(&[0.25]);
    let found = detect_captcha(&frame, &template, |f: &Image, t: &Image| {
        assert_eq!(f.data(), luma.data());
        assert_eq!((f.width(), f.height()), (2, 2));
        assert_eq!(t.data()[0], score(0.25));
        Some(map(&[3.0]))
    });
    assert_eq!(found, Ok(true));
    let found = detect_captcha(&frame, &template, |_: &Image, _: &Image| Some(map(&[30.0])));
    assert_eq!(found, Ok(false));
}

#[test]
fn matcher_without_a_result_is_an_error() {
    let found = detect_captcha(&frame(16), &map(&[0.5]), |_: &Image, _: &Image| None);
    assert_eq!(found, Err(CaptchaError::NoMatchResult));
    assert_eq!(
        CaptchaError::NoMatchResult.message(),
        "Template matching failed to produce a result"
    );
}

#[test]
fn incomplete_frame_never_reaches_the_matcher() {
    let asked = Cell::new(false);
    let found = detect_captcha(&frame(15), &map(&[0.5]), |_: &Image, _: &Image| {
        asked.set(true);
        None
    });
    assert_eq!(found, Err(CaptchaError::InvalidFrame));
    assert!(!asked.get());
    assert_eq!(CaptchaError::InvalidFrame.message(), "Invalid frame dimensions");
}

#[test]
fn only_the_colours_decide() {
    let colours = [[10u8, 20, 30], [40, 50, 60], [70, 80, 90], [200, 210, 220]];
    let shot = |alpha: u8, surplus: usize, pitch: u32| {
        let mut pixels: Vec<u8> = Vec::new();
        for c in colours {
            pixels.extend_from_slice(&[c[0], c[1], c[2], alpha]);
        }
        pixels.resize(16 + surplus, alpha);
        FrameData::from_pixels(pixels, 2, 2, pitch, Instant::now()).unwrap()
    };
    // Scores the frame by its darkest cell.
    let matcher = |f: &Image, _: &Image| {
        let darkest = f.data().iter().map(|s| f32::from_bits(s.bits)).fold(1.0f32, f32::min);
        Some(map(&[darkest * 400.0]))
    };
    let template = map(&[0.5]);
    let expected = detect_captcha(&shot(0, 0, 8), &template, matcher);
    assert_eq!(expected, Ok(false));
    for (alpha, surplus, pitch) in [(0u8, 0usize, 8u32), (255, 0, 8), (9, 5, 8), (1, 8, 12)] {
        assert_eq!(detect_captcha(&shot(alpha, surplus, pitch), &template, matcher), expected);
    }
}
