use flea_watch::frame::FrameData;
use flea_watch::recorder::FrameRecorder;
use std::time::Instant;

fn frame(tag: u8) -> FrameData {
    FrameData::from_pixels(vec![tag; 4], 1, 1, 4, Instant::now()).unwrap()
}

fn tag(frame: Option<FrameData>) -> Option<u8> {
    frame.map(|f| f.pixels[0])
}

#[test]
fn empty_recorder_has_no_frame() {
    let recorder = FrameRecorder::new(5);
    assert!(recorder.latest_frame().is_none());
    assert!(recorder.get_latest_frame().is_none());
}

#[test]
fn latest_frame_is_the_last_one_recorded() {
    for max_frames in [1usize, 2, 5, 64] {
        let mut recorder = FrameRecorder::new(max_frames);
        for t in 0..100u8 {
            recorder.record(frame(t));
            assert_eq!(tag(recorder.latest_frame()), Some(t));
            assert_eq!(tag(recorder.get_latest_frame()), Some(t));
        }
    }
}

#[test]
fn looking_does_not_take_the_frame() {
    let mut recorder = FrameRecorder::new(2);
    recorder.record(frame(7));
    assert_eq!(tag(recorder.latest_frame()), Some(7));
    assert_eq!(tag(recorder.latest_frame()), Some(7));
}

#[test]
fn oldest_frames_are_dropped() {
    let first = frame(1);
    let pixels = first.pixels.clone();
    let mut recorder = FrameRecorder::new(2);
    recorder.record(first);
    recorder.record(frame(2));
    assert_eq!(std::sync::Arc::strong_count(&pixels), 2);
    recorder.record(frame(3));
    assert_eq!(std::sync::Arc::strong_count(&pixels), 1);
}

#[test]
fn recorder_of_no_frames_holds_none() {
    let first = frame(1);
    let pixels = first.pixels.clone();
    let mut recorder = FrameRecorder::new(0);
    recorder.record(first);
    assert_eq!(std::sync::Arc::strong_count(&pixels), 1);
    assert!(recorder.latest_frame().is_none());
    recorder.record(frame(2));
    assert!(recorder.get_latest_frame().is_none());
}

#[test]
fn recorder_holds_as_many_frames_as_it_is_made_for() {
    let frames: Vec<FrameData> = (0..7).map(frame).collect();
    let mut recorder = FrameRecorder::new(3);
    for f in &frames {
        recorder.record(f.clone());
    }
    let held: Vec<usize> =
        frames.iter().map(|f| std::sync::Arc::strong_count(&f.pixels) - 1).collect();
    assert_eq!(held, vec![0, 0, 0, 0, 1, 1, 1]);
}
