use flea_watch::screenshot::{FrameAction, SaveAction, ScreenshotCapture};

#[test]
fn first_frame_is_saved_and_the_capture_stops() {
    let mut capture = ScreenshotCapture::new();
    assert_eq!(capture.screenshot_path, "tarkov_screenshot.png");
    assert_eq!(capture.on_frame_arrived(), FrameAction::Save);
    assert_eq!(capture.on_save_ended(true), SaveAction::Stop);
    assert_eq!(capture.on_frame_arrived(), FrameAction::Ignore);
}

#[test]
fn failed_save_is_reported_and_does_not_count() {
    let mut capture = ScreenshotCapture::new();
    assert_eq!(capture.on_save_ended(false), SaveAction::Fail);
    assert!(!capture.captured);
    assert_eq!(capture.on_frame_arrived(), FrameAction::Save);
}

#[test]
fn one_screenshot_however_many_frames() {
    let mut capture = ScreenshotCapture::new();
    let mut saved = 0;
    for can_save in [false, false, true, true, false, true] {
        if capture.on_frame_arrived() == FrameAction::Save {
            capture.on_save_ended(can_save);
            if can_save {
                saved += 1;
            }
        }
    }
    assert_eq!(saved, 1);
}
