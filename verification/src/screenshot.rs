//! One screenshot of the first frame that can be saved.
use vstd::prelude::*;

verus! {

/// What to do with a frame.
#[derive(Clone, Copy, Debug, PartialEq, Eq, Structural)]
pub enum FrameAction {
    /// Save it under the screenshot's path.
    Save,
    /// Leave it.
    Ignore,
}

/// What to do once saving a frame has ended.
#[derive(Clone, Copy, Debug, PartialEq, Eq, Structural)]
pub enum SaveAction {
    /// Stop the capture.
    Stop,
    /// Give the capture up with the error that saving ended in.
    Fail,
}

/// A frame is saved unless one was saved before.
pub open spec fn frame_action(captured: bool) -> FrameAction {
    if captured {
        FrameAction::Ignore
    } else {
        FrameAction::Save
    }
}

/// Only a frame that was saved counts as captured.
pub open spec fn captured_after(captured: bool, saved: bool) -> bool {
    captured || saved
}

/// Saves one frame and then stops.
pub struct ScreenshotCapture {
    pub screenshot_path: String,
    pub captured: bool,
}

impl ScreenshotCapture {
    /// Nothing has been saved yet.
    pub fn new() -> (capture: ScreenshotCapture)
        ensures
            capture.screenshot_path@ == "tarkov_screenshot.png"@,
            !capture.captured,
    {
        ScreenshotCapture {
            screenshot_path: "tarkov_screenshot.png".to_owned(),
            captured: false,
        }
    }

    /// A frame has arrived.
    pub fn on_frame_arrived(&self) -> (action: FrameAction)
        ensures
            action == frame_action(self.captured),
    {
        if self.captured {
            FrameAction::Ignore
        } else {
            FrameAction::Save
        }
    }

    /// Saving a frame has ended.
    pub fn on_save_ended(&mut self, saved: bool) -> (action: SaveAction)
        ensures
            action == if saved {
                SaveAction::Stop
            } else {
                SaveAction::Fail
            },
            final(self).captured == captured_after(old(self).captured, saved),
            final(self).screenshot_path == old(self).screenshot_path,
    {
        if saved {
            self.captured = true;
            SaveAction::Stop
        } else {
            SaveAction::Fail
        }
    }
}

/// How many screenshots are saved in a row of frames, where `can_save` tells for each frame
/// whether saving it would succeed.
pub open spec fn screenshots(captured: bool, can_save: Seq<bool>) -> nat
    decreases can_save.len(),
{
    if can_save.len() == 0 {
        0
    } else {
        let rest = can_save.drop_first();
        match frame_action(captured) {
            FrameAction::Save => (if can_save[0] {
                1nat
            } else {
                0nat
            }) + screenshots(captured_after(captured, can_save[0]), rest),
            FrameAction::Ignore => screenshots(captured, rest),
        }
    }
}

/// However many frames arrive, one screenshot is saved if any of them can be, and none after it.
pub proof fn lemma_one_screenshot(captured: bool, can_save: Seq<bool>)
    ensures
        screenshots(captured, can_save) == if !captured && can_save.contains(true) {
            1nat
        } else {
            0nat
        },
    decreases can_save.len(),
{
    if can_save.len() > 0 {
        let rest = can_save.drop_first();
        lemma_one_screenshot(captured || can_save[0], rest);
        if rest.contains(true) {
            let i = choose|i: int| 0 <= i < rest.len() && rest[i];
            assert(can_save[i + 1]);
        }
        if can_save.contains(true) && !can_save[0] {
            let i = choose|i: int| 0 <= i < can_save.len() && can_save[i];
            assert(rest[i - 1]);
        }
    }
}

/// A capture starts without a screenshot, so that its first frame is saved.
pub proof fn lemma_first_frame_is_saved(capture: ScreenshotCapture, action: FrameAction)
    requires
        call_ensures(ScreenshotCapture::new, (), capture),
        call_ensures(ScreenshotCapture::on_frame_arrived, (&capture,), action),
    ensures
        capture.screenshot_path@ == "tarkov_screenshot.png"@,
        !capture.captured,
        action is Save,
{
}

/// A frame is saved exactly if no frame has been captured.
pub proof fn lemma_frame_is_saved_until_one_is_captured(
    capture: ScreenshotCapture,
    action: FrameAction,
)
    requires
        call_ensures(ScreenshotCapture::on_frame_arrived, (&capture,), action),
    ensures
        action is Save <==> !capture.captured,
{
}

/// A frame that was saved stops the capture, and no later frame is saved. A frame that was not
/// saved ends in its error and changes nothing: the next frame is treated as this one was.
pub proof fn lemma_saved_frame_ends_the_capture(
    capture: &mut ScreenshotCapture,
    saved: bool,
    action: SaveAction,
    next: FrameAction,
)
    requires
        call_ensures(ScreenshotCapture::on_save_ended, (capture, saved), action),
        call_ensures(ScreenshotCapture::on_frame_arrived, (&*final(capture),), next),
    ensures
        action is Stop <==> saved,
        saved ==> final(capture).captured && next is Ignore,
        !saved ==> final(capture).captured == old(capture).captured,
        !saved && !old(capture).captured ==> next is Save,
        final(capture).screenshot_path == old(capture).screenshot_path,
{
}

} // verus!
