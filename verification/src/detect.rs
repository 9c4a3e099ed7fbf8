//! Captcha detection: a captcha is on screen where its template matches the frame well enough.
use crate::codec::{
    convert_frame_to_luma32f, lemma_colours_decide_luma, lemma_luma_in_plain_terms, luma_of,
    same_colours,
};
use crate::extremes::{find_extremes, is_minimum};
use crate::frame::FrameData;
use crate::raster::{shown, Grid, Image};
use crate::score::{lemma_bits_decide_the_order, Score, LARGEST_BITS};
use vstd::arithmetic::power2::pow2;
use vstd::prelude::*;

verus! {

/// The bits of 25, the score below which the template counts as matched.
pub const CAPTCHA_THRESHOLD_BITS: u32 = 0x41c8_0000;

/// Why no answer can be given.
#[derive(Clone, Copy, Debug, PartialEq, Eq, Structural)]
pub enum CaptchaError {
    /// The frame has too few pixels for its size.
    InvalidFrame,
    /// The matcher returned nothing.
    NoMatchResult,
}

impl CaptchaError {
    /// The error in words.
    pub fn message(&self) -> (text: &'static str)
        ensures
            text@ == match *self {
                CaptchaError::InvalidFrame => "Invalid frame dimensions"@,
                CaptchaError::NoMatchResult => "Template matching failed to produce a result"@,
            },
    {
        match self {
            CaptchaError::InvalidFrame => "Invalid frame dimensions",
            CaptchaError::NoMatchResult => "Template matching failed to produce a result",
        }
    }
}

/// Some position of the map scores below the threshold.
pub open spec fn matched(map: Grid) -> bool {
    exists|i: int|
        0 <= i < map.cells.len() && (#[trigger] map.cells[i]).lt(
            Score::from_bits(CAPTCHA_THRESHOLD_BITS),
        )
}

/// What is answered for what the matcher returned.
pub open spec fn answer(result: Option<Grid>) -> Result<bool, CaptchaError> {
    match result {
        Some(map) => Ok(matched(map)),
        None => Err(CaptchaError::NoMatchResult),
    }
}

/// Whether a score is below the captcha threshold.
pub fn is_captcha_score(score: Score) -> (below: bool)
    ensures
        below == score.lt(Score::from_bits(CAPTCHA_THRESHOLD_BITS)),
{
    score.is_below(Score::from_bits(CAPTCHA_THRESHOLD_BITS))
}

/// The smallest score of a map is below the threshold exactly where the map is matched.
pub proof fn lemma_minimum_decides(map: Grid, value: Score, place: (u32, u32))
    requires
        is_minimum(map, value, place),
    ensures
        value.lt(Score::from_bits(CAPTCHA_THRESHOLD_BITS)) <==> matched(map),
{
    let start = Score::from_bits(LARGEST_BITS);
    let threshold = Score::from_bits(CAPTCHA_THRESHOLD_BITS);
    if matched(map) {
        let i = choose|i: int| 0 <= i < map.cells.len() && (#[trigger] map.cells[i]).lt(threshold);
        assert(map.cells[i].lt(start));
        assert(!map.cells[i].lt(value));
    }
}

/// The answer to what the matcher returned for a frame.
pub fn judge_match(result: Option<Image>) -> (found: Result<bool, CaptchaError>)
    ensures
        found == answer(shown(result)),
{
    match result {
        Some(map) => {
            let extremes = find_extremes(&map);
            proof {
                lemma_minimum_decides(map@, extremes.min_value, extremes.min_value_location);
            }
            Ok(is_captcha_score(extremes.min_value))
        },
        None => Err(CaptchaError::NoMatchResult),
    }
}

/// The matcher, given the grey image of the frame and the template, returned `result`.
pub open spec fn was_matched<M: Fn(&Image, &Image) -> Option<Image>>(
    matcher: M,
    frame: FrameData,
    template: Image,
    result: Option<Image>,
) -> bool {
    exists|luma: Image|
        luma_of(luma@, frame.width, frame.height, frame.pixels@) && #[trigger] call_ensures(
            matcher,
            (&luma, &template),
            result,
        )
}

/// Looks for the captcha in a frame.
///
/// The grey image of the frame and the template go to the matcher. The answer is whether some
/// position of what it returns scores below the threshold. A frame that has too few pixels is
/// refused before the matcher is asked, and a matcher that returns nothing is an error.
pub fn detect_captcha<M: Fn(&Image, &Image) -> Option<Image>>(
    frame: &FrameData,
    template: &Image,
    matcher: M,
) -> (found: Result<bool, CaptchaError>)
    requires
        forall|luma: Image|
            luma_of(luma@, frame.width, frame.height, frame.pixels@) ==> #[trigger] call_requires(
                matcher,
                (&luma, template),
            ),
    ensures
        !frame.complete() <==> found == Err::<bool, CaptchaError>(CaptchaError::InvalidFrame),
        frame.complete() ==> exists|result: Option<Image>|
            {
                &&& #[trigger] was_matched(matcher, *frame, *template, result)
                &&& found == answer(shown(result))
            },
{
    match convert_frame_to_luma32f(frame) {
        Ok(luma) => {
            let result = matcher(&luma, template);
            assert(was_matched(matcher, *frame, *template, result));
            judge_match(result)
        },
        Err(_) => Err(CaptchaError::InvalidFrame),
    }
}

/// The matcher goes by what the images show: of equal frames and the same template it makes equal
/// maps.
pub open spec fn goes_by_grids<M: Fn(&Image, &Image) -> Option<Image>>(matcher: M) -> bool {
    forall|one: Image, other: Image, template: Image, a: Option<Image>, b: Option<Image>|
        one@ == other@ && #[trigger] call_ensures(matcher, (&one, &template), a)
            && #[trigger] call_ensures(matcher, (&other, &template), b) ==> shown(a) == shown(b)
}

/// Only the colours of the pixels decide: with a matcher that goes by what the images show, two
/// frames of one size and the same red, green and blue get the same answer, whatever their alpha,
/// their surplus bytes, their stride and the moment of their capture. In particular a frame always
/// gets the answer that it got before.
pub proof fn lemma_colours_decide_the_answer<M: Fn(&Image, &Image) -> Option<Image>>(
    matcher: M,
    template: Image,
    one: FrameData,
    other: FrameData,
    found: Result<bool, CaptchaError>,
    other_found: Result<bool, CaptchaError>,
)
    requires
        goes_by_grids(matcher),
        one.width == other.width,
        one.height == other.height,
        one.complete(),
        other.complete(),
        same_colours(one.width * one.height, one.pixels@, other.pixels@),
        call_ensures(detect_captcha::<M>, (&one, &template, matcher), found),
        call_ensures(detect_captcha::<M>, (&other, &template, matcher), other_found),
    ensures
        found == other_found,
{
    let a = choose|a: Option<Image>|
        #[trigger] was_matched(matcher, one, template, a) && found == answer(shown(a));
    let b = choose|b: Option<Image>|
        #[trigger] was_matched(matcher, other, template, b) && other_found == answer(shown(b));
    let luma = choose|luma: Image|
        luma_of(luma@, one.width, one.height, one.pixels@) && #[trigger] call_ensures(
            matcher,
            (&luma, &template),
            a,
        );
    let other_luma = choose|luma: Image|
        luma_of(luma@, other.width, other.height, other.pixels@) && #[trigger] call_ensures(
            matcher,
            (&luma, &template),
            b,
        );
    lemma_colours_decide_luma(
        luma@,
        other_luma@,
        one.width,
        one.height,
        one.pixels@,
        other.pixels@,
    );
}

/// A score is that of a captcha exactly if it is a number below 25: one with the sign bit set, or
/// one with smaller bits than 25.
pub proof fn lemma_captcha_score_is_below_25(score: Score, below: bool)
    requires
        call_ensures(is_captcha_score, (score,), below),
    ensures
        below <==> score.bits < 0x41c8_0000 || 0x8000_0000 <= score.bits <= 0xff80_0000,
{
    lemma_bits_decide_the_order(score, Score { bits: 0x41c8_0000 });
}

/// The answer to a map is whether some cell of it is a number below 25, whatever the size of the
/// map; without a map there is no answer.
pub proof fn lemma_some_cell_below_25_is_a_captcha(
    result: Option<Image>,
    found: Result<bool, CaptchaError>,
)
    requires
        call_ensures(judge_match, (result,), found),
    ensures
        result is None ==> found == Err::<bool, CaptchaError>(CaptchaError::NoMatchResult),
        result matches Some(map) ==> {
            &&& found is Ok
            &&& found.unwrap() <==> exists|i: int|
                0 <= i < map@.cells.len() && ((#[trigger] map@.cells[i]).bits < 0x41c8_0000
                    || 0x8000_0000 <= map@.cells[i].bits <= 0xff80_0000)
        },
{
    if let Some(map) = result {
        assert forall|i: int| 0 <= i < map@.cells.len() implies ((#[trigger] map@.cells[i]).lt(
            Score { bits: 0x41c8_0000 },
        ) <==> (map@.cells[i].bits < 0x41c8_0000 || 0x8000_0000 <= map@.cells[i].bits
            <= 0xff80_0000)) by {
            lemma_bits_decide_the_order(map@.cells[i], Score { bits: 0x41c8_0000 });
        }
    }
}

/// A captcha is seen exactly where the template matches.
///
/// A frame is refused exactly if it has fewer than four bytes for each pixel or the bytes of a row
/// cannot be counted. Any other frame is shown to the matcher in grey, beside the template: each
/// cell is the single-precision number nearest to the weighed red, green and blue of its pixel.
/// Where the matcher returns a map, the answer is whether some cell of it is a number below 25,
/// whatever its size; where it returns none, that is the error.
pub proof fn lemma_captcha_is_seen_where_the_template_matches<
    M: Fn(&Image, &Image) -> Option<Image>,
>(frame: FrameData, template: Image, matcher: M, found: Result<bool, CaptchaError>)
    requires
        call_ensures(detect_captcha::<M>, (&frame, &template, matcher), found),
    ensures
        found == Err::<bool, CaptchaError>(CaptchaError::InvalidFrame) <==> frame.width * 4
            > usize::MAX || frame.width * frame.height * 4 > frame.pixels@.len(),
        found != Err::<bool, CaptchaError>(CaptchaError::InvalidFrame) ==> exists|
            luma: Image,
            result: Option<Image>,
        |
            {
                &&& #[trigger] call_ensures(matcher, (&luma, &template), result)
                &&& luma@.width == frame.width
                &&& luma@.height == frame.height
                &&& luma@.cells.len() == frame.width * frame.height
                &&& forall|i: int|
                    0 <= i < frame.width * frame.height ==> {
                        let red = frame.pixels@[4 * i];
                        let green = frame.pixels@[4 * i + 1];
                        let blue = frame.pixels@[4 * i + 2];
                        let grey = (2126 * red + 7152 * green + 722 * blue) / 10000;
                        let bits = (#[trigger] luma@.cells[i]).bits;
                        let digits = 0x80_0000 + bits % 0x80_0000;
                        let scale = pow2((150 - bits / 0x80_0000) as nat);
                        if grey == 0 {
                            bits == 0
                        } else {
                            bits <= 0x3f80_0000 && -255 < 2 * (255 * digits - grey * scale) < 255
                        }
                    }
                &&& result is None ==> found == Err::<bool, CaptchaError>(
                    CaptchaError::NoMatchResult,
                )
                &&& result matches Some(map) ==> {
                    &&& found is Ok
                    &&& found.unwrap() <==> exists|i: int|
                        0 <= i < map@.cells.len() && ((#[trigger] map@.cells[i]).bits
                            < 0x41c8_0000 || 0x8000_0000 <= map@.cells[i].bits <= 0xff80_0000)
                }
            },
{
    if frame.complete() {
        let result = choose|result: Option<Image>|
            #[trigger] was_matched(matcher, frame, template, result) && found == answer(
                shown(result),
            );
        let luma = choose|luma: Image|
            luma_of(luma@, frame.width, frame.height, frame.pixels@) && #[trigger] call_ensures(
                matcher,
                (&luma, &template),
                result,
            );
        lemma_luma_in_plain_terms(luma@, frame.width, frame.height, frame.pixels@);
        if let Some(map) = result {
            assert forall|i: int| 0 <= i < map@.cells.len() implies ((
            #[trigger] map@.cells[i]).lt(Score { bits: 0x41c8_0000 }) <==> (map@.cells[i].bits
                < 0x41c8_0000 || 0x8000_0000 <= map@.cells[i].bits <= 0xff80_0000)) by {
                lemma_bits_decide_the_order(map@.cells[i], Score { bits: 0x41c8_0000 });
            }
        }
        assert(call_ensures(matcher, (&luma, &template), result));
    }
}

/// What the errors say.
pub proof fn lemma_captcha_errors_in_words(error: CaptchaError, text: &'static str)
    requires
        call_ensures(CaptchaError::message, (&error,), text),
    ensures
        error is InvalidFrame ==> text@ == "Invalid frame dimensions"@,
        error is NoMatchResult ==> text@ == "Template matching failed to produce a result"@,
{
}

} // verus!
