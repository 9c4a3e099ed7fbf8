//! Captured frames.
use std::sync::Arc;
use std::time::Instant;
use vstd::prelude::*;

verus! {

/// `std::time::Instant`: the moment of a capture. It is carried along and never looked into.
#[verifier::external_type_specification]
#[verifier::external_body]
pub struct ExInstant(std::time::Instant);

/// Bytes per pixel: red, green, blue and alpha.
pub const BYTES_PER_PIXEL: u32 = 4;

/// The pixels of a captured frame, with its size and the moment of its capture.
pub struct FrameData {
    /// The pixels in RGBA format, row after row.
    pub pixels: Arc<Vec<u8>>,
    /// The width in pixels.
    pub width: u32,
    /// The height in pixels.
    pub height: u32,
    /// Bytes per row, padding included.
    pub stride: u32,
    /// When the frame was captured.
    pub timestamp: Instant,
}

/// `Arc::clone`: a second handle to the same bytes.
#[verifier::external_body]
fn share(pixels: &Arc<Vec<u8>>) -> (handle: Arc<Vec<u8>>)
    ensures
        handle == *pixels,
{
    Arc::clone(pixels)
}

impl Clone for FrameData {
    /// The same frame; its pixels are shared, not copied.
    fn clone(&self) -> (frame: FrameData)
        ensures
            frame == *self,
    {
        FrameData {
            pixels: share(&self.pixels),
            width: self.width,
            height: self.height,
            stride: self.stride,
            timestamp: self.timestamp,
        }
    }
}

/// The bytes of a row can be counted, and there is at least one red, green, blue and alpha byte for
/// every pixel.
pub open spec fn holds_pixels(width: u32, height: u32, bytes: nat) -> bool {
    &&& width * BYTES_PER_PIXEL <= usize::MAX
    &&& width * height * BYTES_PER_PIXEL <= bytes
}

/// The bytes of a row of `width` pixels. There is no answer where they cannot be counted.
pub fn row_stride(width: u32) -> (stride: Option<u32>)
    ensures
        stride is Some <==> width * BYTES_PER_PIXEL <= u32::MAX,
        stride matches Some(s) ==> s == width * BYTES_PER_PIXEL,
{
    width.checked_mul(BYTES_PER_PIXEL)
}

/// The bytes of `height` rows of `stride` bytes. There is no answer where they cannot be counted.
pub fn pixel_bytes(stride: u32, height: u32) -> (bytes: Option<u32>)
    ensures
        bytes is Some <==> stride * height <= u32::MAX,
        bytes matches Some(b) ==> b == stride * height,
{
    stride.checked_mul(height)
}

/// Why a capture buffer does not make a frame.
#[derive(Clone, Copy, Debug, PartialEq, Eq, Structural)]
pub enum BufferError {
    /// The bytes of the frame cannot be counted.
    TooLarge,
    /// The buffer ends before the last row does.
    TooShort,
}

impl FrameData {
    /// The frame has the bytes of all of its pixels.
    pub open spec fn complete(self) -> bool {
        holds_pixels(self.width, self.height, self.pixels@.len())
    }

    /// A frame of all the bytes of a capture buffer, whose rows are `pitch` bytes apart. There is
    /// none where the bytes of the pixels of a row cannot be counted.
    pub fn from_pixels(
        pixels: Vec<u8>,
        width: u32,
        height: u32,
        pitch: u32,
        timestamp: Instant,
    ) -> (frame: Option<FrameData>)
        ensures
            frame is Some <==> width * BYTES_PER_PIXEL <= u32::MAX,
            frame matches Some(f) ==> {
                &&& f.pixels@ == pixels@
                &&& f.width == width
                &&& f.height == height
                &&& f.stride == pitch
                &&& f.timestamp == timestamp
                &&& pixels@.len() == pitch * height ==> f.pixels@.len() == f.stride * f.height
            },
    {
        match row_stride(width) {
            Some(_) => Some(
                FrameData { pixels: Arc::new(pixels), width, height, stride: pitch, timestamp },
            ),
            None => None,
        }
    }

    /// A frame of the rows at the start of a capture buffer.
    pub fn from_buffer(buffer: &[u8], width: u32, height: u32, timestamp: Instant) -> (frame:
        Result<FrameData, BufferError>)
        ensures
            ({
                let bytes = width * BYTES_PER_PIXEL * height;
                match frame {
                    Ok(f) => {
                        &&& width * BYTES_PER_PIXEL <= u32::MAX
                        &&& bytes <= u32::MAX
                        &&& bytes <= buffer@.len()
                        &&& f.pixels@ == buffer@.take(bytes)
                        &&& f.width == width
                        &&& f.height == height
                        &&& f.stride == width * BYTES_PER_PIXEL
                        &&& f.timestamp == timestamp
                        &&& f.complete()
                    },
                    Err(BufferError::TooLarge) => width * BYTES_PER_PIXEL > u32::MAX || bytes
                        > u32::MAX,
                    Err(BufferError::TooShort) => {
                        &&& width * BYTES_PER_PIXEL <= u32::MAX
                        &&& bytes <= u32::MAX
                        &&& bytes > buffer@.len()
                    },
                }
            }),
    {
        let stride = match row_stride(width) {
            Some(stride) => stride,
            None => return Err(BufferError::TooLarge),
        };
        let bytes = match pixel_bytes(stride, height) {
            Some(bytes) => bytes as usize,
            None => return Err(BufferError::TooLarge),
        };
        if buffer.len() < bytes {
            return Err(BufferError::TooShort);
        }
        let pixels = vstd::slice::slice_to_vec(vstd::slice::slice_subrange(buffer, 0, bytes));
        let frame = FrameData { pixels: Arc::new(pixels), width, height, stride, timestamp };
        proof {
            lemma_counted_frame_is_complete(frame);
        }
        Ok(frame)
    }
}

/// A frame of as many bytes as its rows have is complete.
pub proof fn lemma_counted_frame_is_complete(frame: FrameData)
    requires
        frame.stride == frame.width * BYTES_PER_PIXEL,
        frame.pixels@.len() == frame.stride * frame.height,
    ensures
        frame.complete(),
{
    assert(frame.width * frame.height * BYTES_PER_PIXEL == frame.width * BYTES_PER_PIXEL
        * frame.height) by (nonlinear_arith);
}

/// A frame of a whole capture buffer holds every byte of it, the size and the moment that came with
/// it, and the pitch as its stride. Only a width whose rows have more bytes than 32 bits can count
/// makes none.
pub proof fn lemma_frame_holds_the_buffer(
    pixels: Vec<u8>,
    width: u32,
    height: u32,
    pitch: u32,
    timestamp: Instant,
    frame: Option<FrameData>,
)
    requires
        call_ensures(FrameData::from_pixels, (pixels, width, height, pitch, timestamp), frame),
    ensures
        frame is None <==> 4 * width > 0xffff_ffff,
        frame matches Some(f) ==> {
            &&& f.pixels@ == pixels@
            &&& (f.width, f.height, f.stride, f.timestamp) == (width, height, pitch, timestamp)
        },
{
}

/// A frame of the rows of a capture buffer holds the first bytes of it, four for each pixel, with
/// the size and the moment that came with it. There is none exactly if the bytes of a row or of
/// all rows are more than 32 bits can count, or more than the buffer has.
pub proof fn lemma_frame_holds_the_rows(
    buffer: &[u8],
    width: u32,
    height: u32,
    timestamp: Instant,
    frame: Result<FrameData, BufferError>,
)
    requires
        call_ensures(FrameData::from_buffer, (buffer, width, height, timestamp), frame),
    ensures
        frame == Err::<FrameData, BufferError>(BufferError::TooLarge) <==> 4 * width > 0xffff_ffff
            || 4 * width * height > 0xffff_ffff,
        frame is Ok <==> 4 * width <= 0xffff_ffff && 4 * width * height <= 0xffff_ffff && 4 * width
            * height <= buffer@.len(),
        frame matches Ok(f) ==> {
            &&& f.pixels@.len() == 4 * width * height
            &&& forall|i: int| 0 <= i < f.pixels@.len() ==> #[trigger] f.pixels@[i] == buffer@[i]
            &&& (f.width, f.height, f.timestamp) == (width, height, timestamp)
            &&& f.stride == 4 * width
        },
{
    let w = width as int;
    let h = height as int;
    assert(w * 4 * h == 4 * w * h) by (nonlinear_arith);
}

/// The bytes of rows and frames are counted in 32 bits, or not at all.
pub proof fn lemma_bytes_are_counted(
    width: u32,
    stride: Option<u32>,
    row: u32,
    height: u32,
    bytes: Option<u32>,
)
    requires
        call_ensures(row_stride, (width,), stride),
        call_ensures(pixel_bytes, (row, height), bytes),
    ensures
        4 * width <= 0xffff_ffff ==> stride is Some && stride.unwrap() == 4 * width,
        4 * width > 0xffff_ffff ==> stride is None,
        row * height <= 0xffff_ffff ==> bytes is Some && bytes.unwrap() == row * height,
        row * height > 0xffff_ffff ==> bytes is None,
{
}

/// A clone is the same frame.
pub proof fn lemma_clone_is_the_same_frame(frame: FrameData, clone: FrameData)
    requires
        call_ensures(FrameData::clone, (&frame,), clone),
    ensures
        clone.pixels@ == frame.pixels@,
        clone.width == frame.width,
        clone.height == frame.height,
        clone.stride == frame.stride,
        clone.timestamp == frame.timestamp,
{
}

} // verus!
