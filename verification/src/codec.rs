//! Pictures as bytes: grey images of captured pixels and of picture files, and the pictures that
//! frames are saved as.
use crate::chunks::{has_sound_palette, sound_palette};
use crate::frame::{holds_pixels, FrameData, BYTES_PER_PIXEL};
use crate::raster::{Grid, Image};
use crate::score::Score;
use vstd::arithmetic::power2::pow2;
use vstd::prelude::*;

verus! {

/// The bits of the number one.
pub const ONE_BITS: u32 = 0x3f80_0000;

/// One more than the fraction of a single-precision number can reach.
pub const FRACTION_LIMIT: u32 = 0x80_0000;

/// The most bytes of pixels that the decoder makes room for.
pub const DECODE_LIMIT: u32 = 0x2000_0000;

/// Red, green and blue of pixel `i`.
pub open spec fn colour(pixels: Seq<u8>, i: int) -> (u8, u8, u8) {
    (
        pixels[BYTES_PER_PIXEL * i],
        pixels[BYTES_PER_PIXEL * i + 1],
        pixels[BYTES_PER_PIXEL * i + 2],
    )
}

/// The grey value of a colour, from black at 0 to white at 255.
pub open spec fn luma_byte(colour: (u8, u8, u8)) -> int {
    (2126 * colour.0 + 7152 * colour.1 + 722 * colour.2) / 10000
}

/// The score is the single-precision number nearest to `byte / 255`: the 24 digits of the number
/// over a power of two are less than half a digit away.
pub open spec fn nearest_to_byte(score: Score, byte: int) -> bool {
    if byte == 0 {
        score.bits == 0
    } else {
        let digits = FRACTION_LIMIT + score.bits % FRACTION_LIMIT;
        let scale = pow2((150 - score.bits / FRACTION_LIMIT) as nat);
        &&& score.bits <= ONE_BITS
        &&& -255 < 2 * (255 * digits - byte * scale) < 255
    }
}

/// There is one nearest number: the grey value of a pixel is determined to the bit.
pub proof fn lemma_nearest_is_unique(a: Score, b: Score, byte: int)
    requires
        0 <= byte <= 255,
        nearest_to_byte(a, byte),
        nearest_to_byte(b, byte),
    ensures
        a == b,
{
    if byte > 0 {
        lemma_scale_is_no_larger(a, b, byte);
        lemma_scale_is_no_larger(b, a, byte);
        assert(a.bits == (a.bits / FRACTION_LIMIT) * FRACTION_LIMIT + a.bits % FRACTION_LIMIT);
        assert(b.bits == (b.bits / FRACTION_LIMIT) * FRACTION_LIMIT + b.bits % FRACTION_LIMIT);
    }
}

/// Of two nearest numbers, neither has the larger exponent.
proof fn lemma_scale_is_no_larger(a: Score, b: Score, byte: int)
    requires
        0 < byte <= 255,
        nearest_to_byte(a, byte),
        nearest_to_byte(b, byte),
    ensures
        a.bits / FRACTION_LIMIT <= b.bits / FRACTION_LIMIT,
{
    let i = (150 - a.bits / FRACTION_LIMIT) as nat;
    let j = (150 - b.bits / FRACTION_LIMIT) as nat;
    if i < j {
        let p = pow2(i) as int;
        let q = pow2(j) as int;
        let t = pow2((j - i) as nat) as int;
        let u = pow2((j - 24) as nat) as int;
        let n = byte * u;
        vstd::arithmetic::power2::lemma_pow2_adds(i, (j - i) as nat);
        vstd::arithmetic::power2::lemma_pow2_adds(24, (j - 24) as nat);
        vstd::arithmetic::power2::lemma_pow2_strictly_increases(0, (j - i) as nat);
        vstd::arithmetic::power2::lemma2_to64();
        assert(byte * q == 0x100_0000 * n) by (nonlinear_arith)
            requires
                q == 0x100_0000 * u,
                n == byte * u,
        ;
        assert(byte * q >= 2 * (byte * p)) by (nonlinear_arith)
            requires
                q == p * t,
                t >= 2,
                p >= 0,
                byte > 0,
        ;
    }
}

/// The grid holds the grey values of the pixels.
pub open spec fn luma_of(grid: Grid, width: u32, height: u32, pixels: Seq<u8>) -> bool {
    &&& grid.wf()
    &&& grid.width == width
    &&& grid.height == height
    &&& forall|i: int|
        0 <= i < grid.cells.len() ==> nearest_to_byte(
            #[trigger] grid.cells[i],
            luma_byte(colour(pixels, i)),
        )
}

/// The first `count` pixels have the same colours; their alpha may differ, and so may what follows.
pub open spec fn same_colours(count: int, one: Seq<u8>, other: Seq<u8>) -> bool {
    forall|i: int| 0 <= i < count ==> #[trigger] colour(one, i) == colour(other, i)
}

/// Pixels of the same colours have the same grey values.
pub proof fn lemma_colours_decide_luma(
    a: Grid,
    b: Grid,
    width: u32,
    height: u32,
    one: Seq<u8>,
    other: Seq<u8>,
)
    requires
        luma_of(a, width, height, one),
        luma_of(b, width, height, other),
        same_colours(width * height, one, other),
    ensures
        a == b,
{
    assert forall|i: int| 0 <= i < a.cells.len() implies a.cells[i] == b.cells[i] by {
        assert(colour(one, i) == colour(other, i));
        lemma_nearest_is_unique(a.cells[i], b.cells[i], luma_byte(colour(one, i)));
    }
    assert(a =~= b);
}

/// `image::RgbaImage::from_raw`, then `image::DynamicImage::to_luma32f`.
///
/// The first takes the bytes if there are at least four for every pixel and the bytes of a row can
/// be counted. The second weighs red,
/// green and blue of each pixel in integers, rounds down to a grey byte and divides that byte by
/// 255 in single precision; alpha and surplus bytes play no part.
#[verifier::external_body]
fn rgba_to_luma32f(width: u32, height: u32, pixels: Vec<u8>) -> (cells: Option<Vec<Score>>)
    ensures
        cells is Some <==> holds_pixels(width, height, pixels@.len()),
        cells matches Some(c) ==> luma_of(
            Grid { width, height, cells: c@ },
            width,
            height,
            pixels@,
        ),
{
    let rgba = image::RgbaImage::from_raw(width, height, pixels)?;
    let luma = image::DynamicImage::ImageRgba8(rgba).to_luma32f();
    Some(luma.as_raw().iter().map(|v| Score::from_bits(v.to_bits())).collect())
}

/// The frame has too few pixels for its size.
#[derive(Clone, Copy, Debug, PartialEq, Eq, Structural)]
pub struct IncompleteFrame;

impl IncompleteFrame {
    /// The error in words.
    pub fn message(&self) -> (text: &'static str)
        ensures
            text@ == "Failed to create RgbaImage from raw pixels"@,
    {
        "Failed to create RgbaImage from raw pixels"
    }
}

/// The grey image of a frame.
pub fn convert_frame_to_luma32f(frame: &FrameData) -> (luma: Result<Image, IncompleteFrame>)
    ensures
        luma is Ok <==> frame.complete(),
        luma matches Ok(image) ==> luma_of(image@, frame.width, frame.height, frame.pixels@),
{
    let pixels: Vec<u8> = (*frame.pixels).clone();
    match rgba_to_luma32f(frame.width, frame.height, pixels) {
        Some(cells) => Ok(Image::new(cells, frame.width, frame.height).unwrap()),
        None => Err(IncompleteFrame),
    }
}

/// What `image::load_from_memory` and then `image::DynamicImage::to_luma32f` make of the bytes of
/// a picture: width, height and the bits of the grey values.
pub uninterp spec fn decoded_picture(bytes: Seq<u8>) -> Option<(u32, u32, Seq<u32>)>;

/// What `image::load_from_memory_with_format`, told that the format is PNG, and then
/// `image::DynamicImage::to_luma32f` make of the bytes of a picture: width, height and the bits of
/// the grey values.
pub uninterp spec fn decoded_png(bytes: Seq<u8>) -> Option<(u32, u32, Seq<u32>)>;

/// What `image::load_from_memory_with_format`, told that the format is PNG, makes of the bytes of a
/// picture where that is an `image::DynamicImage::ImageRgba8`: width, height and pixels.
pub uninterp spec fn decoded_rgba8(bytes: Seq<u8>) -> Option<(u32, u32, Seq<u8>)>;

/// What a `png::Encoder` for 8-bit RGBA writes.
pub uninterp spec fn encoded_png(width: u32, height: u32, pixels: Seq<u8>) -> Seq<u8>;

/// The error of the `image` crate.
#[verifier::external_type_specification]
#[verifier::external_body]
pub struct ExImageError(image::ImageError);

/// The error of the `png` crate's encoder.
#[verifier::external_type_specification]
#[verifier::external_body]
pub struct ExEncodingError(png::EncodingError);

/// `image::load_from_memory`, then `image::DynamicImage::to_luma32f`.
///
/// What comes back depends on the bytes alone; there is one grey value for each pixel. The decoder
/// panics where the pixels of a PNG file are places of a palette that is not a whole one. That it
/// panics nowhere else is meant for a `usize` of 64 bits.
#[verifier::external_body]
fn decode_to_luma32f(bytes: &[u8]) -> (picture: Result<(u32, u32, Vec<u32>), image::ImageError>)
    requires
        sound_palette(bytes@),
    ensures
        match picture {
            Ok(p) => {
                &&& decoded_picture(bytes@) == Some((p.0, p.1, p.2@))
                &&& p.2@.len() == p.0 * p.1
            },
            Err(_) => decoded_picture(bytes@) is None,
        },
{
    let luma = image::load_from_memory(bytes)?.to_luma32f();
    let bits = luma.as_raw().iter().map(|v| v.to_bits()).collect();
    Ok((luma.width(), luma.height(), bits))
}

/// `image::load_from_memory_with_format` for PNG, then `image::DynamicImage::to_luma32f`.
///
/// What comes back depends on the bytes alone; there is one grey value for each pixel. The decoder
/// panics where the pixels of a PNG file are places of a palette that is not a whole one. That it
/// panics nowhere else is meant for a `usize` of 64 bits.
#[verifier::external_body]
fn decode_png_to_luma32f(bytes: &[u8]) -> (picture: Result<
    (u32, u32, Vec<u32>),
    image::ImageError,
>)
    requires
        sound_palette(bytes@),
    ensures
        match picture {
            Ok(p) => {
                &&& decoded_png(bytes@) == Some((p.0, p.1, p.2@))
                &&& p.2@.len() == p.0 * p.1
            },
            Err(_) => decoded_png(bytes@) is None,
        },
{
    let picture = image::load_from_memory_with_format(bytes, image::ImageFormat::Png)?;
    let luma = picture.to_luma32f();
    let bits = luma.as_raw().iter().map(|v| v.to_bits()).collect();
    Ok((luma.width(), luma.height(), bits))
}

/// There are columns and rows, and exactly four bytes for each pixel.
pub open spec fn is_rgba_picture(width: u32, height: u32, pixels: Seq<u8>) -> bool {
    width > 0 && height > 0 && pixels.len() == width * BYTES_PER_PIXEL * height
}

/// The decoded picture has the given size and the grey values of the pixels.
pub open spec fn reads_back(
    picture: Option<(u32, u32, Seq<u32>)>,
    width: u32,
    height: u32,
    pixels: Seq<u8>,
) -> bool {
    picture matches Some(p) && luma_of(picture_grid(p), width, height, pixels)
}

/// `image::load_from_memory_with_format` for PNG, and the pixels of what comes back where that is an
/// `image::DynamicImage::ImageRgba8`.
///
/// What comes back depends on the bytes alone. A picture has columns and rows, and four bytes for
/// each pixel; its grey values are those that `image::DynamicImage::to_luma32f` gives, which never
/// fails. The decoder panics where the pixels of a PNG file are places of a palette that is not a
/// whole one. That it panics nowhere else is meant for a `usize` of 64 bits.
#[verifier::external_body]
fn decode_png_to_rgba8(bytes: &[u8]) -> (picture: Result<
    Option<(u32, u32, Vec<u8>)>,
    image::ImageError,
>)
    requires
        sound_palette(bytes@),
    ensures
        match picture {
            Ok(Some(p)) => {
                &&& decoded_rgba8(bytes@) == Some((p.0, p.1, p.2@))
                &&& is_rgba_picture(p.0, p.1, p.2@)
                &&& reads_back(decoded_png(bytes@), p.0, p.1, p.2@)
            },
            Ok(None) => decoded_rgba8(bytes@) is None && decoded_png(bytes@) is Some,
            Err(_) => decoded_rgba8(bytes@) is None && decoded_png(bytes@) is None,
        },
{
    match image::load_from_memory_with_format(bytes, image::ImageFormat::Png)? {
        image::DynamicImage::ImageRgba8(rgba) => {
            Ok(Some((rgba.width(), rgba.height(), rgba.into_raw())))
        },
        _ => Ok(None),
    }
}

/// A `png::Encoder` for 8-bit RGBA: `write_header`, `write_image_data`, and the end that is
/// written when the writer is dropped.
///
/// It fails on a picture without columns or rows, and where the number of bytes is not four for
/// each pixel. Writing to memory does not fail. The file has a header for 8-bit RGBA, the pixels
/// and no palette. It is read back without loss, where the decoder makes room for that many bytes:
/// `image::load_from_memory` and `image::load_from_memory_with_format` give the same pixels, and
/// `image::DynamicImage::to_luma32f` their grey values.
#[verifier::external_body]
fn encode_rgba8(width: u32, height: u32, pixels: &[u8]) -> (file: Result<
    Vec<u8>,
    png::EncodingError,
>)
    requires
        width * BYTES_PER_PIXEL < usize::MAX,
        width * BYTES_PER_PIXEL * height <= usize::MAX,
    ensures
        file is Ok <==> is_rgba_picture(width, height, pixels@),
        file matches Ok(f) ==> f@ == encoded_png(width, height, pixels@),
        file matches Ok(f) ==> sound_palette(f@),
        file matches Ok(f) ==> (width * BYTES_PER_PIXEL * height <= DECODE_LIMIT ==> {
            &&& reads_back(decoded_picture(f@), width, height, pixels@)
            &&& reads_back(decoded_png(f@), width, height, pixels@)
            &&& decoded_rgba8(f@) == Some((width, height, pixels@))
        }),
{
    let mut file = Vec::new();
    let mut encoder = png::Encoder::new(&mut file, width, height);
    encoder.set_color(png::ColorType::Rgba);
    encoder.set_depth(png::BitDepth::Eight);
    let mut writer = encoder.write_header()?;
    writer.write_image_data(pixels)?;
    drop(writer);
    Ok(file)
}

/// The bytes are not those of a picture.
#[derive(Debug)]
pub enum DecodeError {
    /// The pixels are places of a palette that is not a whole one.
    UnsoundPalette,
    /// The decoder refused the bytes.
    Refused(image::ImageError),
}

/// The grid that a decoded picture shows.
pub open spec fn picture_grid(picture: (u32, u32, Seq<u32>)) -> Grid {
    Grid::of_bits(picture.0, picture.1, picture.2)
}

/// The image with the given bits.
fn image_of_bits(width: u32, height: u32, bits: &Vec<u32>) -> (image: Image)
    requires
        bits@.len() == width * height,
    ensures
        image@ == Grid::of_bits(width, height, bits@),
{
    let mut cells: Vec<Score> = Vec::new();
    for i in 0..bits.len()
        invariant
            cells@.len() == i,
            forall|j: int| 0 <= j < i ==> #[trigger] cells@[j] == (Score { bits: bits@[j] }),
    {
        cells.push(Score::from_bits(bits[i]));
    }
    assert(cells@ =~= Grid::of_bits(width, height, bits@).cells);
    Image::new(cells, width, height).unwrap()
}

/// The grey image of a picture file of any format that the decoder knows.
pub fn decode_picture(bytes: &[u8]) -> (image: Result<Image, DecodeError>)
    ensures
        match image {
            Ok(i) => sound_palette(bytes@) && (decoded_picture(bytes@) matches Some(p) && i@
                == picture_grid(p)),
            Err(DecodeError::UnsoundPalette) => !sound_palette(bytes@),
            Err(DecodeError::Refused(_)) => sound_palette(bytes@) && decoded_picture(
                bytes@,
            ) is None,
        },
{
    if !has_sound_palette(bytes) {
        return Err(DecodeError::UnsoundPalette);
    }
    match decode_to_luma32f(bytes) {
        Ok((width, height, bits)) => Ok(image_of_bits(width, height, &bits)),
        Err(error) => Err(DecodeError::Refused(error)),
    }
}

/// The grey image of a PNG file.
pub fn decode_png(bytes: &[u8]) -> (image: Result<Image, DecodeError>)
    ensures
        match image {
            Ok(i) => sound_palette(bytes@) && (decoded_png(bytes@) matches Some(p) && i@
                == picture_grid(p)),
            Err(DecodeError::UnsoundPalette) => !sound_palette(bytes@),
            Err(DecodeError::Refused(_)) => sound_palette(bytes@) && decoded_png(bytes@) is None,
        },
{
    if !has_sound_palette(bytes) {
        return Err(DecodeError::UnsoundPalette);
    }
    match decode_png_to_luma32f(bytes) {
        Ok((width, height, bits)) => Ok(image_of_bits(width, height, &bits)),
        Err(error) => Err(DecodeError::Refused(error)),
    }
}

/// A file does not hold the pixels of a frame.
#[derive(Debug)]
pub enum PixelsError {
    /// The picture is not one of 8-bit RGBA pixels.
    NotRgba,
    /// The bytes are not those of a picture.
    NoPicture(DecodeError),
}

/// Width, height and pixels of a frame that was saved as a PNG file.
pub fn saved_pixels(bytes: &[u8]) -> (picture: Result<(u32, u32, Vec<u8>), PixelsError>)
    ensures
        match picture {
            Ok(p) => {
                &&& sound_palette(bytes@)
                &&& decoded_rgba8(bytes@) == Some((p.0, p.1, p.2@))
                &&& is_rgba_picture(p.0, p.1, p.2@)
                &&& reads_back(decoded_png(bytes@), p.0, p.1, p.2@)
            },
            Err(PixelsError::NotRgba) => {
                &&& sound_palette(bytes@)
                &&& decoded_rgba8(bytes@) is None
                &&& decoded_png(bytes@) is Some
            },
            Err(PixelsError::NoPicture(DecodeError::UnsoundPalette)) => !sound_palette(bytes@),
            Err(PixelsError::NoPicture(DecodeError::Refused(_))) => sound_palette(bytes@)
                && decoded_png(bytes@) is None,
        },
{
    if !has_sound_palette(bytes) {
        return Err(PixelsError::NoPicture(DecodeError::UnsoundPalette));
    }
    match decode_png_to_rgba8(bytes) {
        Ok(Some(picture)) => Ok(picture),
        Ok(None) => Err(PixelsError::NotRgba),
        Err(error) => Err(PixelsError::NoPicture(DecodeError::Refused(error))),
    }
}

/// A frame cannot be saved.
#[derive(Debug)]
pub enum SaveError {
    /// The frame has no columns or no rows.
    Empty(png::EncodingError),
    /// The number of bytes is not four for each pixel.
    WrongSize(png::EncodingError),
}

/// The PNG file that a frame is saved as.
pub fn frame_to_png(frame: &FrameData) -> (file: Result<Vec<u8>, SaveError>)
    requires
        frame.width * BYTES_PER_PIXEL < usize::MAX,
        frame.width * BYTES_PER_PIXEL * frame.height <= usize::MAX,
    ensures
        match file {
            Ok(f) => {
                &&& is_rgba_picture(frame.width, frame.height, frame.pixels@)
                &&& f@ == encoded_png(frame.width, frame.height, frame.pixels@)
                &&& sound_palette(f@)
                &&& frame.width * BYTES_PER_PIXEL * frame.height <= DECODE_LIMIT ==> {
                    &&& reads_back(
                        decoded_picture(f@),
                        frame.width,
                        frame.height,
                        frame.pixels@,
                    )
                    &&& reads_back(decoded_png(f@), frame.width, frame.height, frame.pixels@)
                    &&& decoded_rgba8(f@) == Some((frame.width, frame.height, frame.pixels@))
                }
            },
            Err(SaveError::Empty(_)) => frame.width == 0 || frame.height == 0,
            Err(SaveError::WrongSize(_)) => {
                &&& 0 < frame.width
                &&& 0 < frame.height
                &&& frame.pixels@.len() != frame.width * BYTES_PER_PIXEL * frame.height
            },
        },
{
    match encode_rgba8(frame.width, frame.height, frame.pixels.as_slice()) {
        Ok(file) => Ok(file),
        Err(error) => {
            if frame.width == 0 || frame.height == 0 {
                Err(SaveError::Empty(error))
            } else {
                Err(SaveError::WrongSize(error))
            }
        },
    }
}

/// A saved frame reads back: its file decodes to the grey image that the frame itself converts to,
/// whichever of the two decoders is asked.
pub proof fn lemma_saved_frame_reads_back(
    frame: FrameData,
    file: Vec<u8>,
    bytes: &[u8],
    luma: Result<Image, IncompleteFrame>,
    picture: Result<Image, DecodeError>,
    png: Result<Image, DecodeError>,
)
    requires
        frame.width * BYTES_PER_PIXEL * frame.height <= DECODE_LIMIT,
        call_ensures(frame_to_png, (&frame,), Ok::<Vec<u8>, SaveError>(file)),
        bytes@ == file@,
        call_ensures(convert_frame_to_luma32f, (&frame,), luma),
        call_ensures(decode_picture, (bytes,), picture),
        call_ensures(decode_png, (bytes,), png),
    ensures
        luma is Ok,
        picture is Ok,
        png is Ok,
        picture.unwrap()@ == luma.unwrap()@,
        png.unwrap()@ == luma.unwrap()@,
{
    let w = frame.width as int;
    let h = frame.height as int;
    let bytes_per_pixel = BYTES_PER_PIXEL as int;
    assert(w * h * bytes_per_pixel == w * bytes_per_pixel * h && w * bytes_per_pixel <= w
        * bytes_per_pixel * h) by (nonlinear_arith)
        requires
            w > 0,
            h > 0,
            bytes_per_pixel > 0,
    ;
    lemma_colours_decide_luma(
        picture.unwrap()@,
        luma.unwrap()@,
        frame.width,
        frame.height,
        frame.pixels@,
        frame.pixels@,
    );
    lemma_colours_decide_luma(
        png.unwrap()@,
        luma.unwrap()@,
        frame.width,
        frame.height,
        frame.pixels@,
        frame.pixels@,
    );
}

/// A saved frame keeps its pixels: it is saved if it has columns, rows and four bytes for each
/// pixel, and its file holds the same size and the same red, green, blue and alpha.
pub proof fn lemma_saved_frame_keeps_its_pixels(
    frame: FrameData,
    file: Result<Vec<u8>, SaveError>,
    bytes: &[u8],
    read: Result<(u32, u32, Vec<u8>), PixelsError>,
)
    requires
        is_rgba_picture(frame.width, frame.height, frame.pixels@),
        frame.width * BYTES_PER_PIXEL * frame.height <= DECODE_LIMIT,
        call_ensures(frame_to_png, (&frame,), file),
        file matches Ok(f) ==> bytes@ == f@,
        call_ensures(saved_pixels, (bytes,), read),
    ensures
        file is Ok,
        read matches Ok(picture) && (picture.0, picture.1, picture.2@) == (
            frame.width,
            frame.height,
            frame.pixels@,
        ),
{
}

/// Grey values in plain terms: each cell is the single-precision number nearest to the weighed red,
/// green and blue of its pixel, as a fraction of white.
pub proof fn lemma_luma_in_plain_terms(grid: Grid, width: u32, height: u32, pixels: Seq<u8>)
    requires
        luma_of(grid, width, height, pixels),
    ensures
        grid.width == width,
        grid.height == height,
        grid.cells.len() == width * height,
        forall|i: int|
            0 <= i < width * height ==> {
                let red = pixels[4 * i];
                let green = pixels[4 * i + 1];
                let blue = pixels[4 * i + 2];
                let grey = (2126 * red + 7152 * green + 722 * blue) / 10000;
                let bits = (#[trigger] grid.cells[i]).bits;
                let digits = 0x80_0000 + bits % 0x80_0000;
                let scale = pow2((150 - bits / 0x80_0000) as nat);
                if grey == 0 {
                    bits == 0
                } else {
                    bits <= 0x3f80_0000 && -255 < 2 * (255 * digits - grey * scale) < 255
                }
            },
{
    assert forall|i: int| 0 <= i < width * height implies {
        let grey = (2126 * pixels[4 * i] + 7152 * pixels[4 * i + 1] + 722 * pixels[4 * i + 2])
            / 10000;
        nearest_to_byte(#[trigger] grid.cells[i], grey)
    } by {
        assert(colour(pixels, i) == (pixels[4 * i], pixels[4 * i + 1], pixels[4 * i + 2]));
    }
}

/// The grey image of a frame: there is one exactly if the frame has four bytes for each pixel and
/// the bytes of a row can be counted. It has the size of the frame, and each cell is the
/// single-precision number nearest to the weighed red, green and blue of its pixel.
pub proof fn lemma_frame_turns_grey(frame: FrameData, luma: Result<Image, IncompleteFrame>)
    requires
        call_ensures(convert_frame_to_luma32f, (&frame,), luma),
    ensures
        luma is Ok <==> frame.width * 4 <= usize::MAX && frame.width * frame.height * 4
            <= frame.pixels@.len(),
        luma matches Ok(image) ==> {
            &&& image@.width == frame.width
            &&& image@.height == frame.height
            &&& image@.cells.len() == frame.width * frame.height
            &&& forall|i: int|
                0 <= i < frame.width * frame.height ==> {
                    let red = frame.pixels@[4 * i];
                    let green = frame.pixels@[4 * i + 1];
                    let blue = frame.pixels@[4 * i + 2];
                    let grey = (2126 * red + 7152 * green + 722 * blue) / 10000;
                    let bits = (#[trigger] image@.cells[i]).bits;
                    let digits = 0x80_0000 + bits % 0x80_0000;
                    let scale = pow2((150 - bits / 0x80_0000) as nat);
                    if grey == 0 {
                        bits == 0
                    } else {
                        bits <= 0x3f80_0000 && -255 < 2 * (255 * digits - grey * scale) < 255
                    }
                }
        },
{
    if let Ok(image) = luma {
        lemma_luma_in_plain_terms(image@, frame.width, frame.height, frame.pixels@);
    }
}

/// A decoded file shows what the decoder made of its bytes: the same width and height, and in each
/// cell the same bits. A broken palette is refused, and else only what the decoder refuses.
pub proof fn lemma_image_shows_what_was_decoded(
    bytes: &[u8],
    picture: Result<Image, DecodeError>,
    png: Result<Image, DecodeError>,
)
    requires
        call_ensures(decode_picture, (bytes,), picture),
        call_ensures(decode_png, (bytes,), png),
    ensures
        picture matches Err(DecodeError::UnsoundPalette) <==> !sound_palette(bytes@),
        png matches Err(DecodeError::UnsoundPalette) <==> !sound_palette(bytes@),
        sound_palette(bytes@) ==> (picture is Ok <==> decoded_picture(bytes@) is Some),
        sound_palette(bytes@) ==> (png is Ok <==> decoded_png(bytes@) is Some),
        picture matches Ok(image) ==> decoded_picture(bytes@) matches Some((w, h, bits)) ==> {
            &&& image@.width == w
            &&& image@.height == h
            &&& image@.cells.len() == bits.len()
            &&& forall|i: int|
                0 <= i < bits.len() ==> (#[trigger] image@.cells[i]).bits == bits[i]
        },
        png matches Ok(image) ==> decoded_png(bytes@) matches Some((w, h, bits)) ==> {
            &&& image@.width == w
            &&& image@.height == h
            &&& image@.cells.len() == bits.len()
            &&& forall|i: int|
                0 <= i < bits.len() ==> (#[trigger] image@.cells[i]).bits == bits[i]
        },
{
}

/// A frame is saved exactly if it has columns, rows and four bytes for each pixel, and then all of
/// it is: the file is that of its width, its height and its pixels.
pub proof fn lemma_frame_is_saved_whole(frame: FrameData, file: Result<Vec<u8>, SaveError>)
    requires
        call_ensures(frame_to_png, (&frame,), file),
    ensures
        file is Ok <==> frame.width > 0 && frame.height > 0 && frame.pixels@.len() == frame.width
            * 4 * frame.height,
        file matches Err(SaveError::Empty(_)) <==> frame.width == 0 || frame.height == 0,
        file matches Ok(f) ==> f@ == encoded_png(frame.width, frame.height, frame.pixels@),
        frame.width * 4 * frame.height <= 0x2000_0000 ==> (file matches Ok(f) ==> decoded_rgba8(f@)
            == Some((frame.width, frame.height, frame.pixels@))),
{
}

/// What is read of a saved frame is what the decoder made of the file.
pub proof fn lemma_saved_pixels_are_what_was_decoded(
    bytes: &[u8],
    read: Result<(u32, u32, Vec<u8>), PixelsError>,
)
    requires
        call_ensures(saved_pixels, (bytes,), read),
    ensures
        sound_palette(bytes@) && decoded_png(bytes@) is Some ==> (read is Ok <==> decoded_rgba8(
            bytes@,
        ) is Some),
        read matches Ok(picture) ==> decoded_rgba8(bytes@) == Some(
            (picture.0, picture.1, picture.2@),
        ),
        read matches Err(PixelsError::NoPicture(_)) <==> !sound_palette(bytes@) || decoded_png(
            bytes@,
        ) is None,
        read matches Err(PixelsError::NoPicture(DecodeError::UnsoundPalette)) <==> !sound_palette(
            bytes@,
        ),
{
}

/// What the error says.
pub proof fn lemma_incomplete_frame_in_words(error: IncompleteFrame, text: &'static str)
    requires
        call_ensures(IncompleteFrame::message, (&error,), text),
    ensures
        text@ == "Failed to create RgbaImage from raw pixels"@,
{
}

} // verus!
