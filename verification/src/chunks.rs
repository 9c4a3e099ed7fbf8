//! The chunks of a PNG file, as far as its palette goes.
use vstd::prelude::*;

verus! {

/// The two words that a PNG file starts with.
pub const SIGNATURE_START: u32 = 0x8950_4e47;

pub const SIGNATURE_END: u32 = 0x0d0a_1a0a;

/// The chunk that tells the size and the kind of colours: `IHDR`.
pub const HEADER_CHUNK: u32 = 0x4948_4452;

/// The chunk that holds the palette: `PLTE`.
pub const PALETTE_CHUNK: u32 = 0x504c_5445;

/// A chunk that holds pixels: `IDAT`.
pub const PIXEL_CHUNK: u32 = 0x4944_4154;

/// The bytes of the signature.
pub const SIGNATURE_BYTES: usize = 8;

/// The bytes of a chunk besides its data: the length of the data and the kind of the chunk before
/// it, the checksum after it.
pub const FRAMING_BYTES: usize = 12;

/// The bytes of a chunk before its data.
pub const DATA_OFFSET: usize = 8;

/// Where in the data of the header the kind of colours stands.
pub const COLOUR_KIND_OFFSET: u32 = 9;

/// Pixels that are places of a palette.
pub const INDEXED_COLOURS: u8 = 3;

/// The bytes of a palette of 256 colours.
pub const LARGEST_PALETTE: u32 = 768;

/// The number that four bytes stand for, the largest digit first.
#[verifier::opaque]
pub open spec fn word(bytes: Seq<u8>, at: int) -> int {
    bytes[at] * 0x100_0000 + bytes[at + 1] * 0x1_0000 + bytes[at + 2] * 0x100 + bytes[at + 3]
}

/// Four bytes stand for no negative number.
pub proof fn lemma_word_is_natural(bytes: Seq<u8>, at: int)
    ensures
        0 <= word(bytes, at),
{
    reveal(word);
}

/// A palette of whole colours, at most 256 of them.
pub open spec fn whole_palette(length: int) -> bool {
    length % 3 == 0 && length <= LARGEST_PALETTE
}

/// From the chunk at `at` on, the first palette that counts is a whole one.
///
/// A palette counts if it comes before the pixels and these are places of it: `indexed` says
/// whether the header so far makes them that. Chunks without data are passed over, and nothing is
/// asked of a chunk that is cut off.
pub open spec fn sound_from(bytes: Seq<u8>, at: int, indexed: bool) -> bool
    decreases bytes.len() - at,
{
    let length = word(bytes, at);
    let kind = word(bytes, at + 4);
    let next = at + FRAMING_BYTES + length;
    proof {
        lemma_word_is_natural(bytes, at);
    }
    if at + FRAMING_BYTES > bytes.len() || next > bytes.len() {
        true
    } else if kind == PIXEL_CHUNK {
        true
    } else if kind == PALETTE_CHUNK && indexed && length > 0 {
        whole_palette(length)
    } else if kind == HEADER_CHUNK && length > 0 {
        sound_from(
            bytes,
            next,
            length > COLOUR_KIND_OFFSET && bytes[at + DATA_OFFSET + COLOUR_KIND_OFFSET]
                == INDEXED_COLOURS,
        )
    } else {
        sound_from(bytes, next, indexed)
    }
}

/// The bytes are those of a PNG file.
pub open spec fn has_signature(bytes: Seq<u8>) -> bool {
    &&& bytes.len() >= SIGNATURE_BYTES
    &&& word(bytes, 0) == SIGNATURE_START
    &&& word(bytes, 4) == SIGNATURE_END
}

/// If this is a PNG file whose pixels are places of a palette, the palette is a whole one.
pub open spec fn sound_palette(bytes: Seq<u8>) -> bool {
    has_signature(bytes) ==> sound_from(bytes, SIGNATURE_BYTES as int, false)
}

/// The number that four bytes stand for.
fn read_word(bytes: &[u8], at: usize) -> (number: u32)
    requires
        at + 4 <= bytes@.len(),
    ensures
        number == word(bytes@, at as int),
{
    proof {
        reveal(word);
    }
    bytes[at] as u32 * 0x100_0000 + bytes[at + 1] as u32 * 0x1_0000 + bytes[at + 2] as u32 * 0x100
        + bytes[at + 3] as u32
}

/// Whether the palette of a PNG file is a whole one where it counts.
pub fn has_sound_palette(bytes: &[u8]) -> (sound: bool)
    ensures
        sound == sound_palette(bytes@),
{
    if bytes.len() < SIGNATURE_BYTES {
        return true;
    }
    if read_word(bytes, 0) != SIGNATURE_START || read_word(bytes, 4) != SIGNATURE_END {
        return true;
    }
    let mut at: usize = SIGNATURE_BYTES;
    let mut indexed = false;
    while bytes.len() - at >= FRAMING_BYTES
        invariant
            at <= bytes@.len(),
            sound_palette(bytes@) == sound_from(bytes@, at as int, indexed),
        decreases bytes@.len() - at,
    {
        let length = read_word(bytes, at);
        let kind = read_word(bytes, at + 4);
        let room: u64 = (bytes.len() - at - FRAMING_BYTES) as u64;
        if length as u64 > room {
            return true;
        }
        if kind == PIXEL_CHUNK {
            return true;
        }
        if kind == PALETTE_CHUNK && indexed && length > 0 {
            return length % 3 == 0 && length <= LARGEST_PALETTE;
        }
        if kind == HEADER_CHUNK && length > 0 {
            indexed = length > COLOUR_KIND_OFFSET && bytes[at + DATA_OFFSET
                + COLOUR_KIND_OFFSET as usize] == INDEXED_COLOURS;
        }
        at = at + FRAMING_BYTES + length as usize;
    }
    true
}

/// A chunk as it stands in a file, but for the length, which its data tells.
pub struct Chunk {
    pub kind: Seq<u8>,
    pub data: Seq<u8>,
    pub checksum: Seq<u8>,
}

impl Chunk {
    /// The kind and the checksum have four bytes each, and the length fits into four bytes.
    pub open spec fn wf(self) -> bool {
        self.kind.len() == 4 && self.checksum.len() == 4 && self.data.len() < 0x1_0000_0000
    }

    /// The bytes of the chunk.
    pub open spec fn bytes(self) -> Seq<u8> {
        let n = self.data.len();
        seq![
            (n / 0x100_0000) as u8,
            (n / 0x1_0000 % 0x100) as u8,
            (n / 0x100 % 0x100) as u8,
            (n % 0x100) as u8,
        ] + self.kind + self.data + self.checksum
    }
}

/// The bytes of chunks, one after the other.
pub open spec fn layout(chunks: Seq<Chunk>) -> Seq<u8>
    decreases chunks.len(),
{
    if chunks.len() == 0 {
        Seq::empty()
    } else {
        chunks[0].bytes() + layout(chunks.drop_first())
    }
}

/// Length and kind of a chunk, as they are read from its bytes.
proof fn lemma_chunk_is_read(bytes: Seq<u8>, before: Seq<u8>, chunk: Chunk, after: Seq<u8>)
    requires
        chunk.wf(),
        bytes == before + chunk.bytes() + after,
    ensures
        bytes.len() == before.len() + 12 + chunk.data.len() + after.len(),
        word(bytes, before.len() as int) == chunk.data.len(),
        word(bytes, before.len() as int + 4) == word(chunk.kind, 0),
        forall|i: int|
            0 <= i < chunk.data.len() ==> bytes[before.len() as int + 8 + i] == #[trigger] chunk.data[i],
{
    let at = before.len() as int;
    let n = chunk.data.len() as int;
    reveal(word);
    assert(bytes[at] == chunk.bytes()[0]);
    assert(bytes[at + 1] == chunk.bytes()[1]);
    assert(bytes[at + 2] == chunk.bytes()[2]);
    assert(bytes[at + 3] == chunk.bytes()[3]);
    assert(bytes[at + 4] == chunk.kind[0]);
    assert(bytes[at + 5] == chunk.kind[1]);
    assert(bytes[at + 6] == chunk.kind[2]);
    assert(bytes[at + 7] == chunk.kind[3]);
    assert(n / 0x100_0000 < 0x100);
    assert((n / 0x100_0000) * 0x100_0000 + (n / 0x1_0000 % 0x100) * 0x1_0000 + (n / 0x100 % 0x100)
        * 0x100 + n % 0x100 == n);
    assert forall|i: int| 0 <= i < chunk.data.len() implies bytes[before.len() as int + 8 + i]
        == #[trigger] chunk.data[i] by {
        assert(chunk.bytes()[8 + i] == chunk.data[i]);
    }
}

/// Four bytes are told by their word.
proof fn lemma_word_tells_the_kind(kind: Seq<u8>, a: u8, b: u8, c: u8, d: u8)
    requires
        kind.len() == 4,
    ensures
        word(kind, 0) == a * 0x100_0000 + b * 0x1_0000 + c * 0x100 + d <==> kind == seq![a, b, c, d],
{
    reveal(word);
    if word(kind, 0) == a * 0x100_0000 + b * 0x1_0000 + c * 0x100 + d {
        assert(kind =~= seq![a, b, c, d]);
    }
}

/// Behind the header the palette decides, and only where the pixels are places of it.
proof fn lemma_palette_decides(
    bytes: Seq<u8>,
    before: Seq<u8>,
    chunks: Seq<Chunk>,
    tail: Seq<u8>,
    indexed: bool,
)
    requires
        bytes == before + layout(chunks) + tail,
        forall|i: int| 0 <= i < chunks.len() ==> (#[trigger] chunks[i]).wf(),
        forall|i: int|
            0 <= i < chunks.len() ==> (#[trigger] chunks[i]).kind != seq![0x49u8, 0x48, 0x44, 0x52],
        (exists|i: int|
            0 <= i < chunks.len() && (#[trigger] chunks[i]).kind == seq![0x49u8, 0x44, 0x41, 0x54])
            || tail.len() < 12 || tail.len() < 12 + tail[0] * 0x100_0000 + tail[1] * 0x1_0000
            + tail[2] * 0x100 + tail[3],
    ensures
        sound_from(bytes, before.len() as int, indexed) <==> (indexed ==> forall|k: int|
            {
                &&& 0 <= k < chunks.len()
                &&& (#[trigger] chunks[k]).kind == seq![0x50u8, 0x4c, 0x54, 0x45]
                &&& chunks[k].data.len() > 0
                &&& forall|j: int|
                    0 <= j < k ==> (#[trigger] chunks[j]).kind != seq![0x49u8, 0x44, 0x41, 0x54]
                        && (chunks[j].kind != seq![0x50u8, 0x4c, 0x54, 0x45]
                        || chunks[j].data.len() == 0)
            } ==> chunks[k].data.len() % 3 == 0 && chunks[k].data.len() <= 768),
    decreases chunks.len(),
{
    if chunks.len() > 0 {
        let chunk = chunks[0];
        let rest = chunks.drop_first();
        let more = before + chunk.bytes();
        assert(bytes =~= before + chunk.bytes() + (layout(rest) + tail));
        assert(bytes =~= more + layout(rest) + tail);
        lemma_chunk_is_read(bytes, before, chunk, layout(rest) + tail);
        lemma_word_tells_the_kind(chunk.kind, 0x49, 0x48, 0x44, 0x52);
        lemma_word_tells_the_kind(chunk.kind, 0x49, 0x44, 0x41, 0x54);
        lemma_word_tells_the_kind(chunk.kind, 0x50, 0x4c, 0x54, 0x45);
        assert forall|i: int| 0 <= i < rest.len() implies (#[trigger] rest[i]).wf() && rest[i].kind
            != seq![0x49u8, 0x48, 0x44, 0x52] by {
            assert(rest[i] == chunks[i + 1]);
        }
        let pixels = seq![0x49u8, 0x44, 0x41, 0x54];
        let palette = seq![0x50u8, 0x4c, 0x54, 0x45];
        if chunk.kind != pixels && !(chunk.kind == palette && indexed && chunk.data.len() > 0) {
            if exists|i: int| 0 <= i < chunks.len() && (#[trigger] chunks[i]).kind == pixels {
                let i = choose|i: int|
                    0 <= i < chunks.len() && (#[trigger] chunks[i]).kind == pixels;
                assert(rest[i - 1].kind == pixels);
            }
            lemma_palette_decides(bytes, more, rest, tail, indexed);
            assert(sound_from(bytes, before.len() as int, indexed) == sound_from(
                bytes,
                more.len() as int,
                indexed,
            ));
            if indexed && !sound_from(bytes, more.len() as int, indexed) {
                let k = choose|k: int|
                    {
                        &&& 0 <= k < rest.len()
                        &&& (#[trigger] rest[k]).kind == palette
                        &&& rest[k].data.len() > 0
                        &&& forall|j: int|
                            0 <= j < k ==> (#[trigger] rest[j]).kind != pixels && (rest[j].kind
                                != palette || rest[j].data.len() == 0)
                        &&& !(rest[k].data.len() % 3 == 0 && rest[k].data.len() <= 768)
                    };
                assert(chunks[k + 1] == rest[k]);
                assert forall|j: int| 0 <= j < k + 1 implies (#[trigger] chunks[j]).kind != pixels
                    && (chunks[j].kind != palette || chunks[j].data.len() == 0) by {
                    if j > 0 {
                        assert(rest[j - 1] == chunks[j]);
                    }
                }
            }
            if indexed && sound_from(bytes, more.len() as int, indexed) {
                assert forall|k: int|
                    {
                        &&& 0 <= k < chunks.len()
                        &&& (#[trigger] chunks[k]).kind == palette
                        &&& chunks[k].data.len() > 0
                        &&& forall|j: int|
                            0 <= j < k ==> (#[trigger] chunks[j]).kind != pixels && (chunks[j].kind
                                != palette || chunks[j].data.len() == 0)
                    } implies chunks[k].data.len() % 3 == 0 && chunks[k].data.len() <= 768 by {
                    assert(rest[k - 1] == chunks[k]);
                    assert forall|j: int| 0 <= j < k - 1 implies (#[trigger] rest[j]).kind
                        != pixels && (rest[j].kind != palette || rest[j].data.len() == 0) by {
                        assert(rest[j] == chunks[j + 1]);
                    }
                }
            }
        }
    } else {
        let at = before.len() as int;
        reveal(word);
        if tail.len() >= 12 {
            assert(bytes[at] == tail[0]);
            assert(bytes[at + 1] == tail[1]);
            assert(bytes[at + 2] == tail[2]);
            assert(bytes[at + 3] == tail[3]);
        }
    }
}

/// A file with one header is sound exactly if its pixels are no places of a palette, or if the
/// first palette with any data before the pixels has whole colours, at most 256 of them. What else
/// the chunks hold plays no part, and neither does a tail behind the pixels, or one that is cut
/// off.
pub proof fn lemma_first_palette_decides(
    bytes: &[u8],
    header: Chunk,
    chunks: Seq<Chunk>,
    tail: Seq<u8>,
    sound: bool,
)
    requires
        call_ensures(has_sound_palette, (bytes,), sound),
        bytes@ == seq![137u8, 80, 78, 71, 13, 10, 26, 10] + header.bytes() + layout(chunks)
            + tail,
        header.wf(),
        header.kind == seq![0x49u8, 0x48, 0x44, 0x52],
        header.data.len() > 9,
        forall|i: int| 0 <= i < chunks.len() ==> (#[trigger] chunks[i]).wf(),
        forall|i: int|
            0 <= i < chunks.len() ==> (#[trigger] chunks[i]).kind != seq![0x49u8, 0x48, 0x44, 0x52],
        (exists|i: int|
            0 <= i < chunks.len() && (#[trigger] chunks[i]).kind == seq![0x49u8, 0x44, 0x41, 0x54])
            || tail.len() < 12 || tail.len() < 12 + tail[0] * 0x100_0000 + tail[1] * 0x1_0000
            + tail[2] * 0x100 + tail[3],
    ensures
        sound == sound_palette(bytes@),
        sound <==> (header.data[9] == 3 ==> forall|k: int|
            {
                &&& 0 <= k < chunks.len()
                &&& (#[trigger] chunks[k]).kind == seq![0x50u8, 0x4c, 0x54, 0x45]
                &&& chunks[k].data.len() > 0
                &&& forall|j: int|
                    0 <= j < k ==> (#[trigger] chunks[j]).kind != seq![0x49u8, 0x44, 0x41, 0x54]
                        && (chunks[j].kind != seq![0x50u8, 0x4c, 0x54, 0x45]
                        || chunks[j].data.len() == 0)
            } ==> chunks[k].data.len() % 3 == 0 && chunks[k].data.len() <= 768),
{
    let signature = seq![137u8, 80, 78, 71, 13, 10, 26, 10];
    let before = signature + header.bytes();
    assert(bytes@ =~= signature + header.bytes() + (layout(chunks) + tail));
    lemma_chunk_is_read(bytes@, signature, header, layout(chunks) + tail);
    lemma_word_tells_the_kind(header.kind, 0x49, 0x48, 0x44, 0x52);
    assert(word(bytes@, 0) == SIGNATURE_START && word(bytes@, 4) == SIGNATURE_END) by {
        reveal(word);
    }
    assert(header.data[9] == bytes@[25]);
    lemma_palette_decides(bytes@, before, chunks, tail, header.data[9] == 3);
    assert(sound_palette(bytes@) == sound_from(
        bytes@,
        before.len() as int,
        header.data[9] == 3,
    ));
}

/// What does not start like a PNG file is sound.
pub proof fn lemma_other_files_are_sound(bytes: &[u8], sound: bool)
    requires
        call_ensures(has_sound_palette, (bytes,), sound),
        bytes@.len() < 8 || bytes@.take(8) != seq![137u8, 80, 78, 71, 13, 10, 26, 10],
    ensures
        sound,
        sound_palette(bytes@),
{
    reveal(word);
    if has_signature(bytes@) {
        assert(bytes@.take(8) =~= seq![137u8, 80, 78, 71, 13, 10, 26, 10]);
    }
}

} // verus!
