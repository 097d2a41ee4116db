//! The decisions the PNG reader takes between chunks: the signature, which
//! chunks are read whole, which stream into the image decoder, which are
//! skipped, and which are refused; the image header and palette checked;
//! the stored CRC held against the computed one. Chunk CRCs are checked,
//! so a damaged file is refused rather than misread.

use vstd::prelude::*;
use vstd::string::StringExecFns;
use crate::message::{decimal, push_char, push_decimal};
use crate::png::reader::{Header, PngError};

verus! {

/// The eight bytes every PNG starts with.
pub const SIGNATURE: [u8; 8] = [0x89, 0x50, 0x4e, 0x47, 0x0d, 0x0a, 0x1a, 0x0a];

/// The longest chunk read whole (IHDR, PLTE, tRNS); image data and
/// ancillary chunks stream through.
pub const MAX_WHOLE_CHUNK: u32 = 262144;

/// The chunk types the reader knows.
pub const IHDR: [u8; 4] = [0x49, 0x48, 0x44, 0x52];
pub const PLTE: [u8; 4] = [0x50, 0x4c, 0x54, 0x45];
pub const TRNS: [u8; 4] = [0x74, 0x52, 0x4e, 0x53];
pub const IDAT: [u8; 4] = [0x49, 0x44, 0x41, 0x54];
pub const IEND: [u8; 4] = [0x49, 0x45, 0x4e, 0x44];

/// What the reader has learned from the chunks so far.
#[derive(Debug, Clone, PartialEq, Eq)]
pub struct ChunkState {
    pub header: Option<Header>,
    /// Entries of the palette; zero before a PLTE chunk.
    pub palette_len: usize,
    /// The image decoder has started (an IDAT chunk came).
    pub decoding: bool,
}

/// What to do with the chunk whose head was read.
#[derive(Debug, Clone, Copy, PartialEq, Eq, Structural)]
pub enum ChunkAction {
    /// Read it whole and take it as the image header.
    Header,
    /// Read it whole and take it as the palette.
    Palette,
    /// Read it whole and keep it as the transparency data.
    Transparency,
    /// Start the image decoder, then stream the data into it.
    StartImage,
    /// Stream the data into the image decoder.
    Image,
    /// Check the CRC and stop reading.
    End,
    /// Stream the data past, checking it against the CRC, and note the type.
    Skip,
}

pub open spec fn is_alphabetic(byte: u8) -> bool {
    (0x41 <= byte <= 0x5a) || (0x61 <= byte <= 0x7a)
}

/// The type as text; its bytes are ASCII letters.
pub open spec fn kind_text(kind: [u8; 4]) -> Seq<char> {
    seq![kind@[0] as char, kind@[1] as char, kind@[2] as char, kind@[3] as char]
}

/// What the reader does with a chunk of type `kind` and `length` bytes,
/// or the message it refuses the file with.
pub open spec fn chunk_decision(state: ChunkState, length: u32, kind: [u8; 4]) -> Result<ChunkAction, Seq<char>> {
    if !(forall|i: int| 0 <= i < 4 ==> is_alphabetic(#[trigger] kind@[i])) {
        Err("bad chunk type"@)
    } else if kind@ == IHDR@ {
        if state.header is Some {
            Err("two IHDR chunks"@)
        } else if length > MAX_WHOLE_CHUNK {
            Err(kind_text(kind) + " chunk too long"@)
        } else {
            Ok(ChunkAction::Header)
        }
    } else if kind@ == PLTE@ || kind@ == TRNS@ {
        if length > MAX_WHOLE_CHUNK {
            Err(kind_text(kind) + " chunk too long"@)
        } else if kind@ == PLTE@ {
            Ok(ChunkAction::Palette)
        } else {
            Ok(ChunkAction::Transparency)
        }
    } else if kind@ == IDAT@ {
        if state.decoding {
            Ok(ChunkAction::Image)
        } else {
            match state.header {
                None => Err("IDAT before IHDR"@),
                Some(header) => if header.color == 3 && state.palette_len == 0 {
                    Err("a palette image without a PLTE chunk"@)
                } else {
                    Ok(ChunkAction::StartImage)
                },
            }
        }
    } else if kind@ == IEND@ {
        if length != 0 {
            Err("IEND chunk with data"@)
        } else {
            Ok(ChunkAction::End)
        }
    } else if 0x41 <= kind@[0] <= 0x5a {
        Err("unknown critical chunk "@ + kind_text(kind))
    } else {
        Ok(ChunkAction::Skip)
    }
}

/// `kind` as text, for a message.
fn push_kind(text: &mut String, kind: [u8; 4])
    requires
        forall|i: int| 0 <= i < 4 ==> is_alphabetic(#[trigger] kind@[i]),
    ensures
        final(text)@ == old(text)@ + kind_text(kind),
{
    push_char(text, kind[0] as char);
    push_char(text, kind[1] as char);
    push_char(text, kind[2] as char);
    push_char(text, kind[3] as char);
    assert(final(text)@ =~= old(text)@ + kind_text(kind));
}

fn error(message: &str) -> (error: PngError)
    ensures
        error.0@ == message@,
{
    PngError(String::from_str(message))
}

fn same_kind(kind: [u8; 4], other: [u8; 4]) -> (same: bool)
    ensures
        same == (kind@ == other@),
{
    let same = kind[0] == other[0] && kind[1] == other[1] && kind[2] == other[2] && kind[3] == other[3];
    if same {
        assert(kind@ =~= other@);
    }
    same
}

/// What to do with the chunk of type `kind` whose data is `length` bytes
/// long: the decision between chunks, refusing bad types, a second
/// header, image data before the header or a palette a palette image
/// needs, an end chunk with data, oversized chunks meant to be read whole,
/// and critical chunks the reader does not know.
pub fn next_chunk(state: &ChunkState, length: u32, kind: [u8; 4]) -> (r: Result<ChunkAction, PngError>)
    ensures
        match (r, chunk_decision(*state, length, kind)) {
            (Ok(action), Ok(expected)) => action == expected,
            (Err(error), Err(message)) => error.0@ == message,
            _ => false,
        },
{
    let mut letters = true;
    let mut i: usize = 0;
    while i < 4
        invariant
            i <= 4,
            letters == forall|j: int| 0 <= j < i ==> is_alphabetic(#[trigger] kind@[j]),
        decreases 4 - i,
    {
        let byte = kind[i];
        letters = letters && ((0x41 <= byte && byte <= 0x5a) || (0x61 <= byte && byte <= 0x7a));
        i += 1;
    }
    if !letters {
        return Err(error("bad chunk type"));
    }
    if same_kind(kind, IHDR) {
        if state.header.is_some() {
            return Err(error("two IHDR chunks"));
        }
        if length > MAX_WHOLE_CHUNK {
            let mut message = String::new();
            push_kind(&mut message, kind);
            message.append(" chunk too long");
            return Err(PngError(message));
        }
        return Ok(ChunkAction::Header);
    }
    let palette = same_kind(kind, PLTE);
    if palette || same_kind(kind, TRNS) {
        if length > MAX_WHOLE_CHUNK {
            let mut message = String::new();
            push_kind(&mut message, kind);
            message.append(" chunk too long");
            return Err(PngError(message));
        }
        return Ok(if palette { ChunkAction::Palette } else { ChunkAction::Transparency });
    }
    if same_kind(kind, IDAT) {
        if state.decoding {
            return Ok(ChunkAction::Image);
        }
        return match state.header {
            None => Err(error("IDAT before IHDR")),
            Some(header) => if header.color == 3 && state.palette_len == 0 {
                Err(error("a palette image without a PLTE chunk"))
            } else {
                Ok(ChunkAction::StartImage)
            },
        };
    }
    if same_kind(kind, IEND) {
        if length != 0 {
            return Err(error("IEND chunk with data"));
        }
        return Ok(ChunkAction::End);
    }
    if 0x41 <= kind[0] && kind[0] <= 0x5a {
        let mut message = String::from_str("unknown critical chunk ");
        push_kind(&mut message, kind);
        return Err(PngError(message));
    }
    Ok(ChunkAction::Skip)
}

/// The file begins with the PNG signature.
pub fn signature_matches(head: &[u8]) -> (matches: bool)
    ensures
        matches == (head@ == SIGNATURE@),
{
    if head.len() != 8 {
        return false;
    }
    let mut i: usize = 0;
    while i < 8
        invariant
            i <= 8,
            head@.len() == 8,
            forall|j: int| 0 <= j < i ==> head@[j] == SIGNATURE@[j],
        decreases 8 - i,
    {
        if head[i] != SIGNATURE[i] {
            return false;
        }
        i += 1;
    }
    assert(head@ =~= SIGNATURE@);
    true
}

/// The stored CRC (big-endian) against the one computed over the chunk's
/// type and data.
pub fn check_crc(stored: [u8; 4], computed: u32, kind: [u8; 4]) -> (r: Result<(), PngError>)
    requires
        forall|i: int| 0 <= i < 4 ==> is_alphabetic(#[trigger] kind@[i]),
    ensures
        match r {
            Ok(()) => big_endian(stored) == computed,
            Err(error) => big_endian(stored) != computed && error.0@ == "bad CRC in chunk "@ + kind_text(kind),
        },
{
    let value = (stored[0] as u32) * 16777216 + (stored[1] as u32) * 65536 + (stored[2] as u32) * 256
        + stored[3] as u32;
    if value != computed {
        let mut message = String::from_str("bad CRC in chunk ");
        push_kind(&mut message, kind);
        return Err(PngError(message));
    }
    Ok(())
}

/// Four bytes as a big-endian number.
pub open spec fn big_endian(bytes: [u8; 4]) -> int {
    bytes@[0] * 16777216 + bytes@[1] * 65536 + bytes@[2] * 256 + bytes@[3]
}

/// Whether bit depth `depth` goes with color type `color`: gray takes
/// any, a palette up to eight, the others eight or sixteen.
pub open spec fn depth_allowed(color: u8, depth: u8) -> bool {
    if color == 0 {
        depth == 1 || depth == 2 || depth == 4 || depth == 8 || depth == 16
    } else if color == 3 {
        depth == 1 || depth == 2 || depth == 4 || depth == 8
    } else {
        depth == 8 || depth == 16
    }
}

/// What an IHDR chunk's data declares, or the message it is refused with.
pub open spec fn header_decision(data: Seq<u8>) -> Result<Header, Seq<char>> {
    if data.len() != 13 {
        Err("bad IHDR length"@)
    } else {
        let depth = data[8];
        let color = data[9];
        if !(color == 0 || color == 2 || color == 3 || color == 4 || color == 6) {
            Err("bad color type "@ + decimal(color as nat))
        } else if !depth_allowed(color, depth) {
            Err("bad bit depth "@ + decimal(depth as nat) + " for color type "@ + decimal(color as nat))
        } else if data[10] != 0 || data[11] != 0 || data[12] > 1 {
            Err("unknown compression, filter, or interlace method"@)
        } else {
            Ok(
                Header {
                    width: (data[0] * 16777216 + data[1] * 65536 + data[2] * 256 + data[3]) as u32,
                    height: (data[4] * 16777216 + data[5] * 65536 + data[6] * 256 + data[7]) as u32,
                    depth,
                    color,
                    interlaced: data[12] == 1,
                },
            )
        }
    }
}

/// The image header an IHDR chunk's data declares. Whether the image's
/// dimensions fit in memory is the image's own check, made after this.
pub fn parse_header(data: &[u8]) -> (r: Result<Header, PngError>)
    ensures
        match (r, header_decision(data@)) {
            (Ok(header), Ok(expected)) => header == expected,
            (Err(error), Err(message)) => error.0@ == message,
            _ => false,
        },
{
    if data.len() != 13 {
        return Err(error("bad IHDR length"));
    }
    let width = (data[0] as u32) * 16777216 + (data[1] as u32) * 65536 + (data[2] as u32) * 256 + data[3] as u32;
    let height = (data[4] as u32) * 16777216 + (data[5] as u32) * 65536 + (data[6] as u32) * 256 + data[7] as u32;
    let depth = data[8];
    let color = data[9];
    let depth_ok = match color {
        0 => depth == 1 || depth == 2 || depth == 4 || depth == 8 || depth == 16,
        3 => depth == 1 || depth == 2 || depth == 4 || depth == 8,
        2 | 4 | 6 => depth == 8 || depth == 16,
        _ => {
            let mut message = String::from_str("bad color type ");
            push_decimal(&mut message, color as u64);
            return Err(PngError(message));
        },
    };
    if !depth_ok {
        let mut message = String::from_str("bad bit depth ");
        push_decimal(&mut message, depth as u64);
        message.append(" for color type ");
        push_decimal(&mut message, color as u64);
        return Err(PngError(message));
    }
    if data[10] != 0 || data[11] != 0 || data[12] > 1 {
        return Err(error("unknown compression, filter, or interlace method"));
    }
    Ok(Header { width, height, depth, color, interlaced: data[12] == 1 })
}

/// The palette a PLTE chunk's data holds: one to 256 RGB entries.
pub fn read_palette(data: &[u8]) -> (r: Result<Vec<[u8; 3]>, PngError>)
    ensures
        match r {
            Ok(palette) => {
                &&& data@.len() % 3 == 0 && 0 < data@.len() <= 768
                &&& palette@.len() * 3 == data@.len()
                &&& forall|i: int|
                    0 <= i < palette@.len() ==> #[trigger] palette@[i]@ == data@.subrange(3 * i, 3 * i + 3)
            },
            Err(error) => {
                &&& !(data@.len() % 3 == 0 && 0 < data@.len() <= 768)
                &&& error.0@ == "bad palette length"@
            },
        },
{
    if data.len() % 3 != 0 || data.len() == 0 || data.len() > 768 {
        return Err(error("bad palette length"));
    }
    let mut palette: Vec<[u8; 3]> = Vec::new();
    let mut offset: usize = 0;
    while offset < data.len()
        invariant
            data@.len() % 3 == 0,
            data@.len() <= 768,
            offset <= data@.len(),
            offset == 3 * palette@.len(),
            forall|i: int|
                0 <= i < palette@.len() ==> #[trigger] palette@[i]@ == data@.subrange(3 * i, 3 * i + 3),
        decreases data@.len() - offset,
    {
        let entry = [data[offset], data[offset + 1], data[offset + 2]];
        assert(entry@ =~= data@.subrange(offset as int, offset + 3));
        palette.push(entry);
        offset += 3;
    }
    Ok(palette)
}

/// Notes a skipped chunk type, once.
pub fn note_dropped(dropped: &mut Vec<[u8; 4]>, kind: [u8; 4])
    ensures
        (exists|i: int| 0 <= i < old(dropped)@.len() && old(dropped)@[i]@ == kind@) ==> final(dropped)@ == old(
            dropped,
        )@,
        !(exists|i: int| 0 <= i < old(dropped)@.len() && old(dropped)@[i]@ == kind@) ==> final(dropped)@ == old(
            dropped,
        )@.push(kind),
{
    let mut i: usize = 0;
    while i < dropped.len()
        invariant
            i <= dropped@.len(),
            dropped@ == old(dropped)@,
            forall|j: int| 0 <= j < i ==> dropped@[j]@ != kind@,
        decreases dropped@.len() - i,
    {
        if same_kind(dropped[i], kind) {
            return;
        }
        i += 1;
    }
    dropped.push(kind);
}

/// After the end chunk: the header, once both it and image data came.
pub fn finish_chunks(state: &ChunkState) -> (r: Result<Header, PngError>)
    ensures
        match r {
            Ok(header) => state.header == Some(header) && state.decoding,
            Err(error) => {
                ||| state.header is None && error.0@ == "no IHDR chunk"@
                ||| state.header is Some && !state.decoding && error.0@ == "no IDAT chunk"@
            },
        },
{
    match state.header {
        None => Err(error("no IHDR chunk")),
        Some(header) => if state.decoding {
            Ok(header)
        } else {
            Err(error("no IDAT chunk"))
        },
    }
}

} // verus!
