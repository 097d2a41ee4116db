//! Decoding PNG rows: the header's sample layout, the five filters undone
//! against the row above, and samples unpacked at every bit depth.
//! Sixteen-bit samples come down to their high byte; bit depths under
//! eight scale up to eight.

use vstd::prelude::*;
use crate::message::{decimal, with_number};

verus! {

/// A decoding failure, with what went wrong in words.
#[derive(Debug, Clone, PartialEq, Eq)]
pub struct PngError(pub String);

/// What the reader dropped, one note per kind.
#[derive(Debug, Default)]
pub struct PngNotes {
    pub sixteen_bit: bool,
    pub dropped_chunks: Vec<[u8; 4]>,
}

/// The pixel layout an image header declares.
#[derive(Debug, Clone, Copy, PartialEq, Eq, Structural)]
pub struct Header {
    pub width: u32,
    pub height: u32,
    pub depth: u8,
    pub color: u8,
    pub interlaced: bool,
}

/// Samples per pixel of a color type: gray and palette one, gray with
/// alpha two, RGB three, RGBA four.
pub open spec fn spec_samples(color: u8) -> nat {
    if color == 0 || color == 3 {
        1
    } else if color == 4 {
        2
    } else if color == 2 {
        3
    } else {
        4
    }
}

impl Header {
    /// Samples per pixel in the file.
    pub fn samples(&self) -> (samples: usize)
        ensures
            samples == spec_samples(self.color),
    {
        match self.color {
            0 | 3 => 1,
            4 => 2,
            2 => 3,
            _ => 4,
        }
    }

    /// Bytes per complete pixel, at least one (for the filters).
    pub fn filter_unit(&self) -> (unit: usize)
        ensures
            unit == if spec_samples(self.color) * self.depth / 8 >= 1 {
                spec_samples(self.color) * self.depth / 8
            } else {
                1
            },
    {
        let bytes = (self.samples() * self.depth as usize) / 8;
        if bytes >= 1 {
            bytes
        } else {
            1
        }
    }

    /// Bytes of a row of `width` pixels, rounded up to whole bytes.
    pub fn row_bytes(&self, width: u32) -> (bytes: usize)
        requires
            width * spec_samples(self.color) <= usize::MAX,
            width * spec_samples(self.color) * self.depth <= usize::MAX,
        ensures
            bytes == (width * spec_samples(self.color) * self.depth + 7) / 8,
    {
        let pixels = width as usize * self.samples();
        let bits = pixels * self.depth as usize;
        bits / 8 + if bits % 8 != 0 {
            1
        } else {
            0
        }
    }
}

// ----- predictors -----

/// The Paeth predictor as the PNG specification states it: of left, up
/// and upper left, the one nearest to `left + up - up_left`, ties going to
/// left, then up.
pub open spec fn spec_paeth(left: u8, up: u8, up_left: u8) -> u8 {
    let p = left + up - up_left;
    let pa = if p >= left { p - left } else { left - p };
    let pb = if p >= up { p - up } else { up - p };
    let pc = if p >= up_left { p - up_left } else { up_left - p };
    if pa <= pb && pa <= pc {
        left
    } else if pb <= pc {
        up
    } else {
        up_left
    }
}

/// The distance between two bytes' values around a prediction `p`.
pub open spec fn distance(p: int, byte: u8) -> int {
    if p >= byte { p - byte } else { byte - p }
}

/// Paeth's rule: with `p = left + up - up_left`, the prediction is the one
/// of left, up and upper left nearest to `p`; on a tie left wins, then up.
pub proof fn lemma_paeth_nearest(left: u8, up: u8, up_left: u8)
    ensures
        ({
            let p = left + up - up_left;
            let r = spec_paeth(left, up, up_left);
            &&& r == left || r == up || r == up_left
            &&& distance(p, r) <= distance(p, left)
            &&& distance(p, r) <= distance(p, up)
            &&& distance(p, r) <= distance(p, up_left)
            &&& (distance(p, left) <= distance(p, up) && distance(p, left) <= distance(p, up_left)) ==> r == left
            &&& (distance(p, left) > distance(p, up) || distance(p, left) > distance(p, up_left)) ==> (distance(p, up)
                <= distance(p, up_left) ==> r == up)
            &&& (distance(p, left) > distance(p, up) || distance(p, left) > distance(p, up_left)) ==> (distance(p, up)
                > distance(p, up_left) ==> r == up_left)
        }),
{
}

/// What each filter type predicts a byte from: none predicts zero, sub
/// the byte to the left, up the byte above, average the floor of the
/// mean of those two, and Paeth (every type past three) one of left, up
/// and upper left.
pub proof fn lemma_predictors(filter: u8, left: u8, up: u8, up_left: u8)
    ensures
        filter == 0 ==> spec_predict(filter, left, up, up_left) == 0,
        filter == 1 ==> spec_predict(filter, left, up, up_left) == left,
        filter == 2 ==> spec_predict(filter, left, up, up_left) == up,
        filter == 3 ==> 2 * spec_predict(filter, left, up, up_left) <= left + up < 2 * spec_predict(
            filter,
            left,
            up,
            up_left,
        ) + 2,
        filter >= 4 ==> spec_predict(filter, left, up, up_left) == spec_paeth(left, up, up_left),
{
}

/// The Paeth predictor.
pub fn paeth(left: u8, up: u8, up_left: u8) -> (predicted: u8)
    ensures
        predicted == spec_paeth(left, up, up_left),
{
    let a = left as i16;
    let b = up as i16;
    let c = up_left as i16;
    let p = a + b - c;
    let pa = if p >= a { p - a } else { a - p };
    let pb = if p >= b { p - b } else { b - p };
    let pc = if p >= c { p - c } else { c - p };
    if pa <= pb && pa <= pc {
        left
    } else if pb <= pc {
        up
    } else {
        up_left
    }
}

/// The byte at `i` of a row, or zero outside it (the row above the first
/// row, and the pixel left of the first pixel, count as zeros).
pub open spec fn byte_or_zero(row: Seq<u8>, i: int) -> u8 {
    if 0 <= i < row.len() {
        row[i]
    } else {
        0
    }
}

/// What filter type `filter` predicts for byte `i` of a row whose
/// unfiltered bytes are `row`, under the row `above`, with pixels of
/// `unit` bytes.
#[verifier::opaque]
pub open spec fn predictor(filter: u8, row: Seq<u8>, above: Seq<u8>, unit: int, i: int) -> u8 {
    spec_predict(filter, byte_or_zero(row, i - unit), byte_or_zero(above, i), byte_or_zero(above, i - unit))
}

/// What filter type `filter` predicts from the bytes left, up and up-left
/// of a byte: nothing, left, up, their mean, or Paeth's choice (every
/// type past three counts as Paeth).
pub open spec fn spec_predict(filter: u8, left: u8, up: u8, up_left: u8) -> u8 {
    if filter == 0 {
        0
    } else if filter == 1 {
        left
    } else if filter == 2 {
        up
    } else if filter == 3 {
        ((left + up) / 2) as u8
    } else {
        spec_paeth(left, up, up_left)
    }
}

/// The prediction of filter type `filter`.
pub fn predict(filter: u8, left: u8, up: u8, up_left: u8) -> (predicted: u8)
    ensures
        predicted == spec_predict(filter, left, up, up_left),
{
    if filter == 0 {
        0
    } else if filter == 1 {
        left
    } else if filter == 2 {
        up
    } else if filter == 3 {
        ((left as u16 + up as u16) / 2) as u8
    } else {
        paeth(left, up, up_left)
    }
}

/// `row` is what filter type `filter` turns into `residuals`: each byte is
/// its residual plus its prediction, modulo 256.
pub open spec fn unfiltered(filter: u8, residuals: Seq<u8>, above: Seq<u8>, unit: int, row: Seq<u8>) -> bool {
    &&& row.len() == residuals.len()
    &&& forall|i: int|
        0 <= i < row.len() ==> #[trigger] row[i] == ((residuals[i] + predictor(filter, row, above, unit, i))
            % 256) as u8
}

/// A prediction reads only the bytes of the row before its own.
proof fn lemma_predictor_prefix(filter: u8, row: Seq<u8>, other: Seq<u8>, above: Seq<u8>, unit: int, i: int)
    requires
        unit >= 1,
        0 <= i <= row.len(),
        i <= other.len(),
        forall|j: int| 0 <= j < i ==> #[trigger] row[j] == other[j],
    ensures
        predictor(filter, row, above, unit, i) == predictor(filter, other, above, unit, i),
{
    reveal(predictor);
    if i - unit >= 0 {
        assert(row[i - unit] == other[i - unit]);
    }
}

/// Undoes the filter of one row; `previous` is the row above, empty for
/// the first.
pub fn unfilter_row(filter: u8, source: &[u8], previous: &[u8], unit: usize, current: &mut [u8]) -> (result:
    Result<(), PngError>)
    requires
        1 <= unit <= 8,
        old(current)@.len() == source@.len(),
        previous@.len() == 0 || previous@.len() == source@.len(),
    ensures
        filter <= 4 ==> result is Ok && unfiltered(filter, source@, previous@, unit as int, final(current)@),
        filter > 4 ==> (result matches Err(PngError(message)) && message@ == "bad filter type "@ + decimal(
            filter as nat,
        )),
{
    if filter > 4 {
        return Err(PngError(with_number("bad filter type ", filter as u64)));
    }
    let mut index = 0usize;
    while index < current.len()
        invariant
            1 <= unit <= 8,
            filter <= 4,
            index <= current@.len(),
            current@.len() == source@.len(),
            previous@.len() == 0 || previous@.len() == source@.len(),
            forall|i: int|
                0 <= i < index ==> #[trigger] current@[i] == ((source@[i] + predictor(
                    filter,
                    current@,
                    previous@,
                    unit as int,
                    i,
                )) % 256) as u8,
        decreases current@.len() - index,
    {
        let left: u8 = if index >= unit {
            current[index - unit]
        } else {
            0
        };
        let up: u8 = if previous.len() > 0 {
            previous[index]
        } else {
            0
        };
        let up_left: u8 = if previous.len() > 0 && index >= unit {
            previous[index - unit]
        } else {
            0
        };
        let predicted = predict(filter, left, up, up_left);
        assert(predicted == predictor(filter, current@, previous@, unit as int, index as int)) by {
            reveal(predictor);
        }
        let ghost before = current@;
        current[index] = source[index].wrapping_add(predicted);
        proof {
            assert forall|i: int| 0 <= i < index + 1 implies #[trigger] current@[i] == ((source@[i]
                + predictor(filter, current@, previous@, unit as int, i)) % 256) as u8 by {
                lemma_predictor_prefix(filter, current@, before, previous@, unit as int, i);
            }
        }
        index += 1;
    }
    Ok(())
}

// ----- samples -----

/// The `index`th sample of a row at bit depth `depth`: a byte, two bytes
/// big-endian, or a group of bits counted from the high end of its byte.
pub open spec fn spec_sample(row: Seq<u8>, index: int, depth: u8) -> u16 {
    if depth == 8 {
        row[index] as u16
    } else if depth == 16 {
        (row[2 * index] * 256 + row[2 * index + 1]) as u16
    } else if depth == 1 || depth == 2 || depth == 4 {
        let per_byte = 8int / (depth as int);
        let shift = 8 - depth * (index % per_byte + 1);
        ((row[index / per_byte] >> (shift as u8)) & low_mask(depth)) as u16
    } else {
        0
    }
}

/// The mask of the low `depth` bits, for depths under eight.
pub open spec fn low_mask(depth: u8) -> u8 {
    if depth == 1 {
        1
    } else if depth == 2 {
        3
    } else {
        15
    }
}

/// Whether the `index`th sample at `depth` lies within a row of `length`
/// bytes.
pub open spec fn sample_fits(length: int, index: int, depth: u8) -> bool {
    if depth == 8 {
        index < length
    } else if depth == 16 {
        2 * index + 1 < length
    } else if depth == 1 || depth == 2 || depth == 4 {
        index / (8int / (depth as int)) < length
    } else {
        true
    }
}

/// The `index`th sample of a row at the file's bit depth.
pub fn sample_bits(row: &[u8], index: usize, depth: u8) -> (sample: u16)
    requires
        sample_fits(row.len() as int, index as int, depth),
    ensures
        sample == spec_sample(row@, index as int, depth),
{
    match depth {
        8 => row[index] as u16,
        16 => {
            let high = row[index * 2] as u16;
            let low = row[index * 2 + 1] as u16;
            high * 256 + low
        },
        1 | 2 | 4 => {
            let per_byte: usize = if depth == 1 {
                8
            } else if depth == 2 {
                4
            } else {
                2
            };
            proof {
                assert(per_byte as int == 8int / (depth as int));
                assert(1 <= depth as usize * (index % per_byte + 1) <= 8) by (nonlinear_arith)
                    requires
                        per_byte * depth == 8,
                        index % per_byte < per_byte,
                        depth >= 1,
                ;
            }
            let byte = row[index / per_byte];
            let shift = 8 - depth as usize * (index % per_byte + 1);
            let mask: u8 = if depth == 1 {
                1
            } else if depth == 2 {
                3
            } else {
                15
            };
            ((byte >> (shift as u8)) & mask) as u16
        },
        _ => 0,
    }
}

/// A sample at `depth` scaled to eight bits.
pub open spec fn spec_scale(sample: u16, depth: u8) -> u8 {
    if depth == 1 {
        (sample * 255) as u8
    } else if depth == 2 {
        (sample * 85) as u8
    } else if depth == 4 {
        (sample * 17) as u8
    } else if depth == 8 {
        (sample % 256) as u8
    } else {
        (sample / 256) as u8
    }
}

/// Scales a sample to eight bits: low depths spread over the whole range,
/// sixteen bits keep their high byte.
pub fn scale_to_byte(sample: u16, depth: u8) -> (byte: u8)
    requires
        depth == 1 ==> sample <= 1,
        depth == 2 ==> sample <= 3,
        depth == 4 ==> sample <= 15,
    ensures
        byte == spec_scale(sample, depth),
{
    match depth {
        1 => (sample as u8) * 255,
        2 => (sample as u8) * 85,
        4 => (sample as u8) * 17,
        8 => (sample % 256) as u8,
        _ => (sample / 256) as u8,
    }
}

/// A tRNS key sample at `offset` (big-endian 16-bit), if present.
pub fn key_value(transparency: &[u8], offset: usize) -> (key: Option<u16>)
    requires
        offset + 2 <= usize::MAX,
    ensures
        key == if transparency@.len() >= offset + 2 {
            Some((transparency@[offset as int] * 256 + transparency@[offset + 1]) as u16)
        } else {
            None::<u16>
        },
{
    if transparency.len() >= offset + 2 {
        Some(transparency[offset] as u16 * 256 + transparency[offset + 1] as u16)
    } else {
        None
    }
}

// ----- Adam7 -----

/// Where each interlace pass starts and how far it steps.
pub open spec fn pass_start_x(pass: int) -> u32 {
    seq![0u32, 4, 0, 2, 0, 1, 0][pass]
}

pub open spec fn pass_start_y(pass: int) -> u32 {
    seq![0u32, 0, 4, 0, 2, 0, 1][pass]
}

pub open spec fn pass_step_x(pass: int) -> u32 {
    seq![8u32, 8, 4, 4, 2, 2, 1][pass]
}

pub open spec fn pass_step_y(pass: int) -> u32 {
    seq![8u32, 8, 8, 4, 4, 2, 2][pass]
}

/// Columns and rows of interlace pass `pass` of an image.
pub fn pass_size(header: &Header, pass: usize) -> (size: (u32, u32))
    requires
        pass < 7,
        header.width + pass_step_x(pass as int) <= u32::MAX,
        header.height + pass_step_y(pass as int) <= u32::MAX,
    ensures
        size.0 == (header.width + pass_step_x(pass as int) - 1 - pass_start_x(pass as int)) / (pass_step_x(
            pass as int,
        ) as int),
        size.1 == (header.height + pass_step_y(pass as int) - 1 - pass_start_y(pass as int)) / (pass_step_y(
            pass as int,
        ) as int),
{
    let start_x: [u32; 7] = [0, 4, 0, 2, 0, 1, 0];
    let start_y: [u32; 7] = [0, 0, 4, 0, 2, 0, 1];
    let step_x: [u32; 7] = [8, 8, 4, 4, 2, 2, 1];
    let step_y: [u32; 7] = [8, 8, 8, 4, 4, 2, 2];
    proof {
        assert(start_x@ == seq![0u32, 4, 0, 2, 0, 1, 0]);
        assert(start_y@ == seq![0u32, 0, 4, 0, 2, 0, 1]);
        assert(step_x@ == seq![8u32, 8, 4, 4, 2, 2, 1]);
        assert(step_y@ == seq![8u32, 8, 8, 4, 4, 2, 2]);
    }
    let w = (header.width + step_x[pass] - 1 - start_x[pass]) / step_x[pass];
    let h = (header.height + step_y[pass] - 1 - start_y[pass]) / step_y[pass];
    (w, h)
}

} // verus!
