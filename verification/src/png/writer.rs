//! Encoding PNG rows: each row under the filter with the smallest sum of
//! absolute residuals (the heuristic every encoder uses), tried on every
//! fourth row and kept for the rows between.

use vstd::prelude::*;
use crate::png::reader::{byte_or_zero, predictor, spec_paeth, spec_predict, unfiltered};

verus! {

/// The residuals filter type `filter` leaves of `row` under `above`:
/// each byte less its prediction, modulo 256.
pub open spec fn filtered(filter: u8, row: Seq<u8>, above: Seq<u8>, unit: int) -> Seq<u8> {
    Seq::new(row.len(), |i: int| ((row[i] - predictor(filter, row, above, unit, i)) % 256) as u8)
}

/// A residual's magnitude read as a signed byte.
pub open spec fn magnitude(byte: u8) -> nat {
    if byte < 128 {
        byte as nat
    } else {
        (256 - byte) as nat
    }
}

/// The sum of the residuals' magnitudes, the standard guide to which
/// filter compresses best.
pub open spec fn cost(residuals: Seq<u8>) -> nat
    decreases residuals.len(),
{
    if residuals.len() == 0 {
        0
    } else {
        cost(residuals.drop_last()) + magnitude(residuals.last())
    }
}

/// `cost`, or `u64::MAX` when it passes `limit`.
pub open spec fn capped_cost(residuals: Seq<u8>, limit: u64) -> u64 {
    if cost(residuals) > limit {
        u64::MAX
    } else {
        cost(residuals) as u64
    }
}

/// The trials among `candidates`, in order: a candidate wins when its
/// cost is below the best so far, and a winner whose residuals average a
/// sixteenth or less ends the trials. Gives the winner, and the filter
/// whose residuals were written last: None's residuals are the row
/// itself, already in place, so a win by None writes nothing.
pub open spec fn choose_from(
    candidates: Seq<u8>,
    row: Seq<u8>,
    above: Seq<u8>,
    unit: int,
    best_sum: int,
    best: u8,
    written: u8,
) -> (u8, u8)
    decreases candidates.len(),
{
    if candidates.len() == 0 {
        (best, written)
    } else {
        let candidate = candidates[0];
        let sum = cost(filtered(candidate, row, above, unit));
        if sum < best_sum {
            let now_written = if candidate > 0 {
                candidate
            } else {
                written
            };
            if sum <= row.len() / 16 {
                (candidate, now_written)
            } else {
                choose_from(candidates.drop_first(), row, above, unit, sum as int, candidate, now_written)
            }
        } else {
            choose_from(candidates.drop_first(), row, above, unit, best_sum, best, written)
        }
    }
}

/// The order of the trials: Sub first, since it wins most rows and a low
/// early bar cuts the others short; None last.
pub open spec fn trial_order() -> Seq<u8> {
    seq![1u8, 2, 3, 4, 0]
}

/// The filter trials pick for a row, and the filter of the residuals
/// written for it.
pub open spec fn trials(row: Seq<u8>, above: Seq<u8>, unit: int) -> (u8, u8) {
    choose_from(trial_order(), row, above, unit, u64::MAX as int, 0, 0)
}

proof fn lemma_cost_bound(residuals: Seq<u8>)
    ensures
        cost(residuals) <= 128 * residuals.len(),
    decreases residuals.len(),
{
    if residuals.len() > 0 {
        lemma_cost_bound(residuals.drop_last());
    }
}

/// The cost of a longer prefix adds the magnitudes of the bytes added.
proof fn lemma_cost_prefix(residuals: Seq<u8>, i: int)
    requires
        0 <= i < residuals.len(),
    ensures
        cost(residuals.subrange(0, i + 1)) == cost(residuals.subrange(0, i)) + magnitude(residuals[i]),
{
    assert(residuals.subrange(0, i + 1).drop_last() =~= residuals.subrange(0, i));
}

/// The sum of the residuals' magnitudes (as signed bytes); `u64::MAX` as
/// soon as the running sum, taken a kilobyte at a time, passes `limit`.
fn residual_cost(residuals: &[u8], limit: u64) -> (sum: u64)
    requires
        residuals@.len() * 128 <= u64::MAX,
    ensures
        sum == capped_cost(residuals@, limit),
{
    let mut sum = 0u64;
    let mut start = 0usize;
    let length = residuals.len();
    proof {
        assert(residuals@.subrange(0, 0) =~= Seq::<u8>::empty());
    }
    while start < length
        invariant
            length == residuals@.len(),
            residuals@.len() * 128 <= u64::MAX,
            start <= length,
            sum == cost(residuals@.subrange(0, start as int)),
            sum <= limit,
        decreases length - start,
    {
        let end = if length - start > 1024 {
            start + 1024
        } else {
            length
        };
        let mut index = start;
        while index < end
            invariant
                length == residuals@.len(),
                residuals@.len() * 128 <= u64::MAX,
                start <= index <= end <= length,
                sum == cost(residuals@.subrange(0, index as int)),
            decreases end - index,
        {
            let byte = residuals[index];
            proof {
                lemma_cost_prefix(residuals@, index as int);
                lemma_cost_bound(residuals@.subrange(0, index + 1));
            }
            sum += if byte < 128 {
                byte as u64
            } else {
                256 - byte as u64
            };
            index += 1;
        }
        if sum > limit {
            proof {
                lemma_cost_monotone(residuals@, end as int);
            }
            return u64::MAX;
        }
        start = end;
    }
    proof {
        assert(residuals@.subrange(0, length as int) =~= residuals@);
    }
    sum
}

/// The cost of a prefix is at most the cost of the whole.
proof fn lemma_cost_monotone(residuals: Seq<u8>, i: int)
    requires
        0 <= i <= residuals.len(),
    ensures
        cost(residuals.subrange(0, i)) <= cost(residuals),
    decreases residuals.len() - i,
{
    if i < residuals.len() {
        lemma_cost_prefix(residuals, i);
        lemma_cost_monotone(residuals, i + 1);
    } else {
        assert(residuals.subrange(0, i) =~= residuals);
    }
}

/// Writes the residuals of filter `filter` over `row` into `out`, a byte
/// at a time from the left.
fn apply_filter(filter: u8, row: &[u8], above: &[u8], unit: usize, out: &mut [u8])
    requires
        1 <= unit,
        old(out)@.len() == row@.len(),
        above@.len() == row@.len(),
    ensures
        final(out)@ == filtered(filter, row@, above@, unit as int),
{
    let length = row.len();
    let mut index = 0usize;
    while index < length
        invariant
            1 <= unit,
            length == row@.len(),
            out@.len() == length,
            above@.len() == length,
            index <= length,
            forall|i: int| 0 <= i < index ==> #[trigger] out@[i] == filtered(filter, row@, above@, unit as int)[i],
        decreases length - index,
    {
        let left: u8 = if index >= unit {
            row[index - unit]
        } else {
            0
        };
        let up = above[index];
        let up_left: u8 = if index >= unit {
            above[index - unit]
        } else {
            0
        };
        let predicted = predict_row_byte(filter, left, up, up_left);
        assert(predicted == predictor(filter, row@, above@, unit as int, index as int)) by {
            reveal(predictor);
        }
        out[index] = row[index].wrapping_sub(predicted);
        index += 1;
    }
    assert(out@ =~= filtered(filter, row@, above@, unit as int));
}

/// The prediction for one byte; Paeth in its branch-free form.
fn predict_row_byte(filter: u8, left: u8, up: u8, up_left: u8) -> (predicted: u8)
    ensures
        predicted == spec_predict(filter, left, up, up_left),
{
    if filter == 0 {
        0
    } else if filter == 1 {
        left
    } else if filter == 2 {
        up
    } else if filter == 3 {
        ((left as u16 + up as u16) / 2) as u8
    } else {
        paeth(left, up, up_left)
    }
}

/// Sub: each byte less the byte one pixel to its left.
fn filter_sub(row: &[u8], unit: usize, out: &mut [u8], limit: u64) -> (sum: u64)
    requires
        1 <= unit,
        old(out)@.len() == row@.len(),
        row@.len() * 128 <= u64::MAX,
    ensures
        final(out)@ == filtered(1, row@, row@, unit as int),
        sum == capped_cost(final(out)@, limit),
{
    apply_filter(1, row, row, unit, out);
    residual_cost(out, limit)
}

/// Up: each byte less the byte above it.
fn filter_up(row: &[u8], above: &[u8], out: &mut [u8], limit: u64) -> (sum: u64)
    requires
        old(out)@.len() == row@.len(),
        above@.len() == row@.len(),
        row@.len() * 128 <= u64::MAX,
    ensures
        final(out)@ == filtered(2, row@, above@, 1),
        sum == capped_cost(final(out)@, limit),
{
    apply_filter(2, row, above, 1, out);
    residual_cost(out, limit)
}

/// Average: each byte less the mean of the bytes left and above.
fn filter_average(row: &[u8], above: &[u8], unit: usize, out: &mut [u8], limit: u64) -> (sum: u64)
    requires
        1 <= unit,
        old(out)@.len() == row@.len(),
        above@.len() == row@.len(),
        row@.len() * 128 <= u64::MAX,
    ensures
        final(out)@ == filtered(3, row@, above@, unit as int),
        sum == capped_cost(final(out)@, limit),
{
    apply_filter(3, row, above, unit, out);
    residual_cost(out, limit)
}

/// Paeth: each byte less Paeth's choice among left, above and upper left.
fn filter_paeth(row: &[u8], above: &[u8], unit: usize, out: &mut [u8], limit: u64) -> (sum: u64)
    requires
        1 <= unit,
        old(out)@.len() == row@.len(),
        above@.len() == row@.len(),
        row@.len() * 128 <= u64::MAX,
    ensures
        final(out)@ == filtered(4, row@, above@, unit as int),
        sum == capped_cost(final(out)@, limit),
{
    apply_filter(4, row, above, unit, out);
    residual_cost(out, limit)
}

/// The Paeth predictor in stb_image's formulation: a threshold against
/// three times the corner and two selects, which compile branch-free (a
/// noisy row mispredicts the textbook form once per pixel). It makes the
/// specification's choice.
fn paeth(left: u8, up: u8, up_left: u8) -> (predicted: u8)
    ensures
        predicted == spec_paeth(left, up, up_left),
{
    let threshold = (up_left as i16) * 3 - ((left as i16) + (up as i16));
    let low = if left < up {
        left
    } else {
        up
    };
    let high = if left < up {
        up
    } else {
        left
    };
    let first = if (high as i16) <= threshold {
        low
    } else {
        up_left
    };
    if threshold <= (low as i16) {
        high
    } else {
        first
    }
}

/// `out[at..at + source.len()] = source`.
fn copy_into(out: &mut Vec<u8>, at: usize, source: &[u8])
    requires
        at + source@.len() <= old(out)@.len(),
    ensures
        final(out)@ == old(out)@.subrange(0, at as int) + source@ + old(out)@.subrange(
            at + source@.len(),
            old(out)@.len() as int,
        ),
{
    let ghost initial = out@;
    let total = out.len();
    let mut index = 0usize;
    while index < source.len()
        invariant
            total == initial.len(),
            at + source@.len() <= initial.len(),
            out@.len() == initial.len(),
            index <= source@.len(),
            forall|i: int| 0 <= i < at ==> #[trigger] out@[i] == initial[i],
            forall|i: int| at + source@.len() <= i < initial.len() ==> #[trigger] out@[i] == initial[i],
            forall|i: int| 0 <= i < index ==> #[trigger] out@[at + i] == source@[i],
        decreases source@.len() - index,
    {
        out.set(at + index, source[index]);
        index += 1;
    }
    let ghost expected = initial.subrange(0, at as int) + source@ + initial.subrange(
        at + source@.len(),
        initial.len() as int,
    );
    assert forall|i: int| 0 <= i < out@.len() implies #[trigger] out@[i] == expected[i] by {
        if at <= i < at + source@.len() {
            assert(out@[at + (i - at)] == source@[i - at]);
        }
    }
    assert(out@ =~= expected);
}

/// Filter type None leaves the row as it is.
proof fn lemma_none_is_row(row: Seq<u8>, above: Seq<u8>, unit: int)
    ensures
        filtered(0, row, above, unit) == row,
{
    reveal(predictor);
    assert(filtered(0, row, above, unit) =~= row);
}

/// Writes the residuals of one filter into `scratch` and returns their
/// cost, capped at `limit`.
fn trial(filter: u8, row: &[u8], above: &[u8], unit: usize, scratch: &mut [u8], limit: u64) -> (sum: u64)
    requires
        1 <= unit,
        1 <= filter,
        old(scratch)@.len() == row@.len(),
        above@.len() == row@.len(),
        row@.len() * 128 <= u64::MAX,
    ensures
        final(scratch)@ == filtered(filter, row@, above@, unit as int),
        sum == capped_cost(final(scratch)@, limit),
{
    if filter == 1 {
        proof {
            reveal(predictor);
            assert(filtered(1, row@, row@, unit as int) =~= filtered(1, row@, above@, unit as int));
        }
        filter_sub(row, unit, scratch, limit)
    } else if filter == 2 {
        proof {
            reveal(predictor);
            assert(filtered(2, row@, above@, 1) =~= filtered(2, row@, above@, unit as int));
        }
        filter_up(row, above, scratch, limit)
    } else if filter == 3 {
        filter_average(row, above, unit, scratch, limit)
    } else {
        proof {
            reveal(predictor);
            assert(filtered(4, row@, above@, unit as int) =~= filtered(filter, row@, above@, unit as int));
        }
        filter_paeth(row, above, unit, scratch, limit)
    }
}

/// Appends the row under the filter with the smallest sum of absolute
/// residuals, filter byte first. With `keep`, that filter is used with no
/// trial. Each trial stops as soon as its running sum passes the best so
/// far (libpng's rule), so only the winner is computed in full.
pub fn filter_row(keep: Option<u8>, row: &[u8], above: &[u8], unit: usize, scratch: &mut [u8], out: &mut Vec<u8>) -> (filter: u8)
    requires
        1 <= unit,
        above@.len() == row@.len(),
        old(scratch)@.len() == row@.len(),
        row@.len() * 128 <= u64::MAX,
    ensures
        final(scratch)@.len() == row@.len(),
        keep matches Some(kept) ==> filter == kept && final(out)@ == old(out)@ + seq![kept] + filtered(
            kept,
            row@,
            above@,
            unit as int,
        ),
        keep is None ==> filter == trials(row@, above@, unit as int).0 && final(out)@ == old(out)@ + seq![
            trials(row@, above@, unit as int).1,
        ] + filtered(trials(row@, above@, unit as int).1, row@, above@, unit as int),
{
    let ghost initial = out@;
    let start = out.len();
    out.push(0);
    out.extend_from_slice(row);
    let total = out.len();
    proof {
        lemma_none_is_row(row@, above@, unit as int);
        assert(out@ =~= initial + seq![0u8] + filtered(0, row@, above@, unit as int));
    }
    if let Some(filter) = keep {
        if filter > 0 {
            trial(filter, row, above, unit, scratch, u64::MAX);
            out.set(start, filter);
            copy_into(out, start + 1, scratch);
            proof {
                assert(out@ =~= initial + seq![filter] + filtered(filter, row@, above@, unit as int));
            }
        }
        return filter;
    }
    let order: [u8; 5] = [1, 2, 3, 4, 0];
    let mut best_filter = 0u8;
    let mut best_sum = u64::MAX;
    let ghost mut written = 0u8;
    let mut index = 0usize;
    let mut finished = false;
    proof {
        assert(order@ == trial_order());
        assert(order@.subrange(0, 5) =~= trial_order());
    }
    while index < 5 && !finished
        invariant
            1 <= unit,
            above@.len() == row@.len(),
            scratch@.len() == row@.len(),
            row@.len() * 128 <= u64::MAX,
            order@ == trial_order(),
            index <= 5,
            start == initial.len(),
            total == out@.len(),
            out@ == initial + seq![written] + filtered(written, row@, above@, unit as int),
            finished ==> trials(row@, above@, unit as int) == (best_filter, written),
            !finished ==> trials(row@, above@, unit as int) == choose_from(
                order@.subrange(index as int, 5),
                row@,
                above@,
                unit as int,
                best_sum as int,
                best_filter,
                written,
            ),
        decreases 5 - index,
    {
        let filter = order[index];
        let ghost rest = order@.subrange(index as int, 5);
        proof {
            assert(rest[0] == filter);
            assert(rest.drop_first() =~= order@.subrange(index + 1, 5));
            lemma_cost_bound(filtered(filter, row@, above@, unit as int));
        }
        let sum = if filter == 0 {
            proof {
                lemma_none_is_row(row@, above@, unit as int);
            }
            residual_cost(row, best_sum)
        } else {
            trial(filter, row, above, unit, scratch, best_sum)
        };
        if sum < best_sum {
            best_sum = sum;
            best_filter = filter;
            if filter > 0 {
                out.set(start, filter);
                copy_into(out, start + 1, scratch);
                proof {
                    written = filter;
                    assert(out@ =~= initial + seq![written] + filtered(written, row@, above@, unit as int));
                }
            }
            if sum <= row.len() as u64 / 16 {
                finished = true;
            }
        }
        index += 1;
    }
    best_filter
}

/// A row written under any filter decodes back to itself: the residuals
/// that filter leaves, unfiltered against the same row above, give the
/// row again.
pub proof fn lemma_filter_round_trip(filter: u8, row: Seq<u8>, above: Seq<u8>, unit: int, decoded: Seq<u8>)
    requires
        unit >= 1,
        unfiltered(filter, filtered(filter, row, above, unit), above, unit, decoded),
    ensures
        decoded == row,
{
    let residuals = filtered(filter, row, above, unit);
    assert forall|i: int| 0 <= i < row.len() implies #[trigger] decoded[i] == row[i] by {
        lemma_decoded_prefix(filter, row, above, unit, decoded, i);
    }
    assert(decoded =~= row);
}

proof fn lemma_decoded_prefix(filter: u8, row: Seq<u8>, above: Seq<u8>, unit: int, decoded: Seq<u8>, i: int)
    requires
        unit >= 1,
        unfiltered(filter, filtered(filter, row, above, unit), above, unit, decoded),
        0 <= i < row.len(),
    ensures
        decoded[i] == row[i],
    decreases i,
{
    let residuals = filtered(filter, row, above, unit);
    if i - unit >= 0 {
        lemma_decoded_prefix(filter, row, above, unit, decoded, i - unit);
    }
    lemma_predictor_left(filter, decoded, row, above, unit, i);
    let p = predictor(filter, row, above, unit, i);
    assert(decoded[i] == ((residuals[i] + predictor(filter, decoded, above, unit, i)) % 256) as u8);
    assert(residuals[i] == ((row[i] - p) % 256) as u8);
    assert((((row[i] - p) % 256) as u8 + p) % 256 == row[i]) by (nonlinear_arith);
}

/// A prediction reads the decoded row only one pixel to the left.
proof fn lemma_predictor_left(filter: u8, row: Seq<u8>, other: Seq<u8>, above: Seq<u8>, unit: int, i: int)
    requires
        unit >= 1,
        0 <= i < row.len(),
        row.len() == other.len(),
        i - unit >= 0 ==> row[i - unit] == other[i - unit],
    ensures
        predictor(filter, row, above, unit, i) == predictor(filter, other, above, unit, i),
{
    reveal(predictor);
}


// ----- the stream around the rows -----

/// Filtered rows held before they are deflated into one IDAT chunk.
pub const PART_SIZE: usize = 262144;

/// The IHDR data of an eight-bit image: width and height big-endian, the
/// depth, the color type, and zero compression, filter and interlace
/// methods.
pub open spec fn spec_ihdr_data(width: u32, height: u32, color: u8) -> Seq<u8> {
    seq![
        (width / 16777216) as u8, ((width / 65536) % 256) as u8, ((width / 256) % 256) as u8, (width % 256) as u8,
        (height / 16777216) as u8, ((height / 65536) % 256) as u8, ((height / 256) % 256) as u8, (height % 256) as u8,
        8u8, color, 0u8, 0u8, 0u8,
    ]
}

/// The IHDR data the writer emits for an image of `width` by `height`
/// pixels of PNG color type `color`.
pub fn ihdr_data(width: u32, height: u32, color: u8) -> (data: Vec<u8>)
    ensures
        data@ == spec_ihdr_data(width, height, color),
{
    let mut data: Vec<u8> = Vec::new();
    data.push((width / 16777216) as u8);
    data.push(((width / 65536) % 256) as u8);
    data.push(((width / 256) % 256) as u8);
    data.push((width % 256) as u8);
    data.push((height / 16777216) as u8);
    data.push(((height / 65536) % 256) as u8);
    data.push(((height / 256) % 256) as u8);
    data.push((height % 256) as u8);
    data.push(8);
    data.push(color);
    data.push(0);
    data.push(0);
    data.push(0);
    assert(data@ =~= spec_ihdr_data(width, height, color));
    data
}

/// Where the writer is in the rows of an image.
#[derive(Debug, Clone, Copy, PartialEq, Eq, Structural)]
pub struct RowPlan {
    /// Rows still to come.
    pub rows_left: u32,
    /// Rows written so far.
    pub rows_seen: u32,
    /// The filter the last row was written with.
    pub last_filter: u8,
}

/// What follows a row.
#[derive(Debug, Clone, Copy, PartialEq, Eq, Structural)]
pub enum RowAction {
    /// Keep collecting rows.
    Continue,
    /// Deflate the rows held into an IDAT chunk.
    Part,
    /// Deflate the rest as the final IDAT chunk and write IEND.
    Finish,
}

impl RowPlan {
    /// The plan for an image `height` rows tall.
    pub fn new(height: u32) -> (plan: RowPlan)
        ensures
            plan == (RowPlan { rows_left: height, rows_seen: 0, last_filter: 1 }),
    {
        RowPlan { rows_left: height, rows_seen: 0, last_filter: 1 }
    }

    /// The filter the next row keeps without a trial: none on every fourth
    /// row, where the filters are tried, else the last one chosen.
    pub fn kept_filter(&self) -> (keep: Option<u8>)
        ensures
            keep == (if self.rows_seen % 4 == 0 {
                None
            } else {
                Some(self.last_filter)
            }),
    {
        if self.rows_seen % 4 == 0 {
            None
        } else {
            Some(self.last_filter)
        }
    }

    /// Records a row written with `filter`, with `pending` filtered bytes
    /// now held, and says what comes next: the final part once the last
    /// row is in, a part once enough is held.
    pub fn after_row(&mut self, filter: u8, pending: usize) -> (action: RowAction)
        requires
            old(self).rows_seen < u32::MAX,
        ensures
            final(self).rows_seen == old(self).rows_seen + 1,
            final(self).last_filter == filter,
            final(self).rows_left == (if old(self).rows_left == 0 {
                0
            } else {
                (old(self).rows_left - 1) as u32
            }),
            action == (if final(self).rows_left == 0 {
                RowAction::Finish
            } else if pending >= PART_SIZE {
                RowAction::Part
            } else {
                RowAction::Continue
            }),
    {
        self.rows_seen = self.rows_seen + 1;
        self.last_filter = filter;
        self.rows_left = self.rows_left.saturating_sub(1);
        if self.rows_left == 0 {
            RowAction::Finish
        } else if pending >= PART_SIZE {
            RowAction::Part
        } else {
            RowAction::Continue
        }
    }
}

} // verus!
