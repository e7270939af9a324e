//! From the raw output tensor to confidence-filtered candidate boxes.
//!
//! The model's native output is attribute-major: all centre-x values, then
//! all centre-y values, and so on.  `transpose_output` turns it
//! candidate-major; `decode` then reads each row as
//! `[centre x, centre y, width, height, score per class...]`, picks the
//! strongest class (ties go to the lowest index), and keeps the candidate
//! only when that score reaches the confidence threshold.

use vstd::prelude::*;

use crate::boxes::{spec_class_of, Classification, OutputBox, RAW_LIMIT};

verus! {

/// Index of the first maximum of a non-empty run of scores: only a
/// strictly greater later score displaces the best so far.
pub open spec fn spec_arg_best(s: Seq<i64>) -> int
    decreases s.len(),
{
    if s.len() <= 1 {
        0
    } else {
        let t = spec_arg_best(s.drop_last());
        if s.last() > s[t] {
            s.len() - 1
        } else {
            t
        }
    }
}

/// The first maximum is a maximum, and everything before it is smaller.
pub proof fn lemma_arg_best_props(s: Seq<i64>)
    requires
        s.len() >= 1,
    ensures
        0 <= spec_arg_best(s) < s.len(),
        forall|j: int| 0 <= j < s.len() ==> #[trigger] s[j] <= s[spec_arg_best(s)],
        forall|j: int| 0 <= j < spec_arg_best(s) ==> #[trigger] s[j] < s[spec_arg_best(s)],
    decreases s.len(),
{
    if s.len() > 1 {
        lemma_arg_best_props(s.drop_last());
        let t = spec_arg_best(s.drop_last());
        assert forall|j: int| 0 <= j < s.len() implies #[trigger] s[j] <= s[spec_arg_best(s)] by {
            if j < s.len() - 1 {
                assert(s.drop_last()[j] == s[j]);
                assert(s.drop_last()[t] == s[t]);
                assert(s.drop_last()[j] <= s.drop_last()[t]);
            }
        }
        assert forall|j: int| 0 <= j < spec_arg_best(s) implies #[trigger] s[j] < s[spec_arg_best(s)] by {
            if spec_arg_best(s) == s.len() - 1 {
                assert(s.drop_last()[j] == s[j]);
                assert(s.drop_last()[j] <= s.drop_last()[t]);
            } else {
                assert(s.drop_last()[j] == s[j]);
                assert(s.drop_last()[j] < s.drop_last()[t]);
            }
        }
    }
}

/// The per-class scores of a candidate row.
pub open spec fn spec_row_scores(row: Seq<i64>) -> Seq<i64> {
    row.skip(4)
}

/// The strongest class score of a row.
pub open spec fn spec_row_probability(row: Seq<i64>) -> i64 {
    spec_row_scores(row)[spec_arg_best(spec_row_scores(row))]
}

/// The candidate a row decodes to: centre-form geometry turned into exact
/// half-unit corners, the strongest score as probability, its index as the
/// class.
pub open spec fn spec_box_of_row(row: Seq<i64>) -> OutputBox {
    OutputBox {
        left: (2 * row[0] - row[2]) as i64,
        top: (2 * row[1] - row[3]) as i64,
        right: (2 * row[0] + row[2]) as i64,
        bottom: (2 * row[1] + row[3]) as i64,
        width: (2 * row[2]) as i64,
        height: (2 * row[3]) as i64,
        probability: spec_row_probability(row),
        classification: spec_class_of(spec_arg_best(spec_row_scores(row))),
    }
}

/// A row the decoder accepts: four geometry values in range, then at least
/// one class score.
pub open spec fn row_wf(row: Seq<i64>) -> bool {
    &&& row.len() >= 5
    &&& forall|j: int| 0 <= j < 4 ==> -RAW_LIMIT <= #[trigger] row[j] <= RAW_LIMIT
}

pub open spec fn rows_wf(rows: Seq<Seq<i64>>) -> bool {
    forall|i: int| 0 <= i < rows.len() ==> row_wf(#[trigger] rows[i])
}

/// The decoded, confidence-filtered candidates of a run of rows, in row
/// order.  A row enters the result exactly when its strongest class score
/// reaches the threshold; a strictly lower score discards it.
pub open spec fn spec_decode(rows: Seq<Seq<i64>>, confidence_threshold: i64) -> Seq<OutputBox>
    decreases rows.len(),
{
    if rows.len() == 0 {
        Seq::empty()
    } else {
        let rest = spec_decode(rows.drop_last(), confidence_threshold);
        if spec_row_probability(rows.last()) >= confidence_threshold {
            rest.push(spec_box_of_row(rows.last()))
        } else {
            rest
        }
    }
}

/// Every decoded candidate is well-formed and reached the threshold.
pub proof fn lemma_decode_boxes(rows: Seq<Seq<i64>>, confidence_threshold: i64)
    requires
        rows_wf(rows),
    ensures
        forall|i: int|
            0 <= i < spec_decode(rows, confidence_threshold).len() ==> (#[trigger] spec_decode(
                rows,
                confidence_threshold,
            )[i]).wf() && spec_decode(rows, confidence_threshold)[i].probability
                >= confidence_threshold,
    decreases rows.len(),
{
    if rows.len() > 0 {
        assert(rows_wf(rows.drop_last())) by {
            assert forall|i: int| 0 <= i < rows.drop_last().len() implies row_wf(
                #[trigger] rows.drop_last()[i],
            ) by {
                assert(rows.drop_last()[i] == rows[i]);
            }
        }
        lemma_decode_boxes(rows.drop_last(), confidence_threshold);
        let row = rows.last();
        assert(row_wf(row)) by {
            assert(rows[rows.len() - 1] == row);
        }
        if spec_row_probability(row) >= confidence_threshold {
            assert(spec_box_of_row(row).wf());
        }
    }
}

/// A row whose class scores all sit strictly below the threshold
/// contributes nothing to the decoded run.
pub proof fn lemma_low_row_dropped(rows: Seq<Seq<i64>>, row: Seq<i64>, confidence_threshold: i64)
    requires
        row.len() >= 5,
        forall|j: int| 4 <= j < row.len() ==> #[trigger] row[j] < confidence_threshold,
    ensures
        spec_decode(rows.push(row), confidence_threshold) == spec_decode(
            rows,
            confidence_threshold,
        ),
{
    assert(rows.push(row).drop_last() =~= rows);
    assert(rows.push(row).last() == row);
    let scores = spec_row_scores(row);
    lemma_arg_best_props(scores);
    assert(scores[spec_arg_best(scores)] == row[spec_arg_best(scores) + 4]);
    assert(spec_row_probability(row) < confidence_threshold);
}

/// When no row reaches the threshold, nothing is decoded at all.
pub proof fn lemma_all_low_decode_empty(rows: Seq<Seq<i64>>, confidence_threshold: i64)
    requires
        forall|i: int|
            0 <= i < rows.len() ==> (#[trigger] rows[i]).len() >= 5 && forall|j: int|
                4 <= j < rows[i].len() ==> #[trigger] rows[i][j] < confidence_threshold,
    ensures
        spec_decode(rows, confidence_threshold) == Seq::<OutputBox>::empty(),
    decreases rows.len(),
{
    if rows.len() > 0 {
        assert forall|i: int| 0 <= i < rows.drop_last().len() implies (#[trigger] rows.drop_last()[i]).len()
            >= 5 && forall|j: int|
            4 <= j < rows.drop_last()[i].len() ==> #[trigger] rows.drop_last()[i][j]
                < confidence_threshold by {
            assert(rows.drop_last()[i] == rows[i]);
        }
        lemma_all_low_decode_empty(rows.drop_last(), confidence_threshold);
        let row = rows.last();
        assert(rows[rows.len() - 1] == row);
        let scores = spec_row_scores(row);
        lemma_arg_best_props(scores);
        assert(scores[spec_arg_best(scores)] == row[spec_arg_best(scores) + 4]);
        assert(spec_row_probability(row) < confidence_threshold);
    }
}

/// The first maximum among a row's class scores, with its value.
fn best_class(row: &Vec<i64>) -> (r: (usize, i64))
    requires
        row@.len() >= 5,
    ensures
        r.0 == spec_arg_best(spec_row_scores(row@)),
        r.1 == spec_row_probability(row@),
{
    let ghost scores = row@.skip(4);
    let mut best_index: usize = 0;
    let mut best_value: i64 = row[4];
    let mut k: usize = 5;
    while k < row.len()
        invariant
            5 <= k <= row@.len(),
            best_index == spec_arg_best(scores.take(k - 4)),
            0 <= best_index < k - 4,
            best_value == scores[best_index as int],
            scores == row@.skip(4),
        decreases row@.len() - k,
    {
        let value = row[k];
        proof {
            assert(scores.take(k - 4 + 1).drop_last() =~= scores.take(k - 4));
            assert(scores.take(k - 4 + 1).last() == row@[k as int]);
            let t = spec_arg_best(scores.take(k - 4));
            assert(scores.take(k - 4)[t] == scores[t]);
        }
        if value > best_value {
            best_index = k - 4;
            best_value = value;
        }
        k += 1;
    }
    proof {
        assert(scores.take(row@.len() - 4) =~= scores);
    }
    (best_index, best_value)
}

/// Decodes every candidate row, keeping those whose strongest class score
/// reaches the confidence threshold.
pub fn decode(rows: &Vec<Vec<i64>>, confidence_threshold: i64) -> (r: Vec<OutputBox>)
    requires
        rows_wf(rows@.map_values(|v: Vec<i64>| v@)),
    ensures
        r@ == spec_decode(rows@.map_values(|v: Vec<i64>| v@), confidence_threshold),
{
    let ghost mapped = rows@.map_values(|v: Vec<i64>| v@);
    let mut result: Vec<OutputBox> = Vec::new();
    let mut i: usize = 0;
    while i < rows.len()
        invariant
            i <= rows.len(),
            mapped == rows@.map_values(|v: Vec<i64>| v@),
            rows_wf(mapped),
            result@ == spec_decode(mapped.take(i as int), confidence_threshold),
        decreases rows.len() - i,
    {
        let row = &rows[i];
        proof {
            assert(mapped[i as int] == row@);
            assert(row_wf(row@));
            assert(mapped.take(i + 1).drop_last() =~= mapped.take(i as int));
            assert(mapped.take(i + 1).last() == row@);
        }
        let (best_index, best_value) = best_class(row);
        if best_value >= confidence_threshold {
            let b = crate::boxes::OutputBox::new(
                row[0],
                row[1],
                row[2],
                row[3],
                best_value,
                Classification::from(best_index),
            );
            assert(b == spec_box_of_row(row@));
            result.push(b);
        }
        i += 1;
    }
    proof {
        assert(mapped.take(mapped.len() as int) =~= mapped);
    }
    result
}

/// Turns the attribute-major flat tensor candidate-major: one row per
/// candidate, holding its geometry values and class scores.
pub fn transpose_output(data: &Vec<i64>, attributes: usize, candidates: usize) -> (r: Vec<
    Vec<i64>,
>)
    requires
        data@.len() == attributes * candidates,
    ensures
        r@.len() == candidates,
        forall|i: int| 0 <= i < candidates ==> (#[trigger] r@[i])@.len() == attributes,
        forall|i: int, a: int|
            0 <= i < candidates && 0 <= a < attributes ==> #[trigger] r@[i]@[a] == data@[a
                * candidates + i],
{
    let mut result: Vec<Vec<i64>> = Vec::new();
    let mut i: usize = 0;
    while i < candidates
        invariant
            i <= candidates,
            data@.len() == attributes * candidates,
            result@.len() == i,
            forall|i2: int| 0 <= i2 < i ==> (#[trigger] result@[i2])@.len() == attributes,
            forall|i2: int, a: int|
                0 <= i2 < i && 0 <= a < attributes ==> #[trigger] result@[i2]@[a] == data@[a
                    * candidates + i2],
        decreases candidates - i,
    {
        let mut row: Vec<i64> = Vec::new();
        let mut a: usize = 0;
        while a < attributes
            invariant
                a <= attributes,
                i < candidates,
                data@.len() == attributes * candidates,
                row@.len() == a,
                forall|a2: int| 0 <= a2 < a ==> row@[a2] == data@[a2 * candidates + i],
            decreases attributes - a,
        {
            proof {
                assert(data.len() == data@.len());
                assert(0 <= a * candidates && a * candidates + i < attributes * candidates) by (nonlinear_arith)
                    requires
                        0 <= a < attributes,
                        0 <= i < candidates,
                ;
            }
            row.push(data[a * candidates + i]);
            a += 1;
        }
        result.push(row);
        i += 1;
    }
    result
}

} // verus!
