//! The detection pipeline from the raw output tensor to the final,
//! ordered detections.
//!
//! The inference runtime itself is the caller's: it turns the preprocessed
//! tensor into the model's raw output and hands the flat, attribute-major
//! numbers here (scaled to fixed-point integers).  Everything after that
//! native call is verified: transposing to candidate rows, decoding and
//! confidence filtering, sorting, and greedy IOU suppression.

use vstd::prelude::*;

use crate::boxes::{
    rect_of, rect_of_result, spec_iou_ge, spec_to_result, OutputBox, ResultBox, RAW_LIMIT,
    THRESHOLD_LIMIT,
};
use crate::decode::{
    decode, lemma_all_low_decode_empty, lemma_decode_boxes, row_wf, rows_wf, spec_decode,
    transpose_output,
};
use crate::suppress::{
    all_wf, filter_and_suppress, lemma_nms_membership, lemma_sort_desc_membership,
    pairwise_separated, prob_sorted_desc, spec_nms, spec_sort_desc,
};

verus! {

/// What the decoder asks of a raw output tensor: at least the four
/// geometry attributes and one class score per candidate, the flat data in
/// attribute-major order, and the geometry values within decoding range.
pub open spec fn raw_output_wf(data: Seq<i64>, attributes: int, candidates: int) -> bool {
    &&& attributes >= 5
    &&& candidates >= 0
    &&& data.len() == attributes * candidates
    &&& forall|a: int, i: int|
        0 <= a < 4 && 0 <= i < candidates ==> -RAW_LIMIT <= #[trigger] data[a * candidates + i]
            <= RAW_LIMIT
}

/// The candidate rows of the attribute-major flat tensor.
pub open spec fn spec_rows(data: Seq<i64>, attributes: int, candidates: int) -> Seq<Seq<i64>> {
    Seq::new(
        candidates as nat,
        |i: int| Seq::new(attributes as nat, |a: int| data[a * candidates + i]),
    )
}

/// The detections of one inference call: transpose the raw output, decode
/// and confidence-filter the candidates, sort them strongest first, and
/// suppress duplicates.
pub open spec fn spec_detect(
    data: Seq<i64>,
    attributes: int,
    candidates: int,
    confidence_threshold: i64,
    iou_num: int,
    iou_den: int,
) -> Seq<ResultBox> {
    spec_nms(
        spec_sort_desc(spec_decode(spec_rows(data, attributes, candidates), confidence_threshold)),
        iou_num,
        iou_den,
    ).map_values(|b: OutputBox| spec_to_result(b))
}

/// Turns one raw output tensor into the ordered detections.
///
/// The result is exactly `spec_detect` of the input; in particular the
/// detections come out in descending probability order, every one reached
/// the confidence threshold, no two of them reach the IOU threshold
/// against each other, and an empty result is an ordinary outcome.
pub fn detect(
    data: &Vec<i64>,
    attributes: usize,
    candidates: usize,
    confidence_threshold: i64,
    iou_num: i64,
    iou_den: i64,
) -> (r: Vec<ResultBox>)
    requires
        raw_output_wf(data@, attributes as int, candidates as int),
        0 <= iou_num <= THRESHOLD_LIMIT,
        0 < iou_den <= THRESHOLD_LIMIT,
    ensures
        r@ == spec_detect(
            data@,
            attributes as int,
            candidates as int,
            confidence_threshold,
            iou_num as int,
            iou_den as int,
        ),
        forall|i: int, j: int|
            0 <= i < j < r@.len() ==> (#[trigger] r@[i]).probability >= (#[trigger] r@[j]).probability,
        forall|i: int, j: int|
            0 <= i < r@.len() && 0 <= j < r@.len() && i != j ==> !spec_iou_ge(
                rect_of_result(#[trigger] r@[i]),
                rect_of_result(#[trigger] r@[j]),
                iou_num as int,
                iou_den as int,
            ),
        forall|i: int| 0 <= i < r@.len() ==> (#[trigger] r@[i]).probability >= confidence_threshold,
{
    let ghost cand = candidates as int;
    let ghost attr = attributes as int;
    let rows = transpose_output(data, attributes, candidates);
    let ghost mapped = rows@.map_values(|v: Vec<i64>| v@);
    let ghost sr = spec_rows(data@, attr, cand);
    proof {
        assert forall|i: int| 0 <= i < cand implies mapped[i] == sr[i] by {
            assert(mapped[i] == rows@[i]@);
            assert forall|a: int| 0 <= a < attr implies rows@[i]@[a] == data@[a * cand + i] by {}
            assert(rows@[i]@ =~= sr[i]);
        }
        assert(mapped =~= sr);
        assert(rows_wf(mapped)) by {
            assert forall|i: int| 0 <= i < mapped.len() implies row_wf(#[trigger] mapped[i]) by {
                assert(mapped[i] == rows@[i]@);
                assert forall|j: int| 0 <= j < 4 implies -RAW_LIMIT <= #[trigger] mapped[i][j]
                    <= RAW_LIMIT by {
                    assert(mapped[i][j] == data@[j * cand + i]);
                }
            }
        }
    }
    let boxes = decode(&rows, confidence_threshold);
    proof {
        lemma_decode_boxes(mapped, confidence_threshold);
        assert(all_wf(boxes@));
    }
    let ghost decoded = boxes@;
    let r = filter_and_suppress(boxes, iou_num, iou_den);
    proof {
        let ghost num = iou_num as int;
        let ghost den = iou_den as int;
        let selected = spec_nms(spec_sort_desc(decoded), num, den);
        lemma_nms_membership(spec_sort_desc(decoded), num, den);
        lemma_sort_desc_membership(decoded);
        assert forall|i: int| 0 <= i < selected.len() implies (#[trigger] selected[i]).probability
            >= confidence_threshold by {
            assert(selected.contains(selected[i]));
            assert(spec_sort_desc(decoded).contains(selected[i]));
            assert(decoded.contains(selected[i]));
            let j = choose|j: int| 0 <= j < decoded.len() && decoded[j] == selected[i];
            assert(decoded[j].probability >= confidence_threshold);
        }
        assert forall|i: int, j: int|
            0 <= i < r@.len() && 0 <= j < r@.len() && i != j implies !spec_iou_ge(
            rect_of_result(#[trigger] r@[i]),
            rect_of_result(#[trigger] r@[j]),
            num,
            den,
        ) by {
            assert(r@[i] == spec_to_result(selected[i]));
            assert(r@[j] == spec_to_result(selected[j]));
            assert(selected[i].wf() && selected[j].wf());
            assert(rect_of_result(r@[i]) == rect_of(selected[i]));
            assert(rect_of_result(r@[j]) == rect_of(selected[j]));
        }
    }
    r
}

/// When no candidate's class scores reach the confidence threshold, one
/// call's detections are the empty run: an ordinary result, not an error.
pub proof fn lemma_no_strong_candidate_empty(
    data: Seq<i64>,
    attributes: int,
    candidates: int,
    confidence_threshold: i64,
    iou_num: int,
    iou_den: int,
)
    requires
        attributes >= 5,
        candidates >= 0,
        forall|a: int, i: int|
            4 <= a < attributes && 0 <= i < candidates ==> #[trigger] data[a * candidates + i]
                < confidence_threshold,
    ensures
        spec_detect(data, attributes, candidates, confidence_threshold, iou_num, iou_den)
            == Seq::<ResultBox>::empty(),
{
    let rows = spec_rows(data, attributes, candidates);
    assert forall|i: int| 0 <= i < rows.len() implies (#[trigger] rows[i]).len() >= 5
        && forall|j: int| 4 <= j < rows[i].len() ==> #[trigger] rows[i][j] < confidence_threshold by {
        assert forall|j: int| 4 <= j < rows[i].len() implies #[trigger] rows[i][j]
            < confidence_threshold by {
            assert(rows[i][j] == data[j * candidates + i]);
        }
    }
    lemma_all_low_decode_empty(rows, confidence_threshold);
    assert(spec_decode(rows, confidence_threshold).len() == 0);
    assert(spec_sort_desc(spec_decode(rows, confidence_threshold)).len() == 0);
    assert(spec_nms(
        spec_sort_desc(spec_decode(rows, confidence_threshold)),
        iou_num,
        iou_den,
    ).len() == 0);
    assert(spec_detect(data, attributes, candidates, confidence_threshold, iou_num, iou_den)
        =~= Seq::<ResultBox>::empty());
}

} // verus!
