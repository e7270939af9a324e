//! End-to-end and component tests of the detection pipeline, on the same
//! fixed-point scale a caller would use: geometry in raw model units
//! (pixels of the 640x640 frame), probabilities scaled by 1000, IOU
//! thresholds as exact fractions.

use detection_core::boxes::{Classification, OutputBox};
use detection_core::decode::{decode, transpose_output};
use detection_core::detector::detect;
use detection_core::suppress::{filter_and_suppress, sort_boxes, suppress};
use detection_core::tensor::{center_square, preprocess, Image};

fn box_a() -> OutputBox {
    OutputBox::new(320, 320, 100, 100, 900, Classification::Normal)
}

fn box_b() -> OutputBox {
    OutputBox::new(325, 320, 100, 100, 800, Classification::Normal)
}

#[test]
fn corner_form_is_exact() {
    let a = box_a();
    assert_eq!(a.left, 540);
    assert_eq!(a.top, 540);
    assert_eq!(a.right, 740);
    assert_eq!(a.bottom, 740);
    assert_eq!(a.width, 200);
    assert_eq!(a.height, 200);
    assert_eq!(a.probability, 900);
    assert_eq!(a.classification, Classification::Normal);
}

#[test]
fn result_box_keeps_top_left_corner() {
    let r = box_a().into_result_box();
    assert_eq!(r.x, 540);
    assert_eq!(r.y, 540);
    assert_eq!(r.width, 200);
    assert_eq!(r.height, 200);
    assert_eq!(r.probability, 900);
    assert_eq!(r.classification, Classification::Normal);
}

#[test]
fn classification_mapping_with_fallback() {
    assert_eq!(Classification::from(0usize), Classification::Normal);
    assert_eq!(Classification::from(1usize), Classification::Incipient);
    // an index outside the known range maps to the fallback class
    assert_eq!(Classification::from(2usize), Classification::Incipient);
    assert_eq!(Classification::from(57usize), Classification::Incipient);
}

#[test]
fn overlapping_pair_yields_single_detection() {
    // the two boxes overlap with IOU 38000/42000, which reaches 3/4
    let out = filter_and_suppress(vec![box_a(), box_b()], 3, 4);
    assert_eq!(out.len(), 1);
    assert_eq!(out[0].x, 540);
    assert_eq!(out[0].y, 540);
    assert_eq!(out[0].width, 200);
    assert_eq!(out[0].height, 200);
    assert_eq!(out[0].probability, 900);
    assert_eq!(out[0].classification, Classification::Normal);
}

#[test]
fn high_threshold_keeps_both_ordered() {
    // the same IOU does not reach 19/20, so both stay, strongest first
    let out = filter_and_suppress(vec![box_b(), box_a()], 19, 20);
    assert_eq!(out.len(), 2);
    assert_eq!(out[0].probability, 900);
    assert_eq!(out[0].x, 540);
    assert_eq!(out[1].probability, 800);
    assert_eq!(out[1].x, 550);
}

#[test]
fn identical_boxes_suppressed_to_one() {
    let out = filter_and_suppress(vec![box_a(), box_a()], 3, 4);
    assert_eq!(out.len(), 1);
    assert_eq!(out[0].probability, 900);
}

#[test]
fn suppression_is_idempotent_on_its_output() {
    let out = filter_and_suppress(vec![box_a(), box_b(), box_a()], 3, 4);
    // rebuild candidates from the surviving detections and suppress again
    let again: Vec<OutputBox> = out
        .iter()
        .map(|r| {
            OutputBox::new(
                (2 * r.x + r.width) / 4,
                (2 * r.y + r.height) / 4,
                r.width / 2,
                r.height / 2,
                r.probability,
                r.classification,
            )
        })
        .collect();
    let second = filter_and_suppress(again, 3, 4);
    assert_eq!(second, out);
}

#[test]
fn degenerate_boxes_are_never_dropped_by_comparison() {
    // zero-area boxes at the same spot: every IOU comparison is degenerate
    // and treated as zero, so suppression keeps them all
    let z = OutputBox::new(100, 100, 0, 0, 500, Classification::Normal);
    let out = filter_and_suppress(vec![z, z, z], 3, 4);
    assert_eq!(out.len(), 3);
}

#[test]
fn empty_input_gives_empty_output() {
    let out = filter_and_suppress(Vec::new(), 3, 4);
    assert!(out.is_empty());
}

#[test]
fn sort_is_descending_and_stable() {
    let far = OutputBox::new(5000, 5000, 10, 10, 700, Classification::Incipient);
    let near = OutputBox::new(100, 100, 10, 10, 700, Classification::Normal);
    let weak = OutputBox::new(200, 200, 10, 10, 100, Classification::Normal);
    let strong = OutputBox::new(300, 300, 10, 10, 900, Classification::Normal);
    let sorted = sort_boxes(&vec![far, weak, near, strong]);
    assert_eq!(sorted.len(), 4);
    assert_eq!(sorted[0].probability, 900);
    // the two 700s keep their input order: far before near
    assert_eq!(sorted[1].left, far.left);
    assert_eq!(sorted[2].left, near.left);
    assert_eq!(sorted[3].probability, 100);
}

#[test]
fn suppress_takes_rounds_in_given_order() {
    // non-overlapping boxes survive in order; suppress assumes its input
    // is already sorted strongest first
    let a = OutputBox::new(100, 100, 10, 10, 900, Classification::Normal);
    let b = OutputBox::new(5000, 5000, 10, 10, 800, Classification::Incipient);
    let out = suppress(vec![a, b], 3, 4);
    assert_eq!(out.len(), 2);
    assert_eq!(out[0].probability, 900);
    assert_eq!(out[1].probability, 800);
}

#[test]
fn decode_picks_first_maximum_and_filters() {
    // two rows: one with a tied maximum (first wins), one below threshold
    let rows = vec![
        vec![320, 320, 100, 100, 500, 500],
        vec![10, 10, 4, 4, 250, 100],
    ];
    let boxes = decode(&rows, 300);
    assert_eq!(boxes.len(), 1);
    assert_eq!(boxes[0].probability, 500);
    assert_eq!(boxes[0].classification, Classification::Normal);
    assert_eq!(boxes[0].left, 540);
}

#[test]
fn decode_maps_extra_classes_to_fallback() {
    // strongest score at class index 2, outside the known enumeration
    let rows = vec![vec![50, 60, 10, 20, 400, 500, 600]];
    let boxes = decode(&rows, 300);
    assert_eq!(boxes.len(), 1);
    assert_eq!(boxes[0].probability, 600);
    assert_eq!(boxes[0].classification, Classification::Incipient);
}

#[test]
fn low_scoring_row_contributes_nothing() {
    // a candidate with its best class score 250 under the 300 bar is
    // dropped entirely, whatever its geometry
    let rows = vec![vec![320, 320, 100, 100, 250]];
    let boxes = decode(&rows, 300);
    assert!(boxes.is_empty());
}

#[test]
fn transpose_turns_attribute_major_into_rows() {
    // two candidates, five attributes, attribute-major
    let data = vec![11, 21, 12, 22, 13, 23, 14, 24, 15, 25];
    let rows = transpose_output(&data, 5, 2);
    assert_eq!(rows.len(), 2);
    assert_eq!(rows[0], vec![11, 12, 13, 14, 15]);
    assert_eq!(rows[1], vec![21, 22, 23, 24, 25]);
}

#[test]
fn detect_end_to_end_suppresses_duplicates() {
    // attribute-major tensor of the two overlapping candidates
    let data = vec![320, 325, 320, 320, 100, 100, 100, 100, 900, 800];
    let out = detect(&data, 5, 2, 300, 3, 4);
    assert_eq!(out.len(), 1);
    assert_eq!(out[0].probability, 900);
    assert_eq!(out[0].x, 540);
    let both = detect(&data, 5, 2, 300, 19, 20);
    assert_eq!(both.len(), 2);
    assert_eq!(both[0].probability, 900);
    assert_eq!(both[1].probability, 800);
}

#[test]
fn detect_with_no_strong_candidate_is_empty() {
    // every class score sits below the confidence threshold
    let data = vec![320, 325, 320, 320, 100, 100, 100, 100, 299, 120];
    let out = detect(&data, 5, 2, 300, 3, 4);
    assert!(out.is_empty());
}

#[test]
fn preprocess_keeps_every_sample_exactly() {
    let mut rgba = vec![0u8; 640 * 640 * 4];
    // pixel (0, 0): a known RGBA sample
    rgba[0] = 255;
    rgba[1] = 128;
    rgba[2] = 7;
    rgba[3] = 9;
    // pixel (10, 20)
    let p = (20 * 640 + 10) * 4;
    rgba[p] = 1;
    rgba[p + 1] = 2;
    rgba[p + 2] = 3;
    rgba[p + 3] = 4;
    // the last pixel (639, 639)
    let q = (639 * 640 + 639) * 4;
    rgba[q] = 200;
    rgba[q + 1] = 201;
    rgba[q + 2] = 202;
    let t = preprocess(&Image { rgba });
    assert_eq!(t.data.len(), 3 * 640 * 640);
    // channel-planar layout: red plane, then green, then blue; alpha gone
    assert_eq!(t.data[0], 255);
    assert_eq!(t.data[409600], 128);
    assert_eq!(t.data[2 * 409600], 7);
    assert_eq!(t.data[20 * 640 + 10], 1);
    assert_eq!(t.data[409600 + 20 * 640 + 10], 2);
    assert_eq!(t.data[2 * 409600 + 20 * 640 + 10], 3);
    assert_eq!(t.data[639 * 640 + 639], 200);
    assert_eq!(t.data[409600 + 639 * 640 + 639], 201);
    assert_eq!(t.data[2 * 409600 + 639 * 640 + 639], 202);
    // scaling the stored 1/255 numerator back by 255 is the identity on
    // the sample, so the round trip is exact by construction
    assert_eq!(t.data[0] as u32 * 255 / 255, 255);
}

#[test]
fn center_square_crops_to_smaller_side() {
    assert_eq!(center_square(1280, 720), (280, 0, 720));
    assert_eq!(center_square(720, 1280), (0, 280, 720));
    assert_eq!(center_square(640, 640), (0, 0, 640));
    assert_eq!(center_square(641, 640), (0, 0, 640));
}

#[test]
fn server_config_holds_startup_values() {
    let config = detection_core::ServerConfig {
        port: 8080,
        database_url: String::from("postgres://localhost/pets"),
        salt: vec![1u8, 2, 3].into_boxed_slice(),
    };
    assert_eq!(config.port, 8080);
    assert_eq!(config.database_url, "postgres://localhost/pets");
    assert_eq!(config.salt.len(), 3);
}
