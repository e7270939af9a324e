//! Candidate boxes, detections, and the intersection-over-union measure.
//!
//! All geometry is kept in exact integers.  The decoder receives a
//! candidate's centre and size in whatever fixed-point scale the caller
//! chose; a box stores its corners in *half-units* of that scale, so that
//! `centre - size/2` and `centre + size/2` are `2*centre - size` and
//! `2*centre + size`, both exact.  The stored `width` and `height` are in
//! the same half-units, so `right - left == width` holds on every
//! well-formed box.  IOU is a ratio of areas and so does not depend on the
//! unit; a threshold is passed as an exact fraction `num / den`.

use vstd::prelude::*;
use vstd::math::{max, min};

verus! {

/// Largest magnitude allowed for a raw centre/size value handed to the
/// decoder.  Keeps every corner below `BOX_LIMIT` in half-units.
pub const RAW_LIMIT: i64 = 0x1000_0000;

/// Largest magnitude a corner of a well-formed box may have.
pub const BOX_LIMIT: i64 = 0x4000_0000;

/// Largest numerator and denominator of the IOU threshold fraction.
/// Together with `BOX_LIMIT` this keeps the cross-multiplied comparison
/// inside `i128`.
pub const THRESHOLD_LIMIT: i64 = 0x4000_0000;

/// The closed set of classes the model is trained on.
#[derive(Clone, Copy, Debug, PartialEq, Eq, Structural)]
pub enum Classification {
    Normal,
    Incipient,
}

/// Class assigned to a candidate from the index of its highest-scoring
/// class channel.  An index outside the known range maps to a defined
/// fallback class rather than failing.
pub open spec fn spec_class_of(index: int) -> Classification {
    if index == 0 {
        Classification::Normal
    } else {
        Classification::Incipient
    }
}

impl From<usize> for Classification {
    fn from(value: usize) -> (c: Self) {
        match value {
            0 => Self::Normal,
            1 => Self::Incipient,
            _ => Self::Incipient,
        }
    }
}

impl vstd::std_specs::convert::FromSpecImpl<usize> for Classification {
    open spec fn obeys_from_spec() -> bool {
        true
    }

    open spec fn from_spec(value: usize) -> Classification {
        spec_class_of(value as int)
    }
}

/// A decoded candidate: corners, size, confidence and class.  Geometry is
/// in half-units (see the module doc).
#[derive(Clone, Copy)]
pub struct OutputBox {
    pub left: i64,
    pub top: i64,
    pub right: i64,
    pub bottom: i64,
    pub width: i64,
    pub height: i64,
    pub probability: i64,
    pub classification: Classification,
}

/// The externally visible unit: top-left corner, size, confidence and
/// class, in the same half-units as the box it came from.
#[derive(Clone, Copy, Debug, PartialEq, Eq, Structural)]
pub struct ResultBox {
    pub x: i64,
    pub y: i64,
    pub width: i64,
    pub height: i64,
    pub probability: i64,
    pub classification: Classification,
}

/// A box's corner rectangle, as unbounded integers, for stating geometry.
pub struct Rect {
    pub left: int,
    pub top: int,
    pub right: int,
    pub bottom: int,
}

impl OutputBox {
    /// Bounded corners, and a size that agrees with the corners.
    pub open spec fn wf(self) -> bool {
        &&& -BOX_LIMIT <= self.left <= BOX_LIMIT
        &&& -BOX_LIMIT <= self.top <= BOX_LIMIT
        &&& -BOX_LIMIT <= self.right <= BOX_LIMIT
        &&& -BOX_LIMIT <= self.bottom <= BOX_LIMIT
        &&& self.right - self.left == self.width
        &&& self.bottom - self.top == self.height
    }

    /// Builds a candidate from centre-form geometry.  The corners are the
    /// exact half-unit values `2*centre ± size`.
    pub fn new(
        x_center: i64,
        y_center: i64,
        width: i64,
        height: i64,
        probability: i64,
        classification: Classification,
    ) -> (b: OutputBox)
        requires
            -RAW_LIMIT <= x_center <= RAW_LIMIT,
            -RAW_LIMIT <= y_center <= RAW_LIMIT,
            -RAW_LIMIT <= width <= RAW_LIMIT,
            -RAW_LIMIT <= height <= RAW_LIMIT,
        ensures
            b.left == 2 * x_center - width,
            b.top == 2 * y_center - height,
            b.right == 2 * x_center + width,
            b.bottom == 2 * y_center + height,
            b.width == 2 * width,
            b.height == 2 * height,
            b.probability == probability,
            b.classification == classification,
            b.wf(),
    {
        let left = 2 * x_center - width;
        let top = 2 * y_center - height;
        let right = 2 * x_center + width;
        let bottom = 2 * y_center + height;

        OutputBox {
            left,
            top,
            right,
            bottom,
            width: 2 * width,
            height: 2 * height,
            probability,
            classification,
        }
    }

    pub fn into_result_box(self) -> (r: ResultBox)
        ensures
            r == spec_to_result(self),
    {
        ResultBox {
            x: self.left,
            y: self.top,
            width: self.width,
            height: self.height,
            probability: self.probability,
            classification: self.classification,
        }
    }
}

/// The detection a candidate turns into: its top-left corner and size.
pub open spec fn spec_to_result(b: OutputBox) -> ResultBox {
    ResultBox {
        x: b.left,
        y: b.top,
        width: b.width,
        height: b.height,
        probability: b.probability,
        classification: b.classification,
    }
}

pub open spec fn rect_of(b: OutputBox) -> Rect {
    Rect { left: b.left as int, top: b.top as int, right: b.right as int, bottom: b.bottom as int }
}

pub open spec fn rect_of_result(r: ResultBox) -> Rect {
    Rect { left: r.x as int, top: r.y as int, right: r.x + r.width, bottom: r.y + r.height }
}

/// Area of the corner-rectangle overlap; zero or negative overlap in
/// either direction contributes zero, never a negative area.
pub open spec fn spec_intersection(a: Rect, b: Rect) -> int {
    max(0, min(a.right, b.right) - max(a.left, b.left)) * max(
        0,
        min(a.bottom, b.bottom) - max(a.top, b.top),
    )
}

pub open spec fn spec_area(a: Rect) -> int {
    (a.right - a.left) * (a.bottom - a.top)
}

pub open spec fn spec_union(a: Rect, b: Rect) -> int {
    spec_area(a) + spec_area(b) - spec_intersection(a, b)
}

/// `IOU(a, b) >= num / den`, the condition on which a box is suppressed.
/// A degenerate union (zero or negative area) never reaches the bar: such
/// a comparison is treated as IOU zero and drops nothing.
pub open spec fn spec_iou_ge(a: Rect, b: Rect, num: int, den: int) -> bool {
    &&& spec_union(a, b) > 0
    &&& spec_intersection(a, b) * den >= spec_union(a, b) * num
}

/// IOU does not depend on the order of its arguments.
pub proof fn lemma_iou_symmetric(a: Rect, b: Rect, num: int, den: int)
    ensures
        spec_iou_ge(a, b, num, den) == spec_iou_ge(b, a, num, den),
{
    assert(spec_intersection(a, b) == spec_intersection(b, a));
    assert(spec_union(a, b) == spec_union(b, a));
}

/// Product of two values stays within the product of their bounds.
proof fn lemma_mul_bound(x: int, y: int, bx: int, by: int)
    by (nonlinear_arith)
    requires
        -bx <= x <= bx,
        -by <= y <= by,
        0 <= bx,
        0 <= by,
    ensures
        -(bx * by) <= x * y <= bx * by,
{
}

/// Decides `IOU(a, b) >= num / den` exactly, by cross-multiplication.
pub fn iou_at_least(a: &OutputBox, b: &OutputBox, num: i64, den: i64) -> (r: bool)
    requires
        a.wf(),
        b.wf(),
        0 <= num <= THRESHOLD_LIMIT,
        0 < den <= THRESHOLD_LIMIT,
    ensures
        r == spec_iou_ge(rect_of(*a), rect_of(*b), num as int, den as int),
{
    let intersect_left = if a.left >= b.left { a.left } else { b.left };
    let intersect_top = if a.top >= b.top { a.top } else { b.top };
    let intersect_right = if a.right <= b.right { a.right } else { b.right };
    let intersect_bottom = if a.bottom <= b.bottom { a.bottom } else { b.bottom };

    let intersect_width = if intersect_right > intersect_left {
        intersect_right - intersect_left
    } else {
        0
    };
    let intersect_height = if intersect_bottom > intersect_top {
        intersect_bottom - intersect_top
    } else {
        0
    };

    proof {
        lemma_mul_bound(intersect_width as int, intersect_height as int, 2 * BOX_LIMIT, 2 * BOX_LIMIT);
        lemma_mul_bound(a.width as int, a.height as int, 2 * BOX_LIMIT, 2 * BOX_LIMIT);
        lemma_mul_bound(b.width as int, b.height as int, 2 * BOX_LIMIT, 2 * BOX_LIMIT);
    }
    let intersection: i128 = (intersect_width as i128) * (intersect_height as i128);
    let box1_area: i128 = (a.width as i128) * (a.height as i128);
    let box2_area: i128 = (b.width as i128) * (b.height as i128);
    let union_area: i128 = box1_area + box2_area - intersection;

    assert(intersection == spec_intersection(rect_of(*a), rect_of(*b)));
    assert(union_area == spec_union(rect_of(*a), rect_of(*b)));

    if union_area <= 0 {
        return false;
    }
    proof {
        lemma_mul_bound(intersection as int, den as int, 0x10_0000_0000_0000_0000, THRESHOLD_LIMIT as int);
        lemma_mul_bound(union_area as int, num as int, 0x30_0000_0000_0000_0000, THRESHOLD_LIMIT as int);
    }
    intersection * (den as i128) >= union_area * (num as i128)
}

} // verus!
