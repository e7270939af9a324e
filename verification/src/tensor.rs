//! Pixel-to-tensor preprocessing.
//!
//! The model takes one value per channel and pixel, channel-planar (all
//! red values, then all green, then all blue), each the real number
//! `sample / 255` in `[0, 1]`.  The tensor here stores the 8-bit sample
//! itself, i.e. the exact numerator over the fixed denominator 255, so
//! every element is exact and scaling back by 255 returns the original
//! sample unchanged.  The caller divides by 255 when it builds the
//! floating-point buffer the inference runtime wants.

use vstd::prelude::*;
use vstd::math::min;

verus! {

/// Side of the square input frame, in pixels.
pub const IMAGE_SIZE: usize = 640;

/// Colour channels the model reads; a fourth (alpha) input channel is
/// discarded.
pub const CHANNELS: usize = 3;

/// A decoded square bitmap: RGBA samples row by row, four bytes per pixel.
pub struct Image {
    pub rgba: Vec<u8>,
}

impl Image {
    /// Exactly one four-byte RGBA sample per pixel of the fixed frame.
    pub open spec fn wf(self) -> bool {
        self.rgba@.len() == 640 * 640 * 4
    }

    /// The 8-bit sample of `channel` at pixel `(x, y)`.
    pub open spec fn sample(self, x: int, y: int, channel: int) -> u8 {
        self.rgba@[y * 2560 + x * 4 + channel]
    }
}

/// The model's input: channel-planar samples in 1/255 units.
pub struct InputTensor {
    pub data: Vec<u8>,
}

impl InputTensor {
    pub open spec fn wf(self) -> bool {
        self.data@.len() == 3 * (640 * 640)
    }

    /// The element of plane `channel` at row `y`, column `x`.
    pub open spec fn at(self, channel: int, y: int, x: int) -> u8 {
        self.data@[channel * 409600 + y * 640 + x]
    }
}

/// Writes each pixel's red, green and blue sample into the matching plane
/// of a fresh tensor; alpha is discarded.  Every element equals its source
/// sample, so the element is in `[0, 1]` in 1/255 units and multiplying
/// back by 255 recovers the 8-bit sample exactly.
pub fn preprocess(image: &Image) -> (t: InputTensor)
    requires
        image.wf(),
    ensures
        t.wf(),
        forall|c: int, y: int, x: int|
            0 <= c < 3 && 0 <= y < 640 && 0 <= x < 640 ==> #[trigger] t.at(c, y, x)
                == image.sample(x, y, c),
{
    assert(CHANNELS == 3 && IMAGE_SIZE == 640);
    let mut data: Vec<u8> = Vec::new();
    let mut c: usize = 0;
    while c < CHANNELS
        invariant
            c <= 3,
            image.wf(),
            data@.len() == c * 409600,
            forall|c2: int, y2: int, x2: int|
                0 <= c2 < c && 0 <= y2 < 640 && 0 <= x2 < 640 ==> #[trigger] data@[c2 * 409600 + y2 * 640 + x2] == image.sample(x2, y2, c2),
        decreases 3 - c,
    {
        let mut y: usize = 0;
        while y < IMAGE_SIZE
            invariant
                c < 3,
                y <= 640,
                image.wf(),
                data@.len() == c * 409600 + y * 640,
                forall|c2: int, y2: int, x2: int|
                    0 <= c2 < c && 0 <= y2 < 640 && 0 <= x2 < 640 ==> #[trigger] data@[c2 * 409600
                        + y2 * 640 + x2] == image.sample(x2, y2, c2),
                forall|y2: int, x2: int|
                    0 <= y2 < y && 0 <= x2 < 640 ==> #[trigger] data@[c * 409600 + y2 * 640 + x2]
                        == image.sample(x2, y2, c as int),
            decreases 640 - y,
        {
            let mut x: usize = 0;
            while x < IMAGE_SIZE
                invariant
                    c < 3,
                    y < 640,
                    x <= 640,
                    image.wf(),
                    data@.len() == c * 409600 + y * 640 + x,
                    forall|c2: int, y2: int, x2: int|
                        0 <= c2 < c && 0 <= y2 < 640 && 0 <= x2 < 640 ==> #[trigger] data@[c2 * 409600 + y2 * 640 + x2] == image.sample(x2, y2, c2),
                    forall|y2: int, x2: int|
                        0 <= y2 < y && 0 <= x2 < 640 ==> #[trigger] data@[c * 409600 + y2 * 640 + x2] == image.sample(x2, y2, c as int),
                    forall|x2: int|
                        0 <= x2 < x ==> #[trigger] data@[c * 409600 + y * 640 + x2] == image.sample(
                            x2,
                            y as int,
                            c as int,
                        ),
                decreases 640 - x,
            {
                let sample = image.rgba[y * 2560 + x * 4 + c];
                let ghost old_data = data@;
                data.push(sample);
                proof {
                    assert(data@ =~= old_data.push(sample));
                    assert forall|c2: int, y2: int, x2: int|
                        0 <= c2 < c && 0 <= y2 < 640 && 0 <= x2 < 640 implies #[trigger] data@[c2 * 409600 + y2 * 640 + x2] == image.sample(x2, y2, c2) by {
                        assert(c2 * 409600 + y2 * 640 + x2 < old_data.len());
                        assert(data@[c2 * 409600 + y2 * 640 + x2] == old_data[c2 * 409600 + y2 * 640 + x2]);
                    }
                    assert forall|y2: int, x2: int|
                        0 <= y2 < y && 0 <= x2 < 640 implies #[trigger] data@[c * 409600 + y2 * 640 + x2] == image.sample(x2, y2, c as int) by {
                        assert(c * 409600 + y2 * 640 + x2 < old_data.len());
                        assert(data@[c * 409600 + y2 * 640 + x2] == old_data[c * 409600 + y2 * 640 + x2]);
                    }
                    assert forall|x2: int| 0 <= x2 < x + 1 implies #[trigger] data@[c * 409600 + y * 640 + x2] == image.sample(x2, y as int, c as int) by {
                        if x2 < x {
                            assert(c * 409600 + y * 640 + x2 < old_data.len());
                            assert(data@[c * 409600 + y * 640 + x2] == old_data[c * 409600 + y * 640 + x2]);
                        } else {
                            assert(c * 409600 + y * 640 + x2 == old_data.len());
                            assert(data@[c * 409600 + y * 640 + x2] == sample);
                        }
                    }
                }
                x += 1;
            }
            y += 1;
        }
        c += 1;
    }
    InputTensor { data }
}

/// The centred square crop of a frame: top-left corner and side, the side
/// being the smaller dimension.
pub fn center_square(width: u32, height: u32) -> (r: (u32, u32, u32))
    ensures
        r.2 == min(width as int, height as int),
        r.0 == (width - r.2) / 2,
        r.1 == (height - r.2) / 2,
        r.0 + r.2 <= width,
        r.1 + r.2 <= height,
{
    let size = if width < height {
        width
    } else {
        height
    };
    let x = (width - size) / 2;
    let y = (height - size) / 2;
    (x, y, size)
}

} // verus!
