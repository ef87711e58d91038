//! A sample raster: a rectangle of pixels read row by row.
use vstd::prelude::*;
use crate::color::WfcColor;
use crate::error::ConfigError;

verus! {

/// A `width` by `height` rectangle of pixels, row by row from the top left.
pub struct Sample {
    width: usize,
    height: usize,
    pixels: Vec<WfcColor>,
}

impl Sample {
    pub closed spec fn width(&self) -> nat {
        self.width as nat
    }

    pub closed spec fn height(&self) -> nat {
        self.height as nat
    }

    pub closed spec fn pixels(&self) -> Seq<WfcColor> {
        self.pixels@
    }

    /// The pixel in column `x` and row `y`.
    pub open spec fn pixel(&self, x: int, y: int) -> WfcColor {
        self.pixels()[y * self.width() + x]
    }

    /// There is one pixel per position.
    pub open spec fn wf(&self) -> bool {
        self.pixels().len() == self.width() * self.height()
    }

    /// The sample held by a raster of `width` by `height` pixels with three
    /// bytes (red, green, blue) per pixel, row by row.
    pub fn from_rgb(width: usize, height: usize, data: &Vec<u8>) -> (r: Result<Sample, ConfigError>)
        ensures
            r is Ok <==> data@.len() == 3 * width * height,
            r == Err::<Sample, ConfigError>(ConfigError::AlphaChannel) <==> data@.len() != 3 * width * height
                && data@.len() == 4 * width * height,
            r == Err::<Sample, ConfigError>(ConfigError::NotRgb) <==> data@.len() != 3 * width * height
                && data@.len() != 4 * width * height,
            r matches Ok(s) ==> {
                &&& s.wf()
                &&& s.width() == width
                &&& s.height() == height
                &&& forall|i: int| 0 <= i < width * height ==> (#[trigger] s.pixels()[i]).channels() == (
                    data@[3 * i],
                    data@[3 * i + 1],
                    data@[3 * i + 2],
                )
            },
    {
        let len = data.len();
        let count = match width.checked_mul(height) {
            Some(c) => c,
            None => {
                proof {
                    assert(3 * width * height > usize::MAX) by (nonlinear_arith)
                        requires width * height > usize::MAX;
                    assert(4 * width * height > usize::MAX) by (nonlinear_arith)
                        requires width * height > usize::MAX;
                }
                return Err(ConfigError::NotRgb);
            },
        };
        proof {
            assert(3 * width * height == count * 3 && 4 * width * height == count * 4) by (nonlinear_arith)
                requires count == width * height;
        }
        let rgb = count.checked_mul(3);
        let rgba = count.checked_mul(4);
        let is_rgb = match rgb {
            Some(k) => len == k,
            None => false,
        };
        if !is_rgb {
            let is_rgba = match rgba {
                Some(k) => len == k,
                None => false,
            };
            if is_rgba {
                return Err(ConfigError::AlphaChannel);
            }
            return Err(ConfigError::NotRgb);
        }
        let mut pixels: Vec<WfcColor> = Vec::new();
        let mut i: usize = 0;
        while i < count
            invariant
                count == width * height,
                len == data@.len(),
                data@.len() == 3 * count,
                i <= count,
                pixels@.len() == i,
                forall|j: int| 0 <= j < i ==> (#[trigger] pixels@[j]).channels() == (
                    data@[3 * j],
                    data@[3 * j + 1],
                    data@[3 * j + 2],
                ),
            decreases count - i,
        {
            proof {
                assert(3 * i + 2 < 3 * count) by (nonlinear_arith)
                    requires i < count;
            }
            let c = WfcColor::new(data[3 * i], data[3 * i + 1], data[3 * i + 2]);
            pixels.push(c);
            i += 1;
        }
        Ok(Sample { width, height, pixels })
    }

    pub fn get_width(&self) -> (r: usize)
        ensures
            r == self.width(),
    {
        self.width
    }

    pub fn get_height(&self) -> (r: usize)
        ensures
            r == self.height(),
    {
        self.height
    }

    /// The pixel in column `x` and row `y`.
    pub fn get_pixel(&self, x: usize, y: usize) -> (r: WfcColor)
        requires
            self.wf(),
            x < self.width(),
            y < self.height(),
        ensures
            r == self.pixel(x as int, y as int),
    {
        let len = self.pixels.len();
        proof {
            assert(y * self.width() + x < self.width() * self.height()) by (nonlinear_arith)
                requires x < self.width(), y < self.height();
        }
        self.pixels[y * self.width + x]
    }
}

} // verus!
