//! A two-dimensional grid of flags, one for each pixel of a raster.

use crate::image::{lemma_index_in_range, lemma_index_injective, Color, Image};
use vstd::prelude::*;

verus! {

/// What a [`BooleanMatrix`] holds: its size and the pixels that are set.
pub struct MaskView {
    pub width: nat,
    pub height: nat,
    pub set: Set<(int, int)>,
}

impl MaskView {
    /// Whether `(x, y)` names a pixel of the grid.
    pub open spec fn in_bounds(self, x: int, y: int) -> bool {
        0 <= x < self.width && 0 <= y < self.height
    }

    /// Every set pixel lies on the grid.
    pub open spec fn bounded(self) -> bool {
        forall|p: (int, int)| #[trigger] self.set.contains(p) ==> self.in_bounds(p.0, p.1)
    }
}

/// The pixels of `image` that are darker than `threshold`.
pub open spec fn dark_pixels(image: crate::image::ImageView, threshold: u8) -> Set<(int, int)> {
    Set::new(
        |p: (int, int)| image.in_bounds(p.0, p.1) && image.pixel(p.0, p.1).darker_than(threshold),
    )
}

/// A packed grid of flags.  A flag can be set and never cleared.
pub struct BooleanMatrix {
    data: Vec<bool>,
    width: usize,
    height: usize,
}

impl View for BooleanMatrix {
    type V = MaskView;

    closed spec fn view(&self) -> MaskView {
        MaskView {
            width: self.width as nat,
            height: self.height as nat,
            set: Set::new(
                |p: (int, int)|
                    0 <= p.0 < self.width && 0 <= p.1 < self.height && self.data@[p.1 * self.width
                        + p.0],
            ),
        }
    }
}

impl BooleanMatrix {
    /// The grid holds exactly one flag for each of its pixels.
    pub closed spec fn well_formed(&self) -> bool {
        &&& self.data@.len() == self.width * self.height
        &&& self.data@.len() <= usize::MAX
    }

    /// In a well-formed grid every set pixel lies on the grid, and the number
    /// of pixels fits the machine.
    pub proof fn lemma_well_formed(&self)
        requires
            self.well_formed(),
        ensures
            self@.bounded(),
            self@.width * self@.height <= usize::MAX,
            self@.width <= usize::MAX,
            self@.height <= usize::MAX,
    {
    }

    /// The grid's width and height.
    pub fn base_height(&self) -> (size: (usize, usize))
        ensures
            size.0 == self@.width,
            size.1 == self@.height,
    {
        (self.width, self.height)
    }

    /// A grid of the given size with no pixel set.
    pub fn all_false(width: usize, height: usize) -> (matrix: BooleanMatrix)
        requires
            width * height <= usize::MAX,
        ensures
            matrix.well_formed(),
            matrix@.width == width,
            matrix@.height == height,
            matrix@.set == Set::<(int, int)>::empty(),
    {
        let data = vec![false; width * height];
        let matrix = BooleanMatrix { data, width, height };
        proof {
            assert forall|p: (int, int)| !(#[trigger] matrix@.set.contains(p)) by {
                if 0 <= p.0 < width && 0 <= p.1 < height {
                    lemma_index_in_range(p.0, p.1, width as int, height as int);
                }
            }
            assert(matrix@.set =~= Set::<(int, int)>::empty());
        }
        matrix
    }

    /// Sets the pixel at `(x, y)`.
    pub fn set(&mut self, x: usize, y: usize)
        requires
            old(self).well_formed(),
            old(self)@.in_bounds(x as int, y as int),
        ensures
            final(self).well_formed(),
            final(self)@.width == old(self)@.width,
            final(self)@.height == old(self)@.height,
            final(self)@.set == old(self)@.set.insert((x as int, y as int)),
    {
        let index = self.get_index(x, y);
        self.data[index] = true;
        proof {
            let w = self.width as int;
            assert forall|p: (int, int)|
                final(self)@.set.contains(p) == old(self)@.set.insert(
                    (x as int, y as int),
                ).contains(p) by {
                if 0 <= p.0 < w && 0 <= p.1 < self.height {
                    lemma_index_in_range(p.0, p.1, w, self.height as int);
                    if p.1 * w + p.0 == index {
                        lemma_index_injective(p.0, p.1, x as int, y as int, w);
                    }
                }
            }
            assert(final(self)@.set =~= old(self)@.set.insert((x as int, y as int)));
        }
    }

    /// Whether the pixel at `(x, y)` is set.
    pub fn is_set(&self, x: usize, y: usize) -> (set: bool)
        requires
            self.well_formed(),
            self@.in_bounds(x as int, y as int),
        ensures
            set == self@.set.contains((x as int, y as int)),
    {
        let index = self.get_index(x, y);
        self.data[index]
    }

    /// The grid that has exactly the pixels of `image` set whose colour is
    /// darker than `dark_threshold`.
    pub fn from_image(image: &Image, dark_threshold: u8) -> (matrix: BooleanMatrix)
        requires
            image.well_formed(),
        ensures
            matrix.well_formed(),
            matrix@.width == image@.base,
            matrix@.height == image@.height,
            matrix@.set == dark_pixels(image@, dark_threshold),
    {
        proof {
            image.lemma_well_formed();
        }
        let base = image.base();
        let height = image.height();
        let mut matrix = BooleanMatrix::all_false(base, height);
        let mut y: usize = 0;
        while y < height
            invariant
                y <= height,
                image.well_formed(),
                base == image@.base,
                height == image@.height,
                matrix.well_formed(),
                matrix@.width == base,
                matrix@.height == height,
                forall|p: (int, int)|
                    matrix@.set.contains(p) <==> (0 <= p.0 < base && 0 <= p.1 < y
                        && image@.pixel(p.0, p.1).darker_than(dark_threshold)),
            decreases height - y,
        {
            let mut x: usize = 0;
            while x < base
                invariant
                    x <= base,
                    y < height,
                    image.well_formed(),
                    base == image@.base,
                    height == image@.height,
                    matrix.well_formed(),
                    matrix@.width == base,
                    matrix@.height == height,
                    forall|p: (int, int)|
                        matrix@.set.contains(p) <==> (0 <= p.0 < base && 0 <= p.1 <= y && (p.1 < y
                            || p.0 < x) && image@.pixel(p.0, p.1).darker_than(dark_threshold)),
                decreases base - x,
            {
                let color = image.get_color(x, y);
                if color.is_darker_than(dark_threshold) {
                    matrix.set(x, y);
                }
                x += 1;
            }
            y += 1;
        }
        proof {
            assert(matrix@.set =~= dark_pixels(image@, dark_threshold));
        }
        matrix
    }

    /// The grid as a picture: black where a pixel is set, white elsewhere.
    pub fn as_image(&self) -> (image: Image)
        requires
            self.well_formed(),
            3 * self@.width * self@.height <= usize::MAX,
        ensures
            image.well_formed(),
            image@.base == self@.width,
            image@.height == self@.height,
            image@.pixels.len() == self@.width * self@.height,
            forall|x: int, y: int|
                self@.in_bounds(x, y) ==> #[trigger] image@.pixel(x, y) == if self@.set.contains(
                    (x, y),
                ) {
                    Color { r: 0, g: 0, b: 0 }
                } else {
                    Color { r: 255, g: 255, b: 255 }
                },
    {
        let mut image_data: Vec<u8> = Vec::new();
        let count = self.data.len();
        proof {
            assert(3 * self.width * self.height == 3 * (self.width * self.height))
                by (nonlinear_arith);
        }
        let mut i: usize = 0;
        while i < count
            invariant
                i <= count,
                count == self.data@.len(),
                3 * count <= usize::MAX,
                image_data@.len() == 3 * i,
                forall|k: int|
                    0 <= k < i ==> {
                        let shade = if #[trigger] self.data@[k] {
                            0u8
                        } else {
                            255u8
                        };
                        &&& image_data@[3 * k] == shade
                        &&& image_data@[3 * k + 1] == shade
                        &&& image_data@[3 * k + 2] == shade
                    },
            decreases count - i,
        {
            let shade: u8 = if self.data[i] {
                0
            } else {
                255
            };
            image_data.push(shade);
            image_data.push(shade);
            image_data.push(shade);
            i += 1;
        }
        proof {
            assert(3 * self.width * self.height == 3 * (self.width * self.height))
                by (nonlinear_arith);
        }
        let image = Image::from_raw(image_data, self.width, self.height);
        proof {
            image.lemma_well_formed();
            assert forall|x: int, y: int| self@.in_bounds(x, y) implies #[trigger] image@.pixel(
                x,
                y,
            ) == if self@.set.contains((x, y)) {
                Color { r: 0, g: 0, b: 0 }
            } else {
                Color { r: 255, g: 255, b: 255 }
            } by {
                lemma_index_in_range(x, y, self.width as int, self.height as int);
                let k = y * self.width + x;
                assert(self.data@[k] == self@.set.contains((x, y)));
            }
        }
        image
    }

    fn get_index(&self, x: usize, y: usize) -> (index: usize)
        requires
            self.well_formed(),
            x < self.width,
            y < self.height,
        ensures
            index == y * self.width + x,
            index < self.data@.len(),
    {
        proof {
            lemma_index_in_range(x as int, y as int, self.width as int, self.height as int);
        }
        y * self.width + x
    }
}

} // verus!
