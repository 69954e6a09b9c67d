//! Colours and tightly packed RGB rasters.

use vstd::prelude::*;

verus! {

/// An RGB colour, eight bits a channel.
#[derive(Clone, Copy, Debug, PartialEq, Eq, Structural)]
pub struct Color {
    pub r: u8,
    pub g: u8,
    pub b: u8,
}

impl Color {
    /// Whether all three channels lie strictly below `threshold`.
    pub open spec fn darker_than(self, threshold: u8) -> bool {
        self.r < threshold && self.g < threshold && self.b < threshold
    }

    pub fn from_rgb(r: u8, g: u8, b: u8) -> (c: Color)
        ensures
            c == (Color { r, g, b }),
    {
        Color { r, g, b }
    }

    pub fn red() -> (c: Color)
        ensures
            c == (Color { r: 0xff, g: 0, b: 0 }),
    {
        Color::from_rgb(0xff, 0, 0)
    }

    pub fn green() -> (c: Color)
        ensures
            c == (Color { r: 0, g: 0xff, b: 0 }),
    {
        Color::from_rgb(0, 0xff, 0)
    }

    pub fn blue() -> (c: Color)
        ensures
            c == (Color { r: 0, g: 0, b: 0xff }),
    {
        Color::from_rgb(0, 0, 0xff)
    }

    pub fn magenta() -> (c: Color)
        ensures
            c == (Color { r: 0xff, g: 0, b: 0xff }),
    {
        Color::from_rgb(0xff, 0, 0xff)
    }

    pub fn yellow() -> (c: Color)
        ensures
            c == (Color { r: 0xff, g: 0xff, b: 0 }),
    {
        Color::from_rgb(0xff, 0xff, 0)
    }

    pub fn cyan() -> (c: Color)
        ensures
            c == (Color { r: 0, g: 0xff, b: 0xff }),
    {
        Color::from_rgb(0, 0xff, 0xff)
    }

    /// The dark test of the thresholder: every channel strictly below
    /// `threshold`.
    pub fn is_darker_than(self, threshold: u8) -> (dark: bool)
        ensures
            dark == self.darker_than(threshold),
    {
        self.r < threshold && self.g < threshold && self.b < threshold
    }
}

/// What an [`Image`] holds: its size and its pixels, row by row.
pub struct ImageView {
    pub base: nat,
    pub height: nat,
    pub pixels: Seq<Color>,
}

impl ImageView {
    /// Whether `(x, y)` names a pixel of the raster.
    pub open spec fn in_bounds(self, x: int, y: int) -> bool {
        0 <= x < self.base && 0 <= y < self.height
    }

    /// The colour at `(x, y)`.
    pub open spec fn pixel(self, x: int, y: int) -> Color
        recommends
            self.in_bounds(x, y),
    {
        self.pixels[y * self.base + x]
    }
}

/// In a raster `base` wide and `height` tall, the row-major index of an
/// in-bounds pixel is below `base * height`.
pub proof fn lemma_index_in_range(x: int, y: int, base: int, height: int)
    requires
        0 <= x < base,
        0 <= y < height,
    ensures
        0 <= y * base,
        0 <= y * base + x < base * height,
        y * base + x < height * base,
{
    assert(y * base >= 0) by (nonlinear_arith)
        requires
            y >= 0,
            base >= 0,
    ;
    assert(y * base + base <= height * base) by (nonlinear_arith)
        requires
            y + 1 <= height,
            base >= 0,
    ;
    assert(height * base == base * height) by (nonlinear_arith);
}

/// Two in-bounds pixels with the same row-major index are the same pixel.
pub proof fn lemma_index_injective(x0: int, y0: int, x1: int, y1: int, base: int)
    requires
        0 <= x0 < base,
        0 <= x1 < base,
        0 <= y0,
        0 <= y1,
        y0 * base + x0 == y1 * base + x1,
    ensures
        x0 == x1,
        y0 == y1,
{
    if y0 < y1 {
        assert(y0 * base + base <= y1 * base) by (nonlinear_arith)
            requires
                y0 + 1 <= y1,
                base >= 0,
        ;
    } else if y1 < y0 {
        assert(y1 * base + base <= y0 * base) by (nonlinear_arith)
            requires
                y1 + 1 <= y0,
                base >= 0,
        ;
    }
}

/// What the samples of a decoded raster stand for.
#[derive(Clone, Copy, Debug, PartialEq, Eq, Structural)]
pub enum ColorType {
    Grayscale,
    Rgb,
    Indexed,
    GrayscaleAlpha,
    Rgba,
}

/// A decoded raster is not eight-bit RGB.
#[derive(Clone, Copy, Debug, PartialEq, Eq, Structural)]
pub struct ImageFormatError;

/// A number that is `base` times `height` gives `height` when divided by
/// `base`, without a remainder.
proof fn lemma_exact_quotient(n: int, base: int, height: int)
    requires
        base > 0,
        height >= 0,
        n == base * height,
    ensures
        n % base == 0,
        n / base == height,
{
    assert(n == height * base) by (nonlinear_arith)
        requires
            n == base * height,
    ;
    vstd::arithmetic::div_mod::lemma_fundamental_div_mod_converse(n, base, height, 0);
}

/// A number that gives `height` when divided by `base`, without a
/// remainder, is `base` times `height`.
proof fn lemma_quotient_exact(n: int, base: int, height: int)
    requires
        base > 0,
        n >= 0,
        n % base == 0,
        n / base == height,
    ensures
        n == base * height,
{
    vstd::arithmetic::div_mod::lemma_fundamental_div_mod(n, base);
}

/// A tightly packed RGB raster, three bytes a pixel, rows top to bottom.
#[derive(Clone, Debug)]
pub struct Image {
    data: Vec<u8>,
    base: usize,
    height: usize,
}

impl View for Image {
    type V = ImageView;

    closed spec fn view(&self) -> ImageView {
        ImageView {
            base: self.base as nat,
            height: self.height as nat,
            pixels: Seq::new(
                (self.base * self.height) as nat,
                |i: int|
                    Color {
                        r: self.data@[3 * i],
                        g: self.data@[3 * i + 1],
                        b: self.data@[3 * i + 2],
                    },
            ),
        }
    }
}

/// What is shown for the pixel `from` of an image: its colour, or magenta
/// if there is no such pixel.
pub open spec fn shown(image: ImageView, from: Option<(usize, usize)>) -> Color {
    match from {
        Some(p) => if image.in_bounds(p.0 as int, p.1 as int) {
            image.pixel(p.0 as int, p.1 as int)
        } else {
            Color { r: 0xff, g: 0, b: 0xff }
        },
        None => Color { r: 0xff, g: 0, b: 0xff },
    }
}

/// Whether `color` is what is shown for a pixel that `source` may name for
/// the pixel `(x, y)`.
pub open spec fn shows<F: Fn(usize, usize) -> Option<(usize, usize)>>(
    source: F,
    x: usize,
    y: usize,
    image: ImageView,
    color: Color,
) -> bool {
    exists|from: Option<(usize, usize)>|
        call_ensures(source, (x, y), from) && color == shown(image, from)
}

/// The pixels that the bytes `data` hold, three bytes to a pixel.
pub open spec fn pixels_of_bytes(data: Seq<u8>) -> Seq<Color> {
    Seq::new(
        data.len() / 3,
        |i: int| Color { r: data[3 * i], g: data[3 * i + 1], b: data[3 * i + 2] },
    )
}

impl Image {
    /// The raster holds exactly three bytes for each of its pixels.
    pub closed spec fn well_formed(&self) -> bool {
        &&& self.data@.len() == 3 * (self.base * self.height)
        &&& self.data@.len() <= usize::MAX
    }

    /// A well-formed image has one colour for each pixel, and its size fits
    /// the machine.
    pub proof fn lemma_well_formed(&self)
        requires
            self.well_formed(),
        ensures
            self@.pixels.len() == self@.base * self@.height,
            3 * (self@.base * self@.height) <= usize::MAX,
            self@.base <= usize::MAX,
            self@.height <= usize::MAX,
    {
    }

    /// Wraps raw bytes as an image `base` wide and `height` tall.
    pub fn from_raw(data: Vec<u8>, base: usize, height: usize) -> (image: Image)
        requires
            data@.len() == 3 * base * height,
        ensures
            image.well_formed(),
            image@.base == base,
            image@.height == height,
            image@.pixels == pixels_of_bytes(data@),
    {
        let length = data.len();
        proof {
            assert(3 * base * height == 3 * (base * height)) by (nonlinear_arith);
        }
        let image = Image { data, base, height };
        proof {
            assert(image@.pixels =~= pixels_of_bytes(data@));
        }
        image
    }

    /// Takes over a decoded raster if it is eight-bit RGB: three samples to
    /// a pixel, without alpha and without a palette, each of eight bits, and
    /// as many bytes as that makes.  Any other raster is refused.
    pub fn from_decoded(
        data: Vec<u8>,
        base: usize,
        height: usize,
        color_type: ColorType,
        bit_depth: u8,
    ) -> (image: Result<Image, ImageFormatError>)
        ensures
            image is Ok <==> color_type == ColorType::Rgb && bit_depth == 8 && data@.len() == 3
                * base * height,
            image is Ok ==> {
                &&& image.unwrap().well_formed()
                &&& image.unwrap()@.base == base
                &&& image.unwrap()@.height == height
                &&& image.unwrap()@.pixels == pixels_of_bytes(data@)
            },
    {
        let rgb = match color_type {
            ColorType::Rgb => true,
            _ => false,
        };
        if !rgb || bit_depth != 8 {
            return Err(ImageFormatError);
        }
        let length = data.len();
        proof {
            assert(3 * base * height == 3 * (base * height)) by (nonlinear_arith);
        }
        if base == 0 || height == 0 {
            proof {
                assert(base * height == 0) by (nonlinear_arith)
                    requires
                        base == 0 || height == 0,
                ;
            }
            if length != 0 {
                return Err(ImageFormatError);
            }
            return Ok(Image::from_raw(data, base, height));
        }
        // `length / 3 / base == height` without a remainder, and without a
        // product that could leave the machine's range
        if length % 3 != 0 || (length / 3) % base != 0 || (length / 3) / base != height {
            proof {
                if length == 3 * (base * height) {
                    lemma_exact_quotient(length as int / 3, base as int, height as int);
                }
            }
            return Err(ImageFormatError);
        }
        proof {
            lemma_quotient_exact(length as int / 3, base as int, height as int);
        }
        Ok(Image::from_raw(data, base, height))
    }

    /// Builds an image by asking `f` for each pixel's colour, row by row.
    pub fn from_fn<F: Fn(usize, usize) -> Color>(base: usize, height: usize, f: F) -> (image: Image)
        requires
            3 * base * height <= usize::MAX,
            forall|x: usize, y: usize| x < base && y < height ==> call_requires(f, (x, y)),
        ensures
            image.well_formed(),
            image@.base == base,
            image@.height == height,
            image@.pixels.len() == base * height,
            forall|x: usize, y: usize|
                x < base && y < height ==> call_ensures(
                    f,
                    (x, y),
                    #[trigger] image@.pixel(x as int, y as int),
                ),
    {
        let mut data: Vec<u8> = Vec::new();
        let ghost mut colors: Seq<Color> = Seq::empty();
        let mut y: usize = 0;
        while y < height
            invariant
                y <= height,
                3 * base * height <= usize::MAX,
                forall|x: usize, y: usize| x < base && y < height ==> call_requires(f, (x, y)),
                data@.len() == 3 * (y * base),
                colors.len() == y * base,
                forall|i: int|
                    0 <= i < colors.len() ==> #[trigger] colors[i] == (Color {
                        r: data@[3 * i],
                        g: data@[3 * i + 1],
                        b: data@[3 * i + 2],
                    }),
                forall|px: usize, py: usize|
                    px < base && py < y ==> call_ensures(
                        f,
                        (px, py),
                        #[trigger] colors[py * base + px],
                    ),
            decreases height - y,
        {
            let mut x: usize = 0;
            while x < base
                invariant
                    x <= base,
                    y < height,
                    3 * base * height <= usize::MAX,
                    forall|x: usize, y: usize| x < base && y < height ==> call_requires(f, (x, y)),
                    data@.len() == 3 * (y * base + x),
                    colors.len() == y * base + x,
                    forall|i: int|
                        0 <= i < colors.len() ==> #[trigger] colors[i] == (Color {
                            r: data@[3 * i],
                            g: data@[3 * i + 1],
                            b: data@[3 * i + 2],
                        }),
                    forall|px: usize, py: usize|
                        px < base && (py < y || (py == y && px < x)) ==> call_ensures(
                            f,
                            (px, py),
                            #[trigger] colors[py * base + px],
                        ),
                decreases base - x,
            {
                let color = f(x, y);
                let ghost before = colors;
                data.push(color.r);
                data.push(color.g);
                data.push(color.b);
                proof {
                    colors = colors.push(color);
                    assert forall|px: usize, py: usize|
                        px < base && (py < y || (py == y && px < x + 1)) implies call_ensures(
                        f,
                        (px, py),
                        #[trigger] colors[py * base + px],
                    ) by {
                        if py == y && px == x {
                        } else {
                            if py < y {
                                lemma_index_in_range(px as int, py as int, base as int, y as int);
                            }
                            assert(0 <= py * base + px < before.len());
                            assert(colors[py * base + px] == before[py * base + px]);
                        }
                    }
                }
                x += 1;
            }
            proof {
                assert((y + 1) * base == y * base + base) by (nonlinear_arith);
            }
            y += 1;
        }
        proof {
            assert(3 * base * height == 3 * (base * height)) by (nonlinear_arith);
            assert(height * base == base * height) by (nonlinear_arith);
        }
        let image = Image { data, base, height };
        proof {
            assert(image@.pixels =~= colors);
        }
        image
    }

    /// A new image of the given size that shows, at each of its pixels, the
    /// pixel of this image that `source` names for it, without blending
    /// neighbours.  Where `source` names none, or one outside this image,
    /// the new image is magenta.
    pub fn perspective_transform<F: Fn(usize, usize) -> Option<(usize, usize)>>(
        &self,
        new_base: usize,
        new_height: usize,
        source: F,
    ) -> (image: Image)
        requires
            self.well_formed(),
            3 * new_base * new_height <= usize::MAX,
            forall|x: usize, y: usize|
                x < new_base && y < new_height ==> call_requires(source, (x, y)),
        ensures
            image.well_formed(),
            image@.base == new_base,
            image@.height == new_height,
            image@.pixels.len() == new_base * new_height,
            forall|x: usize, y: usize|
                x < new_base && y < new_height ==> shows(
                    source,
                    x,
                    y,
                    self@,
                    #[trigger] image@.pixel(x as int, y as int),
                ),
    {
        let mut data: Vec<u8> = Vec::new();
        let ghost mut colors: Seq<Color> = Seq::empty();
        let mut y: usize = 0;
        while y < new_height
            invariant
                y <= new_height,
                self.well_formed(),
                3 * new_base * new_height <= usize::MAX,
                forall|x: usize, y: usize|
                    x < new_base && y < new_height ==> call_requires(source, (x, y)),
                data@.len() == 3 * (y * new_base),
                colors.len() == y * new_base,
                forall|i: int|
                    0 <= i < colors.len() ==> #[trigger] colors[i] == (Color {
                        r: data@[3 * i],
                        g: data@[3 * i + 1],
                        b: data@[3 * i + 2],
                    }),
                forall|px: usize, py: usize|
                    px < new_base && py < y ==> shows(
                        source,
                        px,
                        py,
                        self@,
                        #[trigger] colors[py * new_base + px],
                    ),
            decreases new_height - y,
        {
            let mut x: usize = 0;
            while x < new_base
                invariant
                    x <= new_base,
                    y < new_height,
                    self.well_formed(),
                    3 * new_base * new_height <= usize::MAX,
                    forall|x: usize, y: usize|
                        x < new_base && y < new_height ==> call_requires(source, (x, y)),
                    data@.len() == 3 * (y * new_base + x),
                    colors.len() == y * new_base + x,
                    forall|i: int|
                        0 <= i < colors.len() ==> #[trigger] colors[i] == (Color {
                            r: data@[3 * i],
                            g: data@[3 * i + 1],
                            b: data@[3 * i + 2],
                        }),
                    forall|px: usize, py: usize|
                        px < new_base && (py < y || (py == y && px < x)) ==> shows(
                            source,
                            px,
                            py,
                            self@,
                            #[trigger] colors[py * new_base + px],
                        ),
                decreases new_base - x,
            {
                let from = source(x, y);
                let color = match from {
                    Some((source_x, source_y)) => match self.get_color_checked(
                        source_x,
                        source_y,
                    ) {
                        Some(color) => color,
                        None => Color::magenta(),
                    },
                    None => Color::magenta(),
                };
                let ghost before = colors;
                data.push(color.r);
                data.push(color.g);
                data.push(color.b);
                proof {
                    colors = colors.push(color);
                    assert(call_ensures(source, (x, y), from) && color == shown(self@, from));
                    assert(shows(source, x, y, self@, color));
                    assert forall|px: usize, py: usize|
                        px < new_base && (py < y || (py == y && px < x + 1)) implies shows(
                        source,
                        px,
                        py,
                        self@,
                        #[trigger] colors[py * new_base + px],
                    ) by {
                        if py == y && px == x {
                        } else {
                            if py < y {
                                lemma_index_in_range(
                                    px as int,
                                    py as int,
                                    new_base as int,
                                    y as int,
                                );
                            }
                            assert(0 <= py * new_base + px < before.len());
                            assert(colors[py * new_base + px] == before[py * new_base + px]);
                        }
                    }
                }
                x += 1;
            }
            proof {
                assert((y + 1) * new_base == y * new_base + new_base) by (nonlinear_arith);
            }
            y += 1;
        }
        proof {
            assert(3 * new_base * new_height == 3 * (new_base * new_height)) by (nonlinear_arith);
            assert(new_height * new_base == new_base * new_height) by (nonlinear_arith);
        }
        let image = Image { data, base: new_base, height: new_height };
        proof {
            assert(image@.pixels =~= colors);
        }
        image
    }

    /// The image's bytes: three for each pixel, rows top to bottom.
    pub fn data(&self) -> (data: &Vec<u8>)
        requires
            self.well_formed(),
        ensures
            data@.len() == 3 * (self@.base * self@.height),
            pixels_of_bytes(data@) == self@.pixels,
    {
        proof {
            assert(pixels_of_bytes(self.data@) =~= self@.pixels);
        }
        &self.data
    }

    /// The image's width in pixels.
    pub fn base(&self) -> (base: usize)
        ensures
            base == self@.base,
    {
        self.base
    }

    /// The image's height in pixels.
    pub fn height(&self) -> (height: usize)
        ensures
            height == self@.height,
    {
        self.height
    }

    /// Paints the pixel at `(x, y)`.
    pub fn set_color(&mut self, x: usize, y: usize, color: Color)
        requires
            old(self).well_formed(),
            old(self)@.in_bounds(x as int, y as int),
        ensures
            final(self).well_formed(),
            final(self)@.base == old(self)@.base,
            final(self)@.height == old(self)@.height,
            final(self)@.pixels == old(self)@.pixels.update(y * old(self)@.base + x, color),
    {
        proof {
            lemma_index_in_range(x as int, y as int, self.base as int, self.height as int);
        }
        let index = 3 * (y * self.base + x);
        self.data[index] = color.r;
        self.data[index + 1] = color.g;
        self.data[index + 2] = color.b;
        proof {
            assert(final(self)@.pixels =~= old(self)@.pixels.update(y * old(self)@.base + x, color));
        }
    }

    /// The colour of the pixel at `(x, y)`.
    pub fn get_color(&self, x: usize, y: usize) -> (color: Color)
        requires
            self.well_formed(),
            self@.in_bounds(x as int, y as int),
        ensures
            color == self@.pixel(x as int, y as int),
    {
        proof {
            lemma_index_in_range(x as int, y as int, self.base as int, self.height as int);
        }
        let index = 3 * (y * self.base + x);
        Color::from_rgb(self.data[index], self.data[index + 1], self.data[index + 2])
    }

    /// The colour of the pixel at `(x, y)`, or nothing outside the raster.
    pub fn get_color_checked(&self, x: usize, y: usize) -> (color: Option<Color>)
        requires
            self.well_formed(),
        ensures
            color == if self@.in_bounds(x as int, y as int) {
                Some(self@.pixel(x as int, y as int))
            } else {
                None
            },
    {
        if x < self.base && y < self.height {
            Some(self.get_color(x, y))
        } else {
            None
        }
    }
}

} // verus!
