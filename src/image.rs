use vstd::prelude::*;
use vstd::arithmetic::div_mod::lemma_fundamental_div_mod_converse;

verus! {

/// One finished pixel: gamma-corrected channels quantised to 8 bits.
#[derive(Clone, Copy, Debug, PartialEq, Eq, Structural)]
pub struct Rgb {
    pub r: u8,
    pub g: u8,
    pub b: u8,
}

impl Rgb {
    /// The pixel with the given channels.
    pub fn new(r: u8, g: u8, b: u8) -> (px: Rgb)
        ensures
            px == (Rgb { r, g, b }),
    {
        Rgb { r, g, b }
    }

    /// The black pixel, `(0, 0, 0)`.
    pub fn black() -> (px: Rgb)
        ensures
            px == (Rgb { r: 0, g: 0, b: 0 }),
    {
        Rgb { r: 0, g: 0, b: 0 }
    }
}

/// Where pixel `(i, j)` stands in the output stream.
///
/// Image coordinates follow the camera: `i` counts columns from the left and `j`
/// counts scanlines from the bottom. The output starts at the top-left corner
/// and runs row by row, so the top scanline `j == height - 1` comes first.
pub open spec fn output_position(width: int, height: int, i: int, j: int) -> int {
    (height - 1 - j) * width + i
}

/// The pixel `(i, j)` that stands at `position` in the output stream.
pub open spec fn pixel_at_position(width: int, height: int, position: int) -> (int, int) {
    (position % width, height - 1 - position / width)
}

/// Output positions and in-range pixel coordinates correspond one to one:
/// each pixel of a `width` by `height` image has exactly one position below
/// `width * height`, and each such position names exactly one pixel.
pub proof fn lemma_output_order_is_bijective(width: int, height: int)
    requires
        width > 0,
        height > 0,
    ensures
        forall|i: int, j: int|
            0 <= i < width && 0 <= j < height ==> {
                let k = #[trigger] output_position(width, height, i, j);
                &&& 0 <= k < width * height
                &&& pixel_at_position(width, height, k) == (i, j)
            },
        forall|k: int|
            0 <= k < width * height ==> {
                let (i, j) = #[trigger] pixel_at_position(width, height, k);
                &&& 0 <= i < width
                &&& 0 <= j < height
                &&& output_position(width, height, i, j) == k
            },
{
    assert forall|i: int, j: int| 0 <= i < width && 0 <= j < height implies {
        let k = #[trigger] output_position(width, height, i, j);
        &&& 0 <= k < width * height
        &&& pixel_at_position(width, height, k) == (i, j)
    } by {
        let row = height - 1 - j;
        let k = row * width + i;
        lemma_fundamental_div_mod_converse(k, width, row, i);
        assert(0 <= row * width) by (nonlinear_arith)
            requires
                0 <= row,
                0 < width,
        ;
        assert(row * width + i < width * height) by (nonlinear_arith)
            requires
                row < height,
                0 <= i < width,
        ;
    }
    assert forall|k: int| 0 <= k < width * height implies {
        let (i, j) = #[trigger] pixel_at_position(width, height, k);
        &&& 0 <= i < width
        &&& 0 <= j < height
        &&& output_position(width, height, i, j) == k
    } by {
        lemma_position_row(width, height, k);
    }
}

/// The scanline of an in-range output position lies inside the image.
proof fn lemma_position_row(width: int, height: int, k: int)
    requires
        width > 0,
        height > 0,
        0 <= k < width * height,
    ensures
        0 <= k / width < height,
        0 <= k % width < width,
        k == (k / width) * width + k % width,
{
    assert(0 <= k / width < height) by (nonlinear_arith)
        requires
            width > 0,
            0 <= k < width * height,
    ;
    assert(k == (k / width) * width + k % width) by (nonlinear_arith)
        requires
            width > 0,
    ;
}

/// The pixel `(i, j)` at `position` in the output stream.
pub fn scanline_pixel(width: usize, height: usize, position: usize) -> (p: (usize, usize))
    requires
        position < width * height,
    ensures
        p.0 == pixel_at_position(width as int, height as int, position as int).0,
        p.1 == pixel_at_position(width as int, height as int, position as int).1,
        p.0 < width,
        p.1 < height,
{
    proof {
        lemma_position_row(width as int, height as int, position as int);
    }
    (position % width, height - 1 - position / width)
}

/// Every pixel of a `width` by `height` image, in the order in which the
/// renderer hands them to the encoder: scanlines from the top (`j == height - 1`)
/// down to the bottom (`j == 0`), each from left to right.
pub fn scanline_order(width: usize, height: usize) -> (order: Vec<(usize, usize)>)
    requires
        width * height <= usize::MAX,
    ensures
        order@.len() == width * height,
        forall|k: int|
            0 <= k < order@.len() ==> {
                let (i, j) = #[trigger] order@[k];
                (i as int, j as int) == pixel_at_position(width as int, height as int, k)
            },
{
    let mut order: Vec<(usize, usize)> = Vec::new();
    let mut row: usize = 0;
    while row < height
        invariant
            row <= height,
            width * height <= usize::MAX,
            order@.len() == row * width,
            forall|k: int|
                0 <= k < order@.len() ==> {
                    let (i, j) = #[trigger] order@[k];
                    (i as int, j as int) == pixel_at_position(width as int, height as int, k)
                },
        decreases height - row,
    {
        let j = height - 1 - row;
        let mut i: usize = 0;
        assert(row * width + width <= width * height) by (nonlinear_arith)
            requires
                row < height,
        ;
        while i < width
            invariant
                row < height,
                j == height - 1 - row,
                i <= width,
                row * width + width <= width * height,
                width * height <= usize::MAX,
                order@.len() == row * width + i,
                forall|k: int|
                    0 <= k < order@.len() ==> {
                        let (i, j) = #[trigger] order@[k];
                        (i as int, j as int) == pixel_at_position(width as int, height as int, k)
                    },
            decreases width - i,
        {
            proof {
                lemma_fundamental_div_mod_converse(
                    (row * width + i) as int,
                    width as int,
                    row as int,
                    i as int,
                );
            }
            order.push((i, j));
            i = i + 1;
        }
        assert(row * width + width == (row + 1) * width) by (nonlinear_arith);
        row = row + 1;
    }
    assert(row * width == width * height) by (nonlinear_arith)
        requires
            row == height,
    ;
    order
}

/// A finished image: `width * height` pixels, held in output order.
///
/// Workers may finish pixels in any order; each result is placed by its pixel
/// coordinates, so the buffer always reads back in canonical scanline order.
pub struct Image {
    width: usize,
    height: usize,
    pixels: Vec<Rgb>,
}

impl View for Image {
    type V = Seq<Rgb>;

    /// The pixels in output order.
    closed spec fn view(&self) -> Seq<Rgb> {
        self.pixels@
    }
}

impl Image {
    #[verifier::type_invariant]
    spec fn holds_every_pixel(&self) -> bool {
        self.pixels@.len() == self.width * self.height
    }

    pub closed spec fn spec_width(&self) -> usize {
        self.width
    }

    pub closed spec fn spec_height(&self) -> usize {
        self.height
    }

    /// A black image of `width` by `height` pixels.
    pub fn new(width: usize, height: usize) -> (image: Image)
        requires
            width * height <= usize::MAX,
        ensures
            image.width() == width,
            image.height() == height,
            image@ == Seq::new((width * height) as nat, |k: int| Rgb { r: 0, g: 0, b: 0 }),
    {
        let n = width * height;
        let mut pixels: Vec<Rgb> = Vec::new();
        let mut k: usize = 0;
        while k < n
            invariant
                k <= n,
                pixels@ == Seq::new(k as nat, |k: int| Rgb { r: 0, g: 0, b: 0 }),
            decreases n - k,
        {
            pixels.push(Rgb::black());
            k = k + 1;
        }
        Image { width, height, pixels }
    }

    /// The number of columns.
    #[verifier::when_used_as_spec(spec_width)]
    pub fn width(&self) -> (w: usize)
        ensures
            w == self.spec_width(),
    {
        self.width
    }

    /// The number of scanlines.
    #[verifier::when_used_as_spec(spec_height)]
    pub fn height(&self) -> (h: usize)
        ensures
            h == self.spec_height(),
    {
        self.height
    }

    /// The number of pixels, which is always `width * height`.
    pub fn pixel_count(&self) -> (n: usize)
        ensures
            n == self@.len(),
            n == self.width() * self.height(),
    {
        proof {
            use_type_invariant(self);
        }
        self.pixels.len()
    }

    /// The pixel at `position` in output order.
    pub fn at(&self, position: usize) -> (px: Rgb)
        requires
            position < self@.len(),
        ensures
            px == self@[position as int],
    {
        self.pixels[position]
    }

    /// The output position of pixel `(i, j)`.
    fn position_of(&self, i: usize, j: usize) -> (k: usize)
        requires
            i < self.width(),
            j < self.height(),
        ensures
            k == output_position(self.width() as int, self.height() as int, i as int, j as int),
            k < self@.len(),
    {
        proof {
            use_type_invariant(self);
            lemma_output_order_is_bijective(self.width as int, self.height as int);
            let k = output_position(self.width as int, self.height as int, i as int, j as int);
            assert(output_position(self.width as int, self.height as int, i as int, j as int) == k);
        }
        let n = self.pixels.len();
        let row = self.height - 1 - j;
        assert(row * self.width + i < n);
        row * self.width + i
    }

    /// The pixel `(i, j)`: column `i` from the left, scanline `j` from the bottom.
    pub fn get(&self, i: usize, j: usize) -> (px: Rgb)
        requires
            i < self.width(),
            j < self.height(),
        ensures
            px == self@[output_position(self.width() as int, self.height() as int, i as int, j as int)],
    {
        let k = self.position_of(i, j);
        self.pixels[k]
    }

    /// Places `px` at pixel `(i, j)`, leaving every other pixel as it was.
    pub fn set(&mut self, i: usize, j: usize, px: Rgb)
        requires
            i < old(self).width(),
            j < old(self).height(),
        ensures
            final(self).width() == old(self).width(),
            final(self).height() == old(self).height(),
            final(self)@ == old(self)@.update(
                output_position(old(self).width() as int, old(self).height() as int, i as int, j as int),
                px,
            ),
    {
        proof {
            use_type_invariant(&*self);
        }
        let k = self.position_of(i, j);
        self.pixels[k] = px;
    }
}

} // verus!
