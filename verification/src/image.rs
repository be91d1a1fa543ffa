use vstd::prelude::*;

verus! {

/// A grid of pixels, `width` across and `height` down, stored row by row.
pub struct Image<P> {
    width: usize,
    height: usize,
    image_data: Vec<P>,
}

impl<P: Copy> Image<P> {
    /// The number of columns.
    pub closed spec fn spec_width(&self) -> nat {
        self.width as nat
    }

    /// The number of rows.
    pub closed spec fn spec_height(&self) -> nat {
        self.height as nat
    }

    /// The pixels, row after row.
    pub closed spec fn view(&self) -> Seq<P> {
        self.image_data@
    }

    /// There is one pixel for each place of the grid.
    pub closed spec fn wf(&self) -> bool {
        self.image_data@.len() == self.width * self.height
    }

    /// The pixel in row `row`, column `col`.
    pub open spec fn pixel(&self, row: int, col: int) -> P {
        self@[row * self.spec_width() + col]
    }

    /// A well-formed grid holds `width * height` pixels.
    pub proof fn lemma_size(&self)
        requires
            self.wf(),
        ensures
            self@.len() == self.spec_width() * self.spec_height(),
    {
    }

    /// A grid with `fill` in every place.
    pub fn new(width: usize, height: usize, fill: P) -> (r: Self)
        requires
            width * height <= usize::MAX,
        ensures
            r.wf(),
            r.spec_width() == width,
            r.spec_height() == height,
            r@.len() == width * height,
            forall|i: int| 0 <= i < r@.len() ==> r@[i] == fill,
    {
        let count: usize = width * height;
        let mut image_data: Vec<P> = Vec::with_capacity(count);
        let mut i: usize = 0;
        while i < count
            invariant
                i <= count,
                image_data@.len() == i,
                forall|k: int| 0 <= k < i ==> image_data@[k] == fill,
            decreases count - i,
        {
            image_data.push(fill);
            i = i + 1;
        }
        Image { width, height, image_data }
    }

    pub fn width(&self) -> (r: usize)
        ensures
            r == self.spec_width(),
    {
        self.width
    }

    pub fn height(&self) -> (r: usize)
        ensures
            r == self.spec_height(),
    {
        self.height
    }

    /// Puts `color` at row `row`, column `col`. Every other pixel stays.
    pub fn set_pixel(&mut self, color: P, row: usize, col: usize)
        requires
            old(self).wf(),
            row * old(self).spec_width() + col < old(self)@.len(),
        ensures
            final(self).wf(),
            final(self).spec_width() == old(self).spec_width(),
            final(self).spec_height() == old(self).spec_height(),
            final(self)@ == old(self)@.update(row * old(self).spec_width() + col, color),
    {
        let count: usize = self.image_data.len();
        assert(0 <= row * self.width) by (nonlinear_arith);
        assert(row * self.width + col < count);
        let index: usize = row * self.width + col;
        self.image_data.set(index, color);
    }

    /// The pixel at row `row`, column `col`.
    pub fn get_pixel(&self, row: usize, col: usize) -> (r: P)
        requires
            self.wf(),
            row * self.spec_width() + col < self@.len(),
        ensures
            r == self.pixel(row as int, col as int),
    {
        let count: usize = self.image_data.len();
        assert(0 <= row * self.width) by (nonlinear_arith);
        assert(row * self.width + col < count);
        let index: usize = row * self.width + col;
        self.image_data[index]
    }
}

/// A place inside the grid has its own slot: the slot lies within the data,
/// and two different places never share one.
pub proof fn lemma_slots(width: nat, height: nat, row: nat, col: nat, row2: nat, col2: nat)
    requires
        row < height,
        col < width,
        row2 < height,
        col2 < width,
    ensures
        row * width + col < width * height,
        (row * width + col == row2 * width + col2) ==> (row == row2 && col == col2),
{
    assert(row * width + col < width * height) by (nonlinear_arith)
        requires
            row < height,
            col < width,
    ;
    if row < row2 {
        assert(row * width + col < row2 * width + col2) by (nonlinear_arith)
            requires
                row < row2,
                col < width,
        ;
    } else if row2 < row {
        assert(row2 * width + col2 < row * width + col) by (nonlinear_arith)
            requires
                row2 < row,
                col2 < width,
        ;
    }
}

/// The place, along an axis of `len` pixels, of a coordinate that was scaled
/// to `scaled`: the coordinate's own place, or the last place where it lies
/// beyond.
pub fn pixel_index(scaled: usize, len: usize) -> (r: usize)
    requires
        len > 0,
    ensures
        r == if scaled <= len - 1 {
            scaled as int
        } else {
            len - 1
        },
        r < len,
{
    if scaled < len {
        scaled
    } else {
        len - 1
    }
}

/// A decoded picture: three bytes for each pixel, row by row.
pub struct ExtImage {
    width: usize,
    height: usize,
    data: Vec<u8>,
}

impl ExtImage {
    pub closed spec fn spec_width(&self) -> nat {
        self.width as nat
    }

    pub closed spec fn spec_height(&self) -> nat {
        self.height as nat
    }

    /// The bytes, three for each pixel, row after row.
    pub closed spec fn bytes(&self) -> Seq<u8> {
        self.data@
    }

    /// There are three bytes for each pixel.
    pub closed spec fn wf(&self) -> bool {
        self.data@.len() == 3 * (self.width * self.height)
    }

    /// The picture of `width` by `height` pixels over `data`, or `None`
    /// unless `data` holds exactly three bytes for each pixel.
    pub fn from_raw(width: usize, height: usize, data: Vec<u8>) -> (r: Option<Self>)
        ensures
            r.is_some() == (data@.len() == 3 * (width * height)),
            r.is_some() ==> r.unwrap().wf() && r.unwrap().spec_width() == width
                && r.unwrap().spec_height() == height && r.unwrap().bytes() == data@,
    {
        assert(0 <= width * height) by (nonlinear_arith);
        let given: usize = data.len();
        match width.checked_mul(height) {
            Some(count) => match count.checked_mul(3) {
                Some(wanted) => {
                    assert(wanted == 3 * (width * height));
                    if given == wanted {
                        Some(ExtImage { width, height, data })
                    } else {
                        None
                    }
                },
                None => None,
            },
            None => None,
        }
    }

    pub fn width(&self) -> (r: usize)
        ensures
            r == self.spec_width(),
    {
        self.width
    }

    pub fn height(&self) -> (r: usize)
        ensures
            r == self.spec_height(),
    {
        self.height
    }

    /// The red, green and blue bytes of the pixel in column `x`, row `y`.
    pub fn pixel_data(&self, x: usize, y: usize) -> (r: [u8; 3])
        requires
            self.wf(),
            x < self.spec_width(),
            y < self.spec_height(),
        ensures
            r@ == self.bytes().subrange(
                3 * (y * self.spec_width() + x),
                3 * (y * self.spec_width() + x) + 3,
            ),
    {
        proof {
            lemma_slots(self.width as nat, self.height as nat, y as nat, x as nat, y as nat, x as nat);
            assert(0 <= y * self.width) by (nonlinear_arith);
        }
        let count: usize = self.data.len();
        assert(3 * (y * self.width + x) + 3 <= count);
        let base: usize = 3 * (y * self.width + x);
        let r: [u8; 3] = [self.data[base], self.data[base + 1], self.data[base + 2]];
        assert(r@ =~= self.data@.subrange(base as int, base + 3));
        r
    }
}

} // verus!
