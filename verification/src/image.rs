//! The pixel grid: a dense two-dimensional buffer of direct colors with
//! row/column addressing, row 0 at the top. The flat backing buffer stores
//! the color for coordinate `(i, j)` at index `width * j + i`.

use vstd::prelude::*;

use crate::color::ARGB;

verus! {

/// A dense grid of direct colors. The backing buffer always holds exactly
/// `width * height` entries.
#[derive(Debug, Clone, PartialEq, Eq)]
pub struct Image {
    pub width: usize,
    pub height: usize,
    pub pixels: Vec<ARGB>,
}

impl Image {
    /// The grid keeps its backing buffer at exactly `width * height`
    /// entries.
    pub open spec fn wf(&self) -> bool {
        self.pixels@.len() == self.width * self.height
    }

    /// The color stored for coordinate `(i, j)`.
    pub open spec fn spec_at(&self, i: int, j: int) -> ARGB {
        self.pixels@[j * self.width + i]
    }

    /// A fresh grid of the given size filled with the default color.
    pub fn new(width: usize, height: usize) -> (r: Image)
        requires
            width * height <= usize::MAX,
        ensures
            r.width == width,
            r.height == height,
            r.wf(),
            forall|p: int| 0 <= p < r.pixels@.len() ==> r.pixels@[p] == (ARGB { red: 0, green: 0, blue: 0, alpha: 0 }),
    {
        let mut pixels: Vec<ARGB> = Vec::new();
        let n = width * height;
        let mut k: usize = 0;
        while k < n
            invariant
                k <= n,
                pixels@.len() == k,
                forall|p: int| 0 <= p < k ==> pixels@[p] == (ARGB { red: 0, green: 0, blue: 0, alpha: 0 }),
            decreases n - k,
        {
            pixels.push(ARGB::default());
            k = k + 1;
        }
        Image { width, height, pixels }
    }

    /// A grid of the given size over an existing buffer, which must hold
    /// exactly one color per coordinate.
    pub fn new_pixels(width: usize, height: usize, pixels: Vec<ARGB>) -> (r: Image)
        requires
            pixels@.len() == width * height,
        ensures
            r == (Image { width, height, pixels }),
    {
        Image { width, height, pixels }
    }

    /// The color at `(i, j)`, or `None` when the coordinate lies outside
    /// the grid.
    pub fn get(&self, i: usize, j: usize) -> (r: Option<ARGB>)
        requires
            self.wf(),
        ensures
            r == if i < self.width && j < self.height {
                Some(self.spec_at(i as int, j as int))
            } else {
                None::<ARGB>
            },
    {
        if i < self.width && j < self.height {
            let n = self.pixels.len();
            proof {
                lemma_grid_index_bound(i as int, j as int, self.width as int, self.height as int);
            }
            Some(self.pixels[j * self.width + i])
        } else {
            None
        }
    }

    /// Overwrite the color at `(i, j)`, which must lie inside the grid.
    pub fn set(&mut self, value: ARGB, i: usize, j: usize)
        requires
            old(self).wf(),
            i < old(self).width,
            j < old(self).height,
        ensures
            final(self).width == old(self).width,
            final(self).height == old(self).height,
            final(self).wf(),
            final(self).pixels@ == old(self).pixels@.update(
                j * old(self).width + i,
                value,
            ),
    {
        let n = self.pixels.len();
        proof {
            lemma_grid_index_bound(i as int, j as int, self.width as int, self.height as int);
        }
        let index = j * self.width + i;
        self.pixels.set(index, value);
    }

    /// The number of columns.
    pub fn width(&self) -> (r: usize)
        ensures
            r == self.width,
    {
        self.width
    }

    /// The number of rows.
    pub fn height(&self) -> (r: usize)
        ensures
            r == self.height,
    {
        self.height
    }

    /// The number of pixels in the grid.
    pub fn length(&self) -> (r: usize)
        requires
            self.wf(),
        ensures
            r == self.width * self.height,
    {
        proof {
            assert(self.width * self.height == self.pixels@.len());
        }
        self.pixels.len()
    }

    /// A borrowed view of scanline `j`.
    pub fn row(&self, j: usize) -> (r: &[ARGB])
        requires
            self.wf(),
            j < self.height,
        ensures
            r@ == self.pixels@.subrange(
                j * self.width as int,
                j * self.width + self.width,
            ),
    {
        let n = self.pixels.len();
        proof {
            lemma_grid_row_bound(j as int, self.width as int, self.height as int);
        }
        let start = j * self.width;
        let end = start + self.width;
        vstd::slice::slice_subrange(self.pixels.as_slice(), start, end)
    }

    /// A cursor over the rows of this grid, starting at the top.
    pub fn iter<'a>(&'a self) -> (r: ImageIterator<'a>)
        ensures
            r.image == self,
            r.row == 0,
    {
        ImageIterator::new(self)
    }
}

/// `width * j + i` stays inside a `width * height` buffer when `(i, j)` is
/// inside the grid.
#[verifier::nonlinear]
proof fn lemma_grid_index_bound(i: int, j: int, width: int, height: int)
    requires
        0 <= i < width,
        0 <= j < height,
    ensures
        0 <= j * width + i < width * height,
        j * width + i == i + j * width,
{
}

/// A full row `j` lies inside a `width * height` buffer.
#[verifier::nonlinear]
proof fn lemma_grid_row_bound(j: int, width: int, height: int)
    requires
        0 <= j < height,
        0 <= width,
    ensures
        0 <= j * width,
        j * width + width <= width * height,
{
}

/// A cursor over the rows of an `Image`, from the top row downward.
pub struct ImageIterator<'a> {
    pub image: &'a Image,
    pub row: usize,
}

impl<'a> ImageIterator<'a> {
    /// A cursor positioned at the top row.
    pub fn new(image: &'a Image) -> (r: Self)
        ensures
            r.image == image,
            r.row == 0,
    {
        ImageIterator { image, row: 0 }
    }

    /// The next row from the top, advancing the cursor, or `None` once all
    /// rows have been produced.
    pub fn next_row(&mut self) -> (r: Option<&'a [ARGB]>)
        requires
            old(self).image.wf(),
            old(self).row <= old(self).image.height,
        ensures
            final(self).image == old(self).image,
            old(self).row < old(self).image.height ==> {
                &&& final(self).row == old(self).row + 1
                &&& r matches Some(s) && s@ == old(self).image.pixels@.subrange(
                    old(self).row * old(self).image.width as int,
                    old(self).row * old(self).image.width + old(self).image.width,
                )
            },
            old(self).row >= old(self).image.height ==> r is None && final(self).row == old(
                self,
            ).row,
    {
        if self.row < self.image.height {
            let r = self.image.row(self.row);
            self.row = self.row + 1;
            Some(r)
        } else {
            None
        }
    }
}

} // verus!
