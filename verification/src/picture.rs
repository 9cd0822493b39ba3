//! Colors and the bounds-checked pixel grid.

use crate::point::Point;
use vstd::prelude::*;

verus! {

/// An exact color: three 8-bit channels, compared channel by channel.
#[derive(Debug, Clone, Copy, PartialEq, Eq, Hash, Structural)]
pub struct Color {
    pub r: u8,
    pub g: u8,
    pub b: u8,
}

impl Color {
    /// The color with the given channels.
    pub fn from(r: u8, g: u8, b: u8) -> (c: Color)
        ensures
            c == (Color { r, g, b }),
    {
        Color { r, g, b }
    }

    /// Whether the color belongs to the palette reserved for loop markers:
    /// no green, no blue, and a red channel short of full.
    pub open spec fn is_loop_marker(self) -> bool {
        self.g == 0 && self.b == 0 && self.r != 255
    }

    /// Tells whether the color belongs to the loop-marker palette.
    pub fn loop_marker(self) -> (marker: bool)
        ensures
            marker == self.is_loop_marker(),
    {
        self.g == 0 && self.b == 0 && self.r != 255
    }
}

pub open spec fn spec_red() -> Color {
    Color { r: 255, g: 0, b: 0 }
}

pub open spec fn spec_green() -> Color {
    Color { r: 0, g: 255, b: 0 }
}

pub open spec fn spec_blue() -> Color {
    Color { r: 0, g: 0, b: 255 }
}

pub open spec fn spec_yellow() -> Color {
    Color { r: 255, g: 255, b: 0 }
}

pub open spec fn spec_white() -> Color {
    Color { r: 255, g: 255, b: 255 }
}

pub open spec fn spec_black() -> Color {
    Color { r: 0, g: 0, b: 0 }
}

/// Pure red.
#[verifier::when_used_as_spec(spec_red)]
pub fn red() -> (c: Color)
    ensures
        c == spec_red(),
{
    Color { r: 255, g: 0, b: 0 }
}

/// Pure green.
#[verifier::when_used_as_spec(spec_green)]
pub fn green() -> (c: Color)
    ensures
        c == spec_green(),
{
    Color { r: 0, g: 255, b: 0 }
}

/// Pure blue: the function color of a definition without corner markers.
#[verifier::when_used_as_spec(spec_blue)]
pub fn blue() -> (c: Color)
    ensures
        c == spec_blue(),
{
    Color { r: 0, g: 0, b: 255 }
}

/// Yellow.
#[verifier::when_used_as_spec(spec_yellow)]
pub fn yellow() -> (c: Color)
    ensures
        c == spec_yellow(),
{
    Color { r: 255, g: 255, b: 0 }
}

/// White: the background, which is never part of a symbol.
#[verifier::when_used_as_spec(spec_white)]
pub fn white() -> (c: Color)
    ensures
        c == spec_white(),
{
    Color { r: 255, g: 255, b: 255 }
}

/// Black.
#[verifier::when_used_as_spec(spec_black)]
pub fn black() -> (c: Color)
    ensures
        c == spec_black(),
{
    Color { r: 0, g: 0, b: 0 }
}

/// The mathematical content of a picture: its dimensions and its colors, row
/// by row from the top.
pub struct Grid {
    pub width: int,
    pub height: int,
    pub cells: Seq<Color>,
}

impl Grid {
    /// The grid is as large as its dimensions say, and every position of it
    /// is a `Point`.
    pub open spec fn wf(self) -> bool {
        &&& 0 <= self.width <= i32::MAX
        &&& 0 <= self.height <= i32::MAX
        &&& self.cells.len() == self.width * self.height
    }

    /// Whether the coordinates `x`, `y` name a position of the grid.
    pub open spec fn holds(self, x: int, y: int) -> bool {
        0 <= x < self.width && 0 <= y < self.height
    }

    /// Whether `p` is a position of the grid.
    pub open spec fn contains(self, p: Point) -> bool {
        self.holds(p.x as int, p.y as int)
    }

    /// The place of column `x` of row `y` in the row-major storage.
    pub open spec fn offset(self, x: int, y: int) -> int {
        y * self.width + x
    }

    /// The color at column `x` of row `y`.
    pub open spec fn pixel(self, x: int, y: int) -> Color
        recommends
            self.holds(x, y),
    {
        self.cells[self.offset(x, y)]
    }

    /// The color at position `p`.
    pub open spec fn color_at(self, p: Point) -> Color
        recommends
            self.contains(p),
    {
        self.pixel(p.x as int, p.y as int)
    }

    /// The grid with the color at column `x` of row `y` replaced by `c`.
    pub open spec fn with_pixel(self, x: int, y: int, c: Color) -> Grid
        recommends
            self.holds(x, y),
    {
        Grid { cells: self.cells.update(self.offset(x, y), c), ..self }
    }

    /// The grid with the color at position `p` replaced by `c`.
    pub open spec fn with_color_at(self, p: Point, c: Color) -> Grid
        recommends
            self.contains(p),
    {
        self.with_pixel(p.x as int, p.y as int, c)
    }

    /// A position of a well-formed grid has its place inside the storage.
    pub proof fn lemma_offset_in_range(self, x: int, y: int)
        requires
            self.wf(),
            self.holds(x, y),
        ensures
            0 <= self.offset(x, y) < self.cells.len(),
    {
        lemma_offset_in_grid(self.width, self.height, x, y);
    }

    /// Replacing one color changes that position and no other.
    pub proof fn lemma_with_pixel(self, x: int, y: int, c: Color)
        requires
            self.wf(),
            self.holds(x, y),
        ensures
            self.with_pixel(x, y, c).wf(),
            self.with_pixel(x, y, c).pixel(x, y) == c,
            forall|x2: int, y2: int|
                self.holds(x2, y2) && (x2 != x || y2 != y) ==> #[trigger] self.with_pixel(
                    x,
                    y,
                    c,
                ).pixel(x2, y2) == self.pixel(x2, y2),
    {
        self.lemma_offset_in_range(x, y);
        assert forall|x2: int, y2: int| self.holds(x2, y2) && (x2 != x || y2 != y) implies (
        #[trigger] self.with_pixel(x, y, c).pixel(x2, y2)) == self.pixel(x2, y2) by {
            self.lemma_offset_in_range(x2, y2);
            if self.offset(x2, y2) == self.offset(x, y) {
                lemma_offset_injective(self.width, x, y, x2, y2);
            }
        }
    }

    /// Whether some position of the grid has color `c`.
    pub open spec fn has_color(self, c: Color) -> bool {
        exists|p: Point| self.contains(p) && #[trigger] self.color_at(p) == c
    }

    /// Whether `p` is the first position of color `c` when the grid is read row
    /// by row from the top, each row from the left.
    pub open spec fn is_first(self, c: Color, p: Point) -> bool {
        &&& self.contains(p)
        &&& self.color_at(p) == c
        &&& forall|q: Point|
            self.contains(q) && raster_before(q, p) ==> #[trigger] self.color_at(q) != c
    }

    /// The topmost, then leftmost, position of color `c`, if the grid has that color.
    pub open spec fn first_of(self, c: Color) -> Option<Point> {
        if exists|p: Point| self.is_first(c, p) {
            Some(choose|p: Point| self.is_first(c, p))
        } else {
            None
        }
    }

    /// A color has at most one first position, and `first_of` names it.
    pub proof fn lemma_first_of(self, c: Color, p: Point)
        requires
            self.is_first(c, p),
        ensures
            self.first_of(c) == Some(p),
            self.has_color(c),
    {
        let q = choose|q: Point| self.is_first(c, q);
        if q != p {
            if raster_before(q, p) {
                assert(self.color_at(q) != c);
            } else {
                assert(raster_before(p, q));
                assert(self.color_at(p) != c);
            }
        }
    }

    /// The color that all four corners share, unless they differ or are white.
    pub open spec fn corner_color(self) -> Option<Color>
        recommends
            self.width >= 1,
            self.height >= 1,
    {
        let one = self.pixel(0, 0);
        let two = self.pixel(self.width - 1, 0);
        let three = self.pixel(self.width - 1, self.height - 1);
        let four = self.pixel(0, self.height - 1);
        if one == two && two == three && three == four && one != white() {
            Some(one)
        } else {
            None
        }
    }
}

/// Whether `q` comes before `p` when a grid is read row by row from the top,
/// each row from the left.
pub open spec fn raster_before(q: Point, p: Point) -> bool {
    q.y < p.y || (q.y == p.y && q.x < p.x)
}

/// A grid of colors, stored row by row from the top.
#[derive(Debug, Clone)]
pub struct Picture {
    pub pixels: Vec<Color>,
    pub width: i32,
    pub height: i32,
}

impl View for Picture {
    type V = Grid;

    open spec fn view(&self) -> Grid {
        Grid { width: self.width as int, height: self.height as int, cells: self.pixels@ }
    }
}

/// A position inside a `width` by `height` grid has its row-major index inside
/// the grid's storage.
pub proof fn lemma_offset_in_grid(width: int, height: int, x: int, y: int)
    requires
        0 <= x < width,
        0 <= y < height,
    ensures
        0 <= y * width + x < width * height,
        0 <= y * width <= y * width + x,
{
    assert(0 <= y * width) by (nonlinear_arith)
        requires
            0 <= y,
            0 <= width,
    ;
    assert((y + 1) * width <= height * width) by (nonlinear_arith)
        requires
            y + 1 <= height,
            0 <= width,
    ;
    assert((y + 1) * width == y * width + width) by (nonlinear_arith);
    assert(height * width == width * height) by (nonlinear_arith);
}

/// Two positions of a grid with the same row-major index are the same position.
pub proof fn lemma_offset_injective(width: int, x1: int, y1: int, x2: int, y2: int)
    requires
        0 <= x1 < width,
        0 <= x2 < width,
        y1 * width + x1 == y2 * width + x2,
    ensures
        x1 == x2,
        y1 == y2,
{
    if y1 < y2 {
        assert((y2 - y1) * width >= width) by (nonlinear_arith)
            requires
                y2 - y1 >= 1,
                width >= 0,
        ;
        assert((y2 - y1) * width == y2 * width - y1 * width) by (nonlinear_arith);
    } else if y2 < y1 {
        assert((y1 - y2) * width >= width) by (nonlinear_arith)
            requires
                y1 - y2 >= 1,
                width >= 0,
        ;
        assert((y1 - y2) * width == y1 * width - y2 * width) by (nonlinear_arith);
    }
}

impl Picture {
    /// The storage is as large as the dimensions say.
    pub open spec fn wf(&self) -> bool {
        self@.wf()
    }

    /// Tells whether the storage is as large as the dimensions say.
    pub fn well_formed(&self) -> (ok: bool)
        ensures
            ok == self.wf(),
    {
        if self.width < 0 || self.height < 0 {
            return false;
        }
        assert(0 <= self.width * self.height <= 0x3fff_ffff_0000_0001) by (nonlinear_arith)
            requires
                0 <= self.width <= 0x7fff_ffff,
                0 <= self.height <= 0x7fff_ffff,
        ;
        let total: u64 = (self.width as u64) * (self.height as u64);
        self.pixels.len() as u64 == total
    }

    /// Returns whether or not a point is within the bounds of the picture.
    pub fn in_bounds(&self, p: Point) -> (inside: bool)
        ensures
            inside == self@.contains(p),
    {
        p.x < self.width && p.x >= 0 && p.y < self.height && p.y >= 0
    }

    fn offset_of(&self, x: i32, y: i32) -> (k: usize)
        requires
            self.wf(),
            self@.holds(x as int, y as int),
        ensures
            k == self@.offset(x as int, y as int),
            k < self.pixels@.len(),
    {
        proof {
            lemma_offset_in_grid(self.width as int, self.height as int, x as int, y as int);
            assert(self.pixels@.len() == self.pixels.len() <= usize::MAX);
        }
        let row: usize = y as usize;
        let columns: usize = self.width as usize;
        assert(row * columns == y * self.width) by (nonlinear_arith)
            requires
                row == y,
                columns == self.width,
        ;
        row * columns + (x as usize)
    }

    /// Gets a pixel's color.
    pub fn get(&self, x: i32, y: i32) -> (c: Color)
        requires
            self.wf(),
            self@.holds(x as int, y as int),
        ensures
            c == self@.pixel(x as int, y as int),
    {
        let k = self.offset_of(x, y);
        self.pixels[k]
    }

    /// Sets a pixel's color.
    pub fn set(&mut self, x: i32, y: i32, c: Color)
        requires
            old(self).wf(),
            old(self)@.holds(x as int, y as int),
        ensures
            final(self).wf(),
            final(self)@ == old(self)@.with_pixel(x as int, y as int, c),
    {
        let k = self.offset_of(x, y);
        self.pixels.set(k, c);
    }

    /// Gets the color at a position.
    pub fn get_point(&self, p: Point) -> (c: Color)
        requires
            self.wf(),
            self@.contains(p),
        ensures
            c == self@.color_at(p),
    {
        self.get(p.x, p.y)
    }

    /// Sets the color at a position.
    pub fn set_point(&mut self, p: Point, c: Color)
        requires
            old(self).wf(),
            old(self)@.contains(p),
        ensures
            final(self).wf(),
            final(self)@ == old(self)@.with_color_at(p, c),
    {
        self.set(p.x, p.y, c)
    }

    /// Returns a color if all 4 corners of the picture are the same color, and
    /// that color is not white.
    pub fn four_corners(&self) -> (shared: Option<Color>)
        requires
            self.wf(),
            self.width >= 1,
            self.height >= 1,
        ensures
            shared == self@.corner_color(),
    {
        let one = self.get(0, 0);
        let two = self.get(self.width - 1, 0);
        let three = self.get(self.width - 1, self.height - 1);
        let four = self.get(0, self.height - 1);
        if one != two || two != three || three != four {
            return None;
        }
        if one == white() {
            return None;
        }
        Some(one)
    }

    /// Finds the topmost, then leftmost, pixel of color `c`.
    pub fn find_first(&self, c: Color) -> (found: Option<Point>)
        requires
            self.wf(),
        ensures
            found == self@.first_of(c),
            found matches Some(p) ==> self@.is_first(c, p),
            found is None ==> !self@.has_color(c),
    {
        let mut j: i32 = 0;
        while j < self.height
            invariant
                self.wf(),
                0 <= j <= self.height,
                forall|q: Point| self@.contains(q) && q.y < j ==> #[trigger] self@.color_at(q) != c,
            decreases self.height - j,
        {
            let mut i: i32 = 0;
            while i < self.width
                invariant
                    self.wf(),
                    0 <= j < self.height,
                    0 <= i <= self.width,
                    forall|q: Point|
                        self@.contains(q) && q.y < j ==> #[trigger] self@.color_at(q) != c,
                    forall|q: Point|
                        self@.contains(q) && q.y == j && q.x < i ==> #[trigger] self@.color_at(q)
                            != c,
                decreases self.width - i,
            {
                if self.get(i, j) == c {
                    let p = Point::from(i, j);
                    proof {
                        self@.lemma_first_of(c, p);
                    }
                    return Some(p);
                }
                i = i + 1;
            }
            j = j + 1;
        }
        proof {
            assert forall|p: Point| !self@.is_first(c, p) by {
                if self@.contains(p) {
                    assert(self@.color_at(p) != c);
                }
            }
        }
        None
    }

    /// Returns a subpicture, inclusive bounds, from (x1, y1) -> (x2, y2).
    ///
    /// A region with `x2 < x1` or `y2 < y1` has no pixel.
    pub fn subpicture(&self, x1: i32, y1: i32, x2: i32, y2: i32) -> (sub: Picture)
        requires
            self.wf(),
            x1 <= x2 && y1 <= y2 ==> self@.holds(x1 as int, y1 as int) && self@.holds(
                x2 as int,
                y2 as int,
            ),
            i32::MIN <= x2 - x1 < i32::MAX,
            i32::MIN <= y2 - y1 < i32::MAX,
        ensures
            sub.width == x2 - x1 + 1,
            sub.height == y2 - y1 + 1,
            x1 <= x2 && y1 <= y2 ==> sub.wf(),
            forall|x: int, y: int|
                x1 <= x <= x2 && y1 <= y <= y2 ==> #[trigger] sub@.pixel(x - x1, y - y1)
                    == self@.pixel(x, y),
            x1 > x2 || y1 > y2 ==> sub.pixels@.len() == 0,
    {
        let mut vec: Vec<Color> = Vec::new();
        let width = (x2 - x1) + 1;
        let height = (y2 - y1) + 1;
        if x1 > x2 || y1 > y2 {
            return Picture { pixels: vec, width, height };
        }
        let mut j = y1;
        while j <= y2
            invariant
                self.wf(),
                0 <= x1 <= x2 < self.width,
                0 <= y1 <= y2 < self.height,
                width == x2 - x1 + 1,
                y1 <= j <= y2 + 1,
                vec@.len() == (j - y1) * width,
                forall|x: int, y: int|
                    x1 <= x <= x2 && y1 <= y < j ==> vec@[(y - y1) * width + (x - x1)]
                        == #[trigger] self@.pixel(x, y),
            decreases y2 + 1 - j,
        {
            let mut i = x1;
            while i <= x2
                invariant
                    self.wf(),
                    0 <= x1 <= x2 < self.width,
                    0 <= y1 <= j <= y2 < self.height,
                    width == x2 - x1 + 1,
                    x1 <= i <= x2 + 1,
                    vec@.len() == (j - y1) * width + (i - x1),
                    forall|x: int, y: int|
                        x1 <= x <= x2 && y1 <= y < j ==> vec@[(y - y1) * width + (x - x1)]
                            == #[trigger] self@.pixel(x, y),
                    forall|x: int|
                        x1 <= x < i ==> vec@[(j - y1) * width + (x - x1)] == #[trigger] self@.pixel(
                            x,
                            j as int,
                        ),
                decreases x2 + 1 - i,
            {
                let ghost before = vec@;
                vec.push(self.get(i, j));
                proof {
                    assert forall|x: int, y: int| x1 <= x <= x2 && y1 <= y < j implies vec@[(y - y1)
                        * width + (x - x1)] == #[trigger] self@.pixel(x, y) by {
                        lemma_offset_in_grid(width as int, (j - y1) as int, x - x1, y - y1);
                        assert(before[(y - y1) * width + (x - x1)] == self@.pixel(x, y));
                    }
                }
                i = i + 1;
            }
            proof {
                assert((j + 1 - y1) * width == (j - y1) * width + width) by (nonlinear_arith);
                assert forall|x: int, y: int| x1 <= x <= x2 && y1 <= y < j + 1 implies vec@[(y - y1)
                    * width + (x - x1)] == #[trigger] self@.pixel(x, y) by {
                    if y == j {
                        assert(vec@[(j - y1) * width + (x - x1)] == self@.pixel(x, j as int));
                    }
                }
            }
            j = j + 1;
        }
        let sub = Picture { pixels: vec, width, height };
        proof {
            assert(sub@.cells.len() == sub@.width * sub@.height) by (nonlinear_arith)
                requires
                    sub@.cells.len() == (y2 + 1 - y1) * width,
                    sub@.width == width,
                    sub@.height == y2 - y1 + 1,
            ;
            assert forall|x: int, y: int| x1 <= x <= x2 && y1 <= y <= y2 implies #[trigger] sub@.pixel(
                x - x1,
                y - y1,
            ) == self@.pixel(x, y) by {
                assert(vec@[(y - y1) * width + (x - x1)] == self@.pixel(x, y));
            }
        }
        sub
    }

    /// Returns the picture with columns and rows exchanged: the pixel at
    /// column `i` of row `j` goes to column `j` of row `i`.
    pub fn rotate(&self) -> (turned: Picture)
        requires
            self.wf(),
        ensures
            turned.wf(),
            turned.width == self.height,
            turned.height == self.width,
            forall|i: int, j: int|
                self@.holds(i, j) ==> #[trigger] turned@.pixel(j, i) == self@.pixel(i, j),
    {
        let mut pixels: Vec<Color> = Vec::new();
        while pixels.len() < self.pixels.len()
            invariant
                pixels@.len() <= self.pixels@.len(),
            decreases self.pixels@.len() - pixels@.len(),
        {
            pixels.push(white());
        }
        let mut new_picture = Picture { width: self.height, height: self.width, pixels };
        assert(new_picture@.cells.len() == new_picture@.width * new_picture@.height)
            by (nonlinear_arith)
            requires
                new_picture@.cells.len() == self.width * self.height,
                new_picture@.width == self.height,
                new_picture@.height == self.width,
        ;
        let mut i: i32 = 0;
        while i < self.width
            invariant
                self.wf(),
                new_picture.wf(),
                new_picture.width == self.height,
                new_picture.height == self.width,
                0 <= i <= self.width,
                forall|x: int, y: int|
                    0 <= x < i && 0 <= y < self.height ==> #[trigger] new_picture@.pixel(y, x)
                        == self@.pixel(x, y),
            decreases self.width - i,
        {
            let mut j: i32 = 0;
            while j < self.height
                invariant
                    self.wf(),
                    new_picture.wf(),
                    new_picture.width == self.height,
                    new_picture.height == self.width,
                    0 <= i < self.width,
                    0 <= j <= self.height,
                    forall|x: int, y: int|
                        0 <= x < i && 0 <= y < self.height ==> #[trigger] new_picture@.pixel(y, x)
                            == self@.pixel(x, y),
                    forall|y: int|
                        0 <= y < j ==> #[trigger] new_picture@.pixel(y, i as int) == self@.pixel(
                            i as int,
                            y,
                        ),
                decreases self.height - j,
            {
                proof {
                    new_picture@.lemma_with_pixel(j as int, i as int, self@.pixel(i as int, j as int));
                }
                let ghost before = new_picture@;
                new_picture.set(j, i, self.get(i, j));
                proof {
                    assert forall|x: int, y: int| 0 <= x < i && 0 <= y < self.height implies (
                    #[trigger] new_picture@.pixel(y, x)) == self@.pixel(x, y) by {
                        assert(before.holds(y, x));
                        assert(before.pixel(y, x) == self@.pixel(x, y));
                    }
                    assert forall|y: int| 0 <= y < j + 1 implies #[trigger] new_picture@.pixel(
                        y,
                        i as int,
                    ) == self@.pixel(i as int, y) by {
                        if y < j {
                            assert(before.holds(y, i as int));
                            assert(before.pixel(y, i as int) == self@.pixel(i as int, y));
                        }
                    }
                }
                j = j + 1;
            }
            i = i + 1;
        }
        new_picture
    }

    /// The picture of `width` by `height` pixels whose colors `data` holds:
    /// red, green and blue of each pixel, row by row from the top. `None`
    /// where a dimension is more than a coordinate can be, or `data` is too
    /// short.
    pub fn from_raw(width: u32, height: u32, data: &[u8]) -> (made: Option<Picture>)
        ensures
            match made {
                Some(p) => raw_fits(width as int, height as int, data@) && p@ == raw_grid(
                    width as int,
                    height as int,
                    data@,
                ) && p.wf(),
                None => !raw_fits(width as int, height as int, data@),
            },
    {
        if width > i32::MAX as u32 || height > i32::MAX as u32 {
            return None;
        }
        assert(0 <= width * height <= 0x3fff_ffff_0000_0001) by (nonlinear_arith)
            requires
                0 <= width <= 0x7fff_ffff,
                0 <= height <= 0x7fff_ffff,
        ;
        let total: u64 = (width as u64) * (height as u64);
        if 3 * total > data.len() as u64 {
            return None;
        }
        let count: usize = total as usize;
        let mut pixels: Vec<Color> = Vec::new();
        let mut c: usize = 0;
        while c < count
            invariant
                count == width * height,
                3 * count <= data@.len() <= usize::MAX,
                c <= count,
                pixels@.len() == c,
                forall|k: int|
                    0 <= k < c ==> #[trigger] pixels@[k] == (Color {
                        r: data@[3 * k],
                        g: data@[3 * k + 1],
                        b: data@[3 * k + 2],
                    }),
            decreases count - c,
        {
            let c3 = c * 3;
            let color = Color { r: data[c3], g: data[c3 + 1], b: data[c3 + 2] };
            pixels.push(color);
            c = c + 1;
        }
        let p = Picture { pixels, width: width as i32, height: height as i32 };
        assert(p@.cells =~= raw_grid(width as int, height as int, data@).cells);
        Some(p)
    }
}

/// Whether `data` holds the colors of a picture of `width` by `height`
/// pixels, and a coordinate can hold each dimension.
pub open spec fn raw_fits(width: int, height: int, data: Seq<u8>) -> bool {
    &&& 0 <= width <= i32::MAX
    &&& 0 <= height <= i32::MAX
    &&& 3 * (width * height) <= data.len()
}

/// The grid of `width` by `height` pixels whose colors `data` holds: three
/// bytes for each pixel, row by row from the top.
pub open spec fn raw_grid(width: int, height: int, data: Seq<u8>) -> Grid {
    Grid {
        width,
        height,
        cells: Seq::new(
            (width * height) as nat,
            |k: int| Color { r: data[3 * k], g: data[3 * k + 1], b: data[3 * k + 2] },
        ),
    }
}

} // verus!
