use vstd::prelude::*;

verus! {

/// An RGB color, one byte per channel.
pub type Color = (u8, u8, u8);

/// The pixel memory of a window: `height` rows of `width` colors, and the
/// packed frame (one `u32` per pixel, row-major) that is handed to the display.
pub struct Window {
    pub width: usize,
    pub height: usize,
    pub title: String,
    pub buffer: Vec<Vec<Color>>,
    pub frame: Vec<u32>,
}

impl Window {
    /// The rows of the pixel buffer as mathematical sequences.
    pub open spec fn pixels(&self) -> Seq<Seq<Color>> {
        self.buffer@.map_values(|row: Vec<Color>| row@)
    }

    /// The buffer has `height` rows of `width` pixels and the frame one word per pixel.
    pub open spec fn well_formed(&self) -> bool {
        &&& self.buffer@.len() == self.height
        &&& forall|y: int| 0 <= y < self.height ==> #[trigger] self.buffer@[y]@.len() == self.width
        &&& self.frame@.len() == self.width * self.height
    }
}

/// The color of every pixel of a freshly cleared buffer.
pub open spec fn black() -> Color {
    (0u8, 0u8, 0u8)
}

/// `height` rows of `width` copies of `c`.
pub open spec fn filled(width: nat, height: nat, c: Color) -> Seq<Seq<Color>> {
    Seq::new(height, |y: int| Seq::new(width, |x: int| c))
}

/// Builds `height` rows of `width` black pixels.
fn black_rows(width: usize, height: usize) -> (rows: Vec<Vec<Color>>)
    ensures
        rows@.len() == height,
        forall|y: int| 0 <= y < height ==> #[trigger] rows@[y]@ == Seq::new(width as nat, |x: int| black()),
{
    let mut rows: Vec<Vec<Color>> = Vec::new();
    let mut y: usize = 0;
    while y < height
        invariant
            y <= height,
            rows@.len() == y,
            forall|k: int| 0 <= k < y ==> #[trigger] rows@[k]@ =~= Seq::new(width as nat, |x: int| black()),
        decreases height - y,
    {
        let mut row: Vec<Color> = Vec::new();
        let mut x: usize = 0;
        while x < width
            invariant
                x <= width,
                row@ =~= Seq::new(x as nat, |i: int| black()),
            decreases width - x,
        {
            row.push((0u8, 0u8, 0u8));
            x = x + 1;
        }
        rows.push(row);
        y = y + 1;
    }
    rows
}

/// Whether `(x, y)` lies in a `width` by `height` window, with the extents
/// read as `i32` the way the window compares them.
pub open spec fn in_bounds_spec(width: usize, height: usize, x: int, y: int) -> bool {
    &&& 0 <= x
    &&& 0 <= y
    &&& x < (width as i32)
    &&& y < (height as i32)
}

/// The pixels `p` with the pixel in row `y`, column `x` set to `c`.
pub open spec fn paint(p: Seq<Seq<Color>>, x: int, y: int, c: Color) -> Seq<Seq<Color>> {
    p.update(y, p[y].update(x, c))
}

/// The pixels after plotting `(x, y)` when it is in bounds, unchanged otherwise.
pub open spec fn paint_in_bounds(
    p: Seq<Seq<Color>>,
    width: usize,
    height: usize,
    x: int,
    y: int,
    c: Color,
) -> Seq<Seq<Color>> {
    if in_bounds_spec(width, height, x, y) {
        paint(p, x, y, c)
    } else {
        p
    }
}

/// The word that represents a color in the packed frame: `0x00RRGGBB`.
pub open spec fn packed(c: Color) -> u32 {
    (c.0 as int * 65536 + c.1 as int * 256 + c.2 as int) as u32
}

/// Position of pixel `(x, y)` in the row-major packed frame of a window `width` wide.
pub open spec fn pixel_index(width: int, x: int, y: int) -> int {
    y * width + x
}

/// A point in bounds lies inside the buffer.
pub proof fn lemma_in_bounds_inside(width: usize, height: usize, x: int, y: int)
    requires
        in_bounds_spec(width, height, x, y),
    ensures
        x < width,
        y < height,
{
    assert(0 < (width as i32) ==> ((width as i32) as usize) <= width) by (bit_vector);
    assert(0 < (height as i32) ==> ((height as i32) as usize) <= height) by (bit_vector);
}

/// For a window whose extents fit in `i32`, a point is in bounds exactly when
/// its coordinates index a pixel of the buffer.
pub proof fn lemma_in_bounds_exact(width: usize, height: usize, x: int, y: int)
    requires
        width <= i32::MAX,
        height <= i32::MAX,
    ensures
        in_bounds_spec(width, height, x, y) <==> (0 <= x < width && 0 <= y < height),
{
    assert(width <= 0x7fff_ffffusize ==> (width as i32) as usize == width) by (bit_vector);
    assert(height <= 0x7fff_ffffusize ==> (height as i32) as usize == height) by (bit_vector);
    assert(width <= 0x7fff_ffffusize ==> 0 <= (width as i32)) by (bit_vector);
    assert(height <= 0x7fff_ffffusize ==> 0 <= (height as i32)) by (bit_vector);
}

proof fn lemma_in_bounds_exact_when_fits(width: usize, height: usize, x: int, y: int)
    ensures
        width <= i32::MAX && height <= i32::MAX ==> (in_bounds_spec(width, height, x, y) <==> (0 <= x
            < width && 0 <= y < height)),
{
    if width <= i32::MAX && height <= i32::MAX {
        lemma_in_bounds_exact(width, height, x, y);
    }
}

/// Painting one pixel keeps the shape of the buffer, sets that pixel and
/// leaves every other pixel as it was.
pub proof fn lemma_paint_sets_one_pixel(p: Seq<Seq<Color>>, x: int, y: int, c: Color)
    requires
        0 <= y < p.len(),
        0 <= x < p[y].len(),
    ensures
        paint(p, x, y, c).len() == p.len(),
        forall|yy: int| 0 <= yy < p.len() ==> #[trigger] paint(p, x, y, c)[yy].len() == p[yy].len(),
        paint(p, x, y, c)[y][x] == c,
        forall|xx: int, yy: int|
            0 <= yy < p.len() && 0 <= xx < p[yy].len() && (xx, yy) != (x, y) ==> #[trigger] paint(
                p,
                x,
                y,
                c,
            )[yy][xx] == p[yy][xx],
{
}

/// The frame is laid out row by row: pixel `(x, y)` is word `y * width + x`.
pub proof fn lemma_pixel_index_row_major(width: int, x: int, y: int)
    ensures
        pixel_index(width, x, y) == y * width + x,
{
}

proof fn lemma_pixel_index_bound(width: int, height: int, x: int, y: int)
    requires
        0 <= x < width,
        0 <= y < height,
    ensures
        0 <= pixel_index(width, x, y) < width * height,
{
    assert(0 <= y * width + x < width * height) by (nonlinear_arith)
        requires
            0 <= x < width,
            0 <= y < height,
    ;
}

proof fn lemma_pixel_index_injective(width: int, x1: int, y1: int, x2: int, y2: int)
    requires
        0 <= x1 < width,
        0 <= x2 < width,
        0 <= y1,
        0 <= y2,
        (x1, y1) != (x2, y2),
    ensures
        pixel_index(width, x1, y1) != pixel_index(width, x2, y2),
{
    if y1 == y2 {
    } else if y1 < y2 {
        assert(y1 * width + width <= y2 * width) by (nonlinear_arith)
            requires
                y1 < y2,
                0 <= width,
        ;
    } else {
        assert(y2 * width + width <= y1 * width) by (nonlinear_arith)
            requires
                y2 < y1,
                0 <= width,
        ;
    }
}

/// The three channels can be read back from a packed color: red in bits
/// 16..24, green in bits 8..16, blue in bits 0..8, and nothing above.
pub proof fn lemma_packed_channels(c: Color)
    ensures
        packed(c) >> 16u32 == c.0 as u32,
        (packed(c) >> 8u32) & 0xffu32 == c.1 as u32,
        packed(c) & 0xffu32 == c.2 as u32,
{
    let r = c.0 as u32;
    let g = c.1 as u32;
    let b = c.2 as u32;
    let v = packed(c);
    assert(v == r * 65536 + g * 256 + b);
    assert(r < 256 && g < 256 && b < 256 && v == r * 65536 + g * 256 + b ==> v >> 16u32 == r && (v
        >> 8u32) & 0xffu32 == g && v & 0xffu32 == b) by (bit_vector);
}

/// Two colors share a packed word only when they are the same color.
pub proof fn lemma_packed_injective(a: Color, b: Color)
    ensures
        packed(a) == packed(b) <==> a == b,
{
    lemma_packed_channels(a);
    lemma_packed_channels(b);
}

/// Packs a color into its frame word.
pub fn pack_color(c: Color) -> (v: u32)
    ensures
        v == packed(c),
{
    let (r, g, b) = c;
    let v: u32 = ((r as u32) << 16) | ((g as u32) << 8) | (b as u32);
    assert(((r as u32) << 16) | ((g as u32) << 8) | (b as u32) == r as u32 * 65536 + g as u32 * 256
        + b as u32) by (bit_vector);
    v
}

impl Window {
    /// A `width` by `height` window titled "Window", every pixel black and
    /// the packed frame all zero.
    pub fn new(width: usize, height: usize) -> (w: Window)
        requires
            width * height <= usize::MAX,
        ensures
            w.well_formed(),
            w.width == width,
            w.height == height,
            w.title@ == "Window"@,
            w.pixels() == filled(width as nat, height as nat, black()),
            forall|x: int, y: int|
                0 <= x < width && 0 <= y < height ==> #[trigger] w.pixels()[y][x] == (0u8, 0u8, 0u8),
            w.frame@ == Seq::new((width * height) as nat, |i: int| 0u32),
    {
        let buffer = black_rows(width, height);
        let n: usize = width * height;
        let mut frame: Vec<u32> = Vec::new();
        let mut i: usize = 0;
        while i < n
            invariant
                i <= n,
                frame@ =~= Seq::new(i as nat, |k: int| 0u32),
            decreases n - i,
        {
            frame.push(0u32);
            i = i + 1;
        }
        let w = Window { width, height, title: "Window".to_owned(), buffer, frame };
        assert(w.pixels() =~= filled(width as nat, height as nat, black()));
        w
    }

    /// Sets the title that the window shows.
    pub fn set_title(&mut self, title: &str)
        ensures
            final(self).title@ == title@,
            final(self).width == old(self).width,
            final(self).height == old(self).height,
            final(self).buffer == old(self).buffer,
            final(self).frame == old(self).frame,
    {
        self.title = title.to_owned();
    }

    /// Replaces the pixel buffer by `buffer`, which must have the window's dimensions.
    pub fn set_buffer(&mut self, buffer: Vec<Vec<Color>>)
        requires
            old(self).well_formed(),
            buffer@.len() == old(self).height,
            forall|y: int| 0 <= y < buffer@.len() ==> #[trigger] buffer@[y]@.len() == old(self).width,
        ensures
            final(self).well_formed(),
            final(self).buffer == buffer,
            final(self).width == old(self).width,
            final(self).height == old(self).height,
            final(self).title == old(self).title,
            final(self).frame == old(self).frame,
    {
        self.buffer = buffer;
    }

    /// Whether `(x, y)` is a pixel of this window.
    pub fn in_bounds(&self, x: i32, y: i32) -> (b: bool)
        ensures
            b == in_bounds_spec(self.width, self.height, x as int, y as int),
            b ==> (x as int) < self.width && (y as int) < self.height,
            self.width <= i32::MAX && self.height <= i32::MAX ==> (b <==> (0 <= x < self.width && 0
                <= y < self.height)),
    {
        proof {
            lemma_in_bounds_exact_when_fits(self.width, self.height, x as int, y as int);
        }
        let b = x >= 0 && y >= 0 && x < self.width as i32 && y < self.height as i32;
        proof {
            if b {
                lemma_in_bounds_inside(self.width, self.height, x as int, y as int);
            }
        }
        b
    }

    /// Sets the pixel in column `x`, row `y` to `color`.
    pub fn plot(&mut self, x: usize, y: usize, color: Color)
        requires
            old(self).well_formed(),
            x < old(self).width,
            y < old(self).height,
        ensures
            final(self).well_formed(),
            final(self).pixels() == paint(old(self).pixels(), x as int, y as int, color),
            final(self).pixels()[y as int][x as int] == color,
            forall|xx: int, yy: int|
                0 <= xx < old(self).width && 0 <= yy < old(self).height && (xx, yy) != (x as int, y as int)
                    ==> #[trigger] final(self).pixels()[yy][xx] == old(self).pixels()[yy][xx],
            final(self).width == old(self).width,
            final(self).height == old(self).height,
            final(self).title == old(self).title,
            final(self).frame == old(self).frame,
    {
        self.buffer[y][x] = color;
        assert(self.pixels() =~= paint(old(self).pixels(), x as int, y as int, color));
        proof {
            lemma_paint_sets_one_pixel(old(self).pixels(), x as int, y as int, color);
        }
    }

    /// Sets the pixel at `(x, y)` to `color` when it lies in the window; does nothing otherwise.
    pub fn plot_in_bounds(&mut self, x: i32, y: i32, color: Color)
        requires
            old(self).well_formed(),
        ensures
            final(self).well_formed(),
            final(self).pixels() == paint_in_bounds(
                old(self).pixels(),
                old(self).width,
                old(self).height,
                x as int,
                y as int,
                color,
            ),
            old(self).width <= i32::MAX && old(self).height <= i32::MAX && 0 <= x < old(self).width
                && 0 <= y < old(self).height ==> final(self).pixels()[y as int][x as int] == color,
            forall|xx: int, yy: int|
                0 <= xx < old(self).width && 0 <= yy < old(self).height && (xx, yy) != (x as int, y as int)
                    ==> #[trigger] final(self).pixels()[yy][xx] == old(self).pixels()[yy][xx],
            !(0 <= x < old(self).width && 0 <= y < old(self).height) ==> final(self).pixels()
                == old(self).pixels(),
            final(self).width == old(self).width,
            final(self).height == old(self).height,
            final(self).title == old(self).title,
            final(self).frame == old(self).frame,
    {
        proof {
            lemma_in_bounds_exact_when_fits(self.width, self.height, x as int, y as int);
        }
        if self.in_bounds(x, y) {
            self.plot(x as usize, y as usize, color);
        }
    }

    /// Packs every pixel into the frame (`0x00RRGGBB`, row-major) and then
    /// clears the pixel buffer to black.
    pub fn update_frame(&mut self)
        requires
            old(self).well_formed(),
        ensures
            final(self).well_formed(),
            final(self).width == old(self).width,
            final(self).height == old(self).height,
            final(self).title == old(self).title,
            final(self).frame@.len() == old(self).frame@.len(),
            forall|x: int, y: int|
                0 <= x < old(self).width && 0 <= y < old(self).height ==> final(self).frame@[
                    #[trigger] pixel_index(old(self).width as int, x, y)
                ] == packed(old(self).pixels()[y][x]),
            forall|x: int, y: int|
                0 <= x < old(self).width && 0 <= y < old(self).height ==> final(self).frame@[y
                    * old(self).width + x] == packed(#[trigger] old(self).pixels()[y][x]),
            final(self).pixels() == filled(old(self).width as nat, old(self).height as nat, black()),
            forall|x: int, y: int|
                0 <= x < old(self).width && 0 <= y < old(self).height ==> #[trigger] final(self).pixels()[y][x]
                    == (0u8, 0u8, 0u8),
    {
        let w = self.width;
        let h = self.height;
        let ghost p0 = old(self).pixels();
        let n = self.frame.len();
        assert(n == w * h);
        let mut y: usize = 0;
        while y < h
            invariant
                w == self.width,
                h == self.height,
                old(self).width == w,
                old(self).height == h,
                self.buffer == old(self).buffer,
                self.title == old(self).title,
                p0 == self.pixels(),
                self.well_formed(),
                w * h <= usize::MAX,
                y <= h,
                forall|xx: int, yy: int|
                    0 <= xx < w && 0 <= yy < y ==> self.frame@[#[trigger] pixel_index(
                        w as int,
                        xx,
                        yy,
                    )] == packed(p0[yy][xx]),
            decreases h - y,
        {
            let mut x: usize = 0;
            while x < w
                invariant
                    w == self.width,
                    h == self.height,
                    self.buffer == old(self).buffer,
                    self.title == old(self).title,
                    p0 == self.pixels(),
                    self.well_formed(),
                    w * h <= usize::MAX,
                    y < h,
                    x <= w,
                    forall|xx: int, yy: int|
                        0 <= xx < w && 0 <= yy < y ==> self.frame@[#[trigger] pixel_index(
                            w as int,
                            xx,
                            yy,
                        )] == packed(p0[yy][xx]),
                    forall|xx: int|
                        0 <= xx < x ==> self.frame@[#[trigger] pixel_index(w as int, xx, y as int)]
                            == packed(p0[y as int][xx]),
                decreases w - x,
            {
                proof {
                    lemma_pixel_index_bound(w as int, h as int, x as int, y as int);
                }
                let c = self.buffer[y][x];
                let i = y * w + x;
                let ghost prev = self.frame@;
                self.frame[i] = pack_color(c);
                proof {
                    assert(c == p0[y as int][x as int]);
                    assert forall|xx: int, yy: int|
                        0 <= xx < w && 0 <= yy < y implies self.frame@[#[trigger] pixel_index(
                            w as int,
                            xx,
                            yy,
                        )] == packed(p0[yy][xx]) by {
                        lemma_pixel_index_injective(w as int, xx, yy, x as int, y as int);
                        lemma_pixel_index_bound(w as int, h as int, xx, yy);
                    }
                    assert forall|xx: int|
                        0 <= xx < x + 1 implies self.frame@[#[trigger] pixel_index(
                            w as int,
                            xx,
                            y as int,
                        )] == packed(p0[y as int][xx]) by {
                        if xx != x {
                            lemma_pixel_index_injective(w as int, xx, y as int, x as int, y as int);
                            lemma_pixel_index_bound(w as int, h as int, xx, y as int);
                        }
                    }
                }
                x = x + 1;
            }
            y = y + 1;
        }
        assert forall|xx: int, yy: int|
            0 <= xx < w && 0 <= yy < h implies self.frame@[yy * w + xx] == packed(
            #[trigger] p0[yy][xx],
        ) by {
            assert(self.frame@[pixel_index(w as int, xx, yy)] == packed(p0[yy][xx]));
        }
        let rows = black_rows(w, h);
        self.buffer = rows;
        assert(self.pixels() =~= filled(w as nat, h as nat, black()));
    }
}

} // verus!
