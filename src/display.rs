use vstd::prelude::*;

verus! {

/// Maximum display width, used by Super-chip and XO-chip.
pub const DISPLAY_WIDTH: usize = 128;
/// Maximum display height, used by Super-chip and XO-chip.
pub const DISPLAY_HEIGHT: usize = 64;

/// The framebuffer: 64 rows of 128 cells, one bit per plane in each cell.
pub type DisplayBuffer = [[u8; DISPLAY_WIDTH]; DISPLAY_HEIGHT];

/// A cell value in the plane-mask encoding of at most two planes:
/// each bit equals the bit two positions below it.
pub open spec fn pixel_ok(v: u8) -> bool {
    v == 0x00 || v == 0x55 || v == 0xAA || v == 0xFF
}

/// Whether `(r, c)` lies on the framebuffer.
pub open spec fn on_screen(r: int, c: int) -> bool {
    0 <= r < DISPLAY_HEIGHT && 0 <= c < DISPLAY_WIDTH
}

/// Every cell of the framebuffer is in the plane-mask encoding.
pub open spec fn display_ok(fb: DisplayBuffer) -> bool {
    forall|r: int, c: int| on_screen(r, c) ==> pixel_ok(#[trigger] fb[r][c])
}

/// Every cell of the framebuffer is off or fully on: the encoding of a single plane.
pub open spec fn display_solid(fb: DisplayBuffer) -> bool {
    forall|r: int, c: int| on_screen(r, c) ==> (#[trigger] fb[r][c] == 0x00 || fb[r][c] == 0xFF)
}

/// The framebuffer as a function of its coordinates, off outside the screen.
pub open spec fn cells(fb: DisplayBuffer) -> spec_fn(int, int) -> u8 {
    |r: int, c: int| if on_screen(r, c) { fb[r][c] } else { 0u8 }
}

/// XOR and clearing with an encoded mask keep a cell encoded.
proof fn lemma_pixel_ops(v: u8, m: u8)
    requires
        pixel_ok(v),
        pixel_ok(m),
    ensures
        pixel_ok(v ^ m),
        pixel_ok(v & !m),
        pixel_ok((v & m) | (0u8 & !m)),
{
    assert(pixel_ok(v ^ m) && pixel_ok(v & !m) && pixel_ok((v & m) | (0u8 & !m))) by (bit_vector)
        requires
            v == 0x00 || v == 0x55 || v == 0xAA || v == 0xFF,
            m == 0x00 || m == 0x55 || m == 0xAA || m == 0xFF,
    ;
}

/// Mixing the selected bits of one encoded cell with the other bits of another
/// gives an encoded cell.
proof fn lemma_pixel_mix(a: u8, b: u8, m: u8)
    requires
        pixel_ok(a),
        pixel_ok(b),
        pixel_ok(m),
    ensures
        pixel_ok((a & m) | (b & !m)),
{
    assert(pixel_ok((a & m) | (b & !m))) by (bit_vector)
        requires
            a == 0x00 || a == 0x55 || a == 0xAA || a == 0xFF,
            b == 0x00 || b == 0x55 || b == 0xAA || b == 0xFF,
            m == 0x00 || m == 0x55 || m == 0xAA || m == 0xFF,
    ;
}

/// Turns every cell off.
pub fn clear_cells(fb: &mut DisplayBuffer)
    ensures
        forall|r: int, c: int| on_screen(r, c) ==> #[trigger] final(fb)[r][c] == 0,
{
    *fb = [[0u8; DISPLAY_WIDTH]; DISPLAY_HEIGHT];
}

/// Turns off, in every cell, the bits of `planes`.
pub fn clear_plane_bits(fb: &mut DisplayBuffer, planes: u8)
    ensures
        forall|r: int, c: int| on_screen(r, c) ==> #[trigger] final(fb)[r][c] == old(fb)[r][c] & !planes,
        display_ok(*old(fb)) && pixel_ok(planes) ==> display_ok(*final(fb)),
{
    let ghost before = *fb;
    let mut r: usize = 0;
    while r < DISPLAY_HEIGHT
        invariant
            r <= DISPLAY_HEIGHT,
            forall|rr: int, c: int| on_screen(rr, c) && rr < r ==> #[trigger] fb[rr][c] == before[rr][c] & !planes,
            forall|rr: int, c: int| on_screen(rr, c) && rr >= r ==> #[trigger] fb[rr][c] == before[rr][c],
            before == *old(fb),
        decreases DISPLAY_HEIGHT - r,
    {
        let mut c: usize = 0;
        while c < DISPLAY_WIDTH
            invariant
                r < DISPLAY_HEIGHT,
                c <= DISPLAY_WIDTH,
                forall|rr: int, cc: int| on_screen(rr, cc) && rr < r ==> #[trigger] fb[rr][cc] == before[rr][cc] & !planes,
                forall|cc: int| 0 <= cc < c ==> #[trigger] fb[r as int][cc] == before[r as int][cc] & !planes,
                forall|cc: int| c <= cc < DISPLAY_WIDTH ==> #[trigger] fb[r as int][cc] == before[r as int][cc],
                forall|rr: int, cc: int| on_screen(rr, cc) && rr > r ==> #[trigger] fb[rr][cc] == before[rr][cc],
            decreases DISPLAY_WIDTH - c,
        {
            let v = fb[r][c];
            fb[r][c] = v & !planes;
            c += 1;
        }
        r += 1;
    }
    proof {
        if display_ok(before) && pixel_ok(planes) {
            assert forall|rr: int, cc: int| on_screen(rr, cc) implies pixel_ok(#[trigger] fb[rr][cc]) by {
                lemma_pixel_ops(before[rr][cc], planes);
            }
        }
    }
}

/// The cell at `(r, c)` once the bits of `planes` have moved by `dr` rows and
/// `dc` columns; the other bits stay, and what enters from outside is off.
pub open spec fn scrolled_cell(f: spec_fn(int, int) -> u8, planes: u8, dr: int, dc: int, r: int, c: int) -> u8 {
    let src: u8 = if on_screen(r - dr, c - dc) { f(r - dr, c - dc) } else { 0u8 };
    (src & planes) | (f(r, c) & !planes)
}

/// Moves the bits of `planes` of every cell by `dr` rows down and `dc`
/// columns right (negative: up, left); vacated bits are cleared.
pub fn scroll_cells(fb: &mut DisplayBuffer, planes: u8, dr: i32, dc: i32)
    requires
        -64 <= dr <= 64,
        -128 <= dc <= 128,
    ensures
        forall|r: int, c: int| on_screen(r, c) ==> #[trigger] final(fb)[r][c] == scrolled_cell(
            cells(*old(fb)), planes, dr as int, dc as int, r, c),
        display_ok(*old(fb)) && pixel_ok(planes) ==> display_ok(*final(fb)),
        display_solid(*old(fb)) && planes == 0xFF ==> display_solid(*final(fb)),
{
    let before = *fb;
    let mut r: usize = 0;
    while r < DISPLAY_HEIGHT
        invariant
            r <= DISPLAY_HEIGHT,
            -64 <= dr <= 64,
            -128 <= dc <= 128,
            forall|rr: int, c: int| on_screen(rr, c) && rr < r ==> #[trigger] fb[rr][c] == scrolled_cell(cells(before), planes, dr as int, dc as int, rr, c),
            before == *old(fb),
        decreases DISPLAY_HEIGHT - r,
    {
        let mut c: usize = 0;
        while c < DISPLAY_WIDTH
            invariant
                r < DISPLAY_HEIGHT,
                c <= DISPLAY_WIDTH,
                -64 <= dr <= 64,
                -128 <= dc <= 128,
                forall|rr: int, cc: int| on_screen(rr, cc) && rr < r ==> #[trigger] fb[rr][cc] == scrolled_cell(cells(before), planes, dr as int, dc as int, rr, cc),
                forall|cc: int| 0 <= cc < c ==> #[trigger] fb[r as int][cc] == scrolled_cell(cells(before), planes, dr as int, dc as int, r as int, cc),
            decreases DISPLAY_WIDTH - c,
        {
            let sr: i32 = r as i32 - dr;
            let sc: i32 = c as i32 - dc;
            let src: u8 = if 0 <= sr && sr < DISPLAY_HEIGHT as i32 && 0 <= sc && sc < DISPLAY_WIDTH as i32 {
                before[sr as usize][sc as usize]
            } else {
                0
            };
            fb[r][c] = (src & planes) | (before[r][c] & !planes);
            c += 1;
        }
        r += 1;
    }
    proof {
        if display_ok(before) && pixel_ok(planes) {
            assert forall|rr: int, cc: int| on_screen(rr, cc) implies pixel_ok(#[trigger] fb[rr][cc]) by {
                let sr = rr - dr;
                let sc = cc - dc;
                if on_screen(sr, sc) {
                    lemma_pixel_mix(before[sr][sc], before[rr][cc], planes);
                } else {
                    lemma_pixel_mix(0u8, before[rr][cc], planes);
                }
            }
        }
        if display_solid(before) && planes == 0xFF {
            assert forall|rr: int, cc: int| on_screen(rr, cc) implies (#[trigger] fb[rr][cc] == 0x00 || fb[rr][cc]
                == 0xFF) by {
                let sr = rr - dr;
                let sc = cc - dc;
                let src: u8 = if on_screen(sr, sc) { before[sr][sc] } else { 0u8 };
                let old_cell = before[rr][cc];
                assert((src & 0xFFu8) | (old_cell & !0xFFu8) == src) by (bit_vector);
            }
        }
    }
}

/// Size of the memory that sprites are read from.
pub const SPRITE_RAM_SIZE: usize = 0x1000;

/// One plane of one sprite to XOR onto the framebuffer.
#[derive(Debug, Clone, Copy, PartialEq, Eq, Structural)]
pub struct SpritePlane {
    /// Left column of the sprite, in sprite pixels, below `128 / scale`.
    pub x0: usize,
    /// Top row of the sprite, in sprite pixels, below `64 / scale`.
    pub y0: usize,
    /// Side of the square of cells that one sprite pixel covers: 1 or 2.
    pub scale: usize,
    /// Width of the sprite in pixels: 8 or 16.
    pub width: usize,
    /// Number of sprite lines, at most 16.
    pub height: usize,
    /// Address of the first sprite byte.
    pub base: usize,
    /// Bits of each cell that belong to the plane.
    pub mask: u8,
    /// Whether pixels past the right or bottom edge wrap around (else they are clipped).
    pub wrapping: bool,
}

impl SpritePlane {
    pub open spec fn wf(self) -> bool {
        &&& self.scale == 1 || self.scale == 2
        &&& self.width == 8 || self.width == 16
        &&& self.height <= 16
        &&& self.x0 < self.cols()
        &&& self.y0 < self.rows()
        &&& self.base < SPRITE_RAM_SIZE
    }

    /// Rows of the screen, counted in sprite pixels.
    pub open spec fn rows(self) -> int {
        if self.scale == 2 { 32 } else { 64 }
    }

    /// Columns of the screen, counted in sprite pixels.
    pub open spec fn cols(self) -> int {
        if self.scale == 2 { 64 } else { 128 }
    }

    /// A coordinate in sprite pixels, in framebuffer cells.
    pub open spec fn scaled(self, v: int) -> int {
        if self.scale == 2 { 2 * v } else { v }
    }

    /// A coordinate in framebuffer cells, in sprite pixels.
    pub open spec fn unscaled(self, v: int) -> int {
        if self.scale == 2 { v / 2 } else { v }
    }

    /// Whether sprite line `l` lands on the screen.
    pub open spec fn row_visible(self, l: int) -> bool {
        self.wrapping || self.y0 + l < self.rows()
    }

    /// Whether sprite column `px` lands on the screen.
    pub open spec fn col_visible(self, px: int) -> bool {
        self.wrapping || self.x0 + px < self.cols()
    }

    /// First framebuffer row that sprite line `l` covers.
    pub open spec fn row_of(self, l: int) -> int {
        self.scaled(self.y0 + l) % 64
    }

    /// First framebuffer column that sprite column `px` covers.
    pub open spec fn col_of(self, px: int) -> int {
        self.scaled(self.x0 + px) % 128
    }

    /// The sprite line drawn on framebuffer row `r`, if any lies in `0..height`.
    pub open spec fn line_of(self, r: int) -> int {
        if self.wrapping {
            (self.unscaled(r) - self.y0) % self.rows()
        } else {
            self.unscaled(r) - self.y0
        }
    }

    /// The sprite column drawn on framebuffer column `c`, if any lies in `0..width`.
    pub open spec fn px_of(self, c: int) -> int {
        if self.wrapping {
            (self.unscaled(c) - self.x0) % self.cols()
        } else {
            self.unscaled(c) - self.x0
        }
    }

    /// Whether the sprite covers cell `(r, c)`.
    pub open spec fn covers(self, r: int, c: int) -> bool {
        0 <= self.line_of(r) < self.height && 0 <= self.px_of(c) < self.width
    }

    /// Address of the sprite byte that holds pixel `px` of line `l`.
    pub open spec fn byte_address(self, l: int, px: int) -> int {
        let line_start = if self.width == 16 { 2 * l } else { l };
        (self.base + line_start + px / 8) % (SPRITE_RAM_SIZE as int)
    }

    /// Whether pixel `px` of line `l` of the sprite is set.
    pub open spec fn pixel(self, ram: [u8; SPRITE_RAM_SIZE], l: int, px: int) -> bool {
        (ram[self.byte_address(l, px)] >> ((7 - px % 8) as u8)) & 1u8 == 1u8
    }

    /// Cell `(r, c)` after drawing this plane over `f`. A covered cell takes the
    /// value of the top-left cell of its square, flipped on the plane's bits
    /// where the sprite pixel is set.
    pub open spec fn drawn_cell(self, f: spec_fn(int, int) -> u8, ram: [u8; SPRITE_RAM_SIZE], r: int, c: int) -> u8 {
        if !on_screen(r, c) {
            0u8
        } else if self.covers(r, c) {
            let v = f(self.scaled(self.unscaled(r)), self.scaled(self.unscaled(c)));
            if self.pixel(ram, self.line_of(r), self.px_of(c)) {
                v ^ self.mask
            } else {
                v
            }
        } else {
            f(r, c)
        }
    }

    /// Whether drawing pixel `px` of line `l` turns off a cell's plane bits.
    pub open spec fn pixel_collides(self, f: spec_fn(int, int) -> u8, ram: [u8; SPRITE_RAM_SIZE], l: int, px: int) -> bool {
        let v = f(self.row_of(l), self.col_of(px));
        &&& self.col_visible(px)
        &&& self.pixel(ram, l, px)
        &&& v & self.mask != 0
        &&& (v ^ self.mask) & self.mask == 0
    }

    /// Whether some pixel of line `l` collides.
    pub open spec fn line_collides(self, f: spec_fn(int, int) -> u8, ram: [u8; SPRITE_RAM_SIZE], l: int) -> bool {
        exists|px: int| 0 <= px < self.width && #[trigger] self.pixel_collides(f, ram, l, px)
    }
}

/// The cells that sprite line `l` covers are the square at `row_of(l)`.
proof fn lemma_line_rows(p: SpritePlane, l: int)
    requires
        p.wf(),
        0 <= l < p.height,
        p.row_visible(l),
    ensures
        0 <= p.row_of(l),
        p.row_of(l) + p.scale <= 64,
        p.scaled(p.unscaled(p.row_of(l))) == p.row_of(l),
        p.scaled(p.unscaled(p.row_of(l) + p.scale - 1)) == p.row_of(l),
        p.line_of(p.row_of(l)) == l,
        p.line_of(p.row_of(l) + p.scale - 1) == l,
{
    if p.scale == 1 {
        assert(p.rows() == 64);
    } else {
        assert(p.rows() == 32);
    }
}

/// The cells that sprite column `px` covers are the square at `col_of(px)`.
proof fn lemma_px_cols(p: SpritePlane, px: int)
    requires
        p.wf(),
        0 <= px < p.width,
        p.col_visible(px),
    ensures
        0 <= p.col_of(px),
        p.col_of(px) + p.scale <= 128,
        p.scaled(p.unscaled(p.col_of(px))) == p.col_of(px),
        p.scaled(p.unscaled(p.col_of(px) + p.scale - 1)) == p.col_of(px),
        p.px_of(p.col_of(px)) == px,
        p.px_of(p.col_of(px) + p.scale - 1) == px,
{
    if p.scale == 1 {
        assert(p.cols() == 128);
    } else {
        assert(p.cols() == 64);
    }
    lemma_axis(128, p.scale as int, p.x0 as int, px, 0, p.wrapping);
    lemma_axis(128, p.scale as int, p.x0 as int, px, p.col_of(px), p.wrapping);
    lemma_axis(128, p.scale as int, p.x0 as int, px, p.col_of(px) + p.scale - 1, p.wrapping);
}

/// A clipped line covers no cell.
proof fn lemma_clipped_line(p: SpritePlane, l: int, r: int)
    requires
        p.wf(),
        0 <= l,
        !p.row_visible(l),
        0 <= r < 64,
    ensures
        p.line_of(r) != l,
{
    if p.scale == 1 {
        assert(p.rows() == 64);
    } else {
        assert(p.rows() == 32);
    }
}

/// A clipped column covers no cell.
proof fn lemma_clipped_px(p: SpritePlane, px: int, c: int)
    requires
        p.wf(),
        0 <= px,
        !p.col_visible(px),
        0 <= c < 128,
    ensures
        p.px_of(c) != px,
{
    if p.scale == 1 {
        assert(p.cols() == 128);
    } else {
        assert(p.cols() == 64);
    }
}

/// On an axis of 64 cells with squares of side 1: cell `x` lies in the
/// square of offset `i` from `v0` exactly when reading the offset back from `x` gives `i`.
proof fn lemma_axis_64_1(v0: int, i: int, x: int, wrapping: bool)
    requires
        0 <= v0 < 64,
        0 <= i < 16,
        0 <= x < 64,
        wrapping || v0 + i < 64,
    ensures
        ({
            let start = (v0 + i) % 64;
            let back = x;
            let offset = if wrapping { (back - v0) % 64 } else { back - v0 };
            &&& 0 <= start
            &&& start + 1 <= 64
            &&& (start <= x < start + 1) == (offset == i)
            &&& start == start
            &&& (offset == i ==> back == start)
        }),
{
    let back = x;
    if back >= v0 {
        assert((back - v0) % 64 == back - v0);
    } else {
        assert((back - v0) % 64 == back - v0 + 64);
    }
    if v0 + i < 64 {
        assert((v0 + i) % 64 == 1 * (v0 + i));
    } else {
        assert((v0 + i) % 64 == 1 * (v0 + i - 64));
    }
}

/// On an axis of 64 cells with squares of side 2: cell `x` lies in the
/// square of offset `i` from `v0` exactly when reading the offset back from `x` gives `i`.
proof fn lemma_axis_64_2(v0: int, i: int, x: int, wrapping: bool)
    requires
        0 <= v0 < 32,
        0 <= i < 16,
        0 <= x < 64,
        wrapping || v0 + i < 32,
    ensures
        ({
            let start = (2 * (v0 + i)) % 64;
            let back = x / 2;
            let offset = if wrapping { (back - v0) % 32 } else { back - v0 };
            &&& 0 <= start
            &&& start + 2 <= 64
            &&& (start <= x < start + 2) == (offset == i)
            &&& 2 * (start / 2) == start
            &&& (offset == i ==> 2 * back == start)
        }),
{
    let back = x / 2;
    if back >= v0 {
        assert((back - v0) % 32 == back - v0);
    } else {
        assert((back - v0) % 32 == back - v0 + 32);
    }
    if v0 + i < 32 {
        assert((2 * (v0 + i)) % 64 == 2 * (v0 + i));
    } else {
        assert((2 * (v0 + i)) % 64 == 2 * (v0 + i - 32));
    }
}

/// On an axis of 128 cells with squares of side 1: cell `x` lies in the
/// square of offset `i` from `v0` exactly when reading the offset back from `x` gives `i`.
proof fn lemma_axis_128_1(v0: int, i: int, x: int, wrapping: bool)
    requires
        0 <= v0 < 128,
        0 <= i < 16,
        0 <= x < 128,
        wrapping || v0 + i < 128,
    ensures
        ({
            let start = (v0 + i) % 128;
            let back = x;
            let offset = if wrapping { (back - v0) % 128 } else { back - v0 };
            &&& 0 <= start
            &&& start + 1 <= 128
            &&& (start <= x < start + 1) == (offset == i)
            &&& start == start
            &&& (offset == i ==> back == start)
        }),
{
    let back = x;
    if back >= v0 {
        assert((back - v0) % 128 == back - v0);
    } else {
        assert((back - v0) % 128 == back - v0 + 128);
    }
    if v0 + i < 128 {
        assert((v0 + i) % 128 == 1 * (v0 + i));
    } else {
        assert((v0 + i) % 128 == 1 * (v0 + i - 128));
    }
}

/// On an axis of 128 cells with squares of side 2: cell `x` lies in the
/// square of offset `i` from `v0` exactly when reading the offset back from `x` gives `i`.
proof fn lemma_axis_128_2(v0: int, i: int, x: int, wrapping: bool)
    requires
        0 <= v0 < 64,
        0 <= i < 16,
        0 <= x < 128,
        wrapping || v0 + i < 64,
    ensures
        ({
            let start = (2 * (v0 + i)) % 128;
            let back = x / 2;
            let offset = if wrapping { (back - v0) % 64 } else { back - v0 };
            &&& 0 <= start
            &&& start + 2 <= 128
            &&& (start <= x < start + 2) == (offset == i)
            &&& 2 * (start / 2) == start
            &&& (offset == i ==> 2 * back == start)
        }),
{
    let back = x / 2;
    if back >= v0 {
        assert((back - v0) % 64 == back - v0);
    } else {
        assert((back - v0) % 64 == back - v0 + 64);
    }
    if v0 + i < 64 {
        assert((2 * (v0 + i)) % 128 == 2 * (v0 + i));
    } else {
        assert((2 * (v0 + i)) % 128 == 2 * (v0 + i - 64));
    }
}

/// On one axis, the square of offset `i` holds exactly the cells whose offset is `i`.
proof fn lemma_axis(n: int, k: int, v0: int, i: int, x: int, wrapping: bool)
    requires
        n == 64 || n == 128,
        k == 1 || k == 2,
        0 <= v0 < n / k,
        0 <= i < 16,
        0 <= x < n,
        wrapping || v0 + i < n / k,
    ensures
        ({
            let start = (if k == 2 { 2 * (v0 + i) } else { v0 + i }) % n;
            let back = if k == 2 { x / 2 } else { x };
            let offset = if wrapping { (back - v0) % (n / k) } else { back - v0 };
            &&& 0 <= start
            &&& start + k <= n
            &&& (start <= x < start + k) == (offset == i)
            &&& (if k == 2 { 2 * (start / 2) } else { start }) == start
            &&& (offset == i ==> (if k == 2 { 2 * back } else { back }) == start)
        }),
{
    if n == 64 && k == 1 {
        lemma_axis_64_1(v0, i, x, wrapping);
    } else if n == 64 {
        lemma_axis_64_2(v0, i, x, wrapping);
    } else if k == 1 {
        lemma_axis_128_1(v0, i, x, wrapping);
    } else {
        lemma_axis_128_2(v0, i, x, wrapping);
    }
}

/// The square of sprite pixel `(l, px)` holds exactly the cells whose line is
/// `l` and whose column is `px`.
proof fn lemma_square(p: SpritePlane, l: int, px: int, r: int, c: int)
    requires
        p.wf(),
        0 <= l < p.height,
        0 <= px < p.width,
        p.row_visible(l),
        p.col_visible(px),
        on_screen(r, c),
    ensures
        (p.row_of(l) <= r < p.row_of(l) + p.scale) == (p.line_of(r) == l),
        (p.col_of(px) <= c < p.col_of(px) + p.scale) == (p.px_of(c) == px),
        p.line_of(r) == l ==> p.scaled(p.unscaled(r)) == p.row_of(l),
        p.px_of(c) == px ==> p.scaled(p.unscaled(c)) == p.col_of(px),
{
    lemma_axis(64, p.scale as int, p.y0 as int, l, r, p.wrapping);
    lemma_axis(128, p.scale as int, p.x0 as int, px, c, p.wrapping);
}

/// Writes `fb[row][col] ^ xor` over the `scale` by `scale` square at `(row, col)`,
/// and returns the former value of `fb[row][col]`.
fn flip_square(fb: &mut DisplayBuffer, row: usize, col: usize, scale: usize, xor: u8) -> (was: u8)
    requires
        scale == 1 || scale == 2,
        row + scale <= DISPLAY_HEIGHT,
        col + scale <= DISPLAY_WIDTH,
    ensures
        was == old(fb)[row as int][col as int],
        forall|r: int, c: int| on_screen(r, c) ==> #[trigger] final(fb)[r][c] == (if row <= r < row + scale && col <= c < col + scale {
            was ^ xor
        } else {
            old(fb)[r][c]
        }),
{
    let was = fb[row][col];
    let pixel = was ^ xor;
    fb[row][col] = pixel;
    if scale == 2 {
        fb[row][col + 1] = pixel;
        fb[row + 1][col] = pixel;
        fb[row + 1][col + 1] = pixel;
    }
    was
}

/// XORs one plane of a sprite onto the framebuffer, and returns which lines
/// collide: the visible lines where a set pixel turns off a cell's plane bits.
pub fn draw_plane(fb: &mut DisplayBuffer, ram: &[u8; SPRITE_RAM_SIZE], p: &SpritePlane) -> (hits: [bool; 16])
    requires
        p.wf(),
    ensures
        forall|l: int| 0 <= l < 16 ==> #[trigger] hits[l] == (l < p.height && p.row_visible(l) && p.line_collides(
            cells(*old(fb)),
            *ram,
            l,
        )),
        forall|r: int, c: int| on_screen(r, c) ==> #[trigger] final(fb)[r][c] == p.drawn_cell(cells(*old(fb)), *ram, r, c),
        display_ok(*old(fb)) && pixel_ok(p.mask) ==> display_ok(*final(fb)),
        display_solid(*old(fb)) && p.mask == 0xFF ==> display_solid(*final(fb)),
{
    let ghost f = cells(*fb);
    let ghost before = *fb;
    let scale = p.scale;
    let rows_count: usize = if scale == 2 { 32 } else { 64 };
    let cols_count: usize = if scale == 2 { 64 } else { 128 };
    let mut hits = [false; 16];
    let mut line: usize = 0;
    while line < p.height
        invariant
            p.wf(),
            scale == p.scale,
            rows_count == p.rows(),
            cols_count == p.cols(),
            line <= p.height,
            f == cells(before),
            forall|l: int| 0 <= l < 16 ==> #[trigger] hits[l] == (l < line && p.row_visible(l) && p.line_collides(f, *ram, l)),
            forall|r: int, c: int| on_screen(r, c) ==> #[trigger] fb[r][c] == (if p.covers(r, c) && p.line_of(r) < line {
                p.drawn_cell(f, *ram, r, c)
            } else {
                before[r][c]
            }),
        decreases p.height - line,
    {
        let visible_row = p.wrapping || p.y0 + line < rows_count;
        if !visible_row {
            proof {
                assert forall|r: int, c: int| on_screen(r, c) && p.covers(r, c) implies p.line_of(r) != line by {
                    lemma_clipped_line(*p, line as int, r);
                }
            }
        } else {
            let row = if scale == 2 { (2 * (p.y0 + line)) % DISPLAY_HEIGHT } else { (p.y0 + line) % DISPLAY_HEIGHT };
            proof {
                lemma_line_rows(*p, line as int);
            }
            let mut colliding_line = false;
            let mut px: usize = 0;
            while px < p.width
                invariant
                    p.wf(),
                    line < p.height,
                    p.row_visible(line as int),
                    row == p.row_of(line as int),
                    0 <= row,
                    row + scale <= 64,
                    scale == p.scale,
                    cols_count == p.cols(),
                    px <= p.width,
                    f == cells(before),
                    forall|l: int| 0 <= l < 16 ==> #[trigger] hits[l] == (l < line && p.row_visible(l) && p.line_collides(f, *ram, l)),
                    colliding_line == exists|q: int| 0 <= q < px && #[trigger] p.pixel_collides(f, *ram, line as int, q),
                    forall|r: int, c: int| on_screen(r, c) ==> #[trigger] fb[r][c] == (if p.covers(r, c) && (p.line_of(r) < line || (p.line_of(r) == line && p.px_of(c) < px)) {
                        p.drawn_cell(f, *ram, r, c)
                    } else {
                        before[r][c]
                    }),
                decreases p.width - px,
            {
                let visible_col = p.wrapping || p.x0 + px < cols_count;
                if !visible_col {
                    proof {
                        assert forall|r: int, c: int| on_screen(r, c) && p.covers(r, c) implies p.px_of(c) != px by {
                            lemma_clipped_px(*p, px as int, c);
                        }
                        assert(!p.pixel_collides(f, *ram, line as int, px as int));
                    }
                } else {
                    let col = if scale == 2 { (2 * (p.x0 + px)) % DISPLAY_WIDTH } else { (p.x0 + px) % DISPLAY_WIDTH };
                    proof {
                        lemma_px_cols(*p, px as int);
                    }
                    let line_start = if p.width == 16 { 2 * line } else { line };
                    let address = (p.base + line_start + px / 8) % SPRITE_RAM_SIZE;
                    let sprite = ram[address];
                    let shift: u8 = (7 - px % 8) as u8;
                    let set = (sprite >> shift) & 1 == 1;
                    let xor: u8 = if set { p.mask } else { 0 };
                    let before_pixel = flip_square(fb, row, col, scale, xor);
                    let pixel = before_pixel ^ xor;
                    let hit = before_pixel & p.mask != 0 && pixel & p.mask == 0;
                    proof {
                        lemma_square(*p, line as int, px as int, row as int, col as int);
                        assert(before_pixel == f(row as int, col as int));
                        assert(before_pixel ^ 0u8 == before_pixel) by (bit_vector);
                        assert(hit == p.pixel_collides(f, *ram, line as int, px as int));
                        assert forall|r: int, c: int| on_screen(r, c) implies #[trigger] fb[r][c] == (if p.covers(r, c) && (p.line_of(r) < line || (p.line_of(r) == line && p.px_of(c) < px + 1)) {
                            p.drawn_cell(f, *ram, r, c)
                        } else {
                            before[r][c]
                        }) by {
                            lemma_square(*p, line as int, px as int, r, c);
                        }
                    }
                    colliding_line = colliding_line || hit;
                }
                px += 1;
            }
            hits[line] = colliding_line;
        }
        line += 1;
    }
    proof {
        if display_ok(before) && pixel_ok(p.mask) {
            assert forall|r: int, c: int| on_screen(r, c) implies pixel_ok(#[trigger] fb[r][c]) by {
                if p.covers(r, c) {
                    let tr = p.scaled(p.unscaled(r));
                    let tc = p.scaled(p.unscaled(c));
                    assert(on_screen(tr, tc));
                    lemma_pixel_ops(before[tr][tc], p.mask);
                }
            }
        }
        if display_solid(before) && p.mask == 0xFF {
            assert forall|r: int, c: int| on_screen(r, c) implies (#[trigger] fb[r][c] == 0x00 || fb[r][c] == 0xFF) by {
                if p.covers(r, c) {
                    let tr = p.scaled(p.unscaled(r));
                    let tc = p.scaled(p.unscaled(c));
                    assert(on_screen(tr, tc));
                    let v = before[tr][tc];
                    assert((v == 0x00 || v == 0xFF) ==> ((v ^ 0xFFu8) == 0x00 || (v ^ 0xFFu8) == 0xFF)) by (bit_vector);
                }
            }
        }
    }
    hits
}

/// The framebuffer after drawing the planes `ps` in turn over `f`.
pub open spec fn drawn_cells(f: spec_fn(int, int) -> u8, ram: [u8; SPRITE_RAM_SIZE], ps: Seq<SpritePlane>) -> spec_fn(int, int) -> u8
    decreases ps.len(),
{
    if ps.len() == 0 {
        f
    } else {
        drawn_cells(|r: int, c: int| ps[0].drawn_cell(f, ram, r, c), ram, ps.drop_first())
    }
}

/// Whether some plane of `ps`, drawn in turn over `f`, collides on line `l`.
pub open spec fn line_hit(f: spec_fn(int, int) -> u8, ram: [u8; SPRITE_RAM_SIZE], ps: Seq<SpritePlane>, l: int) -> bool
    decreases ps.len(),
{
    if ps.len() == 0 {
        false
    } else {
        (l < ps[0].height && ps[0].row_visible(l) && ps[0].line_collides(f, ram, l)) || line_hit(
            |r: int, c: int| ps[0].drawn_cell(f, ram, r, c),
            ram,
            ps.drop_first(),
            l,
        )
    }
}

/// Whether line `l` of the sprite drawn with the planes `ps` adds to the
/// collision flag: some plane collides on it, or, when `counting`, it is clipped.
pub open spec fn row_flagged(f: spec_fn(int, int) -> u8, ram: [u8; SPRITE_RAM_SIZE], ps: Seq<SpritePlane>, counting: bool, l: int) -> bool {
    &&& ps.len() > 0
    &&& (counting && !ps[0].row_visible(l)) || line_hit(f, ram, ps, l)
}

/// Number of flagged lines among the first `m` lines of the sprite.
pub open spec fn flagged_rows(f: spec_fn(int, int) -> u8, ram: [u8; SPRITE_RAM_SIZE], ps: Seq<SpritePlane>, counting: bool, m: int) -> nat
    decreases m,
{
    if m <= 0 {
        0
    } else {
        flagged_rows(f, ram, ps, counting, m - 1) + if row_flagged(f, ram, ps, counting, m - 1) { 1nat } else { 0nat }
    }
}

/// The bits that plane `p` flips in cell `(r, c)`.
pub open spec fn flip(p: SpritePlane, ram: [u8; SPRITE_RAM_SIZE], r: int, c: int) -> u8 {
    if p.covers(r, c) && p.pixel(ram, p.line_of(r), p.px_of(c)) {
        p.mask
    } else {
        0
    }
}

/// The bits that the planes `ps` flip in cell `(r, c)`, together.
pub open spec fn flips(ps: Seq<SpritePlane>, ram: [u8; SPRITE_RAM_SIZE], r: int, c: int) -> u8
    decreases ps.len(),
{
    if ps.len() == 0 {
        0
    } else {
        flip(ps[0], ram, r, c) ^ flips(ps.drop_first(), ram, r, c)
    }
}

/// Whether `p` and `q` place their pixels on the same cells.
pub open spec fn same_geometry(p: SpritePlane, q: SpritePlane) -> bool {
    &&& p.x0 == q.x0
    &&& p.y0 == q.y0
    &&& p.scale == q.scale
    &&& p.width == q.width
    &&& p.height == q.height
    &&& p.wrapping == q.wrapping
}

/// Drawing planes that share the geometry of `q` sets each covered cell to
/// the top-left cell of its square, flipped by every plane in turn.
pub proof fn lemma_drawn_cells_square(
    f: spec_fn(int, int) -> u8,
    ram: [u8; SPRITE_RAM_SIZE],
    ps: Seq<SpritePlane>,
    q: SpritePlane,
    r: int,
    c: int,
)
    requires
        on_screen(r, c),
        q.scale == 1 || q.scale == 2,
        forall|k: int| 0 <= k < ps.len() ==> same_geometry(#[trigger] ps[k], q),
    ensures
        drawn_cells(f, ram, ps)(r, c) == (if q.covers(r, c) && ps.len() > 0 {
            f(q.scaled(q.unscaled(r)), q.scaled(q.unscaled(c))) ^ flips(ps, ram, r, c)
        } else {
            f(r, c)
        }),
    decreases ps.len(),
{
    if ps.len() > 0 {
        let g = |rr: int, cc: int| ps[0].drawn_cell(f, ram, rr, cc);
        let rest = ps.drop_first();
        assert forall|k: int| 0 <= k < rest.len() implies same_geometry(#[trigger] rest[k], q) by {
            assert(rest[k] == ps[k + 1]);
        }
        assert(same_geometry(ps[0], q));
        lemma_drawn_cells_square(g, ram, rest, q, r, c);
        let tr = q.scaled(q.unscaled(r));
        let tc = q.scaled(q.unscaled(c));
        assert(q.unscaled(tr) == q.unscaled(r) && q.unscaled(tc) == q.unscaled(c));
        assert(on_screen(tr, tc));
        let a = flip(ps[0], ram, r, c);
        let b = flips(rest, ram, r, c);
        let v = f(tr, tc);
        assert(v ^ 0u8 == v) by (bit_vector);
        assert((v ^ a) ^ b == v ^ (a ^ b)) by (bit_vector);
        if rest.len() == 0 {
            assert(b == 0);
            let w = f(r, c);
            assert(w ^ 0u8 == w) by (bit_vector);
            assert(a ^ 0u8 == a) by (bit_vector);
        }
    }
}

} // verus!
