//! The blueprint canvas: a small grid of land and sea cells that is drawn
//! with a round brush, a straight stroke and a bucket fill.
use vstd::prelude::*;

verus! {

#[derive(Clone, Copy, PartialEq, Eq, Debug, Structural)]
pub enum Paint {
    Land,
    Sea,
    NoStartLand,
    NoStartSea,
}

#[derive(Clone, Copy, PartialEq, Eq, Debug, Structural)]
pub enum Tool {
    Brush,
    Fill,
}

pub open spec fn paint_index(p: Paint) -> u8 {
    match p {
        Paint::Land => 0,
        Paint::Sea => 1,
        Paint::NoStartLand => 2,
        Paint::NoStartSea => 3,
    }
}

pub open spec fn paint_of_index(i: u8) -> Paint {
    if i == 0 {
        Paint::Land
    } else if i == 1 {
        Paint::Sea
    } else if i == 2 {
        Paint::NoStartLand
    } else {
        Paint::NoStartSea
    }
}

pub open spec fn paint_rgba(p: Paint) -> Seq<u8> {
    match p {
        Paint::Land => seq![5u8, 78, 32, 255],
        Paint::Sea => seq![33u8, 5, 144, 255],
        Paint::NoStartLand => seq![67u8, 67, 67, 255],
        Paint::NoStartSea => seq![40u8, 40, 40, 255],
    }
}

pub const CANVAS_SHAPES: [(&'static str, usize, usize); 4] = [
    ("1:1", 256, 256),
    ("3:2", 264, 176),
    ("2:1", 256, 128),
    ("16:9", 256, 144),
];

impl Paint {
    pub fn label(self) -> (s: &'static str)
        ensures
            s@ == match self {
                Paint::Land => "Land"@,
                Paint::Sea => "Sea"@,
                Paint::NoStartLand => "Land, no start"@,
                Paint::NoStartSea => "Sea, no start"@,
            },
    {
        match self {
            Paint::Land => "Land",
            Paint::Sea => "Sea",
            Paint::NoStartLand => "Land, no start",
            Paint::NoStartSea => "Sea, no start",
        }
    }

    pub fn hint(self) -> (s: &'static str)
        ensures
            s@ == match self {
                Paint::Land => "Dry land that players may start on"@,
                Paint::Sea => "Water that players may start in"@,
                Paint::NoStartLand => "Dry land nobody starts on"@,
                Paint::NoStartSea => "Water nobody starts in"@,
            },
    {
        match self {
            Paint::Land => "Dry land that players may start on",
            Paint::Sea => "Water that players may start in",
            Paint::NoStartLand => "Dry land nobody starts on",
            Paint::NoStartSea => "Water nobody starts in",
        }
    }

    /// The colour that the paint is drawn and exported in.
    pub fn rgba(self) -> (c: [u8; 4])
        ensures
            c@ == paint_rgba(self),
    {
        let c = match self {
            Paint::Land => [5, 78, 32, 255],
            Paint::Sea => [33, 5, 144, 255],
            Paint::NoStartLand => [67, 67, 67, 255],
            Paint::NoStartSea => [40, 40, 40, 255],
        };
        assert(c@ =~= paint_rgba(self));
        c
    }

    /// The number a canvas stores for the paint.
    pub fn index(self) -> (i: u8)
        ensures
            i == paint_index(self),
    {
        match self {
            Paint::Land => 0,
            Paint::Sea => 1,
            Paint::NoStartLand => 2,
            Paint::NoStartSea => 3,
        }
    }

    /// The paint of a stored number; numbers past the last paint give the last paint.
    pub fn from_index(i: u8) -> (p: Paint)
        ensures
            p == paint_of_index(i),
    {
        if i == 0 {
            Paint::Land
        } else if i == 1 {
            Paint::Sea
        } else if i == 2 {
            Paint::NoStartLand
        } else {
            Paint::NoStartSea
        }
    }

    /// The class code of the paint: positive for land, negative for sea, two for no start.
    pub fn code(self) -> (c: i8)
        ensures
            c == match self {
                Paint::Land => 1i8,
                Paint::Sea => -1i8,
                Paint::NoStartLand => 2i8,
                Paint::NoStartSea => -2i8,
            },
    {
        match self {
            Paint::Land => 1,
            Paint::Sea => -1,
            Paint::NoStartLand => 2,
            Paint::NoStartSea => -2,
        }
    }

    /// The paint of a class code; any code that is not a land or no-start code is sea.
    pub fn from_code(code: i8) -> (p: Paint)
        ensures
            p == if code == 1 {
                Paint::Land
            } else if code == 2 {
                Paint::NoStartLand
            } else if code == -2 {
                Paint::NoStartSea
            } else {
                Paint::Sea
            },
    {
        match code {
            1 => Paint::Land,
            2 => Paint::NoStartLand,
            -2 => Paint::NoStartSea,
            _ => Paint::Sea,
        }
    }
}

/// Index and code of a paint name the same paint again.
pub proof fn lemma_paint_round_trips(p: Paint)
    ensures
        paint_of_index(paint_index(p)) == p,
{
}

#[derive(Clone, PartialEq, Eq, Debug)]
pub struct Canvas {
    pub w: usize,
    pub h: usize,
    pub cells: Vec<u8>,
}

/// The cell index of a point, when the point lies on a `w` by `h` grid.
pub open spec fn cell_of(w: int, h: int, x: int, y: int) -> Option<int> {
    if 0 <= x < w && 0 <= y < h {
        Some(y * w + x)
    } else {
        None
    }
}

impl Canvas {
    /// Its cells cover the grid, row after row.
    pub open spec fn wf(&self) -> bool {
        &&& self.w >= 1
        &&& self.h >= 1
        &&& self.cells@.len() == self.w * self.h
    }

    /// A canvas of at least one cell each way, every cell of one paint.
    pub fn new(w: usize, h: usize, fill: Paint) -> (c: Canvas)
        requires
            (if w > 1 { w as int } else { 1 }) * (if h > 1 { h as int } else { 1 }) <= usize::MAX,
        ensures
            c.wf(),
            c.w == if w > 1 { w } else { 1 },
            c.h == if h > 1 { h } else { 1 },
            forall|i: int| 0 <= i < c.cells@.len() ==> c.cells@[i] == paint_index(fill),
    {
        let w1 = if w > 1 { w } else { 1 };
        let h1 = if h > 1 { h } else { 1 };
        let n = w1 * h1;
        let v = fill.index();
        let mut cells: Vec<u8> = Vec::with_capacity(n);
        let mut i: usize = 0;
        while i < n
            invariant
                i <= n,
                cells@.len() == i,
                forall|k: int| 0 <= k < i ==> cells@[k] == v,
            decreases n - i,
        {
            cells.push(v);
            i += 1;
        }
        Canvas { w: w1, h: h1, cells }
    }

    /// The paint at a point, or nothing off the canvas.
    pub fn get(&self, x: i32, y: i32) -> (p: Option<Paint>)
        requires
            self.wf(),
        ensures
            p == match cell_of(self.w as int, self.h as int, x as int, y as int) {
                Some(i) => Some(paint_of_index(self.cells@[i])),
                None => None::<Paint>,
            },
    {
        if x < 0 || y < 0 || x as usize >= self.w || y as usize >= self.h {
            return None;
        }
        let i = self.at(x as usize, y as usize);
        Some(Paint::from_index(self.cells[i]))
    }

    fn at(&self, x: usize, y: usize) -> (i: usize)
        requires
            self.wf(),
            x < self.w,
            y < self.h,
        ensures
            i == y * self.w + x,
            i < self.cells@.len(),
    {
        let n = self.cells.len();
        proof {
            assert(y * self.w + x < self.w * self.h) by (nonlinear_arith)
                requires x < self.w, y < self.h;
        }
        y * self.w + x
    }

    /// Paints one point; a point off the canvas changes nothing.
    pub fn set(&mut self, x: i32, y: i32, paint: Paint)
        requires
            old(self).wf(),
        ensures
            final(self).wf(),
            final(self).w == old(self).w,
            final(self).h == old(self).h,
            final(self).cells@ == match cell_of(old(self).w as int, old(self).h as int, x as int, y as int) {
                Some(i) => old(self).cells@.update(i, paint_index(paint)),
                None => old(self).cells@,
            },
    {
        if x < 0 || y < 0 || x as usize >= self.w || y as usize >= self.h {
            return;
        }
        let i = self.at(x as usize, y as usize);
        self.cells.set(i, paint.index());
    }

    /// Paints the whole canvas.
    pub fn fill_all(&mut self, paint: Paint)
        requires
            old(self).wf(),
        ensures
            final(self).wf(),
            final(self).w == old(self).w,
            final(self).h == old(self).h,
            forall|i: int| 0 <= i < final(self).cells@.len() ==> final(self).cells@[i] == paint_index(paint),
    {
        let v = paint.index();
        let n = self.cells.len();
        let mut i: usize = 0;
        while i < n
            invariant
                i <= n,
                n == self.cells@.len(),
                self.wf(),
                self.w == old(self).w,
                self.h == old(self).h,
                forall|k: int| 0 <= k < i ==> self.cells@[k] == v,
            decreases n - i,
        {
            self.cells.set(i, v);
            i += 1;
        }
    }
}


/// The offset `(dx, dy)` lies inside the round brush of `size`: within half
/// the brush width of its centre.
pub open spec fn in_disc(dx: int, dy: int, size: i32) -> bool {
    let s = if size > 1 { size as int } else { 1int };
    4 * (dx * dx + dy * dy) <= s * s
}

/// The cells after painting a disc of `size` at `(cx, cy)` with `v`.
pub open spec fn disc_cells(cells: Seq<u8>, w: int, cx: int, cy: int, size: i32, v: u8) -> Seq<u8> {
    Seq::new(
        cells.len(),
        |i: int| if in_disc(i % w - cx, i / w - cy, size) { v } else { cells[i] },
    )
}

/// Cell `i` of a `w`-wide grid stands at column `i % w` of row `i / w`.
pub proof fn lemma_cell_coords(w: int, h: int, i: int)
    requires
        w >= 1,
        0 <= i < w * h,
    ensures
        0 <= i % w < w,
        0 <= i / w < h,
        i == (i / w) * w + i % w,
{
    vstd::arithmetic::div_mod::lemma_fundamental_div_mod(i, w);
    vstd::arithmetic::div_mod::lemma_mod_bound(i, w);
    vstd::arithmetic::div_mod::lemma_div_pos_is_pos(i, w);
    let q = i / w;
    let r = i % w;
    assert(i == q * w + r) by (nonlinear_arith)
        requires i == w * q + r;
    assert(q < h) by (nonlinear_arith)
        requires i == q * w + r, 0 <= r, i < w * h, w >= 1, q >= 0;
}

/// A point on the grid is a cell of it.
pub proof fn lemma_point_in_grid(w: int, h: int, x: int, y: int)
    requires
        0 <= x < w,
        0 <= y < h,
    ensures
        0 <= y * w + x < w * h,
{
    assert(0 <= y * w + x < w * h) by (nonlinear_arith)
        requires 0 <= x < w, 0 <= y < h;
}

/// The point at column `x` of row `y` is cell `y * w + x`.
pub proof fn lemma_coords_cell(w: int, x: int, y: int)
    requires
        w >= 1,
        0 <= x < w,
    ensures
        (y * w + x) % w == x,
        (y * w + x) / w == y,
{
    vstd::arithmetic::div_mod::lemma_fundamental_div_mod_converse(y * w + x, w, y, x);
}

/// Before `(dx, dy)` in row-major brush order.
pub open spec fn brush_before(rx: int, ry: int, dx: int, dy: int) -> bool {
    ry < dy || (ry == dy && rx < dx)
}

impl Canvas {
    /// Sets the cell at a point given in wide coordinates; off the canvas nothing changes.
    fn put(&mut self, x: i64, y: i64, v: u8)
        requires
            old(self).wf(),
        ensures
            final(self).wf(),
            final(self).w == old(self).w,
            final(self).h == old(self).h,
            final(self).cells@ == match cell_of(old(self).w as int, old(self).h as int, x as int, y as int) {
                Some(i) => old(self).cells@.update(i, v),
                None => old(self).cells@,
            },
    {
        if x < 0 || y < 0 || x as u64 >= self.w as u64 || y as u64 >= self.h as u64 {
            return;
        }
        let i = self.at(x as usize, y as usize);
        self.cells.set(i, v);
    }

    /// Paints every cell within half of `size` (at least one) of the centre.
    pub fn disc(&mut self, cx: i32, cy: i32, size: i32, paint: Paint)
        requires
            old(self).wf(),
        ensures
            final(self).wf(),
            final(self).w == old(self).w,
            final(self).h == old(self).h,
            final(self).cells@ == disc_cells(
                old(self).cells@,
                old(self).w as int,
                cx as int,
                cy as int,
                size,
                paint_index(paint),
            ),
    {
        let ghost old_cells = self.cells@;
        let ghost w = self.w as int;
        let ghost h = self.h as int;
        let s: i64 = if size > 1 { size as i64 } else { 1 };
        let reach: i64 = s / 2;
        let v = paint.index();
        proof {
            assert forall|i: int| 0 <= i < old_cells.len() implies old_cells[i] == Seq::new(
                old_cells.len(),
                |i: int|
                    if in_disc(i % w - cx, i / w - cy, size) && i / w - cy < -reach {
                        v
                    } else {
                        old_cells[i]
                    },
            )[i] by {
                let rx = i % w - cx;
                let ry = i / w - cy;
                if in_disc(rx, ry, size) {
                    lemma_disc_reach(rx, ry, size);
                }
            }
            assert(self.cells@ =~= Seq::new(
                old_cells.len(),
                |i: int|
                    if in_disc(i % w - cx, i / w - cy, size) && i / w - cy < -reach {
                        v
                    } else {
                        old_cells[i]
                    },
            ));
        }
        let mut dy: i64 = -reach;
        while dy <= reach
            invariant
                self.wf(),
                self.w == w,
                self.h == h,
                old_cells.len() == w * h,
                s == if size > 1 { size as int } else { 1int },
                reach == s / 2,
                -reach <= dy <= reach + 1,
                v == paint_index(paint),
                self.cells@ == Seq::new(
                    old_cells.len(),
                    |i: int|
                        if in_disc(i % w - cx, i / w - cy, size) && i / w - cy < dy {
                            v
                        } else {
                            old_cells[i]
                        },
                ),
            decreases reach + 1 - dy,
        {
            proof {
                let cur = self.cells@;
                let nxt = Seq::new(
                    old_cells.len(),
                    |i: int|
                        if in_disc(i % w - cx, i / w - cy, size) && brush_before(
                            i % w - cx,
                            i / w - cy,
                            -reach as int,
                            dy as int,
                        ) {
                            v
                        } else {
                            old_cells[i]
                        },
                );
                assert forall|i: int| 0 <= i < old_cells.len() implies cur[i] == nxt[i] by {
                    let rx = i % w - cx;
                    let ry = i / w - cy;
                    if in_disc(rx, ry, size) {
                        lemma_disc_reach(rx, ry, size);
                    }
                }
                assert(cur =~= nxt);
            }
            let mut dx: i64 = -reach;
            while dx <= reach
                invariant
                    self.wf(),
                    self.w == w,
                    self.h == h,
                    old_cells.len() == w * h,
                    s == if size > 1 { size as int } else { 1int },
                    reach == s / 2,
                    -reach <= dy <= reach,
                    -reach <= dx <= reach + 1,
                    v == paint_index(paint),
                    self.cells@ == Seq::new(
                        old_cells.len(),
                        |i: int|
                            if in_disc(i % w - cx, i / w - cy, size) && brush_before(
                                i % w - cx,
                                i / w - cy,
                                dx as int,
                                dy as int,
                            ) {
                                v
                            } else {
                                old_cells[i]
                            },
                    ),
                decreases reach + 1 - dx,
            {
                let ghost before = self.cells@;
                let dxw = dx as i128;
                let dyw = dy as i128;
                let sw = s as i128;
                proof {
                    assert(reach <= 0x4000_0000);
                    assert(dxw * dxw <= 0x1000_0000_0000_0000 && dyw * dyw <= 0x1000_0000_0000_0000
                        && sw * sw <= 0x4000_0000_0000_0000 && 0 <= dxw * dxw && 0 <= dyw * dyw) by (nonlinear_arith)
                        requires
                            -reach <= dxw <= reach,
                            -reach <= dyw <= reach,
                            reach <= 0x4000_0000,
                            1 <= sw <= 0x8000_0000,
                    ;
                }
                let dx2 = dxw * dxw;
                let dy2 = dyw * dyw;
                let s2 = sw * sw;
                let inside = 4 * (dx2 + dy2) <= s2;
                assert(inside == in_disc(dx as int, dy as int, size));
                if inside {
                    self.put(cx as i64 + dx, cy as i64 + dy, v);
                }
                proof {
                    let next = Seq::new(
                        old_cells.len(),
                        |i: int|
                            if in_disc(i % w - cx, i / w - cy, size) && brush_before(
                                i % w - cx,
                                i / w - cy,
                                dx + 1,
                                dy as int,
                            ) {
                                v
                            } else {
                                old_cells[i]
                            },
                    );
                    assert forall|i: int| 0 <= i < old_cells.len() implies self.cells@[i]
                        == next[i] by {
                        lemma_cell_coords(w, h, i);
                        let px = cx + dx;
                        let py = cy + dy;
                        let rx = i % w - cx;
                        let ry = i / w - cy;
                        if rx == dx && ry == dy {
                            assert(0 <= px < w && 0 <= py < h);
                            lemma_point_in_grid(w, h, px, py);
                            assert(i == py * w + px);
                            if inside {
                                assert(self.cells@ == before.update(py * w + px, v));
                            }
                        } else {
                            assert(before[i] == next[i]);
                            if inside && 0 <= px < w && 0 <= py < h {
                                lemma_coords_cell(w, px, py);
                                lemma_point_in_grid(w, h, px, py);
                                assert(i != py * w + px);
                                assert(self.cells@ == before.update(py * w + px, v));
                            }
                        }
                    }
                    assert(self.cells@ =~= next);
                }
                dx += 1;
            }
            proof {
                let next = Seq::new(
                    old_cells.len(),
                    |i: int|
                        if in_disc(i % w - cx, i / w - cy, size) && i / w - cy < dy + 1 {
                            v
                        } else {
                            old_cells[i]
                        },
                );
                assert forall|i: int| 0 <= i < old_cells.len() implies self.cells@[i]
                    == next[i] by {
                    let rx = i % w - cx;
                    let ry = i / w - cy;
                    if in_disc(rx, ry, size) {
                        lemma_disc_reach(rx, ry, size);
                    }
                }
                assert(self.cells@ =~= next);
            }
            dy += 1;
        }
        proof {
            assert forall|i: int| 0 <= i < old_cells.len() implies self.cells@[i] == disc_cells(
                old_cells,
                w,
                cx as int,
                cy as int,
                size,
                v,
            )[i] by {
                let rx = i % w - cx;
                let ry = i / w - cy;
                if in_disc(rx, ry, size) {
                    lemma_disc_reach(rx, ry, size);
                }
            }
            assert(self.cells@ =~= disc_cells(old_cells, w, cx as int, cy as int, size, v));
        }
    }
}

/// A point inside the brush is within half the brush width on each axis.
proof fn lemma_disc_reach(dx: int, dy: int, size: i32)
    requires
        in_disc(dx, dy, size),
    ensures
        -((if size > 1 { size as int } else { 1int }) / 2) <= dx <= (if size > 1 { size as int } else { 1int }) / 2,
        -((if size > 1 { size as int } else { 1int }) / 2) <= dy <= (if size > 1 { size as int } else { 1int }) / 2,
{
    let s = if size > 1 { size as int } else { 1int };
    let r = s / 2;
    assert(4 * dx * dx <= s * s && 4 * dy * dy <= s * s) by (nonlinear_arith)
        requires 4 * (dx * dx + dy * dy) <= s * s;
    assert(s < 2 * r + 2);
    assert(-r <= dx <= r) by (nonlinear_arith)
        requires 4 * dx * dx <= s * s, s < 2 * r + 2, s >= 1, r >= 0;
    assert(-r <= dy <= r) by (nonlinear_arith)
        requires 4 * dy * dy <= s * s, s < 2 * r + 2, s >= 1, r >= 0;
}


/// The rest of a brush line from `(x, y)` to `(tx, ty)`, stepping on the
/// integer error term `err` as the classic all-octant line walk does, for at
/// most `fuel` further points.
pub open spec fn line_walk(
    x: int,
    y: int,
    tx: int,
    ty: int,
    err: int,
    dx: int,
    dy: int,
    sx: int,
    sy: int,
    fuel: nat,
) -> Seq<(int, int)>
    decreases fuel,
{
    if fuel == 0 || (x == tx && y == ty) {
        seq![(x, y)]
    } else {
        let e2 = 2 * err;
        let err1 = if e2 >= dy { err + dy } else { err };
        let x1 = if e2 >= dy { x + sx } else { x };
        let err2 = if e2 <= dx { err1 + dx } else { err1 };
        let y1 = if e2 <= dx { y + sy } else { y };
        seq![(x, y)] + line_walk(x1, y1, tx, ty, err2, dx, dy, sx, sy, (fuel - 1) as nat)
    }
}

pub open spec fn abs(v: int) -> int {
    if v < 0 { -v } else { v }
}

/// The points of the brush line from `from` to `to`, in the order they are painted.
pub open spec fn line_points(from: (i32, i32), to: (i32, i32)) -> Seq<(int, int)> {
    let dx = abs(to.0 - from.0);
    let dy = -abs(to.1 - from.1);
    let sx = if from.0 < to.0 { 1int } else { -1int };
    let sy = if from.1 < to.1 { 1int } else { -1int };
    line_walk(
        from.0 as int,
        from.1 as int,
        to.0 as int,
        to.1 as int,
        dx + dy,
        dx,
        dy,
        sx,
        sy,
        (dx - dy + 1) as nat,
    )
}

/// The cells after painting a disc at each of the points, in order.
pub open spec fn discs_along(cells: Seq<u8>, w: int, pts: Seq<(int, int)>, size: i32, v: u8) -> Seq<u8>
    decreases pts.len(),
{
    if pts.len() == 0 {
        cells
    } else {
        disc_cells(
            discs_along(cells, w, pts.drop_last(), size, v),
            w,
            pts.last().0,
            pts.last().1,
            size,
            v,
        )
    }
}

proof fn lemma_line_steps(a: int, b: int, i: int, j: int, err: int)
    requires
        0 <= i <= a,
        0 <= j <= b,
        err == a - b - i * b + j * a,
        !(i == a && j == b),
    ensures
        2 * err >= -b ==> i < a,
        2 * err <= a ==> j < b,
        2 * err >= -b || 2 * err <= a,
{
    if i == a {
        assert(2 * err < -b) by (nonlinear_arith)
            requires err == a - b - i * b + j * a, i == a, j < b, a >= 0, 0 <= j;
    }
    if j == b {
        assert(2 * err > a) by (nonlinear_arith)
            requires err == a - b - i * b + j * a, j == b, i < a, b >= 0, 0 <= i;
    }
}

impl Canvas {
    /// Paints discs along the straight line from `from` to `to`, both ends included.
    pub fn stroke(&mut self, from: (i32, i32), to: (i32, i32), size: i32, paint: Paint)
        requires
            old(self).wf(),
        ensures
            final(self).wf(),
            final(self).w == old(self).w,
            final(self).h == old(self).h,
            final(self).cells@ == discs_along(
                old(self).cells@,
                old(self).w as int,
                line_points(from, to),
                size,
                paint_index(paint),
            ),
    {
        let ghost old_cells = self.cells@;
        let ghost w = self.w as int;
        let ghost all = line_points(from, to);
        let (x0, y0) = from;
        let (tx, ty) = to;
        let a: i64 = if tx as i64 >= x0 as i64 { tx as i64 - x0 as i64 } else { x0 as i64 - tx as i64 };
        let b: i64 = if ty as i64 >= y0 as i64 { ty as i64 - y0 as i64 } else { y0 as i64 - ty as i64 };
        let dx: i128 = a as i128;
        let dy: i128 = -(b as i128);
        let sx: i64 = if x0 < tx { 1 } else { -1 };
        let sy: i64 = if y0 < ty { 1 } else { -1 };
        let mut x: i64 = x0 as i64;
        let mut y: i64 = y0 as i64;
        let mut err: i128 = dx + dy;
        let ghost mut i: int = 0;
        let ghost mut j: int = 0;
        let ghost mut fuel: nat = (a + b + 1) as nat;
        let ghost mut done: Seq<(int, int)> = Seq::empty();
        loop
            invariant_except_break
                all == done + line_walk(
                    x as int,
                    y as int,
                    tx as int,
                    ty as int,
                    err as int,
                    dx as int,
                    dy as int,
                    sx as int,
                    sy as int,
                    fuel,
                ),
                self.cells@ == discs_along(old_cells, w, done, size, paint_index(paint)),
            invariant
                self.wf(),
                self.w == w,
                self.h == old(self).h,
                a == abs(tx - x0),
                b == abs(ty - y0),
                dx == a,
                dy == -b,
                sx == if x0 < tx { 1int } else { -1int },
                sy == if y0 < ty { 1int } else { -1int },
                0 <= i <= a,
                0 <= j <= b,
                x == x0 + i * sx,
                y == y0 + j * sy,
                err == a - b - i * b + j * a,
                fuel >= (a - i) + (b - j) + 1,
            ensures
                self.wf(),
                self.w == w,
                self.h == old(self).h,
                self.cells@ == discs_along(old_cells, w, all, size, paint_index(paint)),
            decreases (a - i) + (b - j),
        {
            proof {
                assert(-0x1_0000_0000 <= x0 + i * sx <= 0x1_0000_0000 && -0x1_0000_0000 <= y0 + j * sy <= 0x1_0000_0000) by (nonlinear_arith)
                    requires
                        0 <= i <= a,
                        0 <= j <= b,
                        a == abs(tx - x0),
                        b == abs(ty - y0),
                        sx == if x0 < tx { 1int } else { -1int },
                        sy == if y0 < ty { 1int } else { -1int },
                        -0x8000_0000 <= x0 < 0x8000_0000,
                        -0x8000_0000 <= tx < 0x8000_0000,
                        -0x8000_0000 <= y0 < 0x8000_0000,
                        -0x8000_0000 <= ty < 0x8000_0000,
                ;
                if x0 < tx {
                    assert(x0 <= x <= tx) by (nonlinear_arith)
                        requires x == x0 + i * sx, sx == 1, 0 <= i <= a, a == tx - x0;
                } else {
                    assert(tx <= x <= x0) by (nonlinear_arith)
                        requires x == x0 + i * sx, sx == -1, 0 <= i <= a, a == x0 - tx;
                }
                if y0 < ty {
                    assert(y0 <= y <= ty) by (nonlinear_arith)
                        requires y == y0 + j * sy, sy == 1, 0 <= j <= b, b == ty - y0;
                } else {
                    assert(ty <= y <= y0) by (nonlinear_arith)
                        requires y == y0 + j * sy, sy == -1, 0 <= j <= b, b == y0 - ty;
                }
            }
            let ghost before = self.cells@;
            self.disc(x as i32, y as i32, size, paint);
            proof {
                let pt = (x as int, y as int);
                assert(done.push(pt).drop_last() =~= done);
                assert(self.cells@ == discs_along(old_cells, w, done.push(pt), size, paint_index(paint)));
            }
            if x == tx as i64 && y == ty as i64 {
                proof {
                    assert(all =~= done.push((x as int, y as int)));
                }
                break;
            }
            proof {
                if x == tx && y == ty {
                } else {
                    assert(!(i == a && j == b)) by {
                        if i == a && j == b {
                            assert(x == tx) by (nonlinear_arith)
                                requires x == x0 + i * sx, i == a, a == abs(tx - x0), sx == if x0 < tx { 1int } else { -1int };
                            assert(y == ty) by (nonlinear_arith)
                                requires y == y0 + j * sy, j == b, b == abs(ty - y0), sy == if y0 < ty { 1int } else { -1int };
                        }
                    }
                }
                lemma_line_steps(a as int, b as int, i, j, err as int);
                assert(-0x1_0000_0000_0000_0000_0000 <= err <= 0x1_0000_0000_0000_0000_0000) by (nonlinear_arith)
                    requires err == a - b - i * b + j * a, 0 <= i <= a, 0 <= j <= b, a <= 0x1_0000_0000, b <= 0x1_0000_0000;
            }
            let e2 = 2 * err;
            let ghost pt = (x as int, y as int);
            let ghost xp = x as int;
            let ghost old_err = err as int;
            let ghost yp = y as int;
            let ghost ip = i;
            let ghost jp = j;
            if e2 >= dy {
                err = err + dy;
                x = x + sx;
                proof {
                    i = i + 1;
                }
            }
            if e2 <= dx {
                err = err + dx;
                y = y + sy;
                proof {
                    j = j + 1;
                }
            }
            proof {
                done = done.push(pt);
                fuel = (fuel - 1) as nat;
                assert(x == x0 + i * sx) by (nonlinear_arith)
                    requires
                        xp == x0 + ip * sx,
                        (x == xp + sx && i == ip + 1) || (x == xp && i == ip),
                ;
                assert(y == y0 + j * sy) by (nonlinear_arith)
                    requires
                        yp == y0 + jp * sy,
                        (y == yp + sy && j == jp + 1) || (y == yp && j == jp),
                ;
                assert(err == a - b - i * b + j * a) by (nonlinear_arith)
                    requires
                        old_err == a - b - ip * b + jp * a,
                        (i == ip + 1 && j == jp + 1 && err == old_err - b + a) || (i == ip + 1
                            && j == jp && err == old_err - b) || (i == ip && j == jp + 1 && err
                            == old_err + a),
                ;
            }
        }
    }
}


/// Cells `a` and `b` of a `w`-wide grid share a side.
pub open spec fn adjacent(w: int, a: int, b: int) -> bool {
    let ax = a % w;
    let ay = a / w;
    let bx = b % w;
    let by = b / w;
    (ax == bx && (ay - by == 1 || by - ay == 1)) || (ay == by && (ax - bx == 1 || bx - ax == 1))
}

/// `p` walks from side to side through cells that all hold `t`.
pub open spec fn is_walk(cells: Seq<u8>, w: int, t: u8, p: Seq<int>) -> bool {
    &&& p.len() >= 1
    &&& forall|k: int| 0 <= k < p.len() ==> 0 <= #[trigger] p[k] < cells.len() && cells[p[k]] == t
    &&& forall|k: int| 0 <= k < p.len() - 1 ==> adjacent(w, #[trigger] p[k], p[k + 1])
}

/// Cell `c` can be reached from cell `s` through cells that hold `t`.
pub open spec fn connected(cells: Seq<u8>, w: int, t: u8, s: int, c: int) -> bool {
    exists|p: Seq<int>| is_walk(cells, w, t, p) && p[0] == s && p.last() == c
}

/// The cells after a bucket fill with `v` from cell `s`: the region of cells
/// that hold what `s` holds and connect to `s` takes `v`.
pub open spec fn flood_cells(cells: Seq<u8>, w: int, s: int, v: u8) -> Seq<u8> {
    Seq::new(
        cells.len(),
        |i: int| if connected(cells, w, cells[s], s, i) { v } else { cells[i] },
    )
}

/// How many cells hold `t`.
pub open spec fn count_of(cells: Seq<u8>, t: u8) -> nat
    decreases cells.len(),
{
    if cells.len() == 0 {
        0
    } else {
        count_of(cells.drop_last(), t) + if cells.last() == t { 1nat } else { 0nat }
    }
}

proof fn lemma_count_update(cells: Seq<u8>, t: u8, i: int, v: u8)
    requires
        0 <= i < cells.len(),
        cells[i] == t,
        v != t,
    ensures
        count_of(cells.update(i, v), t) + 1 == count_of(cells, t),
    decreases cells.len(),
{
    let u = cells.update(i, v);
    if i == cells.len() - 1 {
        assert(u.drop_last() =~= cells.drop_last());
    } else {
        assert(u.drop_last() =~= cells.drop_last().update(i, v));
        lemma_count_update(cells.drop_last(), t, i, v);
    }
}

/// The spot of a stack entry on a `w`-wide grid.
pub open spec fn spot(w: int, e: (usize, usize)) -> int {
    e.1 * w + e.0
}

proof fn lemma_walk_extend(cells: Seq<u8>, w: int, t: u8, p: Seq<int>, c: int)
    requires
        is_walk(cells, w, t, p),
        0 <= c < cells.len(),
        cells[c] == t,
        adjacent(w, p.last(), c),
    ensures
        is_walk(cells, w, t, p.push(c)),
        p.push(c)[0] == p[0],
        p.push(c).last() == c,
{
    let q = p.push(c);
    assert forall|k: int| 0 <= k < q.len() - 1 implies adjacent(w, #[trigger] q[k], q[k + 1]) by {
        if k < p.len() - 1 {
            assert(q[k] == p[k] && q[k + 1] == p[k + 1]);
        } else {
            assert(q[k] == p.last());
        }
    }
}

/// Every cell of a walk from a filled cell is filled, when filled cells pass
/// the fill to each side-by-side cell that held `t`.
proof fn lemma_walk_filled(orig: Seq<u8>, cur: Seq<u8>, w: int, t: u8, v: u8, p: Seq<int>)
    requires
        is_walk(orig, w, t, p),
        cur.len() == orig.len(),
        cur[p[0]] == v,
        forall|a: int, b: int|
            0 <= a < orig.len() && 0 <= b < orig.len() && #[trigger] cur[a] == v && orig[a] == t
                && adjacent(w, a, b) && orig[b] == t ==> #[trigger] cur[b] == v,
    ensures
        cur[p.last()] == v,
    decreases p.len(),
{
    if p.len() > 1 {
        let q = p.drop_last();
        assert forall|k: int| 0 <= k < q.len() - 1 implies adjacent(w, #[trigger] q[k], q[k + 1]) by {
            assert(q[k] == p[k] && q[k + 1] == p[k + 1]);
        }
        lemma_walk_filled(orig, cur, w, t, v, q);
        let a = q.last();
        let b = p.last();
        assert(p[p.len() - 2] == a);
        assert(adjacent(w, a, b));
        assert(cur[a] == v);
    }
}

/// The side neighbours of the cell at `(px, py)`.
proof fn lemma_neighbours(w: int, h: int, px: int, py: int, b: int)
    requires
        0 <= px < w,
        0 <= py < h,
        0 <= b < w * h,
        adjacent(w, py * w + px, b),
    ensures
        (px > 0 && b == py * w + px - 1) || (px + 1 < w && b == py * w + px + 1) || (py > 0 && b
            == (py - 1) * w + px) || (py + 1 < h && b == (py + 1) * w + px),
{
    lemma_coords_cell(w, px, py);
    lemma_cell_coords(w, h, b);
    let bx = b % w;
    let by = b / w;
    assert(b == by * w + bx);
    if bx == px {
        if by == py + 1 {
            assert(b == (py + 1) * w + px) by (nonlinear_arith)
                requires b == by * w + bx, by == py + 1, bx == px;
        } else {
            assert(b == (py - 1) * w + px) by (nonlinear_arith)
                requires b == by * w + bx, by == py - 1, bx == px;
        }
    }
}

impl Canvas {
    /// Fills the region of the paint at `(x, y)` that connects to it side by
    /// side with `paint`. Nothing changes, and false comes back, off the
    /// canvas or when the point already has the paint.
    #[verifier::spinoff_prover]
    #[verifier::rlimit(100)]
    pub fn flood_fill(&mut self, x: i32, y: i32, paint: Paint) -> (changed: bool)
        requires
            old(self).wf(),
        ensures
            final(self).wf(),
            final(self).w == old(self).w,
            final(self).h == old(self).h,
            changed == match cell_of(old(self).w as int, old(self).h as int, x as int, y as int) {
                Some(s) => old(self).cells@[s] != paint_index(paint),
                None => false,
            },
            final(self).cells@ == match cell_of(old(self).w as int, old(self).h as int, x as int, y as int) {
                Some(s) => if changed {
                    flood_cells(old(self).cells@, old(self).w as int, s, paint_index(paint))
                } else {
                    old(self).cells@
                },
                None => old(self).cells@,
            },
    {
        if x < 0 || y < 0 || x as usize >= self.w || y as usize >= self.h {
            return false;
        }
        let st = self.at(x as usize, y as usize);
        let target = self.cells[st];
        let value = paint.index();
        if target == value {
            return false;
        }
        let ghost orig = self.cells@;
        let ghost w = self.w as int;
        let ghost h = self.h as int;
        let ghost n = orig.len() as int;
        let ghost sp = st as int;
        proof {
            assert(is_walk(orig, w, target, seq![sp]) && seq![sp][0] == sp && seq![sp].last() == sp);
            assert(connected(orig, w, target, sp, sp));
        }
        let mut stack: Vec<(usize, usize)> = Vec::new();
        stack.push((x as usize, y as usize));
        proof {
            assert(stack@[0] == (x as usize, y as usize));
        }
        while stack.len() > 0
            invariant
                self.wf(),
                self.w == w,
                self.h == h,
                n == w * h,
                orig.len() == n,
                0 <= sp < n,
                orig[sp] == target,
                target != value,
                self.cells@.len() == n,
                forall|k: int|
                    0 <= k < stack@.len() ==> (#[trigger] stack@[k]).0 < w && stack@[k].1 < h,
                forall|i: int|
                    0 <= i < n ==> #[trigger] self.cells@[i] == orig[i] || (self.cells@[i] == value
                        && orig[i] == target && connected(orig, w, target, sp, i)),
                forall|k: int|
                    0 <= k < stack@.len() && orig[spot(w, #[trigger] stack@[k])] == target
                        ==> connected(orig, w, target, sp, spot(w, stack@[k])),
                self.cells@[sp] == value || stack@.contains((x as usize, y as usize)),
                spot(w, (x as usize, y as usize)) == sp,
                forall|a: int, b: int|
                    0 <= a < n && 0 <= b < n && #[trigger] self.cells@[a] == value && orig[a]
                        == target && adjacent(w, a, b) && orig[b] == target ==> #[trigger] self.cells@[b]
                        == value || exists|k: int|
                        0 <= k < stack@.len() && spot(w, #[trigger] stack@[k]) == b,
            decreases 5 * count_of(self.cells@, target) + stack@.len(),
        {
            let ghost before = self.cells@;
            let ghost sbefore = stack@;
            let e = stack.pop().unwrap();
            let (px, py) = e;
            proof {
                assert(sbefore.last() == e);
                assert(stack@ =~= sbefore.drop_last());
            }
            let i = self.at(px, py);
            if self.cells[i] != target {
                proof {
                    assert forall|a: int, b: int|
                        0 <= a < n && 0 <= b < n && #[trigger] self.cells@[a] == value && orig[a]
                            == target && adjacent(w, a, b) && orig[b] == target implies #[trigger] self.cells@[b]
                            == value || exists|k: int|
                            0 <= k < stack@.len() && spot(w, #[trigger] stack@[k]) == b by {
                        if self.cells@[b] != value {
                            let k = choose|k: int|
                                0 <= k < sbefore.len() && spot(w, #[trigger] sbefore[k]) == b;
                            if k == sbefore.len() - 1 {
                                assert(spot(w, e) == i);
                            } else {
                                assert(stack@[k] == sbefore[k]);
                            }
                        }
                    }
                    if self.cells@[sp] != value {
                        let k = choose|k: int| 0 <= k < sbefore.len() && sbefore[k] == (x as usize, y as usize);
                        if k == sbefore.len() - 1 {
                        } else {
                            assert(stack@[k] == sbefore[k]);
                        }
                    }
                }
                continue;
            }
            proof {
                assert(orig[i as int] == target);
                assert(connected(orig, w, target, sp, i as int));
                lemma_count_update(self.cells@, target, i as int, value);
            }
            self.cells.set(i, value);
            let ghost mid = stack@;
            let ghost cur = self.cells@;
            if px > 0 {
                stack.push((px - 1, py));
            }
            if px + 1 < self.w {
                stack.push((px + 1, py));
            }
            if py > 0 {
                stack.push((px, py - 1));
            }
            if py + 1 < self.h {
                stack.push((px, py + 1));
            }
            proof {
                let ii = i as int;
                assert(cur == before.update(ii, value));
                assert(spot(w, e) == ii);
                lemma_coords_cell(w, px as int, py as int);
                assert(stack@.len() <= mid.len() + 4);
                assert forall|k: int| 0 <= k < mid.len() implies stack@[k] == mid[k] by {}
                // every pushed entry is a side neighbour of the filled cell
                assert forall|k: int| mid.len() <= k < stack@.len() implies adjacent(
                    w,
                    ii,
                    spot(w, #[trigger] stack@[k]),
                ) && 0 <= spot(w, stack@[k]) < n by {
                    let q = stack@[k];
                    lemma_point_in_grid(w, h, q.0 as int, q.1 as int);
                    lemma_coords_cell(w, q.0 as int, q.1 as int);
                }
                // changed cells stay connected to the start
                let pw = choose|p: Seq<int>| is_walk(orig, w, target, p) && p[0] == sp && p.last() == ii;
                assert forall|k: int|
                    0 <= k < stack@.len() && orig[spot(w, #[trigger] stack@[k])] == target
                        implies connected(orig, w, target, sp, spot(w, stack@[k])) by {
                    if k < mid.len() {
                        assert(stack@[k] == sbefore[k]);
                    } else {
                        let c = spot(w, stack@[k]);
                        lemma_walk_extend(orig, w, target, pw, c);
                        assert(is_walk(orig, w, target, pw.push(c)) && pw.push(c)[0] == sp
                            && pw.push(c).last() == c);
                    }
                }
                if self.cells@[sp] != value {
                    let k = choose|k: int| 0 <= k < sbefore.len() && sbefore[k] == (x as usize, y as usize);
                    if k == sbefore.len() - 1 {
                        assert(ii == sp);
                    } else {
                        assert(stack@[k] == sbefore[k]);
                        assert(stack@.contains((x as usize, y as usize)));
                    }
                }
                assert forall|a: int, b: int|
                    0 <= a < n && 0 <= b < n && #[trigger] self.cells@[a] == value && orig[a]
                        == target && adjacent(w, a, b) && orig[b] == target implies #[trigger] self.cells@[b]
                        == value || exists|k: int|
                        0 <= k < stack@.len() && spot(w, #[trigger] stack@[k]) == b by {
                    if self.cells@[b] != value {
                        if a == ii {
                            lemma_neighbours(w, h, px as int, py as int, b);
                            if px > 0 && b == py * w + px - 1 {
                                let k = mid.len() as int;
                                assert(stack@[k] == ((px - 1) as usize, py));
                            } else if px + 1 < w && b == py * w + px + 1 {
                                let k = mid.len() + if px > 0 { 1int } else { 0int };
                                assert(stack@[k] == ((px + 1) as usize, py));
                            } else if py > 0 && b == (py - 1) * w + px {
                                let k = mid.len() + (if px > 0 { 1int } else { 0int }) + (if px + 1 < w { 1int } else { 0int });
                                assert(stack@[k] == (px, (py - 1) as usize));
                            } else {
                                let k = mid.len() + (if px > 0 { 1int } else { 0int }) + (if px + 1 < w { 1int } else { 0int }) + (if py > 0 { 1int } else { 0int });
                                assert(stack@[k] == (px, (py + 1) as usize));
                            }
                        } else {
                            assert(before[a] == value);
                            assert(before[b] != value);
                            let k = choose|k: int|
                                0 <= k < sbefore.len() && spot(w, #[trigger] sbefore[k]) == b;
                            if k == sbefore.len() - 1 {
                                assert(b == ii);
                            } else {
                                assert(stack@[k] == sbefore[k]);
                            }
                        }
                    }
                }
            }
        }
        proof {
            let fin = self.cells@;
            let want = flood_cells(orig, w, sp, value);
            assert forall|c: int| 0 <= c < n implies fin[c] == want[c] by {
                if connected(orig, w, target, sp, c) {
                    let p = choose|p: Seq<int>| is_walk(orig, w, target, p) && p[0] == sp && p.last() == c;
                    lemma_walk_filled(orig, fin, w, target, value, p);
                }
            }
            assert(fin =~= want);
        }
        true
    }
}



/// The cells of a `w` by `h` nearest-neighbour copy of an `sw` by `sh` grid.
pub open spec fn resampled_cells(src: Seq<u8>, sw: int, sh: int, w: int, h: int) -> Seq<u8> {
    Seq::new((w * h) as nat, |i: int| src[((i / w) * sh / h) * sw + (i % w) * sw / w])
}

/// The colours of the cells, four bytes each.
pub open spec fn cells_rgba(cells: Seq<u8>) -> Seq<u8> {
    Seq::new(4 * cells.len(), |j: int| paint_rgba(paint_of_index(cells[j / 4]))[j % 4])
}

impl Canvas {
    /// A copy at another size, each cell taken from the cell it falls on.
    pub fn resampled(&self, w: usize, h: usize) -> (c: Canvas)
        requires
            self.wf(),
            (if w > 1 { w as int } else { 1 }) * (if h > 1 { h as int } else { 1 }) <= usize::MAX,
            (if w > 1 { w as int } else { 1 }) * self.w <= usize::MAX,
            (if h > 1 { h as int } else { 1 }) * self.h <= usize::MAX,
        ensures
            c.wf(),
            c.w == if w > 1 { w } else { 1 },
            c.h == if h > 1 { h } else { 1 },
            c.cells@ == resampled_cells(self.cells@, self.w as int, self.h as int, c.w as int, c.h as int),
    {
        let w = if w > 1 { w } else { 1 };
        let h = if h > 1 { h } else { 1 };
        let ghost want = resampled_cells(self.cells@, self.w as int, self.h as int, w as int, h as int);
        let mut cells: Vec<u8> = Vec::with_capacity(w * h);
        let mut y: usize = 0;
        while y < h
            invariant
                self.wf(),
                w >= 1,
                h >= 1,
                w * h <= usize::MAX,
                w * self.w <= usize::MAX,
                h * self.h <= usize::MAX,
                y <= h,
                cells@.len() == y * w,
                want == resampled_cells(self.cells@, self.w as int, self.h as int, w as int, h as int),
                forall|i: int| 0 <= i < cells@.len() ==> cells@[i] == want[i],
            decreases h - y,
        {
            proof {
                assert(y * self.h < h * self.h) by (nonlinear_arith)
                    requires y < h, self.h >= 1;
            }
            let sy = (y * self.h) / h;
            proof {
                assert(sy < self.h) by (nonlinear_arith)
                    requires sy == (y * self.h) / h as int, y < h, h >= 1, self.h >= 1;
            }
            let mut x: usize = 0;
            while x < w
                invariant
                    self.wf(),
                    w >= 1,
                    h >= 1,
                    w * h <= usize::MAX,
                    w * self.w <= usize::MAX,
                    y < h,
                    x <= w,
                    sy == (y * self.h) / h as int,
                    sy < self.h,
                    cells@.len() == y * w + x,
                    want == resampled_cells(self.cells@, self.w as int, self.h as int, w as int, h as int),
                    forall|i: int| 0 <= i < cells@.len() ==> cells@[i] == want[i],
                decreases w - x,
            {
                proof {
                    assert(x * self.w < w * self.w) by (nonlinear_arith)
                        requires x < w, self.w >= 1;
                    assert(y * w + x < w * h) by (nonlinear_arith)
                        requires x < w, y < h;
                }
                let sx = (x * self.w) / w;
                proof {
                    assert(sx < self.w) by (nonlinear_arith)
                        requires sx == (x * self.w) / w as int, x < w, w >= 1, self.w >= 1;
                    let i = (y * w + x) as int;
                    lemma_coords_cell(w as int, x as int, y as int);
                    assert(i / (w as int) == y && i % (w as int) == x);
                }
                let at = self.at(sx, sy);
                cells.push(self.cells[at]);
                x += 1;
            }
            proof {
                assert((y + 1) * w == y * w + w) by (nonlinear_arith);
            }
            y += 1;
        }
        proof {
            assert(h * w == w * h) by (nonlinear_arith);
            assert(cells@ =~= want);
        }
        Canvas { w, h, cells }
    }

    /// The colours of the cells, row after row, four bytes each.
    pub fn rgba(&self) -> (out: Vec<u8>)
        ensures
            out@ == cells_rgba(self.cells@),
    {
        let mut out: Vec<u8> = Vec::new();
        let mut i: usize = 0;
        while i < self.cells.len()
            invariant
                i <= self.cells@.len(),
                out@ == cells_rgba(self.cells@.take(i as int)),
            decreases self.cells@.len() - i,
        {
            let c = Paint::from_index(self.cells[i]).rgba();
            let ghost before = out@;
            out.push(c[0]);
            out.push(c[1]);
            out.push(c[2]);
            out.push(c[3]);
            proof {
                let t = self.cells@.take(i + 1);
                assert forall|j: int| 0 <= j < 4 * t.len() implies out@[j] == cells_rgba(t)[j] by {
                    if j < 4 * i {
                        assert(self.cells@.take(i as int)[j / 4] == t[j / 4]);
                    } else {
                        assert(j / 4 == i);
                    }
                }
                assert(out@ =~= cells_rgba(t));
            }
            i += 1;
        }
        assert(self.cells@.take(self.cells@.len() as int) =~= self.cells@);
        out
    }
}

/// A drawing handed to the generator: its size and its pixels as blue, green,
/// red and alpha bytes, row after row.
#[derive(Clone, PartialEq, Eq, Debug)]
pub struct Blueprint {
    pub w: i32,
    pub h: i32,
    pub bgra: Vec<u8>,
}

/// A blueprint as plain values.
pub struct BlueprintView {
    pub w: i32,
    pub h: i32,
    pub bgra: Seq<u8>,
}

impl View for Blueprint {
    type V = BlueprintView;

    open spec fn view(&self) -> BlueprintView {
        BlueprintView { w: self.w, h: self.h, bgra: self.bgra@ }
    }
}

/// The paint that a classification code stands for.
pub open spec fn paint_of_code(code: i8) -> Paint {
    if code == 1 {
        Paint::Land
    } else if code == 2 {
        Paint::NoStartLand
    } else if code == -2 {
        Paint::NoStartSea
    } else {
        Paint::Sea
    }
}

/// The colours of the cells as blue, green, red and alpha bytes.
pub open spec fn cells_bgra(cells: Seq<u8>) -> Seq<u8> {
    Seq::new(
        4 * cells.len(),
        |j: int|
            {
                let c = paint_rgba(paint_of_index(cells[j / 4]));
                let k = j % 4;
                if k == 0 {
                    c[2]
                } else if k == 2 {
                    c[0]
                } else {
                    c[k]
                }
            },
    )
}

/// Blue-green-red-alpha pixels turned into red-green-blue-alpha ones; a
/// trailing part pixel is dropped.
pub open spec fn bgra_to_rgba(b: Seq<u8>) -> Seq<u8> {
    Seq::new(
        (b.len() / 4) * 4,
        |j: int|
            {
                let k = j % 4;
                if k == 0 {
                    b[j + 2]
                } else if k == 2 {
                    b[j - 2]
                } else {
                    b[j]
                }
            },
    )
}

/// The overlay colour of a classification code.
pub open spec fn class_colour(code: i8) -> Seq<u8> {
    if code == 1 {
        seq![96u8, 176, 96, 255]
    } else if code == 2 {
        seq![150u8, 150, 150, 255]
    } else if code == -2 {
        seq![80u8, 80, 80, 255]
    } else {
        seq![70u8, 110, 200, 255]
    }
}

/// The overlay colours of a classification mask, four bytes a cell.
pub open spec fn mask_rgba(mask: Seq<i8>) -> Seq<u8> {
    Seq::new(4 * mask.len(), |j: int| class_colour(mask[j / 4])[j % 4])
}

/// The cells of a `w` by `h` canvas read from an `sw` by `sh` classification
/// mask, each cell from the mask cell it falls on.
pub open spec fn cells_from_mask(mask: Seq<i8>, sw: int, sh: int, w: int, h: int) -> Seq<u8> {
    Seq::new(
        (w * h) as nat,
        |i: int| paint_index(paint_of_code(mask[((i / w) * sh / h) * sw + (i % w) * sw / w])),
    )
}

/// A side length of at least one.
pub open spec fn at_least_one(n: int) -> int {
    if n > 1 {
        n
    } else {
        1
    }
}

fn classify_colour(code: i8) -> (c: [u8; 4])
    ensures
        c@ == class_colour(code),
{
    let c = if code == 1 {
        [96u8, 176, 96, 255]
    } else if code == 2 {
        [150u8, 150, 150, 255]
    } else if code == -2 {
        [80u8, 80, 80, 255]
    } else {
        [70u8, 110, 200, 255]
    };
    assert(c@ =~= class_colour(code));
    c
}

impl Canvas {
    /// The canvas as a blueprint: its size and its colours in blue-green-red-alpha order.
    pub fn to_blueprint(&self) -> (bp: Blueprint)
        ensures
            bp.w == self.w as i32,
            bp.h == self.h as i32,
            bp.bgra@ == cells_bgra(self.cells@),
    {
        let mut bgra: Vec<u8> = Vec::new();
        let mut i: usize = 0;
        while i < self.cells.len()
            invariant
                i <= self.cells@.len(),
                bgra@ == cells_bgra(self.cells@.take(i as int)),
            decreases self.cells@.len() - i,
        {
            let c = Paint::from_index(self.cells[i]).rgba();
            bgra.push(c[2]);
            bgra.push(c[1]);
            bgra.push(c[0]);
            bgra.push(c[3]);
            proof {
                let t = self.cells@.take(i + 1);
                assert forall|j: int| 0 <= j < 4 * t.len() implies bgra@[j] == cells_bgra(t)[j] by {
                    if j < 4 * i {
                        assert(self.cells@.take(i as int)[j / 4] == t[j / 4]);
                    } else {
                        assert(j / 4 == i);
                    }
                }
                assert(bgra@ =~= cells_bgra(t));
            }
            i += 1;
        }
        assert(self.cells@.take(self.cells@.len() as int) =~= self.cells@);
        Blueprint { w: self.w as i32, h: self.h as i32, bgra }
    }

    /// A `w` by `h` canvas (at least one cell each way) from a blueprint and the
    /// classification mask that the generator read from it, each cell from the
    /// mask cell it falls on; all sea when the mask is smaller than the blueprint.
    pub fn from_blueprint(bp: &Blueprint, mask: &[i8], w: usize, h: usize) -> (c: Canvas)
        requires
            at_least_one(w as int) * at_least_one(h as int) <= usize::MAX,
            at_least_one(w as int) * at_least_one(bp.w as int) <= usize::MAX,
            at_least_one(h as int) * at_least_one(bp.h as int) <= usize::MAX,
            at_least_one(bp.w as int) * at_least_one(bp.h as int) <= usize::MAX,
        ensures
            c.wf(),
            c.w == at_least_one(w as int),
            c.h == at_least_one(h as int),
            c.cells@ == if mask@.len() < at_least_one(bp.w as int) * at_least_one(bp.h as int) {
                Seq::new((c.w * c.h) as nat, |i: int| paint_index(Paint::Sea))
            } else {
                cells_from_mask(
                    mask@,
                    at_least_one(bp.w as int),
                    at_least_one(bp.h as int),
                    c.w as int,
                    c.h as int,
                )
            },
    {
        let w = if w > 1 { w } else { 1 };
        let h = if h > 1 { h } else { 1 };
        let sw: usize = if bp.w > 1 { bp.w as usize } else { 1 };
        let sh: usize = if bp.h > 1 { bp.h as usize } else { 1 };
        if mask.len() < sw * sh {
            let c = Canvas::new(w, h, Paint::Sea);
            assert(c.cells@ =~= Seq::new((c.w * c.h) as nat, |i: int| paint_index(Paint::Sea)));
            return c;
        }
        let ghost want = cells_from_mask(mask@, sw as int, sh as int, w as int, h as int);
        let mut cells: Vec<u8> = Vec::new();
        let mut y: usize = 0;
        while y < h
            invariant
                w >= 1,
                h >= 1,
                sw >= 1,
                sh >= 1,
                w * h <= usize::MAX,
                w * sw <= usize::MAX,
                h * sh <= usize::MAX,
                sw * sh <= mask@.len(),
                mask@.len() <= usize::MAX,
                y <= h,
                cells@.len() == y * w,
                want == cells_from_mask(mask@, sw as int, sh as int, w as int, h as int),
                forall|i: int| 0 <= i < cells@.len() ==> cells@[i] == want[i],
            decreases h - y,
        {
            proof {
                assert(y * sh < h * sh) by (nonlinear_arith)
                    requires y < h, sh >= 1;
            }
            let sy = (y * sh) / h;
            proof {
                assert(sy < sh) by (nonlinear_arith)
                    requires sy == (y * sh) / h as int, y < h, h >= 1, sh >= 1;
            }
            let mut x: usize = 0;
            while x < w
                invariant
                    w >= 1,
                    h >= 1,
                    sw >= 1,
                    sh >= 1,
                    w * h <= usize::MAX,
                    w * sw <= usize::MAX,
                    sw * sh <= mask@.len(),
                    mask@.len() <= usize::MAX,
                    y < h,
                    x <= w,
                    sy == (y * sh) / h as int,
                    sy < sh,
                    cells@.len() == y * w + x,
                    want == cells_from_mask(mask@, sw as int, sh as int, w as int, h as int),
                    forall|i: int| 0 <= i < cells@.len() ==> cells@[i] == want[i],
                decreases w - x,
            {
                proof {
                    assert(x * sw < w * sw) by (nonlinear_arith)
                        requires x < w, sw >= 1;
                    assert(y * w + x < w * h) by (nonlinear_arith)
                        requires x < w, y < h;
                }
                let sx = (x * sw) / w;
                proof {
                    assert(sx < sw) by (nonlinear_arith)
                        requires sx == (x * sw) / w as int, x < w, w >= 1, sw >= 1;
                    assert(sy * sw + sx < sw * sh) by (nonlinear_arith)
                        requires sx < sw, sy < sh;
                    lemma_coords_cell(w as int, x as int, y as int);
                }
                let p = Paint::from_code(mask[sy * sw + sx]);
                cells.push(p.index());
                x += 1;
            }
            proof {
                assert((y + 1) * w == y * w + w) by (nonlinear_arith);
            }
            y += 1;
        }
        proof {
            assert(h * w == w * h) by (nonlinear_arith);
            assert(cells@ =~= want);
        }
        Canvas { w, h, cells }
    }

    /// The overlay of a classification mask of this canvas: one colour per class, four bytes a cell.
    pub fn classification_rgba(&self, mask: &[i8]) -> (out: Vec<u8>)
        ensures
            out@ == mask_rgba(mask@),
    {
        let mut out: Vec<u8> = Vec::new();
        let mut i: usize = 0;
        while i < mask.len()
            invariant
                i <= mask@.len(),
                out@ == mask_rgba(mask@.take(i as int)),
            decreases mask@.len() - i,
        {
            let c = classify_colour(mask[i]);
            out.push(c[0]);
            out.push(c[1]);
            out.push(c[2]);
            out.push(c[3]);
            proof {
                let t = mask@.take(i + 1);
                assert forall|j: int| 0 <= j < 4 * t.len() implies out@[j] == mask_rgba(t)[j] by {
                    if j < 4 * i {
                        assert(mask@.take(i as int)[j / 4] == t[j / 4]);
                    } else {
                        assert(j / 4 == i);
                    }
                }
                assert(out@ =~= mask_rgba(t));
            }
            i += 1;
        }
        assert(mask@.take(mask@.len() as int) =~= mask@);
        out
    }
}

/// The pixels of a blueprint as red, green, blue and alpha bytes.
pub fn blueprint_rgba(bp: &Blueprint) -> (out: Vec<u8>)
    ensures
        out@ == bgra_to_rgba(bp.bgra@),
{
    let n = bp.bgra.len() / 4;
    let mut out: Vec<u8> = Vec::new();
    let mut k: usize = 0;
    while k < n
        invariant
            n == bp.bgra@.len() / 4,
            bp.bgra@.len() <= usize::MAX,
            k <= n,
            out@.len() == k * 4,
            forall|j: int| 0 <= j < out@.len() ==> out@[j] == bgra_to_rgba(bp.bgra@)[j],
        decreases n - k,
    {
        proof {
            assert(k * 4 + 4 <= bp.bgra@.len()) by (nonlinear_arith)
                requires k < n, n == bp.bgra@.len() / 4;
        }
        let i = k * 4;
        out.push(bp.bgra[i + 2]);
        out.push(bp.bgra[i + 1]);
        out.push(bp.bgra[i]);
        out.push(bp.bgra[i + 3]);
        k += 1;
    }
    assert(out@ =~= bgra_to_rgba(bp.bgra@));
    out
}

/// The bytes of a PNG that holds a `w` by `h` image of 8-bit RGBA pixels, or
/// the encoder's error message.
pub uninterp spec fn png_encoded(w: u32, h: u32, rgba: Seq<u8>) -> Result<Seq<u8>, Seq<char>>;

/// An encoder outcome as plain values.
pub open spec fn encoded_outcome(r: Result<Vec<u8>, String>) -> Result<Seq<u8>, Seq<char>> {
    match r {
        Ok(b) => Ok(b@),
        Err(e) => Err(e@),
    }
}

/// Writes an 8-bit RGBA image as PNG with the `png` crate (`Encoder::new`,
/// `set_color`, `set_depth`, `write_header`, `Writer::write_image_data`, and the
/// writer's finish on drop). Claimed: the outcome depends on the size and the
/// pixels alone (`png_encoded`); the error is the encoder's message, such as
/// its size error where the pixels do not fill the sides. The encoder
/// multiplies the row length by the height in `usize` before it compares
/// with the buffer; that product must not overflow.
#[verifier::external_body]
fn png_write_rgba8(w: u32, h: u32, rgba: &[u8]) -> (r: Result<Vec<u8>, String>)
    requires
        png_fits(w, h),
    ensures
        encoded_outcome(r) == png_encoded(w, h, rgba@),
{
    let mut out = Vec::new();
    let written = {
        let mut enc = png::Encoder::new(&mut out, w, h);
        enc.set_color(png::ColorType::Rgba);
        enc.set_depth(png::BitDepth::Eight);
        match enc.write_header() {
            Ok(mut writer) => writer.write_image_data(rgba),
            Err(e) => Err(e),
        }
    };
    match written {
        Ok(()) => Ok(out),
        Err(e) => Err(e.to_string()),
    }
}

/// The bytes of a `w` by `h` image of four bytes a pixel can be counted in
/// a `usize`.
pub open spec fn png_fits(w: u32, h: u32) -> bool {
    (w as int) * (h as int) * 4 <= usize::MAX
}

/// A PNG of a `w` by `h` image of 8-bit RGBA pixels, the sides taken as
/// `u32`; pixels that do not fill them get the encoder's size error.
pub fn encode_png(w: usize, h: usize, rgba: &[u8]) -> (r: Result<Vec<u8>, String>)
    requires
        png_fits(w as u32, h as u32),
    ensures
        encoded_outcome(r) == png_encoded(w as u32, h as u32, rgba@),
{
    png_write_rgba8(w as u32, h as u32, rgba)
}

/// How many drawings the editor keeps to go back to.
pub const UNDO_DEPTH: usize = 48;

/// A canvas as plain values.
pub struct CanvasView {
    pub w: usize,
    pub h: usize,
    pub cells: Seq<u8>,
}

impl View for Canvas {
    type V = CanvasView;

    open spec fn view(&self) -> CanvasView {
        CanvasView { w: self.w, h: self.h, cells: self.cells@ }
    }
}

/// A canvas view whose cells cover its grid.
pub open spec fn canvas_view_wf(c: CanvasView) -> bool {
    c.w >= 1 && c.h >= 1 && c.cells.len() == c.w * c.h
}

/// The undo stack after saving a drawing: the oldest goes when the stack is full.
pub open spec fn pushed_undo(stack: Seq<CanvasView>, c: CanvasView) -> Seq<CanvasView> {
    if stack.len() >= UNDO_DEPTH {
        stack.drop_first().push(c)
    } else {
        stack.push(c)
    }
}

fn copy_canvas(c: &Canvas) -> (d: Canvas)
    ensures
        d@ == c@,
{
    let cells = c.cells.clone();
    assert(cells@ =~= c.cells@);
    Canvas { w: c.w, h: c.h, cells }
}

/// The state of the blueprint editor: the canvas, the brush, and the drawings to go back to.
pub struct BlueprintEditor {
    pub canvas: Canvas,
    pub paint: Paint,
    pub tool: Tool,
    pub size: i32,
    pub overlay: bool,
    pub guide_on: bool,
    pub shape: usize,
    pub undo: Vec<Canvas>,
}

impl BlueprintEditor {
    /// The saved drawings, oldest first.
    pub open spec fn undo_stack(&self) -> Seq<CanvasView> {
        self.undo@.map_values(|c: Canvas| c@)
    }

    /// The canvas and every saved drawing cover their grids, and at most
    /// `UNDO_DEPTH` drawings are kept.
    pub open spec fn wf(&self) -> bool {
        &&& self.canvas.wf()
        &&& self.undo_stack().len() <= UNDO_DEPTH
        &&& forall|k: int| 0 <= k < self.undo_stack().len() ==> canvas_view_wf(#[trigger] self.undo_stack()[k])
    }

    /// An editor on the first canvas shape, land under the brush, starting from
    /// a blueprint (with its classification mask) or from open sea.
    pub fn new(start: Option<(&Blueprint, &[i8])>) -> (e: BlueprintEditor)
        requires
            start matches Some((bp, _)) ==> {
                &&& at_least_one(bp.w as int) * 256 <= usize::MAX
                &&& at_least_one(bp.h as int) * 256 <= usize::MAX
                &&& at_least_one(bp.w as int) * at_least_one(bp.h as int) <= usize::MAX
            },
        ensures
            e.wf(),
            e.canvas.wf(),
            e.undo_stack().len() == 0,
            e.canvas.w == 256,
            e.canvas.h == 256,
            match start {
                Some((bp, mask)) => e.canvas.cells@ == if mask@.len() < at_least_one(bp.w as int)
                    * at_least_one(bp.h as int) {
                    Seq::new(65536nat, |i: int| paint_index(Paint::Sea))
                } else {
                    cells_from_mask(mask@, at_least_one(bp.w as int), at_least_one(bp.h as int), 256, 256)
                },
                None => e.canvas.cells@ == Seq::new(65536nat, |i: int| paint_index(Paint::Sea)),
            },
            e.paint == Paint::Land,
            e.tool == Tool::Brush,
            e.size == 12,
            !e.overlay,
            e.guide_on,
            e.shape == 0,
    {
        let (_, w, h) = CANVAS_SHAPES[0];
        let canvas = match start {
            Some((bp, mask)) => Canvas::from_blueprint(bp, mask, w, h),
            None => {
                let c = Canvas::new(w, h, Paint::Sea);
                assert(c.cells@ =~= Seq::new(65536nat, |i: int| paint_index(Paint::Sea)));
                c
            },
        };
        let e = BlueprintEditor {
            canvas,
            paint: Paint::Land,
            tool: Tool::Brush,
            size: 12,
            overlay: false,
            guide_on: true,
            shape: 0,
            undo: Vec::new(),
        };
        assert(e.undo_stack() =~= Seq::<CanvasView>::empty());
        e
    }

    /// Saves the canvas on the undo stack, dropping the oldest drawing when the stack is full.
    pub fn push_undo(&mut self)
        requires
            old(self).wf(),
        ensures
            final(self).wf(),
            final(self).undo_stack().len() <= UNDO_DEPTH,
            final(self).canvas == old(self).canvas,
            final(self).undo_stack() == pushed_undo(old(self).undo_stack(), old(self).canvas@),
            final(self).paint == old(self).paint,
            final(self).tool == old(self).tool,
            final(self).size == old(self).size,
            final(self).overlay == old(self).overlay,
            final(self).guide_on == old(self).guide_on,
            final(self).shape == old(self).shape,
    {
        let ghost before = self.undo_stack();
        if self.undo.len() >= UNDO_DEPTH {
            self.undo.remove(0);
            assert(self.undo_stack() =~= before.drop_first());
        }
        let c = copy_canvas(&self.canvas);
        let ghost mid = self.undo_stack();
        self.undo.push(c);
        assert(self.undo_stack() =~= mid.push(c@));
    }

    /// Goes back to the last saved drawing; false, and nothing changed, when none is saved.
    pub fn undo(&mut self) -> (went_back: bool)
        requires
            old(self).wf(),
        ensures
            final(self).wf(),
            final(self).canvas.wf(),
            went_back == (old(self).undo_stack().len() > 0),
            went_back ==> final(self).canvas@ == old(self).undo_stack().last(),
            went_back ==> final(self).undo_stack() == old(self).undo_stack().drop_last(),
            !went_back ==> final(self).canvas == old(self).canvas,
            !went_back ==> final(self).undo_stack() == old(self).undo_stack(),
            final(self).paint == old(self).paint,
            final(self).tool == old(self).tool,
            final(self).size == old(self).size,
            final(self).overlay == old(self).overlay,
            final(self).guide_on == old(self).guide_on,
            final(self).shape == old(self).shape,
    {
        let ghost before = self.undo_stack();
        match self.undo.pop() {
            Some(c) => {
                proof {
                    assert(self.undo_stack() =~= before.drop_last());
                    assert(c@ == before[before.len() - 1]);
                }
                self.canvas = c;
                true
            },
            None => false,
        }
    }

    /// Whether a drawing is saved to go back to.
    pub fn can_undo(&self) -> (b: bool)
        ensures
            b == (self.undo_stack().len() > 0),
    {
        proof {
            assert(self.undo_stack().len() == self.undo@.len());
        }
        self.undo.len() > 0
    }

    /// How many drawings are saved to go back to.
    pub fn undo_len(&self) -> (n: usize)
        ensures
            n == self.undo_stack().len(),
    {
        self.undo.len()
    }

    /// Puts a new canvas in place, saving the old one to go back to.
    pub fn replace(&mut self, canvas: Canvas)
        requires
            old(self).wf(),
            canvas.wf(),
        ensures
            final(self).wf(),
            final(self).canvas == canvas,
            final(self).undo_stack() == pushed_undo(old(self).undo_stack(), old(self).canvas@),
            final(self).shape == old(self).shape,
    {
        self.push_undo();
        self.canvas = canvas;
    }

    /// Switches to another canvas shape of `CANVAS_SHAPES`, resampling the
    /// drawing (and saving it to go back to) when the size changes; a shape
    /// past the list changes nothing.
    pub fn set_shape(&mut self, shape: usize)
        requires
            old(self).wf(),
            old(self).canvas.w * 264 <= usize::MAX,
            old(self).canvas.h * 256 <= usize::MAX,
        ensures
            final(self).wf(),
            final(self).canvas.wf(),
            shape >= 4 ==> final(self).canvas == old(self).canvas && final(self).shape == old(self).shape
                && final(self).undo_stack() == old(self).undo_stack(),
            shape < 4 ==> final(self).shape == shape,
            shape < 4 ==> final(self).canvas.w == CANVAS_SHAPES[shape as int].1,
            shape < 4 ==> final(self).canvas.h == CANVAS_SHAPES[shape as int].2,
            shape < 4 && old(self).canvas.w == CANVAS_SHAPES[shape as int].1 && old(self).canvas.h
                == CANVAS_SHAPES[shape as int].2 ==> final(self).canvas == old(self).canvas
                && final(self).undo_stack() == old(self).undo_stack(),
            shape < 4 && !(old(self).canvas.w == CANVAS_SHAPES[shape as int].1 && old(self).canvas.h
                == CANVAS_SHAPES[shape as int].2) ==> final(self).canvas.cells@ == resampled_cells(
                old(self).canvas.cells@,
                old(self).canvas.w as int,
                old(self).canvas.h as int,
                CANVAS_SHAPES[shape as int].1 as int,
                CANVAS_SHAPES[shape as int].2 as int,
            ) && final(self).undo_stack() == pushed_undo(old(self).undo_stack(), old(self).canvas@),
    {
        if shape >= CANVAS_SHAPES.len() {
            return;
        }
        let (_, w, h) = CANVAS_SHAPES[shape];
        assert(w <= 264 && h <= 256);
        if self.canvas.w == w && self.canvas.h == h {
            self.shape = shape;
            return;
        }
        self.push_undo();
        self.canvas = self.canvas.resampled(w, h);
        self.shape = shape;
    }
}

/// Going back right after saving gives the saved drawing, and leaves the
/// stack as it was (less its oldest drawing, when it was full).
pub proof fn lemma_undo_after_push(stack: Seq<CanvasView>, c: CanvasView)
    ensures
        pushed_undo(stack, c).len() > 0,
        pushed_undo(stack, c).last() == c,
        pushed_undo(stack, c).drop_last() == if stack.len() >= UNDO_DEPTH {
            stack.drop_first()
        } else {
            stack
        },
{
    assert(pushed_undo(stack, c).drop_last() =~= if stack.len() >= UNDO_DEPTH {
        stack.drop_first()
    } else {
        stack
    });
}

/// The undo stack never holds more than `UNDO_DEPTH` drawings.
pub proof fn lemma_undo_is_bounded(stack: Seq<CanvasView>, c: CanvasView)
    requires
        stack.len() <= UNDO_DEPTH,
    ensures
        pushed_undo(stack, c).len() <= UNDO_DEPTH,
{
}

} // verus!
