//! Picture planes: samples in raster order with padding around the visible
//! rectangle, and rectangular windows onto them.

use vstd::prelude::*;

use crate::util::iclamp;

verus! {

/// A sample type.
pub trait Pixel: Copy {
    /// The sample's value.
    spec fn val(&self) -> int;

    /// The largest value the type holds.
    spec fn max_val() -> int;

    /// Every sample type holds eight bits, and none holds more than sixteen.
    proof fn max_val_bounds()
        ensures
            255 <= Self::max_val() <= 65535,
    ;

    /// The sample's value as an integer.
    fn to_i32(self) -> (r: i32)
        ensures
            r == self.val(),
            0 <= r <= Self::max_val() <= 65535,
    ;

    /// The sample that holds `v`.
    fn cast_from(v: i32) -> (r: Self)
        requires
            0 <= v <= Self::max_val(),
        ensures
            r.val() == v,
    ;
}

impl Pixel for u8 {
    open spec fn val(&self) -> int {
        *self as int
    }

    open spec fn max_val() -> int {
        255
    }

    proof fn max_val_bounds() {
    }

    fn to_i32(self) -> (r: i32) {
        self as i32
    }

    fn cast_from(v: i32) -> (r: Self) {
        v as u8
    }
}

impl Pixel for u16 {
    open spec fn val(&self) -> int {
        *self as int
    }

    open spec fn max_val() -> int {
        65535
    }

    proof fn max_val_bounds() {
    }

    fn to_i32(self) -> (r: i32) {
        self as i32
    }

    fn cast_from(v: i32) -> (r: Self) {
        v as u16
    }
}

/// The geometry of a plane. The sample at `(x, y)` of the picture lies at row
/// `yorigin + y`, column `xorigin + x` of the allocation.
#[derive(Clone, Copy, Debug, PartialEq, Eq, Structural)]
pub struct PlaneConfig {
    pub stride: usize,
    pub alloc_height: usize,
    pub width: usize,
    pub height: usize,
    pub xdec: usize,
    pub ydec: usize,
    pub xpad: usize,
    pub ypad: usize,
    pub xorigin: usize,
    pub yorigin: usize,
}

/// One plane of a picture.
pub struct Plane<T> {
    pub data: Vec<T>,
    pub cfg: PlaneConfig,
}

/// One picture: luma and two chroma planes.
pub struct Frame<T> {
    pub planes: Vec<Plane<T>>,
}

/// The largest extent that a plane's allocation may have in either direction.
pub const MAX_EXTENT: usize = 0x10_0000;

impl PlaneConfig {
    /// The geometry is consistent: the picture and its padding lie inside the
    /// allocation.
    pub open spec fn wf(self) -> bool {
        &&& 0 < self.width
        &&& 0 < self.height
        &&& self.stride <= MAX_EXTENT
        &&& self.alloc_height <= MAX_EXTENT
        &&& self.xpad <= self.xorigin
        &&& self.ypad <= self.yorigin
        &&& self.xorigin + self.width + self.xpad <= self.stride
        &&& self.yorigin + self.height + self.ypad <= self.alloc_height
        &&& self.xdec <= 1
        &&& self.ydec <= 1
    }

    /// `(x, y)`, in picture coordinates, lies inside the allocation.
    pub open spec fn has(self, x: int, y: int) -> bool {
        &&& 0 <= x + self.xorigin < self.stride
        &&& 0 <= y + self.yorigin < self.alloc_height
    }

    /// Where `(x, y)` lies in the plane's data.
    pub open spec fn index(self, x: int, y: int) -> int {
        (y + self.yorigin) * self.stride + (x + self.xorigin)
    }
}

/// Two cells of a raster are the same cell only if their coordinates agree, and
/// every cell lies inside the raster.
pub proof fn lemma_raster(x: int, y: int, w: int, h: int)
    requires
        0 <= x < w,
        0 <= y < h,
    ensures
        0 <= y * w + x < h * w,
        (y * w + x) / w == y,
        (y * w + x) % w == x,
{
    assert(0 <= y * w + x < h * w) by (nonlinear_arith)
        requires 0 <= x < w, 0 <= y < h,
    ;
    vstd::arithmetic::div_mod::lemma_fundamental_div_mod_converse(y * w + x, w, y, x);
}

/// Two places of an allocation share an index only if they are the same place.
pub proof fn lemma_index_injective(cfg: PlaneConfig, x: int, y: int, u: int, v: int)
    requires
        cfg.has(x, y),
        cfg.has(u, v),
        cfg.index(x, y) == cfg.index(u, v),
    ensures
        x == u,
        y == v,
{
    lemma_raster(x + cfg.xorigin, y + cfg.yorigin, cfg.stride as int, cfg.alloc_height as int);
    lemma_raster(u + cfg.xorigin, v + cfg.yorigin, cfg.stride as int, cfg.alloc_height as int);
}

/// The index of a place of the allocation lies inside the data.
pub proof fn lemma_index_in_data(cfg: PlaneConfig, x: int, y: int)
    requires
        cfg.has(x, y),
    ensures
        0 <= cfg.index(x, y) < cfg.alloc_height * cfg.stride,
{
    lemma_raster(x + cfg.xorigin, y + cfg.yorigin, cfg.stride as int, cfg.alloc_height as int);
}

impl<T: Pixel> Plane<T> {
    /// The geometry is consistent and the data fills it.
    pub open spec fn wf(&self) -> bool {
        &&& self.cfg.wf()
        &&& self.data.len() == self.cfg.alloc_height * self.cfg.stride
    }

    /// The sample at `(x, y)` in picture coordinates; padding has negative
    /// coordinates or ones past the visible extent.
    pub open spec fn sample(&self, x: int, y: int) -> int {
        self.data@[self.cfg.index(x, y)].val()
    }

    /// The sample at `(x, y)`, the picture's edge repeated outside it.
    pub open spec fn clamped(&self, x: int, y: int) -> int {
        self.sample(iclamp(x, 0, self.cfg.width - 1), iclamp(y, 0, self.cfg.height - 1))
    }

    /// Every sample of the allocation is at most `max`.
    pub open spec fn samples_at_most(&self, max: int) -> bool {
        forall|i: int| 0 <= i < self.data.len() ==> 0 <= (#[trigger] self.data@[i]).val() <= max
    }

    /// Every visible sample is at most `max`.
    pub open spec fn visible_at_most(&self, max: int) -> bool {
        forall|x: int, y: int| 0 <= x < self.cfg.width && 0 <= y < self.cfg.height ==> 0 <= #[trigger] self.sample(x, y) <= max
    }

    /// A plane of the given visible size with `xpad` columns and `ypad` rows of
    /// padding on each side, every sample zero.
    pub fn new(width: usize, height: usize, xdec: usize, ydec: usize, xpad: usize, ypad: usize) -> (r: Self)
        requires
            0 < width,
            0 < height,
            xdec <= 1,
            ydec <= 1,
            width + 2 * xpad <= MAX_EXTENT,
            height + 2 * ypad <= MAX_EXTENT,
            (height + 2 * ypad) * (width + 2 * xpad) <= usize::MAX,
        ensures
            r.wf(),
            r.cfg == (PlaneConfig {
                stride: (width + 2 * xpad) as usize,
                alloc_height: (height + 2 * ypad) as usize,
                width,
                height,
                xdec,
                ydec,
                xpad,
                ypad,
                xorigin: xpad,
                yorigin: ypad,
            }),
            forall|i: int| 0 <= i < r.data.len() ==> (#[trigger] r.data@[i]).val() == 0,
    {
        let stride: usize = width + 2 * xpad;
        let alloc_height: usize = height + 2 * ypad;
        let mut data: Vec<T> = Vec::new();
        let mut row: usize = 0;
        while row < alloc_height
            invariant
                row <= alloc_height,
                data.len() == row * stride,
                forall|i: int| 0 <= i < data.len() ==> (#[trigger] data@[i]).val() == 0,
            decreases alloc_height - row,
        {
            let mut col: usize = 0;
            while col < stride
                invariant
                    col <= stride,
                    data.len() == row * stride + col,
                    forall|i: int| 0 <= i < data.len() ==> (#[trigger] data@[i]).val() == 0,
                decreases stride - col,
            {
                proof {
                    T::max_val_bounds();
                }
                data.push(T::cast_from(0));
                col = col + 1;
            }
            assert(row * stride + stride == (row + 1) * stride) by (nonlinear_arith);
            row = row + 1;
        }
        let cfg: PlaneConfig = PlaneConfig { stride, alloc_height, width, height, xdec, ydec, xpad, ypad, xorigin: xpad, yorigin: ypad };
        Plane { data, cfg }
    }

    /// The sample at `(x, y)` of the picture or its padding.
    pub fn at(&self, x: isize, y: isize) -> (r: T)
        requires
            self.wf(),
            self.cfg.has(x as int, y as int),
        ensures
            r == self.data@[self.cfg.index(x as int, y as int)],
            r.val() == self.sample(x as int, y as int),
            0 <= self.cfg.index(x as int, y as int) < self.data.len(),
    {
        let col: usize = (x + self.cfg.xorigin as isize) as usize;
        let row: usize = (y + self.cfg.yorigin as isize) as usize;
        proof {
            lemma_raster(col as int, row as int, self.cfg.stride as int, self.cfg.alloc_height as int);
            assert(0 <= row * self.cfg.stride) by (nonlinear_arith);
        }
        self.data[row * self.cfg.stride + col]
    }

    /// The sample at `(x, y)`, the picture's edge repeated outside it.
    pub fn px(&self, x: isize, y: isize) -> (r: i32)
        requires
            self.wf(),
        ensures
            r == self.clamped(x as int, y as int),
            0 <= r <= T::max_val() <= 65535,
            forall|max: int| #[trigger] self.samples_at_most(max) ==> r <= max,
            forall|max: int| #[trigger] self.visible_at_most(max) ==> r <= max,
    {
        let w: isize = self.cfg.width as isize;
        let h: isize = self.cfg.height as isize;
        let xc: isize = if x < 0 { 0 } else if x > w - 1 { w - 1 } else { x };
        let yc: isize = if y < 0 { 0 } else if y > h - 1 { h - 1 } else { y };
        self.at(xc, yc).to_i32()
    }

    /// Writes the sample at `(x, y)` of the picture or its padding; no other
    /// sample changes.
    pub fn set(&mut self, x: isize, y: isize, v: T)
        requires
            old(self).wf(),
            old(self).cfg.has(x as int, y as int),
        ensures
            final(self).wf(),
            final(self).cfg == old(self).cfg,
            final(self).data@ == old(self).data@.update(old(self).cfg.index(x as int, y as int), v),
            0 <= old(self).cfg.index(x as int, y as int) < old(self).data.len(),
            final(self).sample(x as int, y as int) == v.val(),
            forall|u: int, w: int| old(self).cfg.has(u, w) && !(u == x && w == y) ==>
                #[trigger] final(self).sample(u, w) == old(self).sample(u, w),
    {
        let col: usize = (x + self.cfg.xorigin as isize) as usize;
        let row: usize = (y + self.cfg.yorigin as isize) as usize;
        proof {
            lemma_raster(col as int, row as int, self.cfg.stride as int, self.cfg.alloc_height as int);
            assert(0 <= row * self.cfg.stride) by (nonlinear_arith);
        }
        let i: usize = row * self.cfg.stride + col;
        let ghost before = self.data@;
        self.data.set(i, v);
        proof {
            assert forall|u: int, w: int| self.cfg.has(u, w) && !(u == x && w == y) implies
                #[trigger] self.sample(u, w) == before[self.cfg.index(u, w)].val() by {
                lemma_index_in_data(self.cfg, u, w);
                if self.cfg.index(u, w) == self.cfg.index(x as int, y as int) {
                    lemma_index_injective(self.cfg, u, w, x as int, y as int);
                }
            }
        }
    }
}

/// A rectangular window onto a plane, addressed from its own top left corner.
pub struct PlaneRegion<'a, T> {
    pub plane: &'a Plane<T>,
    pub x: isize,
    pub y: isize,
    pub width: usize,
    pub height: usize,
}

impl<'a, T: Pixel> PlaneRegion<'a, T> {
    /// Every cell of the window lies inside the plane's allocation.
    pub open spec fn wf(&self) -> bool {
        &&& self.plane.wf()
        &&& 0 < self.width
        &&& 0 < self.height
        &&& self.plane.cfg.has(self.x as int, self.y as int)
        &&& self.plane.cfg.has(self.x + self.width - 1, self.y + self.height - 1)
    }

    /// The sample at column `col`, row `row` of the window.
    pub open spec fn sample(&self, col: int, row: int) -> int {
        self.plane.sample(self.x + col, self.y + row)
    }

    /// The window of the given size whose top left corner is `(x, y)` of the
    /// picture.
    pub fn new(plane: &'a Plane<T>, x: isize, y: isize, width: usize, height: usize) -> (r: Self)
        requires
            plane.wf(),
            0 < width,
            0 < height,
            plane.cfg.has(x as int, y as int),
            plane.cfg.has(x + width - 1, y + height - 1),
        ensures
            r.wf(),
            r == (PlaneRegion { plane, x, y, width, height }),
    {
        PlaneRegion { plane, x, y, width, height }
    }

    /// The sample at column `col`, row `row` of the window.
    pub fn at(&self, col: usize, row: usize) -> (r: T)
        requires
            self.wf(),
            col < self.width,
            row < self.height,
        ensures
            r.val() == self.sample(col as int, row as int),
    {
        self.plane.at(self.x + col as isize, self.y + row as isize)
    }
}

/// Samples lie row by row: the next column is the next sample, the next row a stride away,
/// and the first sample is that of the padding's corner. Outside the picture the nearest
/// sample of its edge stands.
pub proof fn law_samples_lie_row_by_row<T: Pixel>(p: &Plane<T>, x: int, y: int)
    ensures
        p.cfg.index(x + 1, y) == p.cfg.index(x, y) + 1,
        p.cfg.index(x, y + 1) == p.cfg.index(x, y) + p.cfg.stride,
        p.cfg.index(-(p.cfg.xorigin as int), -(p.cfg.yorigin as int)) == 0,
        0 <= x < p.cfg.width && 0 <= y < p.cfg.height ==> p.clamped(x, y) == p.sample(x, y),
        p.cfg.width > 0 && x < 0 ==> p.clamped(x, y) == p.clamped(0, y),
        p.cfg.width > 0 && x >= p.cfg.width ==> p.clamped(x, y) == p.clamped(p.cfg.width - 1, y),
        p.cfg.height > 0 && y < 0 ==> p.clamped(x, y) == p.clamped(x, 0),
        p.cfg.height > 0 && y >= p.cfg.height ==> p.clamped(x, y) == p.clamped(x, p.cfg.height - 1),
{
    let (r, s) = (y + p.cfg.yorigin, p.cfg.stride as int);
    assert((r + 1) * s == r * s + s) by (nonlinear_arith);
    assert(0 * s == 0) by (nonlinear_arith);
}

} // verus!
