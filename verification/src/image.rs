use vstd::prelude::*;

verus! {

/// A raster of packed `0x00RRGGBB` pixels stored row by row.
#[derive(Clone, Debug)]
pub struct Image {
    pub width: usize,
    pub height: usize,
    pub data: Vec<u32>,
}

/// Position `(x, y)` lies inside a `w` by `h` raster.
pub open spec fn in_bounds(x: int, y: int, w: int, h: int) -> bool {
    0 <= x < w && 0 <= y < h
}

/// Row-major storage offsets stay inside the buffer.
pub proof fn lemma_offset_in_bounds(x: int, y: int, w: int, h: int)
    by (nonlinear_arith)
    requires
        in_bounds(x, y, w, h),
    ensures
        0 <= y * w,
        0 <= x + y * w < w * h,
{
}

/// Distinct positions of a row-major raster have distinct storage offsets.
pub proof fn lemma_offset_injective(a: int, b: int, x: int, y: int, w: int)
    by (nonlinear_arith)
    requires
        0 <= a < w,
        0 <= x < w,
        0 <= b,
        0 <= y,
        a + b * w == x + y * w,
    ensures
        a == x,
        b == y,
{
}

impl Image {
    /// The buffer holds exactly one pixel per position.
    pub open spec fn wf(&self) -> bool {
        self.data@.len() == self.width * self.height
    }

    /// The buffer holds a pixel for every position (and maybe more).
    pub open spec fn covers(&self) -> bool {
        self.width * self.height <= self.data@.len()
    }

    /// The pixel at column `x` and row `y`.
    pub open spec fn pixel(&self, x: int, y: int) -> u32 {
        self.data@[x + y * self.width]
    }

    /// A `width` by `height` image with every pixel set to `fill`.
    pub fn new(width: usize, height: usize, fill: u32) -> (r: Image)
        requires
            width * height <= usize::MAX,
        ensures
            r.wf(),
            r.width == width,
            r.height == height,
            forall|x: int, y: int| in_bounds(x, y, width as int, height as int)
                ==> #[trigger] r.pixel(x, y) == fill,
    {
        let n = width * height;
        let mut data: Vec<u32> = Vec::with_capacity(n);
        let mut i: usize = 0;
        while i < n
            invariant
                i <= n,
                data@.len() == i,
                forall|j: int| 0 <= j < i ==> data@[j] == fill,
            decreases n - i,
        {
            data.push(fill);
            i = i + 1;
        }
        let r = Image { width, height, data };
        assert forall|x: int, y: int| in_bounds(x, y, width as int, height as int)
            implies #[trigger] r.pixel(x, y) == fill by {
            lemma_offset_in_bounds(x, y, width as int, height as int);
        }
        r
    }

    /// The pixel at `(x, y)`.
    pub fn index(&self, pos: (usize, usize)) -> (r: u32)
        requires
            pos.0 < self.width,
            pos.1 < self.height,
            pos.0 + pos.1 * self.width < self.data@.len(),
        ensures
            r == self.pixel(pos.0 as int, pos.1 as int),
    {
        let (x, y) = pos;
        let _len = self.data.len();
        self.data[x + y * self.width]
    }

    /// Overwrites the pixel at `(x, y)` and leaves every other pixel unchanged.
    pub fn set(&mut self, pos: (usize, usize), value: u32)
        requires
            pos.0 < old(self).width,
            pos.1 < old(self).height,
            pos.0 + pos.1 * old(self).width < old(self).data@.len(),
        ensures
            final(self).width == old(self).width,
            final(self).height == old(self).height,
            final(self).data@ == old(self).data@.update(pos.0 + pos.1 * old(self).width, value),
            final(self).data@.len() == old(self).data@.len(),
            old(self).covers() ==> forall|x: int, y: int|
                in_bounds(x, y, old(self).width as int, old(self).height as int)
                    ==> #[trigger] final(self).pixel(x, y) == if x == pos.0 && y == pos.1 {
                    value
                } else {
                    old(self).pixel(x, y)
                },
    {
        let (px, py) = pos;
        let ghost before = *self;
        let _len = self.data.len();
        let i = px + py * self.width;
        self.data.set(i, value);
        proof {
            if before.covers() {
                assert forall|x: int, y: int|
                    in_bounds(x, y, before.width as int, before.height as int) implies #[trigger] self.pixel(
                    x,
                    y,
                ) == if x == px && y == py {
                    value
                } else {
                    before.pixel(x, y)
                } by {
                    lemma_offset_in_bounds(x, y, before.width as int, before.height as int);
                    if x + y * before.width == i {
                        lemma_offset_injective(x, y, px as int, py as int, before.width as int);
                    }
                }
            }
        }
    }

    /// Copies every pixel of `src` into `out` with its top-left corner at
    /// `(dx, dy)`; pixels of `out` outside that rectangle are unchanged.
    fn copy_into(src: &Image, out: &mut Image, dx: usize, dy: usize)
        requires
            src.covers(),
            old(out).wf(),
            dx + src.width <= old(out).width,
            dy + src.height <= old(out).height,
        ensures
            final(out).wf(),
            final(out).width == old(out).width,
            final(out).height == old(out).height,
            forall|x: int, y: int| in_bounds(x, y, old(out).width as int, old(out).height as int)
                ==> #[trigger] final(out).pixel(x, y) == if in_bounds(
                    x - dx,
                    y - dy,
                    src.width as int,
                    src.height as int,
                ) {
                    src.pixel(x - dx, y - dy)
                } else {
                    old(out).pixel(x, y)
                },
    {
        let ghost orig = *out;
        let ghost w = out.width as int;
        let ghost h = out.height as int;
        let mut y: usize = 0;
        while y < src.height
            invariant
                src.covers(),
                out.wf(),
                out.width == w,
                out.height == h,
                orig.width == w,
                orig.height == h,
                orig.wf(),
                dx + src.width <= w,
                dy + src.height <= h,
                y <= src.height,
                forall|a: int, b: int| in_bounds(a, b, w, h)
                    ==> #[trigger] out.pixel(a, b) == if in_bounds(
                        a - dx,
                        b - dy,
                        src.width as int,
                        y as int,
                    ) {
                        src.pixel(a - dx, b - dy)
                    } else {
                        orig.pixel(a, b)
                    },
            decreases src.height - y,
        {
            let mut x: usize = 0;
            while x < src.width
                invariant
                    src.covers(),
                    out.wf(),
                    out.width == w,
                    out.height == h,
                    orig.width == w,
                    orig.height == h,
                    orig.wf(),
                    dx + src.width <= w,
                    dy + src.height <= h,
                    y < src.height,
                    x <= src.width,
                    forall|a: int, b: int| in_bounds(a, b, w, h)
                        ==> #[trigger] out.pixel(a, b) == if in_bounds(
                            a - dx,
                            b - dy,
                            src.width as int,
                            y as int,
                        ) || (b - dy == y && 0 <= a - dx < x) {
                            src.pixel(a - dx, b - dy)
                        } else {
                            orig.pixel(a, b)
                        },
                decreases src.width - x,
            {
                proof {
                    lemma_offset_in_bounds(x as int, y as int, src.width as int, src.height as int);
                    lemma_offset_in_bounds(
                        (x + dx) as int,
                        (y + dy) as int,
                        out.width as int,
                        out.height as int,
                    );
                }
                let v = src.index((x, y));
                out.set((x + dx, y + dy), v);
                x = x + 1;
            }
            y = y + 1;
        }
    }

    /// This image enlarged to `new_width` by `new_height`; the new area is
    /// filled with `fill`.
    pub fn pad(&self, new_width: usize, new_height: usize, fill: u32) -> (r: Image)
        requires
            (new_width == self.width && new_height == self.height) || self.covers(),
            new_width >= self.width,
            new_height >= self.height,
            new_width * new_height <= usize::MAX,
        ensures
            new_width == self.width && new_height == self.height ==> r.data@ == self.data@,
            !(new_width == self.width && new_height == self.height) ==> r.wf(),
            r.width == new_width,
            r.height == new_height,
            forall|x: int, y: int| in_bounds(x, y, new_width as int, new_height as int)
                ==> #[trigger] r.pixel(x, y) == if in_bounds(
                    x,
                    y,
                    self.width as int,
                    self.height as int,
                ) {
                    self.pixel(x, y)
                } else {
                    fill
                },
    {
        if new_width == self.width && new_height == self.height {
            let data = self.data.clone();
            assert(data@ =~= self.data@);
            return Image { width: self.width, height: self.height, data };
        }
        let mut out = Image::new(new_width, new_height, fill);
        Image::copy_into(self, &mut out, 0, 0);
        out
    }

    /// `self` and `other` side by side, `self` on the left; both are aligned
    /// to the top and the uncovered area is filled with `fill`.
    pub fn stack_hor(&self, other: &Image, fill: u32) -> (r: Image)
        requires
            self.covers(),
            other.covers(),
            self.width + other.width <= usize::MAX,
            (self.width + other.width) * (if self.height >= other.height {
                self.height
            } else {
                other.height
            }) <= usize::MAX,
        ensures
            r.wf(),
            r.width == self.width + other.width,
            r.height == if self.height >= other.height {
                self.height
            } else {
                other.height
            },
            forall|x: int, y: int| in_bounds(x, y, r.width as int, r.height as int)
                ==> #[trigger] r.pixel(x, y) == if in_bounds(
                    x,
                    y,
                    self.width as int,
                    self.height as int,
                ) {
                    self.pixel(x, y)
                } else if in_bounds(x - self.width, y, other.width as int, other.height as int) {
                    other.pixel(x - self.width, y)
                } else {
                    fill
                },
    {
        let new_width = self.width + other.width;
        let new_height = if self.height >= other.height {
            self.height
        } else {
            other.height
        };
        let mut out = Image::new(new_width, new_height, fill);
        Image::copy_into(self, &mut out, 0, 0);
        Image::copy_into(other, &mut out, self.width, 0);
        out
    }

    /// `self` above `other`; both are aligned to the left and the uncovered
    /// area is filled with `fill`.
    pub fn stack_vert(&self, other: &Image, fill: u32) -> (r: Image)
        requires
            self.covers(),
            other.covers(),
            self.height + other.height <= usize::MAX,
            (if self.width >= other.width {
                self.width
            } else {
                other.width
            }) * (self.height + other.height) <= usize::MAX,
        ensures
            r.wf(),
            r.width == if self.width >= other.width {
                self.width
            } else {
                other.width
            },
            r.height == self.height + other.height,
            forall|x: int, y: int| in_bounds(x, y, r.width as int, r.height as int)
                ==> #[trigger] r.pixel(x, y) == if in_bounds(
                    x,
                    y,
                    self.width as int,
                    self.height as int,
                ) {
                    self.pixel(x, y)
                } else if in_bounds(x, y - self.height, other.width as int, other.height as int) {
                    other.pixel(x, y - self.height)
                } else {
                    fill
                },
    {
        let new_width = if self.width >= other.width {
            self.width
        } else {
            other.width
        };
        let new_height = self.height + other.height;
        let mut out = Image::new(new_width, new_height, fill);
        Image::copy_into(self, &mut out, 0, 0);
        Image::copy_into(other, &mut out, 0, self.height);
        out
    }

    /// This image scaled up by two: every pixel becomes a 2x2 block.
    pub fn pixelize(&self) -> (r: Image)
        requires
            self.covers(),
            self.width * 2 <= usize::MAX,
            self.height * 2 <= usize::MAX,
            self.width * 2 * (self.height * 2) <= usize::MAX,
        ensures
            r.wf(),
            r.width == self.width * 2,
            r.height == self.height * 2,
            forall|x: int, y: int| in_bounds(x, y, r.width as int, r.height as int)
                ==> #[trigger] r.pixel(x, y) == self.pixel(x / 2, y / 2),
    {
        let w2 = self.width * 2;
        let h2 = self.height * 2;
        let mut out = Image::new(w2, h2, 0);
        let mut y: usize = 0;
        while y < self.height
            invariant
                self.covers(),
                out.wf(),
                out.width == w2,
                out.height == h2,
                w2 == self.width * 2,
                h2 == self.height * 2,
                y <= self.height,
                forall|a: int, b: int| in_bounds(a, b, w2 as int, h2 as int)
                    ==> #[trigger] out.pixel(a, b) == if b / 2 < y {
                        self.pixel(a / 2, b / 2)
                    } else {
                        0
                    },
            decreases self.height - y,
        {
            let mut x: usize = 0;
            while x < self.width
                invariant
                    self.covers(),
                    out.wf(),
                    out.width == w2,
                    out.height == h2,
                    w2 == self.width * 2,
                    h2 == self.height * 2,
                    y < self.height,
                    x <= self.width,
                    forall|a: int, b: int| in_bounds(a, b, w2 as int, h2 as int)
                        ==> #[trigger] out.pixel(a, b) == if b / 2 < y || (b / 2 == y && a / 2
                            < x) {
                            self.pixel(a / 2, b / 2)
                        } else {
                            0
                        },
                decreases self.width - x,
            {
                proof {
                    lemma_offset_in_bounds(x as int, y as int, self.width as int, self.height as int);
                    lemma_offset_in_bounds((x * 2) as int, (y * 2) as int, w2 as int, h2 as int);
                    lemma_offset_in_bounds((x * 2 + 1) as int, (y * 2) as int, w2 as int, h2 as int);
                    lemma_offset_in_bounds((x * 2) as int, (y * 2 + 1) as int, w2 as int, h2 as int);
                    lemma_offset_in_bounds(
                        (x * 2 + 1) as int,
                        (y * 2 + 1) as int,
                        w2 as int,
                        h2 as int,
                    );
                }
                let v = self.index((x, y));
                out.set((x * 2, y * 2), v);
                out.set((x * 2 + 1, y * 2), v);
                out.set((x * 2, y * 2 + 1), v);
                out.set((x * 2 + 1, y * 2 + 1), v);
                x = x + 1;
            }
            y = y + 1;
        }
        out
    }
}

} // verus!
