//! A dense, bounds-checked, row-major 2D array.

use vstd::prelude::*;

verus! {

/// A `width` x `height` rectangle of cells, stored row-major.
#[derive(Debug, Clone)]
pub struct Grid<T> {
    buf: Vec<T>,
    width: usize,
    height: usize,
}

impl<T> Grid<T> {
    /// The buffer holds exactly one cell per coordinate.
    pub closed spec fn wf(self) -> bool {
        self.buf@.len() == self.width * self.height && self.width * self.height <= usize::MAX
    }

    pub closed spec fn spec_width(self) -> int {
        self.width as int
    }

    pub closed spec fn spec_height(self) -> int {
        self.height as int
    }

    /// The cell at column `x`, row `y`.
    pub closed spec fn spec_at(self, x: int, y: int) -> T {
        self.buf@[y * self.width + x]
    }

    /// `c` is a coordinate inside this grid.
    pub open spec fn in_bounds(self, c: (usize, usize)) -> bool {
        c.0 < self.spec_width() && c.1 < self.spec_height()
    }

    /// A fresh grid with every cell equal to `fill`.
    pub fn new(width: usize, height: usize, fill: T) -> (r: Grid<T>)
        where T: Copy
        requires
            width * height <= usize::MAX,
        ensures
            r.wf(),
            r.spec_width() == width,
            r.spec_height() == height,
            forall|x: int, y: int|
                0 <= x < width && 0 <= y < height ==> #[trigger] r.spec_at(x, y) == fill,
    {
        let mut buf: Vec<T> = Vec::new();
        let n: usize = width * height;
        let mut k: usize = 0;
        while k < n
            invariant
                k <= n,
                buf@.len() == k,
                forall|i: int| 0 <= i < k ==> #[trigger] buf@[i] == fill,
            decreases n - k,
        {
            buf.push(fill);
            k = k + 1;
        }
        let r = Grid { buf, width, height };
        proof {
            assert forall|x: int, y: int|
                0 <= x < width && 0 <= y < height implies #[trigger] r.spec_at(x, y) == fill by {
                crate::util::lemma_row_major_bound(width as int, height as int, x, y);
            }
        }
        r
    }

    /// A fresh grid whose cell at `(x, y)` is `f(x, y)`.
    pub fn from_fn<F: Fn(usize, usize) -> T>(width: usize, height: usize, f: F) -> (r: Grid<T>)
        requires
            width * height <= usize::MAX,
            forall|x: usize, y: usize| x < width && y < height ==> #[trigger] f.requires((x, y)),
        ensures
            r.wf(),
            r.spec_width() == width,
            r.spec_height() == height,
            forall|x: int, y: int|
                0 <= x < width && 0 <= y < height ==> f.ensures(
                    ((x as usize), (y as usize)),
                    #[trigger] r.spec_at(x, y),
                ),
    {
        let mut buf: Vec<T> = Vec::new();
        let mut y: usize = 0;
        while y < height
            invariant
                y <= height,
                width * height <= usize::MAX,
                buf@.len() == y * width,
                forall|x: usize, yy: usize| x < width && yy < height ==> #[trigger] f.requires(
                    (x, yy),
                ),
                forall|i: int, j: int|
                    0 <= i < width && 0 <= j < y ==> f.ensures(
                        ((i as usize), (j as usize)),
                        #[trigger] buf@[j * width + i],
                    ),
            decreases height - y,
        {
            let mut x: usize = 0;
            while x < width
                invariant
                    x <= width,
                    y < height,
                    width * height <= usize::MAX,
                    buf@.len() == y * width + x,
                    forall|xx: usize, yy: usize| xx < width && yy < height ==> #[trigger] f.requires(
                        (xx, yy),
                    ),
                    forall|i: int, j: int|
                        0 <= i < width && 0 <= j < y ==> f.ensures(
                            ((i as usize), (j as usize)),
                            #[trigger] buf@[j * width + i],
                        ),
                    forall|i: int|
                        0 <= i < x ==> f.ensures(
                            ((i as usize), (y as usize)),
                            #[trigger] buf@[y * width + i],
                        ),
                decreases width - x,
            {
                proof {
                    crate::util::lemma_row_major_bound(width as int, height as int, x as int, y as int);
                }
                let v = f(x, y);
                buf.push(v);
                proof {
                    assert forall|i: int, j: int| 0 <= i < width && 0 <= j < y implies f.ensures(
                        ((i as usize), (j as usize)),
                        #[trigger] buf@[j * (width as int) + i],
                    ) by {
                        crate::util::lemma_row_major_bound(width as int, y as int, i, j);
                    }
                }
                x = x + 1;
            }
            proof {
                assert((y + 1) * (width as int) == y * (width as int) + width) by (nonlinear_arith);
                assert forall|i: int, j: int| 0 <= i < width && 0 <= j < y + 1 implies f.ensures(
                    ((i as usize), (j as usize)),
                    #[trigger] buf@[j * (width as int) + i],
                ) by {
                    if j == y {
                        assert(j * (width as int) + i == y * (width as int) + i);
                        assert(f.ensures(
                            ((i as usize), (y as usize)),
                            buf@[y * (width as int) + i],
                        ));
                    }
                }
            }
            y = y + 1;
        }
        proof {
            crate::util::lemma_mul_commute(height as int, width as int);
        }
        Grid { buf, width, height }
    }

    /// The cell at `(x, y)`, or `None` when the coordinate is off-grid.
    pub fn get(&self, x: usize, y: usize) -> (r: Option<&T>)
        requires
            self.wf(),
        ensures
            match r {
                Some(v) => x < self.spec_width() && y < self.spec_height() && *v == self.spec_at(
                    x as int,
                    y as int,
                ),
                None => x >= self.spec_width() || y >= self.spec_height(),
            },
    {
        if x < self.width && y < self.height {
            proof {
                crate::util::lemma_row_major_bound(
                    self.width as int,
                    self.height as int,
                    x as int,
                    y as int,
                );
            }
            Some(&self.buf[y * self.width + x])
        } else {
            None
        }
    }

    /// The cell at an in-bounds coordinate.
    pub fn at(&self, x: usize, y: usize) -> (r: T)
        where T: Copy
        requires
            self.wf(),
            x < self.spec_width(),
            y < self.spec_height(),
        ensures
            r == self.spec_at(x as int, y as int),
    {
        proof {
            crate::util::lemma_row_major_bound(
                self.width as int,
                self.height as int,
                x as int,
                y as int,
            );
        }
        self.buf[y * self.width + x]
    }

    /// Replaces the cell at `(x, y)`; reports whether the coordinate was
    /// on the grid (an off-grid coordinate leaves the grid unchanged).
    pub fn put(&mut self, x: usize, y: usize, value: T) -> (ok: bool)
        requires
            old(self).wf(),
        ensures
            final(self).wf(),
            final(self).spec_width() == old(self).spec_width(),
            final(self).spec_height() == old(self).spec_height(),
            ok == (x < old(self).spec_width() && y < old(self).spec_height()),
            ok ==> final(self).spec_at(x as int, y as int) == value,
            forall|i: int, j: int|
                0 <= i < old(self).spec_width() && 0 <= j < old(self).spec_height() && !(i == x && j
                    == y) ==> #[trigger] final(self).spec_at(i, j) == old(self).spec_at(i, j),
    {
        if x < self.width && y < self.height {
            proof {
                crate::util::lemma_row_major_bound(
                    self.width as int,
                    self.height as int,
                    x as int,
                    y as int,
                );
            }
            self.buf.set(y * self.width + x, value);
            proof {
                assert forall|i: int, j: int|
                    0 <= i < self.spec_width() && 0 <= j < self.spec_height() && !(i == x && j == y)
                    implies #[trigger] self.spec_at(i, j) == old(self).spec_at(i, j) by {
                    crate::util::lemma_row_major_bound(
                        self.width as int,
                        self.height as int,
                        i,
                        j,
                    );
                    lemma_row_major_injective(self.width as int, i, j, x as int, y as int);
                }
            }
            true
        } else {
            false
        }
    }

    /// The grid's extent as `(width, height)`.
    pub fn size(&self) -> (r: (usize, usize))
        ensures
            r.0 == self.spec_width(),
            r.1 == self.spec_height(),
    {
        (self.width, self.height)
    }
}

/// A well-formed grid's area fits in a `usize`.
pub proof fn lemma_area_bound<T>(g: Grid<T>)
    requires
        g.wf(),
    ensures
        g.spec_width() * g.spec_height() <= usize::MAX,
{
}

/// Distinct in-bounds coordinates have distinct row-major indices.
pub proof fn lemma_row_major_injective(w: int, x1: int, y1: int, x2: int, y2: int)
    by (nonlinear_arith)
    requires
        0 <= x1 < w,
        0 <= x2 < w,
        0 <= y1,
        0 <= y2,
        !(x1 == x2 && y1 == y2),
    ensures
        y1 * w + x1 != y2 * w + x2,
{
}

} // verus!
