//! Board primitives: colors, points, the flattened grid and its (optionally
//! wraparound) neighbor relation.

use vstd::prelude::*;

verus! {

/// A color tag: 0 is the empty/neutral color, 1..=N name the teams in play.
#[derive(Clone, Copy, PartialEq, Eq, Structural, Debug, Hash)]
pub struct Color(pub u8);

impl Color {
    /// True of the empty/neutral color.
    pub open spec fn spec_is_empty(self) -> bool {
        self.0 == 0
    }

    #[verifier::when_used_as_spec(spec_is_empty)]
    pub fn is_empty(self) -> (r: bool)
        ensures
            r == self.spec_is_empty(),
    {
        self.0 == 0
    }
}

/// A board coordinate, (x, y): column then row.
pub type Point = (usize, usize);

/// Mathematical model of a board: dimensions, wrap mode, and the colors of
/// its cells in row-major order.
#[verifier::ext_equal]
pub ghost struct GridView {
    pub width: nat,
    pub height: nat,
    pub toroidal: bool,
    pub colors: Seq<Color>,
}

impl GridView {
    pub open spec fn len(self) -> nat {
        self.width * self.height
    }

    pub open spec fn wf(self) -> bool {
        &&& self.colors.len() == self.len()
        &&& self.width <= usize::MAX
        &&& self.height <= usize::MAX
    }

    pub open spec fn valid_idx(self, i: int) -> bool {
        0 <= i < self.len()
    }

    pub open spec fn at(self, i: int) -> Color {
        self.colors[i]
    }

    /// Column of the cell at flattened index i.
    pub open spec fn col(self, i: int) -> int {
        i % (self.width as int)
    }

    /// Row of the cell at flattened index i.
    pub open spec fn row(self, i: int) -> int {
        i / (self.width as int)
    }

    pub open spec fn valid_point(self, p: Point) -> bool {
        (p.0 as int) < self.width && (p.1 as int) < self.height
    }

    pub open spec fn idx_of(self, p: Point) -> int {
        (p.1 as int) * (self.width as int) + (p.0 as int)
    }

    pub open spec fn at_point(self, p: Point) -> Color {
        self.at(self.idx_of(p))
    }

    /// The point addressing flattened index i.
    pub open spec fn point_of(self, i: int) -> Point {
        ((i % (self.width as int)) as usize, (i / (self.width as int)) as usize)
    }

    /// The cells at indices i and j are grid neighbors (sharing an edge,
    /// cyclically when the board is toroidal).
    pub open spec fn is_neighbor(self, i: int, j: int) -> bool {
        &&& self.valid_idx(i)
        &&& self.valid_idx(j)
        &&& {
            ||| (self.row(i) == self.row(j) && adj1(
                self.width as int,
                self.toroidal,
                self.col(i),
                self.col(j),
            ))
            ||| (self.col(i) == self.col(j) && adj1(
                self.height as int,
                self.toroidal,
                self.row(i),
                self.row(j),
            ))
        }
    }
}

/// One-dimensional adjacency of coordinates a and b on a line of length w,
/// cyclic when tor is set.  Both coordinates are assumed to lie in [0, w).
pub open spec fn adj1(w: int, tor: bool, a: int, b: int) -> bool {
    ||| b == a + 1
    ||| a == b + 1
    ||| (tor && a + 1 == w && b == 0)
    ||| (tor && b + 1 == w && a == 0)
}

/// Facts about the coordinates of a valid flattened index.
pub proof fn lemma_coords(g: GridView, i: int)
    requires
        g.wf(),
        g.valid_idx(i),
    ensures
        g.width > 0,
        g.height > 0,
        0 <= g.col(i) < g.width,
        0 <= g.row(i) < g.height,
        i == g.row(i) * (g.width as int) + g.col(i),
        g.point_of(i).0 == g.col(i),
        g.point_of(i).1 == g.row(i),
        g.valid_point(g.point_of(i)),
        g.idx_of(g.point_of(i)) == i,
{
    let w = g.width as int;
    let h = g.height as int;
    assert(0 < w && 0 < h) by (nonlinear_arith)
        requires
            0 <= w,
            0 <= h,
            0 <= i,
            i < w * h,
    ;
    vstd::arithmetic::div_mod::lemma_mod_bound(i, w);
    vstd::arithmetic::div_mod::lemma_fundamental_div_mod(i, w);
    let q = i / w;
    let r = i % w;
    assert(i == q * w + r);
    assert(0 <= q && q < h) by (nonlinear_arith)
        requires
            0 < w,
            0 <= r < w,
            i == q * w + r,
            0 <= i < w * h,
    ;
}

/// The flattened index of the point at column x, row y.
pub proof fn lemma_idx(g: GridView, x: int, y: int)
    requires
        g.wf(),
        0 <= x < g.width,
        0 <= y < g.height,
    ensures
        g.valid_idx(y * (g.width as int) + x),
        g.col(y * (g.width as int) + x) == x,
        g.row(y * (g.width as int) + x) == y,
{
    let w = g.width as int;
    let h = g.height as int;
    assert(0 <= y * w + x && y * w + x < w * h) by (nonlinear_arith)
        requires
            0 <= x < w,
            0 <= y < h,
    ;
    vstd::arithmetic::div_mod::lemma_fundamental_div_mod_converse(y * w + x, w, y, x);
}

/// A board: a flattened grid of per-point colors, with a flag controlling
/// whether neighbor lookup wraps around the edges.
#[derive(Clone, Debug, PartialEq)]
pub struct Board {
    pub width: usize,
    pub height: usize,
    pub toroidal: bool,
    pub points: Vec<Color>,
}

impl View for Board {
    type V = GridView;

    open spec fn view(&self) -> GridView {
        GridView {
            width: self.width as nat,
            height: self.height as nat,
            toroidal: self.toroidal,
            colors: self.points@,
        }
    }
}

/// Pushes v and reports the new contents in terms of the old.
pub(crate) fn push_elem<T>(r: &mut Vec<T>, v: T)
    ensures
        final(r)@.len() == old(r)@.len() + 1,
        final(r)@ == old(r)@.push(v),
        forall|u: T| final(r)@.contains(u) <==> (old(r)@.contains(u) || u == v),
{
    r.push(v);
    proof {
        let pre = old(r)@;
        let post = r@;
        assert(post[pre.len() as int] == v);
        assert forall|u: T| post.contains(u) implies (pre.contains(u) || u == v) by {
            let k = choose|k: int| 0 <= k < post.len() && post[k] == u;
            if k < pre.len() {
                assert(pre[k] == u);
            }
        };
        assert forall|u: T| (pre.contains(u) || u == v) implies post.contains(u) by {
            if pre.contains(u) {
                let k = choose|k: int| 0 <= k < pre.len() && pre[k] == u;
                assert(post[k] == u);
            } else {
                assert(post[pre.len() as int] == u);
            }
        };
    }
}

impl Board {
    pub open spec fn wf(self) -> bool {
        self@.wf()
    }

    /// A fresh board of the given dimensions with every point empty.
    pub fn empty(width: usize, height: usize, toroidal: bool) -> (r: Board)
        requires
            (width as int) * (height as int) <= usize::MAX,
        ensures
            r.wf(),
            r@.width == width,
            r@.height == height,
            r@.toroidal == toroidal,
            forall|i: int| 0 <= i < r@.len() ==> r@.at(i) == Color(0),
    {
        assert(0 <= (width as int) * (height as int)) by (nonlinear_arith);
        let n = width * height;
        let mut points: Vec<Color> = Vec::new();
        let mut k: usize = 0;
        while k < n
            invariant
                k <= n,
                points@.len() == k,
                forall|i: int| 0 <= i < k ==> points@[i] == Color(0),
            decreases n - k,
        {
            points.push(Color(0));
            k = k + 1;
        }
        Board { width, height, toroidal, points }
    }

    /// The color of the point at flattened index i.
    pub fn get(&self, i: usize) -> (c: Color)
        requires
            self.wf(),
            (i as int) < self@.len(),
        ensures
            c == self@.at(i as int),
    {
        self.points[i]
    }

    /// The color at a coordinate point.
    pub fn get_point(&self, p: Point) -> (c: Color)
        requires
            self.wf(),
            self@.valid_point(p),
        ensures
            c == self@.at_point(p),
    {
        proof {
            lemma_idx(self@, p.0 as int, p.1 as int);
        }
        let n = self.points.len();
        self.points[p.1 * self.width + p.0]
    }

    /// Overwrites the color at a coordinate point.
    pub fn set_point(&mut self, p: Point, c: Color)
        requires
            old(self).wf(),
            old(self)@.valid_point(p),
        ensures
            final(self).wf(),
            final(self)@.width == old(self)@.width,
            final(self)@.height == old(self)@.height,
            final(self)@.toroidal == old(self)@.toroidal,
            final(self)@.colors == old(self)@.colors.update(old(self)@.idx_of(p), c),
    {
        proof {
            lemma_idx(self@, p.0 as int, p.1 as int);
        }
        let n = self.points.len();
        let i = p.1 * self.width + p.0;
        self.points[i] = c;
    }

    /// The flattened indices of the (up to four) neighbors of the cell at
    /// index i, honoring the wraparound setting.
    #[verifier::rlimit(60)]
    pub fn neighbors(&self, i: usize) -> (r: Vec<usize>)
        requires
            self.wf(),
            (i as int) < self@.len(),
        ensures
            forall|u: usize| #[trigger] r@.contains(u) ==> self@.is_neighbor(i as int, u as int),
            forall|j: int| #[trigger] self@.is_neighbor(i as int, j) ==> r@.contains(j as usize),
    {
        let ghost g = self@;
        proof {
            lemma_coords(g, i as int);
        }
        let n = self.points.len();
        let w = self.width;
        let h = self.height;
        let x = i % w;
        let y = i / w;
        let ghost xi = x as int;
        let ghost yi = y as int;
        let ghost wi = w as int;
        let ghost hi = h as int;
        proof {
            assert((yi + 1) * wi == yi * wi + wi) by (nonlinear_arith);
            assert((yi - 1) * wi == yi * wi - wi) by (nonlinear_arith);
            assert((hi - 1) * wi == hi * wi - wi) by (nonlinear_arith);
            assert(wi * hi == hi * wi) by (nonlinear_arith);
            assert(wi * hi >= wi) by (nonlinear_arith)
                requires
                    hi >= 1,
                    wi >= 0,
            ;
            assert(n as int == wi * hi);
            assert(i - wi >= 0 || yi == 0) by (nonlinear_arith)
                requires
                    i == yi * wi + xi,
                    0 <= xi,
                    0 <= yi,
                    0 < wi,
            ;
        }
        let mut r: Vec<usize> = Vec::new();
        // east
        if x + 1 < w {
            proof {
                lemma_idx(g, xi + 1, yi);
            }
            push_elem(&mut r, i + 1);
        } else if self.toroidal {
            proof {
                lemma_idx(g, 0, yi);
            }
            push_elem(&mut r, i + 1 - w);
        }
        // west
        if x > 0 {
            proof {
                lemma_idx(g, xi - 1, yi);
            }
            push_elem(&mut r, i - 1);
        } else if self.toroidal {
            proof {
                lemma_idx(g, wi - 1, yi);
            }
            push_elem(&mut r, i + w - 1);
        }
        // south
        if y + 1 < h {
            proof {
                lemma_idx(g, xi, yi + 1);
            }
            push_elem(&mut r, i + w);
        } else if self.toroidal {
            proof {
                lemma_idx(g, xi, 0);
            }
            push_elem(&mut r, x);
        }
        // north
        if y > 0 {
            proof {
                lemma_idx(g, xi, yi - 1);
            }
            push_elem(&mut r, i - w);
        } else if self.toroidal {
            proof {
                lemma_idx(g, xi, hi - 1);
            }
            push_elem(&mut r, n - w + x);
        }
        proof {
            // Re-derive, for every candidate the branches may have pushed,
            // that it is a neighbor of i.
            if xi + 1 < wi {
                lemma_idx(g, xi + 1, yi);
                assert(g.is_neighbor(i as int, i + 1));
            } else if g.toroidal {
                lemma_idx(g, 0, yi);
                assert(g.is_neighbor(i as int, i + 1 - wi));
            }
            if xi > 0 {
                lemma_idx(g, xi - 1, yi);
                assert(g.is_neighbor(i as int, i - 1));
            } else if g.toroidal {
                lemma_idx(g, wi - 1, yi);
                assert(g.is_neighbor(i as int, i + wi - 1));
            }
            if yi + 1 < hi {
                lemma_idx(g, xi, yi + 1);
                assert(g.is_neighbor(i as int, i + wi));
            } else if g.toroidal {
                lemma_idx(g, xi, 0);
                assert(g.is_neighbor(i as int, xi));
            }
            if yi > 0 {
                lemma_idx(g, xi, yi - 1);
                assert(g.is_neighbor(i as int, i - wi));
            } else if g.toroidal {
                lemma_idx(g, xi, hi - 1);
                assert(g.is_neighbor(i as int, wi * hi - wi + xi));
            }
            assert forall|u: usize| #[trigger] r@.contains(u) implies g.is_neighbor(
                i as int,
                u as int,
            ) by {}
            assert forall|j: int| #[trigger] g.is_neighbor(i as int, j) implies r@.contains(
                j as usize,
            ) by {
                lemma_coords(g, j);
                let xj = g.col(j);
                let yj = g.row(j);
                if yj == yi && adj1(wi, g.toroidal, xi, xj) {
                    if xj == xi + 1 {
                        assert(j == i + 1);
                    } else if xi == xj + 1 {
                        assert(j == i - 1);
                    } else if g.toroidal && xi + 1 == wi && xj == 0 {
                        assert(j == i + 1 - wi);
                    } else {
                        assert(g.toroidal && xj + 1 == wi && xi == 0);
                        assert(j == i + wi - 1);
                    }
                } else {
                    assert(xj == xi && adj1(hi, g.toroidal, yi, yj));
                    if yj == yi + 1 {
                        assert(j == i + wi);
                    } else if yi == yj + 1 {
                        assert(j == i - wi);
                    } else if g.toroidal && yi + 1 == hi && yj == 0 {
                        assert(j == xi);
                    } else {
                        assert(g.toroidal && yj + 1 == hi && yi == 0);
                        assert((hi - 1) * wi == hi * wi - wi) by (nonlinear_arith);
                        assert(j == wi * hi - wi + xi);
                    }
                }
            }
        }
        r
    }
}

} // verus!
