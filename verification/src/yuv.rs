//! 4:2:0 chroma-subsampled frame storage and the pixel-access capability
//! shared by any concrete frame representation.

use vstd::prelude::*;

verus! {

/// One 2x2 pixel cluster: four luma samples and one chroma pair. Sample
/// `y[2 * (y % 2) + (x % 2)]` belongs to pixel `(x, y)` of the cluster.
#[derive(Clone, Copy)]
pub struct YUV420 {
    pub y: [u8; 4],
    pub cb: u8,
    pub cr: u8,
}

/// Polymorphic pixel access over a YUV frame. `valid` is the representation
/// invariant that constructors establish and every method preserves.
pub trait YUVFrame: Sized {
    spec fn valid(&self) -> bool;

    spec fn spec_width(&self) -> int;

    spec fn spec_height(&self) -> int;

    spec fn spec_y(&self, x: int, y: int) -> u8;

    spec fn spec_u(&self, x: int, y: int) -> u8;

    spec fn spec_v(&self, x: int, y: int) -> u8;

    fn get_pixel_y(&self, x: usize, y: usize) -> (r: u8)
        requires
            self.valid(),
            x < self.spec_width(),
            y < self.spec_height(),
        ensures
            r == self.spec_y(x as int, y as int),
    ;

    fn get_pixel_u(&self, x: usize, y: usize) -> (r: u8)
        requires
            self.valid(),
            x < self.spec_width(),
            y < self.spec_height(),
        ensures
            r == self.spec_u(x as int, y as int),
    ;

    fn get_pixel_v(&self, x: usize, y: usize) -> (r: u8)
        requires
            self.valid(),
            x < self.spec_width(),
            y < self.spec_height(),
        ensures
            r == self.spec_v(x as int, y as int),
    ;

    fn set_pixel_y(&mut self, x: usize, y: usize, value: u8)
        requires
            old(self).valid(),
            x < old(self).spec_width(),
            y < old(self).spec_height(),
        ensures
            final(self).valid(),
            final(self).spec_width() == old(self).spec_width(),
            final(self).spec_height() == old(self).spec_height(),
            final(self).spec_y(x as int, y as int) == value,
            forall|p: int, q: int|
                0 <= p < old(self).spec_width() && 0 <= q < old(self).spec_height() && (p != x || q
                    != y) ==> final(self).spec_y(p, q) == old(self).spec_y(p, q),
            forall|p: int, q: int|
                0 <= p < old(self).spec_width() && 0 <= q < old(self).spec_height() ==> (final(self).spec_u(p, q) == old(self).spec_u(p, q) && final(self).spec_v(p, q)
                    == old(self).spec_v(p, q)),
    ;

    fn set_pixel_u(&mut self, x: usize, y: usize, value: u8)
        requires
            old(self).valid(),
            x < old(self).spec_width(),
            y < old(self).spec_height(),
        ensures
            final(self).valid(),
            final(self).spec_width() == old(self).spec_width(),
            final(self).spec_height() == old(self).spec_height(),
            final(self).spec_u(x as int, y as int) == value,
            forall|p: int, q: int|
                0 <= p < old(self).spec_width() && 0 <= q < old(self).spec_height() ==> (final(self).spec_y(p, q) == old(self).spec_y(p, q) && final(self).spec_v(p, q)
                    == old(self).spec_v(p, q)),
    ;

    fn set_pixel_v(&mut self, x: usize, y: usize, value: u8)
        requires
            old(self).valid(),
            x < old(self).spec_width(),
            y < old(self).spec_height(),
        ensures
            final(self).valid(),
            final(self).spec_width() == old(self).spec_width(),
            final(self).spec_height() == old(self).spec_height(),
            final(self).spec_v(x as int, y as int) == value,
            forall|p: int, q: int|
                0 <= p < old(self).spec_width() && 0 <= q < old(self).spec_height() ==> (final(self).spec_y(p, q) == old(self).spec_y(p, q) && final(self).spec_u(p, q)
                    == old(self).spec_u(p, q)),
    ;

    /// All three components of one pixel.
    fn get_pixel(&self, x: usize, y: usize) -> (r: (u8, u8, u8))
        requires
            self.valid(),
            x < self.spec_width(),
            y < self.spec_height(),
        ensures
            r.0 == self.spec_y(x as int, y as int),
            r.1 == self.spec_u(x as int, y as int),
            r.2 == self.spec_v(x as int, y as int),
    {
        (self.get_pixel_y(x, y), self.get_pixel_u(x, y), self.get_pixel_v(x, y))
    }

    /// Sets all three components of one pixel.
    fn set_pixel(&mut self, x: usize, y: usize, yuv: (u8, u8, u8))
        requires
            old(self).valid(),
            x < old(self).spec_width(),
            y < old(self).spec_height(),
        ensures
            final(self).valid(),
            final(self).spec_width() == old(self).spec_width(),
            final(self).spec_height() == old(self).spec_height(),
            final(self).spec_y(x as int, y as int) == yuv.0,
            final(self).spec_u(x as int, y as int) == yuv.1,
            final(self).spec_v(x as int, y as int) == yuv.2,
    {
        self.set_pixel_y(x, y, yuv.0);
        self.set_pixel_u(x, y, yuv.1);
        self.set_pixel_v(x, y, yuv.2);
    }

    fn get_resolution(&self) -> (r: (usize, usize))
        requires
            self.valid(),
        ensures
            r.0 == self.spec_width(),
            r.1 == self.spec_height(),
    ;

    /// A fresh frame with the same pixels; what `Clone` cannot promise to
    /// verified callers, this method does.
    fn duplicate(&self) -> (r: Self)
        requires
            self.valid(),
        ensures
            r.valid(),
            r.spec_width() == self.spec_width(),
            r.spec_height() == self.spec_height(),
            forall|p: int, q: int|
                0 <= p < self.spec_width() && 0 <= q < self.spec_height() ==> r.spec_y(p, q)
                    == self.spec_y(p, q) && r.spec_u(p, q) == self.spec_u(p, q) && r.spec_v(p, q)
                    == self.spec_v(p, q),
    ;
}

/// A 4:2:0 frame: one `YUV420` group per 2x2 pixel cluster, in row-major
/// group order.
#[derive(Clone)]
pub struct YUV420Frame {
    pub width: usize,
    pub height: usize,
    pub points: Vec<YUV420>,
}

/// Flat group index of pixel (x, y) in a frame of width `w`.
pub open spec fn group_idx(x: int, y: int, w: int) -> int {
    (y / 2) * (w / 2) + x / 2
}

/// Index of pixel (x, y)'s luma sample within its group.
pub open spec fn sub_idx(x: int, y: int) -> int {
    2 * (y % 2) + x % 2
}

pub proof fn lemma_grid_idx(gx: int, gy: int, w2: int, h2: int)
    requires
        0 <= gx < w2,
        0 <= gy < h2,
    ensures
        0 <= gy * w2 + gx < h2 * w2,
{
    assert(0 <= gy * w2 + gx < h2 * w2) by (nonlinear_arith)
        requires
            0 <= gx < w2,
            0 <= gy < h2,
    ;
}

pub proof fn lemma_grid_cap(w2: int, h2: int)
    requires
        0 <= w2,
        0 <= h2,
        6 * w2 * h2 <= usize::MAX,
    ensures
        h2 * w2 <= usize::MAX,
        w2 * h2 <= usize::MAX,
{
    assert(h2 * w2 <= usize::MAX && w2 * h2 <= usize::MAX) by (nonlinear_arith)
        requires
            0 <= w2,
            0 <= h2,
            6 * w2 * h2 <= usize::MAX,
    ;
}

/// Two positions in one grid row-major order coincide exactly when both
/// coordinates coincide.
pub proof fn lemma_grid_unique(a: int, b: int, c: int, d: int, w: int)
    requires
        0 <= b < w,
        0 <= d < w,
        a * w + b == c * w + d,
    ensures
        a == c,
        b == d,
{
    assert(a == c && b == d) by (nonlinear_arith)
        requires
            0 <= b < w,
            0 <= d < w,
            a * w + b == c * w + d,
    ;
}

impl YUV420Frame {
    /// The representation invariant: even dimensions, one group per 2x2
    /// cluster, and a byte dump that fits in a machine-sized buffer.
    pub open spec fn wf(&self) -> bool {
        &&& self.width % 2 == 0
        &&& self.height % 2 == 0
        &&& self.points@.len() == (self.width as int / 2) * (self.height as int / 2)
        &&& 6 * (self.width as int / 2) * (self.height as int / 2) <= usize::MAX
    }

    /// Get a group of 4 luma samples and its chroma pair.
    pub fn get_pixel_group(&self, x: usize, y: usize) -> (g: YUV420)
        requires
            self.wf(),
            x < self.width,
            y < self.height,
        ensures
            g == self.points@[group_idx(x as int, y as int, self.width as int)],
    {
        proof {
            lemma_grid_idx(
                x as int / 2,
                y as int / 2,
                self.width as int / 2,
                self.height as int / 2,
            );
            lemma_grid_cap(self.width as int / 2, self.height as int / 2);
        }
        self.points[(y / 2) * (self.width / 2) + x / 2]
    }
}

impl YUVFrame for YUV420Frame {
    open spec fn valid(&self) -> bool {
        self.wf()
    }

    open spec fn spec_width(&self) -> int {
        self.width as int
    }

    open spec fn spec_height(&self) -> int {
        self.height as int
    }

    open spec fn spec_y(&self, x: int, y: int) -> u8 {
        self.points@[group_idx(x, y, self.width as int)].y@[sub_idx(x, y)]
    }

    open spec fn spec_u(&self, x: int, y: int) -> u8 {
        self.points@[group_idx(x, y, self.width as int)].cb
    }

    open spec fn spec_v(&self, x: int, y: int) -> u8 {
        self.points@[group_idx(x, y, self.width as int)].cr
    }

    fn get_pixel_y(&self, x: usize, y: usize) -> (r: u8) {
        let group = self.get_pixel_group(x, y);
        if x % 2 == 0 && y % 2 == 0 {
            group.y[0]
        } else if x % 2 == 1 && y % 2 == 0 {
            group.y[1]
        } else if x % 2 == 0 && y % 2 == 1 {
            group.y[2]
        } else {
            group.y[3]
        }
    }

    fn get_pixel_u(&self, x: usize, y: usize) -> (r: u8) {
        self.get_pixel_group(x, y).cb
    }

    fn get_pixel_v(&self, x: usize, y: usize) -> (r: u8) {
        self.get_pixel_group(x, y).cr
    }

    fn set_pixel_y(&mut self, x: usize, y: usize, value: u8) {
        proof {
            lemma_grid_idx(
                x as int / 2,
                y as int / 2,
                self.width as int / 2,
                self.height as int / 2,
            );
            lemma_grid_cap(self.width as int / 2, self.height as int / 2);
        }
        let idx = (y / 2) * (self.width / 2) + x / 2;
        let g = self.points[idx];
        let ys: [u8; 4] = if x % 2 == 0 && y % 2 == 0 {
            [value, g.y[1], g.y[2], g.y[3]]
        } else if x % 2 == 1 && y % 2 == 0 {
            [g.y[0], value, g.y[2], g.y[3]]
        } else if x % 2 == 0 && y % 2 == 1 {
            [g.y[0], g.y[1], value, g.y[3]]
        } else {
            [g.y[0], g.y[1], g.y[2], value]
        };
        let g2 = YUV420 { y: ys, cb: g.cb, cr: g.cr };
        self.points.set(idx, g2);
        proof {
            let w = self.width as int;
            let gi = group_idx(x as int, y as int, w);
            let si = sub_idx(x as int, y as int);
            assert(g2.y@[si] == value);
            assert(forall|s: int| 0 <= s < 4 && s != si ==> g2.y@[s] == g.y@[s]);
            let h = self.height as int;
            assert forall|p: int, q: int|
                0 <= p < old(self).spec_width() && 0 <= q < old(self).spec_height() && (p != x || q
                    != y) implies final(self).spec_y(p, q) == old(self).spec_y(p, q) by {
                lemma_grid_idx(p / 2, q / 2, w / 2, h / 2);
                if group_idx(p, q, w) == gi {
                    lemma_grid_unique(q / 2, p / 2, y as int / 2, x as int / 2, w / 2);
                    if sub_idx(p, q) == si {
                        lemma_grid_unique(q % 2, p % 2, y as int % 2, x as int % 2, 2);
                        assert(p == 2 * (p / 2) + p % 2);
                        assert(q == 2 * (q / 2) + q % 2);
                        assert(false);
                    }
                }
            }
            assert forall|p: int, q: int|
                0 <= p < old(self).spec_width() && 0 <= q < old(self).spec_height() implies (final(self).spec_u(p, q) == old(self).spec_u(p, q)
                && final(self).spec_v(p, q) == old(self).spec_v(p, q)) by {
                lemma_grid_idx(p / 2, q / 2, w / 2, h / 2);
            }
        }
    }

    fn set_pixel_u(&mut self, x: usize, y: usize, value: u8) {
        proof {
            lemma_grid_idx(
                x as int / 2,
                y as int / 2,
                self.width as int / 2,
                self.height as int / 2,
            );
            lemma_grid_cap(self.width as int / 2, self.height as int / 2);
        }
        let idx = (y / 2) * (self.width / 2) + x / 2;
        let g = self.points[idx];
        self.points.set(idx, YUV420 { y: g.y, cb: value, cr: g.cr });
        proof {
            let w = self.width as int;
            let h = self.height as int;
            assert forall|p: int, q: int|
                0 <= p < old(self).spec_width() && 0 <= q < old(self).spec_height() implies (final(self).spec_y(p, q) == old(self).spec_y(p, q)
                && final(self).spec_v(p, q) == old(self).spec_v(p, q)) by {
                lemma_grid_idx(p / 2, q / 2, w / 2, h / 2);
            }
        }
    }

    fn set_pixel_v(&mut self, x: usize, y: usize, value: u8) {
        proof {
            lemma_grid_idx(
                x as int / 2,
                y as int / 2,
                self.width as int / 2,
                self.height as int / 2,
            );
            lemma_grid_cap(self.width as int / 2, self.height as int / 2);
        }
        let idx = (y / 2) * (self.width / 2) + x / 2;
        let g = self.points[idx];
        self.points.set(idx, YUV420 { y: g.y, cb: g.cb, cr: value });
        proof {
            let w = self.width as int;
            let h = self.height as int;
            assert forall|p: int, q: int|
                0 <= p < old(self).spec_width() && 0 <= q < old(self).spec_height() implies (final(self).spec_y(p, q) == old(self).spec_y(p, q)
                && final(self).spec_u(p, q) == old(self).spec_u(p, q)) by {
                lemma_grid_idx(p / 2, q / 2, w / 2, h / 2);
            }
        }
    }

    fn get_resolution(&self) -> (r: (usize, usize)) {
        (self.width, self.height)
    }

    fn duplicate(&self) -> (r: Self) {
        let mut points: Vec<YUV420> = Vec::new();
        let n = self.points.len();
        for k in 0..n
            invariant
                n == self.points@.len(),
                points@.len() == k,
                forall|p: int| 0 <= p < k ==> points@[p] == self.points@[p],
        {
            points.push(self.points[k]);
        }
        proof {
            assert(points@ =~= self.points@);
        }
        YUV420Frame { width: self.width, height: self.height, points }
    }
}


/// The byte dump of a frame: the full-resolution luma plane in row-major
/// order (which interleaves the 2x2 groups, `[y0, y1]` on one scanline and
/// `[y2, y3]` on the next), then the half-resolution Cb plane, then the
/// half-resolution Cr plane.
pub open spec fn frame_dump<T: YUVFrame>(f: T) -> Seq<u8> {
    let w = f.spec_width();
    let w2 = f.spec_width() / 2;
    let h2 = f.spec_height() / 2;
    Seq::new(
        (6 * w2 * h2) as nat,
        |n: int|
            if n < 4 * w2 * h2 {
                f.spec_y(n % w, n / w)
            } else if n < 5 * w2 * h2 {
                f.spec_u(2 * ((n - 4 * w2 * h2) % w2), 2 * ((n - 4 * w2 * h2) / w2))
            } else {
                f.spec_v(2 * ((n - 5 * w2 * h2) % w2), 2 * ((n - 5 * w2 * h2) / w2))
            },
    )
}

/// A type that can be stored to and loaded from the codec's frame byte-dump
/// format.
pub trait Bitstream: YUVFrame {
    /// Loads a frame of the given even dimensions from its byte dump.
    fn load(bytes: &[u8], width: usize, height: usize) -> (r: Self)
        requires
            width % 2 == 0,
            height % 2 == 0,
            6 * (width as int / 2) * (height as int / 2) <= usize::MAX,
            bytes@.len() >= 6 * (width as int / 2) * (height as int / 2),
        ensures
            r.valid(),
            r.spec_width() == width,
            r.spec_height() == height,
            frame_dump(r) == bytes@.subrange(
                0,
                6 * (width as int / 2) * (height as int / 2),
            ),
    ;

    /// Dumps the frame into bytes.
    fn dump(&self) -> (r: Vec<u8>)
        requires
            self.valid(),
        ensures
            r@ == frame_dump(*self),
    ;
}


/// Row-major index facts: in a grid of width `w`, flat index `a * w + b`
/// sits in row `a`, column `b`.
pub proof fn lemma_row_major(a: int, b: int, w: int)
    requires
        0 < w,
        0 <= b < w,
    ensures
        (a * w + b) / w == a,
        (a * w + b) % w == b,
{
    vstd::arithmetic::div_mod::lemma_fundamental_div_mod_converse(a * w + b, w, a, b);
}

proof fn lemma_luma_idx(gx: int, gy: int, w2: int, h2: int)
    requires
        0 <= gx < w2,
        0 <= gy < h2,
    ensures
        0 <= 4 * gy * w2 + 2 * gx,
        4 * gy * w2 + 2 * w2 + 2 * gx + 1 < 4 * w2 * h2,
{
    assert(4 * gy * w2 + 2 * w2 + 2 * gx + 1 < 4 * w2 * h2 && 0 <= 4 * gy * w2 + 2 * gx)
        by (nonlinear_arith)
        requires
            0 <= gx < w2,
            0 <= gy < h2,
    ;
}

impl Bitstream for YUV420Frame {
    fn load(bytes: &[u8], width: usize, height: usize) -> (r: Self) {
        let w2 = width / 2;
        let h2 = height / 2;
        proof {
            lemma_grid_cap(w2 as int, h2 as int);
            assert((4 * ((w2 as int) * (h2 as int)) <= 6 * (w2 as int) * (h2 as int)) && (5 * ((
            w2 as int) * (h2 as int)) <= 6 * (w2 as int) * (h2 as int)) && 0 <= (w2 as int) * (
            h2 as int)) by (nonlinear_arith)
                requires
                    0 <= w2 as int,
                    0 <= h2 as int,
            ;
        }
        let area = w2 * h2;
        let luma_len = 4 * area;
        let cr_start = 5 * area;
        let mut points: Vec<YUV420> = Vec::new();
        let ghost wi = w2 as int;
        let ghost hi = h2 as int;
        proof {
            assert(4 * (wi * hi) == 4 * wi * hi && 5 * (wi * hi) == 5 * wi * hi && 0 * wi == 0)
                by (nonlinear_arith);
        }
        for gy in 0..h2
            invariant
                wi == w2 as int,
                hi == h2 as int,
                area == wi * hi,
                luma_len == 4 * wi * hi,
                cr_start == 5 * wi * hi,
                6 * wi * hi <= usize::MAX,
                bytes@.len() >= 6 * wi * hi,
                points@.len() == gy * wi,
                forall|g: int|
                    0 <= g < points@.len() ==> group_matches(#[trigger] points@[g], bytes@, g, wi, hi),
        {
            for gx in 0..w2
                invariant
                    wi == w2 as int,
                    hi == h2 as int,
                    area == wi * hi,
                    luma_len == 4 * wi * hi,
                    cr_start == 5 * wi * hi,
                    6 * wi * hi <= usize::MAX,
                    bytes@.len() >= 6 * wi * hi,
                    gy < h2,
                    points@.len() == gy * wi + gx,
                    forall|g: int|
                        0 <= g < points@.len() ==> group_matches(
                            #[trigger] points@[g],
                            bytes@,
                            g,
                            wi,
                            hi,
                        ),
            {
                proof {
                    lemma_luma_idx(gx as int, gy as int, wi, hi);
                    lemma_grid_idx(gx as int, gy as int, wi, hi);
                    assert(4 * (gy as int) * wi == 4 * ((gy as int) * wi) && 4 * (wi * hi) == 4
                        * wi * hi && 5 * (wi * hi) == 5 * wi * hi && hi * wi == wi * hi)
                        by (nonlinear_arith);
                    assert(4 * (wi * hi) <= 6 * wi * hi && 5 * (wi * hi) + wi * hi <= 6 * wi * hi
                        && wi * hi <= 6 * wi * hi) by (nonlinear_arith)
                        requires
                            0 <= wi,
                            0 <= hi,
                    ;
                }
                let row = gy * w2;
                let base = 4 * row + 2 * gx;
                let g = YUV420 {
                    y: [bytes[base], bytes[base + 1], bytes[base + 2 * w2], bytes[base + 2 * w2
                        + 1]],
                    cb: bytes[luma_len + row + gx],
                    cr: bytes[cr_start + row + gx],
                };
                points.push(g);
                proof {
                    let gidx = (gy as int) * wi + gx as int;
                    lemma_row_major(gy as int, gx as int, wi);
                    assert(group_matches(g, bytes@, gidx, wi, hi));
                }
            }
            proof {
                assert((gy as int + 1) * wi == (gy as int) * wi + wi) by (nonlinear_arith);
            }
        }
        let r = YUV420Frame { width, height, points };
        proof {
            assert(r.points@.len() == hi * wi);
            assert(hi * wi == wi * hi && (width as int / 2) * (height as int / 2) == wi * hi)
                by (nonlinear_arith)
                requires
                    wi == width as int / 2,
                    hi == height as int / 2,
            ;
            lemma_load_dump(r, bytes@, wi, hi);
        }
        r
    }

    fn dump(&self) -> (r: Vec<u8>) {
        let w = self.width;
        let h = self.height;
        let w2 = w / 2;
        let h2 = h / 2;
        let ghost wi = w2 as int;
        let ghost hi = h2 as int;
        let ghost dumped = frame_dump(*self);
        proof {
            assert((w as int) * (h as int) == 4 * wi * hi && 4 * wi * hi >= 0) by (nonlinear_arith)
                requires
                    wi == w as int / 2,
                    hi == h as int / 2,
                    w as int % 2 == 0,
                    h as int % 2 == 0,
            ;
        }
        let mut out: Vec<u8> = Vec::new();
        proof {
            assert(0 * (w as int) == 0 && 0 * wi == 0) by (nonlinear_arith);
        }
        for y in 0..h
            invariant
                self.wf(),
                w == self.width,
                h == self.height,
                wi == w as int / 2,
                hi == h as int / 2,
                dumped == frame_dump(*self),
                dumped.len() == 6 * wi * hi,
                out@.len() == y * (w as int),
                y * (w as int) <= 4 * wi * hi,
                forall|n: int| 0 <= n < out@.len() ==> #[trigger] out@[n] == dumped[n],
        {
            for x in 0..w
                invariant
                    self.wf(),
                    w == self.width,
                    h == self.height,
                    y < h,
                    wi == w as int / 2,
                    hi == h as int / 2,
                    dumped == frame_dump(*self),
                    dumped.len() == 6 * wi * hi,
                    out@.len() == y * (w as int) + x,
                    y * (w as int) + x <= 4 * wi * hi,
                    forall|n: int| 0 <= n < out@.len() ==> #[trigger] out@[n] == dumped[n],
            {
                proof {
                    assert(((y as int) * (w as int) + (x as int) < 4 * wi * hi) && ((y as int + 1)
                        * (w as int) <= 4 * wi * hi)) by (nonlinear_arith)
                        requires
                            wi == w as int / 2,
                            hi == h as int / 2,
                            w as int % 2 == 0,
                            h as int % 2 == 0,
                            0 <= x < w as int,
                            0 <= y < h as int,
                    ;
                    lemma_row_major(y as int, x as int, w as int);
                    assert(4 * wi * hi <= 6 * wi * hi) by (nonlinear_arith)
                        requires
                            0 <= wi,
                            0 <= hi,
                    ;
                }
                let v = self.get_pixel_y(x, y);
                out.push(v);
            }
            proof {
                assert((y as int + 1) * (w as int) == (y as int) * (w as int) + (w as int))
                    by (nonlinear_arith);
            }
        }
        proof {
            assert(out@.len() == (h as int) * (w as int));
            assert((h as int) * (w as int) == 4 * wi * hi) by (nonlinear_arith)
                requires
                    wi == w as int / 2,
                    hi == h as int / 2,
                    w as int % 2 == 0,
                    h as int % 2 == 0,
            ;
            assert(0 * wi == 0 && 4 * wi * hi + hi * wi == 5 * wi * hi && 5 * wi * hi + hi * wi
                == 6 * wi * hi) by (nonlinear_arith);
        }
        for gy in 0..h2
            invariant
                self.wf(),
                w == self.width,
                h == self.height,
                wi == w as int / 2,
                hi == h as int / 2,
                wi == w2 as int,
                hi == h2 as int,
                dumped == frame_dump(*self),
                dumped.len() == 6 * wi * hi,
                out@.len() == 4 * wi * hi + gy * wi,
                forall|n: int| 0 <= n < out@.len() ==> #[trigger] out@[n] == dumped[n],
        {
            for gx in 0..w2
                invariant
                    self.wf(),
                    w == self.width,
                    h == self.height,
                    gy < h2,
                    wi == w as int / 2,
                    hi == h as int / 2,
                    wi == w2 as int,
                    hi == h2 as int,
                    dumped == frame_dump(*self),
                    dumped.len() == 6 * wi * hi,
                    out@.len() == 4 * wi * hi + gy * wi + gx,
                    forall|n: int| 0 <= n < out@.len() ==> #[trigger] out@[n] == dumped[n],
            {
                proof {
                    lemma_grid_idx(gx as int, gy as int, wi, hi);
                    lemma_row_major(gy as int, gx as int, wi);
                    assert(hi * wi == wi * hi && 4 * wi * hi + wi * hi == 5 * wi * hi && 5 * wi
                        * hi + wi * hi == 6 * wi * hi) by (nonlinear_arith);
                    vstd::arithmetic::div_mod::lemma_fundamental_div_mod(w as int, 2);
                    vstd::arithmetic::div_mod::lemma_fundamental_div_mod(h as int, 2);
                    assert(w as int == 2 * wi && h as int == 2 * hi);
                }
                let v = self.get_pixel_u(2 * gx, 2 * gy);
                out.push(v);
                proof {
                    let n = 4 * wi * hi + (gy as int) * wi + gx as int;
                    assert((2 * (gx as int)) / 2 == gx as int && (2 * (gy as int)) / 2
                        == gy as int);
                    assert(dumped[n] == self.spec_u(2 * (gx as int), 2 * (gy as int)));
                }
            }
            proof {
                assert((gy as int + 1) * wi == (gy as int) * wi + wi) by (nonlinear_arith);
            }
        }
        proof {
            assert(0 * wi == 0 && 4 * wi * hi + hi * wi == 5 * wi * hi && 5 * wi * hi + hi * wi
                == 6 * wi * hi) by (nonlinear_arith);
        }
        for gy in 0..h2
            invariant
                self.wf(),
                w == self.width,
                h == self.height,
                wi == w as int / 2,
                hi == h as int / 2,
                wi == w2 as int,
                hi == h2 as int,
                dumped == frame_dump(*self),
                dumped.len() == 6 * wi * hi,
                out@.len() == 5 * wi * hi + gy * wi,
                forall|n: int| 0 <= n < out@.len() ==> #[trigger] out@[n] == dumped[n],
        {
            for gx in 0..w2
                invariant
                    self.wf(),
                    w == self.width,
                    h == self.height,
                    gy < h2,
                    wi == w as int / 2,
                    hi == h as int / 2,
                    wi == w2 as int,
                    hi == h2 as int,
                    dumped == frame_dump(*self),
                    dumped.len() == 6 * wi * hi,
                    out@.len() == 5 * wi * hi + gy * wi + gx,
                    forall|n: int| 0 <= n < out@.len() ==> #[trigger] out@[n] == dumped[n],
            {
                proof {
                    lemma_grid_idx(gx as int, gy as int, wi, hi);
                    lemma_row_major(gy as int, gx as int, wi);
                    assert(hi * wi == wi * hi && 4 * wi * hi + wi * hi == 5 * wi * hi && 5 * wi
                        * hi + wi * hi == 6 * wi * hi) by (nonlinear_arith);
                    vstd::arithmetic::div_mod::lemma_fundamental_div_mod(w as int, 2);
                    vstd::arithmetic::div_mod::lemma_fundamental_div_mod(h as int, 2);
                    assert(w as int == 2 * wi && h as int == 2 * hi);
                }
                let v = self.get_pixel_v(2 * gx, 2 * gy);
                out.push(v);
                proof {
                    let n = 5 * wi * hi + (gy as int) * wi + gx as int;
                    assert((2 * (gx as int)) / 2 == gx as int && (2 * (gy as int)) / 2
                        == gy as int);
                    assert(dumped[n] == self.spec_v(2 * (gx as int), 2 * (gy as int)));
                }
            }
            proof {
                assert((gy as int + 1) * wi == (gy as int) * wi + wi) by (nonlinear_arith);
            }
        }
        proof {
            assert(out@ =~= frame_dump(*self));
        }
        out
    }
}

/// Group `g` of a frame holds exactly the bytes the dump layout assigns it.
pub open spec fn group_matches(g: YUV420, bytes: Seq<u8>, gidx: int, w2: int, h2: int) -> bool {
    let gx = gidx % w2;
    let gy = gidx / w2;
    let base = 4 * gy * w2 + 2 * gx;
    &&& g.y@[0] == bytes[base]
    &&& g.y@[1] == bytes[base + 1]
    &&& g.y@[2] == bytes[base + 2 * w2]
    &&& g.y@[3] == bytes[base + 2 * w2 + 1]
    &&& g.cb == bytes[4 * w2 * h2 + gidx]
    &&& g.cr == bytes[5 * w2 * h2 + gidx]
}

/// A frame whose groups all match a byte buffer dumps back to that buffer's
/// prefix.
proof fn lemma_load_dump(r: YUV420Frame, bytes: Seq<u8>, w2: int, h2: int)
    requires
        w2 == r.width as int / 2,
        h2 == r.height as int / 2,
        r.width as int % 2 == 0,
        r.height as int % 2 == 0,
        r.points@.len() == w2 * h2,
        6 * w2 * h2 <= usize::MAX,
        bytes.len() >= 6 * w2 * h2,
        forall|g: int| 0 <= g < r.points@.len() ==> group_matches(#[trigger] r.points@[g], bytes, g, w2, h2),
    ensures
        r.wf(),
        frame_dump(r) == bytes.subrange(0, 6 * w2 * h2),
{
    let w = r.width as int;
    assert(r.wf()) by {
        assert((r.width as int / 2) * (r.height as int / 2) == w2 * h2);
    }
    let d = frame_dump(r);
    assert forall|n: int| 0 <= n < 6 * w2 * h2 implies d[n] == bytes[n] by {
        if n < 4 * w2 * h2 {
            let x = n % w;
            let y = n / w;
            assert(w == 2 * w2);
            assert(0 <= x < w && 0 <= y && n == y * w + x) by {
                assert(4 * w2 * h2 <= (2 * w2) * (2 * h2)) by (nonlinear_arith);
                assert(w > 0) by (nonlinear_arith)
                    requires
                        0 < 4 * w2 * h2 || n < 4 * w2 * h2,
                        0 <= n,
                        w == 2 * w2,
                        0 <= w2,
                ;
                vstd::arithmetic::div_mod::lemma_fundamental_div_mod(n, w);
                vstd::arithmetic::div_mod::lemma_mod_division_less_than_divisor(n, w);
                assert(y >= 0) by (nonlinear_arith)
                    requires
                        n >= 0,
                        w > 0,
                        y == n / w,
                ;
            }
            assert(y < 2 * h2) by (nonlinear_arith)
                requires
                    n < 4 * w2 * h2,
                    w == 2 * w2,
                    n == y * w + x,
                    0 <= x < w,
                    w > 0,
                    0 <= y,
            ;
            let gx = x / 2;
            let gy = y / 2;
            let gidx = gy * w2 + gx;
            lemma_grid_idx(gx, gy, w2, h2);
            assert(group_matches(r.points@[gidx], bytes, gidx, w2, h2));
            lemma_row_major(gy, gx, w2);
            let base = 4 * gy * w2 + 2 * gx;
            assert(d[n] == r.points@[gidx].y@[sub_idx(x, y)]);
            vstd::arithmetic::div_mod::lemma_fundamental_div_mod(x, 2);
            vstd::arithmetic::div_mod::lemma_fundamental_div_mod(y, 2);
            assert(x == 2 * gx + x % 2 && y == 2 * gy + y % 2);
            assert(n == y * w + x);
            assert(n == 4 * gy * w2 + (y % 2) * (2 * w2) + 2 * gx + x % 2) by (nonlinear_arith)
                requires
                    n == y * w + x,
                    w == 2 * w2,
                    y == 2 * gy + y % 2,
                    x == 2 * gx + x % 2,
            ;
            let ym = y % 2;
            let xm = x % 2;
            assert(n == 4 * gy * w2 + ym * (2 * w2) + 2 * gx + xm);
            assert(ym == 0 ==> ym * (2 * w2) == 0) by (nonlinear_arith);
            assert(ym == 1 ==> ym * (2 * w2) == 2 * w2) by (nonlinear_arith);
            if ym == 0 {
                if xm == 0 {
                    assert(n == base);
                } else {
                    assert(n == base + 1);
                }
            } else {
                if xm == 0 {
                    assert(n == base + 2 * w2);
                } else {
                    assert(n == base + 2 * w2 + 1);
                }
            }
        } else if n < 5 * w2 * h2 {
            let m = n - 4 * w2 * h2;
            let gx = m % w2;
            let gy = m / w2;
            assert(0 <= m < w2 * h2) by (nonlinear_arith)
                requires
                    4 * w2 * h2 <= n < 5 * w2 * h2,
                    m == n - 4 * w2 * h2,
            ;
            assert(0 <= gx < w2 && 0 <= gy < h2 && m == gy * w2 + gx) by {
                assert(w2 > 0) by (nonlinear_arith)
                    requires
                        0 <= m < w2 * h2,
                        0 <= h2,
                ;
                vstd::arithmetic::div_mod::lemma_fundamental_div_mod(m, w2);
                vstd::arithmetic::div_mod::lemma_mod_division_less_than_divisor(m, w2);
                assert(0 <= gy && gy < h2) by (nonlinear_arith)
                    requires
                        0 <= m < w2 * h2,
                        w2 > 0,
                        gy == m / w2,
                        m == gy * w2 + (m % w2),
                        0 <= m % w2 < w2,
                ;
            }
            lemma_grid_idx(gx, gy, w2, h2);
            assert(group_matches(r.points@[m], bytes, m, w2, h2));
            lemma_row_major(gy, gx, w2);
            assert((2 * gx) / 2 == gx && (2 * gy) / 2 == gy);
            assert(d[n] == r.spec_u(2 * gx, 2 * gy));
            assert(group_idx(2 * gx, 2 * gy, w) == m);
        } else {
            let m = n - 5 * w2 * h2;
            let gx = m % w2;
            let gy = m / w2;
            assert(0 <= m < w2 * h2) by (nonlinear_arith)
                requires
                    5 * w2 * h2 <= n < 6 * w2 * h2,
                    m == n - 5 * w2 * h2,
            ;
            assert(0 <= gx < w2 && 0 <= gy < h2 && m == gy * w2 + gx) by {
                assert(w2 > 0) by (nonlinear_arith)
                    requires
                        0 <= m < w2 * h2,
                        0 <= h2,
                ;
                vstd::arithmetic::div_mod::lemma_fundamental_div_mod(m, w2);
                vstd::arithmetic::div_mod::lemma_mod_division_less_than_divisor(m, w2);
                assert(0 <= gy && gy < h2) by (nonlinear_arith)
                    requires
                        0 <= m < w2 * h2,
                        w2 > 0,
                        gy == m / w2,
                        m == gy * w2 + (m % w2),
                        0 <= m % w2 < w2,
                ;
            }
            lemma_grid_idx(gx, gy, w2, h2);
            assert(group_matches(r.points@[m], bytes, m, w2, h2));
            lemma_row_major(gy, gx, w2);
            assert((2 * gx) / 2 == gx && (2 * gy) / 2 == gy);
            assert(d[n] == r.spec_v(2 * gx, 2 * gy));
            assert(group_idx(2 * gx, 2 * gy, w) == m);
        }
    }
    assert(d =~= bytes.subrange(0, 6 * w2 * h2));
}


/// Coordinates of luma byte `n` of a dump: row `n / w`, column `n % w`.
pub proof fn lemma_dump_coords(n: int, w: int, w2: int, h2: int)
    requires
        w == 2 * w2,
        0 <= w2,
        0 <= h2,
        0 <= n < 4 * w2 * h2,
    ensures
        0 < w,
        0 <= n % w < w,
        0 <= n / w < 2 * h2,
        n == (n / w) * w + n % w,
{
    assert(w > 0) by (nonlinear_arith)
        requires
            0 <= n < 4 * w2 * h2,
            w == 2 * w2,
            0 <= w2,
    ;
    vstd::arithmetic::div_mod::lemma_fundamental_div_mod(n, w);
    vstd::arithmetic::div_mod::lemma_mod_division_less_than_divisor(n, w);
    assert(0 <= n / w && n / w < 2 * h2) by (nonlinear_arith)
        requires
            n >= 0,
            w > 0,
            w == 2 * w2,
            n < 4 * w2 * h2,
            n == (n / w) * w + n % w,
            0 <= n % w < w,
    ;
}

} // verus!
