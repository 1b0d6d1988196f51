//! The line-pixel cache: the rasterized pixel list of every unordered
//! pair of nails, computed once and looked up by a normalized key, so
//! `get(i, j)` and `get(j, i)` return the very same list.

use vstd::prelude::*;
use vstd::string::StringExecFns;
use crate::utils::Coord;
use crate::raster::{rasterize, rasterize_spec, pts_view};

verus! {

/// A store of precomputed line pixels, one list per unordered nail
/// pair.
pub trait LinePixelCache: Sized {
    /// How many nails the cache was built for.
    spec fn nails(&self) -> int;

    /// The pixel list stored for the pair `(i, j)`.
    spec fn entry(&self, i: int, j: int) -> Seq<(int, int)>;

    /// The cache's internal invariant.
    spec fn inv(&self) -> bool;

    /// Look up the pixels of the line between two distinct nails.
    fn get(&self, nail1: usize, nail2: usize) -> (r: &Vec<Coord>)
        requires
            self.inv(),
            nail1 < self.nails(),
            nail2 < self.nails(),
            nail1 != nail2,
        ensures
            pts_view(r@) == self.entry(nail1 as int, nail2 as int),
            self.entry(nail1 as int, nail2 as int) == self.entry(nail2 as int, nail1 as int),
    ;
}

/// The row-major slot of the pair `(i, j)` among `n` nails, normalized
/// so both orders share one slot.
pub open spec fn pair_slot(i: int, j: int, n: int) -> int {
    if i < j {
        i * n + j
    } else {
        j * n + i
    }
}

/// A cache for pre-calculating and storing the pixels for every
/// possible line.
pub struct BasicLinePixelCache {
    pub num_nails: usize,
    pub lines: Vec<Vec<Coord>>,
}

impl BasicLinePixelCache {
    /// The slot table has one entry per ordered pair and the nail count
    /// is small enough for slot arithmetic.
    pub open spec fn wf(self) -> bool {
        self.num_nails <= 46340 && self.lines@.len() == self.num_nails * self.num_nails
    }

    /// The cache holds, for every pair of distinct nails out of
    /// `coords`, the rasterized segment between their positions.
    pub open spec fn wf_for(self, coords: Seq<Coord>) -> bool {
        self.num_nails == coords.len() && forall|i: int, j: int|
            0 <= i < j < coords.len() ==> #[trigger] self.entry(i, j) == rasterize_spec(
                coords[i],
                coords[j],
            )
    }

    /// Creates a new cache and pre-calculates all line pixels.
    pub fn new(nail_coords: &Vec<Coord>) -> (r: Self)
        requires
            nail_coords@.len() <= 46340,
        ensures
            r.wf(),
            r.wf_for(nail_coords@),
            r.inv(),
            r.nails() == nail_coords@.len(),
    {
        let n = nail_coords.len();
        let mut lines: Vec<Vec<Coord>> = Vec::new();
        let mut a: usize = 0;
        proof {
            assert(0int * n == 0) by (nonlinear_arith);
        }
        while a < n
            invariant
                n == nail_coords@.len(),
                n <= 46340,
                a <= n,
                lines@.len() == a * n,
                forall|i: int, j: int|
                    0 <= i < j < n && i * n + j < a * n ==> pts_view(
                        #[trigger] lines@[i * n + j]@,
                    ) == rasterize_spec(nail_coords@[i], nail_coords@[j]),
            decreases n - a,
        {
            let mut b: usize = 0;
            while b < n
                invariant
                    n == nail_coords@.len(),
                    n <= 46340,
                    a < n,
                    b <= n,
                    lines@.len() == a * n + b,
                    forall|i: int, j: int|
                        0 <= i < j < n && i * n + j < a * n + b ==> pts_view(
                            #[trigger] lines@[i * n + j]@,
                        ) == rasterize_spec(nail_coords@[i], nail_coords@[j]),
                decreases n - b,
            {
                proof {
                    assert(a * n + b < n * n && a * n + b + 1 <= 46340 * 46340) by (
                    nonlinear_arith)
                        requires
                            0 <= a < n <= 46340,
                            0 <= b < n,
                    ;
                }
                let px: Vec<Coord> = if a < b {
                    rasterize(nail_coords[a], nail_coords[b])
                } else {
                    Vec::new()
                };
                lines.push(px);
                proof {
                    assert forall|i: int, j: int|
                        0 <= i < j < n && i * n + j < a * n + b + 1 implies pts_view(
                        #[trigger] lines@[i * n + j]@,
                    ) == rasterize_spec(nail_coords@[i], nail_coords@[j]) by {
                        if i * n + j < a * n + b {
                            assert(lines@[i * n + j] == lines@.drop_last()[i * n + j]);
                        } else {
                            assert(i * n + j == a * n + b);
                            assert(i == a && j == b) by (nonlinear_arith)
                                requires
                                    i * n + j == a * n + b,
                                    0 <= i < n,
                                    0 <= j < n,
                                    0 <= a < n,
                                    0 <= b < n,
                            ;
                        }
                    }
                }
                b = b + 1;
            }
            proof {
                assert(a * n + n == (a + 1) * n) by (nonlinear_arith);
            }
            a = a + 1;
        }
        let r = BasicLinePixelCache { num_nails: n, lines };
        proof {
            assert forall|i: int, j: int| 0 <= i < j < n implies #[trigger] r.entry(i, j)
                == rasterize_spec(nail_coords@[i], nail_coords@[j]) by {
                assert(i * n + j < n * n) by (nonlinear_arith)
                    requires
                        0 <= i < j < n,
                ;
                assert(pair_slot(i, j, n as int) == i * n + j);
            }
        }
        r
    }

    /// Traverse line pixels using an integer line-walking algorithm.
    pub fn get_line_pixels(start: Coord, end: Coord) -> (r: Vec<Coord>)
        ensures
            pts_view(r@) == rasterize_spec(start, end),
            r@.len() >= 1,
            r@[0] == start,
            r@[r@.len() - 1] == end,
    {
        rasterize(start, end)
    }
}

impl LinePixelCache for BasicLinePixelCache {
    open spec fn nails(&self) -> int {
        self.num_nails as int
    }

    open spec fn entry(&self, i: int, j: int) -> Seq<(int, int)> {
        pts_view(self.lines@[pair_slot(i, j, self.num_nails as int)]@)
    }

    open spec fn inv(&self) -> bool {
        self.wf()
    }

    fn get(&self, nail1: usize, nail2: usize) -> (r: &Vec<Coord>)
        ensures
            pts_view(r@) == self.entry(nail1 as int, nail2 as int),
            self.entry(nail1 as int, nail2 as int) == self.entry(nail2 as int, nail1 as int),
    {
        let n = self.num_nails;
        proof {
            assert((nail1 as int) * n + nail2 < n * n && n * n <= 46340 * 46340) by (
            nonlinear_arith)
                requires
                    0 <= nail1 < n <= 46340,
                    0 <= nail2 < n,
            ;
            assert((nail2 as int) * n + nail1 < n * n) by (nonlinear_arith)
                requires
                    0 <= nail1 < n,
                    0 <= nail2 < n,
            ;
        }
        let k: usize = if nail1 < nail2 {
            nail1 * n + nail2
        } else {
            nail2 * n + nail1
        };
        &self.lines[k]
    }
}

/// Looking the same pair up in either order yields the same pixel list.
pub proof fn lemma_cache_get_symmetric(c: &BasicLinePixelCache, i: int, j: int)
    ensures
        c.entry(i, j) == c.entry(j, i),
{
    assert(pair_slot(i, j, c.num_nails as int) == pair_slot(j, i, c.num_nails as int));
}

/// The decimal digit character for a value in `[0, 9]`.
pub open spec fn digit_char(d: int) -> char {
    if d == 0 {
        '0'
    } else if d == 1 {
        '1'
    } else if d == 2 {
        '2'
    } else if d == 3 {
        '3'
    } else if d == 4 {
        '4'
    } else if d == 5 {
        '5'
    } else if d == 6 {
        '6'
    } else if d == 7 {
        '7'
    } else if d == 8 {
        '8'
    } else {
        '9'
    }
}

/// The decimal digits of a nonnegative integer, most significant first.
pub open spec fn dec_seq(n: int) -> Seq<char>
    decreases n,
{
    if n < 10 {
        seq![digit_char(n)]
    } else {
        dec_seq(n / 10).push(digit_char(n % 10))
    }
}

/// The decimal rendering of an integer, with a minus sign when
/// negative.
pub open spec fn int_str(n: int) -> Seq<char> {
    if n < 0 {
        seq!['-'] + dec_seq(-n)
    } else {
        dec_seq(n)
    }
}

/// The one-character string of a decimal digit.
fn digit_str(d: u32) -> (r: &'static str)
    requires
        d <= 9,
    ensures
        r@ == seq![digit_char(d as int)],
{
    let s: &'static str = match d {
        0 => "0",
        1 => "1",
        2 => "2",
        3 => "3",
        4 => "4",
        5 => "5",
        6 => "6",
        7 => "7",
        8 => "8",
        _ => "9",
    };
    proof {
        reveal_strlit("0");
        reveal_strlit("1");
        reveal_strlit("2");
        reveal_strlit("3");
        reveal_strlit("4");
        reveal_strlit("5");
        reveal_strlit("6");
        reveal_strlit("7");
        reveal_strlit("8");
        reveal_strlit("9");
        assert(s@ =~= seq![digit_char(d as int)]);
    }
    s
}

/// Append the decimal digits of a value, most significant first.
fn push_dec(s: &mut String, n: u32)
    ensures
        final(s)@ == old(s)@ + dec_seq(n as int),
    decreases n,
{
    if n < 10 {
        let d = digit_str(n);
        s.append(d);
        proof {
            assert(s@ =~= old(s)@ + dec_seq(n as int));
        }
    } else {
        push_dec(s, n / 10);
        let ghost mid = s@;
        let d = digit_str(n % 10);
        s.append(d);
        proof {
            assert(dec_seq(n as int) == dec_seq(n as int / 10).push(digit_char(n as int % 10)));
            assert(s@ =~= old(s)@ + dec_seq(n as int));
        }
    }
}

/// The decimal rendering of an `i32`: its digits, preceded by a minus
/// sign when negative.
fn i32_to_string(v: i32) -> (r: String)
    ensures
        r@ == int_str(v as int),
{
    if v >= 0 {
        let mut s = String::new();
        push_dec(&mut s, v as u32);
        proof {
            assert(s@ =~= int_str(v as int));
        }
        s
    } else {
        let mut s = String::from_str("-");
        proof {
            reveal_strlit("-");
        }
        let mag: u32 = (-(v as i64)) as u32;
        push_dec(&mut s, mag);
        proof {
            assert(s@ =~= seq!['-'] + dec_seq(-(v as int)));
            assert(s@ =~= int_str(v as int));
        }
        s
    }
}

/// The cache filename derived from a nail layout: the bounding extents
/// of the first two nails, or a fixed name for an empty layout.
pub open spec fn filename_spec(coords: Seq<Coord>) -> Seq<char> {
    if coords.len() == 0 {
        "empty_nails.json"@
    } else {
        let c1 = if coords.len() >= 2 {
            coords[1]
        } else {
            coords[0]
        };
        let mnx = if coords[0].x <= c1.x {
            coords[0].x as int
        } else {
            c1.x as int
        };
        let mny = if coords[0].y <= c1.y {
            coords[0].y as int
        } else {
            c1.y as int
        };
        let mxx = if coords[0].x >= c1.x {
            coords[0].x as int
        } else {
            c1.x as int
        };
        let mxy = if coords[0].y >= c1.y {
            coords[0].y as int
        } else {
            c1.y as int
        };
        int_str(mnx) + ","@ + int_str(mny) + "|"@ + int_str(mxx) + ","@ + int_str(mxy) + ".json"@
    }
}

impl BasicLinePixelCache {
    /// Generates a unique filename based on the min and max nail
    /// coordinates.
    pub fn generate_filename(nail_coords: &Vec<Coord>) -> (r: String)
        ensures
            r@ == filename_spec(nail_coords@),
    {
        if nail_coords.len() == 0 {
            return String::from_str("empty_nails.json");
        }
        let c0 = nail_coords[0];
        let c1 = if nail_coords.len() >= 2 {
            nail_coords[1]
        } else {
            nail_coords[0]
        };
        let mnx: i32 = if c0.x <= c1.x {
            c0.x
        } else {
            c1.x
        };
        let mny: i32 = if c0.y <= c1.y {
            c0.y
        } else {
            c1.y
        };
        let mxx: i32 = if c0.x >= c1.x {
            c0.x
        } else {
            c1.x
        };
        let mxy: i32 = if c0.y >= c1.y {
            c0.y
        } else {
            c1.y
        };
        let mut s = i32_to_string(mnx);
        s.append(",");
        let sy = i32_to_string(mny);
        s.append(sy.as_str());
        s.append("|");
        let sxx = i32_to_string(mxx);
        s.append(sxx.as_str());
        s.append(",");
        let sxy = i32_to_string(mxy);
        s.append(sxy.as_str());
        s.append(".json");
        s
    }
}

} // verus!
