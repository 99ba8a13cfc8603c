use vstd::prelude::*;
use crate::coords::Coordinates;

verus! {

/// All rows have the same length as the first row.
pub open spec fn rectangular<T>(m: Seq<Vec<T>>) -> bool {
    forall|i: int| 0 <= i < m.len() ==> (#[trigger] m[i])@.len() == m[0]@.len()
}

/// A well-formed grid: non-empty and rectangular.
pub open spec fn grid_wf<T>(m: Seq<Vec<T>>) -> bool {
    m.len() > 0 && rectangular(m)
}

/// Runtime check for `rectangular`, for callers that receive an untrusted
/// matrix.
pub fn is_rectangular<T>(m: &Vec<Vec<T>>) -> (r: bool)
    ensures
        r == rectangular(m@),
{
    let mut i: usize = 0;
    while i < m.len()
        invariant
            0 <= i <= m@.len(),
            forall|j: int| 0 <= j < i ==> (#[trigger] m@[j])@.len() == m@[0]@.len(),
        decreases m@.len() - i,
    {
        if m[i].len() != m[0].len() {
            return false;
        }
        i += 1;
    }
    true
}

/// Width and height of a rectangular matrix, packed as a coordinate.
pub fn get_field_size<T>(matrix: &Vec<Vec<T>>) -> (r: Coordinates)
    requires
        grid_wf(matrix@),
        matrix@.len() <= i64::MAX,
        matrix@[0]@.len() <= i64::MAX,
    ensures
        r.x == matrix@[0]@.len(),
        r.y == matrix@.len(),
{
    let width = matrix[0].len();
    let height = matrix.len();
    Coordinates { x: width as i64, y: height as i64 }
}

/// Every cell of the rectangle [0, bounds.x) x [0, bounds.y) in row-major
/// order; empty when either side is not positive.
pub fn coords_iter(bounds: Coordinates) -> (r: Vec<Coordinates>)
    requires
        bounds.x * bounds.y <= usize::MAX,
    ensures
        bounds.x <= 0 || bounds.y <= 0 ==> r@.len() == 0,
        bounds.x > 0 && bounds.y > 0 ==> r@.len() == bounds.x * bounds.y,
        forall|yy: int, xx: int|
            0 <= yy < bounds.y && 0 <= xx < bounds.x ==> #[trigger] r@[yy * bounds.x + xx]
                == (Coordinates { x: xx as i64, y: yy as i64 }),
{
    if bounds.x <= 0 || bounds.y <= 0 {
        return Vec::new();
    }
    let w = bounds.x;
    let h = bounds.y;
    let mut r: Vec<Coordinates> = Vec::new();
    let mut y: i64 = 0;
    while y < h
        invariant
            0 <= y <= h,
            0 < w,
            0 < h,
            w * h <= usize::MAX,
            r@.len() == y * w,
            forall|yy: int, xx: int|
                0 <= yy < y && 0 <= xx < w ==> #[trigger] r@[yy * w + xx] == (Coordinates {
                    x: xx as i64,
                    y: yy as i64,
                }),
        decreases h - y,
    {
        let mut x: i64 = 0;
        proof {
            lemma_row_major_bound(y as int, w as int, h as int);
        }
        while x < w
            invariant
                0 <= x <= w,
                0 <= y < h,
                0 < w,
                0 < h,
                w * h <= usize::MAX,
                (y + 1) * w <= w * h,
                r@.len() == y * w + x,
                forall|yy: int, xx: int|
                    0 <= yy < y && 0 <= xx < w ==> #[trigger] r@[yy * w + xx] == (Coordinates {
                        x: xx as i64,
                        y: yy as i64,
                    }),
                forall|xx: int|
                    0 <= xx < x ==> #[trigger] r@[y * w + xx] == (Coordinates {
                        x: xx as i64,
                        y: y as i64,
                    }),
            decreases w - x,
        {
            assert(y * w + x < (y + 1) * w) by (nonlinear_arith)
                requires
                    0 <= x < w,
            ;
            r.push(Coordinates { x, y });
            proof {
                assert forall|yy: int, xx: int| 0 <= yy < y && 0 <= xx < w implies #[trigger] (yy
                    * w + xx) < y * w by {
                    assert(yy * w + xx < y * w) by (nonlinear_arith)
                        requires
                            0 <= yy < y,
                            0 <= xx < w,
                    ;
                }
            }
            x += 1;
        }
        y += 1;
        assert(y * w == (y - 1) * w + w) by (nonlinear_arith);
        assert forall|yy: int, xx: int| 0 <= yy < y && 0 <= xx < w implies #[trigger] r@[yy * w
            + xx] == (Coordinates { x: xx as i64, y: yy as i64 }) by {
            if yy < y - 1 {
                assert(yy * w + xx < (y - 1) * w) by (nonlinear_arith)
                    requires
                        0 <= xx < w,
                        yy < y - 1,
                        0 <= yy,
                ;
            }
        }
    }
    proof {
        assert(r@.len() == h * w);
        vstd::arithmetic::mul::lemma_mul_is_commutative(w as int, h as int);
    }
    r
}

/// A prefix of full rows stays within the cell count of the whole grid.
proof fn lemma_row_major_bound(y: int, w: int, h: int)
    requires
        0 <= y < h,
        0 < w,
    ensures
        (y + 1) * w <= w * h,
{
    assert((y + 1) * w <= h * w) by (nonlinear_arith)
        requires
            y + 1 <= h,
            0 < w,
    ;
    vstd::arithmetic::mul::lemma_mul_is_commutative(w, h);
}

/// The character at the given coordinates, when they address a cell.
pub fn get_char_at(matrix: &Vec<Vec<char>>, coords: Coordinates) -> (r: Option<char>)
    ensures
        r == (if 0 <= coords.y < matrix@.len() && 0 <= coords.x < matrix@[coords.y as int]@.len() {
            Some(matrix@[coords.y as int]@[coords.x as int])
        } else {
            None::<char>
        }),
{
    if coords.y < 0 || coords.x < 0 {
        return None;
    }
    if coords.y as u64 >= matrix.len() as u64 {
        return None;
    }
    let row = &matrix[coords.y as usize];
    if coords.x as u64 >= row.len() as u64 {
        return None;
    }
    Some(row[coords.x as usize])
}

} // verus!
