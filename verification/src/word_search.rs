use vstd::prelude::*;
use crate::coords::Coordinates;
use crate::grid::grid_wf;

verus! {

/// The x step of search direction d: the four axis directions, then the
/// four diagonals.
pub open spec fn dir_dx(d: int) -> int {
    if d == 0 {
        1
    } else if d == 1 {
        -1
    } else if d == 2 {
        0
    } else if d == 3 {
        0
    } else if d == 4 {
        1
    } else if d == 5 {
        -1
    } else if d == 6 {
        1
    } else {
        -1
    }
}

/// The y step of search direction d.
pub open spec fn dir_dy(d: int) -> int {
    if d == 0 {
        0
    } else if d == 1 {
        0
    } else if d == 2 {
        1
    } else if d == 3 {
        -1
    } else if d == 4 {
        1
    } else if d == 5 {
        -1
    } else if d == 6 {
        -1
    } else {
        1
    }
}

/// The i-th letter of the word being searched.
pub open spec fn xmas_char(i: int) -> char {
    if i == 0 {
        'X'
    } else if i == 1 {
        'M'
    } else if i == 2 {
        'A'
    } else {
        'S'
    }
}

/// Step i of the word check: the i-th cell along d from (x, y) is on the
/// grid and holds the i-th letter.
pub open spec fn xmas_ok_at(g: Seq<Vec<char>>, x: int, y: int, d: int, i: int) -> bool {
    &&& 0 <= x + i * dir_dx(d) < g[0]@.len()
    &&& 0 <= y + i * dir_dy(d) < g.len()
    &&& g[y + i * dir_dy(d)]@[x + i * dir_dx(d)] == xmas_char(i)
}

/// The word reads from cell (x, y) along direction d, staying on the grid.
pub open spec fn xmas_at(g: Seq<Vec<char>>, x: int, y: int, d: int) -> bool {
    forall|i: int| 0 <= i < 4 ==> #[trigger] xmas_ok_at(g, x, y, d, i)
}

/// Hits among the first dn directions out of cell (x, y).
pub open spec fn xmas_from_cell(g: Seq<Vec<char>>, x: int, y: int, dn: int) -> int
    decreases dn,
{
    if dn <= 0 {
        0
    } else {
        xmas_from_cell(g, x, y, dn - 1) + (if xmas_at(g, x, y, dn - 1) {
            1int
        } else {
            0int
        })
    }
}

/// Hits in row y, over the first xn cells.
pub open spec fn xmas_in_row(g: Seq<Vec<char>>, y: int, xn: int) -> int
    decreases xn,
{
    if xn <= 0 {
        0
    } else {
        xmas_in_row(g, y, xn - 1) + xmas_from_cell(g, xn - 1, y, 8)
    }
}

/// Hits in the first yn rows.
pub open spec fn xmas_count(g: Seq<Vec<char>>, yn: int) -> int
    decreases yn,
{
    if yn <= 0 {
        0
    } else {
        xmas_count(g, yn - 1) + xmas_in_row(g, yn - 1, g[0]@.len() as int)
    }
}

/// The eight search step vectors, axes before diagonals.
pub fn all_directions() -> (r: Vec<Coordinates>)
    ensures
        r@.len() == 8,
        forall|d: int|
            0 <= d < 8 ==> (#[trigger] r@[d]).x == dir_dx(d) && r@[d].y == dir_dy(d),
{
    let mut r: Vec<Coordinates> = Vec::new();
    r.push(Coordinates { x: 1, y: 0 });
    r.push(Coordinates { x: -1, y: 0 });
    r.push(Coordinates { x: 0, y: 1 });
    r.push(Coordinates { x: 0, y: -1 });
    r.push(Coordinates { x: 1, y: 1 });
    r.push(Coordinates { x: -1, y: -1 });
    r.push(Coordinates { x: 1, y: -1 });
    r.push(Coordinates { x: -1, y: 1 });
    r
}

/// Does the word read from (x, y) along direction d?
pub fn check_xmas_from_coordinate(matrix: &Vec<Vec<char>>, x: usize, y: usize, d: usize) -> (r:
    bool)
    requires
        grid_wf(matrix@),
        x < matrix@[0]@.len(),
        y < matrix@.len(),
        d < 8,
        matrix@.len() <= i64::MAX - 4,
        matrix@[0]@.len() <= i64::MAX - 4,
    ensures
        r == xmas_at(matrix@, x as int, y as int, d as int),
{
    let ghost g = matrix@;
    let w = matrix[0].len() as i64;
    let h = matrix.len() as i64;
    let dirs = all_directions();
    let step = dirs[d];
    let mut i: usize = 0;
    while i < 4
        invariant
            g == matrix@,
            grid_wf(g),
            x < g[0]@.len(),
            y < g.len(),
            d < 8,
            w == g[0]@.len(),
            h == g.len(),
            h <= i64::MAX - 4,
            w <= i64::MAX - 4,
            step.x == dir_dx(d as int),
            step.y == dir_dy(d as int),
            i <= 4,
            forall|ii: int|
                0 <= ii < i ==> #[trigger] xmas_ok_at(g, x as int, y as int, d as int, ii),
        decreases 4 - i,
    {
        let nx = x as i64 + (i as i64) * step.x;
        let ny = y as i64 + (i as i64) * step.y;
        proof {
            assert(nx == x + i * dir_dx(d as int));
            assert(ny == y + i * dir_dy(d as int));
        }
        if !(0 <= nx && nx < w && 0 <= ny && ny < h) {
            proof {
                assert(!xmas_at(g, x as int, y as int, d as int)) by {
                    if xmas_at(g, x as int, y as int, d as int) {
                        assert(xmas_ok_at(g, x as int, y as int, d as int, i as int));
                    }
                }
            }
            return false;
        }
        let want = if i == 0 {
            'X'
        } else if i == 1 {
            'M'
        } else if i == 2 {
            'A'
        } else {
            'S'
        };
        let hu = matrix.len();
        let nyu = ny as usize;
        let row = &matrix[nyu];
        let wu = row.len();
        let nxu = nx as usize;
        proof {
            assert(hu == g.len());
            assert(wu == g[0]@.len());
            assert(nyu == ny as int);
            assert(nxu == nx as int);
        }
        if row[nxu] != want {
            proof {
                assert(want == xmas_char(i as int));
                assert(!xmas_at(g, x as int, y as int, d as int)) by {
                    if xmas_at(g, x as int, y as int, d as int) {
                        assert(xmas_ok_at(g, x as int, y as int, d as int, i as int));
                    }
                }
            }
            return false;
        }
        proof {
            assert(want == xmas_char(i as int));
            assert(g[ny as int]@[nx as int] == want);
            assert(xmas_ok_at(g, x as int, y as int, d as int, i as int));
        }
        i += 1;
    }
    true
}

/// How often the word appears in the grid, counting every start cell and
/// every one of the eight directions.
pub fn find_xmas_times(matrix: &Vec<Vec<char>>) -> (r: usize)
    requires
        grid_wf(matrix@),
        matrix@.len() <= i64::MAX - 4,
        matrix@[0]@.len() <= i64::MAX - 4,
        xmas_count(matrix@, matrix@.len() as int) <= usize::MAX,
    ensures
        r == xmas_count(matrix@, matrix@.len() as int),
{
    let ghost g = matrix@;
    let w = matrix[0].len();
    let h = matrix.len();
    let mut cnt: usize = 0;
    let mut y: usize = 0;
    proof {
        lemma_xmas_count_bounds(g, 0, h as int);
    }
    while y < h
        invariant
            g == matrix@,
            grid_wf(g),
            w == g[0]@.len(),
            h == g.len(),
            h <= i64::MAX - 4,
            w <= i64::MAX - 4,
            y <= h,
            cnt == xmas_count(g, y as int),
            xmas_count(g, h as int) <= usize::MAX,
            cnt <= xmas_count(g, h as int),
        decreases h - y,
    {
        let mut x: usize = 0;
        while x < w
            invariant
                g == matrix@,
                grid_wf(g),
                w == g[0]@.len(),
                h == g.len(),
                h <= i64::MAX - 4,
                w <= i64::MAX - 4,
                y < h,
                x <= w,
                cnt == xmas_count(g, y as int) + xmas_in_row(g, y as int, x as int),
                xmas_count(g, h as int) <= usize::MAX,
            decreases w - x,
        {
            let mut d: usize = 0;
            let mut hits: usize = 0;
            while d < 8
                invariant
                    g == matrix@,
                    grid_wf(g),
                    w == g[0]@.len(),
                    h == g.len(),
                    h <= i64::MAX - 4,
                    w <= i64::MAX - 4,
                    y < h,
                    x < w,
                    d <= 8,
                    hits == xmas_from_cell(g, x as int, y as int, d as int),
                    hits <= d,
                decreases 8 - d,
            {
                if check_xmas_from_coordinate(matrix, x, y, d) {
                    hits += 1;
                }
                d += 1;
            }
            proof {
                lemma_cell_rest_step(g, y as int, x as int);
                lemma_row_monotone(g, y as int, x + 1, w as int);
                lemma_rest_row_done(g, y as int);
                lemma_count_monotone(g, y + 1, h as int);
                assert(xmas_count(g, y as int) >= 0) by {
                    lemma_count_monotone(g, 0, y as int);
                }
            }
            cnt = cnt + hits;
            x += 1;
        }
        proof {
            lemma_rest_row_done(g, y as int);
            lemma_count_monotone(g, y + 1, h as int);
        }
        y += 1;
    }
    cnt
}

proof fn lemma_from_cell_nonneg(g: Seq<Vec<char>>, x: int, y: int, dn: int)
    ensures
        xmas_from_cell(g, x, y, dn) >= 0,
    decreases dn,
{
    if dn > 0 {
        lemma_from_cell_nonneg(g, x, y, dn - 1);
    }
}

proof fn lemma_row_monotone(g: Seq<Vec<char>>, y: int, x1: int, x2: int)
    requires
        0 <= x1 <= x2,
    ensures
        xmas_in_row(g, y, x1) <= xmas_in_row(g, y, x2),
    decreases x2 - x1,
{
    if x1 < x2 {
        lemma_row_monotone(g, y, x1, x2 - 1);
        lemma_from_cell_nonneg(g, x2 - 1, y, 8);
    }
}

proof fn lemma_count_monotone(g: Seq<Vec<char>>, y1: int, y2: int)
    requires
        0 <= y1 <= y2,
    ensures
        xmas_count(g, y1) <= xmas_count(g, y2),
    decreases y2 - y1,
{
    if y1 < y2 {
        lemma_count_monotone(g, y1, y2 - 1);
        lemma_row_monotone(g, y2 - 1, 0, g[0]@.len() as int);
    }
}

proof fn lemma_xmas_count_bounds(g: Seq<Vec<char>>, y1: int, y2: int)
    requires
        0 <= y1 <= y2,
    ensures
        xmas_count(g, y1) <= xmas_count(g, y2),
{
    lemma_count_monotone(g, y1, y2);
}

proof fn lemma_cell_rest_step(g: Seq<Vec<char>>, y: int, x: int)
    requires
        x >= 0,
    ensures
        xmas_in_row(g, y, x + 1) == xmas_in_row(g, y, x) + xmas_from_cell(g, x, y, 8),
{
}

proof fn lemma_rest_row_done(g: Seq<Vec<char>>, y: int)
    requires
        y >= 0,
    ensures
        xmas_count(g, y + 1) == xmas_count(g, y) + xmas_in_row(g, y, g[0]@.len() as int),
{
}

} // verus!
