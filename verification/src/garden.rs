use vstd::prelude::*;
use crate::coords::Coordinates;
use crate::grid::grid_wf;

verus! {

// Cells of a rectangular symbol grid are addressed by their row-major index
// ("id"): the cell (x, y) has id y * width + x.  A region is a maximal set of
// cells connected through 4-directional steps between equal symbols.
pub open spec fn width(g: Seq<Vec<char>>) -> int {
    g[0]@.len() as int
}

pub open spec fn height(g: Seq<Vec<char>>) -> int {
    g.len() as int
}

pub open spec fn ncells(g: Seq<Vec<char>>) -> int {
    width(g) * height(g)
}

pub open spec fn valid_id(g: Seq<Vec<char>>, id: int) -> bool {
    0 <= id < ncells(g)
}

pub open spec fn sym_at(g: Seq<Vec<char>>, id: int) -> char {
    g[id / width(g)]@[id % width(g)]
}

/// Direction d (0 left, 1 right, 2 up, 3 down) from cell id leads to an
/// in-grid neighbour carrying the same symbol.
pub open spec fn nbr_ok(g: Seq<Vec<char>>, id: int, d: int) -> bool {
    let w = width(g);
    if d == 0 {
        id % w >= 1 && sym_at(g, id - 1) == sym_at(g, id)
    } else if d == 1 {
        id % w < w - 1 && sym_at(g, id + 1) == sym_at(g, id)
    } else if d == 2 {
        id - w >= 0 && sym_at(g, id - w) == sym_at(g, id)
    } else {
        id + w < ncells(g) && sym_at(g, id + w) == sym_at(g, id)
    }
}

/// The id one step in direction d from id.
pub open spec fn nbr_id(g: Seq<Vec<char>>, id: int, d: int) -> int {
    let w = width(g);
    if d == 0 {
        id - 1
    } else if d == 1 {
        id + 1
    } else if d == 2 {
        id - w
    } else {
        id + w
    }
}

/// One flood-fill step: b is an in-grid 4-neighbour of a with a's symbol.
pub open spec fn adj_step(g: Seq<Vec<char>>, a: int, b: int) -> bool {
    valid_id(g, a) && exists|d: int| 0 <= d < 4 && #[trigger] nbr_ok(g, a, d) && b == nbr_id(g, a, d)
}

/// A non-empty walk through the grid along flood-fill steps.
pub open spec fn is_path(g: Seq<Vec<char>>, p: Seq<int>) -> bool {
    p.len() > 0 && valid_id(g, p[0]) && forall|i: int|
        0 <= i < p.len() - 1 ==> adj_step(g, #[trigger] p[i], p[i + 1])
}

/// Two cells lie in the same region.
#[verifier::opaque]
pub open spec fn connected(g: Seq<Vec<char>>, a: int, b: int) -> bool {
    exists|p: Seq<int>| #[trigger] is_path(g, p) && p.first() == a && p.last() == b
}

/// Number of open sides of a cell: grid boundary or a differing symbol.
pub open spec fn cell_perimeter(g: Seq<Vec<char>>, id: int) -> int {
    ind(!nbr_ok(g, id, 0)) + ind(!nbr_ok(g, id, 1)) + ind(!nbr_ok(g, id, 2)) + ind(
        !nbr_ok(g, id, 3),
    )
}

pub open spec fn ind(b: bool) -> int {
    if b {
        1
    } else {
        0
    }
}

/// Cells among the first n ids that lie in the region of root.
pub open spec fn region_area_upto(g: Seq<Vec<char>>, root: int, n: int) -> int
    decreases n,
{
    if n <= 0 {
        0
    } else {
        region_area_upto(g, root, n - 1) + ind(connected(g, root, n - 1))
    }
}

/// The area of the region of root.
pub open spec fn region_area(g: Seq<Vec<char>>, root: int) -> int {
    region_area_upto(g, root, ncells(g))
}

/// Open sides summed over the region cells among the first n ids.
pub open spec fn region_perimeter_upto(g: Seq<Vec<char>>, root: int, n: int) -> int
    decreases n,
{
    if n <= 0 {
        0
    } else {
        region_perimeter_upto(g, root, n - 1) + if connected(g, root, n - 1) {
            cell_perimeter(g, n - 1)
        } else {
            0
        }
    }
}

/// The perimeter of the region of root.
pub open spec fn region_perimeter(g: Seq<Vec<char>>, root: int) -> int {
    region_perimeter_upto(g, root, ncells(g))
}

// ---------------------------------------------------------------------------
// Basic facts about connectivity.
// ---------------------------------------------------------------------------
pub proof fn lemma_connected_refl(g: Seq<Vec<char>>, a: int)
    requires
        valid_id(g, a),
    ensures
        connected(g, a, a),
{
    reveal(connected);
    let p = seq![a];
    assert(is_path(g, p));
    assert(p.first() == a && p.last() == a);
}

pub proof fn lemma_path_cells_valid(g: Seq<Vec<char>>, p: Seq<int>)
    requires
        is_path(g, p),
    ensures
        forall|i: int| 0 <= i < p.len() ==> valid_id(g, #[trigger] p[i]),
        forall|i: int| 0 <= i < p.len() ==> sym_at(g, #[trigger] p[i]) == sym_at(g, p[0]),
    decreases p.len(),
{
    if p.len() > 1 {
        assert(adj_step(g, p[0], p[1]));
        let d = choose|d: int| 0 <= d < 4 && #[trigger] nbr_ok(g, p[0], d) && p[1] == nbr_id(
            g,
            p[0],
            d,
        );
        lemma_step_valid(g, p[0], d);
        let q = p.drop_first();
        assert(is_path(g, q)) by {
            assert(valid_id(g, q[0]));
            assert forall|i: int| 0 <= i < q.len() - 1 implies #[trigger] adj_step(
                g,
                q[i],
                q[i + 1],
            ) by {
                assert(adj_step(g, p[i + 1], p[i + 2]));
            }
        }
        lemma_path_cells_valid(g, q);
        assert forall|i: int| 0 <= i < p.len() implies valid_id(g, #[trigger] p[i]) by {
            if i >= 1 {
                assert(q[i - 1] == p[i]);
            }
        }
        assert forall|i: int| 0 <= i < p.len() implies sym_at(g, #[trigger] p[i]) == sym_at(
            g,
            p[0],
        ) by {
            if i >= 1 {
                assert(q[i - 1] == p[i]);
                assert(sym_at(g, q[i - 1]) == sym_at(g, q[0]));
            }
        }
    }
}

/// A flood-fill step from a valid cell reaches a valid cell of equal symbol.
pub proof fn lemma_step_valid(g: Seq<Vec<char>>, a: int, d: int)
    requires
        valid_id(g, a),
        0 <= d < 4,
        nbr_ok(g, a, d),
    ensures
        valid_id(g, nbr_id(g, a, d)),
        sym_at(g, nbr_id(g, a, d)) == sym_at(g, a),
{
    let w = width(g);
    let h = height(g);
    assert(w > 0 && h > 0) by (nonlinear_arith)
        requires
            0 <= a < w * h,
            w >= 0,
            h >= 0,
    ;
    vstd::arithmetic::div_mod::lemma_fundamental_div_mod(a, w);
    vstd::arithmetic::div_mod::lemma_mod_division_less_than_divisor(a, w);
    if d == 0 {
        let b = nbr_id(g, a, d);
        assert(0 <= b < ncells(g));
    } else if d == 1 {
        let b = nbr_id(g, a, d);
        let q = a / w;
        let r = a % w;
        assert(q < h) by (nonlinear_arith)
            requires
                a == w * q + r,
                0 <= r < w,
                a < w * h,
                w > 0,
        ;
        assert(0 <= b < w * h) by (nonlinear_arith)
            requires
                b == a + 1,
                a == w * q + r,
                0 <= r < w - 1,
                q <= h - 1,
                w > 0,
                a >= 0,
        ;
    } else {
        let b = nbr_id(g, a, d);
        assert(0 <= b < ncells(g));
    }
}

pub proof fn lemma_connected_step(g: Seq<Vec<char>>, a: int, b: int)
    requires
        adj_step(g, a, b),
    ensures
        connected(g, a, b),
{
    reveal(connected);
    let p = seq![a, b];
    assert(is_path(g, p)) by {
        assert(p[0] == a && p[1] == b);
        assert(adj_step(g, p[0], p[1]));
    }
    assert(p.first() == a && p.last() == b);
}

pub proof fn lemma_connected_trans(g: Seq<Vec<char>>, a: int, b: int, c: int)
    requires
        connected(g, a, b),
        connected(g, b, c),
    ensures
        connected(g, a, c),
{
    reveal(connected);
    let p1 = choose|p: Seq<int>| #[trigger] is_path(g, p) && p.first() == a && p.last() == b;
    let p2 = choose|p: Seq<int>| #[trigger] is_path(g, p) && p.first() == b && p.last() == c;
    let p = p1 + p2.drop_first();
    if p2.len() == 1 {
        assert(p =~= p1);
        assert(p.first() == a && p.last() == c);
    } else {
        assert(is_path(g, p)) by {
            assert(p[0] == p1[0]);
            assert forall|i: int| 0 <= i < p.len() - 1 implies #[trigger] adj_step(
                g,
                p[i],
                p[i + 1],
            ) by {
                if i < p1.len() - 1 {
                    assert(p[i] == p1[i] && p[i + 1] == p1[i + 1]);
                    assert(adj_step(g, p1[i], p1[i + 1]));
                } else if i == p1.len() - 1 {
                    assert(p[i] == p1.last() && p[i + 1] == p2[1]);
                    assert(adj_step(g, p2[0], p2[1]));
                } else {
                    let j = i - p1.len();
                    assert(p[i] == p2[j + 1] && p[i + 1] == p2[j + 2]);
                    assert(adj_step(g, p2[j + 1], p2[j + 2]));
                }
            }
        }
        assert(p.last() == p2.last());
    }
}

/// Every flood-fill step can be walked backwards.
pub proof fn lemma_step_sym(g: Seq<Vec<char>>, a: int, b: int)
    requires
        adj_step(g, a, b),
    ensures
        adj_step(g, b, a),
{
    let w = width(g);
    let h = height(g);
    let d = choose|d: int| 0 <= d < 4 && #[trigger] nbr_ok(g, a, d) && b == nbr_id(g, a, d);
    lemma_step_valid(g, a, d);
    assert(w > 0) by (nonlinear_arith)
        requires
            0 <= a < w * h,
            w >= 0,
            h >= 0,
    ;
    vstd::arithmetic::div_mod::lemma_fundamental_div_mod(a, w);
    vstd::arithmetic::div_mod::lemma_mod_division_less_than_divisor(a, w);
    if d == 0 {
        assert(b == a - 1);
        assert(b % w == a % w - 1) by (nonlinear_arith)
            requires
                b == a - 1,
                a == w * (a / w) + a % w,
                1 <= a % w < w,
                w > 0,
        ;
        assert(nbr_ok(g, b, 1));
        assert(a == nbr_id(g, b, 1));
    } else if d == 1 {
        assert(b == a + 1);
        assert(b % w == a % w + 1) by (nonlinear_arith)
            requires
                b == a + 1,
                a == w * (a / w) + a % w,
                0 <= a % w < w - 1,
                w > 0,
        ;
        assert(nbr_ok(g, b, 0));
        assert(a == nbr_id(g, b, 0));
    } else if d == 2 {
        assert(b == a - w);
        assert(nbr_ok(g, b, 3));
        assert(a == nbr_id(g, b, 3));
    } else {
        assert(b == a + w);
        assert(valid_id(g, b));
        assert(nbr_ok(g, b, 2));
        assert(a == nbr_id(g, b, 2));
    }
}

pub proof fn lemma_connected_sym(g: Seq<Vec<char>>, a: int, b: int)
    requires
        connected(g, a, b),
    ensures
        connected(g, b, a),
{
    reveal(connected);
    let p = choose|p: Seq<int>| #[trigger] is_path(g, p) && p.first() == a && p.last() == b;
    lemma_path_reverse(g, p);
}

proof fn lemma_path_reverse(g: Seq<Vec<char>>, p: Seq<int>)
    requires
        is_path(g, p),
    ensures
        connected(g, p.last(), p.first()),
    decreases p.len(),
{
    reveal(connected);
    if p.len() == 1 {
        lemma_connected_refl(g, p[0]);
    } else {
        let q = p.drop_last();
        assert(is_path(g, q)) by {
            assert(valid_id(g, q[0]));
            assert forall|i: int| 0 <= i < q.len() - 1 implies #[trigger] adj_step(
                g,
                q[i],
                q[i + 1],
            ) by {
                assert(adj_step(g, p[i], p[i + 1]));
            }
        }
        lemma_path_reverse(g, q);
        assert(adj_step(g, p[p.len() - 2], p[p.len() - 1]));
        lemma_step_sym(g, p[p.len() - 2], p[p.len() - 1]);
        lemma_connected_step(g, p.last(), q.last());
        lemma_connected_trans(g, p.last(), q.last(), p.first());
    }
}

/// Connected cells carry the same symbol.
pub proof fn lemma_connected_same_symbol(g: Seq<Vec<char>>, a: int, b: int)
    requires
        connected(g, a, b),
    ensures
        valid_id(g, a),
        sym_at(g, a) == sym_at(g, b),
{
    reveal(connected);
    let p = choose|p: Seq<int>| #[trigger] is_path(g, p) && p.first() == a && p.last() == b;
    lemma_path_cells_valid(g, p);
    assert(p[p.len() - 1] == b);
}

/// A set of cells that contains a cell and is closed under flood-fill steps
/// contains the cell's whole region.
pub proof fn lemma_closed_set_contains_region(
    g: Seq<Vec<char>>,
    m: Set<int>,
    start: int,
    c: int,
)
    requires
        m.contains(start),
        forall|a: int, b: int| m.contains(a) && #[trigger] adj_step(g, a, b) ==> m.contains(b),
        connected(g, start, c),
    ensures
        m.contains(c),
{
    reveal(connected);
    let p = choose|p: Seq<int>| #[trigger] is_path(g, p) && p.first() == start && p.last() == c;
    lemma_closed_path_induct(g, m, p);
}

proof fn lemma_closed_path_induct(g: Seq<Vec<char>>, m: Set<int>, p: Seq<int>)
    requires
        is_path(g, p),
        m.contains(p.first()),
        forall|a: int, b: int| m.contains(a) && #[trigger] adj_step(g, a, b) ==> m.contains(b),
    ensures
        m.contains(p.last()),
    decreases p.len(),
{
    if p.len() > 1 {
        let q = p.drop_last();
        assert(is_path(g, q)) by {
            assert(valid_id(g, q[0]));
            assert forall|i: int| 0 <= i < q.len() - 1 implies #[trigger] adj_step(
                g,
                q[i],
                q[i + 1],
            ) by {
                assert(adj_step(g, p[i], p[i + 1]));
            }
        }
        lemma_closed_path_induct(g, m, q);
        assert(adj_step(g, p[p.len() - 2], p[p.len() - 1]));
    }
}


// ---------------------------------------------------------------------------
// Executable helpers on the id addressing.
// ---------------------------------------------------------------------------
/// Positive dimensions follow from the existence of a valid cell.
pub(crate) proof fn lemma_dims_pos(g: Seq<Vec<char>>, id: int)
    requires
        valid_id(g, id),
    ensures
        width(g) > 0,
        height(g) > 0,
        id / width(g) < height(g),
        0 <= id % width(g) < width(g),
{
    assert(width(g) > 0 && height(g) > 0) by (nonlinear_arith)
        requires
            0 <= id < width(g) * height(g),
            width(g) >= 0,
            height(g) >= 0,
    ;
    vstd::arithmetic::div_mod::lemma_multiply_divide_lt(id, width(g), height(g));
    vstd::arithmetic::div_mod::lemma_mod_division_less_than_divisor(id, width(g));
    vstd::arithmetic::div_mod::lemma_div_pos_is_pos(id, width(g));
}

/// The symbol at a cell id.
pub(crate) fn sym_of(matrix: &Vec<Vec<char>>, id: usize) -> (c: char)
    requires
        grid_wf(matrix@),
        valid_id(matrix@, id as int),
    ensures
        c == sym_at(matrix@, id as int),
{
    proof {
        lemma_dims_pos(matrix@, id as int);
    }
    let w = matrix[0].len();
    let row = id / w;
    let col = id % w;
    matrix[row][col]
}

/// The in-grid, equal-symbol neighbour of id in direction d, if any.
pub(crate) fn try_nbr(matrix: &Vec<Vec<char>>, id: usize, d: usize) -> (r: Option<usize>)
    requires
        grid_wf(matrix@),
        valid_id(matrix@, id as int),
        ncells(matrix@) <= usize::MAX,
        d < 4,
    ensures
        match r {
            Some(b) => nbr_ok(matrix@, id as int, d as int) && b == nbr_id(
                matrix@,
                id as int,
                d as int,
            ) && valid_id(matrix@, b as int),
            None => !nbr_ok(matrix@, id as int, d as int),
        },
{
    proof {
        lemma_dims_pos(matrix@, id as int);
    }
    let w = matrix[0].len();
    let h = matrix.len();
    proof {
        assert(w * h == ncells(matrix@)) by (nonlinear_arith)
            requires
                w == width(matrix@),
                h == height(matrix@),
        ;
        vstd::arithmetic::div_mod::lemma_fundamental_div_mod(id as int, w as int);
        assert(id >= id as int % (w as int)) by (nonlinear_arith)
            requires
                id as int == (w as int) * ((id as int) / (w as int)) + (id as int) % (w as int),
                (id as int) / (w as int) >= 0,
                w as int > 0,
        ;
    }
    let n = w * h;
    let col = id % w;
    let cand: Option<usize> = if d == 0 {
        if col >= 1 {
            Some(id - 1)
        } else {
            None
        }
    } else if d == 1 {
        if col + 1 < w {
            Some(id + 1)
        } else {
            None
        }
    } else if d == 2 {
        if id >= w {
            Some(id - w)
        } else {
            None
        }
    } else {
        if w < n - id {
            Some(id + w)
        } else {
            None
        }
    };
    match cand {
        None => None,
        Some(b) => {
            proof {
                if nbr_ok(matrix@, id as int, d as int) {
                    lemma_step_valid(matrix@, id as int, d as int);
                } else {
                    // validity of the candidate does not depend on the symbol:
                    // replay the range part of the step lemma
                    lemma_nbr_candidate_valid(matrix@, id as int, d as int);
                }
            }
            if sym_of(matrix, b) == sym_of(matrix, id) {
                Some(b)
            } else {
                None
            }
        },
    }
}

/// The side conditions of a direction alone put the candidate cell in range.
proof fn lemma_nbr_candidate_valid(g: Seq<Vec<char>>, id: int, d: int)
    requires
        valid_id(g, id),
        0 <= d < 4,
        d == 0 ==> id % width(g) >= 1,
        d == 1 ==> id % width(g) < width(g) - 1,
        d == 2 ==> id - width(g) >= 0,
        d == 3 ==> id + width(g) < ncells(g),
    ensures
        valid_id(g, nbr_id(g, id, d)),
{
    let w = width(g);
    let h = height(g);
    lemma_dims_pos(g, id);
    vstd::arithmetic::div_mod::lemma_fundamental_div_mod(id, w);
    if d == 1 {
        let q = id / w;
        let r = id % w;
        assert(0 <= id + 1 < w * h) by (nonlinear_arith)
            requires
                id == w * q + r,
                0 <= r < w - 1,
                0 <= q <= h - 1,
                w > 0,
                id >= 0,
        ;
    }
}

/// Number of open sides of one cell, counted at runtime.
fn cell_perimeter_exec(matrix: &Vec<Vec<char>>, id: usize) -> (p: usize)
    requires
        grid_wf(matrix@),
        valid_id(matrix@, id as int),
        ncells(matrix@) <= usize::MAX,
    ensures
        p == cell_perimeter(matrix@, id as int),
        p <= 4,
{
    let mut p: usize = 0;
    if try_nbr(matrix, id, 0).is_none() {
        p += 1;
    }
    if try_nbr(matrix, id, 1).is_none() {
        p += 1;
    }
    if try_nbr(matrix, id, 2).is_none() {
        p += 1;
    }
    if try_nbr(matrix, id, 3).is_none() {
        p += 1;
    }
    p
}

// ---------------------------------------------------------------------------
// Counting: sums over the cells a flood fill collected.
// ---------------------------------------------------------------------------
/// Sum of the open sides of the cells listed in s.
pub open spec fn seq_perimeter_sum(g: Seq<Vec<char>>, s: Seq<usize>) -> int
    decreases s.len(),
{
    if s.len() == 0 {
        0
    } else {
        seq_perimeter_sum(g, s.drop_last()) + cell_perimeter(g, s.last() as int)
    }
}

proof fn lemma_seq_perimeter_sum_remove(g: Seq<Vec<char>>, s: Seq<usize>, k: int)
    requires
        0 <= k < s.len(),
    ensures
        seq_perimeter_sum(g, s) == seq_perimeter_sum(g, s.remove(k)) + cell_perimeter(
            g,
            s[k] as int,
        ),
    decreases s.len(),
{
    if k == s.len() - 1 {
        assert(s.remove(k) =~= s.drop_last());
    } else {
        lemma_seq_perimeter_sum_remove(g, s.drop_last(), k);
        assert(s.remove(k).drop_last() =~= s.drop_last().remove(k));
        assert(s.remove(k).last() == s.last());
    }
}

proof fn lemma_remove_no_duplicates(s: Seq<usize>, k: int)
    requires
        s.no_duplicates(),
        0 <= k < s.len(),
    ensures
        s.remove(k).no_duplicates(),
        forall|v: usize| s.remove(k).contains(v) <==> s.contains(v) && v != s[k],
{
    let t = s.remove(k);
    assert forall|i: int, j: int| 0 <= i < j < t.len() implies t[i] != t[j] by {
        let si = if i < k { i } else { i + 1 };
        let sj = if j < k { j } else { j + 1 };
        assert(t[i] == s[si] && t[j] == s[sj]);
    }
    assert forall|v: usize| t.contains(v) implies s.contains(v) && v != s[k] by {
        let i = choose|i: int| 0 <= i < t.len() && t[i] == v;
        let si = if i < k { i } else { i + 1 };
        assert(s[si] == v);
    }
    assert forall|v: usize| s.contains(v) && v != s[k] implies t.contains(v) by {
        let i = choose|i: int| 0 <= i < s.len() && s[i] == v;
        if i < k {
            assert(t[i] == v);
        } else {
            assert(t[i - 1] == v);
        }
    }
}

/// A duplicate-free list holding exactly the region cells below n has the
/// region's partial area as its length and the partial perimeter as its sum.
pub(crate) proof fn lemma_region_sums(g: Seq<Vec<char>>, root: int, s: Seq<usize>, n: int)
    requires
        n >= 0,
        n <= usize::MAX + 1,
        s.no_duplicates(),
        forall|j: int| 0 <= j < s.len() ==> (#[trigger] s[j]) < n,
        forall|j: int| 0 <= j < s.len() ==> connected(g, root, #[trigger] s[j] as int),
        forall|id: int| 0 <= id < n && connected(g, root, id) ==> s.contains(id as usize),
    ensures
        s.len() == region_area_upto(g, root, n),
        seq_perimeter_sum(g, s) == region_perimeter_upto(g, root, n),
    decreases n,
{
    if n == 0 {
        assert(s.len() == 0) by {
            if s.len() > 0 {
                assert(s[0] < 0);
            }
        }
    } else {
        if connected(g, root, n - 1) {
            assert(s.contains((n - 1) as usize));
            let k = choose|k: int| 0 <= k < s.len() && s[k] == (n - 1) as usize;
            let t = s.remove(k);
            lemma_remove_no_duplicates(s, k);
            lemma_seq_perimeter_sum_remove(g, s, k);
            assert forall|j: int| 0 <= j < t.len() implies (#[trigger] t[j]) < n - 1 by {
                assert(t.contains(t[j]));
                assert(s.contains(t[j]) && t[j] != s[k]);
                let i = choose|i: int| 0 <= i < s.len() && s[i] == t[j];
            }
            assert forall|j: int| 0 <= j < t.len() implies connected(
                g,
                root,
                #[trigger] t[j] as int,
            ) by {
                assert(t.contains(t[j]));
                assert(s.contains(t[j]));
                let i = choose|i: int| 0 <= i < s.len() && s[i] == t[j];
            }
            assert forall|id: int| 0 <= id < n - 1 && connected(g, root, id) implies t.contains(
                id as usize,
            ) by {
                assert(s.contains(id as usize));
                assert(id as usize != s[k]);
            }
            lemma_region_sums(g, root, t, n - 1);
        } else {
            assert forall|j: int| 0 <= j < s.len() implies (#[trigger] s[j]) < n - 1 by {
                if s[j] == n - 1 {
                    assert(connected(g, root, s[j] as int));
                }
            }
            assert forall|id: int| 0 <= id < n - 1 && connected(g, root, id) implies s.contains(
                id as usize,
            ) by {
                assert(0 <= id < n);
            }
            lemma_region_sums(g, root, s, n - 1);
        }
    }
}

/// A duplicate-free list of ids below n has at most n entries.
pub(crate) proof fn lemma_bounded_nodup_len(s: Seq<usize>, n: int)
    requires
        n >= 0,
        s.no_duplicates(),
        forall|j: int| 0 <= j < s.len() ==> (#[trigger] s[j]) < n,
    ensures
        s.len() <= n,
{
    broadcast use vstd::set::group_set_axioms;

    let si = Seq::new(s.len(), |j: int| s[j] as int);
    assert(si.no_duplicates()) by {
        assert forall|i: int, j: int| 0 <= i < j < si.len() implies si[i] != si[j] by {
            assert(s[i] != s[j]);
        }
    }
    si.unique_seq_to_set();
    vstd::set_lib::lemma_int_range(0, n);
    assert(si.to_set().subset_of(vstd::set_lib::set_int_range(0, n))) by {
        assert forall|x: int| si.to_set().contains(x) implies vstd::set_lib::set_int_range(
            0,
            n,
        ).contains(x) by {
            let j = choose|j: int| 0 <= j < si.len() && si[j] == x;
            assert(s[j] < n);
        }
    }
    vstd::set_lib::lemma_len_subset(si.to_set(), vstd::set_lib::set_int_range(0, n));
}


// ---------------------------------------------------------------------------
// Flood fill.
// ---------------------------------------------------------------------------
/// Membership after a push.
proof fn lemma_push_contains<T>(s: Seq<T>, x: T)
    ensures
        forall|y: T| #[trigger] s.push(x).contains(y) ==> s.contains(y) || y == x,
        forall|y: T| #[trigger] s.contains(y) ==> s.push(x).contains(y),
        s.push(x).contains(x),
{
    assert forall|y: T| #[trigger] s.push(x).contains(y) implies s.contains(y) || y == x by {
        let k = choose|k: int| 0 <= k < s.push(x).len() && s.push(x)[k] == y;
        if k < s.len() {
            assert(s[k] == y);
        }
    }
    assert forall|y: T| #[trigger] s.contains(y) implies s.push(x).contains(y) by {
        let k = choose|k: int| 0 <= k < s.len() && s[k] == y;
        assert(s.push(x)[k] == y);
    }
    assert(s.push(x)[s.len() as int] == x);
}

/// Pushing a fresh element keeps a sequence duplicate-free.
proof fn lemma_push_nodup<T>(s: Seq<T>, x: T)
    requires
        s.no_duplicates(),
        !s.contains(x),
    ensures
        s.push(x).no_duplicates(),
{
    assert forall|i1: int, i2: int|
        0 <= i1 < i2 < s.push(x).len() implies s.push(x)[i1] != s.push(x)[i2] by {
        if i2 == s.len() {
            assert(s.push(x)[i1] == s[i1]);
            assert(s.contains(s[i1]));
        }
    }
}

/// The running state of a flood fill from `start`: `vis0` is the visited
/// map before the fill, `cells` the cells discovered so far (each once),
/// `stack` those whose neighbours are still to be checked.
#[verifier::opaque]
pub open spec fn flood_inv(
    g: Seq<Vec<char>>,
    vis0: Seq<bool>,
    visited: Seq<bool>,
    cells: Seq<usize>,
    stack: Seq<usize>,
    start: usize,
) -> bool {
    &&& grid_wf(g)
    &&& ncells(g) <= usize::MAX
    &&& vis0.len() == ncells(g)
    &&& valid_id(g, start as int)
    &&& !vis0[start as int]
    &&& (forall|a: int, b: int|
        0 <= a < ncells(g) && vis0[a] && #[trigger] adj_step(g, a, b) ==> vis0[b])
    &&& visited.len() == ncells(g)
    &&& (forall|id: int|
        0 <= id < ncells(g) ==> visited[id] == (vis0[id] || cells.contains(id as usize)))
    &&& cells.no_duplicates()
    &&& cells.contains(start)
    &&& cells.len() <= ncells(g)
    &&& (forall|j: int|
        0 <= j < cells.len() ==> valid_id(g, #[trigger] cells[j] as int) && connected(
            g,
            start as int,
            cells[j] as int,
        ) && !vis0[cells[j] as int])
    &&& stack.no_duplicates()
    &&& (forall|k: int| 0 <= k < stack.len() ==> cells.contains(#[trigger] stack[k]))
    &&& (forall|j: int, d: int|
        0 <= j < cells.len() && !stack.contains(cells[j]) && 0 <= d < 4 && #[trigger] nbr_ok(
            g,
            cells[j] as int,
            d,
        ) ==> visited[nbr_id(g, cells[j] as int, d)])
}

/// Mark the unvisited neighbour b of cur and queue it.
#[verifier::rlimit(100)]
fn mark_and_push(
    matrix: &Vec<Vec<char>>,
    visited: &mut Vec<bool>,
    cells: &mut Vec<usize>,
    stack: &mut Vec<usize>,
    Ghost(vis0): Ghost<Seq<bool>>,
    start: usize,
    cur: usize,
    b: usize,
)
    requires
        flood_inv(matrix@, vis0, old(visited)@, old(cells)@, old(stack)@.push(cur), start),
        !old(stack)@.contains(cur),
        old(cells)@.contains(cur),
        valid_id(matrix@, cur as int),
        valid_id(matrix@, b as int),
        connected(matrix@, start as int, cur as int),
        adj_step(matrix@, cur as int, b as int),
        !old(visited)@[b as int],
    ensures
        flood_inv(matrix@, vis0, final(visited)@, final(cells)@, final(stack)@.push(cur), start),
        !final(stack)@.contains(cur),
        final(visited)@ == old(visited)@.update(b as int, true),
        final(cells)@ == old(cells)@.push(b),
        final(stack)@ == old(stack)@.push(b),
        final(cells)@.len() > old(cells)@.len(),
{
    let ghost g = matrix@;
    let ghost n = ncells(g);
    let ghost vis_entry = old(visited)@;
    let ghost cells_entry = old(cells)@;
    let ghost stack_entry = old(stack)@;
    proof {
        reveal(flood_inv);
        lemma_connected_step(g, cur as int, b as int);
        lemma_connected_trans(g, start as int, cur as int, b as int);
    }
    visited[b] = true;
    cells.push(b);
    stack.push(b);
    proof {
        reveal(flood_inv);
        lemma_push_contains(stack_entry, cur);
        assert(stack_entry.no_duplicates()) by {
            assert forall|i1: int, i2: int|
                0 <= i1 < i2 < stack_entry.len() implies stack_entry[i1] != stack_entry[i2] by {
                assert(stack_entry.push(cur)[i1] == stack_entry[i1]);
                assert(stack_entry.push(cur)[i2] == stack_entry[i2]);
            }
        }
        assert forall|k: int| 0 <= k < stack_entry.len() implies cells_entry.contains(
            #[trigger] stack_entry[k],
        ) by {
            assert(stack_entry.push(cur)[k] == stack_entry[k]);
        }
        assert(!cells_entry.contains(b));
        assert(cells@.no_duplicates()) by {
            assert forall|i1: int, i2: int|
                0 <= i1 < i2 < cells@.len() implies cells@[i1] != cells@[i2] by {
                if i2 == cells@.len() - 1 {
                    assert(cells@[i1] == cells_entry[i1]);
                    assert(cells_entry.contains(cells_entry[i1]));
                }
            }
        }
        lemma_bounded_nodup_len(cells@, n);
        lemma_push_contains(cells_entry, b);
        lemma_push_contains(stack_entry, b);
        assert(cells@.contains(start));
        assert(cells@.contains(cur));
        assert(cells@.contains(b));
        assert(b != cur);
        lemma_push_contains(stack@, cur);
        assert(stack@.push(cur).no_duplicates()) by {
            assert forall|i1: int, i2: int|
                0 <= i1 < i2 < stack@.push(cur).len() implies stack@.push(cur)[i1] != stack@.push(
                    cur,
                )[i2] by {
                let sc = stack@.push(cur);
                if i2 < sc.len() - 1 {
                    // both lie in stack@ == stack_entry.push(b)
                    if i2 == stack@.len() - 1 {
                        assert(sc[i1] == stack_entry[i1]);
                        assert(stack_entry.contains(stack_entry[i1]));
                        assert(sc[i2] == b);
                    } else {
                        assert(sc[i1] == stack_entry.push(cur)[i1]);
                        assert(sc[i2] == stack_entry.push(cur)[i2]);
                    }
                } else {
                    assert(sc[i2] == cur);
                    if i1 == stack@.len() - 1 {
                        assert(sc[i1] == b);
                    } else {
                        assert(sc[i1] == stack_entry[i1]);
                        assert(stack_entry.contains(stack_entry[i1]));
                        assert(stack_entry.push(cur).contains(stack_entry[i1]));
                    }
                }
            }
        }
        assert forall|k: int| 0 <= k < stack@.push(cur).len() implies cells@.contains(
            #[trigger] stack@.push(cur)[k],
        ) by {
            let sc = stack@.push(cur);
            if k == sc.len() - 1 {
                assert(sc[k] == cur);
            } else if k == stack@.len() - 1 {
                assert(sc[k] == b);
            } else {
                assert(sc[k] == stack_entry[k]);
                assert(cells_entry.contains(stack_entry[k]));
            }
        }
        assert forall|id: int|
            0 <= id < n implies visited@[id] == (vis0[id] || cells@.contains(id as usize)) by {
            if id == b {
            } else {
                assert(visited@[id] == vis_entry[id]);
                assert(cells@.contains(id as usize) == cells_entry.contains(id as usize)) by {
                    if cells@.contains(id as usize) {
                        assert(cells_entry.contains(id as usize) || id as usize == b);
                    }
                }
            }
        }
        assert forall|j: int|
            0 <= j < cells@.len() implies valid_id(g, #[trigger] cells@[j] as int) && connected(
            g,
            start as int,
            cells@[j] as int,
        ) && !vis0[cells@[j] as int] by {
            if j < cells_entry.len() {
                assert(cells@[j] == cells_entry[j]);
            } else {
                assert(cells@[j] == b);
            }
        }
        assert forall|j: int, dd: int|
            0 <= j < cells@.len() && !stack@.push(cur).contains(cells@[j]) && 0 <= dd < 4
                && #[trigger] nbr_ok(g, cells@[j] as int, dd) implies visited@[nbr_id(
            g,
            cells@[j] as int,
            dd,
        )] by {
            if j < cells_entry.len() {
                assert(cells@[j] == cells_entry[j]);
                assert(!stack_entry.push(cur).contains(cells_entry[j])) by {
                    if stack_entry.contains(cells_entry[j]) {
                        assert(stack@.contains(cells_entry[j]));
                        assert(stack@.push(cur).contains(cells_entry[j]));
                    }
                    assert(cells_entry[j] != cur);
                }
                assert(nbr_ok(g, cells_entry[j] as int, dd));
                lemma_step_valid(g, cells_entry[j] as int, dd);
                assert(vis_entry[nbr_id(g, cells_entry[j] as int, dd)]);
            } else {
                assert(cells@[j] == b);
                assert(stack@[stack@.len() - 1] == b);
                assert(stack@.contains(cells@[j]));
                assert(stack@.push(cur).contains(cells@[j]));
            }
        }
        assert(flood_inv(g, vis0, visited@, cells@, stack@.push(cur), start));
    }
}

/// Check all four neighbours of `cur`, marking and queueing the unvisited
/// ones.  `cur` has already left the stack.
#[verifier::rlimit(100)]
fn expand_cell(
    matrix: &Vec<Vec<char>>,
    visited: &mut Vec<bool>,
    cells: &mut Vec<usize>,
    stack: &mut Vec<usize>,
    Ghost(vis0): Ghost<Seq<bool>>,
    start: usize,
    cur: usize,
)
    requires
        flood_inv(matrix@, vis0, old(visited)@, old(cells)@, old(stack)@.push(cur), start),
        old(cells)@.contains(cur),
        !old(stack)@.contains(cur),
        valid_id(matrix@, cur as int),
        connected(matrix@, start as int, cur as int),
    ensures
        flood_inv(matrix@, vis0, final(visited)@, final(cells)@, final(stack)@, start),
        forall|d: int|
            0 <= d < 4 && nbr_ok(matrix@, cur as int, d) ==> final(visited)@[#[trigger] nbr_id(
                matrix@,
                cur as int,
                d,
            )],
        !final(stack)@.contains(cur),
        final(cells)@.len() >= old(cells)@.len(),
        final(cells)@.len() > old(cells)@.len() || final(stack)@ == old(stack)@,
{
    let ghost g = matrix@;
    let ghost n = ncells(g);
    proof {
        reveal(flood_inv);
        assert(grid_wf(g) && n <= usize::MAX && visited@.len() == n);
    }
    let mut d: usize = 0;
    while d < 4
        invariant
            g == matrix@,
            n == ncells(g),
            grid_wf(g),
            n <= usize::MAX,
            visited@.len() == n,
            flood_inv(g, vis0, visited@, cells@, stack@.push(cur), start),
            d <= 4,
            !stack@.contains(cur),
            cells@.contains(cur),
            valid_id(g, cur as int),
            connected(g, start as int, cur as int),
            forall|dd: int|
                0 <= dd < d && nbr_ok(g, cur as int, dd) ==> visited@[#[trigger] nbr_id(
                    g,
                    cur as int,
                    dd,
                )],
            cells@.len() >= old(cells)@.len(),
            cells@.len() > old(cells)@.len() || stack@ == old(stack)@,
        decreases 4 - d,
    {
        let ghost vis_entry = visited@;
        let ghost cells_entry = cells@;
        let ghost stack_entry = stack@;
        let r = try_nbr(matrix, cur, d);
        proof {
            reveal(flood_inv);
            if r is Some {
                lemma_step_valid(g, cur as int, d as int);
            }
        }
        let do_push: bool = match r {
            Some(b) => !visited[b],
            None => false,
        };
        if do_push {
            let b = r.unwrap();
            mark_and_push(matrix, visited, cells, stack, Ghost(vis0), start, cur, b);
        }
        d += 1;
        proof {
            reveal(flood_inv);
            let pushed = cells@.len() > cells_entry.len();
            assert forall|dd: int| 0 <= dd < d && nbr_ok(g, cur as int, dd) implies visited@[#[trigger] nbr_id(
                g,
                cur as int,
                dd,
            )] by {
                let x = nbr_id(g, cur as int, dd);
                lemma_step_valid(g, cur as int, dd);
                if dd == d - 1 {
                    match r {
                        Some(b) => {
                            assert(b == x);
                            if !pushed {
                                assert(vis_entry[b as int]);
                            }
                        },
                        None => {
                            assert(!nbr_ok(g, cur as int, dd));
                        },
                    }
                } else {
                    assert(vis_entry[x]);
                    if pushed {
                        assert(visited@ == vis_entry.update(r.unwrap() as int, true));
                    }
                }
            }
            lemma_push_contains(stack@, cur);
            lemma_push_contains(stack_entry, cur);
            assert forall|j: int, dd: int|
                0 <= j < cells@.len() && !stack@.push(cur).contains(cells@[j]) && 0 <= dd < 4
                    && #[trigger] nbr_ok(g, cells@[j] as int, dd) implies visited@[nbr_id(
                g,
                cells@[j] as int,
                dd,
            )] by {
                if j < cells_entry.len() {
                    assert(cells@[j] == cells_entry[j]);
                    assert(!stack_entry.push(cur).contains(cells_entry[j])) by {
                        if stack_entry.contains(cells_entry[j]) {
                            let k = choose|k: int|
                                0 <= k < stack_entry.len() && stack_entry[k] == cells_entry[j];
                            assert(stack@[k] == cells_entry[j]);
                            assert(stack@.contains(cells_entry[j]));
                            assert(stack@.push(cur).contains(cells_entry[j]));
                        }
                        assert(cells_entry[j] != cur);
                    }
                    assert(nbr_ok(g, cells_entry[j] as int, dd));
                    lemma_step_valid(g, cells_entry[j] as int, dd);
                    assert(vis_entry[nbr_id(g, cells_entry[j] as int, dd)]);
                    if pushed {
                        assert(visited@ == vis_entry.update(r.unwrap() as int, true));
                    }
                } else {
                    assert(pushed && cells@[j] == r.unwrap());
                    assert(stack@[stack@.len() - 1] == r.unwrap());
                    assert(stack@.contains(cells@[j]));
                    assert(stack@.push(cur).contains(cells@[j]));
                }
            }
        }
    }
    proof {
        reveal(flood_inv);
        lemma_push_contains(stack@, cur);
        assert(flood_inv(g, vis0, visited@, cells@, stack@, start)) by {
            assert(stack@.no_duplicates()) by {
                assert forall|i1: int, i2: int|
                    0 <= i1 < i2 < stack@.len() implies stack@[i1] != stack@[i2] by {
                    assert(stack@.push(cur)[i1] == stack@[i1]);
                    assert(stack@.push(cur)[i2] == stack@[i2]);
                }
            }
            assert forall|k: int| 0 <= k < stack@.len() implies cells@.contains(
                #[trigger] stack@[k],
            ) by {
                assert(stack@.push(cur)[k] == stack@[k]);
            }
            assert forall|j: int, dd: int|
                0 <= j < cells@.len() && !stack@.contains(cells@[j]) && 0 <= dd < 4
                    && #[trigger] nbr_ok(g, cells@[j] as int, dd) implies visited@[nbr_id(
                g,
                cells@[j] as int,
                dd,
            )] by {
                if cells@[j] == cur {
                    assert(visited@[nbr_id(g, cur as int, dd)]);
                } else {
                    assert(!stack@.push(cur).contains(cells@[j]));
                }
            }
        }
    }
}

/// Grow the region of `start`, marking every cell of it visited and
/// returning the region's cells, each exactly once.
#[verifier::rlimit(50)]
pub(crate) fn flood_region(matrix: &Vec<Vec<char>>, visited: &mut Vec<bool>, start: usize) -> (cells: Vec<
    usize,
>)
    requires
        grid_wf(matrix@),
        ncells(matrix@) <= usize::MAX,
        old(visited)@.len() == ncells(matrix@),
        valid_id(matrix@, start as int),
        !old(visited)@[start as int],
        forall|a: int, b: int|
            0 <= a < ncells(matrix@) && old(visited)@[a] && #[trigger] adj_step(matrix@, a, b)
                ==> old(visited)@[b],
    ensures
        final(visited)@.len() == ncells(matrix@),
        forall|id: int|
            0 <= id < ncells(matrix@) ==> final(visited)@[id] == (old(visited)@[id] || connected(
                matrix@,
                start as int,
                id,
            )),
        cells@.no_duplicates(),
        forall|j: int|
            0 <= j < cells@.len() ==> valid_id(matrix@, #[trigger] cells@[j] as int) && connected(
                matrix@,
                start as int,
                cells@[j] as int,
            ) && !old(visited)@[cells@[j] as int],
        forall|id: int|
            0 <= id < ncells(matrix@) && connected(matrix@, start as int, id) ==> cells@.contains(
                id as usize,
            ),
{
    let ghost g = matrix@;
    let ghost n = ncells(g);
    let ghost vis0 = old(visited)@;
    let mut cells: Vec<usize> = Vec::new();
    let mut stack: Vec<usize> = Vec::new();
    visited[start] = true;
    cells.push(start);
    stack.push(start);
    proof {
        reveal(flood_inv);
        lemma_connected_refl(g, start as int);
        assert(cells@[0] == start);
        assert(stack@[0] == start);
        assert(cells@.contains(start));
        assert forall|id: int|
            0 <= id < n implies visited@[id] == (vis0[id] || cells@.contains(id as usize)) by {
            if cells@.contains(id as usize) {
                let j = choose|j: int| 0 <= j < cells@.len() && cells@[j] == id as usize;
                assert(j == 0);
            }
            if id == start {
                assert(cells@.contains(start));
            }
        }
        assert(flood_inv(g, vis0, visited@, cells@, stack@, start));
    }
    while stack.len() > 0
        invariant
            g == matrix@,
            n == ncells(g),
            vis0 == old(visited)@,
            flood_inv(g, vis0, visited@, cells@, stack@, start),
        decreases n - cells@.len(), stack@.len(),
    {
        let ghost stack_pre = stack@;
        let ghost cells_pre = cells@;
        let cur = stack.pop().unwrap();
        proof {
            reveal(flood_inv);
            assert(stack_pre.last() == cur);
            assert forall|c: usize| stack_pre.contains(c) && c != cur implies stack@.contains(
                c,
            ) by {
                let k = choose|k: int| 0 <= k < stack_pre.len() && stack_pre[k] == c;
                assert(k < stack_pre.len() - 1);
                assert(stack@[k] == c);
            }
            assert(!stack@.contains(cur)) by {
                if stack@.contains(cur) {
                    let k = choose|k: int| 0 <= k < stack@.len() && stack@[k] == cur;
                    assert(stack_pre[k] == cur);
                    assert(stack_pre[stack_pre.len() - 1] == cur);
                }
            }
            assert(cells_pre.contains(cur));
            let j = choose|j: int| 0 <= j < cells_pre.len() && cells_pre[j] == cur;
            assert(valid_id(g, cur as int) && connected(g, start as int, cur as int));
            lemma_push_contains(stack@, cur);
            lemma_push_nodup(stack@, cur);
            assert(flood_inv(g, vis0, visited@, cells@, stack@.push(cur), start)) by {
                assert forall|k: int| 0 <= k < stack@.push(cur).len() implies cells@.contains(
                    #[trigger] stack@.push(cur)[k],
                ) by {
                    if k < stack@.len() {
                        assert(stack_pre[k] == stack@[k]);
                        assert(stack_pre.contains(stack_pre[k]));
                    }
                }
                assert forall|jj: int, dd: int|
                    0 <= jj < cells@.len() && !stack@.push(cur).contains(cells@[jj]) && 0 <= dd < 4
                        && #[trigger] nbr_ok(g, cells@[jj] as int, dd) implies visited@[nbr_id(
                    g,
                    cells@[jj] as int,
                    dd,
                )] by {
                    assert(cells@[jj] != cur);
                    assert(!stack_pre.contains(cells@[jj]));
                }
            }
        }
        expand_cell(matrix, visited, &mut cells, &mut stack, Ghost(vis0), start, cur);
    }
    proof {
        reveal(flood_inv);
        // the marked cells are closed under flood-fill steps
        let m = Set::new(|id: int| 0 <= id < n && visited@[id]);
        assert forall|id: int| 0 <= id < n && connected(g, start as int, id) implies cells@.contains(
            id as usize,
        ) by {
            assert(visited@[start as int]) by {
                assert(cells@.contains(start));
            }
            assert(m.contains(start as int));
            assert forall|a: int, b: int| m.contains(a) && #[trigger] adj_step(g, a, b) implies m.contains(
                b,
            ) by {
                lemma_step_b_valid(g, a, b);
                if vis0[a] {
                    assert(vis0[b]);
                    assert(cells@.contains(start));
                    assert(visited@[b]);
                } else {
                    assert(cells@.contains(a as usize));
                    let d = choose|d: int|
                        0 <= d < 4 && #[trigger] nbr_ok(g, a, d) && b == nbr_id(g, a, d);
                    let j = choose|j: int| 0 <= j < cells@.len() && cells@[j] == a as usize;
                    assert(!stack@.contains(cells@[j]));
                    assert(visited@[nbr_id(g, a, d)]);
                }
            }
            lemma_closed_set_contains_region(g, m, start as int, id);
            if vis0[id] {
                // then start itself would have been visited before the fill
                lemma_connected_sym(g, start as int, id);
                let m0 = Set::new(|c: int| 0 <= c < n && vis0[c]);
                assert(m0.contains(id));
                assert forall|a: int, b: int| m0.contains(a) && #[trigger] adj_step(g, a, b) implies m0.contains(
                    b,
                ) by {
                    lemma_step_b_valid(g, a, b);
                }
                lemma_closed_set_contains_region(g, m0, id, start as int);
            }
        }
        assert forall|id: int|
            0 <= id < n implies visited@[id] == (vis0[id] || connected(g, start as int, id)) by {
            if visited@[id] && !vis0[id] {
                assert(cells@.contains(id as usize));
                let j = choose|j: int| 0 <= j < cells@.len() && cells@[j] == id as usize;
                assert(connected(g, start as int, cells@[j] as int));
            }
        }
    }
    cells
}


/// The target of a flood-fill step is a valid cell.
pub(crate) proof fn lemma_step_b_valid(g: Seq<Vec<char>>, a: int, b: int)
    requires
        adj_step(g, a, b),
    ensures
        valid_id(g, b),
{
    let d = choose|d: int| 0 <= d < 4 && #[trigger] nbr_ok(g, a, d) && b == nbr_id(g, a, d);
    lemma_step_valid(g, a, d);
}


// ---------------------------------------------------------------------------
// The region decomposition.
// ---------------------------------------------------------------------------
/// Area and perimeter of one region.
#[derive(Clone, Copy, PartialEq, Eq, Debug, Structural)]
pub struct FieldDimensions {
    pub area: usize,
    pub circumference: usize,
}

/// The id of the root cell recorded in a decomposition entry.
pub open spec fn entry_rid(g: Seq<Vec<char>>, e: ((Coordinates, char), FieldDimensions)) -> int {
    e.0.0.y * width(g) + e.0.0.x
}

/// The rank of a cell in column-major order: columns left to right, and
/// inside a column top to bottom.  The original kept its cells in an ordered
/// set of (x, y) pairs compared x first, so region keys follow this order.
pub open spec fn col_rank(g: Seq<Vec<char>>, id: int) -> int {
    (id % width(g)) * height(g) + id / width(g)
}

/// One entry per region of the grid, keyed by the region's smallest cell
/// (row-major) and its symbol, carrying the region's area and perimeter.
pub open spec fn decomposition_entry_ok(
    g: Seq<Vec<char>>,
    e: ((Coordinates, char), FieldDimensions),
) -> bool {
    let rid = entry_rid(g, e);
    &&& valid_id(g, rid)
    &&& 0 <= e.0.0.x < width(g)
    &&& 0 <= e.0.0.y < height(g)
    &&& e.0.1 == sym_at(g, rid)
    &&& e.1.area == region_area(g, rid)
    &&& e.1.circumference == region_perimeter(g, rid)
    &&& (forall|id: int| connected(g, rid, id) ==> col_rank(g, id) >= col_rank(g, rid))
}

/// The entries form a decomposition: pairwise disjoint regions that cover
/// the grid.
#[verifier::opaque]
pub open spec fn is_decomposition(
    g: Seq<Vec<char>>,
    r: Seq<((Coordinates, char), FieldDimensions)>,
) -> bool {
    &&& (forall|k: int| 0 <= k < r.len() ==> decomposition_entry_ok(g, #[trigger] r[k]))
    &&& (forall|k1: int, k2: int|
        0 <= k1 < k2 < r.len() ==> !connected(g, entry_rid(g, r[k1]), entry_rid(g, r[k2])))
    &&& (forall|id: int|
        valid_id(g, id) ==> exists|k: int|
            0 <= k < r.len() && connected(g, entry_rid(g, #[trigger] r[k]), id))
}

/// Split every cell of the grid into its maximal 4-connected region of one
/// symbol, and report each region's area and perimeter.
#[verifier::rlimit(100)]
pub fn area_circumference_map(matrix: &Vec<Vec<char>>) -> (r: Vec<
    ((Coordinates, char), FieldDimensions),
>)
    requires
        grid_wf(matrix@),
        ncells(matrix@) <= usize::MAX,
        4 * ncells(matrix@) <= usize::MAX,
        ncells(matrix@) <= i64::MAX,
    ensures
        is_decomposition(matrix@, r@),
{
    let ghost g = matrix@;
    let w = matrix[0].len();
    let h = matrix.len();
    proof {
        assert(w * h == ncells(g)) by (nonlinear_arith)
            requires
                w == width(g),
                h == height(g),
        ;
    }
    let n = w * h;
    let mut visited: Vec<bool> = Vec::new();
    let mut t: usize = 0;
    while t < n
        invariant
            t <= n,
            visited@.len() == t,
            forall|id: int| 0 <= id < t ==> !(#[trigger] visited@[id]),
        decreases n - t,
    {
        visited.push(false);
        t += 1;
    }
    let mut entries: Vec<((Coordinates, char), FieldDimensions)> = Vec::new();
    let mut x: usize = 0;
    while x < w
        invariant
            g == matrix@,
            grid_wf(g),
            n == ncells(g),
            n <= usize::MAX,
            4 * n <= usize::MAX,
            n <= i64::MAX,
            w == width(g),
            h == height(g),
            n == w * h,
            x <= w,
            visited@.len() == n,
            forall|id: int|
                0 <= id < n ==> visited@[id] == exists|k: int|
                    0 <= k < entries@.len() && connected(g, entry_rid(g, #[trigger] entries@[k]), id),
            forall|id: int| 0 <= id < n && col_rank(g, id) < x * h ==> visited@[id],
            forall|k: int| 0 <= k < entries@.len() ==> decomposition_entry_ok(g, #[trigger] entries@[k]),
            forall|k1: int, k2: int|
                0 <= k1 < k2 < entries@.len() ==> !connected(
                    g,
                    entry_rid(g, entries@[k1]),
                    entry_rid(g, entries@[k2]),
                ),
        decreases w - x,
    {
        let mut y: usize = 0;
        while y < h
            invariant
                g == matrix@,
                grid_wf(g),
                n == ncells(g),
                n <= usize::MAX,
                4 * n <= usize::MAX,
                n <= i64::MAX,
                w == width(g),
                h == height(g),
                n == w * h,
                x < w,
                y <= h,
                visited@.len() == n,
                forall|id: int|
                    0 <= id < n ==> visited@[id] == exists|k: int|
                        0 <= k < entries@.len() && connected(
                            g,
                            entry_rid(g, #[trigger] entries@[k]),
                            id,
                        ),
                forall|id: int| 0 <= id < n && col_rank(g, id) < x * h + y ==> visited@[id],
                forall|k: int|
                    0 <= k < entries@.len() ==> decomposition_entry_ok(g, #[trigger] entries@[k]),
                forall|k1: int, k2: int|
                    0 <= k1 < k2 < entries@.len() ==> !connected(
                        g,
                        entry_rid(g, entries@[k1]),
                        entry_rid(g, entries@[k2]),
                    ),
            decreases h - y,
        {
            let ghost rank = x * h + y;
            proof {
                assert(y * w + x < w * h) by (nonlinear_arith)
                    requires
                        0 <= x < w,
                        0 <= y < h,
                ;
            }
            let i = y * w + x;
            proof {
                vstd::arithmetic::div_mod::lemma_fundamental_div_mod_converse(
                    i as int,
                    w as int,
                    y as int,
                    x as int,
                );
                assert(col_rank(g, i as int) == rank);
            }
            if !visited[i] {
                proof {
                    assert forall|a: int, b: int|
                        0 <= a < ncells(g) && visited@[a] && #[trigger] adj_step(g, a, b) implies visited@[b] by {
                        let k = choose|k: int|
                            0 <= k < entries@.len() && connected(g, entry_rid(g, entries@[k]), a);
                        lemma_connected_step(g, a, b);
                        lemma_connected_trans(g, entry_rid(g, entries@[k]), a, b);
                        lemma_step_b_valid(g, a, b);
                    }
                }
                let ghost vis_before = visited@;
                let cells = flood_region(matrix, &mut visited, i);
                proof {
                    lemma_bounded_nodup_len(cells@, n as int);
                }
                let area = cells.len();
                let mut circ: usize = 0;
                let mut j: usize = 0;
                while j < cells.len()
                    invariant
                        g == matrix@,
                        grid_wf(g),
                        n == ncells(g),
                        n <= usize::MAX,
                        4 * n <= usize::MAX,
                        j <= cells@.len(),
                        cells@.len() <= n,
                        forall|jj: int|
                            0 <= jj < cells@.len() ==> valid_id(g, #[trigger] cells@[jj] as int),
                        circ == seq_perimeter_sum(g, cells@.take(j as int)),
                        circ <= 4 * j,
                    decreases cells@.len() - j,
                {
                    let p = cell_perimeter_exec(matrix, cells[j]);
                    proof {
                        assert(cells@.take(j + 1).drop_last() =~= cells@.take(j as int));
                        assert(cells@.take(j + 1).last() == cells@[j as int]);
                    }
                    circ = circ + p;
                    j += 1;
                }
                proof {
                    assert(cells@.take(cells@.len() as int) =~= cells@);
                    lemma_region_sums(g, i as int, cells@, n as int);
                }
                let root = Coordinates { x: x as i64, y: y as i64 };
                let sym = sym_of(matrix, i);
                let ghost entries_old = entries@;
                entries.push(((root, sym), FieldDimensions { area, circumference: circ }));
                proof {
                    let e = entries@[entries@.len() - 1];
                    assert(entry_rid(g, e) == i);
                    assert(decomposition_entry_ok(g, e)) by {
                        assert(e.1.area == region_area(g, i as int));
                        assert(e.1.circumference == region_perimeter(g, i as int));
                        assert forall|id: int| connected(g, i as int, id) implies col_rank(g, id)
                            >= col_rank(g, i as int) by {
                            lemma_path_end_valid(g, i as int, id);
                            if col_rank(g, id) < rank {
                                assert(vis_before[id]);
                                let k = choose|k: int|
                                    0 <= k < entries_old.len() && connected(
                                        g,
                                        entry_rid(g, entries_old[k]),
                                        id,
                                    );
                                lemma_connected_sym(g, i as int, id);
                                lemma_connected_trans(
                                    g,
                                    entry_rid(g, entries_old[k]),
                                    id,
                                    i as int,
                                );
                                assert(vis_before[i as int]);
                            }
                        }
                    }
                    assert forall|k: int| 0 <= k < entries@.len() implies decomposition_entry_ok(
                        g,
                        #[trigger] entries@[k],
                    ) by {
                        if k < entries_old.len() {
                            assert(entries@[k] == entries_old[k]);
                        }
                    }
                    assert forall|k1: int, k2: int|
                        0 <= k1 < k2 < entries@.len() implies !connected(
                        g,
                        entry_rid(g, entries@[k1]),
                        entry_rid(g, entries@[k2]),
                    ) by {
                        if k2 < entries_old.len() {
                            assert(entries@[k1] == entries_old[k1]);
                            assert(entries@[k2] == entries_old[k2]);
                        } else {
                            assert(entries@[k1] == entries_old[k1]);
                            assert(entries@[k2] == e);
                            if connected(g, entry_rid(g, entries_old[k1]), i as int) {
                                assert(vis_before[i as int]);
                            }
                        }
                    }
                    assert forall|id: int|
                        0 <= id < n implies visited@[id] == exists|k: int|
                            0 <= k < entries@.len() && connected(
                                g,
                                entry_rid(g, #[trigger] entries@[k]),
                                id,
                            ) by {
                        if visited@[id] {
                            if vis_before[id] {
                                let k = choose|k: int|
                                    0 <= k < entries_old.len() && connected(
                                        g,
                                        entry_rid(g, entries_old[k]),
                                        id,
                                    );
                                assert(entries@[k] == entries_old[k]);
                                assert(connected(g, entry_rid(g, entries@[k]), id));
                            } else {
                                assert(connected(g, i as int, id));
                                assert(connected(g, entry_rid(g, entries@[entries@.len() - 1]), id));
                            }
                        } else {
                            if exists|k: int|
                                0 <= k < entries@.len() && connected(
                                    g,
                                    entry_rid(g, #[trigger] entries@[k]),
                                    id,
                                ) {
                                let k = choose|k: int|
                                    0 <= k < entries@.len() && connected(
                                        g,
                                        entry_rid(g, #[trigger] entries@[k]),
                                        id,
                                    );
                                if k < entries_old.len() {
                                    assert(entries_old[k] == entries@[k]);
                                    assert(vis_before[id]);
                                } else {
                                    assert(connected(g, i as int, id));
                                }
                            }
                        }
                    }
                }
            }
            proof {
                lemma_connected_refl(g, i as int);
                assert(visited@[i as int]);
                assert forall|id: int| 0 <= id < n && col_rank(g, id) < rank + 1 implies visited@[id] by {
                    if col_rank(g, id) == rank {
                        lemma_col_rank_injective(g, id, i as int);
                    }
                }
            }
            y += 1;
        }
        proof {
            assert((x + 1) * h == x * h + h) by (nonlinear_arith);
        }
        x += 1;
    }
    proof {
        reveal(is_decomposition);
        assert forall|id: int| valid_id(g, id) implies exists|k: int|
            0 <= k < entries@.len() && connected(g, entry_rid(g, #[trigger] entries@[k]), id) by {
            assert(col_rank(g, id) < w * h) by {
                lemma_dims_pos(g, id);
                assert((id % (w as int)) * (h as int) + id / (w as int) < (w as int) * (h as int))
                    by (nonlinear_arith)
                    requires
                        0 <= id % (w as int) < w as int,
                        0 <= id / (w as int) < h as int,
                        w as int > 0,
                        h as int > 0,
                ;
            }
            assert(visited@[id]);
        }
    }
    entries
}

/// Cells with equal column-major ranks are the same cell.
pub(crate) proof fn lemma_col_rank_injective(g: Seq<Vec<char>>, a: int, b: int)
    requires
        valid_id(g, a),
        valid_id(g, b),
        col_rank(g, a) == col_rank(g, b),
    ensures
        a == b,
{
    let w = width(g);
    let h = height(g);
    lemma_dims_pos(g, a);
    lemma_dims_pos(g, b);
    vstd::arithmetic::div_mod::lemma_fundamental_div_mod(a, w);
    vstd::arithmetic::div_mod::lemma_fundamental_div_mod(b, w);
    vstd::arithmetic::div_mod::lemma_fundamental_div_mod_converse(
        col_rank(g, a),
        h,
        a % w,
        a / w,
    );
    vstd::arithmetic::div_mod::lemma_fundamental_div_mod_converse(
        col_rank(g, b),
        h,
        b % w,
        b / w,
    );
}

/// The far end of a connection is a valid cell.
pub(crate) proof fn lemma_path_end_valid(g: Seq<Vec<char>>, a: int, b: int)
    requires
        connected(g, a, b),
    ensures
        valid_id(g, b),
{
    reveal(connected);
    let p = choose|p: Seq<int>| #[trigger] is_path(g, p) && p.first() == a && p.last() == b;
    lemma_path_cells_valid(g, p);
    assert(p[p.len() - 1] == b);
}


// ---------------------------------------------------------------------------
// Laws of the region decomposition.
// ---------------------------------------------------------------------------
/// Regions of the first k entries that contain the cell id.
pub open spec fn cover_count(
    g: Seq<Vec<char>>,
    r: Seq<((Coordinates, char), FieldDimensions)>,
    k: int,
    id: int,
) -> int
    decreases k,
{
    if k <= 0 {
        0
    } else {
        cover_count(g, r, k - 1, id) + ind(connected(g, entry_rid(g, r[k - 1]), id))
    }
}

/// Sum of the areas of the first k regions of a decomposition.
pub open spec fn total_area(
    g: Seq<Vec<char>>,
    r: Seq<((Coordinates, char), FieldDimensions)>,
    k: int,
) -> int
    decreases k,
{
    if k <= 0 {
        0
    } else {
        total_area(g, r, k - 1) + region_area(g, entry_rid(g, r[k - 1]))
    }
}

/// Sum of cover_count over the first n cells.
pub open spec fn cover_sum(
    g: Seq<Vec<char>>,
    r: Seq<((Coordinates, char), FieldDimensions)>,
    k: int,
    n: int,
) -> int
    decreases n,
{
    if n <= 0 {
        0
    } else {
        cover_sum(g, r, k, n - 1) + cover_count(g, r, k, n - 1)
    }
}

proof fn lemma_cover_sum_split(
    g: Seq<Vec<char>>,
    r: Seq<((Coordinates, char), FieldDimensions)>,
    k: int,
    n: int,
)
    requires
        k >= 1,
        n >= 0,
    ensures
        cover_sum(g, r, k, n) == cover_sum(g, r, k - 1, n) + region_area_upto(
            g,
            entry_rid(g, r[k - 1]),
            n,
        ),
    decreases n,
{
    if n > 0 {
        lemma_cover_sum_split(g, r, k, n - 1);
    }
}

proof fn lemma_exchange(
    g: Seq<Vec<char>>,
    r: Seq<((Coordinates, char), FieldDimensions)>,
    k: int,
    n: int,
)
    requires
        k >= 0,
        n >= 0,
    ensures
        total_area_upto(g, r, k, n) == cover_sum(g, r, k, n),
    decreases k,
{
    if k == 0 {
        lemma_cover_sum_zero(g, r, n);
    } else {
        lemma_exchange(g, r, k - 1, n);
        lemma_cover_sum_split(g, r, k, n);
    }
}

/// Sum of the partial areas (over the first n cells) of the first k regions.
pub open spec fn total_area_upto(
    g: Seq<Vec<char>>,
    r: Seq<((Coordinates, char), FieldDimensions)>,
    k: int,
    n: int,
) -> int
    decreases k,
{
    if k <= 0 {
        0
    } else {
        total_area_upto(g, r, k - 1, n) + region_area_upto(g, entry_rid(g, r[k - 1]), n)
    }
}

proof fn lemma_cover_sum_zero(
    g: Seq<Vec<char>>,
    r: Seq<((Coordinates, char), FieldDimensions)>,
    n: int,
)
    requires
        n >= 0,
    ensures
        cover_sum(g, r, 0, n) == 0,
    decreases n,
{
    if n > 0 {
        lemma_cover_sum_zero(g, r, n - 1);
    }
}

proof fn lemma_cover_count_one(
    g: Seq<Vec<char>>,
    r: Seq<((Coordinates, char), FieldDimensions)>,
    k: int,
    id: int,
    kw: int,
)
    requires
        grid_wf(g),
        0 <= k <= r.len(),
        0 <= kw < r.len(),
        connected(g, entry_rid(g, r[kw]), id),
        forall|j: int|
            0 <= j < r.len() && j != kw ==> !connected(g, entry_rid(g, #[trigger] r[j]), id),
    ensures
        cover_count(g, r, k, id) == if kw < k {
            1int
        } else {
            0int
        },
    decreases k,
{
    if k > 0 {
        lemma_cover_count_one(g, r, k - 1, id, kw);
    }
}

proof fn lemma_cover_sum_all_ones(
    g: Seq<Vec<char>>,
    r: Seq<((Coordinates, char), FieldDimensions)>,
    n: int,
)
    requires
        grid_wf(g),
        is_decomposition(g, r),
        0 <= n <= ncells(g),
    ensures
        cover_sum(g, r, r.len() as int, n) == n,
    decreases n,
{
    reveal(is_decomposition);
    if n > 0 {
        lemma_cover_sum_all_ones(g, r, n - 1);
        let id = n - 1;
        assert(valid_id(g, id));
        assert(exists|k: int|
            0 <= k < r.len() && connected(g, entry_rid(g, #[trigger] r[k]), id));
        let kw = choose|k: int|
            0 <= k < r.len() && connected(g, entry_rid(g, #[trigger] r[k]), id);
        assert forall|j: int|
            0 <= j < r.len() && j != kw implies !connected(
            g,
            entry_rid(g, #[trigger] r[j]),
            id,
        ) by {
            if connected(g, entry_rid(g, r[j]), id) {
                lemma_connected_sym(g, entry_rid(g, r[kw]), id);
                lemma_connected_trans(g, entry_rid(g, r[j]), id, entry_rid(g, r[kw]));
                if kw < j {
                    lemma_connected_sym(g, entry_rid(g, r[j]), entry_rid(g, r[kw]));
                    assert(false);
                } else {
                    assert(false);
                }
            }
        }
        lemma_cover_count_one(g, r, r.len() as int, id, kw);
    }
}

/// The areas of the regions of a decomposition add up to the number of
/// cells of the grid.
pub proof fn lemma_region_areas_sum_to_cell_count(
    g: Seq<Vec<char>>,
    r: Seq<((Coordinates, char), FieldDimensions)>,
)
    requires
        grid_wf(g),
        is_decomposition(g, r),
    ensures
        total_area(g, r, r.len() as int) == ncells(g),
{
    let n = ncells(g);
    assert(n >= 0) by (nonlinear_arith)
        requires
            n == width(g) * height(g),
            width(g) >= 0,
            height(g) >= 0,
    ;
    lemma_exchange(g, r, r.len() as int, n);
    lemma_cover_sum_all_ones(g, r, n);
    lemma_total_area_is_upto(g, r, r.len() as int);
}

proof fn lemma_total_area_is_upto(
    g: Seq<Vec<char>>,
    r: Seq<((Coordinates, char), FieldDimensions)>,
    k: int,
)
    ensures
        total_area(g, r, k) == total_area_upto(g, r, k, ncells(g)),
    decreases k,
{
    if k > 0 {
        lemma_total_area_is_upto(g, r, k - 1);
    }
}



/// The grid carries one symbol everywhere.
pub open spec fn uniform_grid(g: Seq<Vec<char>>) -> bool {
    forall|id: int| valid_id(g, id) ==> #[trigger] sym_at(g, id) == sym_at(g, 0)
}

/// In a uniform grid every cell joins the region of cell 0.
pub proof fn lemma_uniform_connected(g: Seq<Vec<char>>, id: int)
    requires
        grid_wf(g),
        uniform_grid(g),
        valid_id(g, id),
    ensures
        connected(g, 0, id),
    decreases id,
{
    let w = width(g);
    let h = height(g);
    lemma_dims_pos(g, id);
    if id == 0 {
        lemma_connected_refl(g, 0);
    } else {
        vstd::arithmetic::div_mod::lemma_fundamental_div_mod(id, w);
        if id % w > 0 {
            lemma_uniform_connected(g, id - 1);
            vstd::arithmetic::div_mod::lemma_fundamental_div_mod_converse(
                id - 1,
                w,
                id / w,
                id % w - 1,
            );
            assert(nbr_ok(g, id - 1, 1)) by {
                assert((id - 1) % w == id % w - 1);
                assert(sym_at(g, id - 1) == sym_at(g, 0));
                assert(sym_at(g, id) == sym_at(g, 0));
            }
            assert(adj_step(g, id - 1, id)) by {
                assert(id == nbr_id(g, id - 1, 1));
            }
            lemma_connected_step(g, id - 1, id);
            lemma_connected_trans(g, 0, id - 1, id);
        } else {
            assert(id >= w) by {
                assert(id == w * (id / w));
                if id / w <= 0 {
                    assert(id <= 0) by (nonlinear_arith)
                        requires
                            id == w * (id / w),
                            id / w <= 0,
                            w > 0,
                    ;
                }
                assert(id / w >= 1);
                assert(id >= w) by (nonlinear_arith)
                    requires
                        id == w * (id / w),
                        id / w >= 1,
                        w > 0,
                ;
            }
            lemma_uniform_connected(g, id - w);
            assert(nbr_ok(g, id - w, 3)) by {
                assert(sym_at(g, id - w) == sym_at(g, 0));
                assert(sym_at(g, id) == sym_at(g, 0));
            }
            assert(adj_step(g, id - w, id)) by {
                assert(id == nbr_id(g, id - w, 3));
            }
            lemma_connected_step(g, id - w, id);
            lemma_connected_trans(g, 0, id - w, id);
        }
    }
}

proof fn lemma_uniform_area_upto(g: Seq<Vec<char>>, k: int)
    requires
        grid_wf(g),
        uniform_grid(g),
        0 <= k <= ncells(g),
    ensures
        region_area_upto(g, 0, k) == k,
    decreases k,
{
    if k > 0 {
        lemma_uniform_area_upto(g, k - 1);
        lemma_uniform_connected(g, k - 1);
    }
}

/// The boundary edges of one cell of a uniform grid: one for each side that
/// leaves the grid.
proof fn lemma_uniform_cell_perimeter(g: Seq<Vec<char>>, id: int)
    requires
        grid_wf(g),
        uniform_grid(g),
        valid_id(g, id),
    ensures
        cell_perimeter(g, id) == ind(id % width(g) == 0) + ind(id % width(g) == width(g) - 1) + ind(
            id / width(g) == 0,
        ) + ind(id / width(g) == height(g) - 1),
{
    let w = width(g);
    let h = height(g);
    lemma_dims_pos(g, id);
    vstd::arithmetic::div_mod::lemma_fundamental_div_mod(id, w);
    if id % w > 0 {
        vstd::arithmetic::div_mod::lemma_fundamental_div_mod_converse(
            id - 1,
            w,
            id / w,
            id % w - 1,
        );
        lemma_nbr_candidate_valid(g, id, 0);
        assert(sym_at(g, id - 1) == sym_at(g, 0) && sym_at(g, id) == sym_at(g, 0));
        assert(nbr_ok(g, id, 0));
    } else {
        assert(!nbr_ok(g, id, 0));
    }
    if id % w < w - 1 {
        vstd::arithmetic::div_mod::lemma_fundamental_div_mod_converse(
            id + 1,
            w,
            id / w,
            id % w + 1,
        );
        lemma_nbr_candidate_valid(g, id, 1);
        assert(sym_at(g, id + 1) == sym_at(g, 0) && sym_at(g, id) == sym_at(g, 0));
        assert(nbr_ok(g, id, 1));
    } else {
        assert(!nbr_ok(g, id, 1));
    }
    if id / w > 0 {
        assert(id - w >= 0) by (nonlinear_arith)
            requires
                id == w * (id / w) + id % w,
                id / w >= 1,
                w > 0,
                id % w >= 0,
        ;
        lemma_nbr_candidate_valid(g, id, 2);
        assert(sym_at(g, id - w) == sym_at(g, 0) && sym_at(g, id) == sym_at(g, 0));
        assert(nbr_ok(g, id, 2));
    } else {
        assert(id < w) by {
            assert(id == w * 0 + id % w);
        }
        assert(!(id - w >= 0));
        assert(!nbr_ok(g, id, 2));
    }
    if id / w < h - 1 {
        assert(id + w < w * h) by (nonlinear_arith)
            requires
                id == w * (id / w) + id % w,
                id / w <= h - 2,
                w > 0,
                0 <= id % w < w,
        ;
        lemma_nbr_candidate_valid(g, id, 3);
        assert(sym_at(g, id + w) == sym_at(g, 0) && sym_at(g, id) == sym_at(g, 0));
        assert(nbr_ok(g, id, 3));
    } else {
        assert(id + w >= w * h) by (nonlinear_arith)
            requires
                id == w * (id / w) + id % w,
                id / w >= h - 1,
                w > 0,
                0 <= id % w,
                ncells(g) == w * h,
        ;
        assert(!nbr_ok(g, id, 3));
    }
}

/// The running boundary-edge total over the first k cells of a uniform grid,
/// in closed form.
pub open spec fn uniform_perim_formula(g: Seq<Vec<char>>, k: int) -> int {
    let w = width(g);
    let h = height(g);
    let m = k / w;
    let r = k % w;
    2 * m + ind(r > 0) + (if m == 0 {
        r
    } else {
        w
    }) + (if m >= h {
        w
    } else if m == h - 1 {
        r
    } else {
        0
    })
}

proof fn lemma_uniform_perim_upto(g: Seq<Vec<char>>, k: int)
    requires
        grid_wf(g),
        uniform_grid(g),
        ncells(g) > 0,
        0 <= k <= ncells(g),
    ensures
        region_perimeter_upto(g, 0, k) == uniform_perim_formula(g, k),
    decreases k,
{
    let w = width(g);
    let h = height(g);
    assert(w > 0 && h > 0) by (nonlinear_arith)
        requires
            ncells(g) == w * h,
            ncells(g) > 0,
            w >= 0,
            h >= 0,
    ;
    if k == 0 {
        assert(0int / w == 0 && 0int % w == 0) by {
            vstd::arithmetic::div_mod::lemma_fundamental_div_mod_converse(0, w, 0, 0);
        }
    } else {
        lemma_uniform_perim_upto(g, k - 1);
        lemma_uniform_connected(g, k - 1);
        lemma_uniform_cell_perimeter(g, k - 1);
        lemma_dims_pos(g, k - 1);
        vstd::arithmetic::div_mod::lemma_fundamental_div_mod(k - 1, w);
        let m = (k - 1) / w;
        let r = (k - 1) % w;
        if r < w - 1 {
            vstd::arithmetic::div_mod::lemma_fundamental_div_mod_converse(k, w, m, r + 1);
            assert(k / w == m && k % w == r + 1);
        } else {
            assert(k == w * (m + 1)) by (nonlinear_arith)
                requires
                    k - 1 == w * m + r,
                    r == w - 1,
            ;
            vstd::arithmetic::div_mod::lemma_fundamental_div_mod_converse(k, w, m + 1, 0);
            assert(k / w == m + 1 && k % w == 0);
        }
        assert(m < h) by (nonlinear_arith)
            requires
                k - 1 == w * m + r,
                0 <= r < w,
                k - 1 < w * h,
                w > 0,
        ;
    }
}

/// A single-symbol rectangular grid is one region: its area is the cell
/// count and its perimeter twice the sum of the side lengths.
pub proof fn lemma_uniform_grid_region(g: Seq<Vec<char>>)
    requires
        grid_wf(g),
        uniform_grid(g),
        ncells(g) > 0,
    ensures
        forall|id: int| valid_id(g, id) ==> #[trigger] connected(g, 0, id),
        region_area(g, 0) == ncells(g),
        region_perimeter(g, 0) == 2 * (width(g) + height(g)),
{
    let w = width(g);
    let h = height(g);
    assert(w > 0 && h > 0) by (nonlinear_arith)
        requires
            ncells(g) == w * h,
            ncells(g) > 0,
            w >= 0,
            h >= 0,
    ;
    assert forall|id: int| valid_id(g, id) implies #[trigger] connected(g, 0, id) by {
        lemma_uniform_connected(g, id);
    }
    lemma_uniform_area_upto(g, ncells(g));
    lemma_uniform_perim_upto(g, ncells(g));
    vstd::arithmetic::div_mod::lemma_fundamental_div_mod_converse(ncells(g), w, h, 0);
    assert(ncells(g) / w == h && ncells(g) % w == 0);
}

/// A one-cell grid yields a single region of area one and perimeter four.
pub proof fn lemma_single_cell_grid(g: Seq<Vec<char>>)
    requires
        grid_wf(g),
        width(g) == 1,
        height(g) == 1,
    ensures
        region_area(g, 0) == 1,
        region_perimeter(g, 0) == 4,
        forall|id: int| valid_id(g, id) ==> #[trigger] connected(g, 0, id),
{
    assert(uniform_grid(g)) by {
        assert forall|id: int| valid_id(g, id) implies #[trigger] sym_at(g, id) == sym_at(
            g,
            0,
        ) by {
            assert(id == 0);
        }
    }
    lemma_uniform_grid_region(g);
}

} // verus!
