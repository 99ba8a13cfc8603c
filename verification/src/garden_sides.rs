use vstd::prelude::*;
use crate::coords::Coordinates;
use crate::grid::grid_wf;
use crate::garden::{
    col_rank, connected, flood_region, height, lemma_bounded_nodup_len, lemma_col_rank_injective,
    lemma_connected_refl, lemma_connected_step, lemma_connected_sym, lemma_connected_trans,
    lemma_dims_pos, lemma_path_end_valid, lemma_region_sums, lemma_step_b_valid, ncells, nbr_ok,
    region_area, sym_at, sym_of, try_nbr, valid_id, width, adj_step, ind,
};

verus! {

/// The side of a region cell that a fence piece closes off.
#[derive(Clone, Copy, PartialEq, Eq, Debug, Structural)]
pub enum FenceDirection {
    North,
    East,
    South,
    West,
}

impl FenceDirection {
    /// The offset of the neighbouring cell behind this fence; the y axis
    /// grows downwards.
    pub open spec fn rel_spec(self) -> Coordinates {
        match self {
            FenceDirection::North => Coordinates { x: 0i64, y: -1i64 },
            FenceDirection::East => Coordinates { x: 1i64, y: 0i64 },
            FenceDirection::South => Coordinates { x: 0i64, y: 1i64 },
            FenceDirection::West => Coordinates { x: -1i64, y: 0i64 },
        }
    }

    pub fn to_rel_coords(&self) -> (r: Coordinates)
        ensures
            r == self.rel_spec(),
    {
        match self {
            FenceDirection::North => Coordinates { x: 0, y: -1 },
            FenceDirection::East => Coordinates { x: 1, y: 0 },
            FenceDirection::South => Coordinates { x: 0, y: 1 },
            FenceDirection::West => Coordinates { x: -1, y: 0 },
        }
    }

    /// The flood-fill direction number of this side (0 left, 1 right, 2 up,
    /// 3 down).
    pub open spec fn dir_id(self) -> int {
        match self {
            FenceDirection::West => 0int,
            FenceDirection::East => 1int,
            FenceDirection::North => 2int,
            FenceDirection::South => 3int,
        }
    }
}

pub open spec fn dir_of(d: int) -> FenceDirection {
    if d == 0 {
        FenceDirection::West
    } else if d == 1 {
        FenceDirection::East
    } else if d == 2 {
        FenceDirection::North
    } else {
        FenceDirection::South
    }
}

/// Area and fence pieces of one region.
pub struct RegionFences {
    pub area: usize,
    pub fences: Vec<(FenceDirection, Coordinates)>,
}

/// The fence piece (fd, c) belongs to the region of root: c is a region
/// cell whose side fd faces the boundary or another symbol.
pub open spec fn is_fence_of(g: Seq<Vec<char>>, root: int, fd: FenceDirection, c: Coordinates) -> bool {
    let id = c.y * width(g) + c.x;
    &&& 0 <= c.x < width(g)
    &&& 0 <= c.y < height(g)
    &&& connected(g, root, id)
    &&& !nbr_ok(g, id, fd.dir_id())
}

pub open spec fn fence_entry_rid(g: Seq<Vec<char>>, e: ((Coordinates, char), RegionFences)) -> int {
    e.0.0.y * width(g) + e.0.0.x
}

/// One entry of the fence decomposition: keyed like the area decomposition
/// by the region's least cell in column-major order, carrying the region's
/// area and exactly its fence pieces, each once.
pub open spec fn fence_entry_ok(g: Seq<Vec<char>>, e: ((Coordinates, char), RegionFences)) -> bool {
    let rid = fence_entry_rid(g, e);
    &&& valid_id(g, rid)
    &&& 0 <= e.0.0.x < width(g)
    &&& 0 <= e.0.0.y < height(g)
    &&& e.0.1 == sym_at(g, rid)
    &&& e.1.area == region_area(g, rid)
    &&& e.1.fences@.no_duplicates()
    &&& (forall|k: int|
        0 <= k < e.1.fences@.len() ==> is_fence_of(
            g,
            rid,
            (#[trigger] e.1.fences@[k]).0,
            e.1.fences@[k].1,
        ))
    &&& (forall|fd: FenceDirection, c: Coordinates|
        is_fence_of(g, rid, fd, c) ==> e.1.fences@.contains((fd, c)))
    &&& (forall|id: int| connected(g, rid, id) ==> col_rank(g, id) >= col_rank(g, rid))
}

/// The entries split the grid into its regions, with their fences.
#[verifier::opaque]
pub open spec fn is_fence_decomposition(
    g: Seq<Vec<char>>,
    r: Seq<((Coordinates, char), RegionFences)>,
) -> bool {
    &&& (forall|k: int| 0 <= k < r.len() ==> fence_entry_ok(g, #[trigger] r[k]))
    &&& (forall|k1: int, k2: int|
        0 <= k1 < k2 < r.len() ==> !connected(
            g,
            fence_entry_rid(g, r[k1]),
            fence_entry_rid(g, r[k2]),
        ))
    &&& (forall|id: int|
        valid_id(g, id) ==> exists|k: int|
            0 <= k < r.len() && connected(g, fence_entry_rid(g, #[trigger] r[k]), id))
}

/// The fence pieces of the first j collected cells, four candidate sides
/// per cell in direction order.
pub open spec fn fences_of_cells(g: Seq<Vec<char>>, cells: Seq<usize>, j: int) -> Seq<
    (FenceDirection, Coordinates),
>
    decreases j,
{
    if j <= 0 {
        Seq::empty()
    } else {
        fences_of_cells(g, cells, j - 1) + cell_fences(g, cells[j - 1] as int)
    }
}

/// The open sides of one cell as fence pieces, in direction order.
pub open spec fn cell_fences(g: Seq<Vec<char>>, id: int) -> Seq<(FenceDirection, Coordinates)> {
    let c = Coordinates { x: (id % width(g)) as i64, y: (id / width(g)) as i64 };
    (if !nbr_ok(g, id, 0) {
        seq![(dir_of(0), c)]
    } else {
        Seq::empty()
    }) + (if !nbr_ok(g, id, 1) {
        seq![(dir_of(1), c)]
    } else {
        Seq::empty()
    }) + (if !nbr_ok(g, id, 2) {
        seq![(dir_of(2), c)]
    } else {
        Seq::empty()
    }) + (if !nbr_ok(g, id, 3) {
        seq![(dir_of(3), c)]
    } else {
        Seq::empty()
    })
}

/// Collect the open sides of every cell in the list.
fn collect_fences(matrix: &Vec<Vec<char>>, cells: &Vec<usize>) -> (r: Vec<
    (FenceDirection, Coordinates),
>)
    requires
        grid_wf(matrix@),
        ncells(matrix@) <= usize::MAX,
        ncells(matrix@) <= i64::MAX,
        forall|j: int| 0 <= j < cells@.len() ==> valid_id(matrix@, #[trigger] cells@[j] as int),
    ensures
        r@ == fences_of_cells(matrix@, cells@, cells@.len() as int),
{
    let ghost g = matrix@;
    let w = matrix[0].len();
    let mut out: Vec<(FenceDirection, Coordinates)> = Vec::new();
    let mut j: usize = 0;
    while j < cells.len()
        invariant
            g == matrix@,
            grid_wf(g),
            ncells(g) <= usize::MAX,
            ncells(g) <= i64::MAX,
            w == width(g),
            forall|jj: int| 0 <= jj < cells@.len() ==> valid_id(g, #[trigger] cells@[jj] as int),
            j <= cells@.len(),
            out@ == fences_of_cells(g, cells@, j as int),
        decreases cells@.len() - j,
    {
        let id = cells[j];
        proof {
            lemma_dims_pos(g, id as int);
        }
        let c = Coordinates { x: (id % w) as i64, y: (id / w) as i64 };
        let ghost before = out@;
        if try_nbr(matrix, id, 0).is_none() {
            out.push((FenceDirection::West, c));
        }
        if try_nbr(matrix, id, 1).is_none() {
            out.push((FenceDirection::East, c));
        }
        if try_nbr(matrix, id, 2).is_none() {
            out.push((FenceDirection::North, c));
        }
        if try_nbr(matrix, id, 3).is_none() {
            out.push((FenceDirection::South, c));
        }
        proof {
            assert(out@ =~= before + cell_fences(g, id as int));
        }
        j += 1;
    }
    out
}


/// What one cell contributes: its open sides, at its own coordinates.
proof fn lemma_cell_fences_props(g: Seq<Vec<char>>, id: int)
    requires
        valid_id(g, id),
        ncells(g) <= i64::MAX,
    ensures
        cell_fences(g, id).no_duplicates(),
        forall|fd: FenceDirection, c: Coordinates|
            #[trigger] cell_fences(g, id).contains((fd, c)) <==> c.x == id % width(g) && c.y == id
                / width(g) && !nbr_ok(g, id, fd.dir_id()),
{
    let cf = cell_fences(g, id);
    let c0 = Coordinates { x: (id % width(g)) as i64, y: (id / width(g)) as i64 };
    lemma_dims_pos(g, id);
    vstd::arithmetic::div_mod::lemma_fundamental_div_mod(id, width(g));
    assert(id % width(g) <= id) by (nonlinear_arith)
        requires
            id == width(g) * (id / width(g)) + id % width(g),
            id / width(g) >= 0,
            width(g) > 0,
            id % width(g) >= 0,
    ;
    vstd::arithmetic::div_mod::lemma_div_nonincreasing(id, width(g));
    assert(c0.x == id % width(g) && c0.y == id / width(g));
    let p0: Seq<(FenceDirection, Coordinates)> = if !nbr_ok(g, id, 0) {
        seq![(dir_of(0), c0)]
    } else {
        Seq::empty()
    };
    let p1: Seq<(FenceDirection, Coordinates)> = if !nbr_ok(g, id, 1) {
        seq![(dir_of(1), c0)]
    } else {
        Seq::empty()
    };
    let p2: Seq<(FenceDirection, Coordinates)> = if !nbr_ok(g, id, 2) {
        seq![(dir_of(2), c0)]
    } else {
        Seq::empty()
    };
    let p3: Seq<(FenceDirection, Coordinates)> = if !nbr_ok(g, id, 3) {
        seq![(dir_of(3), c0)]
    } else {
        Seq::empty()
    };
    let s01 = p0 + p1;
    let s012 = s01 + p2;
    assert(cf == s012 + p3);
    assert forall|k: int|
        0 <= k < cf.len() implies (#[trigger] cf[k]).1 == c0 && !nbr_ok(
        g,
        id,
        cf[k].0.dir_id(),
    ) by {
        if k < s012.len() {
            assert(cf[k] == s012[k]);
            if k < s01.len() {
                assert(s012[k] == s01[k]);
                if k < p0.len() {
                    assert(s01[k] == p0[k]);
                } else {
                    assert(s01[k] == p1[k - p0.len()]);
                }
            } else {
                assert(s012[k] == p2[k - s01.len()]);
            }
        } else {
            assert(cf[k] == p3[k - s012.len()]);
        }
    }
    assert forall|fd: FenceDirection, c: Coordinates|
        #[trigger] cf.contains((fd, c)) implies c.x == id % width(g) && c.y == id / width(g)
        && !nbr_ok(g, id, fd.dir_id()) by {
        let k = choose|k: int| 0 <= k < cf.len() && cf[k] == (fd, c);
        assert(cf[k].0 == fd);
        assert(cf[k].1 == c);
        assert(cf[k].1 == c0 && !nbr_ok(g, id, cf[k].0.dir_id()));
        assert(c == c0);
    }
    assert forall|fd: FenceDirection, c: Coordinates|
        c.x == id % width(g) && c.y == id / width(g) && !nbr_ok(g, id, fd.dir_id()) implies cf.contains(
        (fd, c),
    ) by {
        assert(c == c0);
        match fd {
            FenceDirection::West => assert(cf[0] == (fd, c0)),
            FenceDirection::East => {
                let at = if !nbr_ok(g, id, 0) {
                    1int
                } else {
                    0int
                };
                assert(cf[at] == (fd, c0));
            },
            FenceDirection::North => {
                let at = ind(!nbr_ok(g, id, 0)) + ind(!nbr_ok(g, id, 1));
                assert(cf[at] == (fd, c0));
            },
            FenceDirection::South => {
                let at = ind(!nbr_ok(g, id, 0)) + ind(!nbr_ok(g, id, 1)) + ind(!nbr_ok(g, id, 2));
                assert(cf[at] == (fd, c0));
            },
        }
    }
    assert forall|i1: int, i2: int| 0 <= i1 < i2 < cf.len() implies cf[i1] != cf[i2] by {}
}

/// A fence piece is collected exactly when one of the listed cells owns it.
proof fn lemma_fences_membership(
    g: Seq<Vec<char>>,
    cells: Seq<usize>,
    j: int,
    fd: FenceDirection,
    c: Coordinates,
)
    requires
        ncells(g) <= i64::MAX,
        0 <= j <= cells.len(),
        forall|jj: int| 0 <= jj < cells.len() ==> valid_id(g, #[trigger] cells[jj] as int),
    ensures
        fences_of_cells(g, cells, j).contains((fd, c)) <==> exists|jj: int|
            0 <= jj < j && c.x == (#[trigger] cells[jj]) as int % width(g) && c.y == cells[jj] as int
                / width(g) && !nbr_ok(g, cells[jj] as int, fd.dir_id()),
    decreases j,
{
    if j > 0 {
        lemma_fences_membership(g, cells, j - 1, fd, c);
        lemma_cell_fences_props(g, cells[j - 1] as int);
        let pre = fences_of_cells(g, cells, j - 1);
        let cf = cell_fences(g, cells[j - 1] as int);
        assert(fences_of_cells(g, cells, j) == pre + cf);
        assert forall|x: (FenceDirection, Coordinates)| #[trigger] (pre + cf).contains(x) implies pre.contains(
            x,
        ) || cf.contains(x) by {
            let k = choose|k: int| 0 <= k < (pre + cf).len() && (pre + cf)[k] == x;
            if k < pre.len() {
                assert(pre[k] == x);
            } else {
                assert(cf[k - pre.len()] == x);
            }
        }
        assert forall|x: (FenceDirection, Coordinates)|
            pre.contains(x) || cf.contains(x) implies #[trigger] (pre + cf).contains(x) by {
            if pre.contains(x) {
                let k = choose|k: int| 0 <= k < pre.len() && pre[k] == x;
                assert((pre + cf)[k] == x);
            } else {
                let k = choose|k: int| 0 <= k < cf.len() && cf[k] == x;
                assert((pre + cf)[k + pre.len()] == x);
            }
        }
    }
}

/// Distinct cells contribute distinct fence pieces.
proof fn lemma_fences_nodup(g: Seq<Vec<char>>, cells: Seq<usize>, j: int)
    requires
        ncells(g) <= i64::MAX,
        0 <= j <= cells.len(),
        cells.no_duplicates(),
        forall|jj: int| 0 <= jj < cells.len() ==> valid_id(g, #[trigger] cells[jj] as int),
    ensures
        fences_of_cells(g, cells, j).no_duplicates(),
    decreases j,
{
    if j > 0 {
        lemma_fences_nodup(g, cells, j - 1);
        let id = cells[j - 1] as int;
        lemma_cell_fences_props(g, id);
        let pre = fences_of_cells(g, cells, j - 1);
        let cf = cell_fences(g, id);
        assert forall|i1: int, i2: int|
            0 <= i1 < i2 < (pre + cf).len() implies (pre + cf)[i1] != (pre + cf)[i2] by {
            if i1 < pre.len() && i2 >= pre.len() {
                let a = (pre + cf)[i1];
                let b = (pre + cf)[i2];
                assert(pre[i1] == a);
                assert(cf[i2 - pre.len()] == b);
                if a == b {
                    assert(pre.contains(a));
                    assert(cf.contains(b));
                    lemma_fences_membership(g, cells, j - 1, a.0, a.1);
                    let jj = choose|jj: int|
                        0 <= jj < j - 1 && a.1.x == (#[trigger] cells[jj]) as int % width(g)
                            && a.1.y == cells[jj] as int / width(g) && !nbr_ok(
                            g,
                            cells[jj] as int,
                            a.0.dir_id(),
                        );
                    // the owning cells coincide, contradicting no_duplicates
                    lemma_dims_pos(g, cells[jj] as int);
                    lemma_dims_pos(g, id);
                    vstd::arithmetic::div_mod::lemma_fundamental_div_mod(
                        cells[jj] as int,
                        width(g),
                    );
                    vstd::arithmetic::div_mod::lemma_fundamental_div_mod(id, width(g));
                    assert(cells[jj] as int == id);
                }
            } else if i1 >= pre.len() {
                assert(cf[i1 - pre.len()] != cf[i2 - pre.len()]);
            } else {
                assert(pre[i1] != pre[i2]);
            }
        }
    }
}

/// Split every cell of the grid into its region and report, for each
/// region, its area and the fence pieces around it.
#[verifier::rlimit(100)]
pub fn field_dimensions(matrix: &Vec<Vec<char>>) -> (r: Vec<((Coordinates, char), RegionFences)>)
    requires
        grid_wf(matrix@),
        ncells(matrix@) <= usize::MAX,
        ncells(matrix@) <= i64::MAX,
    ensures
        is_fence_decomposition(matrix@, r@),
{
    let ghost g = matrix@;
    let w = matrix[0].len();
    let h = matrix.len();
    proof {
        assert(w * h == ncells(g)) by (nonlinear_arith)
            requires
                w == width(g),
                h == height(g),
        ;
    }
    let n = w * h;
    let mut visited: Vec<bool> = Vec::new();
    let mut t: usize = 0;
    while t < n
        invariant
            t <= n,
            visited@.len() == t,
            forall|id: int| 0 <= id < t ==> !(#[trigger] visited@[id]),
        decreases n - t,
    {
        visited.push(false);
        t += 1;
    }
    let mut entries: Vec<((Coordinates, char), RegionFences)> = Vec::new();
    let mut x: usize = 0;
    while x < w
        invariant
            g == matrix@,
            grid_wf(g),
            n == ncells(g),
            n <= usize::MAX,
            n <= i64::MAX,
            w == width(g),
            h == height(g),
            n == w * h,
            x <= w,
            visited@.len() == n,
            forall|id: int|
                0 <= id < n ==> visited@[id] == exists|k: int|
                    0 <= k < entries@.len() && connected(
                        g,
                        fence_entry_rid(g, #[trigger] entries@[k]),
                        id,
                    ),
            forall|id: int| 0 <= id < n && col_rank(g, id) < x * h ==> visited@[id],
            forall|k: int| 0 <= k < entries@.len() ==> fence_entry_ok(g, #[trigger] entries@[k]),
            forall|k1: int, k2: int|
                0 <= k1 < k2 < entries@.len() ==> !connected(
                    g,
                    fence_entry_rid(g, entries@[k1]),
                    fence_entry_rid(g, entries@[k2]),
                ),
        decreases w - x,
    {
        let mut y: usize = 0;
        while y < h
            invariant
                g == matrix@,
                grid_wf(g),
                n == ncells(g),
                n <= usize::MAX,
                n <= i64::MAX,
                w == width(g),
                h == height(g),
                n == w * h,
                x < w,
                y <= h,
                visited@.len() == n,
                forall|id: int|
                    0 <= id < n ==> visited@[id] == exists|k: int|
                        0 <= k < entries@.len() && connected(
                            g,
                            fence_entry_rid(g, #[trigger] entries@[k]),
                            id,
                        ),
                forall|id: int| 0 <= id < n && col_rank(g, id) < x * h + y ==> visited@[id],
                forall|k: int|
                    0 <= k < entries@.len() ==> fence_entry_ok(g, #[trigger] entries@[k]),
                forall|k1: int, k2: int|
                    0 <= k1 < k2 < entries@.len() ==> !connected(
                        g,
                        fence_entry_rid(g, entries@[k1]),
                        fence_entry_rid(g, entries@[k2]),
                    ),
            decreases h - y,
        {
            let ghost rank = x * h + y;
            proof {
                assert(y * w + x < w * h) by (nonlinear_arith)
                    requires
                        0 <= x < w,
                        0 <= y < h,
                ;
            }
            let i = y * w + x;
            proof {
                vstd::arithmetic::div_mod::lemma_fundamental_div_mod_converse(
                    i as int,
                    w as int,
                    y as int,
                    x as int,
                );
                assert(col_rank(g, i as int) == rank);
            }
            if !visited[i] {
                proof {
                    assert forall|a: int, b: int|
                        0 <= a < ncells(g) && visited@[a] && #[trigger] adj_step(g, a, b) implies visited@[b] by {
                        let k = choose|k: int|
                            0 <= k < entries@.len() && connected(
                                g,
                                fence_entry_rid(g, entries@[k]),
                                a,
                            );
                        lemma_connected_step(g, a, b);
                        lemma_connected_trans(g, fence_entry_rid(g, entries@[k]), a, b);
                        lemma_step_b_valid(g, a, b);
                    }
                }
                let ghost vis_before = visited@;
                let cells = flood_region(matrix, &mut visited, i);
                proof {
                    lemma_bounded_nodup_len(cells@, n as int);
                }
                let area = cells.len();
                let fences = collect_fences(matrix, &cells);
                proof {
                    assert(cells@.take(cells@.len() as int) =~= cells@);
                    lemma_region_sums(g, i as int, cells@, n as int);
                    lemma_fences_nodup(g, cells@, cells@.len() as int);
                }
                let root = Coordinates { x: x as i64, y: y as i64 };
                let sym = sym_of(matrix, i);
                let ghost entries_old = entries@;
                entries.push(((root, sym), RegionFences { area, fences }));
                proof {
                    let e = entries@[entries@.len() - 1];
                    assert(fence_entry_rid(g, e) == i);
                    assert(fence_entry_ok(g, e)) by {
                        assert(e.1.area == region_area(g, i as int));
                        assert forall|k: int|
                            0 <= k < e.1.fences@.len() implies is_fence_of(
                            g,
                            i as int,
                            (#[trigger] e.1.fences@[k]).0,
                            e.1.fences@[k].1,
                        ) by {
                            let piece = e.1.fences@[k];
                            assert(e.1.fences@.contains(piece));
                            lemma_fences_membership(
                                g,
                                cells@,
                                cells@.len() as int,
                                piece.0,
                                piece.1,
                            );
                            let jj = choose|jj: int|
                                0 <= jj < cells@.len() && piece.1.x == (#[trigger] cells@[jj]) as int
                                    % width(g) && piece.1.y == cells@[jj] as int / width(g)
                                    && !nbr_ok(g, cells@[jj] as int, piece.0.dir_id());
                            lemma_dims_pos(g, cells@[jj] as int);
                            vstd::arithmetic::div_mod::lemma_fundamental_div_mod(
                                cells@[jj] as int,
                                width(g),
                            );
                            assert(piece.1.y * width(g) + piece.1.x == cells@[jj] as int);
                        }
                        assert forall|fd: FenceDirection, c: Coordinates|
                            is_fence_of(g, i as int, fd, c) implies e.1.fences@.contains(
                            (fd, c),
                        ) by {
                            let cid = c.y * width(g) + c.x;
                            lemma_path_end_valid(g, i as int, cid);
                            assert(cells@.contains(cid as usize));
                            let jj = choose|jj: int|
                                0 <= jj < cells@.len() && cells@[jj] == cid as usize;
                            lemma_dims_pos(g, cid);
                            vstd::arithmetic::div_mod::lemma_fundamental_div_mod_converse(
                                cid,
                                width(g),
                                c.y as int,
                                c.x as int,
                            );
                            lemma_fences_membership(g, cells@, cells@.len() as int, fd, c);
                        }
                        assert forall|id: int| connected(g, i as int, id) implies col_rank(g, id)
                            >= col_rank(g, i as int) by {
                            lemma_path_end_valid(g, i as int, id);
                            if col_rank(g, id) < rank {
                                assert(vis_before[id]);
                                let k = choose|k: int|
                                    0 <= k < entries_old.len() && connected(
                                        g,
                                        fence_entry_rid(g, entries_old[k]),
                                        id,
                                    );
                                lemma_connected_sym(g, i as int, id);
                                lemma_connected_trans(
                                    g,
                                    fence_entry_rid(g, entries_old[k]),
                                    id,
                                    i as int,
                                );
                                assert(vis_before[i as int]);
                            }
                        }
                    }
                    assert forall|k: int| 0 <= k < entries@.len() implies fence_entry_ok(
                        g,
                        #[trigger] entries@[k],
                    ) by {
                        if k < entries_old.len() {
                            assert(entries@[k] == entries_old[k]);
                        }
                    }
                    assert forall|k1: int, k2: int|
                        0 <= k1 < k2 < entries@.len() implies !connected(
                        g,
                        fence_entry_rid(g, entries@[k1]),
                        fence_entry_rid(g, entries@[k2]),
                    ) by {
                        if k2 < entries_old.len() {
                            assert(entries@[k1] == entries_old[k1]);
                            assert(entries@[k2] == entries_old[k2]);
                        } else {
                            assert(entries@[k1] == entries_old[k1]);
                            assert(entries@[k2] == e);
                            if connected(g, fence_entry_rid(g, entries_old[k1]), i as int) {
                                assert(vis_before[i as int]);
                            }
                        }
                    }
                    assert forall|id: int|
                        0 <= id < n implies visited@[id] == exists|k: int|
                            0 <= k < entries@.len() && connected(
                                g,
                                fence_entry_rid(g, #[trigger] entries@[k]),
                                id,
                            ) by {
                        if visited@[id] {
                            if vis_before[id] {
                                let k = choose|k: int|
                                    0 <= k < entries_old.len() && connected(
                                        g,
                                        fence_entry_rid(g, entries_old[k]),
                                        id,
                                    );
                                assert(entries@[k] == entries_old[k]);
                                assert(connected(g, fence_entry_rid(g, entries@[k]), id));
                            } else {
                                assert(connected(g, i as int, id));
                                assert(connected(
                                    g,
                                    fence_entry_rid(g, entries@[entries@.len() - 1]),
                                    id,
                                ));
                            }
                        } else {
                            if exists|k: int|
                                0 <= k < entries@.len() && connected(
                                    g,
                                    fence_entry_rid(g, #[trigger] entries@[k]),
                                    id,
                                ) {
                                let k = choose|k: int|
                                    0 <= k < entries@.len() && connected(
                                        g,
                                        fence_entry_rid(g, #[trigger] entries@[k]),
                                        id,
                                    );
                                if k < entries_old.len() {
                                    assert(entries_old[k] == entries@[k]);
                                    assert(vis_before[id]);
                                } else {
                                    assert(connected(g, i as int, id));
                                }
                            }
                        }
                    }
                }
            }
            proof {
                lemma_connected_refl(g, i as int);
                assert(visited@[i as int]);
                assert forall|id: int|
                    0 <= id < n && col_rank(g, id) < rank + 1 implies visited@[id] by {
                    if col_rank(g, id) == rank {
                        lemma_col_rank_injective(g, id, i as int);
                    }
                }
            }
            y += 1;
        }
        proof {
            assert((x + 1) * h == x * h + h) by (nonlinear_arith);
        }
        x += 1;
    }
    proof {
        reveal(is_fence_decomposition);
        assert forall|id: int| valid_id(g, id) implies exists|k: int|
            0 <= k < entries@.len() && connected(g, fence_entry_rid(g, #[trigger] entries@[k]), id) by {
            assert(col_rank(g, id) < w * h) by {
                lemma_dims_pos(g, id);
                assert((id % (w as int)) * (h as int) + id / (w as int) < (w as int) * (h as int))
                    by (nonlinear_arith)
                    requires
                        0 <= id % (w as int) < w as int,
                        0 <= id / (w as int) < h as int,
                        w as int > 0,
                        h as int > 0,
                ;
            }
            assert(visited@[id]);
        }
    }
    entries
}


/// b is the piece just before a in the same straight run: the same side of
/// the previous cell along the run's direction.
pub open spec fn run_predecessor(
    a: (FenceDirection, Coordinates),
    b: (FenceDirection, Coordinates),
) -> bool {
    &&& a.0 == b.0
    &&& (match a.0 {
        FenceDirection::North | FenceDirection::South => b.1.y == a.1.y && b.1.x == a.1.x - 1,
        FenceDirection::East | FenceDirection::West => b.1.x == a.1.x && b.1.y == a.1.y - 1,
    })
}

/// Entry k begins a side: no listed piece immediately precedes it in its
/// run.
pub open spec fn is_run_start(fs: Seq<(FenceDirection, Coordinates)>, k: int) -> bool {
    !exists|j: int| 0 <= j < fs.len() && run_predecessor(fs[k], #[trigger] fs[j])
}

/// Number of sides among the first n fence pieces: each maximal straight
/// run is counted once, at the piece that begins it.
pub open spec fn side_count(fs: Seq<(FenceDirection, Coordinates)>, n: int) -> int
    decreases n,
{
    if n <= 0 {
        0
    } else {
        side_count(fs, n - 1) + ind(is_run_start(fs, n - 1))
    }
}

/// Does some listed piece immediately precede entry k in its run?
fn has_run_predecessor(fences: &Vec<(FenceDirection, Coordinates)>, k: usize) -> (r: bool)
    requires
        k < fences@.len(),
        forall|j: int|
            0 <= j < fences@.len() ==> 0 <= (#[trigger] fences@[j]).1.x < i64::MAX && 0
                <= fences@[j].1.y < i64::MAX,
    ensures
        r == !is_run_start(fences@, k as int),
{
    let a = fences[k];
    let mut j: usize = 0;
    while j < fences.len()
        invariant
            k < fences@.len(),
            a == fences@[k as int],
            forall|jj: int|
                0 <= jj < fences@.len() ==> 0 <= (#[trigger] fences@[jj]).1.x < i64::MAX && 0
                    <= fences@[jj].1.y < i64::MAX,
            j <= fences@.len(),
            forall|jj: int| 0 <= jj < j ==> !run_predecessor(a, #[trigger] fences@[jj]),
        decreases fences@.len() - j,
    {
        let b = fences[j];
        let horizontal = match a.0 {
            FenceDirection::North | FenceDirection::South => true,
            FenceDirection::East | FenceDirection::West => false,
        };
        let hit = if horizontal {
            a.0 == b.0 && b.1.y == a.1.y && b.1.x + 1 == a.1.x
        } else {
            a.0 == b.0 && b.1.x == a.1.x && b.1.y + 1 == a.1.y
        };
        if hit {
            proof {
                assert(run_predecessor(fences@[k as int], fences@[j as int]));
            }
            return true;
        }
        j += 1;
    }
    false
}

/// The fence price of a region: its area times its number of sides.
pub fn dimension_to_cost(dim: &RegionFences) -> (r: usize)
    requires
        forall|j: int|
            0 <= j < dim.fences@.len() ==> 0 <= (#[trigger] dim.fences@[j]).1.x < i64::MAX && 0
                <= dim.fences@[j].1.y < i64::MAX,
        dim.area * side_count(dim.fences@, dim.fences@.len() as int) <= usize::MAX,
    ensures
        r == dim.area * side_count(dim.fences@, dim.fences@.len() as int),
{
    let mut sides: usize = 0;
    let mut k: usize = 0;
    while k < dim.fences.len()
        invariant
            forall|j: int|
                0 <= j < dim.fences@.len() ==> 0 <= (#[trigger] dim.fences@[j]).1.x < i64::MAX && 0
                    <= dim.fences@[j].1.y < i64::MAX,
            k <= dim.fences@.len(),
            sides == side_count(dim.fences@, k as int),
            sides <= k,
        decreases dim.fences@.len() - k,
    {
        if !has_run_predecessor(&dim.fences, k) {
            sides += 1;
        }
        k += 1;
    }
    proof {
        lemma_side_count_nonneg(dim.fences@, dim.fences@.len() as int);
        assert(dim.area * sides == dim.area * side_count(
            dim.fences@,
            dim.fences@.len() as int,
        ));
    }
    dim.area * sides
}

proof fn lemma_side_count_nonneg(fs: Seq<(FenceDirection, Coordinates)>, n: int)
    ensures
        side_count(fs, n) >= 0,
    decreases n,
{
    if n > 0 {
        lemma_side_count_nonneg(fs, n - 1);
    }
}

/// Values of the list that start a maximal run of consecutive integers,
/// among the first n entries.
pub open spec fn section_count(s: Seq<i64>, n: int) -> int
    decreases n,
{
    if n <= 0 {
        0
    } else {
        section_count(s, n - 1) + ind(!s.contains((s[n - 1] - 1) as i64))
    }
}

/// Number of maximal runs of consecutive integers in a duplicate-free list;
/// an empty list counts as one section, as the break counting of the
/// original had it.
pub fn num_continuous_sections(coords: &Vec<i64>) -> (r: usize)
    requires
        coords@.no_duplicates(),
        forall|j: int| 0 <= j < coords@.len() ==> i64::MIN < #[trigger] coords@[j],
    ensures
        coords@.len() == 0 ==> r == 1,
        coords@.len() > 0 ==> r == section_count(coords@, coords@.len() as int),
{
    if coords.len() == 0 {
        return 1;
    }
    let mut cnt: usize = 0;
    let mut k: usize = 0;
    while k < coords.len()
        invariant
            forall|j: int| 0 <= j < coords@.len() ==> i64::MIN < #[trigger] coords@[j],
            k <= coords@.len(),
            cnt == section_count(coords@, k as int),
            cnt <= k,
        decreases coords@.len() - k,
    {
        let v = coords[k];
        let target = v - 1;
        let mut found = false;
        let mut j: usize = 0;
        while j < coords.len()
            invariant
                k < coords@.len(),
                target == coords@[k as int] - 1,
                j <= coords@.len(),
                found == exists|jj: int| 0 <= jj < j && #[trigger] coords@[jj] == target,
            decreases coords@.len() - j,
        {
            if coords[j] == target {
                found = true;
            }
            j += 1;
        }
        proof {
            if found {
                let jj = choose|jj: int| 0 <= jj < coords@.len() && #[trigger] coords@[jj] == target;
                assert(coords@.contains(target));
            } else {
                if coords@.contains(target) {
                    let jj = choose|jj: int|
                        0 <= jj < coords@.len() && coords@[jj] == target;
                    assert(false);
                }
            }
        }
        if !found {
            cnt += 1;
        }
        k += 1;
    }
    cnt
}

} // verus!
