use vstd::prelude::*;
use crate::coords::Coordinates;
use crate::grid::grid_wf;

verus! {

pub open spec fn is_alnum(c: char) -> bool {
    ('0' <= c && c <= '9') || ('a' <= c && c <= 'z') || ('A' <= c && c <= 'Z')
}

fn is_alnum_exec(c: char) -> (r: bool)
    ensures
        r == is_alnum(c),
{
    ('0' <= c && c <= '9') || ('a' <= c && c <= 'z') || ('A' <= c && c <= 'Z')
}

/// The antenna frequencies of the first k cells (row-major), in order of
/// first appearance, each once.
pub open spec fn syms_upto(m: Seq<Vec<char>>, k: int) -> Seq<char>
    decreases k,
{
    let w = m[0]@.len() as int;
    if k <= 0 {
        Seq::empty()
    } else {
        let p = syms_upto(m, k - 1);
        let c = m[(k - 1) / w]@[(k - 1) % w];
        if is_alnum(c) && !p.contains(c) {
            p.push(c)
        } else {
            p
        }
    }
}

/// The cells among the first k that hold the frequency c, in row-major
/// order.
pub open spec fn antenna_coords(m: Seq<Vec<char>>, c: char, k: int) -> Seq<Coordinates>
    decreases k,
{
    let w = m[0]@.len() as int;
    if k <= 0 {
        Seq::empty()
    } else {
        let p = antenna_coords(m, c, k - 1);
        if m[(k - 1) / w]@[(k - 1) % w] == c {
            p.push(Coordinates { x: ((k - 1) % w) as i64, y: ((k - 1) / w) as i64 })
        } else {
            p
        }
    }
}

/// The cells of one frequency, scanned row-major.
fn coords_of_symbol(matrix: &Vec<Vec<char>>, c: char) -> (r: Vec<Coordinates>)
    requires
        grid_wf(matrix@),
        matrix@.len() * matrix@[0]@.len() <= usize::MAX,
        matrix@.len() * matrix@[0]@.len() <= i64::MAX,
    ensures
        r@ == antenna_coords(matrix@, c, (matrix@.len() * matrix@[0]@.len()) as int),
{
    let ghost g = matrix@;
    let w = matrix[0].len();
    let h = matrix.len();
    proof {
        assert(w * h == h * w) by (nonlinear_arith);
    }
    let n = w * h;
    let mut out: Vec<Coordinates> = Vec::new();
    let mut i: usize = 0;
    while i < n
        invariant
            g == matrix@,
            grid_wf(g),
            w == g[0]@.len(),
            h == g.len(),
            n == h * w,
            n <= i64::MAX,
            i <= n,
            out@ == antenna_coords(g, c, i as int),
        decreases n - i,
    {
        proof {
            assert(crate::garden::valid_id(g, i as int)) by {
                assert(g[0]@.len() * g.len() == g.len() * g[0]@.len()) by (nonlinear_arith);
            }
            crate::garden::lemma_dims_pos(g, i as int);
        }
        let y = i / w;
        let x = i % w;
        if matrix[y][x] == c {
            out.push(Coordinates { x: x as i64, y: y as i64 });
        }
        i += 1;
    }
    out
}

/// The antennas of the grid, grouped by frequency: frequencies in order of
/// first appearance, each with its cells in row-major order.
pub fn get_antennas(matrix: &Vec<Vec<char>>) -> (r: Vec<(char, Vec<Coordinates>)>)
    requires
        grid_wf(matrix@),
        matrix@.len() * matrix@[0]@.len() <= usize::MAX,
        matrix@.len() * matrix@[0]@.len() <= i64::MAX,
    ensures
        ({
            let n = (matrix@.len() * matrix@[0]@.len()) as int;
            &&& r@.len() == syms_upto(matrix@, n as int).len()
            &&& forall|k: int|
                0 <= k < r@.len() ==> (#[trigger] r@[k]).0 == syms_upto(matrix@, n as int)[k]
                    && r@[k].1@ == antenna_coords(matrix@, r@[k].0, n as int)
        }),
{
    let ghost g = matrix@;
    let w = matrix[0].len();
    let h = matrix.len();
    proof {
        assert(w * h == h * w) by (nonlinear_arith);
    }
    let n = w * h;
    let mut syms: Vec<char> = Vec::new();
    let mut i: usize = 0;
    while i < n
        invariant
            g == matrix@,
            grid_wf(g),
            w == g[0]@.len(),
            h == g.len(),
            n == h * w,
            n <= i64::MAX,
            i <= n,
            syms@ == syms_upto(g, i as int),
        decreases n - i,
    {
        proof {
            assert(crate::garden::valid_id(g, i as int)) by {
                assert(g[0]@.len() * g.len() == g.len() * g[0]@.len()) by (nonlinear_arith);
            }
            crate::garden::lemma_dims_pos(g, i as int);
        }
        let y = i / w;
        let x = i % w;
        let c = matrix[y][x];
        if is_alnum_exec(c) {
            let mut seen = false;
            let mut k: usize = 0;
            while k < syms.len()
                invariant
                    k <= syms@.len(),
                    seen == exists|j: int| 0 <= j < k && #[trigger] syms@[j] == c,
                decreases syms@.len() - k,
            {
                if syms[k] == c {
                    seen = true;
                }
                k += 1;
            }
            proof {
                if seen {
                    let j = choose|j: int| 0 <= j < syms@.len() && #[trigger] syms@[j] == c;
                    assert(syms@.contains(c));
                } else {
                    if syms@.contains(c) {
                        let j = choose|j: int| 0 <= j < syms@.len() && syms@[j] == c;
                        assert(false);
                    }
                }
            }
            if !seen {
                syms.push(c);
            }
        }
        i += 1;
    }
    let mut out: Vec<(char, Vec<Coordinates>)> = Vec::new();
    let mut k: usize = 0;
    while k < syms.len()
        invariant
            g == matrix@,
            grid_wf(g),
            w == g[0]@.len(),
            h == g.len(),
            n == h * w,
            n <= usize::MAX,
            n <= i64::MAX,
            syms@ == syms_upto(g, n as int),
            k <= syms@.len(),
            out@.len() == k,
            forall|j: int|
                0 <= j < k ==> (#[trigger] out@[j]).0 == syms@[j] && out@[j].1@ == antenna_coords(
                    g,
                    syms@[j],
                    n as int,
                ),
        decreases syms@.len() - k,
    {
        let c = syms[k];
        let coords = coords_of_symbol(matrix, c);
        out.push((c, coords));
        k += 1;
    }
    out
}

/// p is an antinode of the antenna set: twice one antenna minus another,
/// inside the field.
pub open spec fn is_antinode(
    ants: Seq<Coordinates>,
    field_size: Coordinates,
    p: Coordinates,
) -> bool {
    exists|i: int, j: int|
        0 <= i < ants.len() && 0 <= j < ants.len() && i != j && p.x == 2 * (#[trigger] ants[i]).x
            - (#[trigger] ants[j]).x && p.y == 2 * ants[i].y - ants[j].y && p.in_bounds(field_size)
}

/// The antinodes of one frequency's antennas: for every ordered pair of
/// distinct antennas, the point mirroring the second across the first, kept
/// when it lies on the field; each antinode listed once.
pub fn get_antinodes(field_size: Coordinates, antennas: &Vec<Coordinates>) -> (r: Vec<Coordinates>)
    requires
        0 < field_size.x <= 1000000000,
        0 < field_size.y <= 1000000000,
        forall|k: int| 0 <= k < antennas@.len() ==> (#[trigger] antennas@[k]).in_bounds(field_size),
    ensures
        r@.no_duplicates(),
        forall|p: Coordinates|
            #[trigger] r@.contains(p) <==> is_antinode(antennas@, field_size, p),
{
    let mut out: Vec<Coordinates> = Vec::new();
    let mut i: usize = 0;
    while i < antennas.len()
        invariant
            0 < field_size.x <= 1000000000,
            0 < field_size.y <= 1000000000,
            forall|k: int|
                0 <= k < antennas@.len() ==> (#[trigger] antennas@[k]).in_bounds(field_size),
            i <= antennas@.len(),
            out@.no_duplicates(),
            forall|p: Coordinates|
                #[trigger] out@.contains(p) <==> exists|a: int, b: int|
                    0 <= a < antennas@.len() && 0 <= b < antennas@.len() && a != b && (a < i) && p.x
                        == 2 * (#[trigger] antennas@[a]).x - (#[trigger] antennas@[b]).x && p.y == 2
                        * antennas@[a].y - antennas@[b].y && p.in_bounds(field_size),
        decreases antennas@.len() - i,
    {
        let a = antennas[i];
        let mut j: usize = 0;
        while j < antennas.len()
            invariant
                0 < field_size.x <= 1000000000,
                0 < field_size.y <= 1000000000,
                forall|k: int|
                    0 <= k < antennas@.len() ==> (#[trigger] antennas@[k]).in_bounds(field_size),
                i < antennas@.len(),
                a == antennas@[i as int],
                j <= antennas@.len(),
                out@.no_duplicates(),
                forall|p: Coordinates|
                    #[trigger] out@.contains(p) <==> exists|aa: int, bb: int|
                        0 <= aa < antennas@.len() && 0 <= bb < antennas@.len() && aa != bb && (aa
                            < i || (aa == i && bb < j)) && p.x == 2 * (#[trigger] antennas@[aa]).x
                            - (#[trigger] antennas@[bb]).x && p.y == 2 * antennas@[aa].y
                            - antennas@[bb].y && p.in_bounds(field_size),
            decreases antennas@.len() - j,
        {
            if j != i {
                let b = antennas[j];
                let cand = Coordinates { x: 2 * a.x - b.x, y: 2 * a.y - b.y };
                let ghost out_pre = out@;
                if cand.is_within_bounds(field_size) {
                    let mut dup = false;
                    let mut k: usize = 0;
                    while k < out.len()
                        invariant
                            k <= out@.len(),
                            dup == exists|kk: int| 0 <= kk < k && #[trigger] out@[kk] == cand,
                        decreases out@.len() - k,
                    {
                        if out[k] == cand {
                            dup = true;
                        }
                        k += 1;
                    }
                    proof {
                        if dup {
                            let kk = choose|kk: int|
                                0 <= kk < out@.len() && #[trigger] out@[kk] == cand;
                            assert(out@.contains(cand));
                        } else {
                            if out@.contains(cand) {
                                let kk = choose|kk: int|
                                    0 <= kk < out@.len() && out@[kk] == cand;
                                assert(false);
                            }
                        }
                    }
                    if !dup {
                        out.push(cand);
                        proof {
                            assert forall|i1: int, i2: int|
                                0 <= i1 < i2 < out@.len() implies out@[i1] != out@[i2] by {
                                if i2 == out@.len() - 1 {
                                    assert(out@[i1] == out_pre[i1]);
                                    assert(out_pre.contains(out_pre[i1]));
                                }
                            }
                            assert forall|p: Coordinates| #[trigger] out@.contains(p) implies
                                out_pre.contains(p) || p == cand by {
                                let kk = choose|kk: int|
                                    0 <= kk < out@.len() && out@[kk] == p;
                                if kk < out_pre.len() {
                                    assert(out_pre[kk] == p);
                                }
                            }
                            assert forall|p: Coordinates| out_pre.contains(p) implies
                                out@.contains(p) by {
                                let kk = choose|kk: int|
                                    0 <= kk < out_pre.len() && out_pre[kk] == p;
                                assert(out@[kk] == p);
                            }
                            assert(out@.contains(cand)) by {
                                assert(out@[out@.len() - 1] == cand);
                            }
                        }
                    }
                }
                proof {
                    assert forall|p: Coordinates| #[trigger] out@.contains(p) implies exists|
                        aa: int,
                        bb: int,
                    |
                        0 <= aa < antennas@.len() && 0 <= bb < antennas@.len() && aa != bb && (aa
                            < i || (aa == i && bb < j + 1)) && p.x == 2 * (
                        #[trigger] antennas@[aa]).x - (#[trigger] antennas@[bb]).x && p.y == 2
                        * antennas@[aa].y - antennas@[bb].y && p.in_bounds(field_size) by {
                        if out_pre.contains(p) {
                        } else {
                            assert(p == cand);
                            assert(cand.in_bounds(field_size));
                            assert(p.x == 2 * antennas@[i as int].x - antennas@[j as int].x);
                        }
                    }
                    assert forall|p: Coordinates, aa: int, bb: int|
                        0 <= aa < antennas@.len() && 0 <= bb < antennas@.len() && aa != bb && (aa
                            < i || (aa == i && bb < j + 1)) && p.x == 2 * (
                    #[trigger] antennas@[aa]).x - (#[trigger] antennas@[bb]).x && p.y == 2
                        * antennas@[aa].y - antennas@[bb].y && p.in_bounds(field_size) implies
                        #[trigger] out@.contains(p) by {
                        if aa < i as int || bb < j as int {
                            assert(out_pre.contains(p));
                        } else {
                            assert(aa == i as int && bb == j as int);
                            assert(p == cand);
                        }
                    }
                }
            }
            j += 1;
        }
        i += 1;
    }
    proof {
        assert forall|p: Coordinates| #[trigger] out@.contains(p) implies is_antinode(
            antennas@,
            field_size,
            p,
        ) by {
        }
        assert forall|p: Coordinates| is_antinode(antennas@, field_size, p) implies out@.contains(
            p,
        ) by {
            let (a, b) = choose|a: int, b: int|
                0 <= a < antennas@.len() && 0 <= b < antennas@.len() && a != b && p.x == 2 * (
                #[trigger] antennas@[a]).x - (#[trigger] antennas@[b]).x && p.y == 2
                    * antennas@[a].y - antennas@[b].y && p.in_bounds(field_size);
        }
    }
    out
}

} // verus!
