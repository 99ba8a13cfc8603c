use vstd::prelude::*;
use crate::coords::Coordinates;

verus! {

/// One lobby robot: a position on the board and a constant velocity.
#[derive(Clone, Copy, PartialEq, Eq, Debug, Structural)]
pub struct Robot {
    pub position: Coordinates,
    pub velocity: Coordinates,
}

/// Bounds under which n steps of teleporting motion stay inside an i64.
pub open spec fn robot_in_range(r: Robot, n: i64, bounds: Coordinates) -> bool {
    &&& 0 < bounds.x <= 1000000
    &&& 0 < bounds.y <= 1000000
    &&& 0 <= r.position.x < bounds.x
    &&& 0 <= r.position.y < bounds.y
    &&& -1000000 <= r.velocity.x <= 1000000
    &&& -1000000 <= r.velocity.y <= 1000000
    &&& -1000000000000 <= n <= 1000000000000
}

/// Where the robot stands after n steps, wrapping around the board edges.
pub fn robot_position_after_n_steps(robot: Robot, n: i64, bounds: Coordinates) -> (r: Coordinates)
    requires
        robot_in_range(robot, n, bounds),
    ensures
        r.x == (robot.position.x + (robot.velocity.x * n) % (bounds.x as int)) % (bounds.x as int),
        r.y == (robot.position.y + (robot.velocity.y * n) % (bounds.y as int)) % (bounds.y as int),
        0 <= r.x < bounds.x,
        0 <= r.y < bounds.y,
{
    proof {
        assert(-1000000000000000000 <= robot.velocity.x * n <= 1000000000000000000
            && -1000000000000000000 <= robot.velocity.y * n <= 1000000000000000000)
            by (nonlinear_arith)
            requires
                -1000000 <= robot.velocity.x <= 1000000,
                -1000000 <= robot.velocity.y <= 1000000,
                -1000000000000 <= n <= 1000000000000,
        ;
        vstd::arithmetic::div_mod::lemma_mod_division_less_than_divisor(
            (robot.velocity.x * n) as int,
            bounds.x as int,
        );
        vstd::arithmetic::div_mod::lemma_mod_division_less_than_divisor(
            (robot.velocity.y * n) as int,
            bounds.y as int,
        );
        vstd::arithmetic::div_mod::lemma_mod_division_less_than_divisor(
            (robot.position.x + (robot.velocity.x * n) % (bounds.x as int)) as int,
            bounds.x as int,
        );
        vstd::arithmetic::div_mod::lemma_mod_division_less_than_divisor(
            (robot.position.y + (robot.velocity.y * n) % (bounds.y as int)) as int,
            bounds.y as int,
        );
    }
    let shift = robot.velocity.wrapping_mul_bounds(n, bounds);
    robot.position.wrapping_add_bounds(shift, bounds)
}


/// The board position after n steps, written out: each axis advances by
/// velocity times n, wrapped by the Euclidean remainder.
pub open spec fn pos_after(r: Robot, n: int, bounds: Coordinates) -> Coordinates {
    Coordinates {
        x: ((r.position.x + (r.velocity.x * n) % (bounds.x as int)) % (bounds.x as int)) as i64,
        y: ((r.position.y + (r.velocity.y * n) % (bounds.y as int)) % (bounds.y as int)) as i64,
    }
}

/// The quadrant of a cell: robots on the middle row or column count for
/// none; otherwise left/right of the middle column gives bit one and
/// above/below the middle row bit two.
pub open spec fn quadrant_of(c: Coordinates, bounds: Coordinates) -> Option<int> {
    let xm = bounds.x as int / 2;
    let ym = bounds.y as int / 2;
    if c.x == xm || c.y == ym {
        None
    } else {
        Some(
            (if c.x < xm {
                0int
            } else {
                1int
            }) + (if c.y < ym {
                0int
            } else {
                2int
            }),
        )
    }
}

/// Robots among the first k that stand in quadrant q after n steps.
pub open spec fn quadrant_count(
    rs: Seq<Robot>,
    n: int,
    bounds: Coordinates,
    q: int,
    k: int,
) -> int
    decreases k,
{
    if k <= 0 {
        0
    } else {
        quadrant_count(rs, n, bounds, q, k - 1) + (if quadrant_of(
            pos_after(rs[k - 1], n, bounds),
            bounds,
        ) == Some(q) {
            1int
        } else {
            0int
        })
    }
}

/// The safety score: the product of the four quadrant head counts.
pub open spec fn quadrant_product(rs: Seq<Robot>, n: int, bounds: Coordinates) -> int {
    let k = rs.len() as int;
    quadrant_count(rs, n, bounds, 0, k) * quadrant_count(rs, n, bounds, 1, k) * quadrant_count(
        rs,
        n,
        bounds,
        2,
        k,
    ) * quadrant_count(rs, n, bounds, 3, k)
}

/// The product of the quadrant head counts after n steps of every robot.
pub fn safety_score_after_n_steps(robots: &Vec<Robot>, n: i64, bounds: Coordinates) -> (r: usize)
    requires
        forall|j: int|
            0 <= j < robots@.len() ==> robot_in_range(#[trigger] robots@[j], n, bounds),
        robots@.len() <= 65535,
        quadrant_product(robots@, n as int, bounds) <= usize::MAX,
    ensures
        r == quadrant_product(robots@, n as int, bounds),
{
    let mut c0: u64 = 0;
    let mut c1: u64 = 0;
    let mut c2: u64 = 0;
    let mut c3: u64 = 0;
    let mut j: usize = 0;
    while j < robots.len()
        invariant
            forall|jj: int|
                0 <= jj < robots@.len() ==> robot_in_range(#[trigger] robots@[jj], n, bounds),
            robots@.len() <= 65535,
            j <= robots@.len(),
            c0 == quadrant_count(robots@, n as int, bounds, 0, j as int),
            c1 == quadrant_count(robots@, n as int, bounds, 1, j as int),
            c2 == quadrant_count(robots@, n as int, bounds, 2, j as int),
            c3 == quadrant_count(robots@, n as int, bounds, 3, j as int),
            c0 <= j && c1 <= j && c2 <= j && c3 <= j,
        decreases robots@.len() - j,
    {
        let p = robot_position_after_n_steps(robots[j], n, bounds);
        proof {
            assert(p == pos_after(robots@[j as int], n as int, bounds));
        }
        let xm = bounds.x / 2;
        let ym = bounds.y / 2;
        if !(p.x == xm || p.y == ym) {
            let q = (if p.x < xm {
                0u64
            } else {
                1u64
            }) + (if p.y < ym {
                0u64
            } else {
                2u64
            });
            proof {
                assert(quadrant_of(pos_after(robots@[j as int], n as int, bounds), bounds) == Some(
                    q as int,
                ));
            }
            if q == 0 {
                c0 = c0 + 1;
            } else if q == 1 {
                c1 = c1 + 1;
            } else if q == 2 {
                c2 = c2 + 1;
            } else {
                c3 = c3 + 1;
            }
        }
        j += 1;
    }
    proof {
        assert(c0 * c1 <= 65535 * 65535) by (nonlinear_arith)
            requires
                0 <= c0 <= 65535,
                0 <= c1 <= 65535,
        ;
        assert((c0 * c1) * c2 <= 65535 * 65535 * 65535) by (nonlinear_arith)
            requires
                0 <= c0 * c1 <= 65535 * 65535,
                0 <= c2 <= 65535,
        ;
        assert(((c0 * c1) * c2) * c3 <= 65535 * 65535 * 65535 * 65535) by (nonlinear_arith)
            requires
                0 <= (c0 * c1) * c2 <= 65535 * 65535 * 65535,
                0 <= c3 <= 65535,
        ;
        assert(c0 * c1 >= 0 && (c0 * c1) * c2 >= 0 && ((c0 * c1) * c2) * c3 >= 0)
            by (nonlinear_arith)
            requires
                c0 >= 0,
                c1 >= 0,
                c2 >= 0,
                c3 >= 0,
        ;
    }
    let prod: u64 = c0 * c1 * c2 * c3;
    prod as usize
}

} // verus!
