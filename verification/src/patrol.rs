use vstd::prelude::*;
use crate::coords::Coordinates;

verus! {

/// The guard's heading.
#[derive(Clone, Copy, PartialEq, Eq, Debug, Structural)]
pub enum Direction {
    Up,
    Down,
    Left,
    Right,
}

impl Direction {
    /// The unit step of this heading; the y axis grows downwards.
    pub open spec fn move_spec(self) -> Coordinates {
        match self {
            Direction::Up => Coordinates { x: 0i64, y: -1i64 },
            Direction::Down => Coordinates { x: 0i64, y: 1i64 },
            Direction::Left => Coordinates { x: -1i64, y: 0i64 },
            Direction::Right => Coordinates { x: 1i64, y: 0i64 },
        }
    }

    pub fn to_move(&self) -> (r: Coordinates)
        ensures
            r == self.move_spec(),
    {
        match self {
            Direction::Up => Coordinates { x: 0, y: -1 },
            Direction::Down => Coordinates { x: 0, y: 1 },
            Direction::Left => Coordinates { x: -1, y: 0 },
            Direction::Right => Coordinates { x: 1, y: 0 },
        }
    }

    /// The heading after a clockwise quarter turn.
    pub open spec fn turn_right_spec(self) -> Direction {
        match self {
            Direction::Up => Direction::Right,
            Direction::Down => Direction::Left,
            Direction::Left => Direction::Up,
            Direction::Right => Direction::Down,
        }
    }

    pub fn turn_right(&self) -> (r: Direction)
        ensures
            r == self.turn_right_spec(),
    {
        match self {
            Direction::Up => Direction::Right,
            Direction::Down => Direction::Left,
            Direction::Left => Direction::Up,
            Direction::Right => Direction::Down,
        }
    }
}

/// The first cell (row-major) holding the guard symbol '^'.
pub fn get_guard_position(matrix: &Vec<Vec<char>>) -> (r: Option<Coordinates>)
    requires
        matrix@.len() <= i64::MAX,
        forall|y: int| 0 <= y < matrix@.len() ==> (#[trigger] matrix@[y])@.len() <= i64::MAX,
    ensures
        match r {
            Some(c) => 0 <= c.y < matrix@.len() && 0 <= c.x < matrix@[c.y as int]@.len()
                && matrix@[c.y as int]@[c.x as int] == '^' && (forall|y: int, x: int|
                0 <= y < matrix@.len() && 0 <= x < matrix@[y]@.len() && (y < c.y || (y == c.y && x
                    < c.x)) ==> #[trigger] matrix@[y]@[x] != '^'),
            None => forall|y: int, x: int|
                0 <= y < matrix@.len() && 0 <= x < matrix@[y]@.len() ==> #[trigger] matrix@[y]@[x]
                    != '^',
        },
{
    let mut y: usize = 0;
    while y < matrix.len()
        invariant
            y <= matrix@.len(),
            matrix@.len() <= i64::MAX,
            forall|yy: int| 0 <= yy < matrix@.len() ==> (#[trigger] matrix@[yy])@.len() <= i64::MAX,
            forall|yy: int, xx: int|
                0 <= yy < y && 0 <= xx < matrix@[yy]@.len() ==> #[trigger] matrix@[yy]@[xx] != '^',
        decreases matrix@.len() - y,
    {
        let row = &matrix[y];
        let mut x: usize = 0;
        while x < row.len()
            invariant
                y < matrix@.len(),
                matrix@.len() <= i64::MAX,
                row@ == matrix@[y as int]@,
                x <= row@.len(),
                row@.len() <= i64::MAX,
                forall|xx: int| 0 <= xx < x ==> #[trigger] row@[xx] != '^',
                forall|yy: int, xx: int|
                    0 <= yy < y && 0 <= xx < matrix@[yy]@.len() ==> #[trigger] matrix@[yy]@[xx]
                        != '^',
            decreases row@.len() - x,
        {
            if row[x] == '^' {
                return Some(Coordinates { x: x as i64, y: y as i64 });
            }
            x += 1;
        }
        y += 1;
    }
    None
}

/// The obstacle coordinates of one row, left to right, over the first n
/// columns.
pub open spec fn row_obstacles(row: Seq<char>, y: int, n: int) -> Seq<Coordinates>
    decreases n,
{
    if n <= 0 {
        Seq::empty()
    } else {
        row_obstacles(row, y, n - 1) + (if row[n - 1] == '#' {
            seq![Coordinates { x: (n - 1) as i64, y: y as i64 }]
        } else {
            Seq::empty()
        })
    }
}

/// The obstacle coordinates of the first n rows, in row-major order.
pub open spec fn obstacles_spec(m: Seq<Vec<char>>, n: int) -> Seq<Coordinates>
    decreases n,
{
    if n <= 0 {
        Seq::empty()
    } else {
        obstacles_spec(m, n - 1) + row_obstacles(m[n - 1]@, n - 1, m[n - 1]@.len() as int)
    }
}

/// The coordinates of every obstacle cell '#', in row-major order.
pub fn get_obstacles(matrix: &Vec<Vec<char>>) -> (r: Vec<Coordinates>)
    requires
        matrix@.len() <= i64::MAX,
        forall|y: int| 0 <= y < matrix@.len() ==> (#[trigger] matrix@[y])@.len() <= i64::MAX,
    ensures
        r@ == obstacles_spec(matrix@, matrix@.len() as int),
        forall|k: int|
            0 <= k < r@.len() ==> {
                let c = #[trigger] r@[k];
                0 <= c.y < matrix@.len() && 0 <= c.x < matrix@[c.y as int]@.len()
                    && matrix@[c.y as int]@[c.x as int] == '#'
            },
{
    let mut out: Vec<Coordinates> = Vec::new();
    let mut y: usize = 0;
    while y < matrix.len()
        invariant
            y <= matrix@.len(),
            matrix@.len() <= i64::MAX,
            forall|yy: int| 0 <= yy < matrix@.len() ==> (#[trigger] matrix@[yy])@.len() <= i64::MAX,
            out@ == obstacles_spec(matrix@, y as int),
            forall|k: int|
                0 <= k < out@.len() ==> {
                    let c = #[trigger] out@[k];
                    0 <= c.y < matrix@.len() && 0 <= c.x < matrix@[c.y as int]@.len()
                        && matrix@[c.y as int]@[c.x as int] == '#'
                },
        decreases matrix@.len() - y,
    {
        let row = &matrix[y];
        let mut x: usize = 0;
        while x < row.len()
            invariant
                y < matrix@.len(),
                matrix@.len() <= i64::MAX,
                row@ == matrix@[y as int]@,
                x <= row@.len(),
                row@.len() <= i64::MAX,
                out@ == obstacles_spec(matrix@, y as int) + row_obstacles(
                    matrix@[y as int]@,
                    y as int,
                    x as int,
                ),
                forall|k: int|
                    0 <= k < out@.len() ==> {
                        let c = #[trigger] out@[k];
                        0 <= c.y < matrix@.len() && 0 <= c.x < matrix@[c.y as int]@.len()
                            && matrix@[c.y as int]@[c.x as int] == '#'
                    },
            decreases row@.len() - x,
        {
            if row[x] == '#' {
                out.push(Coordinates { x: x as i64, y: y as i64 });
            }
            x += 1;
        }
        y += 1;
    }
    out
}


/// Does the list hold this coordinate?
fn contains_coord(v: &Vec<Coordinates>, c: Coordinates) -> (r: bool)
    ensures
        r == v@.contains(c),
{
    let mut k: usize = 0;
    while k < v.len()
        invariant
            k <= v@.len(),
            forall|j: int| 0 <= j < k ==> #[trigger] v@[j] != c,
        decreases v@.len() - k,
    {
        if v[k] == c {
            proof {
                assert(v@[k as int] == c);
            }
            return true;
        }
        k += 1;
    }
    proof {
        if v@.contains(c) {
            let j = choose|j: int| 0 <= j < v@.len() && v@[j] == c;
            assert(false);
        }
    }
    false
}

/// The heading the guard ends up moving in: turn right while the cell ahead
/// is an obstacle; after four blocked tries the guard is walled in.
pub open spec fn free_heading(
    obs: Seq<Coordinates>,
    pos: Coordinates,
    dir: Direction,
    tries: nat,
) -> Option<Direction>
    decreases tries,
{
    if tries == 0 {
        None
    } else {
        let nxt = Coordinates {
            x: (pos.x + dir.move_spec().x) as i64,
            y: (pos.y + dir.move_spec().y) as i64,
        };
        if !obs.contains(nxt) {
            Some(dir)
        } else {
            free_heading(obs, pos, dir.turn_right_spec(), (tries - 1) as nat)
        }
    }
}

/// Resolve the guard's next heading and position.
fn next_heading(obstacles: &Vec<Coordinates>, pos: Coordinates, dir: Direction) -> (r: Option<
    (Direction, Coordinates),
>)
    requires
        -1000000 <= pos.x <= 1000000,
        -1000000 <= pos.y <= 1000000,
    ensures
        match r {
            Some(p) => free_heading(obstacles@, pos, dir, 4) == Some(p.0) && p.1.x == pos.x
                + p.0.move_spec().x && p.1.y == pos.y + p.0.move_spec().y,
            None => free_heading(obstacles@, pos, dir, 4) is None,
        },
{
    let mut d = dir;
    let mut tries: u64 = 4;
    while tries > 0
        invariant
            -1000000 <= pos.x <= 1000000,
            -1000000 <= pos.y <= 1000000,
            tries <= 4,
            free_heading(obstacles@, pos, dir, 4) == free_heading(
                obstacles@,
                pos,
                d,
                tries as nat,
            ),
        decreases tries,
    {
        let step = d.to_move();
        let nxt = Coordinates { x: pos.x + step.x, y: pos.y + step.y };
        if !contains_coord(obstacles, nxt) {
            return Some((d, nxt));
        }
        d = d.turn_right();
        tries -= 1;
    }
    None
}

/// Walk the guard until it would leave the field, recording the heading and
/// the cell of every move; a walk that exceeds four states per cell is
/// circling and is cut off.
pub fn trace_iter(
    field_size: Coordinates,
    obstacles: &Vec<Coordinates>,
    start_position: Coordinates,
    start_direction: Direction,
) -> (r: Vec<(Direction, Coordinates)>)
    requires
        0 < field_size.x <= 1000000,
        0 < field_size.y <= 1000000,
        start_position.in_bounds(field_size),
    ensures
        r@.len() >= 1,
        r@[0] == (start_direction, start_position),
        forall|i: int| 0 <= i < r@.len() ==> (#[trigger] r@[i]).1.in_bounds(field_size),
        forall|i: int|
            0 <= i < r@.len() - 1 ==> free_heading(obstacles@, (#[trigger] r@[i]).1, r@[i].0, 4)
                == Some(r@[i + 1].0) && r@[i + 1].1.x == r@[i].1.x + r@[i + 1].0.move_spec().x
                && r@[i + 1].1.y == r@[i].1.y + r@[i + 1].0.move_spec().y,
        r@.len() == 4 * field_size.x * field_size.y + 1 || ({
            let last = r@[r@.len() - 1];
            match free_heading(obstacles@, last.1, last.0, 4) {
                Some(d2) => !(Coordinates {
                    x: (last.1.x + d2.move_spec().x) as i64,
                    y: (last.1.y + d2.move_spec().y) as i64,
                }).in_bounds(field_size),
                None => true,
            }
        }),
{
    proof {
        assert(4 * (field_size.x as int) * (field_size.y as int) + 1 <= 0xffffffffffffffff && 4 * (
        field_size.x as int) <= 4000000) by (nonlinear_arith)
            requires
                0 < field_size.x <= 1000000,
                0 < field_size.y <= 1000000,
        ;
    }
    let cap: u64 = 4 * (field_size.x as u64) * (field_size.y as u64) + 1;
    let mut trace: Vec<(Direction, Coordinates)> = Vec::new();
    trace.push((start_direction, start_position));
    let mut steps: u64 = 1;
    loop
        invariant_except_break
            0 < field_size.x <= 1000000,
            0 < field_size.y <= 1000000,
            cap == 4 * field_size.x * field_size.y + 1,
            1 <= steps <= cap,
            trace@.len() == steps,
            trace@[0] == (start_direction, start_position),
            forall|i: int| 0 <= i < trace@.len() ==> (#[trigger] trace@[i]).1.in_bounds(field_size),
            forall|i: int|
                0 <= i < trace@.len() - 1 ==> free_heading(
                    obstacles@,
                    (#[trigger] trace@[i]).1,
                    trace@[i].0,
                    4,
                ) == Some(trace@[i + 1].0) && trace@[i + 1].1.x == trace@[i].1.x + trace@[i
                + 1].0.move_spec().x && trace@[i + 1].1.y == trace@[i].1.y + trace@[i
                + 1].0.move_spec().y,
        ensures
            trace@.len() >= 1,
            trace@[0] == (start_direction, start_position),
            forall|i: int| 0 <= i < trace@.len() ==> (#[trigger] trace@[i]).1.in_bounds(field_size),
            forall|i: int|
                0 <= i < trace@.len() - 1 ==> free_heading(
                    obstacles@,
                    (#[trigger] trace@[i]).1,
                    trace@[i].0,
                    4,
                ) == Some(trace@[i + 1].0) && trace@[i + 1].1.x == trace@[i].1.x + trace@[i
                + 1].0.move_spec().x && trace@[i + 1].1.y == trace@[i].1.y + trace@[i
                + 1].0.move_spec().y,
            trace@.len() == 4 * field_size.x * field_size.y + 1 || ({
                let last = trace@[trace@.len() - 1];
                match free_heading(obstacles@, last.1, last.0, 4) {
                    Some(d2) => !(Coordinates {
                        x: (last.1.x + d2.move_spec().x) as i64,
                        y: (last.1.y + d2.move_spec().y) as i64,
                    }).in_bounds(field_size),
                    None => true,
                }
            }),
        decreases cap - steps,
    {
        if steps >= cap {
            break ;
        }
        let last = trace[trace.len() - 1];
        match next_heading(obstacles, last.1, last.0) {
            None => {
                break ;
            },
            Some(p) => {
                let (d2, p2) = p;
                if !p2.is_within_bounds(field_size) {
                    break ;
                }
                trace.push((d2, p2));
                steps += 1;
            },
        }
    }
    trace
}

/// The guard's walk from the start, as the original's bounded trace.
pub fn generate_trace(
    field_size: Coordinates,
    obstacles: Vec<Coordinates>,
    start_position: Coordinates,
    start_direction: Direction,
) -> (r: Vec<(Direction, Coordinates)>)
    requires
        0 < field_size.x <= 1000000,
        0 < field_size.y <= 1000000,
        start_position.in_bounds(field_size),
    ensures
        r@.len() >= 1,
        r@[0] == (start_direction, start_position),
        forall|i: int| 0 <= i < r@.len() ==> (#[trigger] r@[i]).1.in_bounds(field_size),
        forall|i: int|
            0 <= i < r@.len() - 1 ==> free_heading(obstacles@, (#[trigger] r@[i]).1, r@[i].0, 4)
                == Some(r@[i + 1].0) && r@[i + 1].1.x == r@[i].1.x + r@[i + 1].0.move_spec().x
                && r@[i + 1].1.y == r@[i].1.y + r@[i + 1].0.move_spec().y,
{
    trace_iter(field_size, &obstacles, start_position, start_direction)
}


/// Does the guard's walk leave the field within `fuel` moves?
pub open spec fn walk_exits(
    obs: Seq<Coordinates>,
    field_size: Coordinates,
    pos: Coordinates,
    dir: Direction,
    fuel: nat,
) -> bool
    decreases fuel,
{
    if fuel == 0 {
        false
    } else {
        match free_heading(obs, pos, dir, 4) {
            None => false,
            Some(d2) => {
                let nxt = Coordinates {
                    x: (pos.x + d2.move_spec().x) as i64,
                    y: (pos.y + d2.move_spec().y) as i64,
                };
                if !nxt.in_bounds(field_size) {
                    true
                } else {
                    walk_exits(obs, field_size, nxt, d2, (fuel - 1) as nat)
                }
            },
        }
    }
}

/// Run the walk to its end, with fuel for every reachable state.
fn walk_exits_exec(
    obstacles: &Vec<Coordinates>,
    field_size: Coordinates,
    start: Coordinates,
    start_dir: Direction,
) -> (r: bool)
    requires
        0 < field_size.x <= 1000000,
        0 < field_size.y <= 1000000,
        start.in_bounds(field_size),
    ensures
        r == walk_exits(
            obstacles@,
            field_size,
            start,
            start_dir,
            (4 * field_size.x * field_size.y + 1) as nat,
        ),
{
    proof {
        assert(4 * (field_size.x as int) * (field_size.y as int) + 1 <= 0xffffffffffffffff)
            by (nonlinear_arith)
            requires
                0 < field_size.x <= 1000000,
                0 < field_size.y <= 1000000,
        ;
    }
    let cap: u64 = 4 * (field_size.x as u64) * (field_size.y as u64) + 1;
    let ghost fuel0 = (4 * field_size.x * field_size.y + 1) as nat;
    let mut pos = start;
    let mut d = start_dir;
    let mut fuel: u64 = cap;
    while fuel > 0
        invariant
            0 < field_size.x <= 1000000,
            0 < field_size.y <= 1000000,
            fuel0 == (4 * field_size.x * field_size.y + 1) as nat,
            pos.in_bounds(field_size),
            walk_exits(obstacles@, field_size, start, start_dir, fuel0) == walk_exits(
                obstacles@,
                field_size,
                pos,
                d,
                fuel as nat,
            ),
        decreases fuel,
    {
        match next_heading(obstacles, pos, d) {
            None => {
                proof {
                    assert(!walk_exits(obstacles@, field_size, pos, d, fuel as nat));
                }
                return false;
            },
            Some(p) => {
                let (d2, p2) = p;
                proof {
                    assert(p2 == (Coordinates {
                        x: (pos.x + d2.move_spec().x) as i64,
                        y: (pos.y + d2.move_spec().y) as i64,
                    }));
                }
                if !p2.is_within_bounds(field_size) {
                    proof {
                        assert(walk_exits(obstacles@, field_size, pos, d, fuel as nat));
                    }
                    return true;
                }
                pos = p2;
                d = d2;
                fuel -= 1;
            },
        }
    }
    false
}

/// Append one coordinate to a copy of the list.
fn with_extra(obs: &Vec<Coordinates>, p: Coordinates) -> (r: Vec<Coordinates>)
    ensures
        r@ == obs@.push(p),
{
    let mut r: Vec<Coordinates> = Vec::new();
    let mut k: usize = 0;
    while k < obs.len()
        invariant
            k <= obs@.len(),
            r@ == obs@.take(k as int),
        decreases obs@.len() - k,
    {
        proof {
            assert(obs@.take(k + 1) =~= obs@.take(k as int).push(obs@[k as int]));
        }
        r.push(obs[k]);
        k += 1;
    }
    proof {
        assert(obs@.take(obs@.len() as int) =~= obs@);
    }
    r.push(p);
    r
}

/// Would dropping one extra obstacle on this visited cell trap the guard?
pub open spec fn is_diversion_point(
    obs: Seq<Coordinates>,
    field_size: Coordinates,
    trace: Seq<(Direction, Coordinates)>,
    p: Coordinates,
) -> bool {
    &&& (exists|k: int| 1 <= k < trace.len() && (#[trigger] trace[k]).1 == p)
    &&& !walk_exits(
        obs.push(p),
        field_size,
        trace[0].1,
        trace[0].0,
        (4 * field_size.x * field_size.y + 1) as nat,
    )
}

/// The cells of the guard's walk (its start excepted) where one new
/// obstacle keeps the guard from ever leaving the field, each cell once.
pub fn possible_diversion_points(
    field_size: Coordinates,
    trace: &Vec<(Direction, Coordinates)>,
    obstacles: &Vec<Coordinates>,
) -> (r: Vec<Coordinates>)
    requires
        0 < field_size.x <= 1000000,
        0 < field_size.y <= 1000000,
        trace@.len() >= 1,
        forall|k: int| 0 <= k < trace@.len() ==> (#[trigger] trace@[k]).1.in_bounds(field_size),
    ensures
        r@.no_duplicates(),
        forall|p: Coordinates|
            #[trigger] r@.contains(p) <==> is_diversion_point(obstacles@, field_size, trace@, p),
{
    let start = trace[0].1;
    let start_dir = trace[0].0;
    let mut out: Vec<Coordinates> = Vec::new();
    let mut k: usize = 1;
    while k < trace.len()
        invariant
            0 < field_size.x <= 1000000,
            0 < field_size.y <= 1000000,
            trace@.len() >= 1,
            forall|kk: int|
                0 <= kk < trace@.len() ==> (#[trigger] trace@[kk]).1.in_bounds(field_size),
            start == trace@[0].1,
            start_dir == trace@[0].0,
            1 <= k <= trace@.len(),
            out@.no_duplicates(),
            forall|p: Coordinates|
                #[trigger] out@.contains(p) <==> (exists|kk: int|
                    1 <= kk < k && (#[trigger] trace@[kk]).1 == p) && !walk_exits(
                    obstacles@.push(p),
                    field_size,
                    trace@[0].1,
                    trace@[0].0,
                    (4 * field_size.x * field_size.y + 1) as nat,
                ),
        decreases trace@.len() - k,
    {
        let ghost out_entry = out@;
        let cand = trace[k].1;
        let mut dup = false;
        let mut j: usize = 0;
        while j < out.len()
            invariant
                j <= out@.len(),
                dup == exists|jj: int| 0 <= jj < j && #[trigger] out@[jj] == cand,
            decreases out@.len() - j,
        {
            if out[j] == cand {
                dup = true;
            }
            j += 1;
        }
        proof {
            if dup {
                let jj = choose|jj: int| 0 <= jj < out@.len() && #[trigger] out@[jj] == cand;
                assert(out@.contains(cand));
            } else {
                if out@.contains(cand) {
                    let jj = choose|jj: int| 0 <= jj < out@.len() && out@[jj] == cand;
                    assert(false);
                }
            }
        }
        if !dup {
            let obs2 = with_extra(obstacles, cand);
            if !walk_exits_exec(&obs2, field_size, start, start_dir) {
                let ghost out_pre = out@;
                out.push(cand);
                proof {
                    assert forall|i1: int, i2: int|
                        0 <= i1 < i2 < out@.len() implies out@[i1] != out@[i2] by {
                        if i2 == out@.len() - 1 {
                            assert(out@[i1] == out_pre[i1]);
                            assert(out_pre.contains(out_pre[i1]));
                        }
                    }
                    assert forall|p: Coordinates| #[trigger] out@.contains(p) implies
                        out_pre.contains(p) || p == cand by {
                        let jj = choose|jj: int| 0 <= jj < out@.len() && out@[jj] == p;
                        if jj < out_pre.len() {
                            assert(out_pre[jj] == p);
                        }
                    }
                    assert forall|p: Coordinates| out_pre.contains(p) implies out@.contains(p) by {
                        let jj = choose|jj: int| 0 <= jj < out_pre.len() && out_pre[jj] == p;
                        assert(out@[jj] == p);
                    }
                    assert(out@.contains(cand)) by {
                        assert(out@[out@.len() - 1] == cand);
                    }
                    assert(trace@[k as int].1 == cand);
                }
            }
        }
        proof {
            assert forall|p: Coordinates| #[trigger] out@.contains(p) implies (exists|kk: int|
                1 <= kk < k + 1 && (#[trigger] trace@[kk]).1 == p) && !walk_exits(
                obstacles@.push(p),
                field_size,
                trace@[0].1,
                trace@[0].0,
                (4 * field_size.x * field_size.y + 1) as nat,
            ) by {}
            assert forall|p: Coordinates|
                (exists|kk: int| 1 <= kk < k + 1 && (#[trigger] trace@[kk]).1 == p) && !walk_exits(
                    obstacles@.push(p),
                    field_size,
                    trace@[0].1,
                    trace@[0].0,
                    (4 * field_size.x * field_size.y + 1) as nat,
                ) implies #[trigger] out@.contains(p) by {
                let kk = choose|kk: int| 1 <= kk < k + 1 && (#[trigger] trace@[kk]).1 == p;
                if kk < k as int {
                    assert(out_entry.contains(p));
                    if out_entry =~= out@ {
                    } else {
                        let jj = choose|jj: int|
                            0 <= jj < out_entry.len() && out_entry[jj] == p;
                        assert(out@[jj] == p);
                    }
                } else {
                    assert(p == trace@[k as int].1);
                    assert(p == cand);
                    if dup {
                        assert(out_entry.contains(cand));
                        let jj = choose|jj: int|
                            0 <= jj < out_entry.len() && out_entry[jj] == cand;
                        assert(out@[jj] == cand);
                    }
                }
            }
        }
        k += 1;
    }
    out
}

} // verus!
