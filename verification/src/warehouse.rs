use vstd::prelude::*;
use crate::coords::Coordinates;

verus! {

#[derive(Clone, Copy, PartialEq, Eq, Debug, Structural)]
pub enum FieldState {
    Empty,
    Box,
    Wall,
}

#[derive(Clone, Copy, PartialEq, Eq, Debug, Structural)]
pub enum Direction {
    Up,
    Down,
    Left,
    Right,
}

/// The move named by one instruction character.
pub open spec fn from_char_spec(c: char) -> Option<Direction> {
    if c == '^' {
        Some(Direction::Up)
    } else if c == 'v' {
        Some(Direction::Down)
    } else if c == '<' {
        Some(Direction::Left)
    } else if c == '>' {
        Some(Direction::Right)
    } else {
        None
    }
}

impl Direction {
    pub fn from_char(c: char) -> (r: Option<Direction>)
        ensures
            r == from_char_spec(c),
    {
        match c {
            '^' => Some(Direction::Up),
            'v' => Some(Direction::Down),
            '<' => Some(Direction::Left),
            '>' => Some(Direction::Right),
            _ => None,
        }
    }

    pub open spec fn step_spec(self) -> Coordinates {
        match self {
            Direction::Up => Coordinates { x: 0i64, y: -1i64 },
            Direction::Down => Coordinates { x: 0i64, y: 1i64 },
            Direction::Left => Coordinates { x: -1i64, y: 0i64 },
            Direction::Right => Coordinates { x: 1i64, y: 0i64 },
        }
    }

    pub fn to_coords(&self) -> (r: Coordinates)
        ensures
            r == self.step_spec(),
    {
        match self {
            Direction::Up => Coordinates { x: 0, y: -1 },
            Direction::Down => Coordinates { x: 0, y: 1 },
            Direction::Left => Coordinates { x: -1, y: 0 },
            Direction::Right => Coordinates { x: 1, y: 0 },
        }
    }
}

/// The state of a warehouse cell grid, addressed as matrix[y][x].
pub struct Warehouse {
    pub matrix: Vec<Vec<FieldState>>,
    pub robot_coords: Coordinates,
}

pub open spec fn field_at(m: Seq<Vec<FieldState>>, c: Coordinates) -> FieldState {
    m[c.y as int]@[c.x as int]
}

pub open spec fn in_grid(m: Seq<Vec<FieldState>>, c: Coordinates) -> bool {
    0 <= c.y < m.len() && 0 <= c.x < m[c.y as int]@.len()
}

/// The cell at column x of row y.
pub open spec fn cell_at(m: Seq<Vec<FieldState>>, x: int, y: int) -> FieldState {
    m[y]@[x]
}

/// Walking k steps from (cx, cy) along d crosses boxes only, and the cell k
/// steps away is the first one that is not a box.
pub open spec fn pushes_to(
    m: Seq<Vec<FieldState>>,
    cx: int,
    cy: int,
    d: Direction,
    k: int,
) -> bool {
    let sx = d.step_spec().x as int;
    let sy = d.step_spec().y as int;
    &&& 1 <= k
    &&& (forall|j: int|
        0 <= j < k ==> #[trigger] cell_at(m, cx + j * sx, cy + j * sy) == FieldState::Box)
    &&& cell_at(m, cx + k * sx, cy + k * sy) != FieldState::Box
}

/// m1 is m0 with the cell (ex, ey) emptied and the cell (bx, by) boxed;
/// every other cell and all row lengths are unchanged.
pub open spec fn updated_two(
    m0: Seq<Vec<FieldState>>,
    m1: Seq<Vec<FieldState>>,
    ex: int,
    ey: int,
    bx: int,
    by: int,
) -> bool {
    &&& m1.len() == m0.len()
    &&& (forall|y: int| 0 <= y < m0.len() ==> (#[trigger] m1[y])@.len() == m0[y]@.len())
    &&& (forall|x: int, y: int|
        0 <= y < m0.len() && 0 <= x < m0[y]@.len() ==> #[trigger] cell_at(m1, x, y) == (if x == ex
            && y == ey {
            FieldState::Empty
        } else if x == bx && y == by {
            FieldState::Box
        } else {
            cell_at(m0, x, y)
        }))
}

impl Warehouse {
    /// The grid is rectangular, bordered by walls, and holds the robot
    /// strictly inside it.
    pub open spec fn shape_wf(self) -> bool {
        let m = self.matrix@;
        let h = m.len() as int;
        let w = m[0]@.len() as int;
        &&& h >= 3
        &&& w >= 3
        &&& h <= i64::MAX
        &&& w <= i64::MAX
        &&& (forall|y: int| 0 <= y < h ==> (#[trigger] m[y])@.len() == w)
        &&& (forall|x: int|
            0 <= x < w ==> #[trigger] m[0]@[x] == FieldState::Wall && m[h - 1]@[x]
                == FieldState::Wall)
        &&& (forall|y: int| 0 <= y < h ==> (#[trigger] m[y])@[0] == FieldState::Wall && m[y]@[w - 1]
            == FieldState::Wall)
        &&& 0 < self.robot_coords.x < w - 1
        &&& 0 < self.robot_coords.y < h - 1
    }

    /// Shape well-formedness plus a free cell under the robot.
    pub open spec fn wf(self) -> bool {
        self.shape_wf() && field_at(self.matrix@, self.robot_coords) == FieldState::Empty
    }

    pub open spec fn width_spec(self) -> int {
        self.matrix@[0]@.len() as int
    }

    pub open spec fn height_spec(self) -> int {
        self.matrix@.len() as int
    }

    /// The cell at the given coordinates, when they address one.
    pub fn get_field(&self, coords: Coordinates) -> (r: Option<FieldState>)
        ensures
            r == (if in_grid(self.matrix@, coords) {
                Some(field_at(self.matrix@, coords))
            } else {
                None::<FieldState>
            }),
    {
        if coords.y < 0 || coords.x < 0 {
            return None;
        }
        if coords.y as u64 >= self.matrix.len() as u64 {
            return None;
        }
        let row = &self.matrix[coords.y as usize];
        if coords.x as u64 >= row.len() as u64 {
            return None;
        }
        Some(row[coords.x as usize])
    }

    /// Width and height of the grid.
    pub fn bounds(&self) -> (r: Coordinates)
        requires
            self.shape_wf(),
        ensures
            r.x == self.width_spec(),
            r.y == self.height_spec(),
    {
        let width = self.matrix[0].len();
        let height = self.matrix.len();
        Coordinates { x: width as i64, y: height as i64 }
    }

    /// Decide well-formedness at runtime: rectangular with a wall border of
    /// at least three cells a side, and the robot strictly inside on free
    /// floor.  A grid read by `from_lines` can be handed to `transform_map`
    /// once this check passes.
    pub fn check_wf(&self) -> (r: bool)
        ensures
            r == self.wf(),
    {
        let h = self.matrix.len();
        if h < 3 {
            return false;
        }
        let w = self.matrix[0].len();
        if w < 3 {
            return false;
        }
        if h as u64 > i64::MAX as u64 || w as u64 > i64::MAX as u64 {
            return false;
        }
        let mut y: usize = 0;
        while y < h
            invariant
                h == self.matrix@.len(),
                w == self.matrix@[0]@.len(),
                h >= 3,
                w >= 3,
                y <= h,
                forall|yy: int| 0 <= yy < y ==> (#[trigger] self.matrix@[yy])@.len() == w,
                forall|yy: int|
                    0 <= yy < y ==> (#[trigger] self.matrix@[yy])@[0] == FieldState::Wall
                        && self.matrix@[yy]@[w - 1] == FieldState::Wall,
                forall|xx: int|
                    0 <= xx < w && y > 0 ==> #[trigger] self.matrix@[0]@[xx] == FieldState::Wall,
                forall|xx: int|
                    0 <= xx < w && y == h ==> #[trigger] self.matrix@[h - 1]@[xx]
                        == FieldState::Wall,
            decreases h - y,
        {
            let row = &self.matrix[y];
            if row.len() != w {
                return false;
            }
            if !(matches!(row[0], FieldState::Wall) && matches!(row[w - 1], FieldState::Wall)) {
                return false;
            }
            if y == 0 || y == h - 1 {
                let mut x: usize = 0;
                while x < w
                    invariant
                        w == row@.len(),
                        w == self.matrix@[0]@.len(),
                        h == self.matrix@.len(),
                        y < h,
                        y == 0 || y == h - 1,
                        row@ == self.matrix@[y as int]@,
                        x <= w,
                        forall|xx: int| 0 <= xx < x ==> #[trigger] row@[xx] == FieldState::Wall,
                    decreases w - x,
                {
                    if !matches!(row[x], FieldState::Wall) {
                        proof {
                            assert(self.matrix@[y as int]@[x as int] != FieldState::Wall);
                            assert(!self.wf()) by {
                                if self.shape_wf() {
                                    assert(self.matrix@[0int]@[x as int] == FieldState::Wall);
                                    assert(self.matrix@[self.matrix@.len() - 1]@[x as int]
                                        == FieldState::Wall);
                                }
                            }
                        }
                        return false;
                    }
                    x += 1;
                }
            }
            y += 1;
        }
        let rc = self.robot_coords;
        if !(0 < rc.x && rc.x < (w as i64) - 1 && 0 < rc.y && rc.y < (h as i64) - 1) {
            return false;
        }
        if !matches!(self.matrix[rc.y as usize][rc.x as usize], FieldState::Empty) {
            return false;
        }
        true
    }

    /// Overwrite one interior cell.
    fn set_field(&mut self, coords: Coordinates, v: FieldState)
        requires
            old(self).shape_wf(),
            0 < coords.x < old(self).width_spec() - 1,
            0 < coords.y < old(self).height_spec() - 1,
        ensures
            final(self).robot_coords == old(self).robot_coords,
            final(self).matrix@.len() == old(self).matrix@.len(),
            forall|y: int, x: int|
                0 <= y < old(self).matrix@.len() && 0 <= x < old(self).matrix@[y]@.len()
                    ==> #[trigger] final(self).matrix@[y]@[x] == (if y == coords.y && x
                    == coords.x {
                    v
                } else {
                    old(self).matrix@[y]@[x]
                }),
            forall|y: int|
                0 <= y < old(self).matrix@.len() ==> (#[trigger] final(self).matrix@[y])@.len()
                    == old(self).matrix@[y]@.len(),
            final(self).shape_wf(),
    {
        let ghost m0 = self.matrix@;
        let ghost rc = self.robot_coords;
        let hh = self.matrix.len();
        let ww = self.matrix[0].len();
        proof {
            assert(hh == m0.len() && ww == m0[0]@.len());
        }
        let y = coords.y as usize;
        let x = coords.x as usize;
        let row = &mut self.matrix[y];
        row[x] = v;
        proof {
            assert forall|yy: int, xx: int|
                0 <= yy < m0.len() && 0 <= xx < m0[yy]@.len() implies #[trigger] self.matrix@[yy]@[xx]
                == (if yy == coords.y && xx == coords.x {
                v
            } else {
                m0[yy]@[xx]
            }) by {
                if yy != y as int {
                    assert(self.matrix@[yy] == m0[yy]);
                } else {
                    assert(self.matrix@[yy]@ == m0[yy]@.update(x as int, v));
                }
            }
            assert forall|yy: int|
                0 <= yy < m0.len() implies (#[trigger] self.matrix@[yy])@.len()
                == m0[yy]@.len() by {
                if yy != y as int {
                    assert(self.matrix@[yy] == m0[yy]);
                } else {
                    assert(self.matrix@[yy]@ == m0[yy]@.update(x as int, v));
                }
            }
            let h = m0.len() as int;
            let w = m0[0]@.len() as int;
            assert(self.shape_wf()) by {
                assert forall|xx: int|
                    0 <= xx < w implies #[trigger] self.matrix@[0]@[xx] == FieldState::Wall
                    && self.matrix@[h - 1]@[xx] == FieldState::Wall by {
                    assert(m0[0]@[xx] == FieldState::Wall);
                    assert(m0[h - 1]@[xx] == FieldState::Wall);
                }
                assert forall|yy: int|
                    0 <= yy < h implies (#[trigger] self.matrix@[yy])@[0] == FieldState::Wall
                    && self.matrix@[yy]@[w - 1] == FieldState::Wall by {
                    assert(m0[yy]@[0] == FieldState::Wall);
                    assert(m0[yy]@[w - 1] == FieldState::Wall);
                }
            }
        }
    }

    /// Try to clear the cell in front of the robot's move: an empty cell
    /// succeeds, a wall fails, a box is pushed.  On success the cell at
    /// `coords` is empty afterwards, and the walls, the sizes and the robot
    /// are untouched.
    pub fn try_push(&mut self, coords: Coordinates, direction: Direction) -> (r: bool)
        requires
            old(self).shape_wf(),
            in_grid(old(self).matrix@, coords),
        ensures
            final(self).shape_wf(),
            final(self).robot_coords == old(self).robot_coords,
            final(self).matrix@.len() == old(self).matrix@.len(),
            final(self).width_spec() == old(self).width_spec(),
            r ==> field_at(final(self).matrix@, coords) == FieldState::Empty,
            !r ==> *final(self) == *old(self),
            field_at(old(self).matrix@, coords) == FieldState::Wall ==> !r && *final(self)
                == *old(self),
            field_at(old(self).matrix@, coords) == FieldState::Empty ==> r && *final(self) == *old(
                self,
            ),
            field_at(old(self).matrix@, coords) == FieldState::Box ==> exists|k: int|
                #[trigger] pushes_to(old(self).matrix@, coords.x as int, coords.y as int, direction, k)
                    && ({
                    let sx = direction.step_spec().x as int;
                    let sy = direction.step_spec().y as int;
                    &&& (r <==> cell_at(old(self).matrix@, coords.x + k * sx, coords.y + k * sy)
                        == FieldState::Empty)
                    &&& (r ==> updated_two(
                        old(self).matrix@,
                        final(self).matrix@,
                        coords.x as int,
                        coords.y as int,
                        coords.x + k * sx,
                        coords.y + k * sy,
                    ))
                }),
            forall|c: Coordinates|
                in_grid(old(self).matrix@, c) && field_at(old(self).matrix@, c)
                    == FieldState::Wall ==> field_at(#[trigger] final(self).matrix@, c)
                    == FieldState::Wall && field_at(final(self).matrix@, c) == FieldState::Wall,
    {
        let field_state = match self.get_field(coords) {
            Some(f) => f,
            None => {
                return false;  // unreachable under the precondition
            },
        };
        match field_state {
            FieldState::Empty => true,
            FieldState::Wall => false,
            FieldState::Box => self.try_push_box(coords, direction),
        }
    }

    /// Push the box at `coords` one step in `direction`, moving the whole
    /// row of boxes behind it, if the first non-box cell on the ray is
    /// empty.
    pub fn try_push_box(&mut self, coords: Coordinates, direction: Direction) -> (r: bool)
        requires
            old(self).shape_wf(),
            in_grid(old(self).matrix@, coords),
            field_at(old(self).matrix@, coords) == FieldState::Box,
        ensures
            final(self).shape_wf(),
            final(self).robot_coords == old(self).robot_coords,
            final(self).matrix@.len() == old(self).matrix@.len(),
            final(self).width_spec() == old(self).width_spec(),
            r ==> field_at(final(self).matrix@, coords) == FieldState::Empty,
            !r ==> *final(self) == *old(self),
            exists|k: int|
                #[trigger] pushes_to(old(self).matrix@, coords.x as int, coords.y as int, direction, k)
                    && ({
                    let sx = direction.step_spec().x as int;
                    let sy = direction.step_spec().y as int;
                    &&& (r <==> cell_at(old(self).matrix@, coords.x + k * sx, coords.y + k * sy)
                        == FieldState::Empty)
                    &&& (r ==> updated_two(
                        old(self).matrix@,
                        final(self).matrix@,
                        coords.x as int,
                        coords.y as int,
                        coords.x + k * sx,
                        coords.y + k * sy,
                    ))
                }),
            forall|c: Coordinates|
                in_grid(old(self).matrix@, c) && field_at(old(self).matrix@, c)
                    == FieldState::Wall ==> field_at(#[trigger] final(self).matrix@, c)
                    == FieldState::Wall,
    {
        let ghost m0 = self.matrix@;
        let w = self.matrix[0].len() as i64;
        let h = self.matrix.len() as i64;
        let step = direction.to_coords();
        let mut c = coords;
        let mut t: i64 = 0;
        proof {
            assert(self.matrix@[coords.y as int]@[0] == FieldState::Wall);
            assert(self.matrix@[coords.y as int]@[w - 1] == FieldState::Wall);
            assert(self.matrix@[0int]@[coords.x as int] == FieldState::Wall);
            assert(self.matrix@[h - 1]@[coords.x as int] == FieldState::Wall);
        }
        loop
            invariant
                *self == *old(self),
                self.shape_wf(),
                w == self.width_spec(),
                h == self.height_spec(),
                step == direction.step_spec(),
                0 < c.x < w - 1,
                0 < c.y < h - 1,
                0 < coords.x < w - 1,
                0 < coords.y < h - 1,
                field_at(self.matrix@, c) == FieldState::Box,
                t >= 0,
                t <= w + h,
                c.x == coords.x + t * (step.x as int),
                c.y == coords.y + t * (step.y as int),
                forall|j: int|
                    0 <= j <= t ==> #[trigger] cell_at(
                        self.matrix@,
                        coords.x + j * (step.x as int),
                        coords.y + j * (step.y as int),
                    ) == FieldState::Box,
            ensures
                *self == *old(self),
                0 < c.x < w - 1,
                0 < c.y < h - 1,
                in_grid(
                    self.matrix@,
                    (Coordinates { x: (c.x + step.x) as i64, y: (c.y + step.y) as i64 }),
                ),
                field_at(
                    self.matrix@,
                    (Coordinates { x: (c.x + step.x) as i64, y: (c.y + step.y) as i64 }),
                ) != FieldState::Box,
                w == self.width_spec(),
                h == self.height_spec(),
                step == direction.step_spec(),
                t >= 0,
                c.x == coords.x + t * (step.x as int),
                c.y == coords.y + t * (step.y as int),
                forall|j: int|
                    0 <= j <= t ==> #[trigger] cell_at(
                        self.matrix@,
                        coords.x + j * (step.x as int),
                        coords.y + j * (step.y as int),
                    ) == FieldState::Box,
            decreases (match direction {
                Direction::Up => c.y as int,
                Direction::Down => h - c.y,
                Direction::Left => c.x as int,
                Direction::Right => w - c.x,
            }),
        {
            proof {
                // a box never sits on the wall border, so the cell is interior
                assert(field_at(self.matrix@, c) != FieldState::Wall);
            }
            let nxt = Coordinates { x: c.x + step.x, y: c.y + step.y };
            let f = match self.get_field(nxt) {
                Some(f) => f,
                None => {
                    proof {
                        assert(in_grid(self.matrix@, nxt));
                    }
                    return false;  // unreachable: nxt is in the grid
                },
            };
            if f == FieldState::Box {
                proof {
                    // the next box is not on the border either
                    assert(self.matrix@[nxt.y as int]@[0] == FieldState::Wall);
                    assert(self.matrix@[nxt.y as int]@[w - 1] == FieldState::Wall);
                    assert(self.matrix@[0int]@[nxt.x as int] == FieldState::Wall);
                    assert(self.matrix@[h - 1]@[nxt.x as int] == FieldState::Wall);
                }
                proof {
                    assert((t + 1) * (step.x as int) == t * (step.x as int) + step.x)
                        by (nonlinear_arith);
                    assert((t + 1) * (step.y as int) == t * (step.y as int) + step.y)
                        by (nonlinear_arith);
                    match direction {
                        Direction::Up => {
                            assert(c.y == coords.y + t * (-1));
                            assert(t < h);
                        },
                        Direction::Down => {
                            assert(c.y == coords.y + t * 1);
                            assert(t < h);
                        },
                        Direction::Left => {
                            assert(c.x == coords.x + t * (-1));
                            assert(t < w);
                        },
                        Direction::Right => {
                            assert(c.x == coords.x + t * 1);
                            assert(t < w);
                        },
                    }
                }
                c = nxt;
                t = t + 1;
            } else {
                break ;
            }
        }
        proof {
            assert(self.matrix@[coords.y as int]@[0] == FieldState::Wall);
            assert(self.matrix@[coords.y as int]@[w - 1] == FieldState::Wall);
            assert(self.matrix@[0int]@[coords.x as int] == FieldState::Wall);
            assert(self.matrix@[h - 1]@[coords.x as int] == FieldState::Wall);
        }
        let nxt = Coordinates { x: c.x + step.x, y: c.y + step.y };
        let ghost k = t + 1;
        let ghost sx = step.x as int;
        let ghost sy = step.y as int;
        proof {
            assert(k * sx == t * sx + sx) by (nonlinear_arith)
                requires
                    k == t + 1,
            ;
            assert(k * sy == t * sy + sy) by (nonlinear_arith)
                requires
                    k == t + 1,
            ;
            assert(nxt.x == coords.x + k * sx && nxt.y == coords.y + k * sy);
            assert(cell_at(m0, coords.x + k * sx, coords.y + k * sy) != FieldState::Box) by {
                assert(field_at(m0, nxt) != FieldState::Box);
            }
            assert(pushes_to(m0, coords.x as int, coords.y as int, direction, k));
            assert(!(nxt.x == coords.x && nxt.y == coords.y)) by {
                match direction {
                    Direction::Up => assert(nxt.y == coords.y + k * (-1)),
                    Direction::Down => assert(nxt.y == coords.y + k * 1),
                    Direction::Left => assert(nxt.x == coords.x + k * (-1)),
                    Direction::Right => assert(nxt.x == coords.x + k * 1),
                }
            }
        }
        let f = self.get_field(nxt).unwrap();
        match f {
            FieldState::Empty => {
                proof {
                    // the empty target cell is interior: the border is wall
                    assert(self.matrix@[nxt.y as int]@[0] == FieldState::Wall);
                    assert(self.matrix@[nxt.y as int]@[w - 1] == FieldState::Wall);
                    assert(self.matrix@[0int]@[nxt.x as int] == FieldState::Wall);
                    assert(self.matrix@[h - 1]@[nxt.x as int] == FieldState::Wall);
                }
                self.set_field(coords, FieldState::Empty);
                let ghost m_mid = self.matrix@;
                self.set_field(nxt, FieldState::Box);
                proof {
                    assert(updated_two(
                        m0,
                        self.matrix@,
                        coords.x as int,
                        coords.y as int,
                        nxt.x as int,
                        nxt.y as int,
                    )) by {
                        assert forall|x: int, y: int|
                            0 <= y < m0.len() && 0 <= x < m0[y]@.len() implies #[trigger] cell_at(
                            self.matrix@,
                            x,
                            y,
                        ) == (if x == coords.x && y == coords.y {
                            FieldState::Empty
                        } else if x == nxt.x && y == nxt.y {
                            FieldState::Box
                        } else {
                            cell_at(m0, x, y)
                        }) by {
                            assert(self.matrix@[y]@[x] == (if y == nxt.y && x == nxt.x {
                                FieldState::Box
                            } else {
                                m_mid[y]@[x]
                            }));
                            assert(m_mid[y]@[x] == (if y == coords.y && x == coords.x {
                                FieldState::Empty
                            } else {
                                m0[y]@[x]
                            }));
                        }
                    }
                    assert(cell_at(m0, coords.x + k * sx, coords.y + k * sy) == FieldState::Empty);
                }
                true
            },
            FieldState::Wall => {
                proof {
                    assert(cell_at(m0, coords.x + k * sx, coords.y + k * sy) != FieldState::Empty);
                }
                false
            },
            FieldState::Box => {
                false  // unreachable: the scan stopped on a non-box cell
            },
        }
    }

    /// The effect of one move on the warehouse: the robot pushes what sits
    /// in front of it and advances exactly when room was made.
    pub open spec fn step_rel(pre: Warehouse, d: Direction, post: Warehouse) -> bool {
        let nc = Coordinates {
            x: (pre.robot_coords.x + d.step_spec().x) as i64,
            y: (pre.robot_coords.y + d.step_spec().y) as i64,
        };
        let f = field_at(pre.matrix@, nc);
        if f == FieldState::Empty {
            post.matrix@ == pre.matrix@ && post.robot_coords == nc
        } else if f == FieldState::Wall {
            post == pre
        } else {
            exists|k: int|
                #[trigger] pushes_to(pre.matrix@, nc.x as int, nc.y as int, d, k) && ({
                    let sx = d.step_spec().x as int;
                    let sy = d.step_spec().y as int;
                    if cell_at(pre.matrix@, nc.x + k * sx, nc.y + k * sy) == FieldState::Empty {
                        updated_two(
                            pre.matrix@,
                            post.matrix@,
                            nc.x as int,
                            nc.y as int,
                            nc.x + k * sx,
                            nc.y + k * sy,
                        ) && post.robot_coords == nc
                    } else {
                        post == pre
                    }
                })
        }
    }

    /// The moves applied in order, each by one step_rel step.
    pub open spec fn run_rel(pre: Warehouse, moves: Seq<Direction>, post: Warehouse) -> bool
        decreases moves.len(),
    {
        if moves.len() == 0 {
            post == pre
        } else {
            exists|mid: Warehouse|
                #[trigger] Self::step_rel(pre, moves[0], mid) && Self::run_rel(
                    mid,
                    moves.drop_first(),
                    post,
                )
        }
    }

    /// Run the robot through the move list: each move pushes what is in
    /// front of the robot and advances when room was made.
    pub fn transform_map(&mut self, instructions: &Vec<Direction>)
        requires
            old(self).wf(),
        ensures
            final(self).wf(),
            final(self).matrix@.len() == old(self).matrix@.len(),
            final(self).width_spec() == old(self).width_spec(),
            Self::run_rel(*old(self), instructions@, *final(self)),
    {
        let mut i: usize = 0;
        let ghost pre0 = *self;
        let ghost h0 = self.matrix@.len();
        let ghost w0 = self.width_spec();
        proof {
            assert(instructions@.take(0int) =~= Seq::<Direction>::empty());
        }
        while i < instructions.len()
            invariant
                self.wf(),
                self.matrix@.len() == h0,
                self.width_spec() == w0,
                i <= instructions@.len(),
                Self::run_rel(pre0, instructions@.take(i as int), *self),
            decreases instructions@.len() - i,
        {
            let direction = instructions[i];
            let step = direction.to_coords();
            let new_coords = Coordinates {
                x: self.robot_coords.x + step.x,
                y: self.robot_coords.y + step.y,
            };
            let ghost pre = *self;
            if self.try_push(new_coords, direction) {
                proof {
                    // the robot cannot step onto the border: those cells are
                    // walls and a successful push leaves an empty cell
                    if !(0 < new_coords.x < self.width_spec() - 1 && 0 < new_coords.y
                        < self.matrix@.len() - 1) {
                        assert(field_at(pre.matrix@, new_coords) == FieldState::Wall);
                    }
                }
                self.robot_coords = new_coords;
            }
            proof {
                assert(Self::step_rel(pre, direction, *self));
                Self::lemma_run_rel_snoc(pre0, instructions@.take(i as int), pre, direction, *self);
                assert(instructions@.take(i as int).push(instructions@[i as int])
                    =~= instructions@.take(i + 1));
            }
            i += 1;
        }
        proof {
            assert(instructions@.take(instructions@.len() as int) =~= instructions@);
        }
    }

    /// Appending one related step to a related run keeps them related.
    proof fn lemma_run_rel_snoc(
        pre: Warehouse,
        moves: Seq<Direction>,
        mid: Warehouse,
        d: Direction,
        post: Warehouse,
    )
        requires
            Self::run_rel(pre, moves, mid),
            Self::step_rel(mid, d, post),
        ensures
            Self::run_rel(pre, moves.push(d), post),
        decreases moves.len(),
    {
        if moves.len() == 0 {
            assert(mid == pre);
            assert(moves.push(d)[0] == d);
            assert(moves.push(d).drop_first() =~= Seq::<Direction>::empty());
            assert(Self::run_rel(post, moves.push(d).drop_first(), post));
            assert(Self::step_rel(pre, moves.push(d)[0], post));
        } else {
            let m1 = choose|m: Warehouse|
                #[trigger] Self::step_rel(pre, moves[0], m) && Self::run_rel(
                    m,
                    moves.drop_first(),
                    mid,
                );
            Self::lemma_run_rel_snoc(m1, moves.drop_first(), mid, d, post);
            assert(moves.push(d)[0] == moves[0]);
            assert(moves.push(d).drop_first() =~= moves.drop_first().push(d));
            assert(Self::step_rel(pre, moves.push(d)[0], m1));
        }
    }

    /// Sum of 100 * y + x over the cells of the first n rows holding boxes,
    /// the row prefix x < k of row n counted too.
    pub open spec fn box_sum_upto(m: Seq<Vec<FieldState>>, y: int, x: int) -> int
        decreases y, x,
    {
        if y < 0 || x < 0 {
            0
        } else if x == 0 {
            if y == 0 {
                0
            } else {
                Self::box_sum_upto(m, y - 1, m[y - 1]@.len() as int)
            }
        } else {
            Self::box_sum_upto(m, y, x - 1) + if m[y]@[x - 1] == FieldState::Box {
                (y * 100 + (x - 1))
            } else {
                0
            }
        }
    }

    pub open spec fn box_sum_spec(m: Seq<Vec<FieldState>>) -> int {
        Self::box_sum_upto(m, m.len() as int, 0)
    }

    /// The box coordinate checksum: 100 * row + column, summed over boxes.
    pub fn box_coordinate_sums(&self) -> (r: usize)
        requires
            self.shape_wf(),
            Self::box_sum_spec(self.matrix@) <= usize::MAX,
        ensures
            r == Self::box_sum_spec(self.matrix@),
    {
        proof {
            lemma_box_sum_nonneg(self.matrix@);
        }
        let mut sum: usize = 0;
        let mut y: usize = 0;
        let ghost m = self.matrix@;
        while y < self.matrix.len()
            invariant
                self.shape_wf(),
                m == self.matrix@,
                y <= m.len(),
                sum == Self::box_sum_upto(m, y as int, 0),
                Self::box_sum_spec(m) <= usize::MAX,
                forall|yy: int, xx: int|
                    0 <= yy <= m.len() && 0 <= xx ==> Self::box_sum_upto(m, yy, xx) >= 0,
            decreases m.len() - y,
        {
            let row_len = self.matrix[y].len();
            let mut x: usize = 0;
            while x < row_len
                invariant
                    self.shape_wf(),
                    m == self.matrix@,
                    y < m.len(),
                    row_len == m[y as int]@.len(),
                    x <= row_len,
                    sum == Self::box_sum_upto(m, y as int, x as int),
                    Self::box_sum_spec(m) <= usize::MAX,
                    forall|yy: int, xx: int|
                        0 <= yy <= m.len() && 0 <= xx ==> Self::box_sum_upto(m, yy, xx) >= 0,
                decreases row_len - x,
            {
                if self.matrix[y][x] == FieldState::Box {
                    proof {
                        lemma_box_sum_upper(m, y as int, x as int);
                        assert(y * 100 + x <= Self::box_sum_spec(m)) by {
                            assert(Self::box_sum_upto(m, y as int, x + 1) >= Self::box_sum_upto(
                                m,
                                y as int,
                                x as int,
                            ) + y * 100 + x);
                        }
                    }
                    sum = sum + y * 100 + x;
                }
                x += 1;
            }
            y += 1;
        }
        sum
    }
}

/// Every partial box sum is non-negative.
proof fn lemma_box_sum_nonneg(m: Seq<Vec<FieldState>>)
    ensures
        forall|yy: int, xx: int|
            0 <= yy <= m.len() && 0 <= xx ==> Warehouse::box_sum_upto(m, yy, xx) >= 0,
{
    assert forall|yy: int, xx: int|
        0 <= yy <= m.len() && 0 <= xx implies Warehouse::box_sum_upto(m, yy, xx) >= 0 by {
        lemma_box_sum_nonneg_at(m, yy, xx);
    }
}

proof fn lemma_box_sum_nonneg_at(m: Seq<Vec<FieldState>>, y: int, x: int)
    requires
        0 <= y,
        0 <= x,
    ensures
        Warehouse::box_sum_upto(m, y, x) >= 0,
    decreases y, x,
{
    if x == 0 {
        if y > 0 {
            lemma_box_sum_nonneg_at(m, y - 1, if m[y - 1]@.len() as int >= 0 { m[y - 1]@.len() as int } else { 0 });
        }
    } else {
        lemma_box_sum_nonneg_at(m, y, x - 1);
    }
}

/// A partial box sum never exceeds the total.
proof fn lemma_box_sum_upper(m: Seq<Vec<FieldState>>, y: int, x: int)
    requires
        0 <= y < m.len(),
        0 <= x < m[y]@.len(),
        forall|yy: int, xx: int|
            0 <= yy <= m.len() && 0 <= xx ==> Warehouse::box_sum_upto(m, yy, xx) >= 0,
    ensures
        Warehouse::box_sum_upto(m, y, x + 1) <= Warehouse::box_sum_spec(m),
    decreases m.len() - y, m[y]@.len() - x,
{
    lemma_box_monotone_row(m, y, x + 1, m[y]@.len() as int);
    lemma_box_row_jump(m, y + 1);
}

/// The sum at the start of row y+1 dominates the sum over the full row y,
/// and so on up to the whole grid.
proof fn lemma_box_row_jump(m: Seq<Vec<FieldState>>, y: int)
    requires
        0 <= y <= m.len(),
        forall|yy: int, xx: int|
            0 <= yy <= m.len() && 0 <= xx ==> Warehouse::box_sum_upto(m, yy, xx) >= 0,
    ensures
        Warehouse::box_sum_upto(m, y, 0) <= Warehouse::box_sum_spec(m),
    decreases m.len() - y,
{
    if y < m.len() {
        lemma_box_monotone_row(m, y, 0, m[y]@.len() as int);
        lemma_box_row_jump(m, y + 1);
    }
}

/// Along one row the partial sums grow.
proof fn lemma_box_monotone_row(m: Seq<Vec<FieldState>>, y: int, x1: int, x2: int)
    requires
        0 <= y < m.len(),
        0 <= x1 <= x2,
    ensures
        Warehouse::box_sum_upto(m, y, x1) <= Warehouse::box_sum_upto(m, y, x2),
    decreases x2 - x1,
{
    if x1 < x2 {
        lemma_box_monotone_row(m, y, x1, x2 - 1);
        if x2 - 1 == 0 {
        }
        assert(Warehouse::box_sum_upto(m, y, x2) >= Warehouse::box_sum_upto(m, y, x2 - 1)) by {
            if m[y]@[x2 - 1] == FieldState::Box {
                assert(y * 100 + (x2 - 1) >= 0);
            }
        }
    }
}


/// The warehouse cell encoded by one map character, the robot's cell being
/// free floor.
pub open spec fn char_to_field(c: char) -> Option<FieldState> {
    if c == '.' || c == '@' {
        Some(FieldState::Empty)
    } else if c == 'O' {
        Some(FieldState::Box)
    } else if c == '#' {
        Some(FieldState::Wall)
    } else {
        None
    }
}

/// The rows of the input as plain character sequences.
pub open spec fn line_views(ls: Seq<Vec<char>>) -> Seq<Seq<char>> {
    ls.map_values(|v: Vec<char>| v@)
}

/// Every character names a warehouse cell.
pub open spec fn map_chars_ok(ls: Seq<Seq<char>>) -> bool {
    forall|y: int, x: int|
        0 <= y < ls.len() && 0 <= x < ls[y].len() ==> char_to_field(#[trigger] ls[y][x]) is Some
}

/// Some cell holds the robot marker.
pub open spec fn has_robot(ls: Seq<Seq<char>>) -> bool {
    exists|y: int, x: int| 0 <= y < ls.len() && 0 <= x < ls[y].len() && #[trigger] ls[y][x] == '@'
}

/// Each cell of the parsed grid is the image of its character.
pub open spec fn cells_match(ls: Seq<Seq<char>>, m: Seq<Vec<FieldState>>) -> bool {
    &&& m.len() == ls.len()
    &&& (forall|y: int| 0 <= y < ls.len() ==> (#[trigger] m[y])@.len() == ls[y].len())
    &&& (forall|y: int, x: int|
        0 <= y < ls.len() && 0 <= x < ls[y].len() ==> Some(#[trigger] m[y]@[x]) == char_to_field(
            ls[y][x],
        ))
}

/// rc is the position of the last robot marker in row-major order.
pub open spec fn robot_is_last(ls: Seq<Seq<char>>, rc: Coordinates) -> bool {
    &&& 0 <= rc.y < ls.len()
    &&& 0 <= rc.x < ls[rc.y as int].len()
    &&& ls[rc.y as int][rc.x as int] == '@'
    &&& (forall|y: int, x: int|
        0 <= y < ls.len() && 0 <= x < ls[y].len() && (y > rc.y || (y == rc.y && x > rc.x))
            ==> #[trigger] ls[y][x] != '@')
}

impl Warehouse {
    /// Read the map part: walls, boxes and the robot's start cell, which is
    /// the last '@' of the input.  Fails exactly on a foreign character or a
    /// missing robot.
    pub fn from_lines(lines: &Vec<Vec<char>>) -> (r: Option<Warehouse>)
        requires
            lines@.len() <= i64::MAX,
            forall|y: int| 0 <= y < lines@.len() ==> (#[trigger] lines@[y])@.len() <= i64::MAX,
        ensures
            match r {
                Some(wh) => map_chars_ok(line_views(lines@)) && has_robot(line_views(lines@))
                    && cells_match(line_views(lines@), wh.matrix@) && robot_is_last(
                    line_views(lines@),
                    wh.robot_coords,
                ),
                None => !(map_chars_ok(line_views(lines@)) && has_robot(line_views(lines@))),
            },
    {
        let ghost ls = line_views(lines@);
        let mut robot: Option<Coordinates> = None;
        let mut matrix: Vec<Vec<FieldState>> = Vec::new();
        let mut y: usize = 0;
        while y < lines.len()
            invariant
                ls == line_views(lines@),
                lines@.len() <= i64::MAX,
                forall|yy: int| 0 <= yy < lines@.len() ==> (#[trigger] lines@[yy])@.len()
                    <= i64::MAX,
                y <= lines@.len(),
                matrix@.len() == y,
                forall|yy: int| 0 <= yy < y ==> (#[trigger] matrix@[yy])@.len() == ls[yy].len(),
                forall|yy: int, xx: int|
                    0 <= yy < y && 0 <= xx < ls[yy].len() ==> Some(#[trigger] matrix@[yy]@[xx])
                        == char_to_field(ls[yy][xx]),
                forall|yy: int, xx: int|
                    0 <= yy < y && 0 <= xx < ls[yy].len() ==> char_to_field(
                        #[trigger] ls[yy][xx],
                    ) is Some,
                match robot {
                    Some(rc) => 0 <= rc.y < y && 0 <= rc.x < ls[rc.y as int].len()
                        && ls[rc.y as int][rc.x as int] == '@' && (forall|yy: int, xx: int|
                        0 <= yy < y && 0 <= xx < ls[yy].len() && (yy > rc.y || (yy == rc.y && xx
                            > rc.x)) ==> #[trigger] ls[yy][xx] != '@'),
                    None => forall|yy: int, xx: int|
                        0 <= yy < y && 0 <= xx < ls[yy].len() ==> #[trigger] ls[yy][xx] != '@',
                },
            decreases lines@.len() - y,
        {
            let line = &lines[y];
            let mut row: Vec<FieldState> = Vec::new();
            let mut x: usize = 0;
            while x < line.len()
                invariant
                    ls == line_views(lines@),
                    line@ == ls[y as int],
                    y < lines@.len(),
                    lines@.len() <= i64::MAX,
                    line@.len() <= i64::MAX,
                    x <= line@.len(),
                    row@.len() == x,
                    forall|xx: int|
                        0 <= xx < x ==> Some(#[trigger] row@[xx]) == char_to_field(
                            ls[y as int][xx],
                        ),
                    forall|xx: int|
                        0 <= xx < x ==> char_to_field(#[trigger] ls[y as int][xx]) is Some,
                    forall|yy: int| 0 <= yy < y ==> (#[trigger] matrix@[yy])@.len()
                        == ls[yy].len(),
                    forall|yy: int, xx: int|
                        0 <= yy < y && 0 <= xx < ls[yy].len() ==> char_to_field(
                            #[trigger] ls[yy][xx],
                        ) is Some,
                    match robot {
                        Some(rc) => (0 <= rc.y < y || (rc.y == y && 0 <= rc.x < x)) && 0 <= rc.x
                            < ls[rc.y as int].len() && 0 <= rc.y && ls[rc.y as int][rc.x as int]
                            == '@' && (forall|yy: int, xx: int|
                            0 <= yy < lines@.len() && 0 <= xx < ls[yy].len() && (yy < y || (yy == y
                                && xx < x)) && (yy > rc.y || (yy == rc.y && xx > rc.x))
                                ==> #[trigger] ls[yy][xx] != '@'),
                        None => forall|yy: int, xx: int|
                            0 <= yy < lines@.len() && 0 <= xx < ls[yy].len() && (yy < y || (yy == y
                                && xx < x)) ==> #[trigger] ls[yy][xx] != '@',
                    },
                decreases line@.len() - x,
            {
                let c = line[x];
                let f = match c {
                    '.' => FieldState::Empty,
                    'O' => FieldState::Box,
                    '#' => FieldState::Wall,
                    '@' => {
                        robot = Some(Coordinates { x: x as i64, y: y as i64 });
                        FieldState::Empty
                    },
                    _ => {
                        proof {
                            assert(char_to_field(ls[y as int][x as int]) is None);
                            assert(!map_chars_ok(ls));
                        }
                        return None;
                    },
                };
                row.push(f);
                x += 1;
            }
            let ghost rowv = row@;
            matrix.push(row);
            proof {
                assert(matrix@[y as int]@ == rowv);
                assert forall|yy: int, xx: int|
                    0 <= yy < y + 1 && 0 <= xx < ls[yy].len() implies Some(
                    #[trigger] matrix@[yy]@[xx],
                ) == char_to_field(ls[yy][xx]) by {
                    if yy < y as int {
                        assert(matrix@[yy]@[xx] == old_matrix_cell(matrix@, yy, xx));
                    } else {
                        assert(matrix@[yy]@ == rowv);
                        assert(Some(rowv[xx]) == char_to_field(ls[yy][xx]));
                    }
                }
            }
            y += 1;
        }
        match robot {
            Some(rc) => {
                let wh = Warehouse { matrix, robot_coords: rc };
                proof {
                    assert(cells_match(ls, wh.matrix@));
                    assert(robot_is_last(ls, rc));
                    assert(map_chars_ok(ls));
                    assert(has_robot(ls)) by {
                        assert(ls[rc.y as int][rc.x as int] == '@');
                    }
                }
                Some(wh)
            },
            None => {
                proof {
                    if map_chars_ok(ls) && has_robot(ls) {
                        let (yy, xx) = choose|yy: int, xx: int|
                            0 <= yy < ls.len() && 0 <= xx < ls[yy].len() && #[trigger] ls[yy][xx]
                                == '@';
                        assert(false);
                    }
                }
                None
            },
        }
    }
}

/// Helper naming a cell of an earlier snapshot, to steer rewriting.
pub open spec fn old_matrix_cell(m: Seq<Vec<FieldState>>, y: int, x: int) -> FieldState {
    m[y]@[x]
}

/// The moves named by the instruction characters of one line, in order;
/// other characters contribute nothing.
pub open spec fn dirs_of_line(s: Seq<char>) -> Seq<Direction>
    decreases s.len(),
{
    if s.len() == 0 {
        Seq::empty()
    } else {
        dirs_of_line(s.drop_last()) + (match from_char_spec(s.last()) {
            Some(d) => seq![d],
            None => Seq::empty(),
        })
    }
}

/// The moves of the first n lines, concatenated in order.
pub open spec fn dirs_of(ls: Seq<Seq<char>>, n: int) -> Seq<Direction>
    decreases n,
{
    if n <= 0 {
        Seq::empty()
    } else {
        dirs_of(ls, n - 1) + dirs_of_line(ls[n - 1])
    }
}

/// The moves named by the characters of the instruction lines, unknown
/// characters (such as blank separators) skipped.
pub fn parse_instructions(lines: &Vec<Vec<char>>) -> (r: Vec<Direction>)
    ensures
        r@ == dirs_of(line_views(lines@), lines@.len() as int),
{
    let ghost ls = line_views(lines@);
    let mut out: Vec<Direction> = Vec::new();
    let mut y: usize = 0;
    while y < lines.len()
        invariant
            ls == line_views(lines@),
            y <= lines@.len(),
            out@ == dirs_of(ls, y as int),
        decreases lines@.len() - y,
    {
        let line = &lines[y];
        let mut x: usize = 0;
        while x < line.len()
            invariant
                ls == line_views(lines@),
                y < lines@.len(),
                line@ == ls[y as int],
                x <= line@.len(),
                out@ == dirs_of(ls, y as int) + dirs_of_line(ls[y as int].take(x as int)),
            decreases line@.len() - x,
        {
            proof {
                assert(ls[y as int].take(x + 1).drop_last() =~= ls[y as int].take(x as int));
                assert(ls[y as int].take(x + 1).last() == ls[y as int][x as int]);
            }
            match Direction::from_char(line[x]) {
                Some(d) => out.push(d),
                None => {},
            }
            x += 1;
        }
        proof {
            assert(ls[y as int].take(line@.len() as int) =~= ls[y as int]);
        }
        y += 1;
    }
    out
}

/// Split the input at the first empty line: the lines before it are the map,
/// the lines after it the moves; the separator belongs to neither.
pub fn parse_input(lines: &Vec<Vec<char>>) -> (r: Option<(Warehouse, Vec<Direction>)>)
    requires
        lines@.len() <= i64::MAX,
        forall|y: int| 0 <= y < lines@.len() ==> (#[trigger] lines@[y])@.len() <= i64::MAX,
    ensures
        exists|cut: int|
            #![trigger line_views(lines@).subrange(0, cut)]
            {
                &&& 0 <= cut <= lines@.len()
                &&& (forall|j: int| 0 <= j < cut ==> line_views(lines@)[j].len() > 0)
                &&& (cut == lines@.len() || line_views(lines@)[cut].len() == 0)
                &&& ({
                    let map_part = line_views(lines@).subrange(0, cut);
                    let rest_part = if cut == lines@.len() {
                        Seq::<Seq<char>>::empty()
                    } else {
                        line_views(lines@).subrange(cut + 1, lines@.len() as int)
                    };
                    match r {
                        Some(p) => map_chars_ok(map_part) && has_robot(map_part) && cells_match(
                            map_part,
                            p.0.matrix@,
                        ) && robot_is_last(map_part, p.0.robot_coords) && p.1@ == dirs_of(
                            rest_part,
                            rest_part.len() as int,
                        ),
                        None => !(map_chars_ok(map_part) && has_robot(map_part)),
                    }
                })
            },
{
    let ghost ls = line_views(lines@);
    let mut cut: usize = 0;
    while cut < lines.len() && lines[cut].len() > 0
        invariant
            cut <= lines@.len(),
            forall|j: int| 0 <= j < cut ==> line_views(lines@)[j].len() > 0,
        decreases lines@.len() - cut,
    {
        cut += 1;
    }
    let mut map_lines: Vec<Vec<char>> = Vec::new();
    let mut i: usize = 0;
    while i < cut
        invariant
            cut <= lines@.len(),
            i <= cut,
            map_lines@.len() == i,
            forall|j: int| 0 <= j < i ==> (#[trigger] map_lines@[j])@ == lines@[j]@,
        decreases cut - i,
    {
        let line = &lines[i];
        let mut row: Vec<char> = Vec::new();
        let mut x: usize = 0;
        while x < line.len()
            invariant
                x <= line@.len(),
                row@ == line@.take(x as int),
            decreases line@.len() - x,
        {
            proof {
                assert(line@.take(x + 1) =~= line@.take(x as int).push(line@[x as int]));
            }
            row.push(line[x]);
            x += 1;
        }
        proof {
            assert(line@.take(line@.len() as int) =~= line@);
        }
        map_lines.push(row);
        i += 1;
    }
    let mut rest: Vec<Vec<char>> = Vec::new();
    let mut j: usize = if cut < lines.len() {
        cut + 1
    } else {
        cut
    };
    let start_rest = j;
    while j < lines.len()
        invariant
            start_rest <= lines@.len(),
            start_rest <= j <= lines@.len(),
            rest@.len() == j - start_rest,
            forall|jj: int|
                0 <= jj < j - start_rest ==> (#[trigger] rest@[jj])@ == lines@[start_rest + jj]@,
        decreases lines@.len() - j,
    {
        let line = &lines[j];
        let mut row: Vec<char> = Vec::new();
        let mut x: usize = 0;
        while x < line.len()
            invariant
                x <= line@.len(),
                row@ == line@.take(x as int),
            decreases line@.len() - x,
        {
            proof {
                assert(line@.take(x + 1) =~= line@.take(x as int).push(line@[x as int]));
            }
            row.push(line[x]);
            x += 1;
        }
        proof {
            assert(line@.take(line@.len() as int) =~= line@);
        }
        rest.push(row);
        j += 1;
    }
    proof {
        assert(line_views(map_lines@) =~= ls.subrange(0, cut as int));
        if (cut as int) == lines@.len() {
            assert(line_views(rest@) =~= Seq::<Seq<char>>::empty());
        } else {
            assert(line_views(rest@) =~= ls.subrange(cut + 1, lines@.len() as int));
        }
    }
    let wh = match Warehouse::from_lines(&map_lines) {
        Some(w) => w,
        None => {
            return None;
        },
    };
    let instructions = parse_instructions(&rest);
    Some((wh, instructions))
}

} // verus!
