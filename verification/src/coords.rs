use vstd::prelude::*;

verus! {

/// A two-dimensional integer coordinate, the recurring entity of every grid
/// puzzle in this collection: a set/map key, a bounds-checked position, and a
/// step vector for neighbour walks.
#[derive(Clone, Copy, PartialEq, Eq, Debug, Structural)]
pub struct Coordinates {
    pub x: i64,
    pub y: i64,
}

pub open spec fn abs_int(x: int) -> int {
    if x >= 0 {
        x
    } else {
        -x
    }
}

/// Truncated remainder of x by d (the semantics of `%` on Rust's signed
/// integers), written over mathematical integers.
pub open spec fn trunc_rem(x: int, d: int) -> int
    recommends
        d != 0,
{
    if x >= 0 {
        x % abs_int(d)
    } else {
        -((-x) % abs_int(d))
    }
}

/// Truncated quotient of x by d (the semantics of `/` on Rust's signed
/// integers), written over mathematical integers.
pub open spec fn trunc_div(x: int, d: int) -> int
    recommends
        d != 0,
{
    if (x >= 0) == (d >= 0) {
        abs_int(x) / abs_int(d)
    } else {
        -(abs_int(x) / abs_int(d))
    }
}

impl Coordinates {
    pub fn new(x: i64, y: i64) -> (r: Coordinates)
        ensures
            r == (Coordinates { x, y }),
    {
        Coordinates { x, y }
    }

    /// The coordinate lies in the rectangle [0, bounds.x) x [0, bounds.y).
    pub open spec fn in_bounds(self, bounds: Coordinates) -> bool {
        0 <= self.x < bounds.x && 0 <= self.y < bounds.y
    }

    pub fn is_within_bounds(&self, bounds: Coordinates) -> (r: bool)
        ensures
            r == self.in_bounds(bounds),
    {
        self.x >= 0 && self.y >= 0 && self.x < bounds.x && self.y < bounds.y
    }

    /// The coordinate lies in the rectangle [0, max.x] x [0, max.y].
    pub open spec fn in_bounds_inclusive(self, max: Coordinates) -> bool {
        0 <= self.x <= max.x && 0 <= self.y <= max.y
    }

    pub fn is_within_bounds_inclusive(&self, max: Coordinates) -> (r: bool)
        ensures
            r == self.in_bounds_inclusive(max),
    {
        self.x >= 0 && self.y >= 0 && self.x <= max.x && self.y <= max.y
    }

    pub fn plus(self, rhs: Coordinates) -> (r: Coordinates)
        requires
            i64::MIN <= self.x + rhs.x <= i64::MAX,
            i64::MIN <= self.y + rhs.y <= i64::MAX,
        ensures
            r.x == self.x + rhs.x,
            r.y == self.y + rhs.y,
    {
        Coordinates { x: self.x + rhs.x, y: self.y + rhs.y }
    }

    pub fn minus(self, rhs: Coordinates) -> (r: Coordinates)
        requires
            i64::MIN <= self.x - rhs.x <= i64::MAX,
            i64::MIN <= self.y - rhs.y <= i64::MAX,
        ensures
            r.x == self.x - rhs.x,
            r.y == self.y - rhs.y,
    {
        Coordinates { x: self.x - rhs.x, y: self.y - rhs.y }
    }

    pub fn scalar_mul(&self, scalar: i64) -> (r: Coordinates)
        requires
            i64::MIN <= self.x * scalar <= i64::MAX,
            i64::MIN <= self.y * scalar <= i64::MAX,
        ensures
            r.x == self.x * scalar,
            r.y == self.y * scalar,
    {
        Coordinates { x: self.x * scalar, y: self.y * scalar }
    }

    /// Adds `other`, reporting `None` when the sum overflows an `i64` or
    /// leaves the inclusive box [0, max.x] x [0, max.y].
    pub fn checked_bounded_add(&self, other: Coordinates, max: Coordinates) -> (r: Option<
        Coordinates,
    >)
        ensures
            ({
                let nx = self.x + other.x;
                let ny = self.y + other.y;
                if i64::MIN <= nx <= i64::MAX && i64::MIN <= ny <= i64::MAX && 0 <= nx <= max.x && 0
                    <= ny <= max.y {
                    r == Some(Coordinates { x: nx as i64, y: ny as i64 })
                } else {
                    r is None
                }
            }),
    {
        let nx = match self.x.checked_add(other.x) {
            Some(v) => v,
            None => {
                return None;
            },
        };
        let ny = match self.y.checked_add(other.y) {
            Some(v) => v,
            None => {
                return None;
            },
        };
        if nx > max.x || ny > max.y || nx < 0 || ny < 0 {
            None
        } else {
            Some(Coordinates { x: nx, y: ny })
        }
    }

    /// Componentwise scaling, wrapped into the rectangle [0, bounds.x) x
    /// [0, bounds.y) by the Euclidean remainder.
    pub fn wrapping_mul_bounds(&self, scalar: i64, bounds: Coordinates) -> (r: Coordinates)
        requires
            bounds.x > 0,
            bounds.y > 0,
            i64::MIN <= self.x * scalar <= i64::MAX,
            i64::MIN <= self.y * scalar <= i64::MAX,
        ensures
            r.x == (self.x * scalar) % (bounds.x as int),
            r.y == (self.y * scalar) % (bounds.y as int),
    {
        proof {
            vstd::arithmetic::div_mod::lemma_mod_division_less_than_divisor(
                (self.x * scalar) as int,
                bounds.x as int,
            );
            vstd::arithmetic::div_mod::lemma_mod_division_less_than_divisor(
                (self.y * scalar) as int,
                bounds.y as int,
            );
        }
        let x = (self.x * scalar).checked_rem_euclid(bounds.x).unwrap();
        let y = (self.y * scalar).checked_rem_euclid(bounds.y).unwrap();
        Coordinates { x, y }
    }

    /// Componentwise sum, wrapped into the rectangle [0, bounds.x) x
    /// [0, bounds.y) by the Euclidean remainder.
    pub fn wrapping_add_bounds(&self, other: Coordinates, bounds: Coordinates) -> (r: Coordinates)
        requires
            bounds.x > 0,
            bounds.y > 0,
            i64::MIN <= self.x + other.x <= i64::MAX,
            i64::MIN <= self.y + other.y <= i64::MAX,
        ensures
            r.x == (self.x + other.x) % (bounds.x as int),
            r.y == (self.y + other.y) % (bounds.y as int),
    {
        proof {
            vstd::arithmetic::div_mod::lemma_mod_division_less_than_divisor(
                (self.x + other.x) as int,
                bounds.x as int,
            );
            vstd::arithmetic::div_mod::lemma_mod_division_less_than_divisor(
                (self.y + other.y) as int,
                bounds.y as int,
            );
        }
        let x = (self.x + other.x).checked_rem_euclid(bounds.x).unwrap();
        let y = (self.y + other.y).checked_rem_euclid(bounds.y).unwrap();
        Coordinates { x, y }
    }

    /// Componentwise division: `Some(q)` exactly when `self` is the scalar
    /// multiple `q` of `other` in both components.
    pub fn divided_by(&self, other: Coordinates) -> (r: Option<i64>)
        requires
            other.x != 0,
            other.y != 0,
            !(self.x == i64::MIN && other.x == -1),
            !(self.y == i64::MIN && other.y == -1),
        ensures
            match r {
                Some(q) => self.x == other.x * q && self.y == other.y * q,
                None => forall|q: int| !(self.x == #[trigger] (other.x * q) && self.y == other.y * q),
            },
    {
        proof {
            lemma_trunc_div_in_i64_range(self.x as int, other.x as int);
            lemma_trunc_div_in_i64_range(self.y as int, other.y as int);
        }
        let x_rem = self.x.checked_rem(other.x).unwrap();
        let y_rem = self.y.checked_rem(other.y).unwrap();
        proof {
            lemma_rem_cases(self.x as int, other.x as int);
            lemma_rem_cases(self.y as int, other.y as int);
            assert(x_rem == trunc_rem(self.x as int, other.x as int));
            assert(y_rem == trunc_rem(self.y as int, other.y as int));
        }
        if !(x_rem == 0 && y_rem == 0) {
            proof {
                assert forall|q: int| !(self.x == #[trigger] (other.x * q) && self.y == other.y * q) by {
                    if self.x == other.x * q {
                        lemma_multiple_has_zero_rem(self.x as int, other.x as int, q);
                    }
                    if self.y == other.y * q {
                        lemma_multiple_has_zero_rem(self.y as int, other.y as int, q);
                    }
                }
            }
            return None;
        }
        let x_quot = self.x.checked_div(other.x).unwrap();
        let y_quot = self.y.checked_div(other.y).unwrap();
        proof {
            lemma_exact_quotient(self.x as int, other.x as int);
            lemma_exact_quotient(self.y as int, other.y as int);
            assert(x_quot == trunc_div(self.x as int, other.x as int));
            assert(y_quot == trunc_div(self.y as int, other.y as int));
        }
        if x_quot == y_quot {
            Some(x_quot)
        } else {
            proof {
                assert forall|q: int| !(self.x == #[trigger] (other.x * q) && self.y == other.y * q) by {
                    if self.x == other.x * q && self.y == other.y * q {
                        assert(other.x * q == other.x * x_quot);
                        assert(q == x_quot) by (nonlinear_arith)
                            requires
                                other.x != 0,
                                other.x * q == other.x * x_quot,
                        ;
                        assert(other.y * q == other.y * y_quot);
                        assert(q == y_quot) by (nonlinear_arith)
                            requires
                                other.y != 0,
                                other.y * q == other.y * y_quot,
                        ;
                    }
                }
            }
            None
        }
    }
}

/// The magnitude of a truncated quotient never exceeds the magnitude of the
/// dividend, so for an i64 pair (excluding MIN / -1) it stays representable.
pub proof fn lemma_trunc_div_in_i64_range(x: int, d: int)
    requires
        d != 0,
        i64::MIN <= x <= i64::MAX,
        i64::MIN <= d <= i64::MAX,
        !(x == i64::MIN && d == -1),
    ensures
        i64::MIN <= trunc_div(x, d) <= i64::MAX,
{
    let a = abs_int(x);
    let b = abs_int(d);
    vstd::arithmetic::div_mod::lemma_div_nonincreasing(a, b);
    vstd::arithmetic::div_mod::lemma_div_pos_is_pos(a, b);
    assert(0 <= a / b <= a);
    if x == i64::MIN && b >= 2 {
        vstd::arithmetic::div_mod::lemma_div_decreases(a, b);
    }
}

/// When the truncated remainder is zero, the dividend is exactly the divisor
/// times the truncated quotient.
proof fn lemma_exact_quotient(x: int, d: int)
    requires
        d != 0,
        trunc_rem(x, d) == 0,
    ensures
        x == d * trunc_div(x, d),
{
    let a = abs_int(x);
    let b = abs_int(d);
    assert(a % b == 0);
    vstd::arithmetic::div_mod::lemma_fundamental_div_mod(a, b);
    let q = a / b;
    assert(a == b * q);
    if x >= 0 && d > 0 {
        assert(x == d * q);
    } else if x >= 0 {
        assert(d * (-q) == b * q) by (nonlinear_arith)
            requires
                d == -b,
        ;
    } else if d > 0 {
        assert(d * (-q) == -(b * q)) by (nonlinear_arith)
            requires
                d == b,
        ;
    } else {
        assert(d * q == -(b * q)) by (nonlinear_arith)
            requires
                d == -b,
        ;
    }
}

/// Case analysis connecting the truncated remainder of the machine `%` with
/// the Euclidean `%` of the operands' magnitudes.
proof fn lemma_rem_cases(x: int, d: int)
    requires
        d != 0,
    ensures
        x >= 0 && d > 0 ==> trunc_rem(x, d) == x % d,
        x >= 0 && d < 0 ==> trunc_rem(x, d) == x % (d * -1),
        x < 0 && d > 0 ==> trunc_rem(x, d) == ((x * -1) % d) * -1,
        x < 0 && d < 0 ==> trunc_rem(x, d) == ((x * -1) % (d * -1)) * -1,
        -abs_int(d) < trunc_rem(x, d) < abs_int(d),
        x == 0 ==> trunc_rem(x, d) == 0,
{
    let a = abs_int(x);
    let b = abs_int(d);
    vstd::arithmetic::div_mod::lemma_mod_division_less_than_divisor(a, b);
    if x == 0 {
        vstd::arithmetic::div_mod::lemma_small_mod(0, b as nat);
    }
}

/// An exact multiple has truncated remainder zero.
proof fn lemma_multiple_has_zero_rem(x: int, d: int, q: int)
    requires
        d != 0,
        x == d * q,
    ensures
        trunc_rem(x, d) == 0,
{
    let b = abs_int(d);
    let qq = if x >= 0 {
        if d > 0 {
            q
        } else {
            -q
        }
    } else {
        if d > 0 {
            -q
        } else {
            q
        }
    };
    assert(abs_int(x) == b * qq) by (nonlinear_arith)
        requires
            x == d * q,
            b == abs_int(d),
            qq == (if x >= 0 {
                if d > 0 {
                    q
                } else {
                    -q
                }
            } else {
                if d > 0 {
                    -q
                } else {
                    q
                }
            }),
    ;
    vstd::arithmetic::div_mod::lemma_mod_multiples_basic(qq, b);
}

} // verus!
