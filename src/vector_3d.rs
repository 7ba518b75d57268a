use vstd::prelude::*;

verus! {

/// The largest absolute coordinate of a scene point, direction or radius.
///
/// Within this bound every intersection computation fits in 128-bit
/// arithmetic.
pub const COORD_LIMIT: i64 = 268435456;

/// The bound under which products of two components fit in 128 bits.
pub const WIDE_LIMIT: i64 = 4611686018427387904;

/// A 3-component integer vector, used as a point, a direction or a color.
#[derive(Clone, Copy, Debug, PartialEq, Eq, Structural)]
pub struct Vector3D {
    pub x: i64,
    pub y: i64,
    pub z: i64,
}

/// `v` lies within `[-limit, limit]` on every axis.
pub open spec fn within(v: Vector3D, limit: int) -> bool {
    &&& -limit <= v.x <= limit
    &&& -limit <= v.y <= limit
    &&& -limit <= v.z <= limit
}

/// `(x, y, z)` fits in the components of a `Vector3D`.
pub open spec fn fits(x: int, y: int, z: int) -> bool {
    &&& i64::MIN <= x <= i64::MAX
    &&& i64::MIN <= y <= i64::MAX
    &&& i64::MIN <= z <= i64::MAX
}

/// The component of `v` along `axis` (0, 1 or 2).
pub open spec fn component(v: Vector3D, axis: int) -> int {
    if axis == 0 {
        v.x as int
    } else if axis == 1 {
        v.y as int
    } else {
        v.z as int
    }
}

pub open spec fn dot_spec(a: Vector3D, b: Vector3D) -> int {
    a.x * b.x + a.y * b.y + a.z * b.z
}

pub open spec fn length_squared_spec(v: Vector3D) -> int {
    dot_spec(v, v)
}

pub open spec fn cross_x(a: Vector3D, b: Vector3D) -> int {
    a.y * b.z - a.z * b.y
}

pub open spec fn cross_y(a: Vector3D, b: Vector3D) -> int {
    a.z * b.x - a.x * b.z
}

pub open spec fn cross_z(a: Vector3D, b: Vector3D) -> int {
    a.x * b.y - a.y * b.x
}

pub proof fn lemma_product_bound(a: int, b: int, la: int, lb: int)
    requires
        -la <= a <= la,
        -lb <= b <= lb,
        0 <= la,
        0 <= lb,
    ensures
        -(la * lb) <= a * b <= la * lb,
{
    assert(-(la * lb) <= a * b <= la * lb) by (nonlinear_arith)
        requires
            -la <= a <= la,
            -lb <= b <= lb,
            0 <= la,
            0 <= lb,
    ;
}

/// Products of components of vectors within `WIDE_LIMIT` stay below `2^124`.
proof fn lemma_wide_products(a: Vector3D, b: Vector3D)
    requires
        within(a, WIDE_LIMIT as int),
        within(b, WIDE_LIMIT as int),
    ensures
        -0x1000_0000_0000_0000_0000_0000_0000_0000 <= a.x * b.x <= 0x1000_0000_0000_0000_0000_0000_0000_0000,
        -0x1000_0000_0000_0000_0000_0000_0000_0000 <= a.y * b.y <= 0x1000_0000_0000_0000_0000_0000_0000_0000,
        -0x1000_0000_0000_0000_0000_0000_0000_0000 <= a.z * b.z <= 0x1000_0000_0000_0000_0000_0000_0000_0000,
        -0x1000_0000_0000_0000_0000_0000_0000_0000 <= a.x * b.y <= 0x1000_0000_0000_0000_0000_0000_0000_0000,
        -0x1000_0000_0000_0000_0000_0000_0000_0000 <= a.x * b.z <= 0x1000_0000_0000_0000_0000_0000_0000_0000,
        -0x1000_0000_0000_0000_0000_0000_0000_0000 <= a.y * b.x <= 0x1000_0000_0000_0000_0000_0000_0000_0000,
        -0x1000_0000_0000_0000_0000_0000_0000_0000 <= a.y * b.z <= 0x1000_0000_0000_0000_0000_0000_0000_0000,
        -0x1000_0000_0000_0000_0000_0000_0000_0000 <= a.z * b.x <= 0x1000_0000_0000_0000_0000_0000_0000_0000,
        -0x1000_0000_0000_0000_0000_0000_0000_0000 <= a.z * b.y <= 0x1000_0000_0000_0000_0000_0000_0000_0000,
{
    let l = WIDE_LIMIT as int;
    assert(l * l == 0x1000_0000_0000_0000_0000_0000_0000_0000);
    lemma_product_bound(a.x as int, b.x as int, l, l);
    lemma_product_bound(a.y as int, b.y as int, l, l);
    lemma_product_bound(a.z as int, b.z as int, l, l);
    lemma_product_bound(a.x as int, b.y as int, l, l);
    lemma_product_bound(a.x as int, b.z as int, l, l);
    lemma_product_bound(a.y as int, b.x as int, l, l);
    lemma_product_bound(a.y as int, b.z as int, l, l);
    lemma_product_bound(a.z as int, b.x as int, l, l);
    lemma_product_bound(a.z as int, b.y as int, l, l);
}

impl Vector3D {
    /// The origin of the coordinate space.
    pub fn empty() -> (r: Vector3D)
        ensures
            r.x == 0 && r.y == 0 && r.z == 0,
    {
        Vector3D { x: 0, y: 0, z: 0 }
    }

    pub fn new(x: i64, y: i64, z: i64) -> (r: Vector3D)
        ensures
            r.x == x && r.y == y && r.z == z,
    {
        Vector3D { x, y, z }
    }

    pub fn x(&self) -> (r: i64)
        ensures
            r == self.x,
    {
        self.x
    }

    pub fn y(&self) -> (r: i64)
        ensures
            r == self.y,
    {
        self.y
    }

    pub fn z(&self) -> (r: i64)
        ensures
            r == self.z,
    {
        self.z
    }

    /// The component along `axis`.
    pub fn index(&self, axis: usize) -> (r: i64)
        requires
            axis < 3,
        ensures
            r == component(*self, axis as int),
    {
        if axis == 0 {
            self.x
        } else if axis == 1 {
            self.y
        } else {
            self.z
        }
    }

    /// Replaces the component along `axis` and keeps the others.
    pub fn set(&mut self, axis: usize, value: i64)
        requires
            axis < 3,
        ensures
            component(*final(self), axis as int) == value,
            forall|a: int| 0 <= a < 3 && a != axis ==> component(*final(self), a) == component(*old(self), a),
    {
        if axis == 0 {
            self.x = value;
        } else if axis == 1 {
            self.y = value;
        } else {
            self.z = value;
        }
    }

    pub fn length_squared(&self) -> (r: i128)
        requires
            within(*self, WIDE_LIMIT as int),
        ensures
            r == length_squared_spec(*self),
    {
        self.dot(self)
    }

    pub fn dot(&self, other: &Vector3D) -> (r: i128)
        requires
            within(*self, WIDE_LIMIT as int),
            within(*other, WIDE_LIMIT as int),
        ensures
            r == dot_spec(*self, *other),
    {
        proof {
            lemma_wide_products(*self, *other);
        }
        (self.x as i128) * (other.x as i128) + (self.y as i128) * (other.y as i128) + (self.z as i128)
            * (other.z as i128)
    }

    pub fn cross(&self, other: &Vector3D) -> (r: Vector3D)
        requires
            within(*self, WIDE_LIMIT as int),
            within(*other, WIDE_LIMIT as int),
            fits(cross_x(*self, *other), cross_y(*self, *other), cross_z(*self, *other)),
        ensures
            r.x == cross_x(*self, *other),
            r.y == cross_y(*self, *other),
            r.z == cross_z(*self, *other),
    {
        proof {
            lemma_wide_products(*self, *other);
        }
        let (ax, ay, az) = (self.x as i128, self.y as i128, self.z as i128);
        let (bx, by, bz) = (other.x as i128, other.y as i128, other.z as i128);
        Vector3D {
            x: (ay * bz - az * by) as i64,
            y: (az * bx - ax * bz) as i64,
            z: (ax * by - ay * bx) as i64,
        }
    }

    pub fn add(&self, other: &Vector3D) -> (r: Vector3D)
        requires
            fits(self.x + other.x, self.y + other.y, self.z + other.z),
        ensures
            r.x == self.x + other.x,
            r.y == self.y + other.y,
            r.z == self.z + other.z,
    {
        Vector3D { x: self.x + other.x, y: self.y + other.y, z: self.z + other.z }
    }

    pub fn sub(&self, other: &Vector3D) -> (r: Vector3D)
        requires
            fits(self.x - other.x, self.y - other.y, self.z - other.z),
        ensures
            r.x == self.x - other.x,
            r.y == self.y - other.y,
            r.z == self.z - other.z,
    {
        Vector3D { x: self.x - other.x, y: self.y - other.y, z: self.z - other.z }
    }

    pub fn neg(&self) -> (r: Vector3D)
        requires
            fits(-self.x, -self.y, -self.z),
        ensures
            r.x == -self.x,
            r.y == -self.y,
            r.z == -self.z,
    {
        Vector3D { x: -self.x, y: -self.y, z: -self.z }
    }

    /// Component-wise product.
    pub fn mul(&self, other: &Vector3D) -> (r: Vector3D)
        requires
            fits(self.x * other.x, self.y * other.y, self.z * other.z),
        ensures
            r.x == self.x * other.x,
            r.y == self.y * other.y,
            r.z == self.z * other.z,
    {
        Vector3D { x: self.x * other.x, y: self.y * other.y, z: self.z * other.z }
    }

    /// Product with a scalar.
    pub fn scale(&self, k: i64) -> (r: Vector3D)
        requires
            fits(k * self.x, k * self.y, k * self.z),
        ensures
            r.x == k * self.x,
            r.y == k * self.y,
            r.z == k * self.z,
    {
        Vector3D { x: k * self.x, y: k * self.y, z: k * self.z }
    }

    /// Whether every component is zero: on the integer grid a degenerate
    /// direction is exactly the zero vector.
    pub fn near_zero(&self) -> (r: bool)
        ensures
            r == (self.x == 0 && self.y == 0 && self.z == 0),
    {
        self.x == 0 && self.y == 0 && self.z == 0
    }

    /// Mirror image of `self` about the plane with normal `normal`:
    /// `v - 2 (v . n) n`.
    pub fn reflect(&self, normal: &Vector3D) -> (r: Vector3D)
        requires
            within(*self, COORD_LIMIT as int),
            within(*normal, COORD_LIMIT as int),
            fits(
                self.x - 2 * dot_spec(*self, *normal) * normal.x,
                self.y - 2 * dot_spec(*self, *normal) * normal.y,
                self.z - 2 * dot_spec(*self, *normal) * normal.z,
            ),
        ensures
            r.x == self.x - 2 * dot_spec(*self, *normal) * normal.x,
            r.y == self.y - 2 * dot_spec(*self, *normal) * normal.y,
            r.z == self.z - 2 * dot_spec(*self, *normal) * normal.z,
    {
        let ghost l = COORD_LIMIT as int;
        proof {
            lemma_product_bound(self.x as int, normal.x as int, l, l);
            lemma_product_bound(self.y as int, normal.y as int, l, l);
            lemma_product_bound(self.z as int, normal.z as int, l, l);
        }
        let d = self.dot(normal);
        let twice = 2 * d;
        proof {
            lemma_product_bound(twice as int, normal.x as int, 6 * l * l, l);
            lemma_product_bound(twice as int, normal.y as int, 6 * l * l, l);
            lemma_product_bound(twice as int, normal.z as int, 6 * l * l, l);
            assert(6 * l * l * l < 0x1000_0000_0000_0000_0000_0000_0000_0000);
        }
        Vector3D {
            x: (self.x as i128 - twice * normal.x as i128) as i64,
            y: (self.y as i128 - twice * normal.y as i128) as i64,
            z: (self.z as i128 - twice * normal.z as i128) as i64,
        }
    }
}

/// The dot product of two vectors.
pub fn dot(first: &Vector3D, second: &Vector3D) -> (r: i128)
    requires
        within(*first, WIDE_LIMIT as int),
        within(*second, WIDE_LIMIT as int),
    ensures
        r == dot_spec(*first, *second),
{
    first.dot(second)
}

/// The cross product of two vectors.
pub fn cross(first: &Vector3D, second: &Vector3D) -> (r: Vector3D)
    requires
        within(*first, WIDE_LIMIT as int),
        within(*second, WIDE_LIMIT as int),
        fits(cross_x(*first, *second), cross_y(*first, *second), cross_z(*first, *second)),
    ensures
        r.x == cross_x(*first, *second),
        r.y == cross_y(*first, *second),
        r.z == cross_z(*first, *second),
{
    first.cross(second)
}

} // verus!
