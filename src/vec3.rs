//! Integer lattice vectors.
//!
//! Scene coordinates are fixed-point integers: one world unit is a fixed
//! number of lattice steps, chosen by whoever builds the scene. Every
//! operation here is exact, so geometric predicates (signs of dot products,
//! containment in a box) are decided without rounding.
use vstd::prelude::*;

verus! {

/// Largest magnitude of a coordinate of a ray or of a primitive.
pub const COORD_LIMIT: i64 = 16_777_216;

/// A vector (or point) of three lattice coordinates.
#[derive(Clone, Copy, Debug, PartialEq, Eq, Structural)]
pub struct Vec3 {
    pub x: i64,
    pub y: i64,
    pub z: i64,
}

pub type Point3 = Vec3;

/// A vector with wide components: products of two lattice quantities.
#[derive(Clone, Copy, Debug, PartialEq, Eq, Structural)]
pub struct Wide3 {
    pub x: i128,
    pub y: i128,
    pub z: i128,
}

/// Dot product of two integer triples.
pub open spec fn dot3(a: (int, int, int), b: (int, int, int)) -> int {
    a.0 * b.0 + a.1 * b.1 + a.2 * b.2
}

/// Cross product of two integer triples.
pub open spec fn cross3(a: (int, int, int), b: (int, int, int)) -> (int, int, int) {
    (a.1 * b.2 - a.2 * b.1, a.2 * b.0 - a.0 * b.2, a.0 * b.1 - a.1 * b.0)
}

pub open spec fn in_range(v: int, limit: int) -> bool {
    -limit <= v <= limit
}

impl Vec3 {
    pub open spec fn view(self) -> (int, int, int) {
        (self.x as int, self.y as int, self.z as int)
    }

    /// Component `a` (0 = x, 1 = y, 2 = z).
    pub open spec fn comp(self, a: int) -> int {
        if a == 0 {
            self.x as int
        } else if a == 1 {
            self.y as int
        } else {
            self.z as int
        }
    }

    /// Every component lies within `limit` of the origin.
    pub open spec fn within(self, limit: int) -> bool {
        in_range(self.x as int, limit) && in_range(self.y as int, limit) && in_range(
            self.z as int,
            limit,
        )
    }

    pub open spec fn in_limit(self) -> bool {
        self.within(COORD_LIMIT as int)
    }

    pub fn new(x: i64, y: i64, z: i64) -> (r: Vec3)
        ensures
            r.x == x && r.y == y && r.z == z,
    {
        Vec3 { x, y, z }
    }

    pub fn zero() -> (r: Vec3)
        ensures
            r@ == (0int, 0int, 0int),
    {
        Vec3 { x: 0, y: 0, z: 0 }
    }

    /// Component `a` of the vector.
    pub fn get(&self, a: usize) -> (r: i64)
        requires
            a < 3,
        ensures
            r == self.comp(a as int),
    {
        if a == 0 {
            self.x
        } else if a == 1 {
            self.y
        } else {
            self.z
        }
    }

    pub fn add(&self, o: &Vec3) -> (r: Vec3)
        requires
            self.in_limit(),
            o.in_limit(),
        ensures
            r@ == (self.x + o.x, self.y + o.y, self.z + o.z),
    {
        Vec3 { x: self.x + o.x, y: self.y + o.y, z: self.z + o.z }
    }

    pub fn sub(&self, o: &Vec3) -> (r: Vec3)
        requires
            self.in_limit(),
            o.in_limit(),
        ensures
            r@ == (self.x - o.x, self.y - o.y, self.z - o.z),
    {
        Vec3 { x: self.x - o.x, y: self.y - o.y, z: self.z - o.z }
    }

    pub fn neg(&self) -> (r: Vec3)
        requires
            self.in_limit(),
        ensures
            r@ == (-self.x, -self.y, -self.z),
            r.in_limit(),
    {
        Vec3 { x: -self.x, y: -self.y, z: -self.z }
    }

    /// Dot product, exact in 128 bits.
    pub fn dot(&self, o: &Vec3) -> (r: i128)
        requires
            self.within(0x1_0000_0000),
            o.within(0x1_0000_0000),
        ensures
            r == dot3(self@, o@),
    {
        proof {
            lemma_mul_within(self.x as int, o.x as int, 0x1_0000_0000, 0x1_0000_0000);
            lemma_mul_within(self.y as int, o.y as int, 0x1_0000_0000, 0x1_0000_0000);
            lemma_mul_within(self.z as int, o.z as int, 0x1_0000_0000, 0x1_0000_0000);
        }
        (self.x as i128) * (o.x as i128) + (self.y as i128) * (o.y as i128) + (self.z as i128) * (
        o.z as i128)
    }
}

impl Wide3 {
    pub open spec fn view(self) -> (int, int, int) {
        (self.x as int, self.y as int, self.z as int)
    }

    pub open spec fn within(self, limit: int) -> bool {
        in_range(self.x as int, limit) && in_range(self.y as int, limit) && in_range(
            self.z as int,
            limit,
        )
    }

    pub fn new(x: i128, y: i128, z: i128) -> (r: Wide3)
        ensures
            r.x == x && r.y == y && r.z == z,
    {
        Wide3 { x, y, z }
    }
}

/// Bounds a product by the product of the bounds.
pub proof fn lemma_mul_within(a: int, b: int, la: int, lb: int)
    requires
        in_range(a, la),
        in_range(b, lb),
    ensures
        in_range(a * b, la * lb),
{
    assert(-(la * lb) <= a * b <= la * lb) by (nonlinear_arith)
        requires
            -la <= a <= la,
            -lb <= b <= lb,
    ;
}

} // verus!
