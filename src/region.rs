use vstd::prelude::*;
use crate::embedding::{Point3, COORD_LIMIT};

verus! {

/// An axis-aligned box from the origin to the given corner.
pub type Cuboid = Point3;

/// A bounded part of space: which points lie inside it, and a box from the
/// origin that holds it.
pub trait Region {
    spec fn contains(&self, point: Point3) -> bool;

    spec fn hull(&self) -> Cuboid;

    fn is_point_inside_region(&self, point: &Point3) -> (r: bool)
        requires
            point.in_limits(),
        ensures
            r == self.contains(*point);

    fn cuboid_hull(&self) -> (r: Cuboid)
        ensures
            r == self.hull();
}

/// The rectangle from the origin to (x, y), borders included.
pub struct Rectangle {
    pub hull: Cuboid,
}

/// The box from the origin to (x, y, z), borders included.
pub struct Parallelepiped {
    pub hull: Cuboid,
}

/// The disc of the given radius that touches both axes.
pub struct Circle {
    radius: i64,
}

/// The ball of the given radius that touches the three coordinate planes.
pub struct Sphere {
    radius: i64,
}

impl Rectangle {
    /// Sizes in fixed-point units.
    pub fn new(x_size: i64, y_size: i64) -> (r: Rectangle)
        ensures
            r.hull() == (Point3 { x: x_size, y: y_size, z: 0 }),
    {
        Rectangle { hull: Point3 { x: x_size, y: y_size, z: 0 } }
    }
}

impl Region for Rectangle {
    open spec fn contains(&self, p: Point3) -> bool {
        0 <= p.x <= self.hull.x && 0 <= p.y <= self.hull.y
    }

    open spec fn hull(&self) -> Cuboid {
        self.hull
    }

    fn is_point_inside_region(&self, point: &Point3) -> (r: bool) {
        0 <= point.x && point.x <= self.hull.x && 0 <= point.y && point.y <= self.hull.y
    }

    fn cuboid_hull(&self) -> (r: Cuboid) {
        self.hull
    }
}

impl Parallelepiped {
    /// Sizes in fixed-point units.
    pub fn new(x_size: i64, y_size: i64, z_size: i64) -> (r: Self)
        ensures
            r.hull() == (Point3 { x: x_size, y: y_size, z: z_size }),
    {
        Parallelepiped { hull: Point3 { x: x_size, y: y_size, z: z_size } }
    }
}

impl Region for Parallelepiped {
    open spec fn contains(&self, p: Point3) -> bool {
        0 <= p.x <= self.hull.x && 0 <= p.y <= self.hull.y && 0 <= p.z <= self.hull.z
    }

    open spec fn hull(&self) -> Cuboid {
        self.hull
    }

    fn is_point_inside_region(&self, point: &Point3) -> (r: bool) {
        0 <= point.x && point.x <= self.hull.x && 0 <= point.y && point.y <= self.hull.y
            && 0 <= point.z && point.z <= self.hull.z
    }

    fn cuboid_hull(&self) -> (r: Cuboid) {
        self.hull
    }
}

/// Square of `a - b` for values within the coordinate limits.
fn square_of_difference(a: i64, b: i64) -> (r: i128)
    requires
        -COORD_LIMIT <= a <= COORD_LIMIT,
        -COORD_LIMIT <= b <= COORD_LIMIT,
    ensures
        r == (a - b) * (a - b),
        0 <= r <= 4611686018427387904,
{
    let d: i128 = (a as i128) - (b as i128);
    assert(d * d <= 4611686018427387904) by (nonlinear_arith)
        requires -2147483648 <= d <= 2147483648;
    assert(d * d >= 0) by (nonlinear_arith);
    d * d
}

impl Circle {
    #[verifier::type_invariant]
    spec fn radius_in_limits(&self) -> bool {
        0 <= self.radius <= COORD_LIMIT / 2
    }

    /// Radius in fixed-point units, between 0 and half of `COORD_LIMIT`.
    pub fn new(radius: i64) -> (r: Circle)
        requires
            0 <= radius <= COORD_LIMIT / 2,
        ensures
            r.radius() == radius,
    {
        Circle { radius }
    }

    pub closed spec fn radius(&self) -> i64 {
        self.radius
    }
}

impl Region for Circle {
    open spec fn contains(&self, p: Point3) -> bool {
        (p.x - self.radius()) * (p.x - self.radius()) + (p.y - self.radius()) * (p.y - self.radius())
            <= self.radius() * self.radius()
    }

    open spec fn hull(&self) -> Cuboid {
        Point3 { x: (2 * self.radius()) as i64, y: (2 * self.radius()) as i64, z: 0 }
    }

    fn is_point_inside_region(&self, point: &Point3) -> (r: bool) {
        proof {
            use_type_invariant(self);
        }
        let dx = square_of_difference(point.x, self.radius);
        let dy = square_of_difference(point.y, self.radius);
        let rr = square_of_difference(self.radius, 0);
        dx + dy <= rr
    }

    fn cuboid_hull(&self) -> (r: Cuboid) {
        proof {
            use_type_invariant(self);
        }
        Point3 { x: 2 * self.radius, y: 2 * self.radius, z: 0 }
    }
}

impl Sphere {
    #[verifier::type_invariant]
    spec fn radius_in_limits(&self) -> bool {
        0 <= self.radius <= COORD_LIMIT / 2
    }

    /// Radius in fixed-point units, between 0 and half of `COORD_LIMIT`.
    pub fn new(radius: i64) -> (r: Self)
        requires
            0 <= radius <= COORD_LIMIT / 2,
        ensures
            r.radius() == radius,
    {
        Sphere { radius }
    }

    pub closed spec fn radius(&self) -> i64 {
        self.radius
    }
}

impl Region for Sphere {
    open spec fn contains(&self, p: Point3) -> bool {
        (p.x - self.radius()) * (p.x - self.radius()) + (p.y - self.radius()) * (p.y - self.radius())
            + (p.z - self.radius()) * (p.z - self.radius()) <= self.radius() * self.radius()
    }

    open spec fn hull(&self) -> Cuboid {
        Point3 { x: (2 * self.radius()) as i64, y: (2 * self.radius()) as i64, z: (2 * self.radius()) as i64 }
    }

    fn is_point_inside_region(&self, point: &Point3) -> (r: bool) {
        proof {
            use_type_invariant(self);
        }
        let dx = square_of_difference(point.x, self.radius);
        let dy = square_of_difference(point.y, self.radius);
        let dz = square_of_difference(point.z, self.radius);
        let rr = square_of_difference(self.radius, 0);
        dx + dy + dz <= rr
    }

    fn cuboid_hull(&self) -> (r: Cuboid) {
        proof {
            use_type_invariant(self);
        }
        Point3 { x: 2 * self.radius, y: 2 * self.radius, z: 2 * self.radius }
    }
}

} // verus!
