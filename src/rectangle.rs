use vstd::prelude::*;
use crate::vector::Vec2;

verus! {

/// An axis-aligned rectangle given by its top-left corner and its extent.
/// It is closed: points on its edges belong to it.
#[derive(Clone, Copy, Debug, PartialEq, Eq, Structural)]
pub struct Rectangle {
    pub position: Vec2,
    pub width: i64,
    pub height: i64,
}

impl Rectangle {
    /// Non-negative extent whose far edges are representable.
    pub open spec fn wf(self) -> bool {
        &&& 0 <= self.width
        &&& 0 <= self.height
        &&& self.position.x + self.width <= i64::MAX
        &&& self.position.y + self.height <= i64::MAX
    }

    pub open spec fn contains_spec(self, p: Vec2) -> bool {
        &&& self.position.x <= p.x <= self.position.x + self.width
        &&& self.position.y <= p.y <= self.position.y + self.height
    }

    /// The two closed rectangles share at least one point.
    pub open spec fn intersects_spec(self, o: Rectangle) -> bool {
        &&& self.position.x <= o.position.x + o.width
        &&& o.position.x <= self.position.x + self.width
        &&& self.position.y <= o.position.y + o.height
        &&& o.position.y <= self.position.y + self.height
    }

    pub fn new(x: i64, y: i64, width: i64, height: i64) -> (r: Rectangle)
        ensures
            r.position == (Vec2 { x, y }),
            r.width == width,
            r.height == height,
    {
        Rectangle { position: Vec2 { x, y }, width, height }
    }

    pub fn contains(&self, point: Vec2) -> (r: bool)
        ensures
            r == self.contains_spec(point),
    {
        let x = self.position.x as i128;
        let y = self.position.y as i128;
        x <= point.x as i128 && point.x as i128 <= x + self.width as i128 && y <= point.y as i128
            && point.y as i128 <= y + self.height as i128
    }

    pub fn intersects(&self, other: &Rectangle) -> (r: bool)
        ensures
            r == self.intersects_spec(*other),
    {
        let sx = self.position.x as i128;
        let sy = self.position.y as i128;
        let ox = other.position.x as i128;
        let oy = other.position.y as i128;
        sx <= ox + other.width as i128 && ox <= sx + self.width as i128 && sy <= oy
            + other.height as i128 && oy <= sy + self.height as i128
    }
}

/// A point inside two closed rectangles shows that they intersect.
pub proof fn lemma_common_point_intersects(a: Rectangle, b: Rectangle, p: Vec2)
    requires
        a.contains_spec(p),
        b.contains_spec(p),
    ensures
        a.intersects_spec(b),
{
}

} // verus!
