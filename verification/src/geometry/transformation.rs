use vstd::prelude::*;
use crate::geometry::aa_rectangle::AARectangle;
use crate::geometry::cell::Cell;
use crate::geometry::point::Point;
use crate::geometry::shape::{region, Shape};

verus! {

/// A rotation about the origin by a multiple of a quarter turn, counter
/// clockwise. These are the rotations that map the grid onto itself.
#[derive(Clone, Copy, Debug, PartialEq, Eq, Structural, Hash)]
pub enum Rotation {
    R0,
    R90,
    R180,
    R270,
}

/// A rotation about the origin followed by a translation.
#[derive(Clone, Copy, Debug, PartialEq, Eq, Structural, Hash)]
pub struct Transformation {
    pub rotation: Rotation,
    pub translation: Point,
}

impl Rotation {
    /// Where the rotation takes the point `(x, y)`.
    pub open spec fn rotate_point(&self, p: (int, int)) -> (int, int) {
        match self {
            Rotation::R0 => (p.0, p.1),
            Rotation::R90 => (-p.1, p.0),
            Rotation::R180 => (-p.0, -p.1),
            Rotation::R270 => (p.1, -p.0),
        }
    }

    /// The cell onto which the rotation takes the cell `c`. Rotating the
    /// unit square `[i, i + 1] x [j, j + 1]` by a quarter turn gives the unit
    /// square `[-j - 1, -j] x [i, i + 1]`.
    pub open spec fn rotate_cell(&self, c: Cell) -> Cell {
        match self {
            Rotation::R0 => (c.0, c.1),
            Rotation::R90 => (-c.1 - 1, c.0),
            Rotation::R180 => (-c.0 - 1, -c.1 - 1),
            Rotation::R270 => (c.1, -c.0 - 1),
        }
    }

    /// The rotation that undoes this one.
    pub open spec fn inverse(&self) -> Rotation {
        match self {
            Rotation::R0 => Rotation::R0,
            Rotation::R90 => Rotation::R270,
            Rotation::R180 => Rotation::R180,
            Rotation::R270 => Rotation::R90,
        }
    }
}

impl Transformation {
    /// Where the transformation takes the point `p`.
    pub open spec fn apply_point(&self, p: (int, int)) -> (int, int) {
        let r = self.rotation.rotate_point(p);
        (r.0 + self.translation.0, r.1 + self.translation.1)
    }

    /// The cell onto which the transformation takes the cell `c`.
    pub open spec fn apply_cell(&self, c: Cell) -> Cell {
        let r = self.rotation.rotate_cell(c);
        (r.0 + self.translation.0, r.1 + self.translation.1)
    }

    /// The cell that the transformation takes onto the cell `c`.
    pub open spec fn source_cell(&self, c: Cell) -> Cell {
        self.rotation.inverse().rotate_cell((c.0 - self.translation.0, c.1 - self.translation.1))
    }

    /// The region onto which the transformation takes `cells`.
    pub open spec fn image(&self, cells: Set<Cell>) -> Set<Cell> {
        Set::new(|c: Cell| cells.contains(self.source_cell(c)))
    }

    /// `apply_cell` and `source_cell` undo each other, so the image of a
    /// region holds exactly the cells onto which its cells are taken.
    pub proof fn lemma_source_cell(&self, c: Cell)
        ensures
            self.source_cell(self.apply_cell(c)) == c,
            self.apply_cell(self.source_cell(c)) == c,
            forall|cells: Set<Cell>| #[trigger]
                self.image(cells).contains(self.apply_cell(c)) == cells.contains(c),
    {
    }

    /// The image of a part of a region is a part of the image.
    pub proof fn lemma_image_monotone(&self, part: Set<Cell>, whole: Set<Cell>)
        requires
            part.subset_of(whole),
        ensures
            self.image(part).subset_of(self.image(whole)),
    {
    }

    /// The transformation that changes nothing.
    pub fn identity() -> (t: Transformation)
        ensures
            t == (Transformation { rotation: Rotation::R0, translation: Point(0, 0) }),
            forall|c: Cell| #[trigger] t.apply_cell(c) == c,
    {
        Transformation { rotation: Rotation::R0, translation: Point(0, 0) }
    }

    /// The translation by `(dx, dy)`.
    pub fn translation(dx: i32, dy: i32) -> (t: Transformation)
        ensures
            t == (Transformation { rotation: Rotation::R0, translation: Point(dx, dy) }),
    {
        Transformation { rotation: Rotation::R0, translation: Point(dx, dy) }
    }

    /// Whether the image of the point has coordinates that the grid can
    /// hold.
    pub open spec fn fits_point(&self, p: Point) -> bool {
        let q = self.apply_point((p.0 as int, p.1 as int));
        i32::MIN <= q.0 <= i32::MAX && i32::MIN <= q.1 <= i32::MAX
    }

    /// Whether the image of the rectangle has corners that the grid can
    /// hold.
    pub open spec fn fits_rect(&self, rect: AARectangle) -> bool {
        let a = self.apply_point((rect.x_min as int, rect.y_min as int));
        let b = self.apply_point((rect.x_max as int, rect.y_max as int));
        i32::MIN <= a.0 <= i32::MAX && i32::MIN <= a.1 <= i32::MAX && i32::MIN <= b.0 <= i32::MAX
            && i32::MIN <= b.1 <= i32::MAX
    }

    /// Where the transformation takes the point, or `None` when that is off
    /// the grid.
    pub fn transform_point(&self, p: &Point) -> (r: Option<Point>)
        ensures
            r.is_some() == self.fits_point(*p),
            r.is_some() ==> (r.unwrap().0 as int, r.unwrap().1 as int) == self.apply_point(
                (p.0 as int, p.1 as int),
            ),
    {
        let x = p.0 as i64;
        let y = p.1 as i64;
        let (rx, ry): (i64, i64) = match self.rotation {
            Rotation::R0 => (x, y),
            Rotation::R90 => (-y, x),
            Rotation::R180 => (-x, -y),
            Rotation::R270 => (y, -x),
        };
        let tx = rx + self.translation.0 as i64;
        let ty = ry + self.translation.1 as i64;
        if tx < i32::MIN as i64 || tx > i32::MAX as i64 || ty < i32::MIN as i64 || ty > i32::MAX as i64 {
            None
        } else {
            Some(Point(tx as i32, ty as i32))
        }
    }

    /// The image of the rectangle, or `None` when it reaches off the grid.
    pub fn transform_rect(&self, rect: &AARectangle) -> (r: Option<AARectangle>)
        requires
            rect.wf(),
        ensures
            r.is_some() == self.fits_rect(*rect),
            r.is_some() ==> r.unwrap().wf() && r.unwrap()@ == self.image(rect@),
    {
        let a = self.transform_point(&Point(rect.x_min, rect.y_min));
        let b = self.transform_point(&Point(rect.x_max, rect.y_max));
        match (a, b) {
            (Some(a), Some(b)) => {
                let image = AARectangle {
                    x_min: if a.0 <= b.0 { a.0 } else { b.0 },
                    y_min: if a.1 <= b.1 { a.1 } else { b.1 },
                    x_max: if a.0 <= b.0 { b.0 } else { a.0 },
                    y_max: if a.1 <= b.1 { b.1 } else { a.1 },
                };
                proof {
                    assert(image@ =~= self.image(rect@));
                }
                Some(image)
            },
            _ => None,
        }
    }

    /// The image of the shape, or `None` when its bounding box reaches off
    /// the grid.
    pub fn transform_shape(&self, shape: &Shape) -> (r: Option<Shape>)
        requires
            shape.wf(),
        ensures
            r.is_some() == self.fits_rect(shape.bbox),
            r.is_some() ==> {
                &&& r.unwrap().wf()
                &&& r.unwrap()@ == self.image(shape@)
                &&& r.unwrap().bbox@ == self.image(shape.bbox@)
                &&& r.unwrap().boxes@.len() == shape.boxes@.len()
                &&& forall|k: int|
                    0 <= k < shape.boxes@.len() ==> (#[trigger] r.unwrap().boxes@[k])@ == self.image(
                        shape.boxes@[k]@,
                    )
            },
    {
        let bbox = match self.transform_rect(&shape.bbox) {
            Some(bbox) => bbox,
            None => {
                return None;
            },
        };
        let mut boxes: Vec<AARectangle> = Vec::new();
        let mut i: usize = 0;
        while i < shape.boxes.len()
            invariant
                i <= shape.boxes@.len(),
                shape.wf(),
                self.fits_rect(shape.bbox),
                bbox.wf(),
                bbox@ == self.image(shape.bbox@),
                boxes@.len() == i,
                forall|k: int|
                    0 <= k < i ==> (#[trigger] boxes@[k]).wf() && boxes@[k]@ == self.image(
                        shape.boxes@[k]@,
                    ),
            decreases shape.boxes@.len() - i,
        {
            let b = shape.boxes[i];
            proof {
                assert(b.wf() && b@.subset_of(shape.bbox@));
                let lo: Cell = (b.x_min as int, b.y_min as int);
                let hi: Cell = (b.x_max - 1, b.y_max - 1);
                assert(b@.contains(lo) && b@.contains(hi));
                assert(shape.bbox@.contains(lo) && shape.bbox@.contains(hi));
            }
            match self.transform_rect(&b) {
                Some(image) => {
                    boxes.push(image);
                },
                None => {
                    return None;
                },
            }
            i += 1;
        }
        let image = Shape { boxes, bbox };
        proof {
            assert forall|k: int| 0 <= k < image.boxes@.len() implies (#[trigger] image.boxes@[k])@.subset_of(
                image.bbox@,
            ) by {
                assert(shape.boxes@[k]@.subset_of(shape.bbox@));
                self.lemma_image_monotone(shape.boxes@[k]@, shape.bbox@);
            }
            assert forall|c: Cell| image@.contains(c) == self.image(shape@).contains(c) by {
                if image@.contains(c) {
                    let k = choose|k: int|
                        0 <= k < image.boxes@.len() && (#[trigger] image.boxes@[k])@.contains(c);
                    assert(shape.boxes@[k]@.contains(self.source_cell(c)));
                }
                if self.image(shape@).contains(c) {
                    let k = choose|k: int|
                        0 <= k < shape.boxes@.len() && (#[trigger] shape.boxes@[k])@.contains(
                            self.source_cell(c),
                        );
                    assert(image.boxes@[k]@.contains(c));
                }
            }
            assert(image@ =~= self.image(shape@));
        }
        Some(image)
    }
}

} // verus!
