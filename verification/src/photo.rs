use vstd::prelude::*;

verus! {

/// A rectangular photo of fixed size, known by its identifier.
#[derive(Debug, PartialEq, Eq)]
pub struct Photo {
    pub id: String,
    pub width: u32,
    pub height: u32,
}

impl Photo {
    /// A photo with the given identifier and size.
    pub fn new(id: String, width: u32, height: u32) -> (photo: Photo)
        ensures
            photo == (Photo { id, width, height }),
    {
        Photo { id, width, height }
    }
}

impl Clone for Photo {
    fn clone(&self) -> (copy: Photo)
        ensures
            copy == *self,
    {
        Photo { id: self.id.clone(), width: self.width, height: self.height }
    }
}

/// Where a photo has been put: its top-left cell `(x, y)` on the canvas,
/// with the photo's size, so that the record describes a rectangle by itself.
#[derive(Debug, PartialEq, Eq)]
pub struct Placement {
    pub photo_id: String,
    pub x: usize,
    pub y: usize,
    pub width: u32,
    pub height: u32,
}

impl Placement {
    /// The placement of `photo` with its top-left cell at `(x, y)`.
    pub open spec fn of(photo: Photo, x: int, y: int) -> Placement {
        Placement {
            photo_id: photo.id,
            x: x as usize,
            y: y as usize,
            width: photo.width,
            height: photo.height,
        }
    }

    /// Column `c` lies between the rectangle's left and right edge.
    pub open spec fn spans(&self, c: int) -> bool {
        self.x <= c < self.x + self.width
    }

    /// The first row above the rectangle.
    pub open spec fn top(&self) -> int {
        self.y + self.height
    }

    /// The rectangle holds the cell in column `cx` of row `cy`.
    pub open spec fn covers(&self, cx: int, cy: int) -> bool {
        self.x <= cx < self.x + self.width && self.y <= cy < self.y + self.height
    }

    /// The rectangle lies on a canvas of the given width, and its rows can
    /// be counted in `usize`.
    pub open spec fn within(&self, width: int) -> bool {
        self.x + self.width <= width && self.top() <= usize::MAX
    }
}

impl Placement {
    /// Whether the rectangle lies on a canvas of the given width, and its
    /// rows can be counted in `usize`.
    pub fn fits(&self, width: u32) -> (ok: bool)
        ensures
            ok == self.within(width as int),
    {
        self.x <= width as usize && self.width as usize <= width as usize - self.x
            && self.height as usize <= usize::MAX - self.y
    }
}

impl Clone for Placement {
    fn clone(&self) -> (copy: Placement)
        ensures
            copy == *self,
    {
        Placement {
            photo_id: self.photo_id.clone(),
            x: self.x,
            y: self.y,
            width: self.width,
            height: self.height,
        }
    }
}

/// The two rectangles share a cell.
pub open spec fn overlap(a: Placement, b: Placement) -> bool {
    exists|cx: int, cy: int| #[trigger] a.covers(cx, cy) && b.covers(cx, cy)
}

/// No two of the placements share a cell.
pub open spec fn pairwise_disjoint(placements: Seq<Placement>) -> bool {
    forall|i: int, j: int|
        0 <= i < j < placements.len() ==> !overlap(#[trigger] placements[i], #[trigger] placements[j])
}

/// Why a canvas could not be packed or drawn.
#[derive(Debug, PartialEq, Eq)]
pub enum PackError {
    /// The photo with this identifier is wider than the canvas.
    OversizedPhoto { id: String },
    /// The photo with this identifier would have been put outside the canvas
    /// or onto cells that another photo holds.
    InternalInvariantViolation { id: String },
}

impl Clone for PackError {
    fn clone(&self) -> (copy: PackError)
        ensures
            copy == *self,
    {
        match self {
            PackError::OversizedPhoto { id } => PackError::OversizedPhoto { id: id.clone() },
            PackError::InternalInvariantViolation { id } => PackError::InternalInvariantViolation {
                id: id.clone(),
            },
        }
    }
}

} // verus!
