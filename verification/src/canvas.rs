use crate::grid::{clashes, lemma_rows_hold, materialize, rows_needed, shows};
use crate::order::{
    in_packing_order, lemma_packing_order_exists, lemma_stack_take, packing_order, sort_photos,
    stack_height,
};
use crate::photo::{overlap, pairwise_disjoint, PackError, Photo, Placement};
use crate::skyline::{clears, is_lowest_leftmost, raised, Skyline};
use vstd::prelude::*;

verus! {

/// The height that the placements give the skyline above column `c`: the
/// highest top among the rectangles that span the column, and 0 under none.
pub open spec fn envelope(placements: Seq<Placement>, c: int) -> int
    decreases placements.len(),
{
    if placements.len() == 0 {
        0
    } else {
        let below = envelope(placements.drop_last(), c);
        let placed = placements.last();
        if placed.spans(c) && placed.top() > below {
            placed.top()
        } else {
            below
        }
    }
}

/// The height profile that the placements leave on a canvas of the given width.
pub open spec fn skyline_of(placements: Seq<Placement>, width: int) -> Seq<int> {
    Seq::new(width as nat, |c: int| envelope(placements, c))
}

/// `placed` puts `photo` at the lowest position that clears the skyline left
/// by the placements `before`, and at the leftmost one on that row.
pub open spec fn placed_lowest(
    width: int,
    before: Seq<Placement>,
    photo: Photo,
    placed: Placement,
) -> bool {
    &&& placed.photo_id == photo.id
    &&& placed.width == photo.width
    &&& placed.height == photo.height
    &&& is_lowest_leftmost(
        skyline_of(before, width),
        photo.width as int,
        placed.x as int,
        placed.y as int,
    )
}

/// The placements pack the photos, one after another in the order given,
/// onto an empty canvas of the given width: placement `k` puts photo `k` at
/// the lowest, then leftmost, position above the placements before it.
pub open spec fn is_packing(width: int, photos: Seq<Photo>, placements: Seq<Placement>) -> bool {
    &&& placements.len() == photos.len()
    &&& forall|k: int|
        0 <= k < photos.len() ==> placed_lowest(
            width,
            placements.take(k),
            photos[k],
            #[trigger] placements[k],
        )
}

/// Photo `k` is wider than the canvas, and no photo before it is.
pub open spec fn is_first_oversized(photos: Seq<Photo>, width: int, k: int) -> bool {
    &&& 0 <= k < photos.len()
    &&& photos[k].width > width
    &&& forall|j: int| 0 <= j < k ==> (#[trigger] photos[j]).width <= width
}

/// A rectangle's top is never above the skyline of the columns it spans.
pub proof fn lemma_envelope_above(placements: Seq<Placement>, i: int, c: int)
    requires
        0 <= i < placements.len(),
        placements[i].spans(c),
    ensures
        placements[i].top() <= envelope(placements, c),
    decreases placements.len(),
{
    if i < placements.len() - 1 {
        lemma_envelope_above(placements.drop_last(), i, c);
    }
}

/// What one more placement does to the skyline.
pub proof fn lemma_envelope_push(placements: Seq<Placement>, placed: Placement, c: int)
    ensures
        envelope(placements.push(placed), c) == if placed.spans(c) && placed.top() > envelope(
            placements,
            c,
        ) {
            placed.top()
        } else {
            envelope(placements, c)
        },
        0 <= envelope(placements, c),
    decreases placements.len(),
{
    assert(placements.push(placed).drop_last() =~= placements);
    if placements.len() > 0 {
        lemma_envelope_push(placements.drop_last(), placements.last(), c);
        assert(placements.drop_last().push(placements.last()) =~= placements);
    }
}

/// A rectangle that clears the skyline of earlier placements shares no cell
/// with any of them.
pub proof fn lemma_clear_is_disjoint(
    width: int,
    placements: Seq<Placement>,
    placed: Placement,
    i: int,
)
    requires
        0 <= i < placements.len(),
        clears(skyline_of(placements, width), placed.x as int, placed.width as int, placed.y as int),
    ensures
        !overlap(placements[i], placed),
{
    let profile = skyline_of(placements, width);
    assert forall|cx: int, cy: int| #[trigger]
        placements[i].covers(cx, cy) && placed.covers(cx, cy) implies false by {
        lemma_envelope_above(placements, i, cx);
        assert(profile[cx] <= placed.y);
    }
}

/// A packing keeps every photo on the canvas, and no two photos share a cell.
pub proof fn lemma_packing_is_disjoint(
    width: int,
    photos: Seq<Photo>,
    placements: Seq<Placement>,
)
    requires
        0 <= width,
        is_packing(width, photos, placements),
    ensures
        pairwise_disjoint(placements),
        forall|k: int|
            0 <= k < placements.len() ==> (#[trigger] placements[k]).x + placements[k].width
                <= width,
{
    assert forall|i: int, j: int| 0 <= i < j < placements.len() implies !overlap(
        #[trigger] placements[i],
        #[trigger] placements[j],
    ) by {
        assert(placed_lowest(width, placements.take(j), photos[j], placements[j]));
        lemma_clear_is_disjoint(width, placements.take(j), placements[j], i);
    }
    assert forall|k: int| 0 <= k < placements.len() implies (#[trigger] placements[k]).x
        + placements[k].width <= width by {
        assert(placed_lowest(width, placements.take(k), photos[k], placements[k]));
    }
}

/// There is only one packing of given photos in a given order: two
/// sequences of placements that both meet `is_packing` are the same. With
/// the one order of packing, the same photos on a canvas of the same width
/// always come to lie at the same places.
pub proof fn lemma_packing_unique(
    width: int,
    photos: Seq<Photo>,
    first: Seq<Placement>,
    second: Seq<Placement>,
)
    requires
        is_packing(width, photos, first),
        is_packing(width, photos, second),
    ensures
        first == second,
{
    assert forall|k: int| 0 <= k <= photos.len() implies first.take(k) == second.take(k) by {
        lemma_packing_same_prefix(width, photos, first, second, k);
    }
    assert(first.take(photos.len() as int) =~= first);
    assert(second.take(photos.len() as int) =~= second);
}

proof fn lemma_packing_same_prefix(
    width: int,
    photos: Seq<Photo>,
    first: Seq<Placement>,
    second: Seq<Placement>,
    k: int,
)
    requires
        is_packing(width, photos, first),
        is_packing(width, photos, second),
        0 <= k <= photos.len(),
    ensures
        first.take(k) == second.take(k),
    decreases k,
{
    if k == 0 {
        assert(first.take(0) =~= second.take(0));
    } else {
        lemma_packing_same_prefix(width, photos, first, second, k - 1);
        let a = first[k - 1];
        let b = second[k - 1];
        let profile = skyline_of(first.take(k - 1), width);
        assert(placed_lowest(width, first.take(k - 1), photos[k - 1], a));
        assert(placed_lowest(width, second.take(k - 1), photos[k - 1], b));
        assert(clears(profile, a.x as int, a.width as int, a.y as int));
        assert(clears(profile, b.x as int, b.width as int, b.y as int));
        assert(a.x == b.x && a.y == b.y);
        assert(a == b);
        assert(first.take(k) =~= first.take(k - 1).push(a));
        assert(second.take(k) =~= second.take(k - 1).push(b));
    }
}

/// A canvas of fixed width with the photos to pack onto it, the skyline of
/// what has been placed, and the placements made so far.
pub struct Canvas {
    width: u32,
    photos: Vec<Photo>,
    skyline: Skyline,
    placements: Vec<Placement>,
}

impl Canvas {
    /// The width of the canvas, in columns.
    pub closed spec fn spec_width(&self) -> u32 {
        self.width
    }

    /// The photos to pack: as given, or in the order of packing once packed.
    pub closed spec fn spec_photos(&self) -> Seq<Photo> {
        self.photos@
    }

    /// The placements made so far, in the order in which they were made.
    pub closed spec fn spec_placements(&self) -> Seq<Placement> {
        self.placements@
    }

    /// The skyline of what has been placed.
    pub closed spec fn spec_skyline(&self) -> Skyline {
        self.skyline
    }

    /// The height above each column of the canvas.
    pub open spec fn profile(&self) -> Seq<int> {
        self.spec_skyline()@
    }

    /// The skyline is that of the placements, every placed rectangle lies on
    /// the canvas, no two of them share a cell, and the skyline has at most
    /// two segments for each placement, and one more.
    pub open spec fn wf(&self) -> bool {
        &&& self.spec_skyline().wf()
        &&& self.spec_skyline().spec_width() == self.spec_width()
        &&& self.profile() == skyline_of(self.spec_placements(), self.spec_width() as int)
        &&& forall|i: int|
            0 <= i < self.spec_placements().len() ==> (#[trigger] self.spec_placements()[i]).within(
                self.spec_width() as int,
            )
        &&& pairwise_disjoint(self.spec_placements())
        &&& self.spec_skyline().spec_segments().len() <= 2 * self.spec_placements().len() + 1
    }

    /// `photo` can be put with its top-left cell at `(x, y)`: it lies on the
    /// canvas, on or above the skyline, and its rows can be counted in `usize`.
    pub open spec fn can_place(&self, photo: Photo, x: int, y: int) -> bool {
        &&& clears(self.profile(), x, photo.width as int, y)
        &&& y + photo.height <= usize::MAX
    }

    /// An empty canvas of the given width, with the photos to pack.
    pub fn new(width: u32, photos: Vec<Photo>) -> (canvas: Canvas)
        ensures
            canvas.wf(),
            canvas.spec_width() == width,
            canvas.spec_photos() == photos@,
            canvas.spec_placements() == Seq::<Placement>::empty(),
    {
        let canvas = Canvas { width, photos, skyline: Skyline::new(width), placements: Vec::new() };
        assert(canvas.profile() =~= skyline_of(canvas.spec_placements(), width as int));
        canvas
    }

    /// The width of the canvas, in columns.
    #[verifier::when_used_as_spec(spec_width)]
    pub fn width(&self) -> (width: u32)
        ensures
            width == self.spec_width(),
    {
        self.width
    }

    /// The photos to pack: as given, or in the order of packing once packed.
    pub fn photos(&self) -> (photos: &Vec<Photo>)
        ensures
            photos@ == self.spec_photos(),
    {
        &self.photos
    }

    /// The placements made so far, in the order in which they were made.
    pub fn placements(&self) -> (placements: &Vec<Placement>)
        ensures
            placements@ == self.spec_placements(),
    {
        &self.placements
    }

    /// The skyline of what has been placed.
    pub fn skyline(&self) -> (skyline: &Skyline)
        ensures
            *skyline == self.spec_skyline(),
    {
        &self.skyline
    }

    /// The sum of the photos' heights, or `None` where it is beyond `usize`.
    pub fn stack_height(&self) -> (sum: Option<usize>)
        ensures
            match sum {
                Some(height) => height == stack_height(self.spec_photos()),
                None => stack_height(self.spec_photos()) > usize::MAX,
            },
    {
        let n = self.photos.len();
        let mut sum: usize = 0;
        let mut i: usize = 0;
        while i < n
            invariant
                0 <= i <= n,
                n == self.photos@.len(),
                sum == stack_height(self.photos@.take(i as int)),
            decreases n - i,
        {
            proof {
                lemma_stack_take(self.photos@, i as int);
            }
            match sum.checked_add(self.photos[i].height as usize) {
                Some(more) => {
                    sum = more;
                },
                None => {
                    proof {
                        lemma_stack_take(self.photos@, i + 1);
                    }
                    return None;
                },
            }
            i += 1;
        }
        assert(self.photos@.take(n as int) =~= self.photos@);
        Some(sum)
    }

    /// The lowest position at which a photo of the given width clears the
    /// skyline, and the leftmost one on that row; `None` where the photo is
    /// wider than the canvas.
    pub fn find_position_for_photo(&self, photo_width: u32) -> (found: Option<(usize, usize)>)
        requires
            self.wf(),
        ensures
            match found {
                Some((x, y)) => is_lowest_leftmost(
                    self.profile(),
                    photo_width as int,
                    x as int,
                    y as int,
                ),
                None => photo_width > self.spec_width(),
            },
    {
        self.skyline.query(photo_width)
    }

    /// Whether a photo of the given width, with its left edge at `column`
    /// and its base on the row `height`, lies on the canvas and on or above
    /// the skyline.
    pub fn can_place_photo_at_column(&self, column: usize, photo_width: u32, height: usize) -> (ok:
        bool)
        requires
            self.wf(),
        ensures
            ok == clears(self.profile(), column as int, photo_width as int, height as int),
    {
        self.skyline.clears(column, photo_width, height)
    }

    /// Whether `photo` can be put with its top-left cell at `(pos_x, pos_y)`.
    pub fn can_place_photo(&self, photo: &Photo, pos_x: usize, pos_y: usize) -> (ok: bool)
        requires
            self.wf(),
        ensures
            ok == self.can_place(*photo, pos_x as int, pos_y as int),
    {
        photo.height as usize <= usize::MAX - pos_y && self.can_place_photo_at_column(
            pos_x,
            photo.width,
            pos_y,
        )
    }

    /// Puts `photo` with its top-left cell at `(pos_x, pos_y)`: records the
    /// placement and raises the skyline over the photo's columns to its top.
    /// Where the photo cannot be put there, nothing changes.
    pub fn place_photo(&mut self, photo: Photo, pos_x: usize, pos_y: usize) -> (result: Result<
        (),
        PackError,
    >)
        requires
            old(self).wf(),
        ensures
            final(self).wf(),
            final(self).spec_width() == old(self).spec_width(),
            final(self).spec_photos() == old(self).spec_photos(),
            match result {
                Ok(()) => {
                    &&& old(self).can_place(photo, pos_x as int, pos_y as int)
                    &&& final(self).spec_placements() == old(self).spec_placements().push(
                        Placement::of(photo, pos_x as int, pos_y as int),
                    )
                    &&& final(self).profile() == raised(
                        old(self).profile(),
                        pos_x as int,
                        photo.width as int,
                        pos_y + photo.height,
                    )
                },
                Err(error) => {
                    &&& !old(self).can_place(photo, pos_x as int, pos_y as int)
                    &&& final(self).spec_placements() == old(self).spec_placements()
                    &&& final(self).spec_skyline() == old(self).spec_skyline()
                    &&& error == if photo.width > old(self).spec_width() {
                        PackError::OversizedPhoto { id: photo.id }
                    } else {
                        PackError::InternalInvariantViolation { id: photo.id }
                    }
                },
            },
    {
        if photo.width > self.width {
            return Err(PackError::OversizedPhoto { id: photo.id });
        }
        if !self.can_place_photo(&photo, pos_x, pos_y) {
            return Err(PackError::InternalInvariantViolation { id: photo.id });
        }
        let ghost before = self.placements@;
        let ghost profile = self.profile();
        let top = pos_y + photo.height as usize;
        let placed = Placement {
            photo_id: photo.id,
            x: pos_x,
            y: pos_y,
            width: photo.width,
            height: photo.height,
        };
        self.skyline.commit(pos_x, photo.width, top);
        self.placements.push(placed);
        proof {
            let after = self.placements@;
            let width = self.width as int;
            assert(after == before.push(placed));
            assert forall|c: int| 0 <= c < width implies self.profile()[c] == envelope(
                after,
                c,
            ) by {
                lemma_envelope_push(before, placed, c);
                if placed.spans(c) {
                    assert(profile[c] <= pos_y);
                }
            }
            assert(self.profile() =~= skyline_of(after, width));
            assert forall|i: int, j: int| 0 <= i < j < after.len() implies !overlap(
                #[trigger] after[i],
                #[trigger] after[j],
            ) by {
                if j == before.len() {
                    lemma_clear_is_disjoint(width, before, placed, i);
                } else {
                    assert(!overlap(before[i], before[j]));
                }
            }
            assert forall|i: int| 0 <= i < after.len() implies (#[trigger] after[i]).within(
                width,
            ) by {
                if i < before.len() {
                    assert(before[i].within(width));
                }
            }
        }
        Ok(())
    }

    /// The canvas as a grid: a row for each row that the placements take up,
    /// a cell for each column, and in each cell the placement that holds it,
    /// by its position among the placements, or nothing.
    pub fn layout(&self) -> (grid: Vec<Vec<Option<usize>>>)
        requires
            self.wf(),
        ensures
            shows(grid@, self.spec_placements(), self.spec_width() as int),
            forall|i: int|
                0 <= i < self.spec_placements().len() ==> (
                #[trigger] self.spec_placements()[i]).top() <= grid@.len(),
    {
        proof {
            let placements = self.spec_placements();
            assert forall|k: int| !clashes(placements, self.width as int, k) by {
                if 0 <= k < placements.len() {
                    assert(placements[k].within(self.width as int));
                    assert forall|j: int| 0 <= j < k implies !overlap(
                        #[trigger] placements[j],
                        placements[k],
                    ) by {
                        assert(!overlap(placements[j], placements[k]));
                    }
                }
            }
            assert forall|i: int| 0 <= i < placements.len() implies (#[trigger] placements[i]).top()
                <= rows_needed(placements) by {
                lemma_rows_hold(placements, i);
            }
        }
        match materialize(&self.placements, self.width) {
            Ok(grid) => grid,
            // never taken: the placements of a canvas do not clash
            Err(_) => Vec::new(),
        }
    }

    /// Packs the photos onto the canvas, emptied first. The photos are
    /// brought into the order of packing: by height and then width, both
    /// descending, photos of one size staying in input order. Each in turn
    /// is put at the lowest position that clears the skyline, and at the
    /// leftmost one on that row. Where a photo is wider than the canvas,
    /// nothing changes and the error names the first such photo.
    pub fn pack_photos(&mut self) -> (result: Result<(), PackError>)
        requires
            old(self).wf(),
            stack_height(old(self).spec_photos()) <= usize::MAX,
        ensures
            final(self).wf(),
            final(self).spec_width() == old(self).spec_width(),
            forall|i: int|
                0 <= i < final(self).spec_placements().len() ==> (
                #[trigger] final(self).spec_placements()[i]).within(final(self).spec_width() as int),
            pairwise_disjoint(final(self).spec_placements()),
            match result {
                Ok(()) => {
                    &&& forall|k: int|
                        0 <= k < old(self).spec_photos().len() ==> (
                        #[trigger] old(self).spec_photos()[k]).width <= old(self).spec_width()
                    &&& final(self).spec_photos() == in_packing_order(old(self).spec_photos())
                    &&& final(self).spec_photos().len() == old(self).spec_photos().len()
                    &&& is_packing(
                        final(self).spec_width() as int,
                        final(self).spec_photos(),
                        final(self).spec_placements(),
                    )
                },
                Err(error) => {
                    &&& exists|k: int|
                        is_first_oversized(old(self).spec_photos(), old(self).spec_width() as int, k)
                            && error == (PackError::OversizedPhoto {
                            id: old(self).spec_photos()[k].id,
                        })
                    &&& final(self).spec_photos() == old(self).spec_photos()
                    &&& final(self).spec_placements() == old(self).spec_placements()
                    &&& final(self).spec_skyline() == old(self).spec_skyline()
                },
            },
    {
        let n = self.photos.len();
        let mut i: usize = 0;
        while i < n
            invariant
                0 <= i <= n,
                n == self.photos@.len(),
                *self == *old(self),
                self.wf(),
                stack_height(self.photos@) <= usize::MAX,
                forall|j: int| 0 <= j < i ==> (#[trigger] self.photos@[j]).width <= self.width,
            decreases n - i,
        {
            if self.photos[i].width > self.width {
                assert(is_first_oversized(self.photos@, self.width as int, i as int));
                return Err(PackError::OversizedPhoto { id: self.photos[i].id.clone() });
            }
            i += 1;
        }
        sort_photos(&mut self.photos);
        self.skyline = Skyline::new(self.width);
        self.placements = Vec::new();
        let ghost photos = self.photos@;
        let ghost width = self.width as int;
        proof {
            assert(self.profile() =~= skyline_of(self.spec_placements(), width));
            let order = packing_order(old(self).photos@);
            lemma_packing_order_exists(old(self).photos@);
            assert forall|j: int| 0 <= j < n implies (#[trigger] photos[j]).width <= width by {
                assert(photos[j] == old(self).photos@[order[j]]);
            }
        }
        let mut k: usize = 0;
        while k < n
            invariant
                0 <= k <= n,
                n == photos.len(),
                photos == self.photos@,
                width == self.width,
                self.width == old(self).width,
                self.wf(),
                self.placements@.len() == k,
                is_packing(width, photos.take(k as int), self.placements@),
                forall|j: int| 0 <= j < n ==> (#[trigger] photos[j]).width <= width,
                forall|c: int|
                    0 <= c < width ==> #[trigger] self.profile()[c] <= stack_height(
                        photos.take(k as int),
                    ),
                stack_height(photos) <= usize::MAX,
            decreases n - k,
        {
            let photo = self.photos[k].clone();
            let ghost before = self.placements@;
            let ghost profile = self.profile();
            let ghost stacked = stack_height(photos.take(k as int));
            proof {
                lemma_stack_take(photos, k as int);
                lemma_stack_take(photos, k + 1);
            }
            match self.find_position_for_photo(photo.width) {
                Some((x, y)) => {
                    proof {
                        if photo.width > 0 {
                            assert(clears(profile, x as int, photo.width as int, stacked));
                        } else {
                            assert(clears(profile, 0, photo.width as int, 0));
                        }
                        assert(y <= stacked);
                    }
                    match self.place_photo(photo, x, y) {
                        Ok(()) => {},
                        // never taken: the position found clears the skyline
                        Err(error) => {
                            return Err(error);
                        },
                    }
                    proof {
                        let after = self.placements@;
                        let placed = Placement::of(photo, x as int, y as int);
                        assert(after == before.push(placed));
                        assert forall|c: int| 0 <= c < width implies #[trigger] self.profile()[c]
                            <= stack_height(photos.take(k + 1)) by {
                            lemma_envelope_push(before, placed, c);
                            assert(profile[c] <= stacked);
                        }
                        assert forall|j: int| 0 <= j < k + 1 implies placed_lowest(
                            width,
                            after.take(j),
                            photos.take(k + 1)[j],
                            #[trigger] after[j],
                        ) by {
                            if j < k {
                                assert(after.take(j) =~= before.take(j));
                                assert(placed_lowest(
                                    width,
                                    before.take(j),
                                    photos.take(k as int)[j],
                                    before[j],
                                ));
                            } else {
                                assert(after.take(j) =~= before);
                            }
                        }
                    }
                },
                // never taken: no photo is wider than the canvas
                None => {
                    return Err(PackError::InternalInvariantViolation { id: photo.id });
                },
            }
            k += 1;
        }
        assert(photos.take(n as int) =~= photos);
        Ok(())
    }
}

} // verus!
