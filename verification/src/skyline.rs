use vstd::prelude::*;

verus! {

/// A run of columns `[x_start, x_end)` over which the skyline has one height:
/// the lowest free row above every column of the run.
#[derive(Clone, Copy, Debug, PartialEq, Eq, Structural)]
pub struct Segment {
    pub x_start: usize,
    pub x_end: usize,
    pub height: usize,
}

/// The segments, read left to right, cut `[0, end)` into non-empty runs that
/// leave no gap and do not overlap.
pub open spec fn tiles(segs: Seq<Segment>, end: int) -> bool {
    &&& segs.len() == 0 ==> end == 0
    &&& segs.len() > 0 ==> segs[0].x_start == 0 && segs.last().x_end == end
    &&& forall|i: int| 0 <= i < segs.len() ==> (#[trigger] segs[i]).x_start < segs[i].x_end
    &&& forall|i: int, j: int|
        0 <= i && j == i + 1 && j < segs.len() ==> (#[trigger] segs[i]).x_end == (
        #[trigger] segs[j]).x_start
}

/// No two neighbouring segments share a height, so no segment can be widened.
pub open spec fn maximal(segs: Seq<Segment>) -> bool {
    forall|i: int, j: int|
        0 <= i && j == i + 1 && j < segs.len() ==> (#[trigger] segs[i]).height != (
        #[trigger] segs[j]).height
}

/// The skyline's height above column `c`: that of the rightmost segment that
/// starts at or before `c`, and 0 where there is none.
pub open spec fn height_at(segs: Seq<Segment>, c: int) -> int
    decreases segs.len(),
{
    if segs.len() == 0 {
        0
    } else if segs.last().x_start <= c {
        segs.last().height as int
    } else {
        height_at(segs.drop_last(), c)
    }
}

/// The height profile of the columns `[0, width)`.
pub open spec fn heights(segs: Seq<Segment>, width: int) -> Seq<int> {
    Seq::new(width as nat, |c: int| height_at(segs, c))
}

/// A rectangle `width` columns wide, with its left edge at column `x` and its
/// base on row `y`, lies within the profile's columns and on or above the
/// skyline.
pub open spec fn clears(profile: Seq<int>, x: int, width: int, y: int) -> bool {
    &&& 0 <= x
    &&& 0 <= y
    &&& x + width <= profile.len()
    &&& forall|c: int| x <= c < x + width ==> #[trigger] profile[c] <= y
}

/// `(x, y)` is the lowest position at which a rectangle of the given width
/// clears the skyline, and the leftmost one on that row.
pub open spec fn is_lowest_leftmost(profile: Seq<int>, width: int, x: int, y: int) -> bool {
    &&& clears(profile, x, width, y)
    &&& forall|x2: int, y2: int| #[trigger]
        clears(profile, x2, width, y2) ==> y < y2 || (y == y2 && x <= x2)
}

/// The profile after the columns `[x, x + width)` have been set to `height`.
pub open spec fn raised(profile: Seq<int>, x: int, width: int, height: int) -> Seq<int> {
    Seq::new(
        profile.len(),
        |c: int|
            if x <= c < x + width {
                height
            } else {
                profile[c]
            },
    )
}

/// Segments that tile a range are ordered: an earlier one ends where a later
/// one starts, or before, and none reaches beyond the range.
pub proof fn lemma_tiles_ordered(segs: Seq<Segment>, end: int, i: int, j: int)
    requires
        tiles(segs, end),
        0 <= i < j < segs.len(),
    ensures
        segs[i].x_end <= segs[j].x_start,
        segs[j].x_end <= end,
    decreases j - i,
{
    if i + 1 < j {
        lemma_tiles_ordered(segs, end, i, j - 1);
        assert(segs[j - 1].x_end == segs[j].x_start);
    }
    lemma_tiles_within(segs, end, j);
}

/// Every segment of a tiling lies within the tiled range.
pub proof fn lemma_tiles_within(segs: Seq<Segment>, end: int, i: int)
    requires
        tiles(segs, end),
        0 <= i < segs.len(),
    ensures
        segs[i].x_end <= end,
    decreases segs.len() - i,
{
    if i + 1 < segs.len() {
        lemma_tiles_within(segs, end, i + 1);
        assert(segs[i].x_end == segs[i + 1].x_start);
    }
}

/// Above a column that a segment of a tiling covers, the skyline has that
/// segment's height.
pub proof fn lemma_height_in_segment(segs: Seq<Segment>, end: int, i: int, c: int)
    requires
        tiles(segs, end),
        0 <= i < segs.len(),
        segs[i].x_start <= c < segs[i].x_end,
    ensures
        height_at(segs, c) == segs[i].height,
    decreases segs.len(),
{
    let last = segs.len() - 1;
    if i < last {
        lemma_tiles_ordered(segs, end, i, last);
        let front = segs.drop_last();
        assert(tiles(front, segs[last - 1].x_end as int)) by {
            assert(segs[last - 1].x_end == segs[last].x_start);
            assert forall|a: int, b: int| 0 <= a && b == a + 1 && b < front.len() implies (
            #[trigger] front[a]).x_end == (#[trigger] front[b]).x_start by {
                assert(segs[a].x_end == segs[b].x_start);
            }
        }
        lemma_height_in_segment(front, segs[last - 1].x_end as int, i, c);
    }
}

/// A tiling leaves no gap: every column of the range lies in some segment.
pub proof fn lemma_tiles_cover(segs: Seq<Segment>, end: int, c: int) -> (i: int)
    requires
        tiles(segs, end),
        0 <= c < end,
    ensures
        0 <= i < segs.len(),
        segs[i].x_start <= c < segs[i].x_end,
    decreases segs.len(),
{
    let last = segs.len() - 1;
    if segs[last].x_start <= c {
        last
    } else {
        let front = segs.drop_last();
        assert(last > 0);
        assert(segs[last - 1].x_end == segs[last].x_start);
        assert(tiles(front, segs[last - 1].x_end as int)) by {
            assert forall|a: int, b: int| 0 <= a && b == a + 1 && b < front.len() implies (
            #[trigger] front[a]).x_end == (#[trigger] front[b]).x_start by {
                assert(segs[a].x_end == segs[b].x_start);
            }
        }
        lemma_tiles_cover(front, segs[last - 1].x_end as int, c)
    }
}

/// A tiling has no overlap: no column lies in two segments.
pub proof fn lemma_tiles_apart(segs: Seq<Segment>, end: int, i: int, j: int, c: int)
    requires
        tiles(segs, end),
        0 <= i < segs.len(),
        0 <= j < segs.len(),
        segs[i].x_start <= c < segs[i].x_end,
        segs[j].x_start <= c < segs[j].x_end,
    ensures
        i == j,
{
    if i < j {
        lemma_tiles_ordered(segs, end, i, j);
    }
    if j < i {
        lemma_tiles_ordered(segs, end, j, i);
    }
}

/// A height profile has only one skyline: two maximal tilings of one width
/// that give every column the same height are the same segments.
pub proof fn lemma_segments_unique(first: Seq<Segment>, second: Seq<Segment>, width: int)
    requires
        tiles(first, width),
        maximal(first),
        tiles(second, width),
        maximal(second),
        heights(first, width) == heights(second, width),
    ensures
        first == second,
{
    if first.len() > 0 && second.len() > 0 {
        let shorter = if first.len() <= second.len() {
            first.len()
        } else {
            second.len()
        };
        lemma_same_segments(first, second, width, shorter - 1);
        if first.len() < second.len() {
            lemma_tiles_ordered(second, width, first.len() - 1, first.len() as int);
        }
        if second.len() < first.len() {
            lemma_tiles_ordered(first, width, second.len() - 1, second.len() as int);
        }
        assert forall|k: int| 0 <= k < first.len() implies first[k] == second[k] by {
            lemma_same_segments(first, second, width, k);
        }
    }
    assert(first =~= second);
}

proof fn lemma_same_segments(first: Seq<Segment>, second: Seq<Segment>, width: int, k: int)
    requires
        tiles(first, width),
        maximal(first),
        tiles(second, width),
        maximal(second),
        heights(first, width) == heights(second, width),
        0 <= k < first.len(),
        k < second.len(),
    ensures
        first[k] == second[k],
    decreases k,
{
    if k > 0 {
        lemma_same_segments(first, second, width, k - 1);
        assert(first[k - 1].x_end == first[k].x_start);
        assert(second[k - 1].x_end == second[k].x_start);
    }
    let start = first[k].x_start as int;
    lemma_tiles_within(first, width, k);
    lemma_tiles_within(second, width, k);
    lemma_height_in_segment(first, width, k, start);
    lemma_height_in_segment(second, width, k, start);
    assert(0 <= start < width);
    assert(heights(first, width)[start] == height_at(first, start));
    assert(heights(second, width)[start] == height_at(second, start));
    lemma_ends_together(first, second, width, k);
    lemma_ends_together(second, first, width, k);
}

/// Of two segments that start together on one profile, the one of a maximal
/// tiling does not end before the other.
proof fn lemma_ends_together(first: Seq<Segment>, second: Seq<Segment>, width: int, k: int)
    requires
        tiles(first, width),
        maximal(first),
        tiles(second, width),
        heights(first, width) == heights(second, width),
        0 <= k < first.len(),
        k < second.len(),
        first[k].x_start == second[k].x_start,
        first[k].height == second[k].height,
    ensures
        second[k].x_end <= first[k].x_end,
{
    let end = first[k].x_end as int;
    lemma_tiles_within(first, width, k);
    lemma_tiles_within(second, width, k);
    if end < second[k].x_end {
        assert(k + 1 < first.len());
        assert(first[k].x_end == first[k + 1].x_start);
        assert(first[k].height != first[k + 1].height);
        lemma_height_in_segment(first, width, k + 1, end);
        lemma_height_in_segment(second, width, k, end);
        assert(0 <= end < width);
        assert(heights(first, width)[end] == height_at(first, end));
        assert(heights(second, width)[end] == height_at(second, end));
    }
}

/// Whether the segments, read left to right, cut `[0, width)` into non-empty
/// runs without gap or overlap.
pub fn is_tiling(segments: &Vec<Segment>, width: u32) -> (ok: bool)
    ensures
        ok == tiles(segments@, width as int),
{
    let n = segments.len();
    if n == 0 {
        return width == 0;
    }
    if segments[0].x_start != 0 || segments[n - 1].x_end != width as usize {
        return false;
    }
    let mut i: usize = 0;
    while i < n
        invariant
            0 <= i <= n,
            n == segments@.len(),
            forall|k: int| 0 <= k < i ==> (#[trigger] segments@[k]).x_start < segments@[k].x_end,
            forall|k: int, l: int|
                0 <= k < i && l == k + 1 && l < n ==> (#[trigger] segments@[k]).x_end == (
                #[trigger] segments@[l]).x_start,
        decreases n - i,
    {
        if segments[i].x_start >= segments[i].x_end {
            return false;
        }
        if i + 1 < n && segments[i].x_end != segments[i + 1].x_start {
            return false;
        }
        i += 1;
    }
    true
}

/// The live part of the window, from `head` on, lists segments before
/// `upto` from left to right, each lower than the one listed before it.
spec fn is_window(segs: Seq<Segment>, window: Seq<usize>, head: int, upto: int) -> bool {
    &&& 0 <= head <= window.len()
    &&& upto <= segs.len()
    &&& forall|a: int| head <= a < window.len() ==> #[trigger] window[a] < upto
    &&& forall|a: int, b: int|
        head <= a < b < window.len() ==> (#[trigger] window[a]) < (#[trigger] window[b])
            && segs[window[a] as int].height > segs[window[b] as int].height
}

/// Entry `a` of the window is segment `k`, or one to its right, and is no
/// lower than segment `k`.
spec fn is_dominator(segs: Seq<Segment>, window: Seq<usize>, head: int, k: int, a: int) -> bool {
    &&& head <= a < window.len()
    &&& k <= window[a]
    &&& segs[k].height <= segs[window[a] as int].height
}

/// The live part of the window holds segment `k` or a later one that is no
/// lower.
spec fn dominated(segs: Seq<Segment>, window: Seq<usize>, head: int, k: int) -> bool {
    exists|a: int| is_dominator(segs, window, head, k, a)
}

/// The height profile of a canvas, kept as segments that tile its width.
pub struct Skyline {
    width: u32,
    segments: Vec<Segment>,
}

impl View for Skyline {
    type V = Seq<int>;

    /// The height above each column of the canvas.
    closed spec fn view(&self) -> Seq<int> {
        heights(self.segments@, self.width as int)
    }
}

/// Appends `seg` to a skyline under construction, widening the last segment
/// instead where it has the same height.
fn extend(out: &mut Vec<Segment>, seg: Segment)
    requires
        tiles(old(out)@, seg.x_start as int),
        maximal(old(out)@),
        seg.x_start < seg.x_end,
    ensures
        tiles(final(out)@, seg.x_end as int),
        maximal(final(out)@),
        final(out)@.len() <= old(out)@.len() + 1,
        forall|c: int| c < seg.x_start ==> height_at(final(out)@, c) == height_at(old(out)@, c),
        forall|c: int| seg.x_start <= c ==> height_at(final(out)@, c) == seg.height,
{
    let n = out.len();
    if n > 0 && out[n - 1].height == seg.height {
        let last = out[n - 1];
        let wider = Segment { x_start: last.x_start, x_end: seg.x_end, height: last.height };
        out.set(n - 1, wider);
        proof {
            let before = old(out)@;
            let after = out@;
            assert(after.drop_last() =~= before.drop_last());
            assert forall|i: int, j: int| 0 <= i && j == i + 1 && j < after.len() implies (
            #[trigger] after[i]).x_end == (#[trigger] after[j]).x_start by {
                assert(before[i].x_end == before[j].x_start);
            }
            assert forall|i: int, j: int| 0 <= i && j == i + 1 && j < after.len() implies (
            #[trigger] after[i]).height != (#[trigger] after[j]).height by {
                assert(before[i].height != before[j].height);
            }
            assert forall|i: int| 0 <= i < after.len() implies (#[trigger] after[i]).x_start
                < after[i].x_end by {
                assert(before[i].x_start < before[i].x_end);
            }
        }
    } else {
        out.push(seg);
        proof {
            let before = old(out)@;
            let after = out@;
            assert(after.drop_last() =~= before);
            assert forall|i: int, j: int| 0 <= i && j == i + 1 && j < after.len() implies (
            #[trigger] after[i]).x_end == (#[trigger] after[j]).x_start by {
                if j < before.len() {
                    assert(before[i].x_end == before[j].x_start);
                }
            }
            assert forall|i: int, j: int| 0 <= i && j == i + 1 && j < after.len() implies (
            #[trigger] after[i]).height != (#[trigger] after[j]).height by {
                if j < before.len() {
                    assert(before[i].height != before[j].height);
                }
            }
            assert forall|i: int| 0 <= i < after.len() implies (#[trigger] after[i]).x_start
                < after[i].x_end by {
                if i < before.len() {
                    assert(before[i].x_start < before[i].x_end);
                }
            }
        }
    }
}

impl Skyline {
    /// The canvas width that the skyline spans.
    pub closed spec fn spec_width(&self) -> u32 {
        self.width
    }

    /// The segments, left to right.
    pub closed spec fn spec_segments(&self) -> Seq<Segment> {
        self.segments@
    }

    /// The segments tile `[0, width)` and none can be widened.
    pub open spec fn wf(&self) -> bool {
        &&& tiles(self.spec_segments(), self.spec_width() as int)
        &&& maximal(self.spec_segments())
        &&& self@ == heights(self.spec_segments(), self.spec_width() as int)
    }

    /// A flat skyline at height 0 over a canvas of the given width.
    pub fn new(width: u32) -> (skyline: Skyline)
        ensures
            skyline.wf(),
            skyline.spec_width() == width,
            skyline@ == Seq::new(width as nat, |c: int| 0int),
            skyline.spec_segments().len() <= 1,
    {
        let mut segments: Vec<Segment> = Vec::new();
        if width > 0 {
            segments.push(Segment { x_start: 0, x_end: width as usize, height: 0 });
        }
        let skyline = Skyline { width, segments };
        assert(skyline@ =~= Seq::new(width as nat, |c: int| 0int));
        skyline
    }

    /// The canvas width that the skyline spans.
    #[verifier::when_used_as_spec(spec_width)]
    pub fn width(&self) -> (width: u32)
        ensures
            width == self.spec_width(),
    {
        self.width
    }

    /// The segments, left to right.
    pub fn segments(&self) -> (segments: &Vec<Segment>)
        ensures
            segments@ == self.spec_segments(),
    {
        &self.segments
    }

    /// Whether a rectangle `width` columns wide, with its left edge at
    /// column `x` and its base on row `y`, lies within the canvas and on or
    /// above the skyline.
    pub fn clears(&self, x: usize, width: u32, y: usize) -> (ok: bool)
        requires
            self.wf(),
        ensures
            ok == clears(self@, x as int, width as int, y as int),
    {
        let total = self.width as usize;
        if x > total || width as usize > total - x {
            return false;
        }
        if width == 0 {
            return true;
        }
        let end = x + width as usize;
        let ghost segs = self.segments@;
        let n = self.segments.len();
        let mut i: usize = 0;
        while i < n
            invariant
                0 <= i <= n,
                n == segs.len(),
                segs == self.segments@,
                self.wf(),
                total == self.width,
                end == x + width,
                x < end <= total,
                forall|k: int, c: int|
                    0 <= k < i && x <= c < end && (#[trigger] segs[k]).x_start <= c < segs[k].x_end
                        ==> #[trigger] self@[c] <= y,
            decreases n - i,
        {
            let seg = self.segments[i];
            proof {
                lemma_tiles_within(segs, total as int, i as int);
                assert forall|c: int| seg.x_start <= c < seg.x_end implies self@[c]
                    == seg.height by {
                    lemma_height_in_segment(segs, total as int, i as int, c);
                }
            }
            if seg.x_start < end && x < seg.x_end && seg.height > y {
                proof {
                    let c = if seg.x_start < x {
                        x as int
                    } else {
                        seg.x_start as int
                    };
                    assert(x <= c < end && self@[c] > y);
                }
                return false;
            }
            i += 1;
        }
        proof {
            assert forall|c: int| x <= c < end implies #[trigger] self@[c] <= y by {
                let k = lemma_tiles_cover(segs, total as int, c);
                assert(segs[k].x_start <= c < segs[k].x_end);
            }
        }
        true
    }

    /// The lowest position at which a rectangle of the given width clears
    /// the skyline, and the leftmost one on that row; `None` where the
    /// rectangle is wider than the canvas.
    ///
    /// Only the starts of segments are tried: a rectangle that clears the
    /// skyline anywhere also clears it when moved left to the start of the
    /// segment under its left edge. The tallest segment under the rectangle
    /// is kept in a window that slides along with it, so that each segment
    /// enters and leaves the window once.
    pub fn query(&self, width: u32) -> (found: Option<(usize, usize)>)
        requires
            self.wf(),
        ensures
            match found {
                Some((x, y)) => is_lowest_leftmost(self@, width as int, x as int, y as int),
                None => width > self.spec_width(),
            },
    {
        if width > self.width {
            return None;
        }
        if width == 0 {
            return Some((0, 0));
        }
        let total = self.width as usize;
        let span = width as usize;
        let ghost segs = self.segments@;
        let n = self.segments.len();
        let mut best_x: usize = 0;
        let mut best_y: usize = 0;
        let ghost mut best_k: int = 0;
        let mut window: Vec<usize> = Vec::new();
        let mut head: usize = 0;
        let mut j: usize = 0;
        let mut i: usize = 0;
        while i < n && self.segments[i].x_start <= total - span
            invariant
                0 <= i <= j <= n,
                i < n ==> i <= j,
                n == segs.len(),
                segs == self.segments@,
                self.wf(),
                total == self.width,
                span == width,
                0 < span <= total,
                is_window(segs, window@, head as int, j as int),
                forall|k: int| i <= k < j ==> #[trigger] dominated(segs, window@, head as int, k),
                i == 0 ==> j == 0,
                i > 0 ==> forall|k: int|
                    0 <= k < j ==> (#[trigger] segs[k]).x_start < segs[i - 1].x_start + span,
                i > 0 ==> clears(self@, best_x as int, span as int, best_y as int),
                i > 0 ==> 0 <= best_k < i && best_x == segs[best_k].x_start,
                forall|k: int, y2: int|
                    0 <= k < i && #[trigger] clears(
                        self@,
                        (#[trigger] segs[k]).x_start as int,
                        span as int,
                        y2,
                    ) ==> best_y < y2 || (best_y == y2 && best_x <= segs[k].x_start),
            decreases n - i,
        {
            let start = self.segments[i].x_start;
            let limit = start + span;
            proof {
                if i > 0 {
                    lemma_tiles_ordered(segs, total as int, i - 1, i as int);
                }
            }
            while j < n && self.segments[j].x_start < limit
                invariant
                    0 <= i <= j <= n,
                    i < n,
                    n == segs.len(),
                    segs == self.segments@,
                    start == segs[i as int].x_start,
                    limit == start + span,
                    is_window(segs, window@, head as int, j as int),
                    forall|k: int| i <= k < j ==> #[trigger] dominated(segs, window@, head as int, k),
                    forall|k: int| 0 <= k < j ==> (#[trigger] segs[k]).x_start < limit,
                decreases n - j,
            {
                let height = self.segments[j].height;
                while window.len() > head && self.segments[window[window.len() - 1]].height
                    <= height
                    invariant
                        0 <= i <= j < n,
                        n == segs.len(),
                        segs == self.segments@,
                        height == segs[j as int].height,
                        is_window(segs, window@, head as int, j as int),
                        forall|k: int|
                            i <= k < j ==> #[trigger] dominated(segs, window@, head as int, k)
                                || segs[k].height <= height,
                    decreases window.len(),
                {
                    let ghost longer = window@;
                    window.pop();
                    proof {
                        assert forall|k: int| i <= k < j implies #[trigger] dominated(
                            segs,
                            window@,
                            head as int,
                            k,
                        ) || segs[k].height <= height by {
                            if dominated(segs, longer, head as int, k) {
                                let a = choose|a: int| is_dominator(segs, longer, head as int, k, a);
                                if a < window@.len() {
                                    assert(is_dominator(segs, window@, head as int, k, a));
                                }
                            }
                        }
                    }
                }
                let ghost shorter = window@;
                window.push(j);
                proof {
                    assert forall|k: int| i <= k < j + 1 implies #[trigger] dominated(
                        segs,
                        window@,
                        head as int,
                        k,
                    ) by {
                        if k < j && dominated(segs, shorter, head as int, k) {
                            let a = choose|a: int| is_dominator(segs, shorter, head as int, k, a);
                            assert(is_dominator(segs, window@, head as int, k, a));
                        } else {
                            assert(is_dominator(segs, window@, head as int, k, shorter.len() as int));
                        }
                    }
                    assert forall|a: int, b: int| head <= a < b < window@.len() implies (
                    #[trigger] window@[a]) < (#[trigger] window@[b]) && segs[window@[a] as int].height
                        > segs[window@[b] as int].height by {
                        if b == shorter.len() {
                            if a < shorter.len() - 1 {
                                assert(shorter[a] < shorter[shorter.len() - 1]);
                            }
                        } else {
                            assert(shorter[a] < shorter[b]);
                        }
                    }
                }
                j += 1;
            }
            while head < window.len() && window[head] < i
                invariant
                    0 <= i < j <= n,
                    n == segs.len(),
                    is_window(segs, window@, head as int, j as int),
                    forall|k: int| i <= k < j ==> #[trigger] dominated(segs, window@, head as int, k),
                decreases window.len() - head,
            {
                proof {
                    assert forall|k: int| i <= k < j implies #[trigger] dominated(
                        segs,
                        window@,
                        head + 1,
                        k,
                    ) by {
                        assert(dominated(segs, window@, head as int, k));
                        let a = choose|a: int| is_dominator(segs, window@, head as int, k, a);
                        assert(is_dominator(segs, window@, head + 1, k, a));
                    }
                }
                head += 1;
            }
            proof {
                assert(dominated(segs, window@, head as int, i as int));
            }
            let tallest = window[head];
            let top = self.segments[tallest].height;
            proof {
                let peak = segs[tallest as int].x_start as int;
                lemma_tiles_within(segs, total as int, tallest as int);
                lemma_height_in_segment(segs, total as int, tallest as int, peak);
                if tallest > i {
                    lemma_tiles_ordered(segs, total as int, i as int, tallest as int);
                }
                assert(start <= peak < limit && self@[peak] == top);
                assert forall|c: int| start <= c < limit implies #[trigger] self@[c] <= top by {
                    let k = lemma_tiles_cover(segs, total as int, c);
                    lemma_height_in_segment(segs, total as int, k, c);
                    if k < i {
                        lemma_tiles_ordered(segs, total as int, k, i as int);
                    }
                    if k >= j {
                        if k > j {
                            lemma_tiles_ordered(segs, total as int, j as int, k);
                        }
                    }
                    assert(dominated(segs, window@, head as int, k));
                    let a = choose|a: int| is_dominator(segs, window@, head as int, k, a);
                    if a > head {
                        assert(window@[head as int] < window@[a]);
                    }
                }
                assert(clears(self@, start as int, span as int, top as int));
            }
            if i == 0 || top < best_y {
                best_x = start;
                best_y = top;
                proof {
                    best_k = i as int;
                }
            }
            proof {
                if best_k < i {
                    lemma_tiles_ordered(segs, total as int, best_k, i as int);
                }
                let peak = segs[tallest as int].x_start as int;
                assert forall|k: int, y2: int|
                    0 <= k < i + 1 && #[trigger] clears(
                        self@,
                        (#[trigger] segs[k]).x_start as int,
                        span as int,
                        y2,
                    ) implies best_y < y2 || (best_y == y2 && best_x <= segs[k].x_start) by {
                    if k == i {
                        assert(self@[peak] <= y2);
                    }
                }
            }
            i += 1;
        }
        proof {
            assert(segs[0].x_start == 0);
            assert(i > 0);
            assert forall|x2: int, y2: int| #[trigger]
                clears(self@, x2, span as int, y2) implies best_y < y2 || (best_y == y2 && best_x
                <= x2) by {
                let k = lemma_tiles_cover(segs, total as int, x2);
                let s = segs[k].x_start as int;
                assert(clears(self@, s, span as int, y2)) by {
                    lemma_height_in_segment(segs, total as int, k, x2);
                    assert(self@[x2] <= y2);
                    assert forall|c: int| s <= c < s + span implies #[trigger] self@[c] <= y2 by {
                        if c < x2 {
                            lemma_height_in_segment(segs, total as int, k, c);
                        }
                    }
                }
                if k >= i {
                    if k > i {
                        lemma_tiles_ordered(segs, total as int, i as int, k);
                    }
                    assert(false);
                }
            }
        }
        Some((best_x, best_y))
    }

    /// Sets the skyline above the columns `[x, x + width)` to `new_height`,
    /// as far as they lie on the canvas, and leaves the other columns as
    /// they are. Segments are split at the two ends of the range and joined
    /// wherever neighbours come to share a height.
    pub fn commit(&mut self, x: usize, width: u32, new_height: usize)
        requires
            old(self).wf(),
        ensures
            final(self).wf(),
            final(self).spec_width() == old(self).spec_width(),
            final(self)@ == raised(old(self)@, x as int, width as int, new_height as int),
            final(self).spec_segments().len() <= old(self).spec_segments().len() + 2,
    {
        let total = self.width as usize;
        if x >= total || width == 0 {
            assert(self@ =~= raised(self@, x as int, width as int, new_height as int));
            return ;
        }
        let lo = x;
        let hi = if (width as usize) < total - x {
            x + width as usize
        } else {
            total
        };
        let ghost segs = self.segments@;
        let ghost target = raised(self@, x as int, width as int, new_height as int);
        let n = self.segments.len();
        let mut out: Vec<Segment> = Vec::new();
        let mut i: usize = 0;
        let mut done: usize = 0;
        while i < n
            invariant
                0 <= i <= n,
                n == segs.len(),
                segs == self.segments@,
                total == self.width,
                tiles(segs, total as int),
                lo < hi <= total,
                target.len() == total,
                forall|c: int|
                    0 <= c < total ==> #[trigger] target[c] == if lo <= c < hi {
                        new_height as int
                    } else {
                        height_at(segs, c)
                    },
                i == 0 ==> done == 0,
                i > 0 ==> done == if lo < segs[i - 1].x_end < hi {
                    hi
                } else {
                    segs[i - 1].x_end
                },
                i < n ==> segs[i as int].x_start == if i == 0 {
                    0
                } else {
                    segs[i - 1].x_end
                },
                tiles(out@, done as int),
                maximal(out@),
                forall|c: int| 0 <= c < done ==> height_at(out@, c) == #[trigger] target[c],
                out@.len() <= i + if i > 0 && lo < segs[i - 1].x_end {
                    2int
                } else {
                    0int
                },
            decreases n - i,
        {
            let seg = self.segments[i];
            proof {
                lemma_tiles_within(segs, total as int, i as int);
                assert forall|c: int| seg.x_start <= c < seg.x_end implies height_at(segs, c)
                    == seg.height by {
                    lemma_height_in_segment(segs, total as int, i as int, c);
                }
                if i + 1 < n {
                    assert(segs[i as int].x_end == segs[i + 1].x_start);
                }
            }
            if seg.x_start < lo {
                let end = if seg.x_end < lo {
                    seg.x_end
                } else {
                    lo
                };
                extend(&mut out, Segment { x_start: seg.x_start, x_end: end, height: seg.height });
            }
            if seg.x_start <= lo && lo < seg.x_end {
                extend(&mut out, Segment { x_start: lo, x_end: hi, height: new_height });
            }
            if hi < seg.x_end {
                let start = if seg.x_start > hi {
                    seg.x_start
                } else {
                    hi
                };
                extend(&mut out, Segment { x_start: start, x_end: seg.x_end, height: seg.height });
            }
            done = if lo < seg.x_end && seg.x_end < hi {
                hi
            } else {
                seg.x_end
            };
            i += 1;
        }
        self.segments = out;
        assert(self@ =~= target);
    }
}

} // verus!
