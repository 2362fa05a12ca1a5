use crate::photo::Photo;
use vstd::prelude::*;

verus! {

/// `a` is packed before `b` whatever their places in the input: the taller
/// photo first, and of two equally tall ones the wider.
pub open spec fn goes_before(a: Photo, b: Photo) -> bool {
    a.height > b.height || (a.height == b.height && a.width > b.width)
}

/// The photo at position `i` of the input is packed before the one at
/// position `j`: by size where the sizes differ, and else in input order.
pub open spec fn precedes(photos: Seq<Photo>, i: int, j: int) -> bool {
    goes_before(photos[i], photos[j]) || (!goes_before(photos[j], photos[i]) && i < j)
}

/// `order` lists every position of `photos` in the order of packing: each
/// listed position precedes all that follow it.
pub open spec fn is_packing_order(photos: Seq<Photo>, order: Seq<int>) -> bool {
    &&& order.len() == photos.len()
    &&& forall|k: int| 0 <= k < order.len() ==> 0 <= #[trigger] order[k] < photos.len()
    &&& forall|i: int| 0 <= i < photos.len() ==> #[trigger] order.contains(i)
    &&& forall|a: int, b: int|
        0 <= a < b < order.len() ==> precedes(photos, #[trigger] order[a], #[trigger] order[b])
}

/// The order of packing of `photos`, as positions in `photos`.
pub open spec fn packing_order(photos: Seq<Photo>) -> Seq<int> {
    choose|order: Seq<int>| is_packing_order(photos, order)
}

/// The photos at the listed positions.
pub open spec fn arranged(photos: Seq<Photo>, order: Seq<int>) -> Seq<Photo> {
    Seq::new(order.len(), |k: int| photos[order[k]])
}

/// The photos in the order of packing: sorted by height and then width, both
/// descending, photos of one size staying in input order.
pub open spec fn in_packing_order(photos: Seq<Photo>) -> Seq<Photo> {
    arranged(photos, packing_order(photos))
}

/// The sum of the photos' heights: the height of the canvas if they were
/// stacked one upon another.
pub open spec fn stack_height(photos: Seq<Photo>) -> int
    decreases photos.len(),
{
    if photos.len() == 0 {
        0
    } else {
        stack_height(photos.drop_last()) + photos.last().height
    }
}

/// There is only one order of packing: two listings that both meet
/// `is_packing_order` are the same.
pub proof fn lemma_packing_order_unique(photos: Seq<Photo>, first: Seq<int>, second: Seq<int>)
    requires
        is_packing_order(photos, first),
        is_packing_order(photos, second),
    ensures
        first == second,
{
    assert forall|k: int| 0 <= k < first.len() implies first[k] == second[k] by {
        lemma_same_prefix(photos, first, second, k);
    }
    assert(first =~= second);
}

proof fn lemma_same_prefix(photos: Seq<Photo>, first: Seq<int>, second: Seq<int>, k: int)
    requires
        is_packing_order(photos, first),
        is_packing_order(photos, second),
        0 <= k < first.len(),
    ensures
        first[k] == second[k],
    decreases k,
{
    if k > 0 {
        lemma_same_prefix(photos, first, second, k - 1);
    }
    assert forall|m: int| 0 <= m < k implies first[m] == second[m] by {
        lemma_same_prefix(photos, first, second, m);
    }
    let a = first[k];
    let b = second[k];
    if a != b {
        // `a` stands in `second` after position k, so `b` precedes it there
        assert(second.contains(a));
        let m = choose|m: int| 0 <= m < second.len() && second[m] == a;
        if m < k {
            assert(precedes(photos, first[m], first[k]));
        }
        assert(precedes(photos, second[k], second[m]));
        assert(first.contains(b));
        let l = choose|l: int| 0 <= l < first.len() && first[l] == b;
        if l < k {
            assert(precedes(photos, second[l], second[k]));
        }
        assert(precedes(photos, first[k], first[l]));
    }
}

/// Every sequence of photos has an order of packing, and `packing_order`
/// is it: the photos come out by height and then width, both descending, and
/// photos of one size in the order of the input.
pub proof fn lemma_packing_order_exists(photos: Seq<Photo>)
    ensures
        is_packing_order(photos, packing_order(photos)),
{
    let order = lemma_build_order(photos);
}

proof fn lemma_build_order(photos: Seq<Photo>) -> (order: Seq<int>)
    ensures
        is_packing_order(photos, order),
    decreases photos.len(),
{
    if photos.len() == 0 {
        Seq::empty()
    } else {
        let front = photos.drop_last();
        let last = photos.len() - 1;
        let sorted = lemma_build_order(front);
        let slot = lemma_find_slot(photos, sorted, sorted.len() as int);
        let order = sorted.insert(slot, last);
        assert forall|i: int| 0 <= i < photos.len() implies #[trigger] order.contains(i) by {
            if i == last {
                assert(order[slot] == i);
            } else {
                assert(sorted.contains(i));
                let k = choose|k: int| 0 <= k < sorted.len() && sorted[k] == i;
                if k < slot {
                    assert(order[k] == i);
                } else {
                    assert(order[k + 1] == i);
                }
            }
        }
        assert forall|a: int, b: int| 0 <= a < b < order.len() implies precedes(
            photos,
            #[trigger] order[a],
            #[trigger] order[b],
        ) by {
            if b == slot {
                if a < slot - 1 {
                    assert(precedes(front, sorted[a], sorted[slot - 1]));
                }
            } else if a == slot {
                assert(goes_before(photos[last], photos[sorted[b - 1]]));
            } else {
                let a0 = if a < slot { a } else { a - 1 };
                let b0 = if b < slot { b } else { b - 1 };
                assert(precedes(front, sorted[a0], sorted[b0]));
            }
        }
        order
    }
}

/// The place of the last photo among those before it: behind every photo
/// that it does not go before by its size.
proof fn lemma_find_slot(photos: Seq<Photo>, sorted: Seq<int>, upto: int) -> (slot: int)
    requires
        photos.len() > 0,
        0 <= upto <= sorted.len(),
        forall|m: int|
            upto <= m < sorted.len() ==> goes_before(photos.last(), photos[#[trigger] sorted[m]]),
    ensures
        0 <= slot <= upto,
        forall|m: int|
            slot <= m < sorted.len() ==> goes_before(photos.last(), photos[#[trigger] sorted[m]]),
        slot > 0 ==> !goes_before(photos.last(), photos[sorted[slot - 1]]),
    decreases upto,
{
    if upto > 0 && goes_before(photos.last(), photos[sorted[upto - 1]]) {
        lemma_find_slot(photos, sorted, upto - 1)
    } else {
        upto
    }
}

/// Putting a photo into a sequence adds its height to the stack.
pub proof fn lemma_stack_insert(photos: Seq<Photo>, at: int, photo: Photo)
    requires
        0 <= at <= photos.len(),
    ensures
        stack_height(photos.insert(at, photo)) == stack_height(photos) + photo.height,
    decreases photos.len(),
{
    let longer = photos.insert(at, photo);
    if at == photos.len() {
        assert(longer.drop_last() =~= photos);
    } else {
        assert(longer.drop_last() =~= photos.drop_last().insert(at, photo));
        lemma_stack_insert(photos.drop_last(), at, photo);
    }
}

/// Taking a photo out of a sequence takes its height off the stack.
pub proof fn lemma_stack_remove(photos: Seq<Photo>, at: int)
    requires
        0 <= at < photos.len(),
    ensures
        stack_height(photos.remove(at)) == stack_height(photos) - photos[at].height,
    decreases photos.len(),
{
    let shorter = photos.remove(at);
    if at == photos.len() - 1 {
        assert(shorter =~= photos.drop_last());
    } else {
        assert(shorter.drop_last() =~= photos.drop_last().remove(at));
        lemma_stack_remove(photos.drop_last(), at);
    }
}

/// The stack of the first `count` photos, and what one more photo adds.
pub proof fn lemma_stack_take(photos: Seq<Photo>, count: int)
    requires
        0 <= count <= photos.len(),
    ensures
        0 <= stack_height(photos.take(count)) <= stack_height(photos),
        count < photos.len() ==> stack_height(photos.take(count + 1)) == stack_height(
            photos.take(count),
        ) + photos[count].height,
    decreases photos.len() - count,
{
    if count < photos.len() {
        assert(photos.take(count + 1).drop_last() =~= photos.take(count));
        lemma_stack_take(photos, count + 1);
    } else {
        assert(photos.take(count) =~= photos);
    }
    lemma_stack_nonnegative(photos.take(count));
}

proof fn lemma_stack_nonnegative(photos: Seq<Photo>)
    ensures
        0 <= stack_height(photos),
    decreases photos.len(),
{
    if photos.len() > 0 {
        lemma_stack_nonnegative(photos.drop_last());
    }
}

/// Whether `a` is packed before `b` by its size.
pub fn comes_first(a: &Photo, b: &Photo) -> (first: bool)
    ensures
        first == goes_before(*a, *b),
{
    a.height > b.height || (a.height == b.height && a.width > b.width)
}

/// Brings the photos into the order of packing.
pub fn sort_photos(photos: &mut Vec<Photo>)
    ensures
        final(photos)@ == in_packing_order(old(photos)@),
        final(photos)@.len() == old(photos)@.len(),
        stack_height(final(photos)@) == stack_height(old(photos)@),
{
    let n = photos.len();
    let ghost input = photos@;
    let ghost mut order: Seq<int> = Seq::new(n as nat, |k: int| k);
    let mut i: usize = 0;
    assert(photos@ =~= arranged(input, order));
    while i < n
        invariant
            0 <= i <= n,
            n == input.len(),
            n == order.len(),
            photos@ == arranged(input, order),
            forall|k: int| 0 <= k < n ==> 0 <= #[trigger] order[k] < n,
            forall|k: int| i <= k < n ==> #[trigger] order[k] == k,
            forall|k: int| 0 <= k < i ==> #[trigger] order[k] < i,
            forall|p: int| 0 <= p < i ==> #[trigger] order.contains(p),
            forall|a: int, b: int|
                0 <= a < b < i ==> precedes(input, #[trigger] order[a], #[trigger] order[b]),
            stack_height(photos@) == stack_height(input),
        decreases n - i,
    {
        let mut j: usize = i;
        while j > 0 && comes_first(&photos[i], &photos[j - 1])
            invariant
                0 <= j <= i < n,
                n == photos@.len(),
                forall|m: int| j <= m < i ==> goes_before(photos@[i as int], #[trigger] photos@[m]),
            decreases j,
        {
            j -= 1;
        }
        let ghost before = order;
        let ghost unsorted = photos@;
        if j < i {
            let photo = photos.remove(i);
            photos.insert(j, photo);
            proof {
                order = before.remove(i as int).insert(j as int, i as int);
                lemma_stack_remove(unsorted, i as int);
                lemma_stack_insert(unsorted.remove(i as int), j as int, photo);
                assert(photos@ =~= arranged(input, order));
            }
        }
        proof {
            assert forall|p: int| 0 <= p < i + 1 implies #[trigger] order.contains(p) by {
                if p == i {
                    assert(order[j as int] == i);
                } else {
                    assert(before.contains(p));
                    let k = choose|k: int| 0 <= k < before.len() && before[k] == p;
                    if k < j {
                        assert(order[k] == p);
                    } else {
                        assert(order[k + 1] == p);
                    }
                }
            }
            assert forall|a: int, b: int| 0 <= a < b < i + 1 implies precedes(
                input,
                #[trigger] order[a],
                #[trigger] order[b],
            ) by {
                if b == j {
                    // what stands before the slot does not come after the photo
                    assert(!goes_before(unsorted[i as int], unsorted[j - 1]));
                    if a < j - 1 {
                        assert(precedes(input, before[a], before[j - 1]));
                    }
                } else if a == j {
                    assert(goes_before(unsorted[i as int], unsorted[b - 1]));
                } else {
                    let a0 = if a < j { a } else { a - 1 };
                    let b0 = if b < j { b } else { b - 1 };
                    assert(precedes(input, before[a0], before[b0]));
                }
            }
        }
        i += 1;
    }
    proof {
        assert(is_packing_order(input, order));
        lemma_packing_order_unique(input, order, packing_order(input));
    }
}

} // verus!
