//! The gap predicate between consecutive smooth numbers, and the scan for the
//! first gap.

use vstd::prelude::*;

verus! {

/// The left end of the interval around `v` of half-width `w`: `v - w + 1`,
/// held within `[0, u64::MAX]`.
pub open spec fn left_end(v: int, w: int) -> int {
    if v - w + 1 < 0 {
        0
    } else if v - w + 1 > u64::MAX {
        u64::MAX as int
    } else {
        v - w + 1
    }
}

/// The right end of the interval around `v` of half-width `w`: `v + w + 1`,
/// held at most `u64::MAX`.
pub open spec fn right_end(v: int, w: int) -> int {
    if v + w + 1 > u64::MAX {
        u64::MAX as int
    } else {
        v + w + 1
    }
}

/// The intervals around `a` and `b` (with half-widths `wa` and `wb`) leave a
/// gap between them.
pub open spec fn gap_between(a: int, wa: int, b: int, wb: int) -> bool {
    left_end(b, wb) > right_end(a, wa) + 1
}

/// `width` can be called on every value and gives one result for each.
pub open spec fn deterministic<F: Fn(u64) -> u64>(width: F) -> bool {
    &&& forall|x: u64| #[trigger] width.requires((x,))
    &&& forall|x: u64, w1: u64, w2: u64|
        #[trigger] width.ensures((x,), w1) && #[trigger] width.ensures((x,), w2) ==> w1 == w2
}

/// What `width` gives for `x`.
pub open spec fn width_of<F: Fn(u64) -> u64>(width: F, x: u64) -> u64 {
    choose|w: u64| width.ensures((x,), w)
}

/// The numbers at `x` and `x + 1` of `s` leave a gap.
pub open spec fn gap_at<F: Fn(u64) -> u64>(width: F, s: Seq<u64>, x: int) -> bool {
    gap_between(
        s[x] as int,
        width_of(width, s[x]) as int,
        s[x + 1] as int,
        width_of(width, s[x + 1]) as int,
    )
}

/// `r` is the first index `x` in `[a, b)` where the numbers at `x` and `x + 1`
/// leave a gap, or `None` when there is none.
pub open spec fn first_gap_in<F: Fn(u64) -> u64>(width: F, s: Seq<u64>, a: int, b: int, r: Option<usize>) -> bool {
    match r {
        None => forall|x: int| a <= x < b ==> !#[trigger] gap_at(width, s, x),
        Some(x) => a <= x < b && gap_at(width, s, x as int) && forall|y: int|
            a <= y < x ==> !#[trigger] gap_at(width, s, y),
    }
}

/// `r` is the smallest index found, or `None` when none was found.
pub open spec fn is_earliest(found: Seq<Option<usize>>, r: Option<usize>) -> bool {
    &&& r is None <==> forall|i: int| 0 <= i < found.len() ==> #[trigger] found[i] is None
    &&& r matches Some(x) ==> (exists|i: int| 0 <= i < found.len() && #[trigger] found[i] == Some(x))
        && forall|i: int| 0 <= i < found.len() && #[trigger] found[i] is Some ==> x <= found[i]->Some_0
}

/// Slab boundaries never decrease.
proof fn lemma_bounds_mono(bounds: Seq<int>, i: int, j: int)
    requires
        forall|k: int| 0 <= k < bounds.len() - 1 ==> bounds[k] <= #[trigger] bounds[k + 1],
        0 <= i <= j < bounds.len(),
    ensures
        bounds[i] <= bounds[j],
    decreases j - i,
{
    if i < j {
        lemma_bounds_mono(bounds, i, j - 1);
        assert(bounds[j - 1] <= bounds[(j - 1) + 1]);
    }
}

/// The slab that holds `x`.
proof fn lemma_slab_of(bounds: Seq<int>, x: int) -> (i: int)
    requires
        bounds.len() >= 2,
        forall|k: int| 0 <= k < bounds.len() - 1 ==> bounds[k] <= #[trigger] bounds[k + 1],
        bounds[0] <= x < bounds[bounds.len() - 1],
    ensures
        0 <= i < bounds.len() - 1,
        bounds[i] <= x < bounds[i + 1],
    decreases bounds.len(),
{
    let n = bounds.len() - 1;
    if x >= bounds[n - 1] {
        n - 1
    } else {
        let head = bounds.drop_last();
        assert forall|k: int| 0 <= k < head.len() - 1 implies head[k] <= #[trigger] head[k + 1] by {
            assert(bounds[k] <= bounds[k + 1]);
        }
        lemma_slab_of(head, x)
    }
}

/// Scanning consecutive slabs `[bounds[i], bounds[i + 1])` separately and
/// taking the earliest index found gives the first gap of their union.
pub proof fn lemma_earliest_of_slabs<F: Fn(u64) -> u64>(
    width: F,
    s: Seq<u64>,
    bounds: Seq<int>,
    found: Seq<Option<usize>>,
    r: Option<usize>,
)
    requires
        bounds.len() == found.len() + 1,
        forall|i: int| 0 <= i < found.len() ==> bounds[i] <= #[trigger] bounds[i + 1],
        forall|i: int|
            0 <= i < found.len() ==> first_gap_in(width, s, bounds[i], bounds[i + 1], #[trigger] found[i]),
        is_earliest(found, r),
    ensures
        first_gap_in(width, s, bounds[0], bounds[found.len() as int], r),
{
    let n = found.len() as int;
    match r {
        None => {
            assert forall|x: int| bounds[0] <= x < bounds[n] implies !#[trigger] gap_at(width, s, x) by {
                let i = lemma_slab_of(bounds, x);
                assert(found[i] is None);
                assert(first_gap_in(width, s, bounds[i], bounds[i + 1], found[i]));
            }
        },
        Some(x) => {
            let i0 = choose|i: int| 0 <= i < found.len() && #[trigger] found[i] == Some(x);
            assert(first_gap_in(width, s, bounds[i0], bounds[i0 + 1], found[i0]));
            lemma_bounds_mono(bounds, 0, i0);
            lemma_bounds_mono(bounds, i0 + 1, n);
            assert forall|y: int| bounds[0] <= y < x implies !#[trigger] gap_at(width, s, y) by {
                let j = lemma_slab_of(bounds, y);
                assert(first_gap_in(width, s, bounds[j], bounds[j + 1], found[j]));
                if found[j] is Some {
                    assert(x <= found[j]->Some_0);
                }
            }
        },
    }
}

/// `v - w + 1`, saturating at 0 and at `u64::MAX`.
pub fn left(v: u64, w: u64) -> (r: u64)
    ensures
        r == left_end(v as int, w as int),
{
    if w > v {
        0
    } else if v - w == u64::MAX {
        u64::MAX
    } else {
        v - w + 1
    }
}

/// `v + w + 1`, saturating at `u64::MAX`.
pub fn right(v: u64, w: u64) -> (r: u64)
    ensures
        r == right_end(v as int, w as int),
{
    if u64::MAX - v <= w {
        u64::MAX
    } else {
        v + w + 1
    }
}

/// Calls `width` on `x`; its result is `width_of(width, x)`.
fn width_at<F: Fn(u64) -> u64>(width: &F, x: u64) -> (r: u64)
    requires
        deterministic(*width),
    ensures
        r == width_of(*width, x),
{
    assert(width.requires((x,)));
    let r = width(x);
    assert(width.ensures((x,), width_of(*width, x)));
    r
}

/// The smallest `x` in `[start, stop)` where the numbers at `x` and `x + 1`
/// leave a gap, or `None` when there is none.
pub fn find_gap<F: Fn(u64) -> u64>(values: &Vec<u64>, start: usize, stop: usize, width: &F) -> (r:
    Option<usize>)
    requires
        deterministic(*width),
        start <= stop,
        stop < values@.len(),
    ensures
        first_gap_in(*width, values@, start as int, stop as int, r),
{
    let mut x = start;
    while x < stop
        invariant
            deterministic(*width),
            start <= x <= stop,
            stop < values@.len(),
            forall|y: int| start <= y < x ==> !#[trigger] gap_at(*width, values@, y),
        decreases stop - x,
    {
        let a = values[x];
        let b = values[x + 1];
        let ra = right(a, width_at(width, a));
        let lb = left(b, width_at(width, b));
        if ra < u64::MAX && lb > ra + 1 {
            return Some(x);
        }
        x = x + 1;
    }
    None
}

/// The smallest of the indices found, or `None` when none was found.
pub fn earliest(found: &Vec<Option<usize>>) -> (r: Option<usize>)
    ensures
        is_earliest(found@, r),
{
    let mut best: Option<usize> = None;
    let mut i: usize = 0;
    while i < found.len()
        invariant
            i <= found@.len(),
            best is None <==> forall|j: int| 0 <= j < i ==> #[trigger] found@[j] is None,
            best matches Some(x) ==> (exists|j: int| 0 <= j < i && #[trigger] found@[j] == Some(x))
                && forall|j: int| 0 <= j < i && #[trigger] found@[j] is Some ==> x <= found@[j]->Some_0,
        decreases found@.len() - i,
    {
        if let Some(x) = found[i] {
            match best {
                None => {
                    best = Some(x);
                },
                Some(b) => {
                    if x < b {
                        best = Some(x);
                    }
                },
            }
        }
        i = i + 1;
    }
    best
}

} // verus!
