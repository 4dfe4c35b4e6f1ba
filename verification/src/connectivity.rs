use vstd::prelude::*;
use vstd::math::abs;

verus! {

/// A predicate on grid cells is closed under adjacency when every
/// in-bounds cell satisfying it has all of its in-bounds orthogonal
/// neighbors satisfying it too.
pub open spec fn grid_closed(p: spec_fn(int, int) -> bool, w: int, h: int) -> bool {
    forall|x: int, y: int|
        0 <= x < w && 0 <= y < h && #[trigger] p(x, y) ==> {
            &&& (x > 0 ==> p(x - 1, y))
            &&& (x + 1 < w ==> p(x + 1, y))
            &&& (y > 0 ==> p(x, y - 1))
            &&& (y + 1 < h ==> p(x, y + 1))
        }
}

/// The grid graph is connected, so a predicate closed under adjacency
/// that holds somewhere holds everywhere: walk from the seed cell to
/// the target cell one orthogonal step at a time.
pub proof fn lemma_closed_covers(p: spec_fn(int, int) -> bool, w: int, h: int, sx: int, sy: int, x: int, y: int)
    requires
        grid_closed(p, w, h),
        0 <= sx < w,
        0 <= sy < h,
        0 <= x < w,
        0 <= y < h,
        p(sx, sy),
    ensures
        p(x, y),
    decreases abs(x - sx) + abs(y - sy),
{
    if x < sx {
        lemma_closed_covers(p, w, h, sx, sy, x + 1, y);
        assert(p(x + 1, y));
    } else if x > sx {
        lemma_closed_covers(p, w, h, sx, sy, x - 1, y);
        assert(p(x - 1, y));
    } else if y < sy {
        lemma_closed_covers(p, w, h, sx, sy, x, y + 1);
        assert(p(x, y + 1));
    } else if y > sy {
        lemma_closed_covers(p, w, h, sx, sy, x, y - 1);
        assert(p(x, y - 1));
    }
}

} // verus!
