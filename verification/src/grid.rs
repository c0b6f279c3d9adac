use vstd::prelude::*;
use crate::map::{Position, in_grid};

verus! {


/// `g` has `h` rows of `w` entries each.
pub open spec fn shaped<T>(g: Seq<Vec<T>>, w: int, h: int) -> bool {
    &&& g.len() == h
    &&& forall|y: int| 0 <= y < h ==> (#[trigger] g[y])@.len() == w
}

/// The entry of `g` at column `p.x` of row `p.y`.
pub open spec fn at<T>(g: Seq<Vec<T>>, p: Position) -> T {
    g[p.y as int]@[p.x as int]
}

/// Writing one entry of a grid changes that entry alone.
pub proof fn lemma_grid_set<T>(g: Seq<Vec<T>>, r: Vec<T>, w: int, h: int, q: Position, v: T)
    requires
        shaped(g, w, h),
        in_grid(q, w, h),
        r@ == g[q.y as int]@.update(q.x as int, v),
    ensures
        shaped(g.update(q.y as int, r), w, h),
        forall|p: Position| in_grid(p, w, h) ==>
            #[trigger] at(g.update(q.y as int, r), p) == if p == q { v } else { at(g, p) },
{
    let g2 = g.update(q.y as int, r);
    assert forall|y: int| 0 <= y < h implies (#[trigger] g2[y])@.len() == w by {}
    assert forall|p: Position| in_grid(p, w, h) implies
        #[trigger] at(g2, p) == if p == q { v } else { at(g, p) } by {
        if p.y == q.y && p.x != q.x {
            assert(p != q);
        }
    }
}

/// A `width` by `height` grid filled with `v`.
pub fn new_grid<T: Copy>(width: usize, height: usize, v: T) -> (g: Vec<Vec<T>>)
    ensures
        shaped(g@, width as int, height as int),
        forall|p: Position| in_grid(p, width as int, height as int) ==> #[trigger] at(g@, p) == v,
{
    let mut g: Vec<Vec<T>> = Vec::new();
    let mut y: usize = 0;
    while y < height
        invariant
            y <= height,
            g@.len() == y,
            forall|r: int| 0 <= r < y ==> (#[trigger] g@[r])@.len() == width,
            forall|r: int, c: int| 0 <= r < y && 0 <= c < width ==> #[trigger] g@[r]@[c] == v,
        decreases height - y,
    {
        let mut row: Vec<T> = Vec::new();
        let mut x: usize = 0;
        while x < width
            invariant
                x <= width,
                row@.len() == x,
                forall|c: int| 0 <= c < x ==> #[trigger] row@[c] == v,
            decreases width - x,
        {
            row.push(v);
            x = x + 1;
        }
        g.push(row);
        y = y + 1;
    }
    g
}

} // verus!
