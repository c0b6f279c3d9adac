use vstd::prelude::*;
use crate::map::{Position, WorldMap, CellType, in_grid, adjacent, spec_neighbors};
use crate::grid::{shaped, at, lemma_grid_set, new_grid};

verus! {

/// Whether a walk toward `goal` may enter `p`: it lies on the grid and is
/// no obstacle, unless it is the goal itself.
pub open spec fn passable(m: WorldMap, goal: Position, p: Position) -> bool {
    in_grid(p, m.width as int, m.height as int)
        && (m.cell(p) != CellType::Obstacle || p == goal)
}

/// Whether `w` is a walk toward `goal`: each position after the first is a
/// cardinal neighbour of the one before, and may be entered.
pub open spec fn is_walk(m: WorldMap, goal: Position, w: Seq<Position>) -> bool {
    &&& w.len() >= 1
    &&& forall|i: int| 0 <= i < w.len() - 1 ==> #[trigger] walk_step(m, goal, w, i)
}

/// Step `i` of `w`, from `w[i]` to `w[i + 1]`, is a legal move.
pub open spec fn walk_step(m: WorldMap, goal: Position, w: Seq<Position>, i: int) -> bool {
    adjacent(w[i], w[i + 1]) && passable(m, goal, w[i + 1])
}

/// Whether a walk toward `goal` can get from `src` to `dst` in at most `n`
/// steps.
pub open spec fn reach(m: WorldMap, goal: Position, src: Position, dst: Position, n: nat) -> bool {
    exists|w: Seq<Position>|
        #[trigger] is_walk(m, goal, w) && w[0] == src && w.last() == dst && w.len() <= n + 1
}

/// Whether a walk toward `to` can get there from `from` at all.
pub open spec fn can_reach(m: WorldMap, from: Position, to: Position) -> bool {
    exists|n: nat| reach(m, to, from, to, n)
}

/// Whether `s` is a first step from `from` on a shortest walk to `to`: a
/// neighbour that may be entered and from which `to` is one step nearer.
pub open spec fn is_next_step(m: WorldMap, from: Position, to: Position, s: Position) -> bool {
    &&& adjacent(from, s)
    &&& passable(m, to, s)
    &&& forall|n: nat| #[trigger] reach(m, to, from, to, n)
        ==> n >= 1 && reach(m, to, s, to, (n - 1) as nat)
}

/// Whether `s` is the first next step from `from` toward `to`: a next
/// step such that no neighbour of `from` before it, in the order up, down,
/// left, right, is one.
pub open spec fn is_first_next_step(m: WorldMap, from: Position, to: Position, s: Position) -> bool {
    let nbs = spec_neighbors(from, m.width as int, m.height as int);
    &&& is_next_step(m, from, to, s)
    &&& forall|i: int, j: int| #![trigger nbs[i], nbs[j]]
        0 <= i < j < nbs.len() && nbs[j] == s ==> !is_next_step(m, from, to, nbs[i])
}

/// There is one first next step at most: the search's answer is fixed.
pub proof fn lemma_first_next_step_unique(m: WorldMap, from: Position, to: Position, s1: Position, s2: Position)
    requires
        is_first_next_step(m, from, to, s1),
        is_first_next_step(m, from, to, s2),
    ensures
        s1 == s2,
{
    let nbs = spec_neighbors(from, m.width as int, m.height as int);
    lemma_neighbors_cardinal(from, m.width, m.height);
    assert(nbs.contains(s1));
    assert(nbs.contains(s2));
    let j1 = choose|j: int| 0 <= j < nbs.len() && nbs[j] == s1;
    let j2 = choose|j: int| 0 <= j < nbs.len() && nbs[j] == s2;
    if j1 < j2 {
        assert(!is_next_step(m, from, to, nbs[j1]));
    } else if j2 < j1 {
        assert(!is_next_step(m, from, to, nbs[j2]));
    }
}

/// A next step stays on the grid, moves one cell along a row or a column,
/// enters no obstacle unless it is the goal, and brings the goal one step
/// nearer: from it the goal is reachable in one step fewer.
pub proof fn lemma_next_step_progress(m: WorldMap, from: Position, to: Position, s: Position, n: nat)
    requires
        is_next_step(m, from, to, s),
        reach(m, to, from, to, n),
    ensures
        in_grid(s, m.width as int, m.height as int),
        adjacent(from, s),
        s != to ==> m.cell(s) != CellType::Obstacle,
        n >= 1,
        can_reach(m, s, to),
        reach(m, to, s, to, (n - 1) as nat),
{
}

/// Cardinal neighbours: `spec_neighbors` lists each on-grid position one
/// step from `p` exactly once, and nothing else.
pub proof fn lemma_neighbors_cardinal(p: Position, width: usize, height: usize)
    ensures
        forall|q: Position| #[trigger] spec_neighbors(p, width as int, height as int).contains(q)
            <==> (in_grid(q, width as int, height as int) && adjacent(p, q)),
        spec_neighbors(p, width as int, height as int).no_duplicates(),
        spec_neighbors(p, width as int, height as int).len() <= 4,
{
    let s = spec_neighbors(p, width as int, height as int);
    let up = Position { x: p.x, y: (p.y - 1) as usize };
    let down = Position { x: p.x, y: (p.y + 1) as usize };
    let left = Position { x: (p.x - 1) as usize, y: p.y };
    let right = Position { x: (p.x + 1) as usize, y: p.y };
    let ca = p.y >= 1 && p.x < width && p.y - 1 < height;
    let cb = p.y + 1 < height && p.x < width;
    let cc = p.x >= 1 && p.x - 1 < width && p.y < height;
    let cd = p.x + 1 < width && p.y < height;
    let la: int = if ca { 1 } else { 0 };
    let lb: int = if cb { 1 } else { 0 };
    let lc: int = if cc { 1 } else { 0 };
    let ld: int = if cd { 1 } else { 0 };
    assert(s.len() == la + lb + lc + ld);
    assert forall|i: int| #![trigger s[i]] 0 <= i < s.len() implies
        (s[i] == up && ca && i == 0)
        || (s[i] == down && cb && i == la)
        || (s[i] == left && cc && i == la + lb)
        || (s[i] == right && cd && i == la + lb + lc) by {
    }
    assert forall|q: Position| #[trigger] s.contains(q)
        implies (in_grid(q, width as int, height as int) && adjacent(p, q)) by {
        let i = choose|i: int| 0 <= i < s.len() && s[i] == q;
        assert(s[i] == q);
    }
    assert forall|q: Position| in_grid(q, width as int, height as int) && adjacent(p, q)
        implies #[trigger] s.contains(q) by {
        if q == up {
            assert(s[0] == q);
        } else if q == down {
            assert(s[la] == q);
        } else if q == left {
            assert(s[la + lb] == q);
        } else {
            assert(q == right);
            assert(s[la + lb + lc] == q);
        }
    }
    assert forall|i: int, j: int| 0 <= i < s.len() && 0 <= j < s.len() && i != j
        implies s[i] != s[j] by {
        assert(s[i] == s[i]);
        assert(s[j] == s[j]);
    }
}

/// Walks of no steps stay put.
pub proof fn lemma_reach_zero(m: WorldMap, goal: Position, src: Position, dst: Position)
    ensures
        reach(m, goal, src, dst, 0) <==> dst == src,
{
    if dst == src {
        let w = seq![src];
        assert(is_walk(m, goal, w));
    }
}

/// A walk of at most `n + 1` steps is one of at most `n` steps, or one of
/// at most `n` steps to a neighbour followed by a legal step.
pub proof fn lemma_reach_step(m: WorldMap, goal: Position, src: Position, dst: Position, n: nat)
    ensures
        reach(m, goal, src, dst, n + 1) <==> (reach(m, goal, src, dst, n) || (passable(m, goal, dst)
            && exists|u: Position| adjacent(u, dst) && #[trigger] reach(m, goal, src, u, n))),
{
    if reach(m, goal, src, dst, n + 1) && !reach(m, goal, src, dst, n) {
        let w = choose|w: Seq<Position>|
            #[trigger] is_walk(m, goal, w) && w[0] == src && w.last() == dst && w.len() <= n + 2;
        assert(w.len() == n + 2);
        let v = w.drop_last();
        assert(walk_step(m, goal, w, w.len() - 2));
        assert forall|i: int| 0 <= i < v.len() - 1 implies #[trigger] walk_step(m, goal, v, i) by {
            assert(walk_step(m, goal, w, i));
        }
        assert(is_walk(m, goal, v));
        assert(reach(m, goal, src, v.last(), n));
    }
    if !reach(m, goal, src, dst, n) && passable(m, goal, dst)
        && exists|u: Position| adjacent(u, dst) && #[trigger] reach(m, goal, src, u, n) {
        let u = choose|u: Position| adjacent(u, dst) && #[trigger] reach(m, goal, src, u, n);
        let v = choose|w: Seq<Position>|
            #[trigger] is_walk(m, goal, w) && w[0] == src && w.last() == u && w.len() <= n + 1;
        let w = v.push(dst);
        assert forall|i: int| 0 <= i < w.len() - 1 implies #[trigger] walk_step(m, goal, w, i) by {
            if i < v.len() - 1 {
                assert(walk_step(m, goal, v, i));
            }
        }
        assert(is_walk(m, goal, w));
    }
}

/// More steps never reach less.
pub proof fn lemma_reach_mono(m: WorldMap, goal: Position, src: Position, dst: Position, a: nat, b: nat)
    requires
        a <= b,
        reach(m, goal, src, dst, a),
    ensures
        reach(m, goal, src, dst, b),
{
}

/// A reached position other than the start may be entered.
pub proof fn lemma_reach_passable(m: WorldMap, goal: Position, src: Position, dst: Position, n: nat)
    requires
        reach(m, goal, src, dst, n),
        dst != src,
    ensures
        passable(m, goal, dst),
{
    let w = choose|w: Seq<Position>|
        #[trigger] is_walk(m, goal, w) && w[0] == src && w.last() == dst && w.len() <= n + 1;
    assert(walk_step(m, goal, w, w.len() - 2));
}

/// One step from `p` into `s`, then a walk from `s`, is a walk from `p`.
pub proof fn lemma_reach_prepend(m: WorldMap, goal: Position, p: Position, s: Position, d: Position, n: nat)
    requires
        reach(m, goal, s, d, n),
        adjacent(p, s),
        passable(m, goal, s),
    ensures
        reach(m, goal, p, d, n + 1),
{
    let v = choose|w: Seq<Position>|
        #[trigger] is_walk(m, goal, w) && w[0] == s && w.last() == d && w.len() <= n + 1;
    let w = seq![p] + v;
    assert forall|i: int| 0 <= i < w.len() - 1 implies #[trigger] walk_step(m, goal, w, i) by {
        if i > 0 {
            assert(walk_step(m, goal, v, i - 1));
        }
    }
    assert(is_walk(m, goal, w));
}

/// Once a further step reaches nothing new, no number of steps does.
pub proof fn lemma_reach_stable(m: WorldMap, goal: Position, src: Position, j: nat, n: nat, d: Position)
    requires
        forall|p: Position| #[trigger] reach(m, goal, src, p, j + 1) ==> reach(m, goal, src, p, j),
        reach(m, goal, src, d, n),
    ensures
        reach(m, goal, src, d, j),
    decreases n,
{
    if n > j {
        lemma_reach_step(m, goal, src, d, (n - 1) as nat);
        if reach(m, goal, src, d, (n - 1) as nat) {
            lemma_reach_stable(m, goal, src, j, (n - 1) as nat, d);
        } else {
            let u = choose|u: Position| adjacent(u, d) && #[trigger] reach(m, goal, src, u, (n - 1) as nat);
            lemma_reach_stable(m, goal, src, j, (n - 1) as nat, u);
            lemma_reach_step(m, goal, src, d, j);
        }
    } else {
        lemma_reach_mono(m, goal, src, d, n, j);
    }
}

spec fn count_false(s: Seq<bool>) -> nat
    decreases s.len(),
{
    if s.len() == 0 {
        0
    } else {
        count_false(s.drop_last()) + if s.last() { 0nat } else { 1nat }
    }
}

spec fn unvisited(rows: Seq<Vec<bool>>) -> nat
    decreases rows.len(),
{
    if rows.len() == 0 {
        0
    } else {
        unvisited(rows.drop_last()) + count_false(rows.last()@)
    }
}

proof fn lemma_count_false_set(s: Seq<bool>, x: int)
    requires
        0 <= x < s.len(),
        !s[x],
    ensures
        count_false(s.update(x, true)) + 1 == count_false(s),
    decreases s.len(),
{
    let t = s.update(x, true);
    if x < s.len() - 1 {
        assert(t.drop_last() =~= s.drop_last().update(x, true));
        lemma_count_false_set(s.drop_last(), x);
    } else {
        assert(t.drop_last() =~= s.drop_last());
    }
}

proof fn lemma_unvisited_set(rows: Seq<Vec<bool>>, y: int, r: Vec<bool>)
    requires
        0 <= y < rows.len(),
    ensures
        unvisited(rows.update(y, r)) + count_false(rows[y]@) == unvisited(rows) + count_false(r@),
    decreases rows.len(),
{
    let t = rows.update(y, r);
    if y < rows.len() - 1 {
        assert(t.drop_last() =~= rows.drop_last().update(y, r));
        lemma_unvisited_set(rows.drop_last(), y, r);
    } else {
        assert(t.drop_last() =~= rows.drop_last());
    }
}


// ---- breadth-first search ------------------------------------------------

/// The search tree so far: `lev[p]` is the fewest steps from `from` to `p`,
/// known for `from` and for each marked cell; every marked cell but `from`
/// has a parent one step nearer to `from`.
spec fn tree_ok(
    m: WorldMap,
    to: Position,
    from: Position,
    lev: Map<Position, nat>,
    vis: Seq<Vec<bool>>,
    par: Seq<Vec<Option<Position>>>,
    bound: nat,
) -> bool {
    &&& shaped(vis, m.width as int, m.height as int)
    &&& shaped(par, m.width as int, m.height as int)
    &&& lev.contains_key(from) && lev[from] == 0
    &&& forall|p: Position| #![trigger lev.contains_key(p)] #![trigger at(vis, p)]
        in_grid(p, m.width as int, m.height as int) ==> (lev.contains_key(p) <==> at(vis, p))
    &&& forall|p: Position| #[trigger] lev.contains_key(p)
        ==> (p == from || in_grid(p, m.width as int, m.height as int))
    &&& forall|p: Position| #[trigger] lev.contains_key(p) ==> {
        &&& reach(m, to, from, p, lev[p])
        &&& lev[p] <= bound
        &&& (lev[p] > 0 ==> !reach(m, to, from, p, (lev[p] - 1) as nat))
        &&& (p != from ==> {
            &&& at(par, p) is Some
            &&& lev.contains_key(at(par, p)->0)
            &&& adjacent(at(par, p)->0, p)
            &&& lev[at(par, p)->0] + 1 == lev[p]
        })
    }
}

/// The layer reached so far: `lev` knows every cell within `k` steps, none
/// further; `frontier` lists exactly the cells `k` steps away; and no cell
/// nearer than that is `to`.
#[verifier::opaque]
spec fn layer(m: WorldMap, to: Position, from: Position, lev: Map<Position, nat>, frontier: Seq<Position>, k: nat) -> bool {
    &&& forall|p: Position| #[trigger] reach(m, to, from, p, k) ==> lev.contains_key(p)
    &&& forall|p: Position| #[trigger] lev.contains_key(p) ==> lev[p] <= k
    &&& forall|j: int| 0 <= j < frontier.len() ==>
        #[trigger] lev.contains_key(frontier[j]) && lev[frontier[j]] == k
    &&& forall|p: Position| #[trigger] lev.contains_key(p) && lev[p] == k ==> frontier.contains(p)
    &&& forall|p: Position| #[trigger] lev.contains_key(p) && lev[p] < k ==> p != to
}

/// The next layer in the making: `lev` extends `lev_start` by cells
/// `k + 1` steps away, which are exactly those listed in `next`.
#[verifier::opaque]
spec fn grown(lev_start: Map<Position, nat>, lev: Map<Position, nat>, next: Seq<Position>, k: nat) -> bool {
    &&& forall|p: Position| #[trigger] lev_start.contains_key(p)
        ==> lev.contains_key(p) && lev[p] == lev_start[p]
    &&& forall|p: Position| #[trigger] lev.contains_key(p) && !lev_start.contains_key(p)
        ==> lev[p] == k + 1
    &&& forall|j: int| 0 <= j < next.len() ==>
        #[trigger] lev.contains_key(next[j]) && !lev_start.contains_key(next[j])
    &&& forall|p: Position| #[trigger] lev.contains_key(p) && !lev_start.contains_key(p)
        ==> next.contains(p)
}

/// Which first step each marked cell descends from: `anc[p]` is the place,
/// among the neighbours of `from`, of the first step from which `p` is
/// reached in the fewest steps, and no earlier neighbour reaches it as fast;
/// a parent shares the place of its child.
#[verifier::opaque]
spec fn anc_ok(
    m: WorldMap,
    to: Position,
    from: Position,
    lev: Map<Position, nat>,
    anc: Map<Position, int>,
    par: Seq<Vec<Option<Position>>>,
) -> bool {
    let nbs = spec_neighbors(from, m.width as int, m.height as int);
    forall|p: Position| #[trigger] lev.contains_key(p) && p != from ==> {
        &&& anc.contains_key(p)
        &&& 0 <= anc[p] < nbs.len()
        &&& passable(m, to, nbs[anc[p]])
        &&& reach(m, to, nbs[anc[p]], p, (lev[p] - 1) as nat)
        &&& forall|i: int| 0 <= i < anc[p] && passable(m, to, nbs[i])
            ==> !#[trigger] reach(m, to, nbs[i], p, (lev[p] - 1) as nat)
        &&& lev[p] >= 2 ==> anc[at(par, p)->0] == anc[p]
    }
}

/// `s` lists cells in order of their places in `anc`.
spec fn sorted_by(s: Seq<Position>, anc: Map<Position, int>) -> bool {
    forall|a: int, b: int| 0 <= a < b < s.len() ==> anc[#[trigger] s[a]] <= anc[#[trigger] s[b]]
}

/// The next layer so far is in order of places, each known, and no place
/// in it is past `ca` (the expanded cell's place) or, when expanding `from`
/// itself, past the `t` neighbours tried so far.
#[verifier::opaque]
spec fn next_ok(next: Seq<Position>, anc: Map<Position, int>, k: nat, ca: int, t: int) -> bool {
    &&& sorted_by(next, anc)
    &&& forall|b: int| 0 <= b < next.len() ==> #[trigger] anc.contains_key(next[b])
    &&& k >= 1 ==> forall|b: int| 0 <= b < next.len() ==> anc[#[trigger] next[b]] <= ca
    &&& k == 0 ==> forall|b: int| 0 <= b < next.len() ==> anc[#[trigger] next[b]] < t
}

proof fn lemma_next_ok_skip(next: Seq<Position>, anc: Map<Position, int>, k: nat, ca: int, t: int)
    requires
        next_ok(next, anc, k, ca, t),
    ensures
        next_ok(next, anc, k, ca, t + 1),
{
    reveal(next_ok);
}

proof fn lemma_next_ok_push(next: Seq<Position>, anc: Map<Position, int>, k: nat, ca: int, t: int, nb: Position)
    requires
        next_ok(next, anc, k, ca, t),
        forall|b: int| 0 <= b < next.len() ==> #[trigger] next[b] != nb,
    ensures
        next_ok(next.push(nb), anc.insert(nb, if k == 0 { t } else { ca }), k, ca, t + 1),
{
    reveal(next_ok);
    let n2 = next.push(nb);
    let a2 = anc.insert(nb, if k == 0 { t } else { ca });
    assert forall|b: int| 0 <= b < next.len() implies #[trigger] n2[b] == next[b] && next[b] != nb by {}
    assert(n2[next.len() as int] == nb);
    assert forall|a: int, b: int| 0 <= a < b < n2.len() implies a2[#[trigger] n2[a]] <= a2[#[trigger] n2[b]] by {
        assert(n2[a] == next[a]);
        if b < next.len() {
            assert(n2[b] == next[b]);
        }
    }
    assert forall|b: int| 0 <= b < n2.len() implies #[trigger] a2.contains_key(n2[b]) by {
        if b < next.len() {
            assert(n2[b] == next[b]);
        }
    }
}

/// Marking `nb` as reached from `cur` keeps `anc_ok`: its place is its own
/// place among the neighbours of `from` when `cur` is `from`, and `cur`'s
/// place otherwise. No earlier first step reaches `nb` as fast, or `nb`
/// would have been marked while an earlier cell of the layer was expanded.
proof fn lemma_anc_extend(
    m: WorldMap,
    to: Position,
    from: Position,
    lev0: Map<Position, nat>,
    anc0: Map<Position, int>,
    par0: Seq<Vec<Option<Position>>>,
    par1: Seq<Vec<Option<Position>>>,
    vis0: Seq<Vec<bool>>,
    lev_start: Map<Position, nat>,
    frontier: Seq<Position>,
    k: nat,
    ci: int,
    cur: Position,
    nb: Position,
    t: int,
)
    requires
        anc_ok(m, to, from, lev0, anc0, par0),
        tree_ok(m, to, from, lev0, vis0, par0, k + 1),
        layer(m, to, from, lev_start, frontier, k),
        forall|p: Position| #[trigger] lev_start.contains_key(p)
            ==> lev0.contains_key(p) && lev0[p] == lev_start[p],
        sorted_by(frontier, anc0),
        0 <= ci < frontier.len(),
        frontier[ci] == cur,
        forall|q: Position, j: int|
            0 <= j < ci && #[trigger] adjacent(frontier[j], q) && passable(m, to, q)
            ==> #[trigger] lev0.contains_key(q),
        lev0.contains_key(cur) && lev0[cur] == k,
        !lev0.contains_key(nb),
        !reach(m, to, from, nb, k),
        adjacent(cur, nb),
        passable(m, to, nb),
        k == 0 ==> cur == from,
        k == 0 ==> 0 <= t < spec_neighbors(from, m.width as int, m.height as int).len()
            && spec_neighbors(from, m.width as int, m.height as int)[t] == nb,
        shaped(par0, m.width as int, m.height as int),
        forall|p: Position| in_grid(p, m.width as int, m.height as int) ==>
            #[trigger] at(par1, p) == if p == nb { Some(cur) } else { at(par0, p) },
    ensures
        anc_ok(m, to, from, lev0.insert(nb, k + 1),
            anc0.insert(nb, if k == 0 { t } else { anc0[cur] }), par1),
{
    reveal(anc_ok);
    reveal(layer);
    let nbs = spec_neighbors(from, m.width as int, m.height as int);
    lemma_neighbors_cardinal(from, m.width, m.height);
    let a = if k == 0 { t } else { anc0[cur] };
    let lev1 = lev0.insert(nb, k + 1);
    let anc1 = anc0.insert(nb, a);
    if k == 0 {
        lemma_reach_zero(m, to, nb, nb);
        assert forall|i: int| 0 <= i < a && passable(m, to, nbs[i])
            implies !#[trigger] reach(m, to, nbs[i], nb, 0) by {
            lemma_reach_zero(m, to, nbs[i], nb);
        }
    } else {
        assert(cur != from);
        // `nb` lies one step past `cur`
        lemma_reach_step(m, to, nbs[a], nb, (k - 1) as nat);
        assert(reach(m, to, nbs[a], nb, k));
        assert forall|i: int| 0 <= i < a && passable(m, to, nbs[i])
            implies !#[trigger] reach(m, to, nbs[i], nb, k) by {
            if reach(m, to, nbs[i], nb, k) {
                assert(nbs.contains(nbs[i]));
                lemma_reach_step(m, to, nbs[i], nb, (k - 1) as nat);
                if reach(m, to, nbs[i], nb, (k - 1) as nat) {
                    lemma_reach_prepend(m, to, from, nbs[i], nb, (k - 1) as nat);
                } else {
                    let u = choose|u: Position| adjacent(u, nb)
                        && #[trigger] reach(m, to, nbs[i], u, (k - 1) as nat);
                    lemma_reach_prepend(m, to, from, nbs[i], u, (k - 1) as nat);
                    assert(lev_start.contains_key(u));
                    if lev_start[u] < k {
                        lemma_reach_mono(m, to, from, u, lev_start[u], (k - 1) as nat);
                        lemma_reach_step(m, to, from, nb, (k - 1) as nat);
                    } else {
                        assert(frontier.contains(u));
                        let j = choose|j: int| 0 <= j < frontier.len() && frontier[j] == u;
                        assert(u != from);
                        // `u` descends from a first step no later than the i-th
                        if anc0[u] > i {
                            assert(lev0[u] == k);
                            assert(!reach(m, to, nbs[i], u, (lev0[u] - 1) as nat));
                        }
                        if j >= ci {
                            if j > ci {
                                assert(anc0[frontier[ci]] <= anc0[frontier[j]]);
                            }
                        }
                        assert(j < ci);
                        assert(adjacent(frontier[j], nb));
                    }
                }
            }
        }
    }
    assert forall|p: Position| #[trigger] lev1.contains_key(p) && p != from implies {
        &&& anc1.contains_key(p)
        &&& 0 <= anc1[p] < nbs.len()
        &&& passable(m, to, nbs[anc1[p]])
        &&& reach(m, to, nbs[anc1[p]], p, (lev1[p] - 1) as nat)
        &&& forall|i: int| 0 <= i < anc1[p] && passable(m, to, nbs[i])
            ==> !#[trigger] reach(m, to, nbs[i], p, (lev1[p] - 1) as nat)
        &&& lev1[p] >= 2 ==> anc1[at(par1, p)->0] == anc1[p]
    } by {
        if p != nb {
            assert(lev0.contains_key(p));
            assert(in_grid(p, m.width as int, m.height as int));
            assert(at(par1, p) == at(par0, p));
            if lev1[p] >= 2 {
                assert(lev0.contains_key(at(par0, p)->0));
                assert(at(par0, p)->0 != nb);
                assert(lev0[at(par0, p)->0] >= 1);
            }
        } else {
            assert(at(par1, p) == Some(cur));
        }
    }
}

/// Follows parents back from `to` to the cell right after `from`.
fn trace_back(
    map: &WorldMap,
    parent: &Vec<Vec<Option<Position>>>,
    from: Position,
    to: Position,
    Ghost(lev): Ghost<Map<Position, nat>>,
    Ghost(vis): Ghost<Seq<Vec<bool>>>,
    Ghost(bound): Ghost<nat>,
    Ghost(anc): Ghost<Map<Position, int>>,
) -> (s: Position)
    requires
        map.grid_ok(),
        tree_ok(*map, to, from, lev, vis, parent@, bound),
        anc_ok(*map, to, from, lev, anc, parent@),
        lev.contains_key(to),
        to != from,
    ensures
        is_first_next_step(*map, from, to, s),
{
    let ghost m = *map;
    let mut step = to;
    proof {
        lemma_reach_zero(m, to, to, to);
        reveal(anc_ok);
    }
    loop
        invariant
            map.grid_ok(),
            m == *map,
            tree_ok(m, to, from, lev, vis, parent@, bound),
            anc_ok(m, to, from, lev, anc, parent@),
            lev.contains_key(to),
            lev.contains_key(step),
            step != from,
            anc.contains_key(step) && anc.contains_key(to) && anc[step] == anc[to],
            lev[step] <= lev[to],
            reach(m, to, step, to, (lev[to] - lev[step]) as nat),
        decreases lev[step],
    {
        proof {
            lemma_reach_passable(m, to, from, step, lev[step]);
            reveal(anc_ok);
        }
        assert(in_grid(step, map.width as int, map.height as int));
        assert(parent@[step.y as int]@.len() == map.width);
        let p = parent[step.y][step.x].unwrap();
        assert(p == at(parent@, step)->0);
        if p == from {
            proof {
                let k = lev[to];
                assert(k > 0);
                assert forall|n: nat| #[trigger] reach(m, to, from, to, n)
                    implies n >= 1 && reach(m, to, step, to, (n - 1) as nat) by {
                    if n < k {
                        lemma_reach_mono(m, to, from, to, n, (k - 1) as nat);
                    }
                    lemma_reach_zero(m, to, from, to);
                    lemma_reach_mono(m, to, step, to, (k - 1) as nat, (n - 1) as nat);
                }
                // `step` is the first step that `to` descends from, and no
                // earlier neighbour of `from` reaches `to` as fast
                let nbs = spec_neighbors(from, m.width as int, m.height as int);
                lemma_neighbors_cardinal(from, m.width, m.height);
                let a = anc[to];
                lemma_reach_zero(m, to, nbs[a], step);
                assert(nbs[a] == step);
                assert forall|i: int, j: int| #![trigger nbs[i], nbs[j]]
                    0 <= i < j < nbs.len() && nbs[j] == step implies !is_next_step(m, from, to, nbs[i]) by {
                    assert(j == a);
                    if is_next_step(m, from, to, nbs[i]) {
                        assert(reach(m, to, from, to, k));
                        assert(reach(m, to, nbs[i], to, (k - 1) as nat));
                    }
                }
            }
            return step;
        }
        proof {
            lemma_reach_prepend(m, to, p, step, to, (lev[to] - lev[step]) as nat);
        }
        step = p;
    }
}

/// One legal step past a cell reached in `k` steps is reached in `k + 1`.
proof fn lemma_reach_next(m: WorldMap, to: Position, from: Position, cur: Position, nb: Position, k: nat)
    requires
        reach(m, to, from, cur, k),
        adjacent(cur, nb),
        passable(m, to, nb),
    ensures
        reach(m, to, from, nb, k + 1),
{
    lemma_reach_step(m, to, from, nb, k);
}

/// Marking `nb`, one step past `cur` and first reached in `k + 1` steps,
/// with `cur` as its parent keeps the search tree sound.
proof fn lemma_tree_extend(
    m: WorldMap,
    to: Position,
    from: Position,
    lev0: Map<Position, nat>,
    vis0: Seq<Vec<bool>>,
    par0: Seq<Vec<Option<Position>>>,
    vis1: Seq<Vec<bool>>,
    par1: Seq<Vec<Option<Position>>>,
    k: nat,
    cur: Position,
    nb: Position,
)
    requires
        tree_ok(m, to, from, lev0, vis0, par0, k + 1),
        lev0.contains_key(cur) && lev0[cur] == k,
        in_grid(nb, m.width as int, m.height as int),
        adjacent(cur, nb),
        !lev0.contains_key(nb),
        reach(m, to, from, nb, k + 1),
        !reach(m, to, from, nb, k),
        shaped(vis1, m.width as int, m.height as int),
        shaped(par1, m.width as int, m.height as int),
        forall|p: Position| in_grid(p, m.width as int, m.height as int) ==>
            #[trigger] at(vis1, p) == if p == nb { true } else { at(vis0, p) },
        forall|p: Position| in_grid(p, m.width as int, m.height as int) ==>
            #[trigger] at(par1, p) == if p == nb { Some(cur) } else { at(par0, p) },
    ensures
        tree_ok(m, to, from, lev0.insert(nb, k + 1), vis1, par1, k + 1),
{
    let lev = lev0.insert(nb, k + 1);
    assert forall|p: Position| #[trigger] lev.contains_key(p) implies {
        &&& reach(m, to, from, p, lev[p])
        &&& lev[p] <= k + 1
        &&& (lev[p] > 0 ==> !reach(m, to, from, p, (lev[p] - 1) as nat))
        &&& (p != from ==> {
            &&& at(par1, p) is Some
            &&& lev.contains_key(at(par1, p)->0)
            &&& adjacent(at(par1, p)->0, p)
            &&& lev[at(par1, p)->0] + 1 == lev[p]
        })
    } by {
        if p != nb {
            assert(lev0.contains_key(p));
            if p != from {
                assert(in_grid(p, m.width as int, m.height as int));
                assert(at(par1, p) == at(par0, p));
            }
        } else {
            assert(at(par1, p) == Some(cur));
        }
    }
    assert forall|p: Position| in_grid(p, m.width as int, m.height as int) implies
        (#[trigger] lev.contains_key(p) <==> at(vis1, p)) by {
        if p != nb {
            assert(lev0.contains_key(p) <==> at(vis0, p));
        }
    }
}

/// Appending `nb`, newly marked, to `next` keeps `next` listing exactly
/// the cells of the new layer.
proof fn lemma_next_extend(
    lev0: Map<Position, nat>,
    lev_start: Map<Position, nat>,
    next0: Seq<Position>,
    nb: Position,
    k: nat,
)
    requires
        !lev0.contains_key(nb),
        forall|p: Position| #[trigger] lev_start.contains_key(p) ==> lev0.contains_key(p),
        forall|j: int| 0 <= j < next0.len() ==>
            #[trigger] lev0.contains_key(next0[j]) && !lev_start.contains_key(next0[j]),
        forall|p: Position| #[trigger] lev0.contains_key(p) && !lev_start.contains_key(p)
            ==> next0.contains(p),
    ensures
        forall|j: int| 0 <= j < next0.push(nb).len() ==>
            #[trigger] lev0.insert(nb, k + 1).contains_key(next0.push(nb)[j])
            && !lev_start.contains_key(next0.push(nb)[j]),
        forall|p: Position| #[trigger] lev0.insert(nb, k + 1).contains_key(p) && !lev_start.contains_key(p)
            ==> next0.push(nb).contains(p),
        forall|b: int| 0 <= b < next0.len() ==> #[trigger] next0[b] != nb,
{
    let lev = lev0.insert(nb, k + 1);
    let next = next0.push(nb);
    assert forall|p: Position| #[trigger] lev.contains_key(p)
        && !lev_start.contains_key(p) implies next.contains(p) by {
        if p != nb {
            assert(next0.contains(p));
            let j = choose|j: int| 0 <= j < next0.len() && next0[j] == p;
            assert(next[j] == p);
        } else {
            assert(next[next0.len() as int] == p);
        }
    }
    assert forall|j: int| 0 <= j < next.len() implies
        #[trigger] lev.contains_key(next[j]) && !lev_start.contains_key(next[j]) by {
        if j < next0.len() {
            assert(next[j] == next0[j]);
        }
    }
    assert forall|b: int| 0 <= b < next0.len() implies #[trigger] next0[b] != nb by {
        assert(lev0.contains_key(next0[b]));
    }
}

/// Marks `nb` as reached from `cur`: one step further from `from`, with
/// `cur` as its parent and `cur`'s first step (or, from `from` itself, its
/// own place), and appends it to `next`.
fn visit(
    map: &WorldMap,
    from: Position,
    to: Position,
    cur: Position,
    nb: Position,
    visited: &mut Vec<Vec<bool>>,
    parent: &mut Vec<Vec<Option<Position>>>,
    next: &mut Vec<Position>,
    Ghost(lev0): Ghost<Map<Position, nat>>,
    Ghost(anc0): Ghost<Map<Position, int>>,
    Ghost(lev_in): Ghost<Map<Position, nat>>,
    Ghost(anc_in): Ghost<Map<Position, int>>,
    Ghost(lev_start): Ghost<Map<Position, nat>>,
    Ghost(k): Ghost<nat>,
    Ghost(frontier): Ghost<Seq<Position>>,
    Ghost(ci): Ghost<int>,
    Ghost(t): Ghost<int>,
) -> (out: (Ghost<Map<Position, nat>>, Ghost<Map<Position, int>>))
    requires
        map.grid_ok(),
        from != to,
        in_grid(nb, map.width as int, map.height as int),
        adjacent(cur, nb),
        passable(*map, to, nb),
        !at(old(visited)@, nb),
        lev0.contains_key(cur) && lev0[cur] == k,
        tree_ok(*map, to, from, lev0, old(visited)@, old(parent)@, k + 1),
        forall|p: Position| #[trigger] lev_in.contains_key(p)
            ==> lev0.contains_key(p) && lev0[p] == lev_in[p],
        forall|p: Position| #[trigger] lev0.contains_key(p) && !lev_start.contains_key(p)
            ==> lev0[p] == k + 1,
        forall|p: Position| #[trigger] lev_start.contains_key(p)
            ==> lev_in.contains_key(p) && lev_in[p] == lev_start[p],
        forall|p: Position| #[trigger] reach(*map, to, from, p, k) ==> lev_start.contains_key(p),
        forall|j: int| 0 <= j < old(next)@.len() ==>
            #[trigger] lev0.contains_key(old(next)@[j]) && !lev_start.contains_key(old(next)@[j]),
        forall|p: Position| #[trigger] lev0.contains_key(p) && !lev_start.contains_key(p)
            ==> old(next)@.contains(p),
        anc_ok(*map, to, from, lev0, anc0, old(parent)@),
        forall|p: Position| #[trigger] lev_in.contains_key(p) && p != from
            ==> anc_in.contains_key(p) && anc0.contains_key(p) && anc0[p] == anc_in[p],
        layer(*map, to, from, lev_start, frontier, k),
        forall|j: int| 0 <= j < frontier.len() ==> #[trigger] lev_start.contains_key(frontier[j]),
        lev_start.contains_key(from),
        sorted_by(frontier, anc0),
        0 <= ci < frontier.len(),
        frontier[ci] == cur,
        forall|q: Position, j: int|
            0 <= j < ci && #[trigger] adjacent(frontier[j], q) && passable(*map, to, q)
            ==> #[trigger] lev_in.contains_key(q),
        k == 0 ==> cur == from && 0 <= t < spec_neighbors(from, map.width as int, map.height as int).len()
            && spec_neighbors(from, map.width as int, map.height as int)[t] == nb,
        k >= 1 ==> cur != from,
        next_ok(old(next)@, anc0, k, if k >= 1 { anc_in[cur] } else { 0 }, t),
    ensures
        out.0@ == lev0.insert(nb, k + 1),
        out.1@ == anc0.insert(nb, if k == 0 { t } else { anc0[cur] }),
        final(next)@ == old(next)@.push(nb),
        tree_ok(*map, to, from, out.0@, final(visited)@, final(parent)@, k + 1),
        forall|j: int| 0 <= j < final(next)@.len() ==>
            #[trigger] out.0@.contains_key(final(next)@[j]) && !lev_start.contains_key(final(next)@[j]),
        forall|p: Position| #[trigger] out.0@.contains_key(p) && !lev_start.contains_key(p)
            ==> final(next)@.contains(p),
        unvisited(final(visited)@) + final(next)@.len() == unvisited(old(visited)@) + old(next)@.len(),
        anc_ok(*map, to, from, out.0@, out.1@, final(parent)@),
        sorted_by(frontier, out.1@),
        next_ok(final(next)@, out.1@, k, if k >= 1 { anc_in[cur] } else { 0 }, t + 1),
{
    let ghost m = *map;
    let w = map.width;
    let h = map.height;
    let ghost mut lev = lev0;
    let ghost mut anc = anc0;
    let ghost vis0 = visited@;
    let ghost par0 = parent@;
    let ghost next0 = next@;
    assert(!lev0.contains_key(nb));
    visited[nb.y][nb.x] = true;
    parent[nb.y][nb.x] = Some(cur);
    next.push(nb);
    proof {
        lemma_grid_set(vis0, visited@[nb.y as int], w as int, h as int, nb, true);
        lemma_grid_set(par0, parent@[nb.y as int], w as int, h as int, nb, Some(cur));
        lemma_count_false_set(vis0[nb.y as int]@, nb.x as int);
        lemma_unvisited_set(vis0, nb.y as int, visited@[nb.y as int]);
        assert(visited@ == vis0.update(nb.y as int, visited@[nb.y as int]));
        assert(parent@ == par0.update(nb.y as int, parent@[nb.y as int]));
        // the new cell is one step further than `cur`
        assert(!reach(m, to, from, nb, k)) by {
            if reach(m, to, from, nb, k) {
                assert(lev_start.contains_key(nb));
            }
        }
        lemma_reach_next(m, to, from, cur, nb, k);
        lemma_tree_extend(m, to, from, lev0, vis0, par0, visited@, parent@, k, cur, nb);
        assert forall|q: Position, j: int|
            0 <= j < ci && #[trigger] adjacent(frontier[j], q) && passable(m, to, q)
            implies #[trigger] lev0.contains_key(q) by {
            assert(lev_in.contains_key(q));
        }
        lemma_anc_extend(m, to, from, lev0, anc0, par0, parent@, vis0, lev_start, frontier,
            k, ci, cur, nb, t);
        lemma_next_extend(lev0, lev_start, next0, nb, k);
        assert(k >= 1 ==> anc0[cur] == anc_in[cur]);
        lemma_next_ok_push(next0, anc0, k, if k >= 1 { anc_in[cur] } else { 0 }, t, nb);
        lev = lev0.insert(nb, k + 1);
        anc = anc0.insert(nb, if k == 0 { t } else { anc0[cur] });
        assert(sorted_by(frontier, anc)) by {
            assert forall|a: int, b: int| 0 <= a < b < frontier.len() implies
                anc[#[trigger] frontier[a]] <= anc[#[trigger] frontier[b]] by {
                assert(lev_start.contains_key(frontier[a]));
                assert(lev_start.contains_key(frontier[b]));
                assert(anc0[frontier[a]] <= anc0[frontier[b]]);
            }
        }
    }
    (Ghost(lev), Ghost(anc))
}

/// Marks each unmarked neighbour of `cur` that may be entered as one step
/// further from `from` than `cur`, with `cur` as its parent, and appends it
/// to `next`.
#[verifier::rlimit(40)]
fn expand(
    map: &WorldMap,
    from: Position,
    to: Position,
    cur: Position,
    visited: &mut Vec<Vec<bool>>,
    parent: &mut Vec<Vec<Option<Position>>>,
    next: &mut Vec<Position>,
    Ghost(lev_in): Ghost<Map<Position, nat>>,
    Ghost(lev_start): Ghost<Map<Position, nat>>,
    Ghost(k): Ghost<nat>,
    Ghost(vis_start): Ghost<Seq<Vec<bool>>>,
    Ghost(frontier): Ghost<Seq<Position>>,
    Ghost(anc_in): Ghost<Map<Position, int>>,
    Ghost(ci): Ghost<int>,
) -> (out: (Ghost<Map<Position, nat>>, Ghost<Map<Position, int>>))
    requires
        map.grid_ok(),
        from != to,
        cur != to,
        lev_in.contains_key(cur) && lev_in[cur] == k,
        tree_ok(*map, to, from, lev_in, old(visited)@, old(parent)@, k + 1),
        layer(*map, to, from, lev_start, frontier, k),
        grown(lev_start, lev_in, old(next)@, k),
        unvisited(old(visited)@) + old(next)@.len() == unvisited(vis_start),
        anc_ok(*map, to, from, lev_in, anc_in, old(parent)@),
        sorted_by(frontier, anc_in),
        0 <= ci < frontier.len(),
        frontier[ci] == cur,
        forall|q: Position, j: int|
            0 <= j < ci && #[trigger] adjacent(frontier[j], q) && passable(*map, to, q)
            ==> #[trigger] lev_in.contains_key(q),
        k == 0 ==> cur == from && old(next)@.len() == 0,
        sorted_by(old(next)@, anc_in),
        k >= 1 ==> forall|b: int| 0 <= b < old(next)@.len() ==> anc_in[#[trigger] old(next)@[b]] <= anc_in[cur],
    ensures
        tree_ok(*map, to, from, out.0@, final(visited)@, final(parent)@, k + 1),
        grown(lev_start, out.0@, final(next)@, k),
        forall|p: Position| #[trigger] lev_in.contains_key(p)
            ==> out.0@.contains_key(p) && out.0@[p] == lev_in[p],
        unvisited(final(visited)@) + final(next)@.len() == unvisited(vis_start),
        forall|q: Position| #[trigger] adjacent(cur, q) && passable(*map, to, q) ==> out.0@.contains_key(q),
        anc_ok(*map, to, from, out.0@, out.1@, final(parent)@),
        forall|p: Position| #[trigger] lev_in.contains_key(p) && p != from
            ==> anc_in.contains_key(p) && out.1@.contains_key(p) && out.1@[p] == anc_in[p],
        sorted_by(final(next)@, out.1@),
        k >= 1 ==> forall|b: int| 0 <= b < final(next)@.len() ==> out.1@[#[trigger] final(next)@[b]] <= anc_in[cur],
{
    let ghost m = *map;
    let w = map.width;
    let h = map.height;
    let ghost mut lev = lev_in;
    let ghost mut anc = anc_in;
    let nbs = cur.neighbors_cardinal(w, h);
    proof {
        lemma_neighbors_cardinal(cur, w, h);
        reveal(layer);
        reveal(grown);
        reveal(anc_ok);
        reveal(next_ok);
        assert(lev_in[from] == 0);
        assert forall|b: int| 0 <= b < next@.len() implies #[trigger] anc.contains_key(next@[b]) by {
            assert(lev_in.contains_key(next@[b]) && !lev_start.contains_key(next@[b]));
        }
    }
    let mut t: usize = 0;
    while t < nbs.len()
        invariant
            map.grid_ok(),
            m == *map,
            w == map.width,
            h == map.height,
            from != to,
            cur != to,
            lev.contains_key(cur) && lev[cur] == k,
            nbs@ == spec_neighbors(cur, w as int, h as int),
            0 <= t <= nbs@.len(),
            tree_ok(m, to, from, lev, visited@, parent@, k + 1),
            forall|p: Position| #[trigger] lev_in.contains_key(p)
                ==> lev.contains_key(p) && lev[p] == lev_in[p],
            forall|p: Position| #[trigger] lev.contains_key(p) && !lev_start.contains_key(p)
                ==> lev[p] == k + 1,
            forall|p: Position| #[trigger] lev_start.contains_key(p)
                ==> lev_in.contains_key(p) && lev_in[p] == lev_start[p],
            forall|p: Position| #[trigger] reach(m, to, from, p, k) ==> lev_start.contains_key(p),
            forall|s: int| 0 <= s < t && #[trigger] passable(m, to, nbs@[s])
                ==> lev.contains_key(nbs@[s]),
            forall|j: int| 0 <= j < next@.len() ==>
                #[trigger] lev.contains_key(next@[j]) && !lev_start.contains_key(next@[j]),
            forall|p: Position| #[trigger] lev.contains_key(p) && !lev_start.contains_key(p)
                ==> next@.contains(p),
            unvisited(visited@) + next@.len() == unvisited(vis_start),
            anc_ok(m, to, from, lev, anc, parent@),
            forall|p: Position| #[trigger] lev_in.contains_key(p) && p != from
                ==> anc_in.contains_key(p) && anc.contains_key(p) && anc[p] == anc_in[p],
            layer(m, to, from, lev_start, frontier, k),
            forall|j: int| 0 <= j < frontier.len() ==> #[trigger] lev_start.contains_key(frontier[j]),
            lev_start.contains_key(from),
            sorted_by(frontier, anc),
            0 <= ci < frontier.len(),
            frontier[ci] == cur,
            forall|q: Position, j: int|
                0 <= j < ci && #[trigger] adjacent(frontier[j], q) && passable(m, to, q)
                ==> #[trigger] lev_in.contains_key(q),
            k == 0 ==> cur == from,
            k >= 1 ==> cur != from,
            next_ok(next@, anc, k, if k >= 1 { anc_in[cur] } else { 0 }, t as int),
        decreases nbs@.len() - t,
    {
        let nb = nbs[t];
        let ghost next_t = next@;
        assert(nbs@.contains(nb));
        assert(in_grid(nb, w as int, h as int) && adjacent(cur, nb));
        assert(visited@[nb.y as int]@.len() == w);
        if !visited[nb.y][nb.x] {
            if map.get_cell(nb) != CellType::Obstacle || nb == to {
                let ghost lev0 = lev;
                let (Ghost(lev1), Ghost(anc1)) = visit(
                    map, from, to, cur, nb, visited, parent, next,
                    Ghost(lev), Ghost(anc), Ghost(lev_in), Ghost(anc_in), Ghost(lev_start), Ghost(k),
                    Ghost(frontier), Ghost(ci), Ghost(t as int),
                );
                proof {
                    lev = lev1;
                    anc = anc1;
                    assert(!lev0.contains_key(nb));
                    assert forall|p: Position| #[trigger] lev_in.contains_key(p) && p != from
                        implies anc_in.contains_key(p) && anc.contains_key(p) && anc[p] == anc_in[p] by {
                        assert(p != nb);
                    }
                }
            }
        }
        proof {
            if next@.len() == next_t.len() {
                lemma_next_ok_skip(next@, anc, k, if k >= 1 { anc_in[cur] } else { 0 }, t as int);
            }
            assert forall|s: int| 0 <= s < t + 1 && #[trigger] passable(m, to, nbs@[s])
                implies lev.contains_key(nbs@[s]) by {
                if s == t {
                    assert(nbs@[s] == nb);
                    assert(in_grid(nb, w as int, h as int));
                }
            }
        }
        t = t + 1;
    }
    proof {
        assert forall|q: Position| #[trigger] adjacent(cur, q) && passable(m, to, q)
            implies lev.contains_key(q) by {
            assert(nbs@.contains(q));
            let s = choose|s: int| 0 <= s < nbs@.len() && nbs@[s] == q;
            assert(passable(m, to, nbs@[s]));
        }
        reveal(grown);
    }
    (Ghost(lev), Ghost(anc))
}

/// Once every cell of a layer has been expanded, the cells first reached
/// form the next layer.
proof fn lemma_layer_done(
    m: WorldMap,
    to: Position,
    from: Position,
    lev_start: Map<Position, nat>,
    lev: Map<Position, nat>,
    frontier: Seq<Position>,
    next: Seq<Position>,
    k: nat,
    vis: Seq<Vec<bool>>,
    par: Seq<Vec<Option<Position>>>,
)
    requires
        tree_ok(m, to, from, lev, vis, par, k + 1),
        layer(m, to, from, lev_start, frontier, k),
        grown(lev_start, lev, next, k),
        forall|j: int| 0 <= j < frontier.len() ==> #[trigger] frontier[j] != to,
        forall|q: Position, j: int|
            0 <= j < frontier.len() && #[trigger] adjacent(frontier[j], q) && passable(m, to, q)
            ==> #[trigger] lev.contains_key(q),
    ensures
        layer(m, to, from, lev, next, k + 1),
        forall|p: Position| #[trigger] lev_start.contains_key(p) ==> lev.contains_key(p),
{
    reveal(layer);
    reveal(grown);
    // every cell within k + 1 steps is now known
    assert forall|p: Position| #[trigger] reach(m, to, from, p, k + 1) implies lev.contains_key(p) by {
        lemma_reach_step(m, to, from, p, k);
        if !reach(m, to, from, p, k) {
            let u = choose|u: Position| adjacent(u, p) && #[trigger] reach(m, to, from, u, k);
            assert(lev_start.contains_key(u));
            if lev_start[u] < k {
                lemma_reach_mono(m, to, from, u, lev_start[u], (k - 1) as nat);
                lemma_reach_step(m, to, from, p, (k - 1) as nat);
                assert(reach(m, to, from, p, k));
            } else {
                assert(frontier.contains(u));
                let j = choose|j: int| 0 <= j < frontier.len() && frontier[j] == u;
                assert(adjacent(frontier[j], p));
            }
        }
    }
    assert forall|p: Position| #[trigger] lev.contains_key(p) && lev[p] < k + 1 implies p != to by {
        if !lev_start.contains_key(p) {
        } else if lev_start[p] == k {
            assert(frontier.contains(p));
            let j = choose|j: int| 0 <= j < frontier.len() && frontier[j] == p;
        }
    }
    assert forall|j: int| 0 <= j < next.len() implies
        #[trigger] lev.contains_key(next[j]) && lev[next[j]] == k + 1 by {
        assert(lev.contains_key(next[j]) && !lev_start.contains_key(next[j]));
    }
    assert forall|p: Position| #[trigger] lev.contains_key(p) && lev[p] == k + 1
        implies next.contains(p) by {
        if lev_start.contains_key(p) {
            assert(lev_start[p] <= k);
        }
    }
}

/// The first step of a shortest walk from `from` to `to` that enters no
/// obstacle but, perhaps, `to` itself; `None` when `from` is `to` or no such
/// walk exists. The search runs breadth first, trying the neighbours of each
/// cell in the order up, down, left, right.
#[verifier::spinoff_prover]
pub fn bfs_next_step(map: &WorldMap, from: Position, to: Position) -> (r: Option<Position>)
    requires
        map.grid_ok(),
    ensures
        from == to ==> r is None,
        from != to ==> (r is Some <==> can_reach(*map, from, to)),
        r matches Some(s) ==> is_first_next_step(*map, from, to, s),
{
    if from == to {
        return None;
    }
    let ghost m = *map;
    let w = map.width;
    let h = map.height;
    let mut visited: Vec<Vec<bool>> = new_grid(w, h, false);
    let mut parent: Vec<Vec<Option<Position>>> = new_grid(w, h, None);
    let ghost mut lev: Map<Position, nat> = Map::empty().insert(from, 0nat);
    proof {
        lemma_reach_zero(m, to, from, from);
    }
    if from.x < w && from.y < h {
        let ghost vis0 = visited@;
        visited[from.y][from.x] = true;
        proof {
            lemma_grid_set(vis0, visited@[from.y as int], w as int, h as int, from, true);
        }
    }
    let mut frontier: Vec<Position> = Vec::new();
    frontier.push(from);
    let ghost mut k: nat = 0;
    assert(frontier@[0] == from);
    assert(frontier@.contains(from));
    assert(tree_ok(m, to, from, lev, visited@, parent@, k)) by {
        assert forall|p: Position| #[trigger] lev.contains_key(p) implies {
            &&& reach(m, to, from, p, lev[p])
            &&& lev[p] <= k
            &&& (lev[p] > 0 ==> !reach(m, to, from, p, (lev[p] - 1) as nat))
            &&& (p != from ==> {
                &&& at(parent@, p) is Some
                &&& lev.contains_key(at(parent@, p)->0)
                &&& adjacent(at(parent@, p)->0, p)
                &&& lev[at(parent@, p)->0] + 1 == lev[p]
            })
        } by {}
    }
    let ghost mut anc: Map<Position, int> = Map::empty();
    assert(anc_ok(m, to, from, lev, anc, parent@)) by {
        reveal(anc_ok);
    }
    assert(layer(m, to, from, lev, frontier@, k)) by {
        reveal(layer);
        assert forall|p: Position| #[trigger] reach(m, to, from, p, 0) implies lev.contains_key(p) by {
            lemma_reach_zero(m, to, from, p);
        }
    }
    while frontier.len() > 0
        invariant
            map.grid_ok(),
            m == *map,
            w == map.width,
            h == map.height,
            from != to,
            tree_ok(m, to, from, lev, visited@, parent@, k),
            layer(m, to, from, lev, frontier@, k),
            anc_ok(m, to, from, lev, anc, parent@),
            sorted_by(frontier@, anc),
            k == 0 ==> frontier@ == seq![from],
        decreases unvisited(visited@), frontier@.len(),
    {
        let ghost vis_start = visited@;
        let ghost lev_start = lev;
        let mut next: Vec<Position> = Vec::new();
        assert(grown(lev_start, lev, next@, k)) by {
            reveal(grown);
        }
        let mut i: usize = 0;
        while i < frontier.len()
            invariant
                map.grid_ok(),
                m == *map,
                w == map.width,
                h == map.height,
                from != to,
                0 <= i <= frontier@.len(),
                tree_ok(m, to, from, lev, visited@, parent@, k + 1),
                layer(m, to, from, lev_start, frontier@, k),
                grown(lev_start, lev, next@, k),
                forall|j: int| 0 <= j < i ==> #[trigger] frontier@[j] != to,
                forall|q: Position, j: int|
                    0 <= j < i && #[trigger] adjacent(frontier@[j], q) && passable(m, to, q)
                    ==> #[trigger] lev.contains_key(q),
                unvisited(visited@) + next@.len() == unvisited(vis_start),
                anc_ok(m, to, from, lev, anc, parent@),
                sorted_by(frontier@, anc),
                sorted_by(next@, anc),
                i == 0 ==> next@.len() == 0,
                k == 0 ==> frontier@ == seq![from],
                k >= 1 ==> forall|b: int, j: int| 0 <= b < next@.len() && i <= j < frontier@.len()
                    ==> anc[#[trigger] next@[b]] <= anc[#[trigger] frontier@[j]],
            decreases frontier@.len() - i,
        {
            let cur = frontier[i];
            assert(lev.contains_key(cur) && lev[cur] == k) by {
                reveal(layer);
                reveal(grown);
                assert(lev_start.contains_key(frontier@[i as int]));
            }
            if cur == to {
                let s = trace_back(map, &parent, from, to, Ghost(lev), Ghost(visited@), Ghost(k + 1), Ghost(anc));
                return Some(s);
            }
            let ghost lev_before = lev;
            let ghost anc_before = anc;
            let ghost next_before = next@;
            proof {
                if k >= 1 {
                    assert forall|b: int| 0 <= b < next@.len() implies
                        anc[#[trigger] next@[b]] <= anc[cur] by {
                        assert(anc[next@[b]] <= anc[frontier@[i as int]]);
                    }
                } else {
                    assert(frontier@.len() == 1);
                }
            }
            let (Ghost(lev_after), Ghost(anc_after)) = expand(
                map, from, to, cur, &mut visited, &mut parent, &mut next,
                Ghost(lev), Ghost(lev_start), Ghost(k), Ghost(vis_start), Ghost(frontier@),
                Ghost(anc), Ghost(i as int),
            );
            proof {
                lev = lev_after;
                anc = anc_after;
                assert forall|j: int| 0 <= j < frontier@.len() && (k >= 1 || j == 0) implies
                    #[trigger] lev_before.contains_key(frontier@[j]) && (k >= 1 ==> frontier@[j] != from) by {
                    reveal(layer);
                    reveal(grown);
                    assert(lev_start.contains_key(frontier@[j]));
                }
                assert(sorted_by(frontier@, anc)) by {
                    assert forall|a: int, b: int| 0 <= a < b < frontier@.len() implies
                        anc[#[trigger] frontier@[a]] <= anc[#[trigger] frontier@[b]] by {
                        assert(lev_before.contains_key(frontier@[a]) && frontier@[a] != from);
                        assert(lev_before.contains_key(frontier@[b]) && frontier@[b] != from);
                        assert(anc_before[frontier@[a]] <= anc_before[frontier@[b]]);
                    }
                }
                if k >= 1 {
                    assert forall|b: int, j: int| 0 <= b < next@.len() && i + 1 <= j < frontier@.len()
                        implies anc[#[trigger] next@[b]] <= anc[#[trigger] frontier@[j]] by {
                        assert(lev_before.contains_key(frontier@[j]) && frontier@[j] != from);
                        assert(anc_before[frontier@[i as int]] <= anc_before[frontier@[j]]);
                    }
                }
                assert forall|q: Position, j: int|
                    0 <= j < i + 1 && #[trigger] adjacent(frontier@[j], q) && passable(m, to, q)
                    implies #[trigger] lev.contains_key(q) by {
                    if j < i {
                        assert(lev_before.contains_key(q));
                    }
                }
            }
            i = i + 1;
        }
        proof {
            lemma_layer_done(m, to, from, lev_start, lev, frontier@, next@, k, visited@, parent@);
            if next@.len() == 0 {
                assert(frontier@.len() > 0);
            }
            k = k + 1;
        }
        frontier = next;
    }
    proof {
        reveal(layer);
        // nothing lies exactly k steps away, so nothing new is ever reached
        assert(k > 0) by {
            if k == 0 {
                assert(lev.contains_key(from) && lev[from] == 0);
                assert(frontier@.contains(from));
            }
        }
        assert forall|p: Position| #[trigger] reach(m, to, from, p, (k - 1) as nat + 1)
            implies reach(m, to, from, p, (k - 1) as nat) by {
            assert(lev.contains_key(p));
            if lev[p] == k {
                assert(frontier@.contains(p));
            }
            lemma_reach_mono(m, to, from, p, lev[p], (k - 1) as nat);
        }
        assert forall|n: nat| !reach(m, to, from, to, n) by {
            if reach(m, to, from, to, n) {
                lemma_reach_stable(m, to, from, (k - 1) as nat, n, to);
                lemma_reach_mono(m, to, from, to, (k - 1) as nat, k);
                assert(lev.contains_key(to));
                if lev[to] == k {
                    assert(!reach(m, to, from, to, (k - 1) as nat));
                }
            }
        }
    }
    None
}

} // verus!
