use vstd::prelude::*;

mod grid;
mod node;
mod point;

pub use grid::Grid;
pub use node::Node;
pub use point::Point;

verus! {

/// The Manhattan distance between two points, as a mathematical integer.
pub open spec fn spec_manhattan(a: Point, b: Point) -> int {
    (vstd::math::abs(a.x - b.x) + vstd::math::abs(a.y - b.y)) as int
}

/// Two points are adjacent when they are exactly one orthogonal step apart.
pub open spec fn adjacent(a: Point, b: Point) -> bool {
    spec_manhattan(a, b) == 1
}

/// `q` is a walk across walkable cells of `g` from `a` to `b`: it starts at
/// `a`, ends at `b`, every point on it is walkable, and consecutive points
/// are adjacent. A walk of `n` points takes `n - 1` unit steps.
pub open spec fn path_between(g: Grid, q: Seq<Point>, a: Point, b: Point) -> bool {
    &&& q.len() >= 1
    &&& q[0] == a
    &&& q[q.len() - 1] == b
    &&& forall|i: int| 0 <= i < q.len() ==> g.walkable(#[trigger] q[i])
    &&& forall|i: int| 0 <= i < q.len() - 1 ==> adjacent(#[trigger] q[i], q[i + 1])
}

/// No point occurs twice in `q`.
pub open spec fn distinct_points(q: Seq<Point>) -> bool {
    forall|i: int, j: int| 0 <= i < j < q.len() ==> q[i] != q[j]
}

/// The row-major cell index of `p` on grid `g`.
pub open spec fn cell_id(g: Grid, p: Point) -> int {
    p.y * g.spec_width() + p.x
}

/// The walkable neighbours of `p`, in the fixed probe order: down (y + 1),
/// right (x + 1), up (y - 1), left (x - 1). This enumeration order is part of
/// the search's determinism: it decides which of several equally short paths
/// is returned.
pub open spec fn neighbors_of(g: Grid, p: Point) -> Seq<Point> {
    let down = Point { x: p.x, y: (p.y + 1) as isize };
    let right = Point { x: (p.x + 1) as isize, y: p.y };
    let up = Point { x: p.x, y: (p.y - 1) as isize };
    let left = Point { x: (p.x - 1) as isize, y: p.y };
    (if g.walkable(down) {
        seq![down]
    } else {
        Seq::<Point>::empty()
    }) + (if g.walkable(right) {
        seq![right]
    } else {
        Seq::<Point>::empty()
    }) + (if g.walkable(up) {
        seq![up]
    } else {
        Seq::<Point>::empty()
    }) + (if g.walkable(left) {
        seq![left]
    } else {
        Seq::<Point>::empty()
    })
}

/// The Manhattan distance between two walkable points of a well-formed grid
/// is at most one less than the cell count, which itself fits in `isize`.
proof fn lemma_manhattan_bound(g: Grid, a: Point, b: Point)
    requires
        g.wf(),
        g.walkable(a),
        g.walkable(b),
    ensures
        0 <= spec_manhattan(a, b) < g.spec_width() * g.spec_height(),
        -isize::MAX <= a.x - b.x <= isize::MAX,
        -isize::MAX <= a.y - b.y <= isize::MAX,
{
    let w = g.spec_width();
    let h = g.spec_height();
    assert(1 <= w && 1 <= h ==> w + h - 2 < w * h) by (nonlinear_arith);
}

/// A walkable point's coordinates stay strictly inside `isize`'s range, so
/// probing each of its four neighbours cannot overflow.
proof fn lemma_walkable_coords(g: Grid, p: Point)
    requires
        g.wf(),
        g.walkable(p),
    ensures
        isize::MIN < p.x < isize::MAX,
        isize::MIN < p.y < isize::MAX,
{
    let w = g.spec_width();
    let h = g.spec_height();
    assert(w <= w * h && h <= w * h) by (nonlinear_arith)
        requires
            1 <= w,
            1 <= h,
    ;
}

/// Every entry of `neighbors_of(g, p)` is walkable and adjacent to `p`.
proof fn lemma_neighbors_sound(g: Grid, p: Point)
    requires
        g.wf(),
        g.walkable(p),
    ensures
        forall|k: int|
            0 <= k < neighbors_of(g, p).len() ==> {
                &&& g.walkable(#[trigger] neighbors_of(g, p)[k])
                &&& adjacent(p, neighbors_of(g, p)[k])
            },
{
    lemma_walkable_coords(g, p);
}

/// Every walkable point adjacent to `p` occurs in `neighbors_of(g, p)`.
proof fn lemma_neighbors_complete(g: Grid, p: Point, z: Point)
    requires
        g.wf(),
        g.walkable(p),
        g.walkable(z),
        adjacent(p, z),
    ensures
        exists|k: int| 0 <= k < neighbors_of(g, p).len() && neighbors_of(g, p)[k] == z,
{
    lemma_walkable_coords(g, p);
    lemma_walkable_coords(g, z);
    let s = neighbors_of(g, p);
    if z.y == p.y + 1 {
        assert(s[0] == z);
    } else if z.x == p.x + 1 {
        let k = if g.walkable(Point { x: p.x, y: (p.y + 1) as isize }) {
            1int
        } else {
            0int
        };
        assert(s[k] == z);
    } else if z.y == p.y - 1 {
        let k = (if g.walkable(Point { x: p.x, y: (p.y + 1) as isize }) {
            1int
        } else {
            0int
        }) + (if g.walkable(Point { x: (p.x + 1) as isize, y: p.y }) {
            1int
        } else {
            0int
        });
        assert(s[k] == z);
    } else {
        assert(z.x == p.x - 1);
        assert(s[s.len() - 1] == z);
    }
}

/// Shortest distance between two points, ignoring any obstacles: the exact
/// number of orthogonal unit steps needed when nothing is in the way, and a
/// lower bound on the length of any actual path.
pub fn manhattan_distance(a: &Point, b: &Point) -> (r: isize)
    requires
        -isize::MAX <= a.x - b.x <= isize::MAX,
        -isize::MAX <= a.y - b.y <= isize::MAX,
        spec_manhattan(*a, *b) <= isize::MAX,
    ensures
        r == spec_manhattan(*a, *b),
{
    let dx = if a.x >= b.x {
        a.x - b.x
    } else {
        b.x - a.x
    };
    let dy = if a.y >= b.y {
        a.y - b.y
    } else {
        b.y - a.y
    };
    dx + dy
}

/// Returns the walkable neighbours of `point`, in the fixed probe order:
/// down, right, up, left.
pub fn get_neighbor_points(grid: &Grid, point: Point) -> (r: Vec<Point>)
    requires
        grid.wf(),
        isize::MIN < point.x < isize::MAX,
        isize::MIN < point.y < isize::MAX,
    ensures
        r@ == neighbors_of(*grid, point),
{
    let mut out: Vec<Point> = Vec::new();
    let down = Point::new(point.x, point.y + 1);
    if grid.is_walkable(down) {
        out.push(down);
    }
    let right = Point::new(point.x + 1, point.y);
    if grid.is_walkable(right) {
        out.push(right);
    }
    let up = Point::new(point.x, point.y - 1);
    if grid.is_walkable(up) {
        out.push(up);
    }
    let left = Point::new(point.x - 1, point.y);
    if grid.is_walkable(left) {
        out.push(left);
    }
    proof {
        assert(out@ =~= neighbors_of(*grid, point));
    }
    out
}

/// Converts a `Point` to an index in a 1D row-major vector.
fn point_to_index(point: Point, width: usize) -> (r: usize)
    requires
        0 <= point.x,
        0 <= point.y,
        point.y * width + point.x <= usize::MAX,
    ensures
        r == point.y * width + point.x,
{
    point.y as usize * width + point.x as usize
}

/// Builds a vector of `n` copies of `v`.
fn filled<T: Copy>(n: usize, v: T) -> (r: Vec<T>)
    ensures
        r@.len() == n,
        forall|i: int| 0 <= i < n ==> r@[i] == v,
{
    let mut out: Vec<T> = Vec::new();
    while out.len() < n
        invariant
            out@.len() <= n,
            forall|i: int| 0 <= i < out@.len() ==> out@[i] == v,
        decreases n - out@.len(),
    {
        out.push(v);
    }
    out
}

/// The parent link of arena entry `i` is sound: absent exactly for the root
/// entry, and otherwise pointing at an earlier entry whose point is one step
/// away and whose cost from the start is one less.
pub open spec fn link_ok(arena: Seq<Node>, i: int) -> bool {
    match arena[i].parent_index {
        None => i == 0,
        Some(j) => {
            &&& 0 <= j < i
            &&& adjacent(arena[j as int].point, arena[i].point)
            &&& arena[i].g == arena[j as int].g + 1
        },
    }
}

/// The structural invariant of a search's node arena: the root is the start
/// node with cost zero, every parent link is sound, and of two entries at the
/// same point the later one always carries a strictly smaller cost (a node is
/// only added when it improves on every earlier cost for its point).
pub open spec fn arena_links_ok(arena: Seq<Node>) -> bool {
    &&& arena.len() >= 1
    &&& arena[0].g == 0
    &&& arena[0].parent_index is None
    &&& forall|i: int| 0 <= i < arena.len() ==> #[trigger] link_ok(arena, i)
    &&& forall|i: int, j: int|
        0 <= i < j < arena.len() && (#[trigger] arena[i]).point == (#[trigger] arena[j]).point
            ==> arena[j].g < arena[i].g
}

/// Returns the path from the arena's root to entry `current_index` as a list
/// of points, by walking the parent links and reversing.
#[verifier::rlimit(50)]
fn retrace_path(nodes: &Vec<Node>, current_index: usize) -> (path: Vec<Point>)
    requires
        arena_links_ok(nodes@),
        current_index < nodes@.len(),
    ensures
        path@.len() == nodes@[current_index as int].g + 1,
        path@[0] == nodes@[0].point,
        path@[path@.len() - 1] == nodes@[current_index as int].point,
        forall|k: int| 0 <= k < path@.len() - 1 ==> adjacent(#[trigger] path@[k], path@[k + 1]),
        forall|k: int|
            0 <= k < path@.len() ==> exists|i: int|
                0 <= i < nodes@.len() && #[trigger] path@[k] == nodes@[i].point,
        distinct_points(path@),
{
    let ghost g_t = nodes@[current_index as int].g as int;
    let mut rev: Vec<Point> = Vec::new();
    let ghost mut idxs: Seq<int> = Seq::empty();
    let mut cur = current_index;
    loop
        invariant_except_break
            arena_links_ok(nodes@),
            current_index < nodes@.len(),
            cur < nodes@.len(),
            g_t == nodes@[current_index as int].g,
            idxs.len() == rev@.len(),
            rev@.len() == g_t - nodes@[cur as int].g,
            forall|k: int|
                0 <= k < idxs.len() ==> {
                    &&& 0 <= #[trigger] idxs[k] < nodes@.len()
                    &&& nodes@[idxs[k]].point == rev@[k]
                    &&& nodes@[idxs[k]].g == g_t - k
                },
            forall|a: int, b: int| 0 <= a < b < idxs.len() ==> idxs[b] < idxs[a],
            forall|k: int|
                0 <= k < idxs.len() - 1 ==> nodes@[#[trigger] idxs[k]].parent_index == Some(
                    idxs[k + 1] as usize,
                ),
            idxs.len() > 0 ==> idxs[0] == current_index && cur < idxs[idxs.len() - 1]
                && nodes@[idxs[idxs.len() - 1]].parent_index == Some(cur),
            idxs.len() == 0 ==> cur == current_index,
        ensures
            arena_links_ok(nodes@),
            idxs.len() >= 1,
            idxs.len() == rev@.len(),
            rev@.len() == g_t + 1,
            g_t == nodes@[current_index as int].g,
            forall|k: int|
                0 <= k < idxs.len() ==> {
                    &&& 0 <= #[trigger] idxs[k] < nodes@.len()
                    &&& nodes@[idxs[k]].point == rev@[k]
                    &&& nodes@[idxs[k]].g == g_t - k
                },
            forall|a: int, b: int| 0 <= a < b < idxs.len() ==> idxs[b] < idxs[a],
            forall|k: int|
                0 <= k < idxs.len() - 1 ==> nodes@[#[trigger] idxs[k]].parent_index == Some(
                    idxs[k + 1] as usize,
                ),
            idxs[0] == current_index,
            idxs[idxs.len() - 1] == 0,
        decreases cur,
    {
        let node = nodes[cur];
        rev.push(node.point);
        proof {
            idxs = idxs.push(cur as int);
            assert(link_ok(nodes@, cur as int));
        }
        match node.parent_index {
            Some(p) => {
                cur = p;
            },
            None => {
                proof {
                    assert(cur == 0);
                }
                break ;
            },
        }
    }
    let ghost revseq = rev@;
    proof {
        assert(revseq.len() == g_t + 1);
        assert(revseq.len() == idxs.len());
        // restated over the snapshot, so the facts survive the reversal loop
        assert(forall|k: int|
            0 <= k < idxs.len() ==> nodes@[#[trigger] idxs[k]].point == revseq[k]);
    }
    let mut path: Vec<Point> = Vec::new();
    while rev.len() > 0
        invariant
            path@.len() + rev@.len() == revseq.len(),
            rev@ == revseq.take(rev@.len() as int),
            forall|m: int|
                0 <= m < path@.len() ==> #[trigger] path@[m] == revseq[revseq.len() - 1 - m],
        decreases rev@.len(),
    {
        let p = rev.pop().unwrap();
        path.push(p);
        proof {
            assert(rev@ =~= revseq.take(rev@.len() as int));
        }
    }
    proof {
        assert(path@.len() == revseq.len());
        assert(revseq[revseq.len() - 1] == nodes@[idxs[idxs.len() - 1]].point);
        assert(path@[0] == revseq[revseq.len() - 1]);
        assert(path@[0] == nodes@[0].point);
        assert(revseq[0] == nodes@[idxs[0]].point);
        assert(path@[path@.len() - 1] == revseq[0]);
        // Adjacency of consecutive path points: consecutive entries of the
        // reversed chain are parent and child in the arena.
        assert forall|k: int| 0 <= k < path@.len() - 1 implies adjacent(
            #[trigger] path@[k],
            path@[k + 1],
        ) by {
            let a = revseq.len() - 1 - k;
            assert(link_ok(nodes@, idxs[a - 1]));
        }
        assert forall|k: int| 0 <= k < path@.len() implies exists|i: int|
            0 <= i < nodes@.len() && #[trigger] path@[k] == nodes@[i].point by {
            let a = revseq.len() - 1 - k;
            assert(path@[k] == nodes@[idxs[a]].point);
        }
        assert forall|k1: int, k2: int| 0 <= k1 < k2 < path@.len() implies path@[k1] != path@[k2] by {
            let a1 = revseq.len() - 1 - k1;
            let a2 = revseq.len() - 1 - k2;
            assert(idxs[a1] < idxs[a2]);
            assert(nodes@[idxs[a1]].g == g_t - a1);
            assert(nodes@[idxs[a2]].g == g_t - a2);
        }
    }
    path
}

/// Returns the position of the open-list entry that the search must expand
/// next: the one with the lowest f-cost, ties going to the highest arena
/// index (the most recently created candidate).
fn find_best(open: &Vec<(i128, usize)>) -> (k: usize)
    requires
        open@.len() > 0,
    ensures
        0 <= k < open@.len(),
        forall|j: int| 0 <= j < open@.len() ==> open@[k as int].0 <= (#[trigger] open@[j]).0,
        forall|j: int|
            0 <= j < open@.len() && (#[trigger] open@[j]).0 == open@[k as int].0 ==> open@[j].1
                <= open@[k as int].1,
{
    let mut best: usize = 0;
    let mut j: usize = 1;
    while j < open.len()
        invariant
            best < j <= open@.len(),
            0 < open@.len(),
            forall|t: int| 0 <= t < j ==> open@[best as int].0 <= (#[trigger] open@[t]).0,
            forall|t: int|
                0 <= t < j && (#[trigger] open@[t]).0 == open@[best as int].0 ==> open@[t].1
                    <= open@[best as int].1,
        decreases open@.len() - j,
    {
        let cand = open[j];
        let incumbent = open[best];
        if cand.0 < incumbent.0 || (cand.0 == incumbent.0 && cand.1 > incumbent.1) {
            best = j;
        }
        j = j + 1;
    }
    best
}

/// The per-node facts the search maintains for every arena entry: its point
/// is walkable, its heuristic is the Manhattan distance to the goal, and its
/// cost from the start is below the cell count.
pub open spec fn node_wf(g: Grid, n: Node, end: Point) -> bool {
    &&& g.walkable(n.point)
    &&& n.h == spec_manhattan(n.point, end)
    &&& 0 <= n.g < g.spec_width() * g.spec_height()
}

/// Every arena entry satisfies `node_wf`.
pub open spec fn arena_wf(g: Grid, arena: Seq<Node>, end: Point) -> bool {
    forall|i: int| 0 <= i < arena.len() ==> node_wf(g, #[trigger] arena[i], end)
}

/// The best-known-cost table is sized to the grid, every recorded cost is at
/// most the cell count (the unset sentinel), and no arena entry undercuts the
/// recorded cost of its own cell.
pub open spec fn scores_wf(g: Grid, scores: Seq<usize>, arena: Seq<Node>) -> bool {
    &&& scores.len() == g.spec_width() * g.spec_height()
    &&& forall|c: int| 0 <= c < scores.len() ==> #[trigger] scores[c] <= scores.len()
    &&& forall|i: int|
        0 <= i < arena.len() ==> scores[cell_id(g, (#[trigger] arena[i]).point)] <= arena[i].g
}

/// Every open-list entry refers to an arena entry and carries that entry's
/// f-cost (g plus h).
pub open spec fn open_wf(open: Seq<(i128, usize)>, arena: Seq<Node>) -> bool {
    forall|k: int|
        0 <= k < open.len() ==> {
            &&& (#[trigger] open[k]).1 < arena.len()
            &&& open[k].0 == arena[open[k].1 as int].g + arena[open[k].1 as int].h
        }
}

/// The set of cell indices marked true in a flag vector.
pub open spec fn closed_set(flags: Seq<bool>) -> Set<int> {
    Set::new(|c: int| 0 <= c < flags.len() && flags[c])
}

/// Marking an unmarked cell grows the marked set by exactly one.
proof fn lemma_close_cell(old_flags: Seq<bool>, new_flags: Seq<bool>, c: int)
    requires
        0 <= c < old_flags.len(),
        !old_flags[c],
        new_flags == old_flags.update(c, true),
    ensures
        closed_set(new_flags).len() == closed_set(old_flags).len() + 1,
        closed_set(new_flags).len() <= new_flags.len(),
        closed_set(new_flags) == closed_set(old_flags).insert(c),
{
    vstd::set_lib::lemma_int_range(0, old_flags.len() as int);
    vstd::set_lib::lemma_len_subset(
        closed_set(old_flags),
        vstd::set_lib::set_int_range(0, old_flags.len() as int),
    );
    assert(closed_set(new_flags) =~= closed_set(old_flags).insert(c));
    vstd::set::axiom_set_insert_len(closed_set(old_flags), c);
    vstd::set_lib::lemma_len_subset(
        closed_set(new_flags),
        vstd::set_lib::set_int_range(0, new_flags.len() as int),
    );
}

/// The marked set of a flag vector is never larger than the vector.
proof fn lemma_closed_set_bound(flags: Seq<bool>)
    ensures
        closed_set(flags).len() <= flags.len(),
        closed_set(flags).finite(),
{
    vstd::set_lib::lemma_int_range(0, flags.len() as int);
    vstd::set_lib::lemma_len_subset(
        closed_set(flags),
        vstd::set_lib::set_int_range(0, flags.len() as int),
    );
}

/// There is a walk of exactly `s` steps from `start` to `p`, and none
/// shorter: `s` is the true shortest walkable distance from `start` to `p`.
#[verifier::opaque]
pub open spec fn min_dist(g: Grid, start: Point, p: Point, s: int) -> bool {
    &&& exists|q: Seq<Point>| path_between(g, q, start, p) && q.len() == s + 1
    &&& forall|q: Seq<Point>| path_between(g, q, start, p) ==> q.len() >= s + 1
}

/// Every finalized cell's recorded cost is the true shortest distance from
/// the start.
#[verifier::opaque]
spec fn closed_opt(g: Grid, start: Point, scores: Seq<usize>, closed: Seq<bool>) -> bool {
    forall|p: Point| #![trigger g.walkable(p)]
        g.walkable(p) && closed[cell_id(g, p)] ==> min_dist(
            g,
            start,
            p,
            scores[cell_id(g, p)] as int,
        )
}

/// Every walkable neighbour of a finalized cell has a recorded cost at most
/// one step worse than the finalized cell's, except possibly the neighbours
/// of `skip` (the cell whose neighbours are still being relaxed).
#[verifier::opaque]
spec fn closed_edge_except(g: Grid, scores: Seq<usize>, closed: Seq<bool>, skip: Point) -> bool {
    forall|p: Point, z: Point| #![trigger g.walkable(p), g.walkable(z)]
        g.walkable(p) && g.walkable(z) && closed[cell_id(g, p)] && adjacent(p, z) && p != skip
            ==> scores[cell_id(g, z)] <= scores[cell_id(g, p)] + 1
}

/// Every walkable neighbour of a finalized cell has a recorded cost at most
/// one step worse than the finalized cell's.
#[verifier::opaque]
spec fn closed_edge(g: Grid, scores: Seq<usize>, closed: Seq<bool>) -> bool {
    forall|p: Point, z: Point| #![trigger g.walkable(p), g.walkable(z)]
        g.walkable(p) && g.walkable(z) && closed[cell_id(g, p)] && adjacent(p, z) ==> scores[cell_id(
            g,
            z,
        )] <= scores[cell_id(g, p)] + 1
}

/// Every unfinalized cell with a recorded cost has an open-list entry whose
/// node sits on that cell and carries exactly the recorded cost.
#[verifier::opaque]
spec fn open_covers(
    g: Grid,
    scores: Seq<usize>,
    closed: Seq<bool>,
    open: Seq<(i128, usize)>,
    arena: Seq<Node>,
) -> bool {
    forall|p: Point| #![trigger g.walkable(p)]
        g.walkable(p) && !closed[cell_id(g, p)] && scores[cell_id(g, p)] < scores.len()
            ==> exists|t: int|
            0 <= t < open.len() && arena[(#[trigger] open[t]).1 as int].point == p
                && arena[open[t].1 as int].g == scores[cell_id(g, p)]
}

/// A prefix of a walk is a walk to the prefix's last point.
proof fn lemma_path_prefix(g: Grid, q: Seq<Point>, a: Point, b: Point, m: int)
    requires
        path_between(g, q, a, b),
        0 <= m < q.len(),
    ensures
        path_between(g, q.take(m + 1), a, q[m]),
{
    let qq = q.take(m + 1);
    assert forall|i: int| 0 <= i < qq.len() implies g.walkable(#[trigger] qq[i]) by {
        assert(qq[i] == q[i]);
    }
    assert forall|i: int| 0 <= i < qq.len() - 1 implies adjacent(#[trigger] qq[i], qq[i + 1]) by {
        assert(qq[i] == q[i] && qq[i + 1] == q[i + 1]);
    }
}

/// A walk extended by one adjacent walkable point is a walk to that point.
proof fn lemma_path_extend(g: Grid, q: Seq<Point>, a: Point, b: Point, z: Point)
    requires
        path_between(g, q, a, b),
        g.walkable(z),
        adjacent(b, z),
    ensures
        path_between(g, q.push(z), a, z),
{
    let qq = q.push(z);
    assert forall|i: int| 0 <= i < qq.len() implies g.walkable(#[trigger] qq[i]) by {
        if i < q.len() {
            assert(qq[i] == q[i]);
        }
    }
    assert forall|i: int| 0 <= i < qq.len() - 1 implies adjacent(#[trigger] qq[i], qq[i + 1]) by {
        if i < q.len() - 1 {
            assert(qq[i] == q[i] && qq[i + 1] == q[i + 1]);
        } else {
            assert(qq[i] == b && qq[i + 1] == z);
        }
    }
}

/// The Manhattan heuristic is consistent: along a walk it changes by at most
/// one per step, so it can drop by at most `l - m` between positions `m` and
/// `l`.
proof fn lemma_manhattan_consistent(q: Seq<Point>, z: Point, m: int, l: int)
    requires
        forall|i: int| 0 <= i < q.len() - 1 ==> adjacent(#[trigger] q[i], q[i + 1]),
        0 <= m <= l < q.len(),
    ensures
        spec_manhattan(q[m], z) <= (l - m) + spec_manhattan(q[l], z),
    decreases l - m,
{
    if m < l {
        lemma_manhattan_consistent(q, z, m + 1, l);
        assert(adjacent(q[m], q[m + 1]));
        assert(spec_manhattan(q[m], z) <= 1 + spec_manhattan(q[m + 1], z));
    }
}

/// Any walk can be shortened to a walk without repeated points between the
/// same endpoints.
#[verifier::rlimit(50)]
proof fn lemma_path_dedup(g: Grid, q: Seq<Point>, a: Point, b: Point) -> (qd: Seq<Point>)
    requires
        path_between(g, q, a, b),
    ensures
        path_between(g, qd, a, b),
        distinct_points(qd),
        qd.len() <= q.len(),
    decreases q.len(),
{
    if distinct_points(q) {
        q
    } else {
        let (i, j) = choose|i: int, j: int| 0 <= i < j < q.len() && q[i] == q[j];
        let q2 = q.take(i + 1) + q.skip(j + 1);
        assert(q2.len() == q.len() - (j - i));
        assert(q2[0] == q[0]);
        if j + 1 < q.len() {
            assert(q2[q2.len() - 1] == q[q.len() - 1]);
        } else {
            assert(q2[q2.len() - 1] == q[i]);
        }
        assert forall|t: int| 0 <= t < q2.len() implies g.walkable(#[trigger] q2[t]) by {
            if t <= i {
                assert(q2[t] == q[t]);
            } else {
                assert(q2[t] == q[t + (j - i)]);
            }
        }
        assert forall|t: int| 0 <= t < q2.len() - 1 implies adjacent(#[trigger] q2[t], q2[t + 1]) by {
            if t < i {
                assert(q2[t] == q[t] && q2[t + 1] == q[t + 1]);
            } else if t == i {
                assert(q2[t] == q[i] && q2[t + 1] == q[j + 1]);
                assert(adjacent(q[j], q[j + 1]));
            } else {
                assert(q2[t] == q[t + (j - i)] && q2[t + 1] == q[t + 1 + (j - i)]);
            }
        }
        lemma_path_dedup(g, q2, a, b)
    }
}

/// A walk without repeated points visits distinct cells, so it can have at
/// most as many points as the grid has cells.
proof fn lemma_distinct_path_len(g: Grid, q: Seq<Point>)
    requires
        g.wf(),
        forall|i: int| 0 <= i < q.len() ==> g.walkable(#[trigger] q[i]),
        distinct_points(q),
    ensures
        q.len() <= g.spec_width() * g.spec_height(),
{
    let cap = g.spec_width() * g.spec_height();
    let cells = Seq::new(q.len(), |i: int| cell_id(g, q[i]));
    assert forall|i: int, j: int| 0 <= i < j < cells.len() implies cells[i] != cells[j] by {
        if cells[i] == cells[j] {
            g.lemma_index_injective(q[i].x as int, q[i].y as int, q[j].x as int, q[j].y as int);
        }
    }
    cells.unique_seq_to_set();
    assert forall|c: int| cells.to_set().contains(c) implies vstd::set_lib::set_int_range(
        0,
        cap,
    ).contains(c) by {
        let i = choose|i: int| 0 <= i < cells.len() && cells[i] == c;
        g.lemma_index_bounds(q[i].x as int, q[i].y as int);
    }
    vstd::set_lib::lemma_int_range(0, cap);
    vstd::set_lib::lemma_len_subset(cells.to_set(), vstd::set_lib::set_int_range(0, cap));
}

/// Walking the parent links from arena entry `i` yields a walk from the
/// start to that entry's point whose length is the entry's cost, together
/// with the strictly increasing arena indices it passes through.
proof fn lemma_chain_path(g: Grid, arena: Seq<Node>, start: Point, end: Point, i: int) -> (r: (
    Seq<Point>,
    Seq<int>,
))
    requires
        arena_links_ok(arena),
        arena_wf(g, arena, end),
        arena[0].point == start,
        0 <= i < arena.len(),
    ensures
        path_between(g, r.0, start, arena[i].point),
        r.0.len() == arena[i].g + 1,
        r.1.len() == r.0.len(),
        forall|k: int|
            0 <= k < r.1.len() ==> {
                &&& 0 <= #[trigger] r.1[k] <= i
                &&& arena[r.1[k]].point == r.0[k]
                &&& arena[r.1[k]].g == k
            },
        r.1[r.1.len() - 1] == i,
    decreases i,
{
    assert(link_ok(arena, i));
    assert(node_wf(g, arena[i], end));
    match arena[i].parent_index {
        None => {
            let qq = seq![arena[i].point];
            let tt = seq![0int];
            assert(path_between(g, qq, start, arena[i].point));
            (qq, tt)
        },
        Some(j) => {
            let r0 = lemma_chain_path(g, arena, start, end, j as int);
            let qq = r0.0.push(arena[i].point);
            let tt = r0.1.push(i);
            lemma_path_extend(g, r0.0, start, arena[j as int].point, arena[i].point);
            assert forall|k: int| 0 <= k < tt.len() implies {
                &&& 0 <= #[trigger] tt[k] <= i
                &&& arena[tt[k]].point == qq[k]
                &&& arena[tt[k]].g == k
            } by {
                if k < tt.len() - 1 {
                    assert(tt[k] == r0.1[k] && qq[k] == r0.0[k]);
                }
            }
            (qq, tt)
        },
    }
}

/// The position of the first unfinalized point on a walk whose last point is
/// unfinalized.
proof fn find_first_unclosed(g: Grid, closed: Seq<bool>, q: Seq<Point>, lo: int) -> (m: int)
    requires
        g.wf(),
        closed.len() == g.spec_width() * g.spec_height(),
        forall|i: int| 0 <= i < q.len() ==> g.walkable(#[trigger] q[i]),
        0 <= lo < q.len(),
        !closed[cell_id(g, q[q.len() - 1])],
        forall|j: int| 0 <= j < lo ==> closed[cell_id(g, #[trigger] q[j])],
    ensures
        lo <= m < q.len(),
        !closed[cell_id(g, q[m])],
        forall|j: int| 0 <= j < m ==> closed[cell_id(g, #[trigger] q[j])],
    decreases q.len() - lo,
{
    if !closed[cell_id(g, q[lo])] {
        lo
    } else {
        assert(lo < q.len() - 1);
        find_first_unclosed(g, closed, q, lo + 1)
    }
}

/// On any walk from the start to an unfinalized point, the first
/// unfinalized point already has a recorded cost no larger than its position
/// on the walk.
proof fn lemma_first_unclosed_score(
    g: Grid,
    start: Point,
    scores: Seq<usize>,
    closed: Seq<bool>,
    q: Seq<Point>,
    b: Point,
) -> (m: int)
    requires
        g.wf(),
        closed.len() == g.spec_width() * g.spec_height(),
        scores.len() == closed.len(),
        scores[cell_id(g, start)] == 0,
        closed_opt(g, start, scores, closed),
        closed_edge(g, scores, closed),
        path_between(g, q, start, b),
        !closed[cell_id(g, b)],
    ensures
        0 <= m < q.len(),
        !closed[cell_id(g, q[m])],
        g.walkable(q[m]),
        scores[cell_id(g, q[m])] <= m,
    decreases q.len(),
{
    reveal(min_dist);
    reveal(closed_opt);
    reveal(closed_edge);
    let m = find_first_unclosed(g, closed, q, 0);
    if m == 0 {
        assert(q[0] == start);
    } else {
        let pm1 = q[m - 1];
        assert(g.walkable(pm1));
        assert(g.walkable(q[m]));
        lemma_path_prefix(g, q, start, b, m - 1);
        assert(q.take(m).len() == m);
        assert(scores[cell_id(g, pm1)] + 1 <= m);
        assert(adjacent(pm1, q[m]));
        assert(scores[cell_id(g, q[m])] <= scores[cell_id(g, pm1)] + 1);
    }
    m
}

/// When the open list's best entry sits on an unfinalized cell, its cost is
/// optimal: no walk from the start to that cell is shorter. This is the key
/// consequence of the Manhattan heuristic's consistency.
#[verifier::rlimit(50)]
proof fn lemma_pop_optimal(
    g: Grid,
    start: Point,
    end: Point,
    arena: Seq<Node>,
    scores: Seq<usize>,
    closed: Seq<bool>,
    open: Seq<(i128, usize)>,
    k: int,
    q: Seq<Point>,
)
    requires
        g.wf(),
        g.walkable(start),
        arena_links_ok(arena),
        arena[0].point == start,
        arena_wf(g, arena, end),
        scores_wf(g, scores, arena),
        open_wf(open, arena),
        closed.len() == g.spec_width() * g.spec_height(),
        closed_opt(g, start, scores, closed),
        closed_edge(g, scores, closed),
        open_covers(g, scores, closed, open, arena),
        0 <= k < open.len(),
        forall|j: int| 0 <= j < open.len() ==> open[k].0 <= (#[trigger] open[j]).0,
        !closed[cell_id(g, arena[open[k].1 as int].point)],
        path_between(g, q, start, arena[open[k].1 as int].point),
    ensures
        arena[open[k].1 as int].g + 1 <= q.len(),
{
    reveal(open_covers);
    let cap = g.spec_width() * g.spec_height();
    let i = open[k].1 as int;
    let node = arena[i];
    let p = node.point;
    assert(node_wf(g, node, end));
    assert(scores[cell_id(g, arena[0].point)] <= arena[0].g);
    let m = lemma_first_unclosed_score(g, start, scores, closed, q, p);
    if m >= cap {
        assert(node.g < cap);
    } else {
        assert(scores[cell_id(g, q[m])] < scores.len());
        let t = choose|t: int|
            0 <= t < open.len() && arena[(#[trigger] open[t]).1 as int].point == q[m]
                && arena[open[t].1 as int].g == scores[cell_id(g, q[m])];
        assert(open[k].0 <= open[t].0);
        assert(node_wf(g, arena[open[t].1 as int], end));
        lemma_manhattan_consistent(q, end, m, q.len() - 1);
        assert(node.g + spec_manhattan(p, end) <= scores[cell_id(g, q[m])] + spec_manhattan(
            q[m],
            end,
        ));
        assert(spec_manhattan(q[m], end) <= (q.len() - 1 - m) + spec_manhattan(p, end));
    }
}

/// While some walkable walk still leads from the start to an unfinalized
/// point, the open list cannot be empty: the search never gives up while a
/// path remains reachable.
proof fn lemma_frontier_nonempty(
    g: Grid,
    start: Point,
    end: Point,
    arena: Seq<Node>,
    scores: Seq<usize>,
    closed: Seq<bool>,
    open: Seq<(i128, usize)>,
    b: Point,
    q: Seq<Point>,
)
    requires
        g.wf(),
        g.walkable(start),
        arena_links_ok(arena),
        arena[0].point == start,
        arena_wf(g, arena, end),
        scores_wf(g, scores, arena),
        closed.len() == g.spec_width() * g.spec_height(),
        closed_opt(g, start, scores, closed),
        closed_edge(g, scores, closed),
        open_covers(g, scores, closed, open, arena),
        path_between(g, q, start, b),
        !closed[cell_id(g, b)],
        q.len() <= g.spec_width() * g.spec_height(),
    ensures
        open.len() > 0,
{
    reveal(open_covers);
    assert(scores[cell_id(g, arena[0].point)] <= arena[0].g);
    let m = lemma_first_unclosed_score(g, start, scores, closed, q, b);
    assert(scores[cell_id(g, q[m])] <= m < q.len() <= scores.len());
    let t = choose|t: int|
        0 <= t < open.len() && arena[(#[trigger] open[t]).1 as int].point == q[m]
            && arena[open[t].1 as int].g == scores[cell_id(g, q[m])];
    assert(0 <= t < open.len());
}

/// Finalizing the cell of a point whose recorded cost is its true shortest
/// distance keeps every finalized cost optimal, every finalized-to-neighbour
/// cost bound except possibly around the point itself, and the goal cell
/// unfinalized.
proof fn lemma_after_close(
    g: Grid,
    start: Point,
    end: Point,
    scores: Seq<usize>,
    pre_closed: Seq<bool>,
    closed: Seq<bool>,
    cp: Point,
)
    requires
        g.wf(),
        g.walkable(cp),
        g.walkable(end),
        end != cp,
        scores.len() == g.spec_width() * g.spec_height(),
        pre_closed.len() == scores.len(),
        closed == pre_closed.update(cell_id(g, cp), true),
        closed_opt(g, start, scores, pre_closed),
        closed_edge(g, scores, pre_closed),
        !pre_closed[cell_id(g, end)],
        min_dist(g, start, cp, scores[cell_id(g, cp)] as int),
    ensures
        closed_opt(g, start, scores, closed),
        closed_edge_except(g, scores, closed, cp),
        !closed[cell_id(g, end)],
{
    reveal(closed_opt);
    reveal(closed_edge);
    reveal(closed_edge_except);
    let ccell = cell_id(g, cp);
    g.lemma_index_bounds(cp.x as int, cp.y as int);
    g.lemma_index_bounds(end.x as int, end.y as int);
    assert(cell_id(g, end) != ccell) by {
        if cell_id(g, end) == ccell {
            g.lemma_index_injective(end.x as int, end.y as int, cp.x as int, cp.y as int);
        }
    }
    assert forall|pp: Point| g.walkable(pp) && closed[cell_id(g, pp)] implies min_dist(
        g,
        start,
        pp,
        scores[cell_id(g, pp)] as int,
    ) by {
        g.lemma_index_bounds(pp.x as int, pp.y as int);
        if cell_id(g, pp) == ccell {
            g.lemma_index_injective(pp.x as int, pp.y as int, cp.x as int, cp.y as int);
            assert(pp == cp);
        } else {
            assert(pre_closed[cell_id(g, pp)]);
        }
    }
    assert forall|pp: Point, zz: Point|
        g.walkable(pp) && g.walkable(zz) && closed[cell_id(g, pp)] && adjacent(pp, zz) && pp
            != cp implies scores[cell_id(g, zz)] <= scores[cell_id(g, pp)] + 1 by {
        g.lemma_index_bounds(pp.x as int, pp.y as int);
        if cell_id(g, pp) == ccell {
            g.lemma_index_injective(pp.x as int, pp.y as int, cp.x as int, cp.y as int);
            assert(false);
        } else {
            assert(pre_closed[cell_id(g, pp)]);
        }
    }
}

/// Coverage of the unfinalized cells survives finalizing a cell: the set of
/// cells that need an open-list witness only shrinks.
proof fn lemma_covers_shrink(
    g: Grid,
    scores: Seq<usize>,
    pre_closed: Seq<bool>,
    closed: Seq<bool>,
    open: Seq<(i128, usize)>,
    arena: Seq<Node>,
    cp: Point,
)
    requires
        g.wf(),
        g.walkable(cp),
        scores.len() == g.spec_width() * g.spec_height(),
        pre_closed.len() == scores.len(),
        closed == pre_closed.update(cell_id(g, cp), true),
        open_covers(g, scores, pre_closed, open, arena),
    ensures
        open_covers(g, scores, closed, open, arena),
{
    reveal(open_covers);
    g.lemma_index_bounds(cp.x as int, cp.y as int);
    assert forall|pp: Point|
        g.walkable(pp) && !closed[cell_id(g, pp)] && scores[cell_id(g, pp)]
            < scores.len() implies exists|t: int|
        0 <= t < open.len() && arena[(#[trigger] open[t]).1 as int].point == pp
            && arena[open[t].1 as int].g == scores[cell_id(g, pp)] by {
        g.lemma_index_bounds(pp.x as int, pp.y as int);
        assert(!pre_closed[cell_id(g, pp)]);
    }
}

/// Coverage of the unfinalized cells survives taking an entry whose point
/// sits on a finalized cell out of the open list: such an entry witnesses no
/// unfinalized cell, and every other entry stays.
proof fn lemma_covers_remove(
    g: Grid,
    scores: Seq<usize>,
    closed: Seq<bool>,
    pre_open: Seq<(i128, usize)>,
    open: Seq<(i128, usize)>,
    arena: Seq<Node>,
    k: int,
    cp: Point,
)
    requires
        g.wf(),
        g.walkable(cp),
        scores.len() == g.spec_width() * g.spec_height(),
        closed.len() == scores.len(),
        open_covers(g, scores, closed, pre_open, arena),
        closed[cell_id(g, cp)],
        0 <= k < pre_open.len(),
        open == pre_open.remove(k),
        pre_open[k].1 < arena.len(),
        arena[pre_open[k].1 as int].point == cp,
    ensures
        open_covers(g, scores, closed, open, arena),
{
    reveal(open_covers);
    g.lemma_index_bounds(cp.x as int, cp.y as int);
    assert forall|pp: Point|
        g.walkable(pp) && !closed[cell_id(g, pp)] && scores[cell_id(g, pp)]
            < scores.len() implies exists|t: int|
        0 <= t < open.len() && arena[(#[trigger] open[t]).1 as int].point == pp
            && arena[open[t].1 as int].g == scores[cell_id(g, pp)] by {
        g.lemma_index_bounds(pp.x as int, pp.y as int);
        let t0 = choose|t0: int|
            0 <= t0 < pre_open.len() && arena[(#[trigger] pre_open[t0]).1 as int].point == pp
                && arena[pre_open[t0].1 as int].g == scores[cell_id(g, pp)];
        if t0 == k {
            assert(cell_id(g, pp) == cell_id(g, cp));
            assert(false);
        } else if t0 < k {
            assert(open[t0] == pre_open[t0]);
        } else {
            assert(open[t0 - 1] == pre_open[t0]);
        }
    }
}

/// A path that no other path undercuts realizes the true shortest walkable
/// distance between its endpoints: the length returned by the search is that
/// distance, one more than the number of steps.
pub proof fn lemma_shortest_length(g: Grid, start: Point, end: Point, p: Seq<Point>)
    requires
        path_between(g, p, start, end),
        forall|q: Seq<Point>| path_between(g, q, start, end) ==> p.len() <= q.len(),
    ensures
        min_dist(g, start, end, p.len() - 1),
{
    reveal(min_dist);
}

/// When the two endpoints differ and every point adjacent to `end` is
/// unwalkable (blocked or out of bounds), no walk reaches `end`: a grid with
/// `end` walled in admits no path.
pub proof fn lemma_end_surrounded(g: Grid, start: Point, end: Point, q: Seq<Point>)
    requires
        start != end,
        forall|p: Point| adjacent(p, end) ==> !g.walkable(p),
    ensures
        !path_between(g, q, start, end),
{
    if path_between(g, q, start, end) {
        if q.len() == 1 {
            assert(q[0] == start && q[0] == end);
        } else {
            let pen = q[q.len() - 2];
            assert(adjacent(pen, q[q.len() - 1]));
            assert(g.walkable(pen));
        }
    }
}

/// Attempts to find the shortest path from `start` to `end` using the A*
/// algorithm. Returns `None` if no path is found.
///
/// A path exists exactly when `Some` is returned; the returned path runs from
/// `start` to `end` over walkable cells in unit orthogonal steps, repeats no
/// point, and no walkable walk between the two endpoints is shorter.
#[verifier::rlimit(100)]
pub fn astar(grid: &Grid, start: Point, end: Point) -> (r: Option<Vec<Point>>)
    requires
        grid.wf(),
    ensures
        (r is Some) <==> exists|q: Seq<Point>| path_between(*grid, q, start, end),
        r matches Some(p) ==> {
            &&& path_between(*grid, p@, start, end)
            &&& distinct_points(p@)
            &&& forall|q: Seq<Point>| path_between(*grid, q, start, end) ==> p@.len() <= q.len()
        },
        !(grid.walkable(start) && grid.walkable(end)) ==> r is None,
        grid.walkable(start) && start == end ==> (r matches Some(p) && p@ == seq![start]),
{
    if !grid.is_walkable(start) || !grid.is_walkable(end) {
        proof {
            assert forall|q: Seq<Point>| !path_between(*grid, q, start, end) by {
                if path_between(*grid, q, start, end) {
                    assert(grid.walkable(q[0]));
                    assert(grid.walkable(q[q.len() - 1]));
                }
            }
        }
        return None;
    }
    if start == end {
        let mut single: Vec<Point> = Vec::new();
        single.push(start);
        proof {
            assert(single@ =~= seq![start]);
            assert(path_between(*grid, single@, start, end));
        }
        return Some(single);
    }
    let width = grid.width();
    let height = grid.height();
    let capacity = width * height;

    let mut open_nodes: Vec<(i128, usize)> = Vec::new();
    let mut closed_nodes: Vec<bool> = filled(capacity, false);
    let mut g_scores: Vec<usize> = filled(capacity, capacity);
    let mut all_nodes: Vec<Node> = Vec::new();

    proof {
        lemma_manhattan_bound(*grid, start, end);
    }
    let h0 = manhattan_distance(&start, &end);
    let start_node = Node { point: start, g: 0, h: h0, parent_index: None };

    proof {
        grid.lemma_index_bounds(start.x as int, start.y as int);
    }
    let start_index = point_to_index(start, width);
    g_scores[start_index] = 0;
    all_nodes.push(start_node);
    open_nodes.push((h0 as i128, 0));

    proof {
        lemma_closed_set_bound(closed_nodes@);
        reveal(closed_opt);
        reveal(closed_edge);
        reveal(open_covers);
        assert forall|p: Point| grid.walkable(p) implies !closed_nodes@[cell_id(*grid, p)] by {
            grid.lemma_index_bounds(p.x as int, p.y as int);
        }
        assert(closed_opt(*grid, start, g_scores@, closed_nodes@));
        assert(closed_edge(*grid, g_scores@, closed_nodes@));
        assert(!closed_nodes@[cell_id(*grid, end)]);
        assert forall|p: Point|
            grid.walkable(p) && !closed_nodes@[cell_id(*grid, p)] && g_scores@[cell_id(*grid, p)]
                < g_scores@.len() implies exists|t: int|
            0 <= t < open_nodes@.len() && all_nodes@[(#[trigger] open_nodes@[t]).1 as int].point
                == p && all_nodes@[open_nodes@[t].1 as int].g == g_scores@[cell_id(*grid, p)] by {
            grid.lemma_index_bounds(p.x as int, p.y as int);
            if cell_id(*grid, p) == cell_id(*grid, start) {
                grid.lemma_index_injective(
                    p.x as int,
                    p.y as int,
                    start.x as int,
                    start.y as int,
                );
                assert((#[trigger] open_nodes@[0]).1 == 0);
                assert(all_nodes@[0].point == p);
                assert(all_nodes@[0].g == g_scores@[cell_id(*grid, p)]);
            } else {
                assert(g_scores@[cell_id(*grid, p)] == capacity);
            }
        }
        assert(open_covers(*grid, g_scores@, closed_nodes@, open_nodes@, all_nodes@));
    }

    while open_nodes.len() > 0
        invariant
            grid.wf(),
            grid.walkable(start),
            grid.walkable(end),
            width == grid.spec_width(),
            height == grid.spec_height(),
            capacity == grid.spec_width() * grid.spec_height(),
            closed_nodes@.len() == capacity,
            g_scores@.len() == capacity,
            closed_set(closed_nodes@).len() <= capacity,
            arena_links_ok(all_nodes@),
            all_nodes@[0].point == start,
            arena_wf(*grid, all_nodes@, end),
            scores_wf(*grid, g_scores@, all_nodes@),
            open_wf(open_nodes@, all_nodes@),
            closed_opt(*grid, start, g_scores@, closed_nodes@),
            closed_edge(*grid, g_scores@, closed_nodes@),
            open_covers(*grid, g_scores@, closed_nodes@, open_nodes@, all_nodes@),
            !closed_nodes@[cell_id(*grid, end)],
        decreases capacity - closed_set(closed_nodes@).len(), open_nodes@.len(),
    {
        let k = find_best(&open_nodes);
        let ghost pre_open = open_nodes@;
        let entry = open_nodes.remove(k);
        proof {
            assert((#[trigger] pre_open[k as int]).1 < all_nodes@.len());
            assert forall|k2: int| 0 <= k2 < open_nodes@.len() implies {
                &&& (#[trigger] open_nodes@[k2]).1 < all_nodes@.len()
                &&& open_nodes@[k2].0 == all_nodes@[open_nodes@[k2].1 as int].g
                    + all_nodes@[open_nodes@[k2].1 as int].h
            } by {
                if k2 < k {
                    assert(open_nodes@[k2] == pre_open[k2]);
                } else {
                    assert(open_nodes@[k2] == pre_open[k2 + 1]);
                }
            }
        }
        let current_index = entry.1;
        let current = all_nodes[current_index];

        if current.point == end {
            proof {
                assert(pre_open[k as int].1 == current_index);
                assert forall|q: Seq<Point>|
                    path_between(*grid, q, start, end) implies current.g + 1 <= q.len() by {
                    lemma_pop_optimal(
                        *grid,
                        start,
                        end,
                        all_nodes@,
                        g_scores@,
                        closed_nodes@,
                        pre_open,
                        k as int,
                        q,
                    );
                }
            }
            let path = retrace_path(&all_nodes, current_index);
            proof {
                assert forall|kk: int| 0 <= kk < path@.len() implies grid.walkable(
                    #[trigger] path@[kk],
                ) by {
                    let ii = choose|ii: int|
                        0 <= ii < all_nodes@.len() && path@[kk] == all_nodes@[ii].point;
                    assert(node_wf(*grid, all_nodes@[ii], end));
                }
                assert(path_between(*grid, path@, start, end));
            }
            return Some(path);
        }
        proof {
            grid.lemma_index_bounds(current.point.x as int, current.point.y as int);
        }
        let current_point_index = point_to_index(current.point, width);
        if !closed_nodes[current_point_index] {
            proof {
                reveal(open_covers);
                let ccell = cell_id(*grid, current.point);
                assert(node_wf(*grid, all_nodes@[current_index as int], end));
                assert(g_scores@[ccell] <= current.g);
                assert(g_scores@[ccell] < g_scores@.len());
                let t = choose|t: int|
                    0 <= t < pre_open.len() && all_nodes@[(#[trigger] pre_open[t]).1 as int].point
                        == current.point && all_nodes@[pre_open[t].1 as int].g == g_scores@[ccell];
                assert(pre_open[k as int].0 <= pre_open[t].0);
                assert(node_wf(*grid, all_nodes@[pre_open[t].1 as int], end));
                assert(current.g <= all_nodes@[pre_open[t].1 as int].g);
                assert(g_scores@[ccell] == current.g);
                assert forall|q: Seq<Point>|
                    path_between(*grid, q, start, current.point) implies q.len() >= current.g
                    + 1 by {
                    lemma_pop_optimal(
                        *grid,
                        start,
                        end,
                        all_nodes@,
                        g_scores@,
                        closed_nodes@,
                        pre_open,
                        k as int,
                        q,
                    );
                }
                let rr = lemma_chain_path(*grid, all_nodes@, start, end, current_index as int);
                assert(path_between(*grid, rr.0, start, current.point) && rr.0.len() == current.g
                    + 1);
                reveal(min_dist);
                assert(min_dist(*grid, start, current.point, current.g as int));
                assert(min_dist(
                    *grid,
                    start,
                    current.point,
                    g_scores@[cell_id(*grid, current.point)] as int,
                ));
            }
            let ghost pre_closed = closed_nodes@;
            closed_nodes[current_point_index] = true;
            proof {
                lemma_close_cell(pre_closed, closed_nodes@, current_point_index as int);
                assert(closed_nodes@ == pre_closed.update(cell_id(*grid, current.point), true));
                lemma_after_close(
                    *grid,
                    start,
                    end,
                    g_scores@,
                    pre_closed,
                    closed_nodes@,
                    current.point,
                );
                lemma_covers_shrink(
                    *grid,
                    g_scores@,
                    pre_closed,
                    closed_nodes@,
                    pre_open,
                    all_nodes@,
                    current.point,
                );
                assert(pre_open[k as int].1 == current_index);
                lemma_covers_remove(
                    *grid,
                    g_scores@,
                    closed_nodes@,
                    pre_open,
                    open_nodes@,
                    all_nodes@,
                    k as int,
                    current.point,
                );
            }
            let current_g = current.g;
            proof {
                lemma_neighbors_sound(*grid, current.point);
                lemma_walkable_coords(*grid, current.point);
            }
            let neighbor_points = get_neighbor_points(grid, current.point);
            let mut ni: usize = 0;
            while ni < neighbor_points.len()
                invariant
                    grid.wf(),
                    grid.walkable(start),
                    grid.walkable(end),
                    grid.walkable(current.point),
                    width == grid.spec_width(),
                    height == grid.spec_height(),
                    capacity == grid.spec_width() * grid.spec_height(),
                    closed_nodes@.len() == capacity,
                    g_scores@.len() == capacity,
                    ni <= neighbor_points@.len(),
                    neighbor_points@ == neighbors_of(*grid, current.point),
                    arena_links_ok(all_nodes@),
                    all_nodes@[0].point == start,
                    arena_wf(*grid, all_nodes@, end),
                    scores_wf(*grid, g_scores@, all_nodes@),
                    open_wf(open_nodes@, all_nodes@),
                    current_index < all_nodes@.len(),
                    all_nodes@[current_index as int] == current,
                    current_g == current.g,
                    node_wf(*grid, current, end),
                    closed_opt(*grid, start, g_scores@, closed_nodes@),
                    closed_edge_except(*grid, g_scores@, closed_nodes@, current.point),
                    open_covers(*grid, g_scores@, closed_nodes@, open_nodes@, all_nodes@),
                    !closed_nodes@[cell_id(*grid, end)],
                    closed_nodes@[cell_id(*grid, current.point)],
                    g_scores@[cell_id(*grid, current.point)] == current.g,
                    forall|t: int|
                        0 <= t < ni ==> closed_nodes@[cell_id(
                            *grid,
                            #[trigger] neighbor_points@[t],
                        )] || g_scores@[cell_id(*grid, neighbor_points@[t])] <= current.g + 1,
                decreases neighbor_points@.len() - ni,
            {
                let neighbor_point = neighbor_points[ni];
                proof {
                    lemma_neighbors_sound(*grid, current.point);
                    assert(grid.walkable(neighbor_point) && adjacent(current.point, neighbor_point));
                    grid.lemma_index_bounds(neighbor_point.x as int, neighbor_point.y as int);
                }
                let neighbor_index = point_to_index(neighbor_point, width);
                if !closed_nodes[neighbor_index] {
                    let tentative_g = current_g + 1;
                    if (tentative_g as usize) < g_scores[neighbor_index] {
                        proof {
                            lemma_manhattan_bound(*grid, neighbor_point, end);
                        }
                        let h = manhattan_distance(&neighbor_point, &end);
                        let f = tentative_g as i128 + h as i128;
                        let neighbor = Node {
                            point: neighbor_point,
                            g: tentative_g,
                            h,
                            parent_index: Some(current_index),
                        };
                        let ghost pre_scores = g_scores@;
                        let ghost pre_arena = all_nodes@;
                        let ghost pre_open = open_nodes@;
                        g_scores[neighbor_index] = tentative_g as usize;
                        all_nodes.push(neighbor);
                        open_nodes.push((f, all_nodes.len() - 1));
                        proof {
                            let arena = all_nodes@;
                            let last = arena.len() - 1;
                            let ncell = cell_id(*grid, neighbor_point);
                            reveal(closed_opt);
                            reveal(closed_edge_except);
                            reveal(open_covers);
                            grid.lemma_index_bounds(
                                current.point.x as int,
                                current.point.y as int,
                            );
                            assert forall|i: int| 0 <= i < arena.len() implies #[trigger] link_ok(
                                arena,
                                i,
                            ) by {
                                if i < last {
                                    assert(link_ok(pre_arena, i));
                                    assert(arena[i] == pre_arena[i]);
                                } else {
                                    assert(arena[current_index as int] == current);
                                }
                            }
                            assert forall|i: int, j: int|
                                0 <= i < j < arena.len() && (#[trigger] arena[i]).point == (
                                #[trigger] arena[j]).point implies arena[j].g < arena[i].g by {
                                if j == last {
                                    assert(arena[i] == pre_arena[i]);
                                    assert(pre_scores[cell_id(*grid, pre_arena[i].point)]
                                        <= pre_arena[i].g);
                                    assert(arena[j].point == neighbor_point);
                                    assert(cell_id(*grid, pre_arena[i].point) == ncell);
                                    assert(arena[j].g == tentative_g < pre_scores[ncell]);
                                } else {
                                    assert(arena[i] == pre_arena[i]);
                                    assert(arena[j] == pre_arena[j]);
                                }
                            }
                            assert forall|i: int|
                                0 <= i < arena.len() implies g_scores@[cell_id(
                                *grid,
                                (#[trigger] arena[i]).point,
                            )] <= arena[i].g by {
                                let icell = cell_id(*grid, arena[i].point);
                                if i < last {
                                    assert(arena[i] == pre_arena[i]);
                                    assert(pre_scores[icell] <= pre_arena[i].g);
                                    if icell == ncell {
                                        grid.lemma_index_injective(
                                            arena[i].point.x as int,
                                            arena[i].point.y as int,
                                            neighbor_point.x as int,
                                            neighbor_point.y as int,
                                        );
                                        assert(arena[i].point == neighbor_point);
                                        assert(tentative_g < pre_scores[ncell]);
                                    } else {
                                        grid.lemma_index_bounds(
                                            arena[i].point.x as int,
                                            arena[i].point.y as int,
                                        );
                                        assert(neighbor_index == ncell);
                                        assert(g_scores@ == pre_scores.update(
                                            ncell,
                                            tentative_g as usize,
                                        ));
                                        assert(g_scores@[icell] == pre_scores[icell]);
                                    }
                                } else {
                                    assert(arena[i] == neighbor);
                                    assert(icell == ncell);
                                    assert(g_scores@[ncell] == tentative_g as usize);
                                }
                            }
                            assert forall|k2: int| 0 <= k2 < open_nodes@.len() implies {
                                &&& (#[trigger] open_nodes@[k2]).1 < arena.len()
                                &&& open_nodes@[k2].0 == arena[open_nodes@[k2].1 as int].g
                                    + arena[open_nodes@[k2].1 as int].h
                            } by {
                                if k2 < open_nodes@.len() - 1 {
                                    assert(open_nodes@[k2] == pre_open[k2]);
                                    assert(pre_open[k2].1 < pre_arena.len());
                                    assert(arena[pre_open[k2].1 as int] == pre_arena[pre_open[k2].1 as int]);
                                }
                            }
                            assert(!closed_nodes@[ncell]);
                            assert(neighbor_index == ncell);
                            assert forall|pp: Point|
                                grid.walkable(pp) && closed_nodes@[cell_id(
                                    *grid,
                                    pp,
                                )] implies min_dist(
                                *grid,
                                start,
                                pp,
                                g_scores@[cell_id(*grid, pp)] as int,
                            ) by {
                                grid.lemma_index_bounds(pp.x as int, pp.y as int);
                                assert(cell_id(*grid, pp) != ncell);
                                assert(g_scores@[cell_id(*grid, pp)] == pre_scores[cell_id(
                                    *grid,
                                    pp,
                                )]);
                            }
                            assert forall|pp: Point, zz: Point|
                                grid.walkable(pp) && grid.walkable(zz) && closed_nodes@[cell_id(
                                    *grid,
                                    pp,
                                )] && adjacent(pp, zz) && pp != current.point implies g_scores@[cell_id(
                                *grid,
                                zz,
                            )] <= g_scores@[cell_id(*grid, pp)] + 1 by {
                                grid.lemma_index_bounds(pp.x as int, pp.y as int);
                                grid.lemma_index_bounds(zz.x as int, zz.y as int);
                                assert(cell_id(*grid, pp) != ncell);
                                assert(g_scores@[cell_id(*grid, pp)] == pre_scores[cell_id(
                                    *grid,
                                    pp,
                                )]);
                                assert(pre_scores[cell_id(*grid, zz)] <= pre_scores[cell_id(
                                    *grid,
                                    pp,
                                )] + 1);
                                if cell_id(*grid, zz) == ncell {
                                    assert(g_scores@[ncell] == tentative_g as usize);
                                    assert(tentative_g < pre_scores[ncell]);
                                } else {
                                    assert(g_scores@[cell_id(*grid, zz)] == pre_scores[cell_id(
                                        *grid,
                                        zz,
                                    )]);
                                }
                            }
                            assert forall|pp: Point|
                                grid.walkable(pp) && !closed_nodes@[cell_id(*grid, pp)]
                                    && g_scores@[cell_id(*grid, pp)]
                                    < g_scores@.len() implies exists|t: int|
                                0 <= t < open_nodes@.len() && all_nodes@[(
                                #[trigger] open_nodes@[t]).1 as int].point == pp
                                    && all_nodes@[open_nodes@[t].1 as int].g == g_scores@[cell_id(
                                    *grid,
                                    pp,
                                )] by {
                                grid.lemma_index_bounds(pp.x as int, pp.y as int);
                                if cell_id(*grid, pp) == ncell {
                                    grid.lemma_index_injective(
                                        pp.x as int,
                                        pp.y as int,
                                        neighbor_point.x as int,
                                        neighbor_point.y as int,
                                    );
                                    assert(pp == neighbor_point);
                                    let tw = open_nodes@.len() - 1;
                                    assert((#[trigger] open_nodes@[tw]).1 == last);
                                    assert(all_nodes@[last].point == pp);
                                    assert(all_nodes@[last].g == g_scores@[ncell]);
                                } else {
                                    assert(g_scores@[cell_id(*grid, pp)] == pre_scores[cell_id(
                                        *grid,
                                        pp,
                                    )]);
                                    let t0 = choose|t0: int|
                                        0 <= t0 < pre_open.len() && pre_arena[(
                                        #[trigger] pre_open[t0]).1 as int].point == pp
                                            && pre_arena[pre_open[t0].1 as int].g
                                            == pre_scores[cell_id(*grid, pp)];
                                    assert(open_nodes@[t0] == pre_open[t0]);
                                    assert(all_nodes@[pre_open[t0].1 as int] == pre_arena[pre_open[t0].1 as int]);
                                }
                            }
                            assert(closed_nodes@[cell_id(*grid, current.point)]);
                            assert(cell_id(*grid, current.point) != ncell);
                            assert(g_scores@[cell_id(*grid, current.point)] == pre_scores[cell_id(
                                *grid,
                                current.point,
                            )]);
                            assert(g_scores@[cell_id(*grid, neighbor_point)] <= current.g + 1);
                            assert forall|t: int|
                                0 <= t < ni + 1 implies closed_nodes@[cell_id(
                                *grid,
                                #[trigger] neighbor_points@[t],
                            )] || g_scores@[cell_id(*grid, neighbor_points@[t])] <= current.g
                                + 1 by {
                                if t < ni {
                                    if !closed_nodes@[cell_id(*grid, neighbor_points@[t])] {
                                        assert(pre_scores[cell_id(*grid, neighbor_points@[t])]
                                            <= current.g + 1);
                                        grid.lemma_index_bounds(
                                            neighbor_points@[t].x as int,
                                            neighbor_points@[t].y as int,
                                        );
                                        if cell_id(*grid, neighbor_points@[t]) == ncell {
                                            assert(g_scores@[ncell] == tentative_g as usize);
                                        }
                                    }
                                }
                            }
                        }
                    } else {
                        proof {
                            assert(g_scores@[cell_id(*grid, neighbor_point)] <= current.g + 1);
                        }
                    }
                }
                ni = ni + 1;
            }
            proof {
                reveal(closed_opt);
                reveal(closed_edge);
                reveal(closed_edge_except);
                let cp = current.point;
                let ccell = cell_id(*grid, cp);
                assert forall|pp: Point, zz: Point|
                    grid.walkable(pp) && grid.walkable(zz) && closed_nodes@[cell_id(*grid, pp)]
                        && adjacent(pp, zz) implies g_scores@[cell_id(*grid, zz)] <= g_scores@[cell_id(
                    *grid,
                    pp,
                )] + 1 by {
                    grid.lemma_index_bounds(pp.x as int, pp.y as int);
                    grid.lemma_index_bounds(zz.x as int, zz.y as int);
                    if cell_id(*grid, pp) == ccell {
                        grid.lemma_index_injective(
                            pp.x as int,
                            pp.y as int,
                            cp.x as int,
                            cp.y as int,
                        );
                        assert(pp == cp);
                        lemma_neighbors_complete(*grid, cp, zz);
                        let t = choose|t: int|
                            0 <= t < neighbor_points@.len() && neighbor_points@[t] == zz;
                        assert(closed_nodes@[cell_id(*grid, #[trigger] neighbor_points@[t])]
                            || g_scores@[cell_id(*grid, neighbor_points@[t])] <= current.g + 1);
                        if closed_nodes@[cell_id(*grid, zz)] {
                            reveal(min_dist);
                            assert(min_dist(
                                *grid,
                                start,
                                zz,
                                g_scores@[cell_id(*grid, zz)] as int,
                            ));
                            assert(min_dist(*grid, start, cp, g_scores@[ccell] as int));
                            let qq = choose|qq: Seq<Point>|
                                path_between(*grid, qq, start, cp) && qq.len() == g_scores@[ccell]
                                    + 1;
                            lemma_path_extend(*grid, qq, start, cp, zz);
                            assert(qq.push(zz).len() == g_scores@[ccell] + 2);
                            assert(g_scores@[cell_id(*grid, zz)] + 1 <= g_scores@[ccell] + 2);
                        }
                        assert(g_scores@[ccell] == current.g);
                    }
                }
                assert(closed_edge(*grid, g_scores@, closed_nodes@));
            }
        } else {
            proof {
                assert(closed_nodes@[cell_id(*grid, current.point)]);
                assert(pre_open[k as int].1 == current_index);
                lemma_covers_remove(
                    *grid,
                    g_scores@,
                    closed_nodes@,
                    pre_open,
                    open_nodes@,
                    all_nodes@,
                    k as int,
                    current.point,
                );
            }
        }
    }
    proof {
        assert forall|q: Seq<Point>| !path_between(*grid, q, start, end) by {
            if path_between(*grid, q, start, end) {
                let qd = lemma_path_dedup(*grid, q, start, end);
                lemma_distinct_path_len(*grid, qd);
                lemma_frontier_nonempty(
                    *grid,
                    start,
                    end,
                    all_nodes@,
                    g_scores@,
                    closed_nodes@,
                    open_nodes@,
                    end,
                    qd,
                );
            }
        }
    }
    None
}

} // verus!
