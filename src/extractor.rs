use crate::union_find::{find, union, Forest};
use vstd::arithmetic::div_mod::lemma_fundamental_div_mod_converse;
use std::collections::HashMap;
use vstd::prelude::*;

verus! {

/// Every row of `m` has `w` entries.
pub open spec fn rectangular<T>(m: Seq<Vec<T>>, w: int) -> bool {
    forall|i: int| 0 <= i < m.len() ==> (#[trigger] m[i])@.len() == w
}

/// The number of entries in each row of `m` (0 when there is no row).
pub open spec fn width<T>(m: Seq<Vec<T>>) -> int {
    if m.len() > 0 {
        m[0]@.len() as int
    } else {
        0
    }
}

/// A grid of occupancy and a label array of the same shape.
pub open spec fn same_shape(grid: Seq<Vec<bool>>, id_map: Seq<Vec<usize>>) -> bool {
    &&& rectangular(grid, width(grid))
    &&& id_map.len() == grid.len()
    &&& rectangular(id_map, width(grid))
}

/// Cell `(x, y)` lies in the grid and holds a non-zero reading.
pub open spec fn occupied(grid: Seq<Vec<bool>>, x: int, y: int) -> bool {
    &&& 0 <= x < grid.len()
    &&& 0 <= y < grid[x]@.len()
    &&& grid[x]@[y]
}

/// The label already given to the occupied cell `(x, y)`, if any.
pub open spec fn label_at(grid: Seq<Vec<bool>>, id_map: Seq<Vec<usize>>, x: int, y: int) -> Option<
    usize,
> {
    if occupied(grid, x, y) && 0 <= x < id_map.len() && 0 <= y < id_map[x]@.len() && id_map[x]@[y]
        != 0 {
        Some(id_map[x]@[y])
    } else {
        None
    }
}

/// The offset `(dx, dy)` points into the part of the grid that a scan has
/// already passed and that a cell looks back on: up to `r` earlier rows
/// (in the second coordinate) within `r` on either side, and up to `r`
/// cells before it in its own row.
pub open spec fn window_offset(r: int, dx: int, dy: int) -> bool {
    ||| (-r <= dx <= r && -r <= dy < 0)
    ||| (dy == 0 && -r <= dx < 0)
}

/// Looks at the cell `loc + (dx, dy)`: its label, when it lies in the grid,
/// is occupied and has been labelled.
pub fn check_cell(
    loc: (i16, i16),
    dx: i16,
    dy: i16,
    size_x: i16,
    size_y: i16,
    grid: &Vec<Vec<bool>>,
    id_map: &Vec<Vec<usize>>,
) -> (r: Option<usize>)
    requires
        size_x as int == grid@.len(),
        same_shape(grid@, id_map@),
        size_x > 0 ==> size_y as int == width(grid@),
    ensures
        r == label_at(grid@, id_map@, loc.0 + dx, loc.1 + dy),
{
    let x = loc.0 as i32 + dx as i32;
    let y = loc.1 as i32 + dy as i32;

    if x < 0 || y < 0 || x >= size_x as i32 || y >= size_y as i32 {
        return None;
    }
    let (x, y) = (x as usize, y as usize);

    if grid[x][y] {
        let id = id_map[x][y];
        if id != 0 {
            return Some(id);
        }
    }
    None
}

/// `id` is the label of an occupied cell in the look-back window of `(x, y)`.
pub open spec fn window_label(
    grid: Seq<Vec<bool>>,
    id_map: Seq<Vec<usize>>,
    x: int,
    y: int,
    r: int,
    id: usize,
) -> bool {
    exists|dx: int, dy: int|
        window_offset(r, dx, dy) && #[trigger] label_at(grid, id_map, x + dx, y + dy) == Some(id)
}

/// Whether `id` occurs in `ids`.
pub fn holds_label(ids: &Vec<usize>, id: usize) -> (r: bool)
    ensures
        r == ids@.contains(id),
{
    let mut i: usize = 0;
    while i < ids.len()
        invariant
            0 <= i <= ids@.len(),
            forall|j: int| 0 <= j < i ==> ids@[j] != id,
        decreases ids@.len() - i,
    {
        if ids[i] == id {
            return true;
        }
        i = i + 1;
    }
    false
}

/// `found` with the label in `c` appended, unless there is none or it is
/// already there.
pub open spec fn with_label(found: Seq<usize>, c: Option<usize>) -> Seq<usize> {
    match c {
        None => found,
        Some(id) => if found.contains(id) {
            found
        } else {
            found.push(id)
        },
    }
}

/// Offset number `n` of the look-back scan of reach `r`: first the earlier
/// rows, with `dx` from `-r` to `r` outside and `dy` from `-r` to `-1`
/// inside, then the cells before in the own row, with `dx` from `-r` to `-1`.
pub open spec fn scan_offset(r: int, n: int) -> (int, int) {
    if n < (2 * r + 1) * r {
        (-r + n / r, -r + n % r)
    } else {
        (-r + (n - (2 * r + 1) * r), 0)
    }
}

/// The number of offsets in the look-back scan of reach `r`.
pub open spec fn scan_length(r: int) -> int {
    (2 * r + 1) * r + r
}

/// The labels met at the first `n` offsets of the look-back scan around
/// `(x, y)`, each kept where it first occurs.
pub open spec fn scanned_labels(
    grid: Seq<Vec<bool>>,
    id_map: Seq<Vec<usize>>,
    x: int,
    y: int,
    r: int,
    n: nat,
) -> Seq<usize>
    decreases n,
{
    if n == 0 {
        Seq::empty()
    } else {
        let off = scan_offset(r, n - 1);
        with_label(
            scanned_labels(grid, id_map, x, y, r, (n - 1) as nat),
            label_at(grid, id_map, x + off.0, y + off.1),
        )
    }
}

/// Appends the label in `c`, if there is one and it is not yet in `found`.
fn add_label(found: &mut Vec<usize>, c: Option<usize>)
    requires
        old(found)@.no_duplicates(),
    ensures
        final(found)@.no_duplicates(),
        final(found)@ == with_label(old(found)@, c),
        c is Some ==> final(found)@.contains(c->0),
        forall|v: usize| old(found)@.contains(v) ==> final(found)@.contains(v),
{
    if let Some(id) = c {
        if !holds_label(found, id) {
            found.push(id);
            proof {
                assert(found@[found@.len() - 1] == id);
                assert forall|v: usize| old(found)@.contains(v) implies found@.contains(v) by {
                    let j = choose|j: int| 0 <= j < old(found)@.len() && old(found)@[j] == v;
                    assert(found@[j] == v);
                }
            }
        }
    }
}

/// The grid fits the signed 16-bit coordinates that neighbour queries use.
pub open spec fn fits_i16(grid: Seq<Vec<bool>>) -> bool {
    grid.len() <= i16::MAX && width(grid) <= i16::MAX
}

/// `a` and `b` are neighbours: one lies in the other's look-back window.
pub open spec fn adjacent(r: int, a: (int, int), b: (int, int)) -> bool {
    window_offset(r, a.0 - b.0, a.1 - b.1) || window_offset(r, b.0 - a.0, b.1 - a.1)
}

/// `p` is a non-empty walk over occupied cells, each step between neighbours.
pub open spec fn is_chain(grid: Seq<Vec<bool>>, r: int, p: Seq<(int, int)>) -> bool {
    &&& p.len() > 0
    &&& forall|i: int| 0 <= i < p.len() ==> occupied(grid, (#[trigger] p[i]).0, p[i].1)
    &&& forall|i: int| 0 <= i < p.len() - 1 ==> adjacent(r, #[trigger] p[i], p[i + 1])
}

/// A chain of neighbouring occupied cells leads from `a` to `b`.
pub open spec fn linked(grid: Seq<Vec<bool>>, r: int, a: (int, int), b: (int, int)) -> bool {
    exists|p: Seq<(int, int)>| #[trigger] is_chain(grid, r, p) && p[0] == a && p.last() == b
}

/// An occupied cell is linked to itself.
pub proof fn lemma_linked_refl(grid: Seq<Vec<bool>>, r: int, a: (int, int))
    requires
        occupied(grid, a.0, a.1),
    ensures
        linked(grid, r, a, a),
{
    let p = seq![a];
    assert(is_chain(grid, r, p));
}

/// Two occupied neighbours are linked.
pub proof fn lemma_linked_adjacent(grid: Seq<Vec<bool>>, r: int, a: (int, int), b: (int, int))
    requires
        occupied(grid, a.0, a.1),
        occupied(grid, b.0, b.1),
        adjacent(r, a, b),
    ensures
        linked(grid, r, a, b),
{
    let p = seq![a, b];
    assert(is_chain(grid, r, p));
}

/// Being linked goes both ways.
pub proof fn lemma_linked_symm(grid: Seq<Vec<bool>>, r: int, a: (int, int), b: (int, int))
    requires
        linked(grid, r, a, b),
    ensures
        linked(grid, r, b, a),
{
    let p = choose|p: Seq<(int, int)>| #[trigger] is_chain(grid, r, p) && p[0] == a && p.last() == b;
    let q = p.reverse();
    assert forall|i: int| 0 <= i < q.len() - 1 implies adjacent(r, #[trigger] q[i], q[i + 1]) by {
        assert(q[i] == p[p.len() - 1 - i]);
        assert(q[i + 1] == p[p.len() - 1 - (i + 1)]);
        assert(adjacent(r, p[p.len() - 2 - i], p[p.len() - 2 - i + 1]));
    }
    assert forall|i: int| 0 <= i < q.len() implies occupied(grid, (#[trigger] q[i]).0, q[i].1) by {
        assert(q[i] == p[p.len() - 1 - i]);
    }
    assert(is_chain(grid, r, q));
}

/// Being linked carries over from `a` through `b` to `c`.
pub proof fn lemma_linked_trans(
    grid: Seq<Vec<bool>>,
    r: int,
    a: (int, int),
    b: (int, int),
    c: (int, int),
)
    requires
        linked(grid, r, a, b),
        linked(grid, r, b, c),
    ensures
        linked(grid, r, a, c),
{
    let p = choose|p: Seq<(int, int)>| #[trigger] is_chain(grid, r, p) && p[0] == a && p.last() == b;
    let q = choose|q: Seq<(int, int)>| #[trigger] is_chain(grid, r, q) && q[0] == b && q.last() == c;
    let w = p + q.skip(1);
    assert forall|i: int| 0 <= i < w.len() - 1 implies adjacent(r, #[trigger] w[i], w[i + 1]) by {
        if i < p.len() - 1 {
            assert(adjacent(r, p[i], p[i + 1]));
        } else if i == p.len() - 1 {
            assert(w[i + 1] == q[1]);
            assert(adjacent(r, q[0], q[1]));
        } else {
            let j = i - p.len() + 1;
            assert(w[i] == q[j]);
            assert(w[i + 1] == q[j + 1]);
            assert(adjacent(r, q[j], q[j + 1]));
        }
    }
    assert forall|i: int| 0 <= i < w.len() implies occupied(grid, (#[trigger] w[i]).0, w[i].1) by {
        if i >= p.len() {
            assert(w[i] == q[i - p.len() + 1]);
        }
    }
    assert(w.last() == c) by {
        if q.len() == 1 {
        } else {
            assert(w.last() == q[q.len() - 1]);
        }
    }
    assert(is_chain(grid, r, w));
}

/// Labelled cells whose labels share a root in `f` are linked.
pub open spec fn classes_linked(
    grid: Seq<Vec<bool>>,
    id_map: Seq<Vec<usize>>,
    f: Forest,
    r: int,
) -> bool {
    forall|ax: int, ay: int, bx: int, by: int|
        0 <= ax < grid.len() && 0 <= ay < width(grid) && 0 <= bx < grid.len() && 0 <= by < width(
            grid,
        ) && #[trigger] id_map[ax]@[ay] != 0 && #[trigger] id_map[bx]@[by] != 0 && f.root(
            id_map[ax]@[ay] as int,
        ) == f.root(id_map[bx]@[by] as int) ==> linked(grid, r, (ax, ay), (bx, by))
}

/// `id1` is `id0` with the label of cell `(x, y)` set to `v`.
pub open spec fn written(
    id0: Seq<Vec<usize>>,
    id1: Seq<Vec<usize>>,
    x: int,
    y: int,
    v: usize,
) -> bool {
    &&& id1.len() == id0.len()
    &&& forall|i: int| 0 <= i < id0.len() ==> (#[trigger] id1[i])@.len() == id0[i]@.len()
    &&& forall|i: int, j: int|
        0 <= i < id0.len() && 0 <= j < id0[i]@.len() ==> #[trigger] id1[i]@[j] == if i == x && j
            == y {
            v
        } else {
            id0[i]@[j]
        }
}

/// A cell in the look-back window of `(x, y)` that carries label `id`.
proof fn lemma_window_cell(
    grid: Seq<Vec<bool>>,
    id_map: Seq<Vec<usize>>,
    x: int,
    y: int,
    r: int,
    id: usize,
) -> (w: (int, int))
    requires
        window_label(grid, id_map, x, y, r, id),
        same_shape(grid, id_map),
        occupied(grid, x, y),
    ensures
        0 <= w.0 < grid.len(),
        0 <= w.1 < width(grid),
        id_map[w.0]@[w.1] == id,
        id != 0,
        w != (x, y),
        occupied(grid, w.0, w.1),
        linked(grid, r, w, (x, y)),
{
    let (dx, dy) = choose|dx: int, dy: int|
        window_offset(r, dx, dy) && #[trigger] label_at(grid, id_map, x + dx, y + dy) == Some(id);
    let w = (x + dx, y + dy);
    assert(adjacent(r, w, (x, y)));
    lemma_linked_adjacent(grid, r, w, (x, y));
    w
}

/// A cell given a fresh label of its own keeps every class linked.
proof fn lemma_fresh_label(
    grid: Seq<Vec<bool>>,
    id0: Seq<Vec<usize>>,
    id1: Seq<Vec<usize>>,
    f0: Forest,
    f1: Forest,
    r: int,
    x: int,
    y: int,
    fresh: usize,
)
    requires
        fresh as int == f0.len(),
        same_shape(grid, id0),
        classes_linked(grid, id0, f0, r),
        labels_below(id0, f0.len()),
        f0.wf(),
        f1.wf(),
        f1.roots@ == f0.roots@.push(f0.len() as int),
        written(id0, id1, x, y, fresh),
        f0.len() >= 1,
        occupied(grid, x, y),
    ensures
        classes_linked(grid, id1, f1, r),
{
    let l = f0.len() as int;
    assert forall|ax: int, ay: int, bx: int, by: int|
        0 <= ax < grid.len() && 0 <= ay < width(grid) && 0 <= bx < grid.len() && 0 <= by < width(
            grid,
        ) && #[trigger] id1[ax]@[ay] != 0 && #[trigger] id1[bx]@[by] != 0 && f1.root(
            id1[ax]@[ay] as int,
        ) == f1.root(id1[bx]@[by] as int) implies linked(grid, r, (ax, ay), (bx, by)) by {
        let a_here = ax == x && ay == y;
        let b_here = bx == x && by == y;
        if a_here && b_here {
            lemma_linked_refl(grid, r, (ax, ay));
        } else if a_here {
            assert(id1[bx]@[by] == id0[bx]@[by]);
            let lb = id0[bx]@[by] as int;
            assert(lb < l);
            assert(f1.roots@[lb] == f0.roots@[lb]);
            assert(f0.root(lb) < l);
            assert(f1.root(id1[ax]@[ay] as int) == l);
        } else if b_here {
            assert(id1[ax]@[ay] == id0[ax]@[ay]);
            let la = id0[ax]@[ay] as int;
            assert(la < l);
            assert(f1.roots@[la] == f0.roots@[la]);
            assert(f0.root(la) < l);
            assert(f1.root(id1[bx]@[by] as int) == l);
        } else {
            assert(id1[ax]@[ay] == id0[ax]@[ay]);
            assert(id1[bx]@[by] == id0[bx]@[by]);
            let la = id0[ax]@[ay] as int;
            let lb = id0[bx]@[by] as int;
            assert(la < l && lb < l);
            assert(f1.roots@[la] == f0.roots@[la]);
            assert(f1.roots@[lb] == f0.roots@[lb]);
        }
    }
}

/// A cell that takes the root of a neighbour's label keeps every class
/// linked.
proof fn lemma_joined_label(
    grid: Seq<Vec<bool>>,
    id0: Seq<Vec<usize>>,
    id1: Seq<Vec<usize>>,
    f: Forest,
    r: int,
    x: int,
    y: int,
    n0: usize,
    root: usize,
)
    requires
        same_shape(grid, id0),
        classes_linked(grid, id0, f, r),
        f.wf(),
        window_label(grid, id0, x, y, r, n0),
        (n0 as int) < f.len(),
        f.root(n0 as int) == root as int,
        written(id0, id1, x, y, root),
        root != 0,
        occupied(grid, x, y),
    ensures
        classes_linked(grid, id1, f, r),
{
    let w = lemma_window_cell(grid, id0, x, y, r, n0);
    assert forall|ax: int, ay: int, bx: int, by: int|
        0 <= ax < grid.len() && 0 <= ay < width(grid) && 0 <= bx < grid.len() && 0 <= by < width(
            grid,
        ) && #[trigger] id1[ax]@[ay] != 0 && #[trigger] id1[bx]@[by] != 0 && f.root(
            id1[ax]@[ay] as int,
        ) == f.root(id1[bx]@[by] as int) implies linked(grid, r, (ax, ay), (bx, by)) by {
        let c = (x, y);
        let a_here = ax == x && ay == y;
        let b_here = bx == x && by == y;
        assert(id1[w.0]@[w.1] == id0[w.0]@[w.1]);
        if a_here && b_here {
            lemma_linked_refl(grid, r, c);
        } else if a_here {
            assert(id1[bx]@[by] == id0[bx]@[by]);
            assert(linked(grid, r, w, (bx, by)));
            lemma_linked_symm(grid, r, w, c);
            lemma_linked_trans(grid, r, c, w, (bx, by));
        } else if b_here {
            assert(id1[ax]@[ay] == id0[ax]@[ay]);
            assert(linked(grid, r, (ax, ay), w));
            lemma_linked_trans(grid, r, (ax, ay), w, c);
        } else {
            assert(id1[ax]@[ay] == id0[ax]@[ay]);
            assert(id1[bx]@[by] == id0[bx]@[by]);
        }
    }
}

/// Joining the set of the current cell's label with that of a neighbour's
/// label keeps every class linked.
proof fn lemma_union_linked(
    grid: Seq<Vec<bool>>,
    id0: Seq<Vec<usize>>,
    id1: Seq<Vec<usize>>,
    f1: Forest,
    f2: Forest,
    r: int,
    x: int,
    y: int,
    other: usize,
    root: usize,
)
    requires
        same_shape(grid, id0),
        classes_linked(grid, id1, f1, r),
        f1.wf(),
        window_label(grid, id0, x, y, r, other),
        (other as int) < f1.len(),
        f1.root(root as int) == root as int,
        written(id0, id1, x, y, root),
        root != 0,
        occupied(grid, x, y),
        labels_below(id1, f1.len()),
        f2.roots@ == crate::union_find::joined(f1.roots@, root as int, f1.root(other as int)),
        f2.len() == f1.len(),
    ensures
        classes_linked(grid, id1, f2, r),
{
    let w = lemma_window_cell(grid, id0, x, y, r, other);
    let c = (x, y);
    let ro = f1.root(other as int);
    assert(id1[w.0]@[w.1] == id0[w.0]@[w.1]);
    assert(id1[x]@[y] == root);
    assert forall|ax: int, ay: int, bx: int, by: int|
        0 <= ax < grid.len() && 0 <= ay < width(grid) && 0 <= bx < grid.len() && 0 <= by < width(
            grid,
        ) && #[trigger] id1[ax]@[ay] != 0 && #[trigger] id1[bx]@[by] != 0 && f2.root(
            id1[ax]@[ay] as int,
        ) == f2.root(id1[bx]@[by] as int) implies linked(grid, r, (ax, ay), (bx, by)) by {
        let a = (ax, ay);
        let b = (bx, by);
        let la = id1[ax]@[ay] as int;
        let lb = id1[bx]@[by] as int;
        assert(la < f1.len()) by {
            assert(id1[ax]@[ay] == id0[ax]@[ay] || (ax == x && ay == y));
        }
        assert(lb < f1.len()) by {
            assert(id1[bx]@[by] == id0[bx]@[by] || (bx == x && by == y));
        }
        let ra = f1.root(la);
        let rb = f1.root(lb);
        if ra == rb {
        } else if ra == ro {
            // a sits with the neighbour's label, b with the current cell's
            assert(linked(grid, r, a, w));
            assert(linked(grid, r, c, b));
            lemma_linked_trans(grid, r, a, w, c);
            lemma_linked_trans(grid, r, a, c, b);
        } else {
            assert(rb == ro);
            assert(linked(grid, r, b, w));
            assert(linked(grid, r, c, a));
            lemma_linked_trans(grid, r, b, w, c);
            lemma_linked_trans(grid, r, b, c, a);
            lemma_linked_symm(grid, r, b, a);
        }
    }
}

/// Labelled cells where one lies in the other's look-back window have
/// labels with the same root in `f`.
pub open spec fn window_joined(
    grid: Seq<Vec<bool>>,
    id_map: Seq<Vec<usize>>,
    f: Forest,
    r: int,
) -> bool {
    forall|ax: int, ay: int, bx: int, by: int|
        0 <= ax < grid.len() && 0 <= ay < width(grid) && 0 <= bx < grid.len() && 0 <= by < width(
            grid,
        ) && #[trigger] id_map[ax]@[ay] != 0 && #[trigger] id_map[bx]@[by] != 0 && window_offset(
            r,
            ax - bx,
            ay - by,
        ) ==> f.root(id_map[ax]@[ay] as int) == f.root(id_map[bx]@[by] as int)
}

/// Labels whose roots agree in `f1` still agree in `f2`, so the window
/// pairs stay joined.
proof fn lemma_window_joined_kept(
    grid: Seq<Vec<bool>>,
    id_map: Seq<Vec<usize>>,
    f1: Forest,
    f2: Forest,
    r: int,
)
    requires
        same_shape(grid, id_map),
        window_joined(grid, id_map, f1, r),
        labels_below(id_map, f1.len()),
        forall|l1: int, l2: int|
            0 <= l1 < f1.len() && 0 <= l2 < f1.len() && #[trigger] f1.root(l1) == #[trigger] f1.root(
                l2,
            ) ==> f2.root(l1) == f2.root(l2),
    ensures
        window_joined(grid, id_map, f2, r),
{
    assert forall|ax: int, ay: int, bx: int, by: int|
        0 <= ax < grid.len() && 0 <= ay < width(grid) && 0 <= bx < grid.len() && 0 <= by < width(
            grid,
        ) && #[trigger] id_map[ax]@[ay] != 0 && #[trigger] id_map[bx]@[by] != 0 && window_offset(
            r,
            ax - bx,
            ay - by,
        ) implies f2.root(id_map[ax]@[ay] as int) == f2.root(id_map[bx]@[by] as int) by {
        let la = id_map[ax]@[ay] as int;
        let lb = id_map[bx]@[by] as int;
        assert(f1.root(la) == f1.root(lb));
    }
}

/// A cell whose label has the root that every label in its window has
/// leaves the window pairs joined.
proof fn lemma_window_joined_cell(
    grid: Seq<Vec<bool>>,
    id0: Seq<Vec<usize>>,
    id1: Seq<Vec<usize>>,
    f: Forest,
    r: int,
    x: usize,
    y: usize,
    v: usize,
    found: Seq<usize>,
)
    requires
        same_shape(grid, id0),
        fits_i16(grid),
        window_joined(grid, id0, f, r),
        labelled_before(grid, id0, (x, y)),
        0 <= x < grid.len(),
        0 <= y < width(grid),
        written(id0, id1, x as int, y as int, v),
        v != 0,
        forall|k: int| 0 <= k < found.len() ==> f.root(#[trigger] found[k] as int) == f.root(v as int),
        forall|dx: int, dy: int|
            window_offset(r, dx, dy) && (#[trigger] label_at(grid, id0, x + dx, y + dy)) is Some
                ==> found.contains(label_at(grid, id0, x + dx, y + dy)->0),
    ensures
        window_joined(grid, id1, f, r),
{
    assert forall|ax: int, ay: int, bx: int, by: int|
        0 <= ax < grid.len() && 0 <= ay < width(grid) && 0 <= bx < grid.len() && 0 <= by < width(
            grid,
        ) && #[trigger] id1[ax]@[ay] != 0 && #[trigger] id1[bx]@[by] != 0 && window_offset(
            r,
            ax - bx,
            ay - by,
        ) implies f.root(id1[ax]@[ay] as int) == f.root(id1[bx]@[by] as int) by {
        let a_here = ax == x && ay == y;
        let b_here = bx == x && by == y;
        if a_here && b_here {
        } else if a_here {
            // the later cell b was labelled before the current one
            assert(id1[bx]@[by] == id0[bx]@[by]);
            assert(before((bx as usize, by as usize), (x, y)));
            assert(before((x, y), (bx as usize, by as usize)));
        } else if b_here {
            assert(id1[ax]@[ay] == id0[ax]@[ay]);
            let dx = ax - x;
            let dy = ay - y;
            assert(label_at(grid, id0, x + dx, y + dy) == Some(id0[ax]@[ay]));
            let k = choose|k: int| 0 <= k < found.len() && found[k] == id0[ax]@[ay];
            assert(f.root(found[k] as int) == f.root(v as int));
        } else {
            assert(id1[ax]@[ay] == id0[ax]@[ay]);
            assert(id1[bx]@[by] == id0[bx]@[by]);
        }
    }
}

/// Cells along a chain all carry labels with one root.
proof fn lemma_chain_one_root(
    grid: Seq<Vec<bool>>,
    id_map: Seq<Vec<usize>>,
    f: Forest,
    r: int,
    p: Seq<(int, int)>,
)
    requires
        same_shape(grid, id_map),
        window_joined(grid, id_map, f, r),
        forall|x: int, y: int|
            0 <= x < grid.len() && 0 <= y < width(grid) && occupied(grid, x, y) ==> #[trigger] id_map[x]@[y]
                != 0,
        is_chain(grid, r, p),
    ensures
        f.root(id_map[p[0].0]@[p[0].1] as int) == f.root(
            id_map[p.last().0]@[p.last().1] as int,
        ),
    decreases p.len(),
{
    if p.len() > 1 {
        let q = p.drop_last();
        assert forall|i: int| 0 <= i < q.len() implies occupied(grid, (#[trigger] q[i]).0, q[i].1) by {
            assert(q[i] == p[i]);
        }
        assert forall|i: int| 0 <= i < q.len() - 1 implies adjacent(r, #[trigger] q[i], q[i + 1]) by {
            assert(q[i] == p[i]);
            assert(adjacent(r, p[i], p[i + 1]));
        }
        lemma_chain_one_root(grid, id_map, f, r, q);
        let a = p[p.len() - 2];
        let b = p.last();
        assert(adjacent(r, p[p.len() - 2], p[p.len() - 2 + 1]));
        assert(occupied(grid, a.0, a.1));
        assert(occupied(grid, b.0, b.1));
        assert(grid[a.0]@.len() == width(grid));
        assert(grid[b.0]@.len() == width(grid));
        assert(id_map[a.0]@[a.1] != 0);
        assert(id_map[b.0]@[b.1] != 0);
    }
}

/// The labels of the occupied, labelled cells in the look-back window of
/// `location`, each once, in the order in which the window is scanned: the
/// first is the label met first.
pub fn check_surroundings(
    location: &(usize, usize),
    grid: &Vec<Vec<bool>>,
    id_map: &Vec<Vec<usize>>,
    range: i16,
) -> (found: Vec<usize>)
    requires
        same_shape(grid@, id_map@),
        fits_i16(grid@),
        (location.0 as int) < grid@.len(),
        (location.1 as int) < width(grid@),
        range >= 1,
    ensures
        found@ == scanned_labels(
            grid@,
            id_map@,
            location.0 as int,
            location.1 as int,
            range as int,
            scan_length(range as int) as nat,
        ),
        found@.no_duplicates(),
        forall|k: int|
            0 <= k < found@.len() ==> window_label(
                grid@,
                id_map@,
                location.0 as int,
                location.1 as int,
                range as int,
                #[trigger] found@[k],
            ),
        forall|dx: int, dy: int|
            window_offset(range as int, dx, dy) && (#[trigger] label_at(
                grid@,
                id_map@,
                location.0 + dx,
                location.1 + dy,
            )) is Some ==> found@.contains(
                label_at(grid@, id_map@, location.0 + dx, location.1 + dy)->0,
            ),
{
    let mut found_ids: Vec<usize> = Vec::new();
    let size_x = grid.len() as i16;
    let size_y = grid[0].len() as i16;
    let (lx, ly) = (location.0 as i16, location.1 as i16);
    let ghost r = range as int;

    // cells in the earlier rows, diagonals included
    let mut dx: i32 = -(range as i32);
    proof {
        assert((dx + r) * r == 0) by (nonlinear_arith)
            requires
                dx + r == 0,
        ;
        assert(found_ids@ =~= Seq::<usize>::empty());
    }
    while dx <= range as i32
        invariant
            -r <= dx <= r + 1,
            found_ids@ == scanned_labels(grid@, id_map@, lx as int, ly as int, r, ((dx + r) * r) as nat),
            size_x as int == grid@.len(),
            size_y as int == width(grid@),
            lx == location.0,
            ly == location.1,
            r == range as int,
            same_shape(grid@, id_map@),
            found_ids@.no_duplicates(),
            forall|k: int| 0 <= k < found_ids@.len() ==> window_label(grid@, id_map@, lx as int, ly as int, r, #[trigger] found_ids@[k]),
            forall|ex: int, ey: int|
                -r <= ex < dx && -r <= ey < 0 && (#[trigger] label_at(grid@, id_map@, lx + ex, ly + ey)) is Some
                    ==> found_ids@.contains(label_at(grid@, id_map@, lx + ex, ly + ey)->0),
        decreases r + 1 - dx,
    {
        let mut dy: i32 = -(range as i32);
        while dy < 0
            invariant
                -r <= dx <= r,
                -r <= dy <= 0,
                found_ids@ == scanned_labels(
                    grid@,
                    id_map@,
                    lx as int,
                    ly as int,
                    r,
                    ((dx + r) * r + (dy + r)) as nat,
                ),
                size_x as int == grid@.len(),
                size_y as int == width(grid@),
                lx == location.0,
                ly == location.1,
                r == range as int,
                same_shape(grid@, id_map@),
                found_ids@.no_duplicates(),
                forall|k: int| 0 <= k < found_ids@.len() ==> window_label(grid@, id_map@, lx as int, ly as int, r, #[trigger] found_ids@[k]),
                forall|ex: int, ey: int|
                    -r <= ey < 0 && (-r <= ex < dx || (ex == dx && ey < dy)) && (#[trigger] label_at(grid@, id_map@, lx + ex, ly + ey)) is Some ==> found_ids@.contains(label_at(grid@, id_map@, lx + ex, ly + ey)->0),
            decreases 0 - dy,
        {
            let ghost prev = found_ids@;
            proof {
                let n = (dx + r) * r + (dy + r);
                assert(0 <= n < (2 * r + 1) * r) by (nonlinear_arith)
                    requires
                        n == (dx + r) * r + (dy + r),
                        0 <= dx + r <= 2 * r,
                        0 <= dy + r < r,
                ;
                lemma_fundamental_div_mod_converse(n, r, dx + r, dy + r);
                assert(scan_offset(r, n) == (dx as int, dy as int));
            }
            let c = check_cell((lx, ly), dx as i16, dy as i16, size_x, size_y, grid, id_map);
            add_label(&mut found_ids, c);
            proof {
                assert forall|k: int| 0 <= k < found_ids@.len() implies window_label(grid@, id_map@, lx as int, ly as int, r, #[trigger] found_ids@[k]) by {
                    if k < prev.len() {
                        assert(prev[k] == found_ids@[k]);
                    } else {
                        assert(label_at(grid@, id_map@, lx + dx, ly + dy) == Some(found_ids@[k]));
                    }
                }
            }
            dy = dy + 1;
        }
        proof {
            assert((dx + r) * r + (0 + r) == (dx + 1 + r) * r) by (nonlinear_arith);
        }
        dx = dx + 1;
    }

    // cells before it in its own row
    let mut dx: i32 = -(range as i32);
    while dx < 0
        invariant
            -r <= dx <= 0,
            found_ids@ == scanned_labels(
                grid@,
                id_map@,
                lx as int,
                ly as int,
                r,
                ((2 * r + 1) * r + (dx + r)) as nat,
            ),
            size_x as int == grid@.len(),
            size_y as int == width(grid@),
            lx == location.0,
            ly == location.1,
            r == range as int,
            same_shape(grid@, id_map@),
            found_ids@.no_duplicates(),
            forall|k: int| 0 <= k < found_ids@.len() ==> window_label(grid@, id_map@, lx as int, ly as int, r, #[trigger] found_ids@[k]),
            forall|ex: int, ey: int|
                ((-r <= ex <= r && -r <= ey < 0) || (ey == 0 && -r <= ex < dx)) && (
                #[trigger] label_at(grid@, id_map@, lx + ex, ly + ey)) is Some ==> found_ids@.contains(label_at(grid@, id_map@, lx + ex, ly + ey)->0),
        decreases 0 - dx,
    {
        let ghost prev = found_ids@;
        proof {
            assert((2 * r + 1) * r >= 0) by (nonlinear_arith)
                requires
                    r >= 1,
            ;
        }
        let c = check_cell((lx, ly), dx as i16, 0, size_x, size_y, grid, id_map);
        add_label(&mut found_ids, c);
        proof {
            assert forall|k: int| 0 <= k < found_ids@.len() implies window_label(grid@, id_map@, lx as int, ly as int, r, #[trigger] found_ids@[k]) by {
                if k < prev.len() {
                    assert(prev[k] == found_ids@[k]);
                } else {
                    assert(label_at(grid@, id_map@, lx + dx, ly + 0) == Some(found_ids@[k]));
                }
            }
        }
        dx = dx + 1;
    }
    found_ids
}

/// `a` comes before `b` in a scan that runs over the second coordinate
/// outside and over the first inside.
pub open spec fn before(a: (usize, usize), b: (usize, usize)) -> bool {
    a.1 < b.1 || (a.1 == b.1 && a.0 < b.0)
}

/// Every label in `id_map` is a label of `f`.
pub open spec fn labels_below(id_map: Seq<Vec<usize>>, n: nat) -> bool {
    forall|x: int, y: int|
        0 <= x < id_map.len() && 0 <= y < id_map[x]@.len() ==> (#[trigger] id_map[x]@[y] as int)
            < n
}

/// Every list of `t` is non-empty, holds labelled cells whose label has
/// root `k` under its own key `k`, and runs in scan order.
pub open spec fn tracks_by_root(
    t: Map<usize, Vec<(usize, usize)>>,
    id_map: Seq<Vec<usize>>,
    f: Forest,
) -> bool {
    forall|k: usize|
        #![trigger t[k]]
        t.contains_key(k) ==> {
            &&& t[k]@.len() > 0
            &&& forall|i: int|
                0 <= i < t[k]@.len() ==> {
                    let c = #[trigger] t[k]@[i];
                    &&& (c.0 as int) < id_map.len()
                    &&& (c.1 as int) < id_map[c.0 as int]@.len()
                    &&& id_map[c.0 as int]@[c.1 as int] != 0
                    &&& f.root(id_map[c.0 as int]@[c.1 as int] as int) == k as int
                }
            &&& forall|i: int, j: int|
                0 <= i < j < t[k]@.len() ==> before(#[trigger] t[k]@[i], #[trigger] t[k]@[j])
        }
}

/// Gathers the labelled cells of `id_map` by the root of their label, each
/// list in scan order.
pub fn build_tracks(id_map: &Vec<Vec<usize>>, parent: &mut Forest) -> (tracks: HashMap<
    usize,
    Vec<(usize, usize)>,
>)
    requires
        old(parent).wf(),
        rectangular(id_map@, width(id_map@)),
        labels_below(id_map@, old(parent).len()),
    ensures
        final(parent).wf(),
        final(parent).roots@ == old(parent).roots@,
        final(parent).len() == old(parent).len(),
        tracks_by_root(tracks@, id_map@, *old(parent)),
        forall|x: int, y: int|
            0 <= x < id_map@.len() && 0 <= y < id_map@[x]@.len() && #[trigger] id_map@[x]@[y]
                != 0 ==> {
                let k = old(parent).root(id_map@[x]@[y] as int) as usize;
                tracks@.contains_key(k) && tracks@[k]@.contains((x as usize, y as usize))
            },
{
    broadcast use vstd::std_specs::hash::group_hash_axioms;

    let ghost f0 = *parent;
    let mut tracks: HashMap<usize, Vec<(usize, usize)>> = HashMap::new();
    let size_x = id_map.len();
    let size_y = if size_x > 0 {
        id_map[0].len()
    } else {
        0
    };

    let mut y: usize = 0;
    while y < size_y
        invariant
            0 <= y <= size_y,
            size_x == id_map@.len(),
            size_y as int == width(id_map@),
            rectangular(id_map@, width(id_map@)),
            labels_below(id_map@, f0.len()),
            parent.wf(),
            parent.roots@ == f0.roots@,
            parent.len() == f0.len(),
            tracks_by_root(tracks@, id_map@, f0),
            forall|k: usize, i: int|
                tracks@.contains_key(k) && 0 <= i < tracks@[k]@.len() ==> before(
                    #[trigger] tracks@[k]@[i],
                    (0, y),
                ),
            forall|cx: int, cy: int|
                0 <= cx < size_x && 0 <= cy < y && #[trigger] id_map@[cx]@[cy] != 0 ==> {
                    let k = f0.root(id_map@[cx]@[cy] as int) as usize;
                    tracks@.contains_key(k) && tracks@[k]@.contains((cx as usize, cy as usize))
                },
        decreases size_y - y,
    {
        let mut x: usize = 0;
        while x < size_x
            invariant
                0 <= y < size_y,
                0 <= x <= size_x,
                size_x == id_map@.len(),
                size_y as int == width(id_map@),
                rectangular(id_map@, width(id_map@)),
                labels_below(id_map@, f0.len()),
                parent.wf(),
                parent.roots@ == f0.roots@,
                parent.len() == f0.len(),
                tracks_by_root(tracks@, id_map@, f0),
                forall|k: usize, i: int|
                    tracks@.contains_key(k) && 0 <= i < tracks@[k]@.len() ==> before(
                        #[trigger] tracks@[k]@[i],
                        (x, y),
                    ),
                forall|cx: int, cy: int|
                    0 <= cx < size_x && 0 <= cy <= y && (cy < y || cx < x) && #[trigger] id_map@[cx]@[cy]
                        != 0 ==> {
                        let k = f0.root(id_map@[cx]@[cy] as int) as usize;
                        tracks@.contains_key(k) && tracks@[k]@.contains(
                            (cx as usize, cy as usize),
                        )
                    },
            decreases size_x - x,
        {
            let id = id_map[x][y];
            if id != 0 {
                let root = find(id, parent);
                let ghost t0 = tracks@;
                let cell = (x, y);
                match tracks.remove(&root) {
                    Some(mut v) => {
                        v.push(cell);
                        tracks.insert(root, v);
                    },
                    None => {
                        let mut v: Vec<(usize, usize)> = Vec::new();
                        v.push(cell);
                        tracks.insert(root, v);
                    },
                }
                proof {
                    assert(tracks@[root]@.last() == cell);
                    assert forall|k: usize, i: int|
                        tracks@.contains_key(k) && 0 <= i < tracks@[k]@.len() implies before(
                        #[trigger] tracks@[k]@[i],
                        (x, y),
                    ) || tracks@[k]@[i] == cell by {
                        if k == root && t0.contains_key(k) && i < t0[k]@.len() {
                            assert(tracks@[k]@[i] == t0[k]@[i]);
                        }
                    }
                    assert forall|cx: int, cy: int|
                        0 <= cx < size_x && 0 <= cy <= y && (cy < y || cx < x + 1)
                            && #[trigger] id_map@[cx]@[cy] != 0 implies {
                        let k = f0.root(id_map@[cx]@[cy] as int) as usize;
                        tracks@.contains_key(k) && tracks@[k]@.contains(
                            (cx as usize, cy as usize),
                        )
                    } by {
                        let k = f0.root(id_map@[cx]@[cy] as int) as usize;
                        if cx == x && cy == y {
                            assert(tracks@[k]@[tracks@[k]@.len() - 1] == cell);
                        } else if k == root {
                            let j = choose|j: int|
                                0 <= j < t0[k]@.len() && t0[k]@[j] == (cx as usize, cy as usize);
                            assert(tracks@[k]@[j] == t0[k]@[j]);
                        }
                    }
                }
            }
            x = x + 1;
        }
        y = y + 1;
    }
    tracks
}

/// Cells that come before `cur` carry a label exactly when they are
/// occupied; the others carry none yet.
pub open spec fn labelled_before(
    grid: Seq<Vec<bool>>,
    id_map: Seq<Vec<usize>>,
    cur: (usize, usize),
) -> bool {
    forall|x: int, y: int|
        0 <= x < grid.len() && 0 <= y < width(grid) ==> ((#[trigger] id_map[x]@[y] != 0) <==> (
        occupied(grid, x, y) && before((x as usize, y as usize), cur)))
}

/// No label but 0 itself resolves to the reserved label 0.
pub open spec fn zero_alone(f: Forest) -> bool {
    &&& f.root(0) == 0
    &&& forall|l: int| 1 <= l < f.len() ==> #[trigger] f.root(l) >= 1
}

/// Every entry of `id_map` is 0.
pub open spec fn all_zero(id_map: Seq<Vec<usize>>) -> bool {
    forall|x: int, y: int|
        0 <= x < id_map.len() && 0 <= y < id_map[x]@.len() ==> #[trigger] id_map[x]@[y] == 0
}

/// The tracks of `t` cover the occupied cells of `grid` exactly, and no
/// cell lies in two tracks.
pub open spec fn partitions(t: Map<usize, Vec<(usize, usize)>>, grid: Seq<Vec<bool>>) -> bool {
    &&& forall|x: int, y: int|
        #[trigger] occupied(grid, x, y) ==> exists|k: usize|
            t.contains_key(k) && #[trigger] t[k]@.contains((x as usize, y as usize))
    &&& forall|k: usize, i: int|
        t.contains_key(k) && 0 <= i < t[k]@.len() ==> occupied(
            grid,
            (#[trigger] t[k]@[i]).0 as int,
            t[k]@[i].1 as int,
        )
    &&& forall|k1: usize, k2: usize, c: (usize, usize)|
        t.contains_key(k1) && t.contains_key(k2) && #[trigger] t[k1]@.contains(c)
            && #[trigger] t[k2]@.contains(c) ==> k1 == k2
}

/// Each track is non-empty and lists its cells in scan order.
pub open spec fn scan_ordered(t: Map<usize, Vec<(usize, usize)>>) -> bool {
    forall|k: usize|
        #![trigger t[k]]
        t.contains_key(k) ==> t[k]@.len() > 0 && forall|i: int, j: int|
            0 <= i < j < t[k]@.len() ==> before(#[trigger] t[k]@[i], #[trigger] t[k]@[j])
}

/// Splits the occupied cells of `grid` into tracks, keyed by an id: two
/// occupied cells share a track exactly when a chain of neighbours links
/// them, where neighbours are cells one of which lies in the other's
/// look-back window of reach `range`. Each track lists its cells in scan
/// order, and its id is positive. `id_map` is scratch space of the grid's
/// shape that must hold only zeros; it is left holding a non-zero label on
/// exactly the occupied cells, and cells with the same label share a track.
pub fn extract(grid: &Vec<Vec<bool>>, id_map: &mut Vec<Vec<usize>>, range: i16) -> (tracks:
    HashMap<usize, Vec<(usize, usize)>>)
    requires
        same_shape(grid@, old(id_map)@),
        all_zero(old(id_map)@),
        fits_i16(grid@),
        range >= 1,
    ensures
        same_shape(grid@, final(id_map)@),
        forall|x: int, y: int|
            0 <= x < grid@.len() && 0 <= y < width(grid@) ==> (#[trigger] final(id_map)@[x]@[y]
                != 0) == occupied(grid@, x, y),
        forall|k1: usize, k2: usize, a: (usize, usize), b: (usize, usize)|
            tracks@.contains_key(k1) && tracks@.contains_key(k2) && #[trigger] tracks@[k1]@.contains(a)
                && #[trigger] tracks@[k2]@.contains(b) && final(id_map)@[a.0 as int]@[a.1 as int]
                == final(id_map)@[b.0 as int]@[b.1 as int] ==> k1 == k2,
        forall|k: usize| #[trigger] tracks@.contains_key(k) ==> k >= 1,
        partitions(tracks@, grid@),
        scan_ordered(tracks@),
        forall|k1: usize, k2: usize, i: int, j: int|
            tracks@.contains_key(k1) && tracks@.contains_key(k2) && 0 <= i < tracks@[k1]@.len() && 0
                <= j < tracks@[k2]@.len() && linked(
                grid@,
                range as int,
                ((#[trigger] tracks@[k1]@[i]).0 as int, tracks@[k1]@[i].1 as int),
                ((#[trigger] tracks@[k2]@[j]).0 as int, tracks@[k2]@[j].1 as int),
            ) ==> k1 == k2,
        forall|k: usize, i: int, j: int|
            tracks@.contains_key(k) && 0 <= i < tracks@[k]@.len() && 0 <= j < tracks@[k]@.len()
                ==> linked(
                grid@,
                range as int,
                ((#[trigger] tracks@[k]@[i]).0 as int, tracks@[k]@[i].1 as int),
                ((#[trigger] tracks@[k]@[j]).0 as int, tracks@[k]@[j].1 as int),
            ),
{
    let mut next_id: usize = 1;
    let mut parent = Forest::new();
    let size_x = grid.len();
    let size_y = if size_x > 0 {
        grid[0].len()
    } else {
        0
    };

    let mut y: usize = 0;
    while y < size_y
        invariant
            0 <= y <= size_y,
            size_x == grid@.len(),
            size_y as int == width(grid@),
            same_shape(grid@, id_map@),
            fits_i16(grid@),
            range >= 1,
            parent.wf(),
            parent.len() == next_id,
            1 <= next_id <= y * size_x + 1,
            labels_below(id_map@, parent.len()),
            zero_alone(parent),
            labelled_before(grid@, id_map@, (0, y)),
            classes_linked(grid@, id_map@, parent, range as int),
            window_joined(grid@, id_map@, parent, range as int),
        decreases size_y - y,
    {
        let mut x: usize = 0;
        while x < size_x
            invariant
                0 <= y < size_y,
                0 <= x <= size_x,
                size_x == grid@.len(),
                size_y as int == width(grid@),
                same_shape(grid@, id_map@),
                fits_i16(grid@),
                range >= 1,
                parent.wf(),
                parent.len() == next_id,
                1 <= next_id <= y * size_x + x + 1,
                labels_below(id_map@, parent.len()),
                zero_alone(parent),
                labelled_before(grid@, id_map@, (x, y)),
                classes_linked(grid@, id_map@, parent, range as int),
                window_joined(grid@, id_map@, parent, range as int),
            decreases size_x - x,
        {
            proof {
                assert(y * size_x + x + 1 <= 32767 * 32767 + 32767 + 1) by (nonlinear_arith)
                    requires
                        y < size_y <= 32767,
                        x <= size_x <= 32767,
                ;
            }
            let ghost before_map = id_map@;
            if grid[x][y] {
                let neighbors = check_surroundings(&(x, y), grid, id_map, range);
                if neighbors.len() == 0 {
                    let ghost f0 = parent;
                    let l = parent.make_set();
                    proof {
                        assert forall|k: int| 1 <= k < parent.len() implies #[trigger] parent.root(k) >= 1 by {
                            if k < f0.len() {
                                assert(f0.root(k) >= 1);
                            }
                        }
                    }
                    id_map[x][y] = l;
                    proof {
                        assert(written(before_map, id_map@, x as int, y as int, l));
                        lemma_fresh_label(grid@, before_map, id_map@, f0, parent, range as int, x as int, y as int, l);
                        assert forall|l1: int, l2: int|
                            0 <= l1 < f0.len() && 0 <= l2 < f0.len() && #[trigger] f0.root(l1)
                                == #[trigger] f0.root(l2) implies parent.root(l1) == parent.root(l2) by {
                            assert(parent.roots@[l1] == f0.roots@[l1]);
                            assert(parent.roots@[l2] == f0.roots@[l2]);
                        }
                        lemma_window_joined_kept(grid@, before_map, f0, parent, range as int);
                        lemma_window_joined_cell(grid@, before_map, id_map@, parent, range as int, x, y, l, neighbors@);
                    }
                    next_id = next_id + 1;
                } else {
                    proof {
                        assert(window_label(grid@, id_map@, x as int, y as int, range as int, neighbors@[0]));
                    }
                    let ghost f0 = parent;
                    let root = find(neighbors[0], &mut parent);
                    proof {
                        assert forall|l: int| 1 <= l < parent.len() implies #[trigger] parent.root(l) >= 1 by {
                            assert(f0.root(l) >= 1);
                        }
                    }
                    id_map[x][y] = root;
                    proof {
                        assert(written(before_map, id_map@, x as int, y as int, root));
                        assert(parent.root(root as int) == root as int);
                        lemma_joined_label(grid@, before_map, id_map@, parent, range as int, x as int, y as int, neighbors@[0], root);
                    }
                    let mut i: usize = 1;
                    while i < neighbors.len()
                        invariant
                            1 <= i <= neighbors@.len(),
                            parent.wf(),
                            parent.len() == next_id,
                            forall|k: int|
                                0 <= k < neighbors@.len() ==> (#[trigger] neighbors@[k] as int)
                                    < next_id,
                            forall|k: int| 0 <= k < neighbors@.len() ==> #[trigger] neighbors@[k] != 0,
                            (root as int) < next_id,
                            zero_alone(parent),
                            parent.root(root as int) == root as int,
                            root != 0,
                            same_shape(grid@, before_map),
                            occupied(grid@, x as int, y as int),
                            written(before_map, id_map@, x as int, y as int, root),
                            labels_below(id_map@, parent.len()),
                            classes_linked(grid@, id_map@, parent, range as int),
                            forall|k: int|
                                0 <= k < neighbors@.len() ==> window_label(
                                    grid@,
                                    before_map,
                                    x as int,
                                    y as int,
                                    range as int,
                                    #[trigger] neighbors@[k],
                                ),
                            forall|dx: int, dy: int|
                                window_offset(range as int, dx, dy) && (#[trigger] label_at(
                                    grid@,
                                    before_map,
                                    x + dx,
                                    y + dy,
                                )) is Some ==> neighbors@.contains(
                                    label_at(grid@, before_map, x + dx, y + dy)->0,
                                ),
                            labels_below(before_map, parent.len()),
                            labelled_before(grid@, before_map, (x, y)),
                            window_joined(grid@, before_map, parent, range as int),
                            forall|k: int| 0 <= k < i ==> parent.root(#[trigger] neighbors@[k] as int) == root,
                            x < size_x,
                            y < size_y,
                            size_x == grid@.len(),
                            size_y as int == width(grid@),
                            fits_i16(grid@),
                        decreases neighbors@.len() - i,
                    {
                        let ghost f1 = parent;
                        union(root, neighbors[i], &mut parent);
                        proof {
                            lemma_union_linked(grid@, before_map, id_map@, f1, parent, range as int, x as int, y as int, neighbors@[i as int], root);
                            assert(neighbors@[i as int] != 0);
                            assert(f1.root(neighbors@[i as int] as int) >= 1);
                            assert forall|l: int| 1 <= l < parent.len() implies #[trigger] parent.root(l) >= 1 by {
                                assert(f1.root(l) >= 1);
                            }
                            assert forall|l1: int, l2: int|
                                0 <= l1 < f1.len() && 0 <= l2 < f1.len() && #[trigger] f1.root(l1)
                                    == #[trigger] f1.root(l2) implies parent.root(l1) == parent.root(l2) by {}
                            lemma_window_joined_kept(grid@, before_map, f1, parent, range as int);
                            assert forall|k: int| 0 <= k < i + 1 implies parent.root(#[trigger] neighbors@[k] as int) == root by {
                                assert(neighbors@[k] < f1.len());
                            }
                        }
                        i = i + 1;
                    }
                    proof {
                        lemma_window_joined_cell(grid@, before_map, id_map@, parent, range as int, x, y, root, neighbors@);
                    }
                }
            }
            proof {
                assert forall|cx: int, cy: int|
                    0 <= cx < grid@.len() && 0 <= cy < width(grid@) implies ((#[trigger] id_map@[cx]@[cy]
                        != 0) <==> (occupied(grid@, cx, cy) && before(
                        (cx as usize, cy as usize),
                        ((x + 1) as usize, y),
                    ))) by {
                    if cx != x || cy != y {
                        assert(id_map@[cx]@[cy] == before_map[cx]@[cy]);
                    }
                }
            }
            x = x + 1;
        }
        proof {
            assert(y * size_x + size_x == (y + 1) * size_x) by (nonlinear_arith);
        }
        y = y + 1;
    }
    let ghost f = parent;
    let tracks = build_tracks(id_map, &mut parent);
    proof {
        let t = tracks@;
        assert forall|cx: int, cy: int| #[trigger] occupied(grid@, cx, cy) implies exists|k: usize|
            t.contains_key(k) && #[trigger] t[k]@.contains((cx as usize, cy as usize)) by {
            assert(id_map@[cx]@[cy] != 0);
            let k = f.root(id_map@[cx]@[cy] as int) as usize;
            assert(t.contains_key(k) && t[k]@.contains((cx as usize, cy as usize)));
        }
        assert forall|k: usize, i: int| t.contains_key(k) && 0 <= i < t[k]@.len() implies occupied(
            grid@,
            (#[trigger] t[k]@[i]).0 as int,
            t[k]@[i].1 as int,
        ) by {
            let c = t[k]@[i];
            assert(id_map@[c.0 as int]@[c.1 as int] != 0);
        }
        assert forall|k1: usize, k2: usize, c: (usize, usize)|
            t.contains_key(k1) && t.contains_key(k2) && #[trigger] t[k1]@.contains(c)
                && #[trigger] t[k2]@.contains(c) implies k1 == k2 by {
            let i = choose|i: int| 0 <= i < t[k1]@.len() && t[k1]@[i] == c;
            let j = choose|j: int| 0 <= j < t[k2]@.len() && t[k2]@[j] == c;
            assert(t[k1]@[i] == c);
            assert(t[k2]@[j] == c);
        }
        assert forall|k: usize, i: int, j: int|
            t.contains_key(k) && 0 <= i < t[k]@.len() && 0 <= j < t[k]@.len() implies linked(
                grid@,
                range as int,
                ((#[trigger] t[k]@[i]).0 as int, t[k]@[i].1 as int),
                ((#[trigger] t[k]@[j]).0 as int, t[k]@[j].1 as int),
            ) by {
            let a = t[k]@[i];
            let b = t[k]@[j];
            assert(id_map@[a.0 as int]@[a.1 as int] != 0);
            assert(id_map@[b.0 as int]@[b.1 as int] != 0);
        }
        assert forall|x: int, y: int|
            0 <= x < grid@.len() && 0 <= y < width(grid@) && occupied(grid@, x, y) implies #[trigger] id_map@[x]@[y]
                != 0 by {}
        assert forall|k1: usize, k2: usize, i: int, j: int|
            t.contains_key(k1) && t.contains_key(k2) && 0 <= i < t[k1]@.len() && 0 <= j < t[k2]@.len()
                && linked(
                grid@,
                range as int,
                ((#[trigger] t[k1]@[i]).0 as int, t[k1]@[i].1 as int),
                ((#[trigger] t[k2]@[j]).0 as int, t[k2]@[j].1 as int),
            ) implies k1 == k2 by {
            let a = t[k1]@[i];
            let b = t[k2]@[j];
            let ai = (a.0 as int, a.1 as int);
            let bi = (b.0 as int, b.1 as int);
            let p = choose|p: Seq<(int, int)>| #[trigger] is_chain(grid@, range as int, p) && p[0] == ai && p.last() == bi;
            lemma_chain_one_root(grid@, id_map@, f, range as int, p);
        }
        assert forall|k1: usize, k2: usize, a: (usize, usize), b: (usize, usize)|
            t.contains_key(k1) && t.contains_key(k2) && #[trigger] t[k1]@.contains(a)
                && #[trigger] t[k2]@.contains(b) && id_map@[a.0 as int]@[a.1 as int]
                == id_map@[b.0 as int]@[b.1 as int] implies k1 == k2 by {
            let i = choose|i: int| 0 <= i < t[k1]@.len() && t[k1]@[i] == a;
            let j = choose|j: int| 0 <= j < t[k2]@.len() && t[k2]@[j] == b;
            assert(t[k1]@[i] == a);
            assert(t[k2]@[j] == b);
        }
        assert forall|k: usize| #[trigger] t.contains_key(k) implies k >= 1 by {
            let c = t[k]@[0];
            let l = id_map@[c.0 as int]@[c.1 as int];
            assert(l != 0);
            assert((l as int) < f.len());
            assert(f.root(l as int) >= 1);
        }
    }
    tracks
}

} // verus!
