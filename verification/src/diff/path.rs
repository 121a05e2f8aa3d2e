//! The mathematics of the alignment grid.
//!
//! A grid over `nb` before-lines and `na` after-lines has `2 * nb + 1` columns
//! of `2 * na + 1` nodes. A node with an odd coordinate is a *step*: it takes
//! the before-line `(x - 1) / 2` when `x` is odd and the after-line
//! `(y - 1) / 2` when `y` is odd. Nodes with two even coordinates only give
//! the graph its shape. An alignment is a path of steps that takes every line
//! exactly once, in order; its cost is the weight of every step after the
//! first, which the implicit source reaches for free.

use vstd::prelude::*;

verus! {

/// `n` rounded down to an even number.
pub open spec fn floor_even(n: int) -> int {
    n - n % 2
}

/// `n` rounded up to an even number.
pub open spec fn ceil_even(n: int) -> int {
    n + n % 2
}

/// Node `(x, y)` takes a line on at least one side.
pub open spec fn is_step(x: int, y: int) -> bool {
    x >= 0 && y >= 0 && (x % 2 == 1 || y % 2 == 1)
}

/// One of the three steps that the implicit source leads to.
pub open spec fn is_root(x: int, y: int) -> bool {
    is_step(x, y) && x <= 1 && y <= 1
}

/// There is an edge from step `(px, py)` to step `(x, y)`: the second takes
/// exactly the lines that follow those the first has reached.
pub open spec fn is_edge(px: int, py: int, x: int, y: int) -> bool {
    &&& is_step(px, py)
    &&& is_step(x, y)
    &&& ceil_even(px) == floor_even(x)
    &&& ceil_even(py) == floor_even(y)
}

/// `g` holds the weights of a grid: an odd number of columns, all of one odd
/// height.
pub open spec fn is_grid(g: Seq<Seq<int>>) -> bool {
    &&& g.len() % 2 == 1
    &&& g[0].len() % 2 == 1
    &&& forall|x: int| 0 <= x < g.len() ==> (#[trigger] g[x]).len() == g[0].len()
}

/// Node `(x, y)` lies in the grid.
pub open spec fn in_grid(g: Seq<Seq<int>>, x: int, y: int) -> bool {
    0 <= x < g.len() && 0 <= y < g[0].len()
}

/// The weight of node `(x, y)` by the parity of its coordinates.
pub open spec fn node_weight(
    unalign_b: Seq<int>,
    unalign_a: Seq<int>,
    paired: Seq<Seq<int>>,
    x: int,
    y: int,
) -> int {
    if x % 2 == 0 && y % 2 == 0 {
        -1
    } else if y % 2 == 0 {
        unalign_b[(x - 1) / 2]
    } else if x % 2 == 0 {
        unalign_a[(y - 1) / 2]
    } else {
        paired[(x - 1) / 2][(y - 1) / 2]
    }
}

/// The grid over the given costs: `unalign_b[i]` for leaving before-line `i`
/// alone, `unalign_a[j]` for leaving after-line `j` alone, `paired[i][j]` for
/// pairing the two.
pub open spec fn grid_of(unalign_b: Seq<int>, unalign_a: Seq<int>, paired: Seq<Seq<int>>) -> Seq<
    Seq<int>,
> {
    Seq::new(
        2 * unalign_b.len() + 1,
        |x: int|
            Seq::new(
                2 * unalign_a.len() + 1,
                |y: int| node_weight(unalign_b, unalign_a, paired, x, y),
            ),
    )
}

/// The least of three.
pub open spec fn min3(a: int, b: int, c: int) -> int {
    if a <= b && a <= c {
        a
    } else if b <= c {
        b
    } else {
        c
    }
}

/// The least cost of any path from the implicit source to `(x, y)`.
#[verifier::opaque]
pub open spec fn best_dist(g: Seq<Seq<int>>, x: int, y: int) -> int
    decreases x + y,
    when x >= 0 && y >= 0
{
    let bx = floor_even(x);
    let by = floor_even(y);
    if bx < 2 && by < 2 {
        0
    } else if by < 2 {
        best_dist(g, bx - 1, by) + g[x][y]
    } else if bx < 2 {
        best_dist(g, bx, by - 1) + g[x][y]
    } else {
        min3(
            best_dist(g, bx - 1, by - 1),
            best_dist(g, bx - 1, by),
            best_dist(g, bx, by - 1),
        ) + g[x][y]
    }
}

/// The step before `(x, y)` on its cheapest path. Among equally cheap
/// predecessors the paired one comes first, then the one that leaves a
/// before-line alone. Roots and shaping nodes have none: `(0, 0)`.
pub open spec fn best_parent(g: Seq<Seq<int>>, x: int, y: int) -> (int, int) {
    let bx = floor_even(x);
    let by = floor_even(y);
    if !is_step(x, y) || (bx < 2 && by < 2) {
        (0, 0)
    } else if by < 2 {
        (bx - 1, by)
    } else if bx < 2 {
        (bx, by - 1)
    } else {
        let both = best_dist(g, bx - 1, by - 1);
        let before = best_dist(g, bx - 1, by);
        let after = best_dist(g, bx, by - 1);
        if both <= before && both <= after {
            (bx - 1, by - 1)
        } else if before <= after {
            (bx - 1, by)
        } else {
            (bx, by - 1)
        }
    }
}

/// The nodes from the first step to `(x, y)`, along `best_parent`.
pub open spec fn path_to(g: Seq<Seq<int>>, x: int, y: int) -> Seq<(int, int)>
    decreases x + y,
    when x >= 0 && y >= 0
{
    if x <= 0 && y <= 0 {
        Seq::empty()
    } else {
        let p = best_parent(g, x, y);
        path_to(g, p.0, p.1).push((x, y))
    }
}

/// A path of steps through the grid, from a root along edges.
pub open spec fn is_path(g: Seq<Seq<int>>, p: Seq<(int, int)>) -> bool {
    &&& p.len() > 0
    &&& is_root(p[0].0, p[0].1)
    &&& forall|i: int|
        0 <= i < p.len() ==> is_step((#[trigger] p[i]).0, p[i].1) && in_grid(g, p[i].0, p[i].1)
    &&& forall|i: int|
        0 <= i < p.len() - 1 ==> is_edge((#[trigger] p[i]).0, p[i].1, p[i + 1].0, p[i + 1].1)
}

/// The cost of a path: the weight of every node after the first.
pub open spec fn path_cost(g: Seq<Seq<int>>, p: Seq<(int, int)>) -> int
    decreases p.len(),
{
    if p.len() <= 1 {
        0
    } else {
        path_cost(g, p.drop_last()) + g[p.last().0][p.last().1]
    }
}

/// Step `(x, y)` has reached the last line on both sides.
pub open spec fn is_exit(g: Seq<Seq<int>>, x: int, y: int) -> bool {
    &&& is_step(x, y)
    &&& in_grid(g, x, y)
    &&& ceil_even(x) == g.len() - 1
    &&& ceil_even(y) == g[0].len() - 1
}

/// An alignment: a path that ends in an exit, or no step at all where there
/// is no line.
pub open spec fn is_alignment(g: Seq<Seq<int>>, p: Seq<(int, int)>) -> bool {
    if g.len() == 1 && g[0].len() == 1 {
        p.len() == 0
    } else {
        is_path(g, p) && is_exit(g, p.last().0, p.last().1)
    }
}

/// The exit that the alignment ends in. The cheapest of the three wins; on a
/// tie the paired exit comes first, then the one that leaves the last
/// after-line alone.
pub open spec fn exit_point(g: Seq<Seq<int>>) -> Option<(int, int)> {
    let w = g.len() as int;
    let h = g[0].len() as int;
    if w < 3 && h < 3 {
        None
    } else if w < 3 {
        Some((w - 1, h - 2))
    } else if h < 3 {
        Some((w - 2, h - 1))
    } else {
        let both = best_dist(g, w - 2, h - 2);
        let before_only = best_dist(g, w - 2, h - 1);
        let after_only = best_dist(g, w - 1, h - 2);
        if before_only < after_only && before_only < both {
            Some((w - 2, h - 1))
        } else if after_only < both {
            Some((w - 1, h - 2))
        } else {
            Some((w - 2, h - 2))
        }
    }
}

/// The alignment that the grid yields.
pub open spec fn alignment_path(g: Seq<Seq<int>>) -> Seq<(int, int)> {
    match exit_point(g) {
        None => Seq::empty(),
        Some(e) => path_to(g, e.0, e.1),
    }
}

/// The before-lines that a path takes, in order.
pub open spec fn before_indices(p: Seq<(int, int)>) -> Seq<int>
    decreases p.len(),
{
    if p.len() == 0 {
        Seq::empty()
    } else if p.last().0 % 2 == 1 {
        before_indices(p.drop_last()).push((p.last().0 - 1) / 2)
    } else {
        before_indices(p.drop_last())
    }
}

/// The after-lines that a path takes, in order.
pub open spec fn after_indices(p: Seq<(int, int)>) -> Seq<int>
    decreases p.len(),
{
    if p.len() == 0 {
        Seq::empty()
    } else if p.last().1 % 2 == 1 {
        after_indices(p.drop_last()).push((p.last().1 - 1) / 2)
    } else {
        after_indices(p.drop_last())
    }
}

/// `0, 1, .., n - 1`.
pub open spec fn counting(n: int) -> Seq<int> {
    Seq::new(n as nat, |i: int| i)
}

/// The sum of a sequence.
pub open spec fn total(s: Seq<int>) -> int
    decreases s.len(),
{
    if s.len() == 0 {
        0
    } else {
        total(s.drop_last()) + s.last()
    }
}

/// The alignment that pairs nothing: every before-line alone, then every
/// after-line alone.
pub open spec fn unaligned_path(nb: int, na: int) -> Seq<(int, int)> {
    Seq::new(
        (nb + na) as nat,
        |i: int|
            if i < nb {
                (2 * i + 1, 0int)
            } else {
                (2 * nb, 2 * (i - nb) + 1)
            },
    )
}

/// Every edge into a step is weighed when its distance is taken: no
/// predecessor gives a cheaper way in.
pub proof fn lemma_edge_bounds_dist(g: Seq<Seq<int>>, px: int, py: int, x: int, y: int)
    requires
        is_edge(px, py, x, y),
    ensures
        best_dist(g, x, y) <= best_dist(g, px, py) + g[x][y],
        !is_root(x, y),
{
    reveal(best_dist);
}

/// The parent of a step that is no root is a step with an edge to it, and
/// the step's distance is the parent's plus its own weight.
pub proof fn lemma_parent_is_best(g: Seq<Seq<int>>, x: int, y: int)
    requires
        is_step(x, y),
        !is_root(x, y),
    ensures
        is_edge(best_parent(g, x, y).0, best_parent(g, x, y).1, x, y),
        best_dist(g, x, y) == best_dist(g, best_parent(g, x, y).0, best_parent(g, x, y).1)
            + g[x][y],
{
    reveal(best_dist);
}

/// A root is reached for free.
pub proof fn lemma_root_dist(g: Seq<Seq<int>>, x: int, y: int)
    requires
        is_root(x, y),
    ensures
        best_dist(g, x, y) == 0,
{
    reveal(best_dist);
}

/// The path to a step is a path of the grid, ends in that step and costs the
/// step's distance.
pub proof fn lemma_path_to_reaches(g: Seq<Seq<int>>, x: int, y: int)
    requires
        is_grid(g),
        is_step(x, y),
        in_grid(g, x, y),
    ensures
        is_path(g, path_to(g, x, y)),
        path_to(g, x, y).last() == (x, y),
        path_cost(g, path_to(g, x, y)) == best_dist(g, x, y),
    decreases x + y,
{
    let p = best_parent(g, x, y);
    if is_root(x, y) {
        lemma_root_dist(g, x, y);
        assert(path_to(g, 0, 0) =~= Seq::<(int, int)>::empty());
        assert(path_to(g, x, y) =~= seq![(x, y)]);
    } else {
        lemma_parent_is_best(g, x, y);
        lemma_path_to_reaches(g, p.0, p.1);
        let q = path_to(g, p.0, p.1);
        let r = path_to(g, x, y);
        assert(r == q.push((x, y)));
        assert(r.drop_last() =~= q);
        assert forall|i: int| 0 <= i < r.len() - 1 implies is_edge(
            (#[trigger] r[i]).0,
            r[i].1,
            r[i + 1].0,
            r[i + 1].1,
        ) by {
            if i < q.len() - 1 {
                assert(r[i] == q[i]);
                assert(r[i + 1] == q[i + 1]);
            }
        }
    }
}

/// A path without its last step is a path, with an edge to that last step.
pub proof fn lemma_path_prefix(g: Seq<Seq<int>>, p: Seq<(int, int)>)
    requires
        is_path(g, p),
        p.len() > 1,
    ensures
        is_path(g, p.drop_last()),
        is_edge(p.drop_last().last().0, p.drop_last().last().1, p.last().0, p.last().1),
{
    let q = p.drop_last();
    let n = p.len() as int;
    assert forall|i: int| 0 <= i < q.len() - 1 implies is_edge(
        (#[trigger] q[i]).0,
        q[i].1,
        q[i + 1].0,
        q[i + 1].1,
    ) by {
        assert(q[i] == p[i]);
        assert(q[i + 1] == p[i + 1]);
    }
    assert(q.last() == p[n - 2]);
    assert(is_edge(p[n - 2].0, p[n - 2].1, p[n - 2 + 1].0, p[n - 2 + 1].1));
}

/// No path to a step costs less than the step's distance.
pub proof fn lemma_dist_is_least(g: Seq<Seq<int>>, p: Seq<(int, int)>)
    requires
        is_path(g, p),
    ensures
        best_dist(g, p.last().0, p.last().1) <= path_cost(g, p),
    decreases p.len(),
{
    if p.len() > 1 {
        let q = p.drop_last();
        lemma_path_prefix(g, p);
        lemma_dist_is_least(g, q);
        lemma_edge_bounds_dist(g, q.last().0, q.last().1, p.last().0, p.last().1);
    } else {
        lemma_root_dist(g, p[0].0, p[0].1);
    }
}

/// A path takes the lines before its last step's position, each once and in
/// order, on both sides.
pub proof fn lemma_path_takes_lines_in_order(g: Seq<Seq<int>>, p: Seq<(int, int)>)
    requires
        is_path(g, p),
    ensures
        before_indices(p) == counting(ceil_even(p.last().0) / 2),
        after_indices(p) == counting(ceil_even(p.last().1) / 2),
    decreases p.len(),
{
    let q = p.drop_last();
    if p.len() > 1 {
        lemma_path_prefix(g, p);
        lemma_path_takes_lines_in_order(g, q);
    } else {
        assert(before_indices(q) =~= Seq::<int>::empty());
        assert(after_indices(q) =~= Seq::<int>::empty());
    }
    assert(before_indices(p) =~= counting(ceil_even(p.last().0) / 2));
    assert(after_indices(p) =~= counting(ceil_even(p.last().1) / 2));
}

/// The exit that the grid chooses is one of its exits; it chooses none only
/// where there is no line.
pub proof fn lemma_exit_point_is_exit(g: Seq<Seq<int>>)
    requires
        is_grid(g),
    ensures
        match exit_point(g) {
            None => g.len() == 1 && g[0].len() == 1,
            Some(e) => is_exit(g, e.0, e.1),
        },
{
    let w = g.len() as int;
    let h = g[0].len() as int;
    assert(w % 2 == 1 && h % 2 == 1);
    if w < 3 && h < 3 {
    } else if w < 3 {
        assert(is_exit(g, w - 1, h - 2));
    } else if h < 3 {
        assert(is_exit(g, w - 2, h - 1));
    } else {
        assert(is_exit(g, w - 2, h - 1));
        assert(is_exit(g, w - 1, h - 2));
        assert(is_exit(g, w - 2, h - 2));
    }
}

/// The path that the grid yields is an alignment.
pub proof fn lemma_alignment_path_is_alignment(g: Seq<Seq<int>>)
    requires
        is_grid(g),
    ensures
        is_alignment(g, alignment_path(g)),
{
    lemma_exit_point_is_exit(g);
    match exit_point(g) {
        None => {},
        Some(e) => {
            lemma_path_to_reaches(g, e.0, e.1);
        },
    }
}

/// Reconstruction: an alignment takes every before-line and every after-line
/// exactly once, in order.
pub proof fn lemma_alignment_takes_every_line(g: Seq<Seq<int>>, p: Seq<(int, int)>)
    requires
        is_grid(g),
        is_alignment(g, p),
    ensures
        before_indices(p) == counting((g.len() - 1) / 2),
        after_indices(p) == counting((g[0].len() - 1) / 2),
{
    if p.len() == 0 {
        assert(before_indices(p) =~= counting((g.len() - 1) / 2));
        assert(after_indices(p) =~= counting((g[0].len() - 1) / 2));
    } else {
        lemma_path_takes_lines_in_order(g, p);
    }
}

/// The exit that the grid chooses is the cheapest to reach.
pub proof fn lemma_exit_point_is_cheapest(g: Seq<Seq<int>>, x: int, y: int)
    requires
        is_grid(g),
        is_exit(g, x, y),
    ensures
        match exit_point(g) {
            None => false,
            Some(e) => best_dist(g, e.0, e.1) <= best_dist(g, x, y),
        },
{
    let w = g.len() as int;
    let h = g[0].len() as int;
    assert(w % 2 == 1 && h % 2 == 1);
    assert(x == w - 1 || x == w - 2);
    assert(y == h - 1 || y == h - 2);
}

/// Optimality: no alignment costs less than the one that the grid yields.
pub proof fn lemma_alignment_path_is_cheapest(g: Seq<Seq<int>>, p: Seq<(int, int)>)
    requires
        is_grid(g),
        is_alignment(g, p),
    ensures
        path_cost(g, alignment_path(g)) <= path_cost(g, p),
{
    lemma_exit_point_is_exit(g);
    match exit_point(g) {
        None => {},
        Some(e) => {
            lemma_path_to_reaches(g, e.0, e.1);
            lemma_dist_is_least(g, p);
            lemma_exit_point_is_cheapest(g, p.last().0, p.last().1);
        },
    }
}

/// The weight of every node of a path, the first one too.
pub open spec fn steps_weight(g: Seq<Seq<int>>, p: Seq<(int, int)>) -> int
    decreases p.len(),
{
    if p.len() == 0 {
        0
    } else {
        steps_weight(g, p.drop_last()) + g[p.last().0][p.last().1]
    }
}

/// The cost of a path leaves out the weight of its first node and nothing
/// else.
pub proof fn lemma_path_cost_skips_first(g: Seq<Seq<int>>, p: Seq<(int, int)>)
    requires
        p.len() > 0,
    ensures
        path_cost(g, p) == steps_weight(g, p) - g[p[0].0][p[0].1],
    decreases p.len(),
{
    if p.len() > 1 {
        lemma_path_cost_skips_first(g, p.drop_last());
    } else {
        assert(steps_weight(g, p.drop_last()) == 0);
    }
}

proof fn lemma_total_take(s: Seq<int>, k: int)
    requires
        0 <= k < s.len(),
    ensures
        total(s.take(k + 1)) == total(s.take(k)) + s[k],
{
    assert(s.take(k + 1).drop_last() =~= s.take(k));
}

proof fn lemma_unaligned_prefix_weight(
    unalign_b: Seq<int>,
    unalign_a: Seq<int>,
    paired: Seq<Seq<int>>,
    k: int,
)
    requires
        0 <= k <= unalign_b.len() + unalign_a.len(),
    ensures
        steps_weight(
            grid_of(unalign_b, unalign_a, paired),
            unaligned_path(unalign_b.len() as int, unalign_a.len() as int).take(k),
        ) == if k <= unalign_b.len() {
            total(unalign_b.take(k))
        } else {
            total(unalign_b) + total(unalign_a.take(k - unalign_b.len()))
        },
    decreases k,
{
    let g = grid_of(unalign_b, unalign_a, paired);
    let nb = unalign_b.len() as int;
    let na = unalign_a.len() as int;
    let u = unaligned_path(nb, na);
    if k > 0 {
        lemma_unaligned_prefix_weight(unalign_b, unalign_a, paired, k - 1);
        assert(u.take(k).drop_last() =~= u.take(k - 1));
        assert(u.take(k).last() == u[k - 1]);
        if k <= nb {
            lemma_total_take(unalign_b, k - 1);
        } else {
            lemma_total_take(unalign_a, k - 1 - nb);
            assert(unalign_b.take(nb) =~= unalign_b);
            assert(total(unalign_a.take(0)) == 0);
        }
    } else {
        assert(total(unalign_b.take(0)) == 0);
    }
}

/// The alignment that pairs nothing is an alignment, and the weights of its
/// steps add up to the cost of leaving every line alone.
pub proof fn lemma_unaligned_path_is_alignment(
    unalign_b: Seq<int>,
    unalign_a: Seq<int>,
    paired: Seq<Seq<int>>,
)
    ensures
        is_alignment(
            grid_of(unalign_b, unalign_a, paired),
            unaligned_path(unalign_b.len() as int, unalign_a.len() as int),
        ),
        steps_weight(
            grid_of(unalign_b, unalign_a, paired),
            unaligned_path(unalign_b.len() as int, unalign_a.len() as int),
        ) == total(unalign_b) + total(unalign_a),
{
    let g = grid_of(unalign_b, unalign_a, paired);
    let nb = unalign_b.len() as int;
    let na = unalign_a.len() as int;
    let u = unaligned_path(nb, na);
    assert(steps_weight(g, u) == total(unalign_b) + total(unalign_a)) by {
        lemma_unaligned_prefix_weight(unalign_b, unalign_a, paired, nb + na);
        assert(u.take(nb + na) =~= u);
        assert(unalign_b.take(nb) =~= unalign_b);
        assert(unalign_a.take(na) =~= unalign_a);
        assert(total(unalign_a.take(0)) == 0);
    }
    assert(g.len() == 2 * nb + 1 && g[0].len() == 2 * na + 1);
    if nb + na > 0 {
        assert forall|i: int| 0 <= i < u.len() implies is_step((#[trigger] u[i]).0, u[i].1)
            && in_grid(g, u[i].0, u[i].1) by {
            if i < nb {
                assert(u[i] == (2 * i + 1, 0int));
            } else {
                assert(u[i] == (2 * nb, 2 * (i - nb) + 1));
            }
        }
        assert forall|i: int| 0 <= i < u.len() - 1 implies is_edge(
            (#[trigger] u[i]).0,
            u[i].1,
            u[i + 1].0,
            u[i + 1].1,
        ) by {
            let (px, py) = u[i];
            let (x, y) = u[i + 1];
            if i + 1 < nb {
                assert(px == 2 * i + 1 && py == 0 && x == 2 * i + 3 && y == 0);
            } else if i < nb {
                assert(px == 2 * i + 1 && py == 0 && x == 2 * nb && y == 1);
            } else {
                assert(px == 2 * nb && py == 2 * (i - nb) + 1 && x == 2 * nb && y == 2 * (i - nb)
                    + 3);
            }
        }
        let last = u[nb + na - 1];
        assert(u.last() == last);
        if na > 0 {
            assert(last == (2 * nb, 2 * (na - 1) + 1));
        } else {
            assert(last == (2 * (nb - 1) + 1, 0int));
        }
        assert(is_exit(g, last.0, last.1));
        if nb > 0 {
            assert(u[0] == (1int, 0int));
        } else {
            assert(u[0] == (0int, 1int));
        }
        assert(is_root(u[0].0, u[0].1));
    }
}

/// The grid over any costs is a grid, and holds each node's weight.
pub proof fn lemma_grid_of_is_grid(unalign_b: Seq<int>, unalign_a: Seq<int>, paired: Seq<Seq<int>>)
    ensures
        is_grid(grid_of(unalign_b, unalign_a, paired)),
        grid_of(unalign_b, unalign_a, paired).len() == 2 * unalign_b.len() + 1,
        grid_of(unalign_b, unalign_a, paired)[0].len() == 2 * unalign_a.len() + 1,
        forall|x: int, y: int|
            0 <= x < 2 * unalign_b.len() + 1 && 0 <= y < 2 * unalign_a.len() + 1 ==> (
            #[trigger] grid_of(unalign_b, unalign_a, paired)[x][y]) == node_weight(
                unalign_b,
                unalign_a,
                paired,
                x,
                y,
            ),
{
}

/// The first step of the alignment that pairs nothing costs what one line
/// costs to leave alone.
proof fn lemma_unaligned_first(unalign_b: Seq<int>, unalign_a: Seq<int>, paired: Seq<Seq<int>>)
    requires
        unalign_b.len() + unalign_a.len() > 0,
    ensures
        ({
            let u = unaligned_path(unalign_b.len() as int, unalign_a.len() as int);
            grid_of(unalign_b, unalign_a, paired)[u[0].0][u[0].1] == if unalign_b.len() > 0 {
                unalign_b[0]
            } else {
                unalign_a[0]
            }
        }),
{
}

/// The cost of the alignment that the grid yields is at most the cost of
/// leaving every line alone, whenever no line costs less than nothing to
/// leave alone. The paired costs may be any integers.
pub proof fn lemma_alignment_within_baseline(
    unalign_b: Seq<int>,
    unalign_a: Seq<int>,
    paired: Seq<Seq<int>>,
)
    requires
        forall|i: int| 0 <= i < unalign_b.len() ==> unalign_b[i] >= 0,
        forall|j: int| 0 <= j < unalign_a.len() ==> unalign_a[j] >= 0,
    ensures
        path_cost(
            grid_of(unalign_b, unalign_a, paired),
            alignment_path(grid_of(unalign_b, unalign_a, paired)),
        ) <= total(unalign_b) + total(unalign_a),
{
    let g = grid_of(unalign_b, unalign_a, paired);
    let nb = unalign_b.len() as int;
    let na = unalign_a.len() as int;
    let u = unaligned_path(nb, na);
    assert(is_grid(g) && g.len() == 2 * nb + 1 && g[0].len() == 2 * na + 1) by {
        lemma_grid_of_is_grid(unalign_b, unalign_a, paired);
    }
    lemma_unaligned_path_is_alignment(unalign_b, unalign_a, paired);
    if nb + na > 0 {
        assert(u.len() > 0);
        lemma_alignment_path_is_cheapest(g, u);
        lemma_path_cost_skips_first(g, u);
        lemma_unaligned_first(unalign_b, unalign_a, paired);
    } else {
        assert(total(unalign_b) == 0 && total(unalign_a) == 0);
        assert(exit_point(g) is None);
        assert(alignment_path(g).len() == 0);
    }
}

/// The number of lines that a path to `(x, y)` has taken.
pub open spec fn lines_taken(x: int, y: int) -> int {
    ceil_even(x) / 2 + ceil_even(y) / 2
}

/// Every weight of the grid lies within `limit` of zero.
pub open spec fn weights_within(g: Seq<Seq<int>>, limit: int) -> bool {
    forall|x: int, y: int| in_grid(g, x, y) ==> -limit <= #[trigger] g[x][y] <= limit
}

/// With every weight within `limit` of zero, the distance of a step is
/// within `limit` times the number of steps that lead to it.
pub proof fn lemma_dist_bounded(g: Seq<Seq<int>>, limit: int, x: int, y: int)
    requires
        is_grid(g),
        weights_within(g, limit),
        is_step(x, y),
        in_grid(g, x, y),
    ensures
        -((lines_taken(x, y) - 1) * limit) <= best_dist(g, x, y) <= (lines_taken(x, y) - 1)
            * limit,
    decreases x + y,
{
    reveal(best_dist);
    assert(in_grid(g, 0, 0));
    assert(-limit <= g[0][0] <= limit);
    let n = lines_taken(x, y);
    if is_root(x, y) {
        assert(0 <= (n - 1) * limit) by (nonlinear_arith)
            requires
                n >= 1,
                limit >= 0,
        ;
    } else {
        let p = best_parent(g, x, y);
        lemma_parent_is_best(g, x, y);
        lemma_dist_bounded(g, limit, p.0, p.1);
        let m = lines_taken(p.0, p.1);
        assert(1 <= m <= n - 1);
        assert((m - 1) * limit + limit <= (n - 1) * limit) by (nonlinear_arith)
            requires
                m <= n - 1,
                limit >= 0,
        ;
        assert(-limit <= g[x][y] <= limit);
    }
}

/// Step `(px, py)` comes before `(cx, cy)` when the grid is scanned column by
/// column, each from the top.
pub open spec fn scanned(px: int, py: int, cx: int, cy: int) -> bool {
    px < cx || (px == cx && py < cy)
}

/// What relaxing over the edge from `(px, py)` makes of a node's distance and
/// parent: the new way in wins only where it is strictly cheaper.
pub open spec fn relax_step(
    cur: Option<(int, (int, int))>,
    g: Seq<Seq<int>>,
    px: int,
    py: int,
    x: int,
    y: int,
) -> Option<(int, (int, int))> {
    let candidate = best_dist(g, px, py) + g[x][y];
    match cur {
        None => Some((candidate, (px, py))),
        Some((d, _)) => if d > candidate {
            Some((candidate, (px, py)))
        } else {
            cur
        },
    }
}

/// The distance and parent of node `(x, y)` once the scan has come to
/// `(cx, cy)`, and, with `current`, has relaxed the edge from there too.
/// `None` stands for a node that no edge has reached.
#[verifier::opaque]
pub open spec fn relaxed_so_far(
    g: Seq<Seq<int>>,
    x: int,
    y: int,
    cx: int,
    cy: int,
    current: bool,
) -> Option<(int, (int, int))> {
    let bx = floor_even(x);
    let by = floor_even(y);
    if !is_step(x, y) {
        None
    } else if is_root(x, y) {
        Some((0, (0, 0)))
    } else {
        let s0 = None;
        let s1 = if bx >= 2 && by >= 2 && (scanned(bx - 1, by - 1, cx, cy) || (current && cx == bx
            - 1 && cy == by - 1)) {
            relax_step(s0, g, bx - 1, by - 1, x, y)
        } else {
            s0
        };
        let s2 = if bx >= 2 && (scanned(bx - 1, by, cx, cy) || (current && cx == bx - 1 && cy
            == by)) {
            relax_step(s1, g, bx - 1, by, x, y)
        } else {
            s1
        };
        let s3 = if by >= 2 && (scanned(bx, by - 1, cx, cy) || (current && cx == bx && cy == by
            - 1)) {
            relax_step(s2, g, bx, by - 1, x, y)
        } else {
            s2
        };
        s3
    }
}

/// Before the scan starts, only the roots are reached.
pub proof fn lemma_nothing_scanned(g: Seq<Seq<int>>, x: int, y: int)
    requires
        x >= 0,
        y >= 0,
    ensures
        relaxed_so_far(g, x, y, 0, 0, false) == if is_root(x, y) {
            Some((0int, (0int, 0int)))
        } else {
            None
        },
{
    reveal(relaxed_so_far);
}

/// No edge ever reaches a shaping node.
pub proof fn lemma_shaping_node_unreached(
    g: Seq<Seq<int>>,
    x: int,
    y: int,
    cx: int,
    cy: int,
    current: bool,
)
    requires
        !is_step(x, y),
    ensures
        relaxed_so_far(g, x, y, cx, cy, current) is None,
{
    reveal(relaxed_so_far);
}

/// Only a node that an edge from the step under the scan leads to changes
/// when the edges from that step are relaxed.
pub proof fn lemma_current_only_edges(g: Seq<Seq<int>>, x: int, y: int, cx: int, cy: int)
    requires
        !is_edge(cx, cy, x, y),
        is_step(cx, cy),
    ensures
        relaxed_so_far(g, x, y, cx, cy, true) == relaxed_so_far(g, x, y, cx, cy, false),
{
    reveal(relaxed_so_far);
}

/// A step has its distance and parent once the scan has come to it: every
/// edge into it starts at a step that was scanned before.
pub proof fn lemma_scanned_step_is_settled(g: Seq<Seq<int>>, x: int, y: int, cx: int, cy: int)
    requires
        is_step(x, y),
        x == cx && y == cy || scanned(x, y, cx, cy),
    ensures
        relaxed_so_far(g, x, y, cx, cy, false) == Some(
            (best_dist(g, x, y), best_parent(g, x, y)),
        ),
{
    reveal(best_dist);
    reveal(relaxed_so_far);
}

/// Relaxing over the edge from the step under the scan is the next step of
/// `relaxed_so_far`.
pub proof fn lemma_relax_current(g: Seq<Seq<int>>, x: int, y: int, cx: int, cy: int)
    requires
        is_edge(cx, cy, x, y),
    ensures
        relaxed_so_far(g, x, y, cx, cy, true) == relax_step(
            relaxed_so_far(g, x, y, cx, cy, false),
            g,
            cx,
            cy,
            x,
            y,
        ),
{
    reveal(relaxed_so_far);
}

/// Moving the scan on by one node in its column takes in exactly the edges
/// from the node that it leaves.
pub proof fn lemma_scan_advances(g: Seq<Seq<int>>, x: int, y: int, cx: int, cy: int)
    requires
        cx >= 0,
        cy >= 0,
    ensures
        relaxed_so_far(g, x, y, cx, cy + 1, false) == relaxed_so_far(
            g,
            x,
            y,
            cx,
            cy,
            is_edge(cx, cy, x, y),
        ),
{
    reveal(relaxed_so_far);
}

/// Moving the scan from the end of one column to the top of the next takes
/// in nothing.
pub proof fn lemma_scan_wraps(g: Seq<Seq<int>>, x: int, y: int, cx: int)
    requires
        is_grid(g),
        in_grid(g, x, y),
    ensures
        relaxed_so_far(g, x, y, cx + 1, 0, false) == relaxed_so_far(
            g,
            x,
            y,
            cx,
            g[0].len() as int,
            false,
        ),
{
    reveal(relaxed_so_far);
}

/// The entry that step `(x, y)` stands for: the index of the before-line
/// that it takes, if any, and that of the after-line.
pub open spec fn entry_of(x: int, y: int) -> (Option<usize>, Option<usize>) {
    (
        if x % 2 == 1 {
            Some(((x - 1) / 2) as usize)
        } else {
            None
        },
        if y % 2 == 1 {
            Some(((y - 1) / 2) as usize)
        } else {
            None
        },
    )
}

/// The entries of a path, in order.
pub open spec fn path_entries(p: Seq<(int, int)>) -> Seq<(Option<usize>, Option<usize>)> {
    Seq::new(p.len(), |k: int| entry_of(p[k].0, p[k].1))
}

/// The entries of the alignment that the grid yields.
pub open spec fn alignment_entries(g: Seq<Seq<int>>) -> Seq<(Option<usize>, Option<usize>)> {
    path_entries(alignment_path(g))
}

/// The before-sides that are present, in order.
pub open spec fn before_sides<T>(entries: Seq<(Option<T>, Option<T>)>) -> Seq<T>
    decreases entries.len(),
{
    if entries.len() == 0 {
        Seq::empty()
    } else {
        match entries.last().0 {
            Some(b) => before_sides(entries.drop_last()).push(b),
            None => before_sides(entries.drop_last()),
        }
    }
}

/// The after-sides that are present, in order.
pub open spec fn after_sides<T>(entries: Seq<(Option<T>, Option<T>)>) -> Seq<T>
    decreases entries.len(),
{
    if entries.len() == 0 {
        Seq::empty()
    } else {
        match entries.last().1 {
            Some(a) => after_sides(entries.drop_last()).push(a),
            None => after_sides(entries.drop_last()),
        }
    }
}

/// What an entry costs: the pairing of its two lines, or what its one line
/// costs to leave alone.
pub open spec fn entry_cost(
    unalign_b: Seq<int>,
    unalign_a: Seq<int>,
    paired: Seq<Seq<int>>,
    entry: (Option<usize>, Option<usize>),
) -> int {
    match entry {
        (Some(i), Some(j)) => paired[i as int][j as int],
        (Some(i), None) => unalign_b[i as int],
        (None, Some(j)) => unalign_a[j as int],
        (None, None) => -1,
    }
}

/// The cost of an alignment: what every entry after the first costs. The
/// first is where the implicit source leads, for free.
pub open spec fn alignment_cost(
    unalign_b: Seq<int>,
    unalign_a: Seq<int>,
    paired: Seq<Seq<int>>,
    entries: Seq<(Option<usize>, Option<usize>)>,
) -> int
    decreases entries.len(),
{
    if entries.len() <= 1 {
        0
    } else {
        alignment_cost(unalign_b, unalign_a, paired, entries.drop_last()) + entry_cost(
            unalign_b,
            unalign_a,
            paired,
            entries.last(),
        )
    }
}

/// The sides of a path's entries are the lines that the path takes.
pub proof fn lemma_entries_sides(p: Seq<(int, int)>)
    requires
        forall|k: int| 0 <= k < p.len() ==> is_step((#[trigger] p[k]).0, p[k].1),
    ensures
        before_sides(path_entries(p)) == before_indices(p).map_values(|i: int| i as usize),
        after_sides(path_entries(p)) == after_indices(p).map_values(|i: int| i as usize),
        forall|k: int|
            0 <= k < p.len() ==> (#[trigger] path_entries(p)[k]).0 is Some || path_entries(
                p,
            )[k].1 is Some,
    decreases p.len(),
{
    let e = path_entries(p);
    if p.len() == 0 {
        assert(before_sides(e) =~= before_indices(p).map_values(|i: int| i as usize));
        assert(after_sides(e) =~= after_indices(p).map_values(|i: int| i as usize));
    } else {
        let q = p.drop_last();
        lemma_entries_sides(q);
        assert(e.drop_last() =~= path_entries(q));
        assert(e.last() == entry_of(p.last().0, p.last().1));
        assert(before_sides(e) =~= before_indices(p).map_values(|i: int| i as usize));
        assert(after_sides(e) =~= after_indices(p).map_values(|i: int| i as usize));
    }
    assert forall|k: int| 0 <= k < p.len() implies (#[trigger] path_entries(p)[k]).0 is Some
        || path_entries(p)[k].1 is Some by {
        assert(is_step(p[k].0, p[k].1));
    }
}

/// The cost of a path through the grid over some costs is the cost of its
/// entries.
pub proof fn lemma_entries_cost(
    unalign_b: Seq<int>,
    unalign_a: Seq<int>,
    paired: Seq<Seq<int>>,
    p: Seq<(int, int)>,
)
    requires
        forall|k: int|
            0 <= k < p.len() ==> is_step((#[trigger] p[k]).0, p[k].1) && in_grid(
                grid_of(unalign_b, unalign_a, paired),
                p[k].0,
                p[k].1,
            ),
        unalign_b.len() <= usize::MAX,
        unalign_a.len() <= usize::MAX,
    ensures
        alignment_cost(unalign_b, unalign_a, paired, path_entries(p)) == path_cost(
            grid_of(unalign_b, unalign_a, paired),
            p,
        ),
    decreases p.len(),
{
    let g = grid_of(unalign_b, unalign_a, paired);
    let e = path_entries(p);
    lemma_grid_of_is_grid(unalign_b, unalign_a, paired);
    if p.len() > 1 {
        let q = p.drop_last();
        lemma_entries_cost(unalign_b, unalign_a, paired, q);
        assert(e.drop_last() =~= path_entries(q));
        let (x, y) = p.last();
        assert(is_step(p[p.len() - 1].0, p[p.len() - 1].1));
        assert(e.last() == entry_of(x, y));
        assert(g[x][y] == node_weight(unalign_b, unalign_a, paired, x, y));
    }
}

/// Reconstruction: the before-sides of the alignment that a grid yields are
/// the before-lines, each once and in order, and its after-sides are the
/// after-lines. So as many entries have a before-side as there are
/// before-lines, and likewise on the after-side.
pub proof fn lemma_alignment_reconstructs(
    unalign_b: Seq<int>,
    unalign_a: Seq<int>,
    paired: Seq<Seq<int>>,
)
    ensures
        before_sides(alignment_entries(grid_of(unalign_b, unalign_a, paired))) == Seq::new(
            unalign_b.len(),
            |i: int| i as usize,
        ),
        after_sides(alignment_entries(grid_of(unalign_b, unalign_a, paired))) == Seq::new(
            unalign_a.len(),
            |j: int| j as usize,
        ),
        before_sides(alignment_entries(grid_of(unalign_b, unalign_a, paired))).len()
            == unalign_b.len(),
        after_sides(alignment_entries(grid_of(unalign_b, unalign_a, paired))).len()
            == unalign_a.len(),
{
    let g = grid_of(unalign_b, unalign_a, paired);
    let p = alignment_path(g);
    lemma_grid_of_is_grid(unalign_b, unalign_a, paired);
    lemma_alignment_path_is_alignment(g);
    lemma_alignment_takes_every_line(g, p);
    lemma_entries_sides(p);
    assert(before_indices(p).map_values(|i: int| i as usize) =~= Seq::new(
        unalign_b.len(),
        |i: int| i as usize,
    ));
    assert(after_indices(p).map_values(|i: int| i as usize) =~= Seq::new(
        unalign_a.len(),
        |j: int| j as usize,
    ));
}

/// No double absence: every entry of the alignment that a grid yields has a
/// before-side or an after-side.
pub proof fn lemma_alignment_entries_present(g: Seq<Seq<int>>)
    requires
        is_grid(g),
    ensures
        forall|k: int|
            0 <= k < alignment_entries(g).len() ==> (#[trigger] alignment_entries(g)[k]).0 is Some
                || alignment_entries(g)[k].1 is Some,
{
    lemma_alignment_path_is_alignment(g);
    lemma_entries_sides(alignment_path(g));
}

/// Optimality: no alignment costs less than the one that the grid yields.
pub proof fn lemma_alignment_cost_is_least(
    unalign_b: Seq<int>,
    unalign_a: Seq<int>,
    paired: Seq<Seq<int>>,
    other: Seq<(int, int)>,
)
    requires
        unalign_b.len() <= usize::MAX,
        unalign_a.len() <= usize::MAX,
        is_alignment(grid_of(unalign_b, unalign_a, paired), other),
    ensures
        alignment_cost(
            unalign_b,
            unalign_a,
            paired,
            alignment_entries(grid_of(unalign_b, unalign_a, paired)),
        ) <= alignment_cost(unalign_b, unalign_a, paired, path_entries(other)),
{
    let g = grid_of(unalign_b, unalign_a, paired);
    lemma_grid_of_is_grid(unalign_b, unalign_a, paired);
    lemma_alignment_path_is_alignment(g);
    lemma_alignment_path_is_cheapest(g, other);
    lemma_entries_cost(unalign_b, unalign_a, paired, alignment_path(g));
    lemma_entries_cost(unalign_b, unalign_a, paired, other);
}

/// The baseline bound: where no line costs less than nothing to leave alone,
/// the alignment that the grid yields costs at most what it costs to leave
/// every line alone. The paired costs may be any integers.
pub proof fn lemma_alignment_cost_within_baseline(
    unalign_b: Seq<int>,
    unalign_a: Seq<int>,
    paired: Seq<Seq<int>>,
)
    requires
        unalign_b.len() <= usize::MAX,
        unalign_a.len() <= usize::MAX,
        forall|i: int| 0 <= i < unalign_b.len() ==> unalign_b[i] >= 0,
        forall|j: int| 0 <= j < unalign_a.len() ==> unalign_a[j] >= 0,
    ensures
        alignment_cost(
            unalign_b,
            unalign_a,
            paired,
            alignment_entries(grid_of(unalign_b, unalign_a, paired)),
        ) <= total(unalign_b) + total(unalign_a),
{
    let g = grid_of(unalign_b, unalign_a, paired);
    lemma_grid_of_is_grid(unalign_b, unalign_a, paired);
    lemma_alignment_path_is_alignment(g);
    lemma_alignment_within_baseline(unalign_b, unalign_a, paired);
    lemma_entries_cost(unalign_b, unalign_a, paired, alignment_path(g));
}

/// The entries with each index replaced by the line that it stands for.
pub open spec fn entries_over<T>(
    lines_b: Seq<T>,
    lines_a: Seq<T>,
    entries: Seq<(Option<usize>, Option<usize>)>,
) -> Seq<(Option<T>, Option<T>)> {
    Seq::new(
        entries.len(),
        |k: int|
            (
                match entries[k].0 {
                    Some(i) => Some(lines_b[i as int]),
                    None => None,
                },
                match entries[k].1 {
                    Some(j) => Some(lines_a[j as int]),
                    None => None,
                },
            ),
    )
}

/// The sides of entries over lines are the lines that the sides of the
/// entries stand for.
pub proof fn lemma_sides_over<T>(
    lines_b: Seq<T>,
    lines_a: Seq<T>,
    entries: Seq<(Option<usize>, Option<usize>)>,
)
    ensures
        before_sides(entries_over(lines_b, lines_a, entries)) == before_sides(entries).map_values(
            |i: usize| lines_b[i as int],
        ),
        after_sides(entries_over(lines_b, lines_a, entries)) == after_sides(entries).map_values(
            |j: usize| lines_a[j as int],
        ),
    decreases entries.len(),
{
    let over = entries_over(lines_b, lines_a, entries);
    if entries.len() > 0 {
        lemma_sides_over(lines_b, lines_a, entries.drop_last());
        assert(over.drop_last() =~= entries_over(lines_b, lines_a, entries.drop_last()));
    }
    assert(before_sides(over) =~= before_sides(entries).map_values(|i: usize| lines_b[i as int]));
    assert(after_sides(over) =~= after_sides(entries).map_values(|j: usize| lines_a[j as int]));
}

/// Reconstruction over lines: the before-sides of the alignment that a grid
/// yields, each index replaced by its line, are the before-lines, and the
/// after-sides are the after-lines.
pub proof fn lemma_alignment_reconstructs_lines<T>(
    lines_b: Seq<T>,
    lines_a: Seq<T>,
    unalign_b: Seq<int>,
    unalign_a: Seq<int>,
    paired: Seq<Seq<int>>,
)
    requires
        lines_b.len() == unalign_b.len() <= usize::MAX,
        lines_a.len() == unalign_a.len() <= usize::MAX,
    ensures
        before_sides(
            entries_over(
                lines_b,
                lines_a,
                alignment_entries(grid_of(unalign_b, unalign_a, paired)),
            ),
        ) == lines_b,
        after_sides(
            entries_over(
                lines_b,
                lines_a,
                alignment_entries(grid_of(unalign_b, unalign_a, paired)),
            ),
        ) == lines_a,
{
    let entries = alignment_entries(grid_of(unalign_b, unalign_a, paired));
    lemma_alignment_reconstructs(unalign_b, unalign_a, paired);
    lemma_sides_over(lines_b, lines_a, entries);
    assert(before_sides(entries).map_values(|i: usize| lines_b[i as int]) =~= lines_b);
    assert(after_sides(entries).map_values(|j: usize| lines_a[j as int]) =~= lines_a);
}

/// Every index in the alignment that a grid yields is the index of a line.
pub proof fn lemma_entries_in_lines(unalign_b: Seq<int>, unalign_a: Seq<int>, paired: Seq<Seq<int>>)
    requires
        unalign_b.len() <= usize::MAX,
        unalign_a.len() <= usize::MAX,
    ensures
        forall|k: int|
            0 <= k < alignment_entries(grid_of(unalign_b, unalign_a, paired)).len()
                ==> match #[trigger] alignment_entries(grid_of(unalign_b, unalign_a, paired))[k] {
                (Some(i), Some(j)) => i < unalign_b.len() && j < unalign_a.len(),
                (Some(i), None) => i < unalign_b.len(),
                (None, Some(j)) => j < unalign_a.len(),
                (None, None) => true,
            },
{
    let g = grid_of(unalign_b, unalign_a, paired);
    let p = alignment_path(g);
    lemma_grid_of_is_grid(unalign_b, unalign_a, paired);
    lemma_alignment_path_is_alignment(g);
    assert forall|k: int| 0 <= k < alignment_entries(g).len() implies match #[trigger] alignment_entries(
        g,
    )[k] {
        (Some(i), Some(j)) => i < unalign_b.len() && j < unalign_a.len(),
        (Some(i), None) => i < unalign_b.len(),
        (None, Some(j)) => j < unalign_a.len(),
        (None, None) => true,
    } by {
        assert(p.len() > 0);
        assert(is_path(g, p));
        assert(in_grid(g, p[k].0, p[k].1) && is_step(p[k].0, p[k].1));
        lemma_entry_in_lines(unalign_b.len() as int, unalign_a.len() as int, p[k].0, p[k].1);
    }
}

/// The entry of a node of the grid holds indices of lines.
proof fn lemma_entry_in_lines(nb: int, na: int, x: int, y: int)
    requires
        0 <= nb <= usize::MAX,
        0 <= na <= usize::MAX,
        0 <= x < 2 * nb + 1,
        0 <= y < 2 * na + 1,
    ensures
        match entry_of(x, y) {
            (Some(i), Some(j)) => i < nb && j < na,
            (Some(i), None) => i < nb,
            (None, Some(j)) => j < na,
            (None, None) => true,
        },
{
}

/// In a grid without before-lines, the path to an after-line takes the
/// after-lines up to it, one after the other.
pub proof fn lemma_path_down_first_column(g: Seq<Seq<int>>, k: int)
    requires
        k >= 0,
    ensures
        path_to(g, 0, 2 * k + 1) == Seq::new((k + 1) as nat, |j: int| (0int, 2 * j + 1)),
    decreases k,
{
    let p = path_to(g, 0, 2 * k + 1);
    let want = Seq::new((k + 1) as nat, |j: int| (0int, 2 * j + 1));
    if k == 0 {
        assert(path_to(g, 0, 0) =~= Seq::<(int, int)>::empty());
        assert(p =~= want);
    } else {
        lemma_path_down_first_column(g, k - 1);
        assert(best_parent(g, 0, 2 * k + 1) == (0int, 2 * k - 1));
        assert(p =~= want);
    }
}

/// In a grid without after-lines, the path to a before-line takes the
/// before-lines up to it, one after the other.
pub proof fn lemma_path_along_first_row(g: Seq<Seq<int>>, k: int)
    requires
        k >= 0,
    ensures
        path_to(g, 2 * k + 1, 0) == Seq::new((k + 1) as nat, |i: int| (2 * i + 1, 0int)),
    decreases k,
{
    let p = path_to(g, 2 * k + 1, 0);
    let want = Seq::new((k + 1) as nat, |i: int| (2 * i + 1, 0int));
    if k == 0 {
        assert(path_to(g, 0, 0) =~= Seq::<(int, int)>::empty());
        assert(p =~= want);
    } else {
        lemma_path_along_first_row(g, k - 1);
        assert(best_parent(g, 2 * k + 1, 0) == (2 * k - 1, 0int));
        assert(p =~= want);
    }
}

/// Pure insertion: without before-lines, the alignment is every after-line
/// alone, in order.
pub proof fn lemma_no_before_lines_inserts(unalign_a: Seq<int>, paired: Seq<Seq<int>>)
    requires
        unalign_a.len() <= usize::MAX,
    ensures
        alignment_entries(grid_of(Seq::empty(), unalign_a, paired)) == Seq::new(
            unalign_a.len(),
            |j: int| (None::<usize>, Some(j as usize)),
        ),
{
    let g = grid_of(Seq::empty(), unalign_a, paired);
    let na = unalign_a.len() as int;
    lemma_grid_of_is_grid(Seq::empty(), unalign_a, paired);
    if na > 0 {
        lemma_path_down_first_column(g, na - 1);
        assert(exit_point(g) == Some((0int, 2 * (na - 1) + 1)));
    }
    assert(alignment_entries(g) =~= Seq::new(
        unalign_a.len(),
        |j: int| (None::<usize>, Some(j as usize)),
    ));
}

/// Pure deletion: without after-lines, the alignment is every before-line
/// alone, in order.
pub proof fn lemma_no_after_lines_deletes(unalign_b: Seq<int>, paired: Seq<Seq<int>>)
    requires
        unalign_b.len() <= usize::MAX,
    ensures
        alignment_entries(grid_of(unalign_b, Seq::empty(), paired)) == Seq::new(
            unalign_b.len(),
            |i: int| (Some(i as usize), None::<usize>),
        ),
{
    let g = grid_of(unalign_b, Seq::empty(), paired);
    let nb = unalign_b.len() as int;
    lemma_grid_of_is_grid(unalign_b, Seq::empty(), paired);
    if nb > 0 {
        lemma_path_along_first_row(g, nb - 1);
        assert(exit_point(g) == Some((2 * (nb - 1) + 1, 0int)));
    }
    assert(alignment_entries(g) =~= Seq::new(
        unalign_b.len(),
        |i: int| (Some(i as usize), None::<usize>),
    ));
}

/// A single replaced line: one before-line and one after-line, neither of
/// which costs less than nothing to leave alone, are paired, whatever the
/// pair costs. The implicit source reaches the pair for free, and the pair
/// is an exit.
pub proof fn lemma_single_lines_pair(unalign_b: Seq<int>, unalign_a: Seq<int>, paired: Seq<Seq<int>>)
    requires
        unalign_b.len() == 1,
        unalign_a.len() == 1,
        unalign_b[0] >= 0,
        unalign_a[0] >= 0,
    ensures
        alignment_entries(grid_of(unalign_b, unalign_a, paired)) == seq![
            (Some(0usize), Some(0usize)),
        ],
{
    let g = grid_of(unalign_b, unalign_a, paired);
    lemma_grid_of_is_grid(unalign_b, unalign_a, paired);
    reveal(best_dist);
    assert(best_dist(g, 1, 1) == 0);
    assert(best_dist(g, 0, 1) == 0);
    assert(best_dist(g, 1, 0) == 0);
    assert(g[1][2] == unalign_b[0]);
    assert(g[2][1] == unalign_a[0]);
    assert(best_dist(g, 1, 2) == unalign_b[0]);
    assert(best_dist(g, 2, 1) == unalign_a[0]);
    assert(exit_point(g) == Some((1int, 1int)));
    assert(path_to(g, 0, 0) =~= Seq::<(int, int)>::empty());
    assert(path_to(g, 1, 1) =~= seq![(1int, 1int)]);
    assert(alignment_entries(g) =~= seq![(Some(0usize), Some(0usize))]);
}

/// No cost is less than nothing.
pub open spec fn costs_not_negative(
    unalign_b: Seq<int>,
    unalign_a: Seq<int>,
    paired: Seq<Seq<int>>,
) -> bool {
    &&& forall|i: int| 0 <= i < unalign_b.len() ==> #[trigger] unalign_b[i] >= 0
    &&& forall|j: int| 0 <= j < unalign_a.len() ==> #[trigger] unalign_a[j] >= 0
    &&& forall|i: int, j: int|
        0 <= i < unalign_b.len() && 0 <= j < unalign_a.len() ==> #[trigger] paired[i][j] >= 0
}

/// Where no cost is less than nothing, no distance is.
pub proof fn lemma_dist_not_negative(
    unalign_b: Seq<int>,
    unalign_a: Seq<int>,
    paired: Seq<Seq<int>>,
    x: int,
    y: int,
)
    requires
        costs_not_negative(unalign_b, unalign_a, paired),
        is_step(x, y),
        in_grid(grid_of(unalign_b, unalign_a, paired), x, y),
    ensures
        best_dist(grid_of(unalign_b, unalign_a, paired), x, y) >= 0,
    decreases x + y,
{
    let g = grid_of(unalign_b, unalign_a, paired);
    lemma_grid_of_is_grid(unalign_b, unalign_a, paired);
    if is_root(x, y) {
        lemma_root_dist(g, x, y);
    } else {
        let p = best_parent(g, x, y);
        lemma_parent_is_best(g, x, y);
        lemma_dist_not_negative(unalign_b, unalign_a, paired, p.0, p.1);
        assert(g[x][y] == node_weight(unalign_b, unalign_a, paired, x, y));
        if x % 2 == 1 && y % 2 == 1 {
            assert(paired[(x - 1) / 2][(y - 1) / 2] >= 0);
        } else if x % 2 == 1 {
            assert(unalign_b[(x - 1) / 2] >= 0);
        } else {
            assert(unalign_a[(y - 1) / 2] >= 0);
        }
    }
}

/// Where no cost is less than nothing and each before-line pairs with the
/// after-line of its own index for nothing, the path to the pair of lines
/// `i` pairs every line up to it with the line of its own index, for
/// nothing.
pub proof fn lemma_path_down_diagonal(
    unalign_b: Seq<int>,
    unalign_a: Seq<int>,
    paired: Seq<Seq<int>>,
    i: int,
)
    requires
        costs_not_negative(unalign_b, unalign_a, paired),
        unalign_b.len() == unalign_a.len(),
        forall|k: int| 0 <= k < unalign_b.len() ==> (#[trigger] paired[k])[k] == 0,
        0 <= i < unalign_b.len(),
    ensures
        best_dist(grid_of(unalign_b, unalign_a, paired), 2 * i + 1, 2 * i + 1) == 0,
        path_to(grid_of(unalign_b, unalign_a, paired), 2 * i + 1, 2 * i + 1) == Seq::new(
            (i + 1) as nat,
            |k: int| (2 * k + 1, 2 * k + 1),
        ),
    decreases i,
{
    let g = grid_of(unalign_b, unalign_a, paired);
    let x = 2 * i + 1;
    let want = Seq::new((i + 1) as nat, |k: int| (2 * k + 1, 2 * k + 1));
    lemma_grid_of_is_grid(unalign_b, unalign_a, paired);
    if i == 0 {
        lemma_root_dist(g, 1, 1);
        assert(path_to(g, 0, 0) =~= Seq::<(int, int)>::empty());
        assert(path_to(g, 1, 1) =~= want);
    } else {
        lemma_path_down_diagonal(unalign_b, unalign_a, paired, i - 1);
        lemma_dist_not_negative(unalign_b, unalign_a, paired, x - 2, x - 1);
        lemma_dist_not_negative(unalign_b, unalign_a, paired, x - 1, x - 2);
        assert(g[x][x] == node_weight(unalign_b, unalign_a, paired, x, x));
        assert(paired[i][i] == 0);
        assert(best_parent(g, x, x) == (x - 2, x - 2));
        reveal(best_dist);
        assert(best_dist(g, x, x) == 0);
        assert(path_to(g, x, x) =~= want);
    }
}

/// The identity case: where no cost is less than nothing and each
/// before-line pairs with the after-line of its own index for nothing, the
/// alignment pairs every line with the line of its own index.
pub proof fn lemma_equal_lines_pair_up(
    unalign_b: Seq<int>,
    unalign_a: Seq<int>,
    paired: Seq<Seq<int>>,
)
    requires
        costs_not_negative(unalign_b, unalign_a, paired),
        unalign_b.len() == unalign_a.len() <= usize::MAX,
        forall|k: int| 0 <= k < unalign_b.len() ==> (#[trigger] paired[k])[k] == 0,
    ensures
        alignment_entries(grid_of(unalign_b, unalign_a, paired)) == Seq::new(
            unalign_b.len(),
            |i: int| (Some(i as usize), Some(i as usize)),
        ),
{
    let g = grid_of(unalign_b, unalign_a, paired);
    let n = unalign_b.len() as int;
    lemma_grid_of_is_grid(unalign_b, unalign_a, paired);
    if n > 0 {
        lemma_path_down_diagonal(unalign_b, unalign_a, paired, n - 1);
        lemma_dist_not_negative(unalign_b, unalign_a, paired, 2 * n - 1, 2 * n);
        lemma_dist_not_negative(unalign_b, unalign_a, paired, 2 * n, 2 * n - 1);
        assert(exit_point(g) == Some((2 * n - 1, 2 * n - 1)));
    }
    assert(alignment_entries(g) =~= Seq::new(
        unalign_b.len(),
        |i: int| (Some(i as usize), Some(i as usize)),
    ));
}

} // verus!
